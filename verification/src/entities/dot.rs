//! Particles: integration of motion and collision against one polygon.

use crate::entities::polygon::{BoundingBox, Polygon};
use crate::entities::segment::Segment;
use crate::utils::fixed::{
    floor_sqrt, lemma_floor_sqrt_exists, lemma_floor_sqrt_unique, lemma_quotient_of_multiple,
    magnitude, quotient, saturate, UNIT,
};
use crate::utils::vector::{lemma_length_of_small, norm2, Vector2};
use vstd::prelude::*;

verus! {

/// The step of the integrator: a quarter of a time unit.
pub const DELTA_T_RUNGE_KUTTA: i32 = 250;

/// The radius of every particle: ten units.
pub const RADIUS: i32 = 10_000;

/// The downward acceleration that every step adds.
pub const GRAVITY: i32 = 9_800;

/// The speed above which a particle is slowed down.
pub const MAX_SPEED: i32 = 200_000;

/// The speed that a particle is slowed down to.
pub const RESET_SPEED: i32 = 10_000;

/// How strongly a push biases the next step: ten times the push.
pub const PUSH_BIAS: i32 = 10_000;

/// A point mass with a radius.
#[derive(Copy, Clone, Debug, PartialEq, Eq, Structural)]
pub struct Dot {
    pub pos: Vector2,
    pub vel: Vector2,
    pub radius: i32,
    /// The position at the start of the last step.
    pub prev_pos: Vector2,
    /// What was accumulated since the last step.
    pub acceleration: Vector2,
    /// A frozen particle is neither integrated nor pushed.
    pub freeze: bool,
}

/// The number of segments that the ray from `point` toward growing `y`
/// crosses.
pub open spec fn crossings(edges: Seq<Segment>, point: Vector2) -> nat
    decreases edges.len(),
{
    if edges.len() == 0 {
        0
    } else {
        crossings(edges.drop_last(), point) + if edges.last().ray_hits(point) {
            1nat
        } else {
            0nat
        }
    }
}

/// The way from `point` to its foot on `edge`, saturating.
pub open spec fn offset_to(edge: Segment, point: Vector2) -> Vector2 {
    edge.foot(point).minus(point)
}

/// The exact squared length of a vector.
pub open spec fn size2(v: Vector2) -> int {
    norm2(v.x as int, v.y as int)
}

/// Edge `k` covers `point`, no covering edge lies nearer, and every covering
/// edge after it lies farther: among the nearest, `k` is the last.
pub open spec fn is_closest(edges: Seq<Segment>, point: Vector2, k: int) -> bool {
    &&& 0 <= k < edges.len()
    &&& edges[k].covers(point)
    &&& forall|j: int|
        0 <= j < edges.len() && (#[trigger] edges[j]).covers(point) ==> size2(
            offset_to(edges[k], point),
        ) <= size2(offset_to(edges[j], point))
    &&& forall|j: int|
        k < j < edges.len() && (#[trigger] edges[j]).covers(point) ==> size2(
            offset_to(edges[k], point),
        ) < size2(offset_to(edges[j], point))
}

/// At most one edge is the closest.
pub proof fn lemma_closest_unique(edges: Seq<Segment>, point: Vector2, a: int, b: int)
    requires
        is_closest(edges, point, a),
        is_closest(edges, point, b),
    ensures
        a == b,
{
    if a < b {
        assert(edges[b].covers(point));
        assert(edges[a].covers(point));
    } else if b < a {
        assert(edges[a].covers(point));
        assert(edges[b].covers(point));
    }
}

/// The shortest way from `point` to a foot on one of the edges that cover it;
/// none where no edge covers it.
pub open spec fn closest_offset(edges: Seq<Segment>, point: Vector2) -> Option<Vector2> {
    if exists|k: int| is_closest(edges, point, k) {
        Some(offset_to(edges[choose|k: int| is_closest(edges, point, k)], point))
    } else {
        None
    }
}

/// Of the edges that cover the point, one is the closest.
pub proof fn lemma_some_edge_is_closest(edges: Seq<Segment>, point: Vector2) -> (k: int)
    requires
        exists|j: int| 0 <= j < edges.len() && (#[trigger] edges[j]).covers(point),
    ensures
        is_closest(edges, point, k),
    decreases edges.len(),
{
    let n: int = edges.len() as int;
    let shorter: Seq<Segment> = edges.drop_last();
    if exists|j: int| 0 <= j < n - 1 && (#[trigger] edges[j]).covers(point) {
        let j: int = choose|j: int| 0 <= j < n - 1 && (#[trigger] edges[j]).covers(point);
        assert(shorter[j].covers(point));
        let before: int = lemma_some_edge_is_closest(shorter, point);
        assert(shorter[before] == edges[before]);
        assert forall|i: int| 0 <= i < n - 1 implies #[trigger] shorter[i] == edges[i] by {}
        if edges[n - 1].covers(point) && size2(offset_to(edges[n - 1], point)) <= size2(
            offset_to(edges[before], point),
        ) {
            assert forall|i: int| 0 <= i < n && (#[trigger] edges[i]).covers(point) implies size2(
                offset_to(edges[n - 1], point),
            ) <= size2(offset_to(edges[i], point)) by {
                if i < n - 1 {
                    assert(shorter[i].covers(point));
                }
            }
            n - 1
        } else {
            assert forall|i: int| 0 <= i < n && (#[trigger] edges[i]).covers(point) implies size2(
                offset_to(edges[before], point),
            ) <= size2(offset_to(edges[i], point)) by {
                if i < n - 1 {
                    assert(shorter[i].covers(point));
                }
            }
            assert forall|i: int|
                before < i < n && (#[trigger] edges[i]).covers(point) implies size2(
                offset_to(edges[before], point),
            ) < size2(offset_to(edges[i], point)) by {
                if i < n - 1 {
                    assert(shorter[i].covers(point));
                }
            }
            before
        }
    } else {
        let j: int = choose|j: int| 0 <= j < n && (#[trigger] edges[j]).covers(point);
        assert(j == n - 1);
        n - 1
    }
}

/// There is a closest offset exactly where some edge covers the point: it
/// is absent exactly where no edge does.
pub proof fn lemma_closest_offset_is_present(edges: Seq<Segment>, point: Vector2)
    ensures
        closest_offset(edges, point) is None <==> forall|j: int|
            0 <= j < edges.len() ==> !(#[trigger] edges[j]).covers(point),
        closest_offset(edges, point) is Some ==> exists|k: int|
            is_closest(edges, point, k) && closest_offset(edges, point) == Some(
                offset_to(edges[k], point),
            ),
{
    if exists|j: int| 0 <= j < edges.len() && (#[trigger] edges[j]).covers(point) {
        let k: int = lemma_some_edge_is_closest(edges, point);
    }
    if exists|k: int| is_closest(edges, point, k) {
        let k: int = choose|k: int| is_closest(edges, point, k);
        assert(edges[k].covers(point));
    }
}

/// A vector of length one at most, times `RESET_SPEED`, is far shorter than
/// `MAX_SPEED`.
proof fn lemma_slowed_is_slow(unit: Vector2)
    requires
        -UNIT <= unit.x <= UNIT,
        -UNIT <= unit.y <= UNIT,
    ensures
        unit.scale(RESET_SPEED).length() <= 2 * RESET_SPEED,
{
    let v: Vector2 = unit.scale(RESET_SPEED);
    lemma_quotient_of_multiple(unit.x * 10, 1000);
    lemma_quotient_of_multiple(unit.y * 10, 1000);
    assert(unit.x * 10_000 == (unit.x * 10) * 1000);
    assert(unit.y * 10_000 == (unit.y * 10) * 1000);
    assert(v.x == unit.x * 10);
    assert(v.y == unit.y * 10);
    lemma_length_of_small(v, 10_000);
}

/// The push for a centre whose nearest foot lies at `closest` from it. A
/// centre inside is pushed to the foot and one radius beyond it. A centre
/// outside whose foot is closer than the radius is pushed back until the
/// foot is one radius away. A centre outside and clear is not pushed.
pub open spec fn resolve(closest: Vector2, radius: i32, inside: bool) -> Option<Vector2> {
    let reach: Vector2 = closest.normalize().scale(radius);
    if inside {
        Some(closest.plus(reach))
    } else if closest.length() < radius {
        Some(closest.minus(reach))
    } else {
        None
    }
}

/// The length of a vector along one axis is the size of its component.
pub proof fn lemma_length_along_an_axis(v: Vector2)
    requires
        v.x == 0 || v.y == 0,
    ensures
        v.length() == saturate(magnitude(v.x as int) + magnitude(v.y as int)),
{
    let c: int = magnitude(v.x as int) + magnitude(v.y as int);
    assert(norm2(v.x as int, v.y as int) == c * c) by (nonlinear_arith)
        requires
            v.x == 0 || v.y == 0,
            c == magnitude(v.x as int) + magnitude(v.y as int),
    ;
    assert(c * c < (c + 1) * (c + 1)) by (nonlinear_arith)
        requires
            c >= 0,
    ;
    lemma_floor_sqrt_exists(c * c);
    lemma_floor_sqrt_unique(c * c, c, floor_sqrt(c * c));
}

/// One for a positive number, minus one for a negative number, zero for
/// zero.
pub open spec fn sign(v: int) -> int {
    if v > 0 {
        1
    } else if v < 0 {
        -1
    } else {
        0
    }
}

/// Along an axis the direction is exact: a vector along an axis, made one
/// unit long and scaled to `radius`, is `radius` along that axis.
pub proof fn lemma_reach_along_an_axis(closest: Vector2, radius: i32)
    requires
        closest.x == 0 || closest.y == 0,
        closest != Vector2::zero(),
        0 <= radius,
    ensures
        closest.normalize().scale(radius).x == sign(closest.x as int) * radius,
        closest.normalize().scale(radius).y == sign(closest.y as int) * radius,
        closest.normalize().scale(radius).length() == radius,
        closest.length() == saturate(magnitude(closest.x as int) + magnitude(closest.y as int)),
{
    let c: int = magnitude(closest.x as int) + magnitude(closest.y as int);
    lemma_length_along_an_axis(closest);
    assert(norm2(closest.x as int, closest.y as int) == c * c) by (nonlinear_arith)
        requires
            closest.x == 0 || closest.y == 0,
            c == magnitude(closest.x as int) + magnitude(closest.y as int),
    ;
    assert(c * c < (c + 1) * (c + 1)) by (nonlinear_arith)
        requires
            c >= 0,
    ;
    lemma_floor_sqrt_exists(c * c);
    lemma_floor_sqrt_unique(c * c, c, floor_sqrt(c * c));
    let unit: Vector2 = closest.normalize();
    let sign_x: int = sign(closest.x as int);
    let sign_y: int = sign(closest.y as int);
    assert(closest.x * 1000 == (sign_x * 1000) * c && closest.y * 1000 == (sign_y * 1000) * c)
        by (nonlinear_arith)
        requires
            c == magnitude(closest.x as int) + magnitude(closest.y as int),
            closest.x == 0 || closest.y == 0,
            sign_x == sign(closest.x as int),
            sign_y == sign(closest.y as int),
    ;
    lemma_quotient_of_multiple(sign_x * 1000, c);
    lemma_quotient_of_multiple(sign_y * 1000, c);
    assert(unit.x == sign_x * 1000 && unit.y == sign_y * 1000);
    let reach: Vector2 = unit.scale(radius);
    assert(unit.x * radius == (sign_x * radius) * 1000 && unit.y * radius == (sign_y * radius)
        * 1000) by (nonlinear_arith)
        requires
            unit.x == sign_x * 1000,
            unit.y == sign_y * 1000,
    ;
    lemma_quotient_of_multiple(sign_x * radius, 1000);
    lemma_quotient_of_multiple(sign_y * radius, 1000);
    assert(reach.x == sign_x * radius && reach.y == sign_y * radius) by (nonlinear_arith)
        requires
            reach.x == saturate(quotient(unit.x * radius, 1000)),
            reach.y == saturate(quotient(unit.y * radius, 1000)),
            quotient((sign_x * radius) * 1000, 1000) == sign_x * radius,
            quotient((sign_y * radius) * 1000, 1000) == sign_y * radius,
            unit.x * radius == (sign_x * radius) * 1000,
            unit.y * radius == (sign_y * radius) * 1000,
            -1 <= sign_x <= 1,
            -1 <= sign_y <= 1,
            0 <= radius <= i32::MAX,
    ;
    assert(reach.x == 0 || reach.y == 0);
    lemma_length_along_an_axis(reach);
    assert(magnitude(reach.x as int) + magnitude(reach.y as int) == radius) by (nonlinear_arith)
        requires
            reach.x == sign_x * radius,
            reach.y == sign_y * radius,
            (sign_x == 0 && (sign_y == 1 || sign_y == -1)) || (sign_y == 0 && (sign_x == 1
                || sign_x == -1)),
            radius >= 0,
    ;
}

/// Along an axis the push is exact. For a foot straight beside the centre,
/// above it or below it, the push leaves exactly one radius between the
/// centre and the foot: a centre outside is pushed back until the foot is
/// one radius away, a centre inside is pushed one radius beyond the foot.
/// A centre outside that is not pushed is at least one radius away.
pub proof fn lemma_push_along_an_axis(closest: Vector2, radius: i32, inside: bool)
    requires
        closest.x == 0 || closest.y == 0,
        closest != Vector2::zero(),
        0 <= radius,
        magnitude(closest.x as int) + magnitude(closest.y as int) + radius <= i32::MAX,
    ensures
        match resolve(closest, radius, inside) {
            Some(push) => push.minus(closest).length() == radius && closest.minus(push).length()
                == radius && (if inside {
                push.minus(closest)
            } else {
                closest.minus(push)
            }) == closest.normalize().scale(radius),
            None => closest.length() >= radius,
        },
{
    lemma_reach_along_an_axis(closest, radius);
    let reach: Vector2 = closest.normalize().scale(radius);
    assert(reach.negate().x == 0 || reach.negate().y == 0);
    lemma_length_along_an_axis(reach.negate());
    if inside {
        let push: Vector2 = closest.plus(reach);
        assert(push.minus(closest) == reach);
        assert(closest.minus(push) == reach.negate());
    } else if closest.length() < radius {
        let push: Vector2 = closest.minus(reach);
        assert(closest.minus(push) == reach);
        assert(push.minus(closest) == reach.negate());
    }
}

impl Dot {
    /// The constant acceleration of gravity.
    pub open spec fn gravity() -> Vector2 {
        Vector2 { x: 0, y: GRAVITY }
    }

    /// A particle at rest at `pos`, or in the middle of a screen of the given
    /// size where no position is given.
    pub open spec fn spec_new(pos: Option<Vector2>, screen_width: i32, screen_height: i32) -> Dot {
        let start: Vector2 = match pos {
            Some(p) => p,
            None => Vector2 {
                x: quotient(screen_width as int, 2) as i32,
                y: quotient(screen_height as int, 2) as i32,
            },
        };
        Dot {
            pos: start,
            prev_pos: start,
            radius: RADIUS,
            vel: Vector2::zero(),
            acceleration: Vector2::zero(),
            freeze: false,
        }
    }

    /// A particle at rest at `pos`, or in the middle of the screen where no
    /// position is given.
    pub fn new(pos: Option<Vector2>, screen_width: i32, screen_height: i32) -> (d: Dot)
        ensures
            d == Dot::spec_new(pos, screen_width, screen_height),
    {
        let start: Vector2 = match pos {
            Some(p) => p,
            None => Vector2::new(screen_width / 2, screen_height / 2),
        };
        Dot {
            pos: start,
            prev_pos: start,
            radius: RADIUS,
            vel: Vector2::zero(),
            acceleration: Vector2::zero(),
            freeze: false,
        }
    }

    /// The particle is more than two screens away from the origin along one
    /// axis.
    pub open spec fn spec_is_out_of_bounds(&self, screen_width: i32, screen_height: i32) -> bool {
        ||| self.pos.x > 2 * screen_width
        ||| -self.pos.x > 2 * screen_width
        ||| self.pos.y > 2 * screen_height
        ||| -self.pos.y > 2 * screen_height
    }

    /// Whether the particle has run away from a screen of the given size.
    pub fn is_out_of_bounds(&self, screen_width: i32, screen_height: i32) -> (r: bool)
        ensures
            r == self.spec_is_out_of_bounds(screen_width, screen_height),
    {
        let x: i64 = self.pos.x as i64;
        let y: i64 = self.pos.y as i64;
        let ax: i64 = if x < 0 { -x } else { x };
        let ay: i64 = if y < 0 { -y } else { y };
        ax > 2 * (screen_width as i64) || ay > 2 * (screen_height as i64)
    }

    /// The velocity after the safety valve: a speed above `MAX_SPEED` is
    /// replaced by `RESET_SPEED` in the same direction.
    pub open spec fn limited(vel: Vector2) -> Vector2 {
        if vel.length() > MAX_SPEED {
            vel.normalize().scale(RESET_SPEED)
        } else {
            vel
        }
    }

    /// The particle after one step of the integrator.
    #[verifier::opaque]
    pub open spec fn spec_update(self) -> Dot {
        let acceleration: Vector2 = self.acceleration.plus(Dot::gravity());
        if self.freeze {
            Dot { prev_pos: self.pos, acceleration: Vector2::zero(), ..self }
        } else {
            let vel: Vector2 = Dot::limited(
                self.vel.plus(acceleration.scale(DELTA_T_RUNGE_KUTTA)),
            );
            Dot {
                prev_pos: self.pos,
                vel,
                pos: self.pos.plus(vel.scale(DELTA_T_RUNGE_KUTTA)),
                acceleration: Vector2::zero(),
                ..self
            }
        }
    }

    /// One step of the integrator: gravity joins what was accumulated, the
    /// position is remembered, and unless the particle is frozen the
    /// velocity and then the position advance by a quarter of a time unit.
    /// What was accumulated is cleared.
    pub fn update(&mut self)
        ensures
            *final(self) == old(self).spec_update(),
            final(self).prev_pos == old(self).pos,
            final(self).acceleration == Vector2::zero(),
            final(self).radius == old(self).radius,
            final(self).freeze == old(self).freeze,
            !old(self).freeze ==> final(self).vel.length() <= MAX_SPEED,
            old(self).freeze ==> final(self).pos == old(self).pos,
            old(self).freeze ==> final(self).vel == old(self).vel,
    {
        proof {
            reveal(Dot::spec_update);
        }
        self.add_gravity();
        self.prev_pos = self.pos;
        if !self.freeze {
            self.vel = self.vel.plus(self.acceleration.scale(DELTA_T_RUNGE_KUTTA));
            self.vel = if self.vel.length() > MAX_SPEED {
                let slowed: Vector2 = self.vel.normalize().scale(RESET_SPEED);
                proof {
                    lemma_slowed_is_slow(self.vel.normalize());
                }
                slowed
            } else {
                self.vel
            };
            self.pos = self.pos.plus(self.vel.scale(DELTA_T_RUNGE_KUTTA));
        }
        self.acceleration = Vector2::zero();
    }

    /// The particle moved by `push_vec`, with the velocity that leads from
    /// the remembered position to the new one in one step.
    pub open spec fn spec_update_runge(self, push_vec: Vector2) -> Dot {
        let pos: Vector2 = self.pos.plus(push_vec);
        Dot { pos, vel: pos.minus(self.prev_pos).divide(DELTA_T_RUNGE_KUTTA), ..self }
    }

    /// Moves the particle by `push_vec` and derives its velocity from the
    /// way it has come since the start of the step.
    pub fn update_runge(&mut self, push_vec: &Vector2)
        ensures
            *final(self) == old(self).spec_update_runge(*push_vec),
    {
        self.pos = self.pos.plus(*push_vec);
        self.vel = self.pos.minus(self.prev_pos).divide(DELTA_T_RUNGE_KUTTA);
    }

    /// Adds to what the next step will integrate.
    pub fn add_acceleration(&mut self, acceleration: Vector2)
        ensures
            *final(self) == (Dot {
                acceleration: old(self).acceleration.plus(acceleration),
                ..*old(self)
            }),
    {
        self.acceleration = self.acceleration.plus(acceleration);
    }

    /// Adds gravity to what the next step will integrate.
    pub fn add_gravity(&mut self)
        ensures
            *final(self) == (Dot {
                acceleration: old(self).acceleration.plus(Dot::gravity()),
                ..*old(self)
            }),
    {
        self.acceleration = self.acceleration.plus(Vector2::new(0, GRAVITY));
    }

    /// The particle after a push: moved at once, and biased for the next
    /// step. A frozen particle stays as it is.
    pub open spec fn spec_push(self, push_vec: Vector2) -> Dot {
        if self.freeze {
            self
        } else {
            Dot {
                acceleration: self.acceleration.plus(push_vec.scale(PUSH_BIAS)),
                pos: self.pos.plus(push_vec),
                ..self
            }
        }
    }

    /// Applies a corrective displacement.
    pub fn push(&mut self, push_vec: &Vector2)
        ensures
            *final(self) == old(self).spec_push(*push_vec),
    {
        if self.freeze {
            return;
        }
        self.acceleration = self.acceleration.plus(push_vec.scale(PUSH_BIAS));
        self.pos = self.pos.plus(*push_vec);
    }

    /// The disc of the particle reaches into the box, on both axes.
    pub open spec fn overlaps_box(&self, b: BoundingBox) -> bool {
        &&& self.pos.x - self.radius < b.max_hor
        &&& self.pos.x + self.radius > b.min_hor
        &&& self.pos.y - self.radius < b.max_ver
        &&& self.pos.y + self.radius > b.min_ver
    }

    /// Whether the disc reaches into the bounding box of the polygon.
    fn is_in_bounding_box(&self, polygon: &Polygon) -> (r: bool)
        ensures
            r == self.overlaps_box(polygon.frame()),
    {
        let b: BoundingBox = polygon.bounding_box();
        let x: i64 = self.pos.x as i64;
        let y: i64 = self.pos.y as i64;
        let radius: i64 = self.radius as i64;
        x - radius < b.max_hor as i64 && x + radius > b.min_hor as i64 && y - radius
            < b.max_ver as i64 && y + radius > b.min_ver as i64
    }

    /// The ray from the centre toward growing `y` crosses an odd number of
    /// edges.
    pub open spec fn center_inside(&self, polygon: &Polygon) -> bool {
        crossings(polygon.edges(), self.pos) % 2 == 1
    }

    /// Whether the centre lies inside the polygon, by the parity of the
    /// edges that a ray from it crosses.
    pub fn is_center_inside_polygon(&self, polygon: &Polygon) -> (r: bool)
        ensures
            r == self.center_inside(polygon),
    {
        let segments: Vec<Segment> = polygon.segments();
        let mut odd: bool = false;
        let mut i: usize = 0;
        while i < segments.len()
            invariant
                i <= segments@.len(),
                odd == (crossings(segments@.take(i as int), self.pos) % 2 == 1),
            decreases segments@.len() - i,
        {
            assert(segments@.take(i + 1).drop_last() =~= segments@.take(i as int));
            if segments[i].vertical_raycast(&self.pos) {
                odd = !odd;
            }
            i += 1;
        }
        assert(segments@.take(i as int) =~= segments@);
        odd
    }

    /// The shortest way from the centre to a foot on an edge that covers it.
    /// Of two feet equally near, the one on the later edge is taken.
    fn get_closest_projection(&self, polygon: &Polygon) -> (r: Option<Vector2>)
        ensures
            r == closest_offset(polygon.edges(), self.pos),
    {
        let segments: Vec<Segment> = polygon.segments();
        let ghost edges: Seq<Segment> = segments@;
        let mut best: Option<Vector2> = None;
        let mut best_size: u64 = 0;
        let ghost mut at: int = -1;
        let mut i: usize = 0;
        while i < segments.len()
            invariant
                i <= segments@.len(),
                edges == segments@,
                best is None ==> at == -1 && forall|j: int|
                    0 <= j < i ==> !(#[trigger] edges[j]).covers(self.pos),
                best is Some ==> is_closest(edges.take(i as int), self.pos, at)
                    && best == Some(offset_to(edges[at], self.pos))
                    && best_size == size2(offset_to(edges[at], self.pos)),
            decreases segments@.len() - i,
        {
            let ghost seen: Seq<Segment> = edges.take(i as int);
            let ghost next: Seq<Segment> = edges.take(i + 1);
            assert forall|j: int| 0 <= j < i implies #[trigger] next[j] == seen[j] by {}
            assert(next[i as int] == edges[i as int]);
            match segments[i].get_projection(&self.pos) {
                None => {
                    proof {
                        if best is Some {
                            assert(is_closest(next, self.pos, at)) by {
                                assert(next[at] == seen[at]);
                                assert forall|j: int|
                                    0 <= j < next.len() && (#[trigger] next[j]).covers(
                                        self.pos,
                                    ) implies size2(offset_to(next[at], self.pos)) <= size2(
                                    offset_to(next[j], self.pos),
                                ) by {
                                    assert(seen[j].covers(self.pos));
                                }
                                assert forall|j: int|
                                    at < j < next.len() && (#[trigger] next[j]).covers(
                                        self.pos,
                                    ) implies size2(offset_to(next[at], self.pos)) < size2(
                                    offset_to(next[j], self.pos),
                                ) by {
                                    assert(seen[j].covers(self.pos));
                                }
                            }
                        }
                    }
                },
                Some(projection) => {
                    let offset: Vector2 = projection.minus(self.pos);
                    let size: u64 = offset.length_squared();
                    let better: bool = match best {
                        None => true,
                        Some(_) => !(best_size < size),
                    };
                    if better {
                        proof {
                            assert(is_closest(next, self.pos, i as int)) by {
                                assert forall|j: int|
                                    0 <= j < next.len() && (#[trigger] next[j]).covers(
                                        self.pos,
                                    ) implies size2(offset_to(next[i as int], self.pos))
                                    <= size2(offset_to(next[j], self.pos)) by {
                                    if j < i {
                                        assert(seen[j].covers(self.pos));
                                        assert(seen[at] == edges[at]);
                                    }
                                }
                            }
                            at = i as int;
                        }
                        best = Some(offset);
                        best_size = size;
                    } else {
                        proof {
                            assert(is_closest(next, self.pos, at)) by {
                                assert(next[at] == seen[at]);
                                assert forall|j: int|
                                    0 <= j < next.len() && (#[trigger] next[j]).covers(
                                        self.pos,
                                    ) implies size2(offset_to(next[at], self.pos)) <= size2(
                                    offset_to(next[j], self.pos),
                                ) by {
                                    if j < i {
                                        assert(seen[j].covers(self.pos));
                                    }
                                }
                                assert forall|j: int|
                                    at < j < next.len() && (#[trigger] next[j]).covers(
                                        self.pos,
                                    ) implies size2(offset_to(next[at], self.pos)) < size2(
                                    offset_to(next[j], self.pos),
                                ) by {
                                    if j < i {
                                        assert(seen[j].covers(self.pos));
                                    }
                                }
                            }
                        }
                    }
                },
            }
            i += 1;
        }
        proof {
            assert(edges.take(i as int) =~= edges);
            if best is Some {
                let k: int = choose|k: int| is_closest(edges, self.pos, k);
                lemma_closest_unique(edges, self.pos, at, k);
            } else {
                assert forall|k: int| !is_closest(edges, self.pos, k) by {
                    if 0 <= k < edges.len() {
                        assert(!edges[k].covers(self.pos));
                    }
                }
            }
        }
        best
    }

    /// The push that resolves the collision with `polygon`, if there is one.
    ///
    /// No push where the disc stays clear of the bounding box or no edge
    /// covers the centre. A centre inside the polygon is pushed to the
    /// nearest foot and one radius beyond it. A centre outside whose nearest
    /// foot is closer than the radius is pushed back until the foot is one
    /// radius away.
    #[verifier::opaque]
    pub open spec fn spec_push_vector(&self, polygon: &Polygon) -> Option<Vector2> {
        if !self.overlaps_box(polygon.frame()) {
            None
        } else {
            match closest_offset(polygon.edges(), self.pos) {
                None => None,
                Some(closest) => resolve(closest, self.radius, self.center_inside(polygon)),
            }
        }
    }

    /// The push that moves the particle out of `polygon`, if they collide.
    pub fn get_push_vector(&self, polygon: &Polygon) -> (r: Option<Vector2>)
        ensures
            r == self.spec_push_vector(polygon),
    {
        proof {
            reveal(Dot::spec_push_vector);
        }
        if !self.is_in_bounding_box(polygon) {
            return None;
        }
        let closest_projection: Vector2 = match self.get_closest_projection(polygon) {
            None => {
                return None;
            },
            Some(v) => v,
        };
        let radius_projection: Vector2 = closest_projection.normalize().scale(self.radius);
        let is_center_inside: bool = self.is_center_inside_polygon(polygon);
        let is_partially_inside: bool = closest_projection.length() < self.radius;
        if is_center_inside {
            return Some(closest_projection.plus(radius_projection));
        }
        if is_partially_inside {
            return Some(closest_projection.minus(radius_projection));
        }
        None
    }
}

} // verus!
