//! Soft bodies: a lattice of particles held together by damped springs.

use crate::entities::dot::Dot;
use crate::entities::interaction::{
    after_point_collision, after_polygon_collision, handle_point_point_collision,
    handle_point_polygon_collision,
};
use crate::entities::polygon::Polygon;
use crate::utils::fixed::{
    div_toward_zero, magnitude, mul_fixed, product, quotient, sat_abs, sat_add, sat_sub, saturate,
    saturate_i64,
};
use crate::utils::math::{blend, close_to_equal, half_step, runge_kutta_integration, sampled};
use crate::utils::vector::Vector2;
use vstd::prelude::*;

verus! {

/// How strongly a spring resists the relative speed of its ends.
pub const DAMPING_FACTOR: i32 = 800;

/// The stiffness of a spring inside the body.
pub const STIFFNESS: i32 = 10_000;

/// What the stiffness of a spring on the border has on top.
pub const BORDER_BONUS: i32 = 2_000;

/// How many times the search for a mesh refines one of its two counts.
pub const MAX_REFINEMENTS: u32 = 64;

/// The particle lies on one of the four lines through the two corners.
pub open spec fn on_border(pos: Vector2, corner1: Vector2, corner2: Vector2) -> bool {
    ||| close_to_equal(pos.x, corner1.x)
    ||| close_to_equal(pos.y, corner1.y)
    ||| close_to_equal(pos.x, corner2.x)
    ||| close_to_equal(pos.y, corner2.y)
}

/// Both particles lie on the border, on one horizontal or vertical line.
pub open spec fn both_on_border(a: Vector2, b: Vector2, corner1: Vector2, corner2: Vector2) -> bool {
    &&& on_border(a, corner1, corner2)
    &&& on_border(b, corner1, corner2)
    &&& (close_to_equal(a.x, b.x) || close_to_equal(a.y, b.y))
}

/// Whether the particle lies on the border of the rectangle between the
/// two corners.
fn is_dot_on_border(dot: &Dot, corner1: &Vector2, corner2: &Vector2) -> (r: bool)
    ensures
        r == on_border(dot.pos, *corner1, *corner2),
{
    close_to_equal(dot.pos.x, corner1.x) || close_to_equal(dot.pos.y, corner1.y) || close_to_equal(
        dot.pos.x,
        corner2.x,
    ) || close_to_equal(dot.pos.y, corner2.y)
}

/// Whether a spring between the two particles runs along the border.
fn are_dots_on_border(dot1: &Dot, dot2: &Dot, corner1: &Vector2, corner2: &Vector2) -> (r: bool)
    ensures
        r == both_on_border(dot1.pos, dot2.pos, *corner1, *corner2),
{
    is_dot_on_border(dot1, corner1, corner2) && is_dot_on_border(dot2, corner1, corner2) && (
    close_to_equal(dot1.pos.x, dot2.pos.x) || close_to_equal(dot1.pos.y, dot2.pos.y))
}

/// A damped spring between two particles of one body, named by their
/// indices.
#[derive(Copy, Clone, Debug, PartialEq, Eq, Structural)]
pub struct Spring {
    pub stiffness: i32,
    pub damping_factor: i32,
    /// The distance of the two particles when the spring was made.
    pub rest_length: i32,
    pub index_1: usize,
    pub index_2: usize,
    pub is_on_border: bool,
}

impl Spring {
    /// The spring between two particles of `dots`, at rest at their
    /// distance.
    pub open spec fn spec_new(
        dots: Seq<Dot>,
        index_1: usize,
        index_2: usize,
        stiffness: i32,
        is_on_border: bool,
    ) -> Spring {
        Spring {
            index_1,
            index_2,
            rest_length: dots[index_1 as int].pos.minus(dots[index_2 as int].pos).length(),
            stiffness,
            damping_factor: DAMPING_FACTOR,
            is_on_border,
        }
    }

    /// The spring between two particles, at rest at their present distance.
    pub fn new(
        dots: &[Dot],
        index_1: usize,
        index_2: usize,
        stiffness: i32,
        is_on_border: bool,
    ) -> (s: Spring)
        requires
            index_1 < dots@.len(),
            index_2 < dots@.len(),
        ensures
            s == Spring::spec_new(dots@, index_1, index_2, stiffness, is_on_border),
            s.rest_length >= 0,
            s.rest_length == 0 <==> dots@[index_1 as int].pos.minus(dots@[index_2 as int].pos)
                == Vector2::zero(),
    {
        Spring {
            index_1,
            index_2,
            rest_length: dots[index_1].pos.minus(dots[index_2].pos).length(),
            stiffness,
            damping_factor: DAMPING_FACTOR,
            is_on_border,
        }
    }

    /// Hooke's law: the stretch beyond the rest length, times the stiffness.
    pub open spec fn hooke_force(&self, pos1: Vector2, pos2: Vector2) -> i32 {
        product(saturate(pos1.minus(pos2).length() - self.rest_length), self.stiffness as int) as i32
    }

    /// Hooke's law for ends at `pos1` and `pos2`.
    fn get_hooke_force(&self, pos1: Vector2, pos2: Vector2) -> (f: i32)
        ensures
            f == self.hooke_force(pos1, pos2),
    {
        mul_fixed(sat_sub(pos1.minus(pos2).length(), self.rest_length), self.stiffness)
    }

    /// The speed at which the ends separate along the spring, times the
    /// damping factor.
    pub open spec fn damping(&self, pos1: Vector2, pos2: Vector2, vel1: Vector2, vel2: Vector2) -> i32 {
        product(
            pos1.minus(pos2).normalize().dot(vel1.minus(vel2)) as int,
            self.damping_factor as int,
        ) as i32
    }

    /// The damping for ends at `pos1` and `pos2` that move with `vel1` and
    /// `vel2`.
    fn get_damping(&self, pos1: Vector2, pos2: Vector2, vel1: Vector2, vel2: Vector2) -> (f: i32)
        ensures
            f == self.damping(pos1, pos2, vel1, vel2),
    {
        mul_fixed(pos1.minus(pos2).normalize().dot(vel1.minus(vel2)), self.damping_factor)
    }

    /// The force of the spring: Hooke's law plus damping, along the way from
    /// the second end to the first.
    #[verifier::opaque]
    pub open spec fn force(&self, pos1: Vector2, pos2: Vector2, vel1: Vector2, vel2: Vector2) -> Vector2 {
        pos1.minus(pos2).normalize().scale(
            saturate(self.hooke_force(pos1, pos2) + self.damping(pos1, pos2, vel1, vel2)) as i32,
        )
    }

    /// The force of the spring for ends at `pos1` and `pos2` that move with
    /// `vel1` and `vel2`.
    pub fn get_force(&self, pos1: Vector2, pos2: Vector2, vel1: Vector2, vel2: Vector2) -> (f: Vector2)
        ensures
            f == self.force(pos1, pos2, vel1, vel2),
    {
        proof {
            reveal(Spring::force);
        }
        pos1.minus(pos2).normalize().scale(
            sat_add(self.get_hooke_force(pos1, pos2), self.get_damping(pos1, pos2, vel1, vel2)),
        )
    }
}

/// With `hor_sub` columns and `ver_sub` rows, the width of a cell is within
/// a tenth of its height.
pub open spec fn balanced(hor_distance: int, ver_distance: int, hor_sub: int, ver_sub: int) -> bool {
    let across: int = magnitude(hor_distance) * ver_sub;
    let down: int = magnitude(ver_distance) * hor_sub;
    9 * down < 10 * across && 10 * across < 11 * down
}

/// With `hor_sub` columns and `ver_sub` rows, a cell is wider than high.
pub open spec fn wider(hor_distance: int, ver_distance: int, hor_sub: int, ver_sub: int) -> bool {
    hor_distance * ver_sub > ver_distance * hor_sub
}

/// The counts that the search arrives at from `(hor_sub, ver_sub)` within
/// `fuel` refinements: it stops at the first balanced pair, and otherwise
/// adds a column where the cells are wider than high and a row where not.
pub open spec fn refine(
    hor_distance: int,
    ver_distance: int,
    hor_sub: int,
    ver_sub: int,
    fuel: nat,
) -> (int, int)
    decreases fuel,
{
    if fuel == 0 || balanced(hor_distance, ver_distance, hor_sub, ver_sub) {
        (hor_sub, ver_sub)
    } else if wider(hor_distance, ver_distance, hor_sub, ver_sub) {
        refine(hor_distance, ver_distance, hor_sub + 1, ver_sub, (fuel - 1) as nat)
    } else {
        refine(hor_distance, ver_distance, hor_sub, ver_sub + 1, (fuel - 1) as nat)
    }
}

/// The counts of columns and rows for a rectangle of the given extent.
pub open spec fn subdivisions(hor_distance: int, ver_distance: int) -> (int, int) {
    refine(hor_distance, ver_distance, 1, 1, MAX_REFINEMENTS as nat)
}

/// The search never leaves the counts it can reach with its fuel.
pub proof fn lemma_refine_bounds(
    hor_distance: int,
    ver_distance: int,
    hor_sub: int,
    ver_sub: int,
    fuel: nat,
)
    ensures
        ({
            let r = refine(hor_distance, ver_distance, hor_sub, ver_sub, fuel);
            &&& hor_sub <= r.0
            &&& ver_sub <= r.1
            &&& r.0 + r.1 <= hor_sub + ver_sub + fuel
            &&& (balanced(hor_distance, ver_distance, r.0, r.1) || r.0 + r.1 == hor_sub + ver_sub
                + fuel)
        }),
    decreases fuel,
{
    if fuel == 0 || balanced(hor_distance, ver_distance, hor_sub, ver_sub) {
    } else if wider(hor_distance, ver_distance, hor_sub, ver_sub) {
        lemma_refine_bounds(hor_distance, ver_distance, hor_sub + 1, ver_sub, (fuel - 1) as nat);
    } else {
        lemma_refine_bounds(hor_distance, ver_distance, hor_sub, ver_sub + 1, (fuel - 1) as nat);
    }
}

/// Searches the counts of columns and rows that make the cells of a mesh
/// over the given extent nearly square. Starting from one column and one
/// row, it refines the longer side of the cell until the two sides are
/// within a tenth of each other, or `MAX_REFINEMENTS` refinements are spent.
pub fn get_subdivisions(hor_distance: i32, ver_distance: i32) -> (r: (i32, i32))
    ensures
        (r.0 as int, r.1 as int) == subdivisions(hor_distance as int, ver_distance as int),
        1 <= r.0,
        1 <= r.1,
        r.0 + r.1 <= 2 + MAX_REFINEMENTS,
        balanced(hor_distance as int, ver_distance as int, r.0 as int, r.1 as int) || r.0 + r.1
            == 2 + MAX_REFINEMENTS,
{
    let w: i64 = hor_distance as i64;
    let h: i64 = ver_distance as i64;
    let aw: i64 = if w < 0 { -w } else { w };
    let ah: i64 = if h < 0 { -h } else { h };
    let mut hor_sub: i32 = 1;
    let mut ver_sub: i32 = 1;
    let mut spent: u32 = 0;
    proof {
        lemma_refine_bounds(w as int, h as int, 1, 1, MAX_REFINEMENTS as nat);
    }
    while spent < MAX_REFINEMENTS
        invariant
            w == hor_distance,
            h == ver_distance,
            aw == magnitude(w as int),
            ah == magnitude(h as int),
            spent <= MAX_REFINEMENTS,
            1 <= hor_sub,
            1 <= ver_sub,
            hor_sub + ver_sub == 2 + spent,
            subdivisions(w as int, h as int) == refine(
                w as int,
                h as int,
                hor_sub as int,
                ver_sub as int,
                (MAX_REFINEMENTS - spent) as nat,
            ),
        decreases MAX_REFINEMENTS - spent,
    {
        assert(aw * ver_sub <= 0x8000_0000 * 66 && ah * hor_sub <= 0x8000_0000 * 66
            && -0x8000_0000 * 66 <= w * ver_sub <= 0x8000_0000 * 66 && -0x8000_0000 * 66 <= h
            * hor_sub <= 0x8000_0000 * 66) by (nonlinear_arith)
            requires
                0 <= aw <= 0x8000_0000,
                0 <= ah <= 0x8000_0000,
                -0x8000_0000 <= w <= 0x8000_0000,
                -0x8000_0000 <= h <= 0x8000_0000,
                1 <= hor_sub <= 66,
                1 <= ver_sub <= 66,
        ;
        let across: i64 = aw * ver_sub as i64;
        let down: i64 = ah * hor_sub as i64;
        if 9 * down < 10 * across && 10 * across < 11 * down {
            return (hor_sub, ver_sub);
        }
        if w * (ver_sub as i64) > h * (hor_sub as i64) {
            hor_sub = hor_sub + 1;
        } else {
            ver_sub = ver_sub + 1;
        }
        spent = spent + 1;
    }
    (hor_sub, ver_sub)
}

/// `count` steps of length `step`, saturating.
pub open spec fn stride(count: int, step: i32) -> i32 {
    saturate(count * step) as i32
}

/// The place of the particle in column `column` and row `row` of a lattice
/// that starts at `top_left`.
pub open spec fn lattice_point(
    top_left: Vector2,
    column: int,
    row: int,
    horizontal_step: i32,
    vertical_step: i32,
) -> Vector2 {
    top_left.plus(
        Vector2 { x: stride(column, horizontal_step), y: stride(row, vertical_step) },
    )
}

/// A lattice of particles at rest, column after column, each column from
/// its first row to its last. There is one column and one row more than
/// there are cells.
pub open spec fn lattice(
    top_left: Vector2,
    hor_sub: int,
    ver_sub: int,
    horizontal_step: i32,
    vertical_step: i32,
) -> Seq<Dot> {
    Seq::new(
        ((hor_sub + 1) * (ver_sub + 1)) as nat,
        |k: int|
            Dot::spec_new(
                Some(
                    lattice_point(
                        top_left,
                        k / (ver_sub + 1),
                        k % (ver_sub + 1),
                        horizontal_step,
                        vertical_step,
                    ),
                ),
                0,
                0,
            ),
    )
}

/// The extent of the rectangle between two corners, along each axis.
pub open spec fn extent(top_left: Vector2, bottom_right: Vector2) -> (i32, i32) {
    (
        saturate(bottom_right.x - top_left.x) as i32,
        saturate(bottom_right.y - top_left.y) as i32,
    )
}

/// The steps of the mesh over the rectangle between two corners: its extent
/// along each axis, divided by the count of cells along that axis.
pub open spec fn mesh_steps(top_left: Vector2, bottom_right: Vector2) -> (i32, i32) {
    let (w, h) = extent(top_left, bottom_right);
    let (hor_sub, ver_sub) = subdivisions(w as int, h as int);
    (quotient(w as int, hor_sub) as i32, quotient(h as int, ver_sub) as i32)
}

/// The particles of the mesh over the rectangle between two corners.
pub open spec fn mesh_dots(top_left: Vector2, bottom_right: Vector2) -> Seq<Dot> {
    let (w, h) = extent(top_left, bottom_right);
    let (hor_sub, ver_sub) = subdivisions(w as int, h as int);
    let (horizontal_step, vertical_step) = mesh_steps(top_left, bottom_right);
    lattice(top_left, hor_sub, ver_sub, horizontal_step, vertical_step)
}

/// `count` steps of length `step`, saturating.
fn step_times(count: i32, step: i32) -> (r: i32)
    requires
        0 <= count <= 0x1_0000,
    ensures
        r == stride(count as int, step),
{
    assert(-0x8000_0000_0000 <= count * step <= 0x8000_0000_0000) by (nonlinear_arith)
        requires
            0 <= count <= 0x1_0000,
            -0x8000_0000 <= step <= 0x7fff_ffff,
    ;
    saturate_i64(count as i64 * step as i64)
}

/// Places the particles of a mesh over the rectangle between two corners,
/// and returns them with the horizontal and the vertical step.
pub fn generate_dots(top_left_corner: Vector2, bottom_right_corner: Vector2) -> (r: (
    Vec<Dot>,
    (i32, i32),
))
    ensures
        r.0@ == mesh_dots(top_left_corner, bottom_right_corner),
        r.1 == mesh_steps(top_left_corner, bottom_right_corner),
{
    let w: i32 = sat_sub(bottom_right_corner.x, top_left_corner.x);
    let h: i32 = sat_sub(bottom_right_corner.y, top_left_corner.y);
    let (horizontal_subdivisions, vertical_subdivisions) = get_subdivisions(w, h);
    let mut dots: Vec<Dot> = Vec::new();
    let horizontal_step: i32 = div_toward_zero(w as i128, horizontal_subdivisions as i128) as i32;
    let vertical_step: i32 = div_toward_zero(h as i128, vertical_subdivisions as i128) as i32;
    let ghost goal: Seq<Dot> = lattice(
        top_left_corner,
        horizontal_subdivisions as int,
        vertical_subdivisions as int,
        horizontal_step,
        vertical_step,
    );
    let rows: i32 = vertical_subdivisions + 1;
    let mut horizontal_pos: i32 = 0;
    while horizontal_pos < horizontal_subdivisions + 1
        invariant
            1 <= horizontal_subdivisions <= 66,
            1 <= vertical_subdivisions <= 66,
            rows == vertical_subdivisions + 1,
            0 <= horizontal_pos <= horizontal_subdivisions + 1,
            dots@.len() == horizontal_pos * rows,
            goal == lattice(
                top_left_corner,
                horizontal_subdivisions as int,
                vertical_subdivisions as int,
                horizontal_step,
                vertical_step,
            ),
            forall|k: int| 0 <= k < dots@.len() ==> #[trigger] dots@[k] == goal[k],
        decreases horizontal_subdivisions + 1 - horizontal_pos,
    {
        let mut vertical_pos: i32 = 0;
        while vertical_pos < vertical_subdivisions + 1
            invariant
                1 <= horizontal_subdivisions <= 66,
                1 <= vertical_subdivisions <= 66,
                rows == vertical_subdivisions + 1,
                0 <= horizontal_pos < horizontal_subdivisions + 1,
                0 <= vertical_pos <= vertical_subdivisions + 1,
                dots@.len() == horizontal_pos * rows + vertical_pos,
                goal == lattice(
                    top_left_corner,
                    horizontal_subdivisions as int,
                    vertical_subdivisions as int,
                    horizontal_step,
                    vertical_step,
                ),
                forall|k: int| 0 <= k < dots@.len() ==> #[trigger] dots@[k] == goal[k],
            decreases vertical_subdivisions + 1 - vertical_pos,
        {
            let ghost k: int = horizontal_pos * rows + vertical_pos;
            proof {
                lemma_cell_index(horizontal_pos as int, vertical_pos as int, rows as int);
                assert(k < (horizontal_subdivisions + 1) * rows) by (nonlinear_arith)
                    requires
                        k == horizontal_pos * rows + vertical_pos,
                        0 <= vertical_pos < rows,
                        0 <= horizontal_pos < horizontal_subdivisions + 1,
                ;
            }
            dots.push(
                Dot::new(
                    Some(
                        top_left_corner.plus(
                            Vector2::new(
                                step_times(horizontal_pos, horizontal_step),
                                step_times(vertical_pos, vertical_step),
                            ),
                        ),
                    ),
                    0,
                    0,
                ),
            );
            assert(dots@[k] == goal[k]);
            vertical_pos = vertical_pos + 1;
        }
        assert((horizontal_pos + 1) * rows == horizontal_pos * rows + rows) by (nonlinear_arith);
        horizontal_pos = horizontal_pos + 1;
    }
    assert(dots@ =~= goal);
    (dots, (horizontal_step, vertical_step))
}

/// Two particles are linked when they stand one horizontal step, one
/// vertical step, or one of each apart.
pub open spec fn linked(a: Vector2, b: Vector2, horizontal_distance: i32, vertical_distance: i32) -> bool {
    let dx: int = magnitude(b.x - a.x);
    let dy: int = magnitude(b.y - a.y);
    &&& (dx != 0 || dy != 0)
    &&& {
        ||| (dx == 0 && dy == vertical_distance)
        ||| (dy == 0 && dx == horizontal_distance)
        ||| (dx == horizontal_distance && dy == vertical_distance)
    }
}

/// The spring that links particle `i` to particle `j`: at rest at their
/// distance, and stiffer where both lie on the border on one line.
pub open spec fn spring_between(
    dots: Seq<Dot>,
    i: usize,
    j: usize,
    corner1: Vector2,
    corner2: Vector2,
) -> Spring {
    let border: bool = both_on_border(dots[i as int].pos, dots[j as int].pos, corner1, corner2);
    Spring::spec_new(
        dots,
        i,
        j,
        if border {
            (STIFFNESS + BORDER_BONUS) as i32
        } else {
            STIFFNESS
        },
        border,
    )
}

/// Spring `a` stands before spring `b`: by first index, then by second.
pub open spec fn precedes(a: Spring, b: Spring) -> bool {
    a.index_1 < b.index_1 || (a.index_1 == b.index_1 && a.index_2 < b.index_2)
}

/// Every spring of the list links two particles that are linked, is the
/// spring between them, and has some length at rest.
pub open spec fn springs_sound(
    springs: Seq<Spring>,
    dots: Seq<Dot>,
    horizontal_distance: i32,
    vertical_distance: i32,
    corner1: Vector2,
    corner2: Vector2,
) -> bool {
    forall|k: int|
        0 <= k < springs.len() ==> {
            let s: Spring = #[trigger] springs[k];
            &&& s.index_1 < dots.len()
            &&& s.index_2 < dots.len()
            &&& linked(
                dots[s.index_1 as int].pos,
                dots[s.index_2 as int].pos,
                horizontal_distance,
                vertical_distance,
            )
            &&& s == spring_between(dots, s.index_1, s.index_2, corner1, corner2)
            &&& s.rest_length > 0
        }
}

/// The list has a spring from `i` to `j`.
pub open spec fn has_spring(springs: Seq<Spring>, i: int, j: int) -> bool {
    exists|k: int|
        0 <= k < springs.len() && (#[trigger] springs[k]).index_1 == i && springs[k].index_2 == j
}

/// Every ordered pair of linked particles that stands before `(i, j)` has
/// its spring in the list.
pub open spec fn springs_complete_before(
    springs: Seq<Spring>,
    dots: Seq<Dot>,
    horizontal_distance: i32,
    vertical_distance: i32,
    i: int,
    j: int,
) -> bool {
    forall|a: int, b: int|
        0 <= a < dots.len() && 0 <= b < dots.len() && (a < i || (a == i && b < j)) && #[trigger] linked(
            dots[a].pos,
            dots[b].pos,
            horizontal_distance,
            vertical_distance,
        ) ==> has_spring(springs, a, b)
}

/// The springs stand in the order of their index pairs, none twice.
pub open spec fn springs_ordered(springs: Seq<Spring>) -> bool {
    forall|k: int, l: int|
        0 <= k < l < springs.len() ==> precedes(#[trigger] springs[k], #[trigger] springs[l])
}

/// The list holds exactly one spring for every ordered pair of linked
/// particles, in the order of the pairs.
pub open spec fn is_spring_list(
    springs: Seq<Spring>,
    dots: Seq<Dot>,
    horizontal_distance: i32,
    vertical_distance: i32,
    corner1: Vector2,
    corner2: Vector2,
) -> bool {
    &&& springs_sound(springs, dots, horizontal_distance, vertical_distance, corner1, corner2)
    &&& springs_complete_before(
        springs,
        dots,
        horizontal_distance,
        vertical_distance,
        dots.len() as int,
        0,
    )
    &&& springs_ordered(springs)
}

/// Whether the two particles stand one step apart.
fn are_linked(a: &Dot, b: &Dot, horizontal_distance: i32, vertical_distance: i32) -> (r: bool)
    ensures
        r == linked(a.pos, b.pos, horizontal_distance, vertical_distance),
{
    let x: i64 = b.pos.x as i64 - a.pos.x as i64;
    let y: i64 = b.pos.y as i64 - a.pos.y as i64;
    let distance_x: i64 = if x < 0 { -x } else { x };
    let distance_y: i64 = if y < 0 { -y } else { y };
    let h: i64 = horizontal_distance as i64;
    let v: i64 = vertical_distance as i64;
    (distance_x != 0 || distance_y != 0) && ((distance_x == 0 && distance_y == v) || (distance_y
        == 0 && distance_x == h) || (distance_x == h && distance_y == v))
}

/// Makes the springs of a mesh from the places of its particles: one from
/// each particle to each particle that stands one step away from it,
/// horizontally, vertically or diagonally.
pub fn generate_springs(
    dots: &[Dot],
    horizontal_distance: i32,
    vertical_distance: i32,
    corners: (&Vector2, &Vector2),
) -> (springs: Vec<Spring>)
    ensures
        is_spring_list(
            springs@,
            dots@,
            horizontal_distance,
            vertical_distance,
            *corners.0,
            *corners.1,
        ),
{
    let corner1: &Vector2 = corners.0;
    let corner2: &Vector2 = corners.1;
    let n: usize = dots.len();
    let mut springs: Vec<Spring> = Vec::new();
    let mut index: usize = 0;
    while index < n
        invariant
            n == dots@.len(),
            index <= n,
            springs_sound(
                springs@,
                dots@,
                horizontal_distance,
                vertical_distance,
                *corner1,
                *corner2,
            ),
            springs_complete_before(
                springs@,
                dots@,
                horizontal_distance,
                vertical_distance,
                index as int,
                0,
            ),
            springs_ordered(springs@),
            forall|k: int| 0 <= k < springs@.len() ==> (#[trigger] springs@[k]).index_1 < index,
        decreases n - index,
    {
        let mut inner_index: usize = 0;
        while inner_index < n
            invariant
                n == dots@.len(),
                index < n,
                inner_index <= n,
                springs_sound(
                    springs@,
                    dots@,
                    horizontal_distance,
                    vertical_distance,
                    *corner1,
                    *corner2,
                ),
                springs_complete_before(
                    springs@,
                    dots@,
                    horizontal_distance,
                    vertical_distance,
                    index as int,
                    inner_index as int,
                ),
                springs_ordered(springs@),
                forall|k: int|
                    0 <= k < springs@.len() ==> {
                        let s: Spring = #[trigger] springs@[k];
                        s.index_1 < index || (s.index_1 == index && s.index_2 < inner_index)
                    },
            decreases n - inner_index,
        {
            let ghost before: Seq<Spring> = springs@;
            if are_linked(&dots[index], &dots[inner_index], horizontal_distance, vertical_distance) {
                let border: bool = are_dots_on_border(
                    &dots[index],
                    &dots[inner_index],
                    corner1,
                    corner2,
                );
                let spring: Spring = Spring::new(
                    dots,
                    index,
                    inner_index,
                    if border {
                        STIFFNESS + BORDER_BONUS
                    } else {
                        STIFFNESS
                    },
                    border,
                );
                springs.push(spring);
                proof {
                    assert(springs@[before.len() as int] == spring);
                    assert forall|k: int| 0 <= k < before.len() implies #[trigger] springs@[k]
                        == before[k] by {}
                    assert(has_spring(springs@, index as int, inner_index as int));
                }
            }
            proof {
                assert forall|a: int, b: int|
                    0 <= a < dots@.len() && 0 <= b < dots@.len() && (a < index || (a == index && b
                        < inner_index + 1)) && #[trigger] linked(
                        dots@[a].pos,
                        dots@[b].pos,
                        horizontal_distance,
                        vertical_distance,
                    ) implies has_spring(springs@, a, b) by {
                    if a == index && b == inner_index {
                    } else {
                        assert(has_spring(before, a, b));
                        let k: int = choose|k: int|
                            0 <= k < before.len() && (#[trigger] before[k]).index_1 == a
                                && before[k].index_2 == b;
                        assert(springs@[k] == before[k]);
                    }
                }
            }
            inner_index += 1;
        }
        index += 1;
    }
    springs
}

/// A spring is made at rest: its rest length is the distance of the two
/// particles it was made from, and while both stay where they were and move
/// with one velocity, it exerts no force.
pub proof fn lemma_spring_at_rest(
    dots: Seq<Dot>,
    index_1: usize,
    index_2: usize,
    stiffness: i32,
    is_on_border: bool,
    vel: Vector2,
)
    requires
        index_1 < dots.len(),
        index_2 < dots.len(),
    ensures
        ({
            let spring: Spring = Spring::spec_new(dots, index_1, index_2, stiffness, is_on_border);
            let pos1: Vector2 = dots[index_1 as int].pos;
            let pos2: Vector2 = dots[index_2 as int].pos;
            &&& spring.rest_length == pos1.minus(pos2).length()
            &&& spring.force(pos1, pos2, vel, vel) == Vector2::zero()
        }),
{
    reveal(Spring::force);
    let spring: Spring = Spring::spec_new(dots, index_1, index_2, stiffness, is_on_border);
    let pos1: Vector2 = dots[index_1 as int].pos;
    let pos2: Vector2 = dots[index_2 as int].pos;
    let unit: Vector2 = pos1.minus(pos2).normalize();
    assert(0 * (stiffness as int) == 0);
    assert(spring.hooke_force(pos1, pos2) == 0);
    assert(vel.minus(vel) == Vector2::zero());
    assert(unit.x * 0 + unit.y * 0 == 0);
    assert(unit.dot(Vector2::zero()) == 0);
    assert(0 * (spring.damping_factor as int) == 0);
    assert(spring.damping(pos1, pos2, vel, vel) == 0);
    assert(unit.x * 0 == 0 && unit.y * 0 == 0);
}

/// The accelerations that a spring gives to its two ends: the first end is
/// drawn against the force, the second along it.
pub open spec fn accelerations(
    spring: Spring,
    pos1: Vector2,
    pos2: Vector2,
    vel1: Vector2,
    vel2: Vector2,
) -> (Vector2, Vector2) {
    let force: Vector2 = spring.force(pos1, pos2, vel1, vel2);
    (force.negate(), force)
}

/// What a spring adds to the acceleration of each of its ends in one tick:
/// the blend of its accelerations at the given state and at two half steps.
#[verifier::opaque]
pub open spec fn spring_push(
    spring: Spring,
    pos1: Vector2,
    pos2: Vector2,
    vel1: Vector2,
    vel2: Vector2,
) -> (Vector2, Vector2) {
    let first: (Vector2, Vector2) = accelerations(spring, pos1, pos2, vel1, vel2);
    let a: (Vector2, Vector2, Vector2, Vector2) = half_step(first, pos1, pos2, vel1, vel2);
    let second: (Vector2, Vector2) = accelerations(spring, a.0, a.1, a.2, a.3);
    let b: (Vector2, Vector2, Vector2, Vector2) = half_step(second, pos1, pos2, vel1, vel2);
    let third: (Vector2, Vector2) = accelerations(spring, b.0, b.1, b.2, b.3);
    blend(first, second, third)
}

/// The particle with `acceleration` added to what it has accumulated.
pub open spec fn accelerated(dot: Dot, acceleration: Vector2) -> Dot {
    Dot { acceleration: dot.acceleration.plus(acceleration), ..dot }
}

/// The shares after `spring` has added its own for its two ends, sampled
/// from where the particles are and how they move.
pub open spec fn with_share(shares: Seq<Vector2>, points: Seq<Dot>, spring: Spring) -> Seq<
    Vector2,
> {
    let one: Dot = points[spring.index_1 as int];
    let two: Dot = points[spring.index_2 as int];
    let push: (Vector2, Vector2) = spring_push(spring, one.pos, two.pos, one.vel, two.vel);
    let first: Seq<Vector2> = shares.update(
        spring.index_1 as int,
        shares[spring.index_1 as int].plus(push.0),
    );
    first.update(spring.index_2 as int, first[spring.index_2 as int].plus(push.1))
}

/// What the first `count` springs add to the acceleration of each
/// particle. A spring whose ends are in one place adds nothing.
pub open spec fn spring_shares(points: Seq<Dot>, springs: Seq<Spring>, count: nat) -> Seq<Vector2>
    decreases count,
{
    if count == 0 {
        Seq::new(points.len(), |i: int| Vector2::zero())
    } else {
        let before: Seq<Vector2> = spring_shares(points, springs, (count - 1) as nat);
        let spring: Spring = springs[count - 1];
        if points[spring.index_1 as int].pos != points[spring.index_2 as int].pos {
            with_share(before, points, spring)
        } else {
            before
        }
    }
}

/// Every particle after its share has joined what it had accumulated and
/// the integrator has made one step.
pub open spec fn integrated(points: Seq<Dot>, shares: Seq<Vector2>) -> Seq<Dot> {
    Seq::new(points.len(), |i: int| accelerated(points[i], shares[i]).spec_update())
}

/// The particles after the overlaps along the first `count` springs have
/// been resolved, one spring after the other.
pub open spec fn separated(points: Seq<Dot>, springs: Seq<Spring>, count: nat) -> Seq<Dot>
    decreases count,
{
    if count == 0 {
        points
    } else {
        let spring: Spring = springs[count - 1];
        after_point_collision(
            separated(points, springs, (count - 1) as nat),
            spring.index_1 as int,
            spring.index_2 as int,
        )
    }
}

/// The particles after one tick without obstacles: the shares of all
/// springs are sampled from the state before the tick, then every
/// particle is integrated with its share, then the overlaps along the
/// springs are resolved.
pub open spec fn stepped(points: Seq<Dot>, springs: Seq<Spring>) -> Seq<Dot> {
    separated(
        integrated(points, spring_shares(points, springs, springs.len())),
        springs,
        springs.len(),
    )
}

/// Every particle after its collision with `polygon` is resolved.
pub open spec fn collided(points: Seq<Dot>, polygon: &Polygon) -> Seq<Dot> {
    Seq::new(points.len(), |i: int| after_polygon_collision(points[i], polygon))
}

/// The particles after their collisions with the first `count` polygons
/// have been resolved, one polygon after the other.
pub open spec fn collided_with_all(points: Seq<Dot>, polygons: Seq<Polygon>, count: nat) -> Seq<Dot>
    decreases count,
{
    if count == 0 {
        points
    } else {
        collided(collided_with_all(points, polygons, (count - 1) as nat), &polygons[count - 1])
    }
}

/// The springs name particles of the list, and none links a particle to
/// itself.
pub open spec fn springs_fit(springs: Seq<Spring>, count: nat) -> bool {
    forall|k: int|
        0 <= k < springs.len() ==> {
            let s: Spring = #[trigger] springs[k];
            s.index_1 < count && s.index_2 < count && s.index_1 != s.index_2
        }
}

/// A deformable body: particles, and springs between them.
pub struct SoftBody {
    pub points: Vec<Dot>,
    pub springs: Vec<Spring>,
}

impl SoftBody {
    /// Every spring links two different particles of the body.
    pub open spec fn well_formed(&self) -> bool {
        springs_fit(self.springs@, self.points@.len())
    }

    /// The corner of the mesh of a body around `(pos1, pos2)` with the
    /// smaller coordinates.
    pub open spec fn first_corner(pos1: i32, pos2: i32) -> Vector2 {
        Vector2 { x: saturate(pos1 - 80_000) as i32, y: saturate(pos2 - 100_000) as i32 }
    }

    /// The corner of the mesh of a body around `(pos1, pos2)` with the
    /// larger coordinates.
    pub open spec fn second_corner(pos1: i32, pos2: i32) -> Vector2 {
        Vector2 { x: saturate(pos1 + 80_000) as i32, y: saturate(pos2 + 20_000) as i32 }
    }

    /// The body is the mesh around `(pos1, pos2)`, at rest: its particles
    /// are those of the mesh between the two corners, and its springs link
    /// every particle to those one step away.
    pub open spec fn rests_around(&self, pos1: i32, pos2: i32) -> bool {
        let corner1: Vector2 = SoftBody::first_corner(pos1, pos2);
        let corner2: Vector2 = SoftBody::second_corner(pos1, pos2);
        let steps: (i32, i32) = mesh_steps(corner1, corner2);
        &&& self.points@ == mesh_dots(corner1, corner2)
        &&& is_spring_list(
            self.springs@,
            self.points@,
            saturate(magnitude(steps.0 as int)) as i32,
            saturate(magnitude(steps.1 as int)) as i32,
            corner1,
            corner2,
        )
    }

    /// A body at rest around `(pos1, pos2)`: a mesh of 160 by 120 units
    /// that reaches 80 units to each side, 100 units toward smaller `y` and
    /// 20 units toward larger `y`.
    pub fn new(pos1: i32, pos2: i32) -> (body: SoftBody)
        ensures
            body.rests_around(pos1, pos2),
            body.well_formed(),
    {
        let corner1: Vector2 = Vector2::new(sat_sub(pos1, 80_000), sat_sub(pos2, 100_000));
        let corner2: Vector2 = Vector2::new(sat_add(pos1, 80_000), sat_add(pos2, 20_000));
        let (dots, (horizontal_step, vertical_step)) = generate_dots(corner1, corner2);
        let springs: Vec<Spring> = generate_springs(
            dots.as_slice(),
            sat_abs(horizontal_step),
            sat_abs(vertical_step),
            (&corner1, &corner2),
        );
        SoftBody { springs, points: dots }
    }

    /// What the springs add to the acceleration of each particle in one
    /// tick, sampled from the present state of the body. The body itself
    /// stays as it is.
    pub fn spring_deltas(&self) -> (deltas: Vec<Vector2>)
        requires
            self.well_formed(),
        ensures
            deltas@ == spring_shares(self.points@, self.springs@, self.springs@.len()),
            deltas@.len() == self.points@.len(),
    {
        let n: usize = self.points.len();
        let mut deltas: Vec<Vector2> = Vec::new();
        let mut i: usize = 0;
        while i < n
            invariant
                i <= n,
                n == self.points@.len(),
                deltas@.len() == i,
                forall|j: int| 0 <= j < i ==> #[trigger] deltas@[j] == Vector2::zero(),
            decreases n - i,
        {
            deltas.push(Vector2::zero());
            i += 1;
        }
        assert(deltas@ =~= spring_shares(self.points@, self.springs@, 0));
        let count: usize = self.springs.len();
        let mut k: usize = 0;
        while k < count
            invariant
                k <= count,
                count == self.springs@.len(),
                deltas@.len() == self.points@.len(),
                self.well_formed(),
                deltas@ == spring_shares(self.points@, self.springs@, k as nat),
            decreases count - k,
        {
            let spring: Spring = self.springs[k];
            if self.points[spring.index_1].pos != self.points[spring.index_2].pos {
                self.update_masses_acceleration(&spring, &mut deltas);
            }
            k += 1;
        }
        deltas
    }

    /// One tick without obstacles: the springs' shares are sampled from the
    /// state before the tick, every particle is integrated with its share,
    /// and the overlaps along the springs are resolved.
    pub fn update_runge_kutta(&mut self)
        requires
            old(self).well_formed(),
        ensures
            final(self).springs@ == old(self).springs@,
            final(self).points@ == stepped(old(self).points@, old(self).springs@),
            final(self).points@.len() == old(self).points@.len(),
            final(self).well_formed(),
    {
        let ghost start: Seq<Dot> = self.points@;
        let ghost springs: Seq<Spring> = self.springs@;
        let deltas: Vec<Vector2> = self.spring_deltas();
        let n: usize = self.points.len();
        let mut i: usize = 0;
        while i < n
            invariant
                i <= n,
                n == start.len(),
                deltas@.len() == n,
                self.springs@ == springs,
                self.points@.len() == n,
                forall|j: int|
                    0 <= j < i ==> #[trigger] self.points@[j] == accelerated(
                        start[j],
                        deltas@[j],
                    ).spec_update(),
                forall|j: int| i <= j < n ==> #[trigger] self.points@[j] == start[j],
            decreases n - i,
        {
            self.points[i].add_acceleration(deltas[i]);
            self.points[i].update();
            i += 1;
        }
        assert(self.points@ =~= integrated(start, deltas@));
        let ghost moved: Seq<Dot> = self.points@;
        let count: usize = self.springs.len();
        let mut k: usize = 0;
        while k < count
            invariant
                k <= count,
                count == springs.len(),
                self.springs@ == springs,
                self.points@.len() == moved.len(),
                springs_fit(springs, moved.len()),
                self.points@ == separated(moved, springs, k as nat),
            decreases count - k,
        {
            let spring: Spring = self.springs[k];
            handle_point_point_collision(&mut self.points, spring.index_1, spring.index_2);
            k += 1;
        }
    }

    /// Adds the share of one spring to the deltas of its two ends.
    fn update_masses_acceleration(&self, spring: &Spring, deltas: &mut Vec<Vector2>)
        requires
            spring.index_1 < self.points@.len(),
            spring.index_2 < self.points@.len(),
            old(deltas)@.len() == self.points@.len(),
        ensures
            final(deltas)@ == with_share(old(deltas)@, self.points@, *spring),
            final(deltas)@.len() == old(deltas)@.len(),
    {
        let get_acceleration = |
            position_1: Vector2,
            position_2: Vector2,
            velocity_1: Vector2,
            velocity_2: Vector2,
        | -> (r: (Vector2, Vector2))
            ensures
                r == accelerations(*spring, position_1, position_2, velocity_1, velocity_2),
            {
                let spring_force: Vector2 = spring.get_force(
                    position_1,
                    position_2,
                    velocity_1,
                    velocity_2,
                );
                (spring_force.negate(), spring_force)
            };
        let point1: Dot = self.points[spring.index_1];
        let point2: Dot = self.points[spring.index_2];
        let (push_vec_1, push_vec_2) = runge_kutta_integration(
            &get_acceleration,
            point1.pos,
            point2.pos,
            point1.vel,
            point2.vel,
        );
        proof {
            let (first, second, third) = choose|
                first: (Vector2, Vector2),
                second: (Vector2, Vector2),
                third: (Vector2, Vector2),
            |
                #[trigger] sampled(
                    &get_acceleration,
                    point1.pos,
                    point2.pos,
                    point1.vel,
                    point2.vel,
                    first,
                    second,
                    third,
                ) && (push_vec_1, push_vec_2) == blend(first, second, third);
            let a: (Vector2, Vector2, Vector2, Vector2) = half_step(
                first,
                point1.pos,
                point2.pos,
                point1.vel,
                point2.vel,
            );
            let b: (Vector2, Vector2, Vector2, Vector2) = half_step(
                second,
                point1.pos,
                point2.pos,
                point1.vel,
                point2.vel,
            );
            assert(first == accelerations(
                *spring,
                point1.pos,
                point2.pos,
                point1.vel,
                point2.vel,
            ));
            assert(second == accelerations(*spring, a.0, a.1, a.2, a.3));
            assert(third == accelerations(*spring, b.0, b.1, b.2, b.3));
            reveal(spring_push);
        }
        let first_sum: Vector2 = deltas[spring.index_1].plus(push_vec_1);
        deltas.set(spring.index_1, first_sum);
        let second_sum: Vector2 = deltas[spring.index_2].plus(push_vec_2);
        deltas.set(spring.index_2, second_sum);
        assert(deltas@ =~= with_share(old(deltas)@, self.points@, *spring));
    }

    /// Resolves the collision of every particle with `polygon`.
    pub fn handle_collision(&mut self, polygon: &Polygon)
        ensures
            final(self).springs@ == old(self).springs@,
            final(self).points@ == collided(old(self).points@, polygon),
            final(self).points@.len() == old(self).points@.len(),
    {
        let ghost start: Seq<Dot> = self.points@;
        let n: usize = self.points.len();
        let mut i: usize = 0;
        while i < n
            invariant
                i <= n,
                n == start.len(),
                self.springs@ == old(self).springs@,
                self.points@.len() == n,
                forall|j: int|
                    0 <= j < i ==> #[trigger] self.points@[j] == after_polygon_collision(
                        start[j],
                        polygon,
                    ),
                forall|j: int| i <= j < n ==> #[trigger] self.points@[j] == start[j],
            decreases n - i,
        {
            handle_point_polygon_collision(&mut self.points[i], polygon);
            i += 1;
        }
        assert(self.points@ =~= collided(start, polygon));
    }

    /// One tick in a scene: the tick without obstacles, then the collisions
    /// with every polygon of the scene, one polygon after the other.
    pub fn tick(&mut self, polygons: &[Polygon])
        requires
            old(self).well_formed(),
        ensures
            final(self).springs@ == old(self).springs@,
            final(self).points@ == collided_with_all(
                stepped(old(self).points@, old(self).springs@),
                polygons@,
                polygons@.len(),
            ),
            final(self).points@.len() == old(self).points@.len(),
            final(self).well_formed(),
    {
        self.update_runge_kutta();
        self.handle_collisions(polygons);
    }

    /// Resolves the collisions with every polygon, one after the other.
    fn handle_collisions(&mut self, polygons: &[Polygon])
        ensures
            final(self).springs@ == old(self).springs@,
            final(self).points@ == collided_with_all(
                old(self).points@,
                polygons@,
                polygons@.len(),
            ),
            final(self).points@.len() == old(self).points@.len(),
    {
        let ghost start: Seq<Dot> = self.points@;
        let ghost springs: Seq<Spring> = self.springs@;
        let mut k: usize = 0;
        while k < polygons.len()
            invariant
                k <= polygons@.len(),
                self.springs@ == springs,
                self.points@.len() == start.len(),
                self.points@ == collided_with_all(start, polygons@, k as nat),
            decreases polygons@.len() - k,
        {
            self.handle_collision(&polygons[k]);
            k += 1;
        }
    }
}

/// In a lattice with `rows` rows per column, the particle in column
/// `column` and row `row` stands at index `column * rows + row`.
pub proof fn lemma_cell_index(column: int, row: int, rows: int)
    requires
        0 <= column,
        0 <= row < rows,
    ensures
        (column * rows + row) / rows == column,
        (column * rows + row) % rows == row,
{
    vstd::arithmetic::div_mod::lemma_fundamental_div_mod_converse(
        column * rows + row,
        rows,
        column,
        row,
    );
    assert(rows * column == column * rows) by (nonlinear_arith);
}

} // verus!
