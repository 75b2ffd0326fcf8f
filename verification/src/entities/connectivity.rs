//! How the springs of a mesh connect its particles: every particle to the
//! up to eight particles around it.

use crate::entities::dot::Dot;
use crate::entities::soft_body::{
    balanced, extent, has_spring, is_spring_list, lattice, lattice_point, lemma_cell_index, linked,
    mesh_dots, mesh_steps, refine, stride, subdivisions, wider, SoftBody, Spring,
};
use crate::utils::fixed::magnitude;
use crate::utils::vector::Vector2;
use vstd::prelude::*;

verus! {

/// The particles that particle `i` has a spring to.
pub open spec fn spring_neighbors(springs: Seq<Spring>, i: int) -> Set<int> {
    Set::new(|j: int| has_spring(springs, i, j))
}

/// Two cells of a lattice touch: they are different, and at most one column
/// and one row apart.
pub open spec fn adjacent(column1: int, row1: int, column2: int, row2: int) -> bool {
    &&& magnitude(column2 - column1) <= 1
    &&& magnitude(row2 - row1) <= 1
    &&& (column1 != column2 || row1 != row2)
}

/// The lattice lies inside the grid: no particle of it is placed by a
/// saturated sum.
pub open spec fn lattice_fits(
    top_left: Vector2,
    hor_sub: int,
    ver_sub: int,
    horizontal_step: i32,
    vertical_step: i32,
) -> bool {
    &&& hor_sub >= 0
    &&& ver_sub >= 0
    &&& horizontal_step > 0
    &&& vertical_step > 0
    &&& hor_sub * horizontal_step <= i32::MAX
    &&& ver_sub * vertical_step <= i32::MAX
    &&& top_left.x + hor_sub * horizontal_step <= i32::MAX
    &&& top_left.y + ver_sub * vertical_step <= i32::MAX
}

/// A whole number of steps is no step, or one step, exactly where the number
/// is zero, or one in size.
proof fn lemma_steps_apart(count: int, step: int)
    by (nonlinear_arith)
    requires
        step > 0,
    ensures
        magnitude(count * step) == 0 <==> count == 0,
        magnitude(count * step) == step <==> magnitude(count) == 1,
{
}

/// Column `column` of a lattice that fits is placed at `column` steps from
/// the first, without saturation.
proof fn lemma_stride_exact(column: int, hor_sub: int, step: i32, start: i32)
    requires
        0 <= column <= hor_sub,
        step > 0,
        hor_sub * step <= i32::MAX,
        start + hor_sub * step <= i32::MAX,
    ensures
        stride(column, step) == column * step,
        0 <= column * step,
        start + column * step <= i32::MAX,
{
    assert(0 <= column * step <= hor_sub * step) by (nonlinear_arith)
        requires
            0 <= column <= hor_sub,
            step > 0,
    ;
}

/// The particle at index `k` of a lattice that fits stands in column
/// `k / rows` and row `k % rows`, at that many steps from the first corner.
pub proof fn lemma_lattice_place(
    top_left: Vector2,
    hor_sub: int,
    ver_sub: int,
    horizontal_step: i32,
    vertical_step: i32,
    k: int,
)
    requires
        lattice_fits(top_left, hor_sub, ver_sub, horizontal_step, vertical_step),
        0 <= k < (hor_sub + 1) * (ver_sub + 1),
    ensures
        0 <= k / (ver_sub + 1) <= hor_sub,
        0 <= k % (ver_sub + 1) <= ver_sub,
        k == (k / (ver_sub + 1)) * (ver_sub + 1) + k % (ver_sub + 1),
        lattice(top_left, hor_sub, ver_sub, horizontal_step, vertical_step)[k].pos.x == top_left.x
            + (k / (ver_sub + 1)) * horizontal_step,
        lattice(top_left, hor_sub, ver_sub, horizontal_step, vertical_step)[k].pos.y == top_left.y
            + (k % (ver_sub + 1)) * vertical_step,
{
    let rows: int = ver_sub + 1;
    let column: int = k / rows;
    let row: int = k % rows;
    vstd::arithmetic::div_mod::lemma_fundamental_div_mod(k, rows);
    vstd::arithmetic::div_mod::lemma_mod_bound(k, rows);
    vstd::arithmetic::div_mod::lemma_div_pos_is_pos(k, rows);
    assert(rows * column == column * rows) by (nonlinear_arith);
    if column > hor_sub {
        assert(column * rows >= (hor_sub + 1) * rows) by (nonlinear_arith)
            requires
                column >= hor_sub + 1,
                rows > 0,
        ;
    }
    lemma_stride_exact(column, hor_sub, horizontal_step, top_left.x);
    lemma_stride_exact(row, ver_sub, vertical_step, top_left.y);
    let place: Vector2 = lattice_point(top_left, column, row, horizontal_step, vertical_step);
    assert(place.x == top_left.x + column * horizontal_step);
    assert(place.y == top_left.y + row * vertical_step);
    assert(lattice(top_left, hor_sub, ver_sub, horizontal_step, vertical_step)[k]
        == Dot::spec_new(Some(place), 0, 0));
}

/// In a lattice that fits, two particles are linked exactly where their
/// cells touch: the springs connect each particle to the eight around it.
pub proof fn lemma_linked_is_adjacent(
    top_left: Vector2,
    hor_sub: int,
    ver_sub: int,
    horizontal_step: i32,
    vertical_step: i32,
    a: int,
    b: int,
)
    requires
        lattice_fits(top_left, hor_sub, ver_sub, horizontal_step, vertical_step),
        0 <= a < (hor_sub + 1) * (ver_sub + 1),
        0 <= b < (hor_sub + 1) * (ver_sub + 1),
    ensures
        ({
            let dots: Seq<Dot> = lattice(
                top_left,
                hor_sub,
                ver_sub,
                horizontal_step,
                vertical_step,
            );
            linked(dots[a].pos, dots[b].pos, horizontal_step, vertical_step) <==> adjacent(
                a / (ver_sub + 1),
                a % (ver_sub + 1),
                b / (ver_sub + 1),
                b % (ver_sub + 1),
            )
        }),
{
    let rows: int = ver_sub + 1;
    lemma_lattice_place(top_left, hor_sub, ver_sub, horizontal_step, vertical_step, a);
    lemma_lattice_place(top_left, hor_sub, ver_sub, horizontal_step, vertical_step, b);
    let across: int = b / rows - a / rows;
    let down: int = b % rows - a % rows;
    lemma_steps_apart(across, horizontal_step as int);
    lemma_steps_apart(down, vertical_step as int);
    assert((b / rows) * horizontal_step - (a / rows) * horizontal_step == across
        * horizontal_step) by (nonlinear_arith)
        requires
            across == b / rows - a / rows,
    ;
    assert((b % rows) * vertical_step - (a % rows) * vertical_step == down * vertical_step)
        by (nonlinear_arith)
        requires
            down == b % rows - a % rows,
    ;
}

/// The springs of a lattice that fits lead from particle `i` exactly to the
/// particles in the cells that touch its cell.
pub proof fn lemma_neighbors_are_adjacent(
    top_left: Vector2,
    hor_sub: int,
    ver_sub: int,
    horizontal_step: i32,
    vertical_step: i32,
    springs: Seq<Spring>,
    corner1: Vector2,
    corner2: Vector2,
    i: int,
    j: int,
)
    requires
        lattice_fits(top_left, hor_sub, ver_sub, horizontal_step, vertical_step),
        is_spring_list(
            springs,
            lattice(top_left, hor_sub, ver_sub, horizontal_step, vertical_step),
            horizontal_step,
            vertical_step,
            corner1,
            corner2,
        ),
        0 <= i < (hor_sub + 1) * (ver_sub + 1),
    ensures
        spring_neighbors(springs, i).contains(j) <==> 0 <= j < (hor_sub + 1) * (ver_sub + 1)
            && adjacent(i / (ver_sub + 1), i % (ver_sub + 1), j / (ver_sub + 1), j % (ver_sub + 1)),
{
    let dots: Seq<Dot> = lattice(top_left, hor_sub, ver_sub, horizontal_step, vertical_step);
    if has_spring(springs, i, j) {
        let k: int = choose|k: int|
            0 <= k < springs.len() && (#[trigger] springs[k]).index_1 == i && springs[k].index_2
                == j;
        assert(springs[k].index_2 < dots.len());
        lemma_linked_is_adjacent(top_left, hor_sub, ver_sub, horizontal_step, vertical_step, i, j);
    }
    if 0 <= j < (hor_sub + 1) * (ver_sub + 1) && adjacent(
        i / (ver_sub + 1),
        i % (ver_sub + 1),
        j / (ver_sub + 1),
        j % (ver_sub + 1),
    ) {
        lemma_linked_is_adjacent(top_left, hor_sub, ver_sub, horizontal_step, vertical_step, i, j);
        assert(linked(dots[i].pos, dots[j].pos, horizontal_step, vertical_step));
    }
}

/// A particle in a corner of a mesh has springs to exactly three others:
/// the next in its column, the next in its row, and the one diagonally
/// inward.
pub proof fn lemma_corner_has_three_neighbors(
    top_left: Vector2,
    hor_sub: int,
    ver_sub: int,
    horizontal_step: i32,
    vertical_step: i32,
    springs: Seq<Spring>,
    corner1: Vector2,
    corner2: Vector2,
    column: int,
    row: int,
)
    requires
        lattice_fits(top_left, hor_sub, ver_sub, horizontal_step, vertical_step),
        hor_sub >= 1,
        ver_sub >= 1,
        is_spring_list(
            springs,
            lattice(top_left, hor_sub, ver_sub, horizontal_step, vertical_step),
            horizontal_step,
            vertical_step,
            corner1,
            corner2,
        ),
        column == 0 || column == hor_sub,
        row == 0 || row == ver_sub,
    ensures
        spring_neighbors(springs, column * (ver_sub + 1) + row).finite(),
        spring_neighbors(springs, column * (ver_sub + 1) + row).len() == 3,
{
    let rows: int = ver_sub + 1;
    let i: int = column * rows + row;
    let inward_column: int = if column == 0 { 1 } else { -1 };
    let inward_row: int = if row == 0 { 1 } else { -1 };
    let beside: int = i + inward_row;
    let across: int = i + inward_column * rows;
    let diagonal: int = i + inward_column * rows + inward_row;
    let expected: Set<int> = set![beside, across, diagonal];
    lemma_cell_index(column, row, rows);
    assert(0 <= i < (hor_sub + 1) * rows) by (nonlinear_arith)
        requires
            i == column * rows + row,
            0 <= column <= hor_sub,
            0 <= row < rows,
    ;
    assert((column + inward_column) * rows == column * rows + inward_column * rows)
        by (nonlinear_arith);
    assert(inward_column * rows == if column == 0 {
        rows
    } else {
        -rows
    }) by (nonlinear_arith)
        requires
            inward_column == if column == 0 {
                1int
            } else {
                -1int
            },
    ;
    assert forall|j: int| spring_neighbors(springs, i).contains(j) <==> expected.contains(j) by {
        lemma_neighbors_are_adjacent(
            top_left,
            hor_sub,
            ver_sub,
            horizontal_step,
            vertical_step,
            springs,
            corner1,
            corner2,
            i,
            j,
        );
        if 0 <= j < (hor_sub + 1) * rows && adjacent(column, row, j / rows, j % rows) {
            lemma_lattice_place(top_left, hor_sub, ver_sub, horizontal_step, vertical_step, j);
            let cj: int = j / rows;
            let rj: int = j % rows;
            assert(cj == column || cj == column + inward_column);
            assert(rj == row || rj == row + inward_row);
            assert(cj * rows == column * rows || cj * rows == column * rows + inward_column
                * rows);
            assert(expected.contains(j));
        }
        if expected.contains(j) {
            let cj: int = if j == beside { column } else { column + inward_column };
            let rj: int = if j == across { row } else { row + inward_row };
            assert(j == cj * rows + rj);
            lemma_cell_index(cj, rj, rows);
            assert(0 <= j < (hor_sub + 1) * rows) by (nonlinear_arith)
                requires
                    j == cj * rows + rj,
                    0 <= cj <= hor_sub,
                    0 <= rj < rows,
            ;
        }
    }
    assert(spring_neighbors(springs, i) =~= expected);
}

/// A particle inside a mesh has springs to exactly eight others: all the
/// particles around it.
pub proof fn lemma_inner_has_eight_neighbors(
    top_left: Vector2,
    hor_sub: int,
    ver_sub: int,
    horizontal_step: i32,
    vertical_step: i32,
    springs: Seq<Spring>,
    corner1: Vector2,
    corner2: Vector2,
    column: int,
    row: int,
)
    requires
        lattice_fits(top_left, hor_sub, ver_sub, horizontal_step, vertical_step),
        is_spring_list(
            springs,
            lattice(top_left, hor_sub, ver_sub, horizontal_step, vertical_step),
            horizontal_step,
            vertical_step,
            corner1,
            corner2,
        ),
        0 < column < hor_sub,
        0 < row < ver_sub,
    ensures
        spring_neighbors(springs, column * (ver_sub + 1) + row).finite(),
        spring_neighbors(springs, column * (ver_sub + 1) + row).len() == 8,
{
    let rows: int = ver_sub + 1;
    let i: int = column * rows + row;
    let expected: Set<int> = set![
        i - rows - 1,
        i - rows,
        i - rows + 1,
        i - 1,
        i + 1,
        i + rows - 1,
        i + rows,
        i + rows + 1,
    ];
    lemma_cell_index(column, row, rows);
    assert(0 <= i < (hor_sub + 1) * rows) by (nonlinear_arith)
        requires
            i == column * rows + row,
            0 <= column <= hor_sub,
            0 <= row < rows,
    ;
    assert((column + 1) * rows == column * rows + rows) by (nonlinear_arith);
    assert((column - 1) * rows == column * rows - rows) by (nonlinear_arith);
    assert forall|j: int| spring_neighbors(springs, i).contains(j) <==> expected.contains(j) by {
        lemma_neighbors_are_adjacent(
            top_left,
            hor_sub,
            ver_sub,
            horizontal_step,
            vertical_step,
            springs,
            corner1,
            corner2,
            i,
            j,
        );
        if 0 <= j < (hor_sub + 1) * rows && adjacent(column, row, j / rows, j % rows) {
            lemma_lattice_place(top_left, hor_sub, ver_sub, horizontal_step, vertical_step, j);
            let cj: int = j / rows;
            let rj: int = j % rows;
            assert(cj == column - 1 || cj == column || cj == column + 1);
            assert(cj * rows == column * rows - rows || cj * rows == column * rows || cj * rows
                == column * rows + rows);
            assert(expected.contains(j));
        }
        if expected.contains(j) {
            let cj: int = if j < i - 1 {
                column - 1
            } else if j > i + 1 {
                column + 1
            } else {
                column
            };
            let rj: int = j - cj * rows;
            assert(row - 1 <= rj <= row + 1);
            lemma_cell_index(cj, rj, rows);
            assert(0 <= j < (hor_sub + 1) * rows) by (nonlinear_arith)
                requires
                    j == cj * rows + rj,
                    0 <= cj <= hor_sub,
                    0 <= rj < rows,
            ;
        }
    }
    assert(spring_neighbors(springs, i) =~= expected);
    assert(rows >= 3);
}

/// A body of 160 by 120 units has four columns and three rows of cells.
pub proof fn lemma_body_subdivisions()
    ensures
        subdivisions(160_000, 120_000) == (4int, 3int),
{
    reveal_with_fuel(refine, 6);
    assert(!balanced(160_000, 120_000, 1, 1) && wider(160_000, 120_000, 1, 1));
    assert(!balanced(160_000, 120_000, 2, 1) && !wider(160_000, 120_000, 2, 1));
    assert(!balanced(160_000, 120_000, 2, 2) && wider(160_000, 120_000, 2, 2));
    assert(!balanced(160_000, 120_000, 3, 2) && !wider(160_000, 120_000, 3, 2));
    assert(!balanced(160_000, 120_000, 3, 3) && wider(160_000, 120_000, 3, 3));
    assert(balanced(160_000, 120_000, 4, 3));
}

/// The body around `(pos1, pos2)` lies inside the grid.
pub open spec fn body_fits(pos1: i32, pos2: i32) -> bool {
    &&& i32::MIN + 80_000 <= pos1 <= i32::MAX - 80_000
    &&& i32::MIN + 100_000 <= pos2 <= i32::MAX - 20_000
}

/// A body that lies inside the grid is a lattice of five columns and four
/// rows of particles, forty units apart.
pub proof fn lemma_body_is_a_lattice(body: SoftBody, pos1: i32, pos2: i32)
    requires
        body.rests_around(pos1, pos2),
        body_fits(pos1, pos2),
    ensures
        body.points@ == lattice(SoftBody::first_corner(pos1, pos2), 4, 3, 40_000, 40_000),
        body.points@.len() == 20,
        lattice_fits(SoftBody::first_corner(pos1, pos2), 4, 3, 40_000, 40_000),
        is_spring_list(
            body.springs@,
            body.points@,
            40_000,
            40_000,
            SoftBody::first_corner(pos1, pos2),
            SoftBody::second_corner(pos1, pos2),
        ),
{
    let corner1: Vector2 = SoftBody::first_corner(pos1, pos2);
    let corner2: Vector2 = SoftBody::second_corner(pos1, pos2);
    lemma_body_subdivisions();
    assert(extent(corner1, corner2) == (160_000i32, 120_000i32));
    assert(mesh_steps(corner1, corner2) == (40_000i32, 40_000i32));
    assert(mesh_dots(corner1, corner2) == lattice(corner1, 4, 3, 40_000, 40_000));
    assert((4int + 1) * (3int + 1) == 20) by (nonlinear_arith);
    assert(lattice(corner1, 4, 3, 40_000, 40_000).len() == 20);
    assert(4int * 40_000 == 160_000 && 3int * 40_000 == 120_000);
}

/// In a body that lies inside the grid, each of the four particles in the
/// corners has springs to exactly three others, and each of the six
/// particles inside has springs to exactly eight.
pub proof fn lemma_body_connectivity(body: SoftBody, pos1: i32, pos2: i32, column: int, row: int)
    requires
        body.rests_around(pos1, pos2),
        body_fits(pos1, pos2),
        0 <= column <= 4,
        0 <= row <= 3,
    ensures
        (column == 0 || column == 4) && (row == 0 || row == 3) ==> spring_neighbors(
            body.springs@,
            column * 4 + row,
        ).len() == 3,
        0 < column < 4 && 0 < row < 3 ==> spring_neighbors(body.springs@, column * 4 + row).len()
            == 8,
{
    let corner1: Vector2 = SoftBody::first_corner(pos1, pos2);
    let corner2: Vector2 = SoftBody::second_corner(pos1, pos2);
    lemma_body_is_a_lattice(body, pos1, pos2);
    if (column == 0 || column == 4) && (row == 0 || row == 3) {
        lemma_corner_has_three_neighbors(
            corner1,
            4,
            3,
            40_000,
            40_000,
            body.springs@,
            corner1,
            corner2,
            column,
            row,
        );
    }
    if 0 < column < 4 && 0 < row < 3 {
        lemma_inner_has_eight_neighbors(
            corner1,
            4,
            3,
            40_000,
            40_000,
            body.springs@,
            corner1,
            corner2,
            column,
            row,
        );
    }
}

} // verus!
