use vstd::prelude::*;

use vstd::arithmetic::div_mod::lemma_fundamental_div_mod_converse;
use vstd::set_lib::{lemma_int_range, range_set_properties, set_int_range};

use crate::bitset::{lemma_indices_empty, IndexSet};

verus! {

/// Bits 1 to 9: every digit.
pub const FULL_SET_BITS: u16 = 0b0000_0011_1111_1110;

/// The box (0..9, row-major) that cell `i` lies in.
pub open spec fn box_index(i: int) -> int {
    (i / 27) * 3 + (i % 9) / 3
}

/// Cell `i` belongs to group `g`: rows are groups 0..9, columns 9..18, boxes 18..27.
pub open spec fn in_group(g: int, i: int) -> bool {
    &&& 0 <= i < 81
    &&& 0 <= g < 27
    &&& if g < 9 {
        i / 9 == g
    } else if g < 18 {
        i % 9 == g - 9
    } else {
        box_index(i) == g - 18
    }
}

/// The cells of group `g`.
pub open spec fn group_set(g: int) -> Set<usize> {
    Set::new(|i: usize| in_group(g, i as int))
}

/// The cells that share a row, a column or a box with cell `i`, `i` itself included.
pub open spec fn peer_set(i: int) -> Set<usize> {
    group_set(i / 9).union(group_set(9 + i % 9)).union(group_set(18 + box_index(i)))
}

/// The nine cells of the row of cell `idx`, left to right.
pub fn row_of(idx: usize) -> (r: [usize; 9])
    requires
        idx < 81,
    ensures
        forall|j: int| 0 <= j < 9 ==> r[j] == 9 * (idx / 9) + j,
{
    let base = idx / 9 * 9;
    let mut r: [usize; 9] = [0; 9];
    let mut j: usize = 0;
    while j < 9
        invariant
            j <= 9,
            base == 9 * (idx / 9),
            base <= 72,
            forall|l: int| 0 <= l < j ==> r[l] == base + l,
        decreases 9 - j,
    {
        r[j] = base + j;
        j += 1;
    }
    r
}

/// The nine cells of the column of cell `idx`, top to bottom.
pub fn col_of(idx: usize) -> (r: [usize; 9])
    requires
        idx < 81,
    ensures
        forall|j: int| 0 <= j < 9 ==> r[j] == idx % 9 + 9 * j,
{
    let base = idx % 9;
    let mut r: [usize; 9] = [0; 9];
    let mut j: usize = 0;
    while j < 9
        invariant
            j <= 9,
            base == idx % 9,
            forall|l: int| 0 <= l < j ==> r[l] == base + 9 * l,
        decreases 9 - j,
    {
        r[j] = base + 9 * j;
        j += 1;
    }
    r
}

/// The nine cells of the box of cell `idx`, row by row.
pub fn box_of(idx: usize) -> (r: [usize; 9])
    requires
        idx < 81,
    ensures
        forall|j: int|
            0 <= j < 9 ==> r[j] == 27 * (idx / 27) + 3 * ((idx % 9) / 3) + 9 * (j / 3) + j % 3,
{
    let base = 27 * (idx / 27) + 3 * ((idx % 9) / 3);
    let mut r: [usize; 9] = [0; 9];
    let mut j: usize = 0;
    while j < 9
        invariant
            j <= 9,
            base == 27 * (idx / 27) + 3 * ((idx % 9) / 3),
            base <= 60,
            forall|l: int| 0 <= l < j ==> r[l] == base + 9 * (l / 3) + l % 3,
        decreases 9 - j,
    {
        r[j] = base + 9 * (j / 3) + j % 3;
        j += 1;
    }
    r
}

/// The set of the nine cells in `cells`.
fn set_of(cells: [usize; 9]) -> (r: IndexSet)
    requires
        forall|j: int| 0 <= j < 9 ==> cells[j] < 128,
    ensures
        forall|i: usize| r@.contains(i) <==> exists|j: int| 0 <= j < 9 && cells[j] == i,
{
    let mut r = IndexSet::new(0);
    proof {
        lemma_indices_empty(0);
    }
    let mut j: usize = 0;
    while j < 9
        invariant
            j <= 9,
            forall|j: int| 0 <= j < 9 ==> cells[j] < 128,
            forall|i: usize| r@.contains(i) <==> exists|l: int| 0 <= l < j && cells[l] == i,
        decreases 9 - j,
    {
        r.insert(cells[j]);
        proof {
            assert forall|i: usize| r@.contains(i) implies exists|l: int|
                0 <= l < j + 1 && cells[l] == i by {
                if i != cells[j as int] {
                    let l = choose|l: int| 0 <= l < j && cells[l] == i;
                    assert(0 <= l < j + 1 && cells[l] == i);
                } else {
                    assert(0 <= j < j + 1 && cells[j as int] == i);
                }
            }
        }
        j += 1;
    }
    r
}

/// Cell arithmetic of rows and columns.
proof fn lemma_line_arith(b: int, j: int, i: int)
    requires
        0 <= b < 9,
        0 <= j < 9,
        0 <= i < 81,
    ensures
        (9 * b) / 9 == b,
        (9 * b + j) / 9 == b,
        i / 9 == b ==> i == 9 * b + i % 9,
        (b + 9 * j) % 9 == b,
        b + 9 * j < 81,
        i % 9 == b ==> i == b + 9 * (i / 9),
        i / 9 < 9,
{
    lemma_fundamental_div_mod_converse(9 * b, 9, b, 0);
    lemma_fundamental_div_mod_converse(9 * b + j, 9, b, j);
    lemma_fundamental_div_mod_converse(b + 9 * j, 9, j, b);
}

/// The first cell of box `b`, and its `j`-th cell after it, lie in box `b`.
proof fn lemma_box_member(b: int, j: int)
    requires
        0 <= b < 9,
        0 <= j < 9,
    ensures
        (27 * (b / 3) + 3 * (b % 3)) / 27 == b / 3,
        ((27 * (b / 3) + 3 * (b % 3)) % 9) / 3 == b % 3,
        27 * (b / 3) + 3 * (b % 3) + 9 * (j / 3) + j % 3 < 81,
        box_index(27 * (b / 3) + 3 * (b % 3) + 9 * (j / 3) + j % 3) == b,
        3 * (((27 * (b / 3) + 3 * (b % 3) + 9 * (j / 3) + j % 3) / 9) % 3) + (27 * (b / 3) + 3 * (b
            % 3) + 9 * (j / 3) + j % 3) % 3 == j,
{
    let (bq, br, jq, jr) = (b / 3, b % 3, j / 3, j % 3);
    let base = 27 * bq + 3 * br;
    lemma_fundamental_div_mod_converse(base, 27, bq, 3 * br);
    lemma_fundamental_div_mod_converse(base, 9, 3 * bq, 3 * br);
    lemma_fundamental_div_mod_converse(3 * br, 3, br, 0);
    let c = base + 9 * jq + jr;
    lemma_fundamental_div_mod_converse(c, 27, bq, 9 * jq + 3 * br + jr);
    lemma_fundamental_div_mod_converse(c, 9, 3 * bq + jq, 3 * br + jr);
    lemma_fundamental_div_mod_converse(3 * br + jr, 3, br, jr);
    lemma_fundamental_div_mod_converse(3 * bq + jq, 3, bq, jq);
    lemma_fundamental_div_mod_converse(c, 3, 9 * bq + 3 * jq + br, jr);
    lemma_fundamental_div_mod_converse(j, 3, jq, jr);
}

/// A cell of box `b` is its `k`-th cell, for `k` read off the cell's row and column.
proof fn lemma_box_witness(b: int, i: int)
    requires
        0 <= b < 9,
        0 <= i < 81,
        box_index(i) == b,
    ensures
        3 * ((i / 9) % 3) + i % 3 < 9,
        i == 27 * (b / 3) + 3 * (b % 3) + 9 * ((3 * ((i / 9) % 3) + i % 3) / 3) + (3 * ((i / 9)
            % 3) + i % 3) % 3,
{
    let (q, rr) = (i / 9, i % 9);
    let (qq, qr, cq, cr) = (q / 3, q % 3, rr / 3, rr % 3);
    lemma_fundamental_div_mod_converse(i, 27, qq, 9 * qr + rr);
    lemma_fundamental_div_mod_converse(i % 3, 3, 0, cr);
    let k = 3 * qr + cr;
    lemma_fundamental_div_mod_converse(k, 3, qr, cr);
    assert(3 * qq + cq == b);
    lemma_fundamental_div_mod_converse(b, 3, qq, cq);
}

/// The cells of group `g`: row `g`, column `g - 9` or box `g - 18`.
pub fn range(g: usize) -> (r: IndexSet)
    requires
        g < 27,
    ensures
        r@ == group_set(g as int),
{
    let cells = if g < 9 {
        proof {
            lemma_line_arith(g as int, 0, 0);
        }
        row_of(9 * g)
    } else if g < 18 {
        col_of(g - 9)
    } else {
        let b = g - 18;
        proof {
            lemma_box_member(b as int, 0);
        }
        box_of(27 * (b / 3) + 3 * (b % 3))
    };
    let ghost b: int = if g < 9 {
        g as int
    } else if g < 18 {
        g - 9
    } else {
        g - 18
    };
    proof {
        assert forall|j: int| 0 <= j < 9 implies cells[j] < 81 && in_group(
            g as int,
            cells[j] as int,
        ) by {
            if g < 18 {
                lemma_line_arith(b, j, 0);
            } else {
                lemma_box_member(b, 0);
                lemma_box_member(b, j);
            }
        }
    }
    let r = set_of(cells);
    proof {
        assert forall|i: usize| #[trigger] r@.contains(i) == group_set(g as int).contains(i) by {
            if in_group(g as int, i as int) {
                if g < 9 {
                    lemma_line_arith(b, 0, i as int);
                    assert(cells[i as int % 9] == i);
                } else if g < 18 {
                    lemma_line_arith(b, 0, i as int);
                    assert(cells[i as int / 9] == i);
                } else {
                    lemma_box_member(b, 0);
                    lemma_box_witness(b, i as int);
                    let j: int = 3 * ((i as int / 9) % 3) + i as int % 3;
                    assert(cells[j] == i);
                }
            }
        }
        assert(r@ =~= group_set(g as int));
    }
    r
}

/// The `j`-th cell of group `g`.
pub open spec fn cell_at(g: int, j: int) -> int {
    if g < 9 {
        9 * g + j
    } else if g < 18 {
        (g - 9) + 9 * j
    } else {
        27 * ((g - 18) / 3) + 3 * ((g - 18) % 3) + 9 * (j / 3) + j % 3
    }
}

/// Where cell `i` stands within group `g`.
pub open spec fn place_in_group(g: int, i: int) -> int {
    if g < 9 {
        i % 9
    } else if g < 18 {
        i / 9
    } else {
        3 * ((i / 9) % 3) + i % 3
    }
}

/// A group's cells and the places 0..9 correspond one to one.
pub proof fn lemma_group_places(g: int, i: int, j: int)
    requires
        0 <= g < 27,
    ensures
        in_group(g, i) ==> 0 <= place_in_group(g, i) < 9 && i == cell_at(g, place_in_group(g, i)),
        0 <= j < 9 ==> in_group(g, cell_at(g, j)) && place_in_group(g, cell_at(g, j)) == j,
{
    let b = if g < 9 {
        g
    } else if g < 18 {
        g - 9
    } else {
        g - 18
    };
    if 0 <= j < 9 {
        if g < 18 {
            lemma_line_arith(b, j, 0);
            lemma_fundamental_div_mod_converse(9 * b + j, 9, b, j);
            lemma_fundamental_div_mod_converse(b + 9 * j, 9, j, b);
        } else {
            lemma_box_member(b, j);
        }
    }
    if in_group(g, i) {
        if g < 18 {
            lemma_line_arith(b, 0, i);
        } else {
            lemma_box_witness(b, i);
        }
    }
}

/// Every group has nine cells.
pub proof fn lemma_group_size(g: int)
    requires
        0 <= g < 27,
    ensures
        group_set(g).finite(),
        group_set(g).len() == 9,
{
    let places = set_int_range(0, 9);
    lemma_int_range(0, 9);
    let h = |i: usize| place_in_group(g, i as int);
    assert forall|a: usize, b: usize|
        group_set(g).contains(a) && group_set(g).contains(b) && #[trigger] h(a) == #[trigger] h(b)
            implies a == b by {
        lemma_group_places(g, a as int, 0);
        lemma_group_places(g, b as int, 0);
    }
    assert forall|j: int| #[trigger] places.contains(j) implies group_set(g).map(h).contains(j) by {
        lemma_group_places(g, 0, j);
        let c = cell_at(g, j);
        assert(group_set(g).contains(c as usize) && h(c as usize) == j);
    }
    assert forall|j: int| #[trigger] group_set(g).map(h).contains(j) implies places.contains(j) by {
        let a = choose|a: usize| group_set(g).contains(a) && h(a) == j;
        lemma_group_places(g, a as int, 0);
    }
    assert(group_set(g).map(h) =~= places);
    assert(group_set(g).subset_of(Set::range(0usize, 81usize)));
    range_set_properties::<usize>(0usize, 81usize);
    vstd::set_lib::lemma_set_subset_finite(Set::range(0usize, 81usize), group_set(g));
    vstd::set_lib::lemma_map_size(group_set(g), places, h);
}

/// The cells that share a row, a column or a box with cell `idx`.
pub fn ranges_of(idx: usize) -> (r: IndexSet)
    requires
        idx < 81,
    ensures
        r@ == peer_set(idx as int),
{
    let row = range(idx / 9);
    let col = range(9 + idx % 9);
    let bx = range(18 + (idx / 27 * 3 + idx % 9 / 3));
    row.union(col).union(bx)
}

} // verus!
