use vstd::prelude::*;

use crate::bitset::{
    digits_of, lemma_digits_empty, lemma_digits_finite, lemma_indices_empty, lemma_indices_finite,
    BitSet, DigitSet, IndexSet,
};
use crate::combination::Combinations;
use vstd::set_lib::{lemma_map_size, lemma_subset_equality, range_set_properties};

use crate::utils::{
    box_index, group_set, in_group, lemma_group_size, peer_set, range, ranges_of, FULL_SET_BITS,
};

verus! {

pub type Index = usize;

pub type Digit = u8;

/// One square of the grid: a digit, or the digits still possible for it.
#[derive(Clone, Copy)]
pub enum Cell {
    Unsolved(DigitSet),
    Solved(Digit),
}

/// The digits a cell may still take: its candidates, or nothing once solved.
pub open spec fn markup_of(c: Cell) -> Set<u8> {
    match c {
        Cell::Unsolved(s) => s@,
        Cell::Solved(_) => Set::empty(),
    }
}

/// A solved cell holds a digit 1..=9; an unsolved one only candidates among them.
pub open spec fn cell_ok(c: Cell) -> bool {
    match c {
        Cell::Solved(v) => 1 <= v <= 9,
        Cell::Unsolved(s) => forall|d: u8| #[trigger] s@.contains(d) ==> 1 <= d <= 9,
    }
}

/// `new` says no more than `old`: a solved cell keeps its digit, and an unsolved one only loses
/// candidates or is solved with one of them.
pub open spec fn refines(new: Cell, old: Cell) -> bool {
    match old {
        Cell::Solved(v) => new == Cell::Solved(v),
        Cell::Unsolved(m) => match new {
            Cell::Solved(v) => m@.contains(v),
            Cell::Unsolved(n) => n@.subset_of(m@),
        },
    }
}

/// The digits 1..=9.
pub open spec fn all_digits() -> Set<u8> {
    Set::new(|d: u8| 1 <= d <= 9)
}

/// `sol` fills the grid: 81 digits 1..=9, no row, column or box holding one twice.
pub open spec fn is_solution(sol: Seq<u8>) -> bool {
    &&& sol.len() == 81
    &&& forall|i: int| 0 <= i < 81 ==> 1 <= #[trigger] sol[i] <= 9
    &&& forall|g: int, i: int, j: int|
        #![trigger in_group(g, i), in_group(g, j)]
        in_group(g, i) && in_group(g, j) && i != j ==> sol[i] != sol[j]
}

/// Cell `c` allows digit `d`: it is solved with `d`, or keeps `d` as a candidate.
pub open spec fn allows_digit(c: Cell, d: u8) -> bool {
    match c {
        Cell::Solved(v) => v == d,
        Cell::Unsolved(m) => m@.contains(d),
    }
}

/// Two distinct cells sharing a row, a column or a box hold different digits in a solution.
proof fn lemma_peers_differ(sol: Seq<u8>, i: int, j: int)
    requires
        is_solution(sol),
        0 <= i < 81,
        0 <= j < 81,
        peer_set(i).contains(j as usize),
        i != j,
    ensures
        sol[i] != sol[j],
{
    let (r, c, b) = (i / 9, 9 + i % 9, 18 + box_index(i));
    assert(in_group(r, i) && in_group(c, i) && in_group(b, i));
    if in_group(r, j) {
    } else if in_group(c, j) {
    } else {
        assert(in_group(b, j));
    }
}

/// A one-member set holds nothing but that member.
proof fn lemma_single_member(s: Set<u8>, a: u8, b: u8)
    requires
        s.finite(),
        s.len() == 1,
        s.contains(a),
        s.contains(b),
    ensures
        a == b,
{
    s.remove(a).lemma_len0_is_empty();
    if a != b {
        assert(s.remove(a).contains(b));
    }
}

/// The full candidate word holds the digits 1..=9.
proof fn lemma_full_set()
    ensures
        digits_of(FULL_SET_BITS) == all_digits(),
{
    assert forall|d: u16| d < 16 implies ((FULL_SET_BITS >> d) & 1u16 == 1u16) == (1 <= d <= 9)
        by {
        assert(d < 16 ==> (((0b0000_0011_1111_1110u16 >> d) & 1u16 == 1u16) == (1 <= d && d
            <= 9))) by (bit_vector);
    }
    assert(digits_of(FULL_SET_BITS) =~= all_digits());
}

impl Cell {
    /// The candidates of an unsolved cell; the empty set for a solved one.
    pub fn markup(self) -> (r: DigitSet)
        ensures
            r@ == markup_of(self),
            self matches Cell::Unsolved(s) ==> r == s,
    {
        match self {
            Self::Unsolved(set) => set,
            Self::Solved(_) => {
                proof {
                    lemma_digits_empty(0);
                }
                DigitSet::new(0)
            },
        }
    }

    /// The digit of a solved cell; 0 for an unsolved one.
    pub fn value(self) -> (r: Digit)
        ensures
            r == match self {
                Cell::Solved(v) => v,
                Cell::Unsolved(_) => 0,
            },
    {
        match self {
            Self::Solved(v) => v,
            Self::Unsolved(_) => 0,
        }
    }
}

/// A 9×9 grid in row-major order, with the set of its unsolved cells.
#[derive(Clone, Copy)]
pub struct Puzzle {
    pub cells: [Cell; 81],
    pub empty_cells: IndexSet,
}

/// A group of cells whose candidates together number as many digits as there are cells.
#[derive(Clone, Copy)]
struct LockedSet {
    numbers: DigitSet,
    cells: IndexSet,
}

/// The digits that are candidates of some cell of `c`.
pub open spec fn union_markups(p: Puzzle, c: Set<usize>) -> Set<u8> {
    Set::new(
        |d: u8|
            exists|i: usize| c.contains(i) && i < 81 && markup_of(p.cells[i as int]).contains(d),
    )
}

/// Some set of `sets` is `c`.
pub open spec fn in_list(sets: Seq<IndexSet>, c: Set<usize>) -> bool {
    exists|t: int| 0 <= t < sets.len() && sets[t]@ == c
}

/// Every cell of group `g` outside the locked set `ls` keeps none of its digits.
spec fn struck(p: Puzzle, g: int, ls: LockedSet) -> bool {
    forall|j: usize|
        group_set(g).contains(j) && !ls.cells@.contains(j) ==> #[trigger] markup_of(
            p.cells[j as int],
        ).disjoint(ls.numbers@)
}

/// Narrowing candidates without solving cells keeps digits struck.
proof fn lemma_struck_kept(new: Puzzle, old: Puzzle, g: int, ls: LockedSet)
    requires
        new.wf(),
        old.wf(),
        new.empty_cells == old.empty_cells,
        new.refines_grid(old),
        struck(old, g, ls),
    ensures
        struck(new, g, ls),
{
    assert forall|j: usize| group_set(g).contains(j) && !ls.cells@.contains(j) implies #[trigger] markup_of(
        new.cells[j as int],
    ).disjoint(ls.numbers@) by {
        assert(refines(new.cells[j as int], old.cells[j as int]));
        assert(markup_of(old.cells[j as int]).disjoint(ls.numbers@));
        if old.cells[j as int] is Solved {
            assert(new.cells[j as int] == old.cells[j as int]);
        } else {
            assert(old.empty_cells@.contains(j));
        }
    }
}

/// Some locked set of `acc` has exactly the cells `c`.
spec fn found_exactly(acc: Seq<LockedSet>, c: Set<usize>) -> bool {
    exists|a: int| 0 <= a < acc.len() && acc[a].cells@ == c
}

impl Puzzle {
    /// The grid invariant: cells hold digits 1..=9 only, and `empty_cells` is exactly the set of
    /// unsolved cells.
    pub open spec fn wf(&self) -> bool {
        &&& forall|i: int| 0 <= i < 81 ==> cell_ok(#[trigger] self.cells[i])
        &&& forall|i: usize| #[trigger]
            self.empty_cells@.contains(i) <==> (i < 81 && self.cells[i as int] is Unsolved)
    }

    /// No two solved cells of group `g` hold the same digit.
    pub open spec fn group_consistent(&self, g: int) -> bool {
        forall|i: int, j: int|
            #![trigger in_group(g, i), in_group(g, j)]
            in_group(g, i) && in_group(g, j) && i != j && self.cells[i] is Solved
                && self.cells[j] is Solved ==> self.cells[i] != self.cells[j]
    }

    /// No row, column or box holds a digit twice among its solved cells.
    pub open spec fn consistent(&self) -> bool {
        forall|g: int| 0 <= g < 27 ==> #[trigger] self.group_consistent(g)
    }

    /// No unsolved cell keeps as a candidate the digit of a solved cell it shares a group with.
    pub open spec fn markup_consistent(&self) -> bool {
        forall|i: int, j: int|
            #![trigger self.cells[i], self.cells[j]]
            0 <= i < 81 && 0 <= j < 81 && peer_set(i).contains(j as usize) && self.cells[i] is Unsolved
                && self.cells[j] is Solved ==> !markup_of(self.cells[i]).contains(
                self.cells[j]->Solved_0,
            )
    }

    /// A cell sharing a group with cell `i` is solved with `d`.
    pub open spec fn solved_peer_digit(&self, i: int, d: u8) -> bool {
        exists|j: int|
            0 <= j < 81 && #[trigger] peer_set(i).contains(j as usize) && self.cells[j]
                == Cell::Solved(d)
    }

    /// Every cell solved since `old` has its digit struck from the unsolved cells it shares a group
    /// with.
    pub open spec fn struck_since(&self, old: Puzzle) -> bool {
        forall|i: int, j: int|
            #![trigger self.cells[i], old.cells[j]]
            0 <= i < 81 && 0 <= j < 81 && old.cells[j] is Unsolved && self.cells[j] is Solved
                && peer_set(j).contains(i as usize) && self.cells[i] is Unsolved ==> !markup_of(
                self.cells[i],
            ).contains(self.cells[j]->Solved_0)
    }

    /// No unsolved cell is left with exactly one candidate.
    pub open spec fn no_singles(&self) -> bool {
        forall|i: int| 0 <= i < 81 && (#[trigger] self.cells[i]) is Unsolved ==> markup_of(
            self.cells[i],
        ).len() != 1
    }

    /// Every cell is solved.
    pub open spec fn is_solved(&self) -> bool {
        forall|i: int| 0 <= i < 81 ==> #[trigger] self.cells[i] is Solved
    }

    /// Every cell allows the digit that `sol` puts there.
    pub open spec fn allows(&self, sol: Seq<u8>) -> bool {
        forall|i: int| 0 <= i < 81 ==> allows_digit(#[trigger] self.cells[i], sol[i])
    }

    /// Every solution that `old` allows, `self` allows too.
    pub open spec fn keeps_solutions(&self, old: Puzzle) -> bool {
        forall|sol: Seq<u8>| is_solution(sol) && #[trigger] old.allows(sol) ==> self.allows(sol)
    }

    /// Every cell of `self` refines the same cell of `old`.
    pub open spec fn refines_grid(&self, old: Puzzle) -> bool {
        forall|i: int| 0 <= i < 81 ==> refines(#[trigger] self.cells[i], old.cells[i])
    }

    /// The cell that symbol `c` gives: a digit for '1'..='9', else every digit still possible.
    pub open spec fn cell_from_symbol(c: u8) -> Cell {
        if 49 <= c <= 57 {
            Cell::Solved((c - 48) as u8)
        } else {
            Cell::Unsolved(BitSet::<u8>(FULL_SET_BITS))
        }
    }

    /// The grid of 81 symbols, row by row.
    pub fn new_from_string(s: &[Digit]) -> (r: Self)
        requires
            s@.len() == 81,
        ensures
            r.wf(),
            forall|i: int| 0 <= i < 81 ==> #[trigger] r.cells[i] == Self::cell_from_symbol(s@[i]),
    {
        let full = Cell::Unsolved(DigitSet::new(FULL_SET_BITS));
        let mut cells: [Cell; 81] = [full; 81];
        let mut empty_cells = IndexSet::new(0);
        proof {
            lemma_indices_empty(0);
            lemma_full_set();
        }
        let mut i: usize = 0;
        while i < 81
            invariant
                i <= 81,
                s@.len() == 81,
                full == Cell::Unsolved(BitSet::<u8>(FULL_SET_BITS)),
                forall|k: int| 0 <= k < i ==> #[trigger] cells[k] == Self::cell_from_symbol(s@[k]),
                forall|k: int| i <= k < 81 ==> #[trigger] cells[k] == full,
                forall|k: usize| #[trigger]
                    empty_cells@.contains(k) <==> (k < i && cells[k as int] is Unsolved),
            decreases 81 - i,
        {
            let c = s[i];
            // '1' is 49 and '9' is 57 in ASCII.
            if 49 <= c && c <= 57 {
                cells[i] = Cell::Solved(c - 48);
            } else {
                empty_cells.insert(i);
            }
            i += 1;
        }
        let r = Self { cells, empty_cells };
        proof {
            assert forall|k: int| 0 <= k < 81 implies cell_ok(#[trigger] r.cells[k]) by {
                assert(r.cells[k] == Self::cell_from_symbol(s@[k]));
            }
        }
        r
    }

    /// Whether no row, column or box holds a digit twice among its solved cells.
    pub fn is_valid(&self) -> (r: bool)
        requires
            self.wf(),
        ensures
            r == self.consistent(),
    {
        let mut g: usize = 0;
        while g < 27
            invariant
                self.wf(),
                g <= 27,
                forall|h: int| 0 <= h < g ==> #[trigger] self.group_consistent(h),
            decreases 27 - g,
        {
            let members = range(g);
            let mut seen = DigitSet::new(0);
            let ghost mut owner: Map<u8, int> = Map::empty();
            proof {
                lemma_digits_empty(0);
            }
            let mut i: usize = 0;
            while i < 81
                invariant
                    self.wf(),
                    g < 27,
                    i <= 81,
                    members@ == group_set(g as int),
                    forall|h: int| 0 <= h < g ==> #[trigger] self.group_consistent(h),
                    forall|d: u8| #[trigger]
                        seen@.contains(d) ==> owner.contains_key(d) && 0 <= owner[d] < i
                            && in_group(g as int, owner[d]) && self.cells[owner[d]] == Cell::Solved(
                            d,
                        ),
                    forall|k: int|
                        0 <= k < i && in_group(g as int, k) && (#[trigger] self.cells[k]) is Solved
                            ==> seen@.contains(self.cells[k]->Solved_0),
                    forall|a: int, b: int|
                        #![trigger in_group(g as int, a), in_group(g as int, b)]
                        0 <= a < i && 0 <= b < i && in_group(g as int, a) && in_group(g as int, b)
                            && a != b && self.cells[a] is Solved && self.cells[b] is Solved
                            ==> self.cells[a] != self.cells[b],
                decreases 81 - i,
            {
                if members.contains(i) {
                    if let Cell::Solved(v) = self.cells[i] {
                        assert(cell_ok(self.cells[i as int]));
                        if seen.contains(v) {
                            proof {
                                let o = owner[v];
                                assert(in_group(g as int, o) && in_group(g as int, i as int));
                                assert(!self.group_consistent(g as int));
                            }
                            return false;
                        }
                        seen.insert(v);
                        proof {
                            owner = owner.insert(v, i as int);
                        }
                    }
                }
                i += 1;
            }
            proof {
                assert(self.group_consistent(g as int));
            }
            g += 1;
        }
        true
    }

    /// An unsolved cell with the fewest candidates, and its candidates; `None` once every cell
    /// is solved.
    fn find_empty_cell(&self) -> (r: Option<(Index, DigitSet)>)
        requires
            self.wf(),
        ensures
            r is None <==> self.is_solved(),
            r matches Some(p) ==> p.0 < 81 && self.empty_cells@.contains(p.0) && self.cells[p.0 as int]
                == Cell::Unsolved(p.1) && forall|j: usize| #[trigger]
                self.empty_cells@.contains(j) ==> p.1@.len() <= markup_of(self.cells[j as int]).len(),
    {
        let mut it = self.empty_cells.into_iter();
        let mut best: Option<(Index, DigitSet)> = None;
        let mut best_len: usize = 0;
        proof {
            lemma_indices_finite(it.0);
        }
        while it.0 != 0
            invariant
                self.wf(),
                it@.subset_of(self.empty_cells@),
                it@.finite(),
                best is None ==> it@ == self.empty_cells@,
                best matches Some(p) ==> p.0 < 81 && self.empty_cells@.contains(p.0)
                    && self.cells[p.0 as int] == Cell::Unsolved(p.1) && best_len == p.1@.len()
                    && forall|j: usize| #[trigger]
                    self.empty_cells@.contains(j) && !it@.contains(j) ==> p.1@.len() <= markup_of(
                        self.cells[j as int],
                    ).len(),
            decreases it@.len(),
        {
            proof {
                lemma_indices_empty(it.0);
            }
            let idx = it.next().unwrap();
            proof {
                lemma_indices_finite(it.0);
            }
            let set = self.cells[idx].markup();
            let n = set.len();
            match best {
                None => {
                    best = Some((idx, set));
                    best_len = n;
                },
                Some(_) => {
                    if n < best_len {
                        best = Some((idx, set));
                        best_len = n;
                    }
                },
            }
        }
        proof {
            lemma_indices_empty(it.0);
            lemma_indices_empty(self.empty_cells.0);
            if best is None {
                assert forall|i: int| 0 <= i < 81 implies #[trigger] self.cells[i] is Solved by {
                    assert(!self.empty_cells@.contains(i as usize));
                }
            } else {
                let p = best->Some_0;
                assert(self.empty_cells@.contains(p.0));
            }
        }
        best
    }

    /// Strikes `value` from the candidates of the unsolved cells among `indices`.
    fn cross_out(&mut self, indices: IndexSet, value: Digit)
        requires
            old(self).wf(),
            value < 16,
        ensures
            final(self).wf(),
            final(self).empty_cells == old(self).empty_cells,
            final(self).refines_grid(*old(self)),
            forall|i: int|
                0 <= i < 81 ==> if indices@.contains(i as usize) && old(self).cells[i] is Unsolved {
                    (#[trigger] final(self).cells[i]) is Unsolved && markup_of(final(self).cells[i])
                        == markup_of(old(self).cells[i]).remove(value)
                } else {
                    final(self).cells[i] == old(self).cells[i]
                },
    {
        let mut it = indices.into_iter();
        let ghost start = *self;
        proof {
            lemma_indices_finite(it.0);
        }
        while it.0 != 0
            invariant
                self.wf(),
                self.empty_cells == start.empty_cells,
                self.refines_grid(start),
                it@.finite(),
                it@.subset_of(indices@),
                value < 16,
                start.wf(),
                forall|i: int|
                    0 <= i < 81 ==> if indices@.contains(i as usize) && !it@.contains(i as usize)
                        && start.cells[i] is Unsolved {
                        (#[trigger] self.cells[i]) is Unsolved && markup_of(self.cells[i])
                            == markup_of(start.cells[i]).remove(value)
                    } else {
                        self.cells[i] == start.cells[i]
                    },
            decreases it@.len(),
        {
            proof {
                lemma_indices_empty(it.0);
            }
            let idx = it.next().unwrap();
            proof {
                lemma_indices_finite(it.0);
            }
            if idx < 81 {
                if let Cell::Unsolved(set) = self.cells[idx] {
                    let ghost prev = self.cells[idx as int];
                    let mut set = set;
                    set.remove(value);
                    self.cells[idx] = Cell::Unsolved(set);
                    proof {
                        assert(self.cells[idx as int] is Unsolved);
                        assert(cell_ok(self.cells[idx as int]));
                        assert(prev == start.cells[idx as int]);
                        assert(markup_of(self.cells[idx as int]) == markup_of(
                            start.cells[idx as int],
                        ).remove(value));
                    }
                }
            }
        }
        proof {
            lemma_indices_empty(it.0);
        }
    }

    /// Narrows every unsolved cell's candidates to the digits that no solved peer holds.
    fn generate_markup(&mut self)
        requires
            old(self).wf(),
        ensures
            final(self).wf(),
            final(self).empty_cells == old(self).empty_cells,
            final(self).refines_grid(*old(self)),
            final(self).markup_consistent(),
            forall|i: int, d: u8|
                0 <= i < 81 && markup_of(old(self).cells[i]).contains(d)
                    && !old(self).solved_peer_digit(i, d) ==> #[trigger] markup_of(
                    final(self).cells[i],
                ).contains(d),
            final(self).keeps_solutions(*old(self)),
    {
        let mut it = self.empty_cells.into_iter();
        let ghost start = *self;
        proof {
            lemma_indices_finite(it.0);
        }
        while it.0 != 0
            invariant
                self.wf(),
                self.empty_cells == start.empty_cells,
                self.refines_grid(start),
                it@.finite(),
                it@.subset_of(start.empty_cells@),
                forall|j: int| 0 <= j < 81 ==> (#[trigger] self.cells[j] is Solved) == (
                start.cells[j] is Solved),
                forall|i: int, j: int|
                    0 <= i < 81 && !it@.contains(i as usize) && peer_set(i).contains(j as usize) && 0
                        <= j < 81 && (#[trigger] self.cells[i]) is Unsolved && (
                    #[trigger] self.cells[j]) is Solved ==> !markup_of(self.cells[i]).contains(
                        self.cells[j]->Solved_0,
                    ),
                forall|i: int| 0 <= i < 81 && it@.contains(i as usize) ==> #[trigger] self.cells[i]
                    == start.cells[i],
                forall|i: int, d: u8|
                    0 <= i < 81 && !it@.contains(i as usize) && markup_of(start.cells[i]).contains(d)
                        && !start.solved_peer_digit(i, d) ==> #[trigger] markup_of(
                        self.cells[i],
                    ).contains(d),
            decreases it@.len(),
        {
            proof {
                lemma_indices_empty(it.0);
            }
            let idx = it.next().unwrap();
            proof {
                lemma_indices_finite(it.0);
            }
            let peers = ranges_of(idx).difference(self.empty_cells);
            let mut pit = peers.into_iter();
            let mut peer_markup = DigitSet::new(0);
            proof {
                lemma_digits_empty(0);
                lemma_indices_finite(pit.0);
            }
            while pit.0 != 0
                invariant
                    self.wf(),
                    idx < 81,
                    pit@.finite(),
                    pit@.subset_of(peers@),
                    peers@ == peer_set(idx as int).difference(self.empty_cells@),
                    forall|j: int|
                        0 <= j < 81 && peers@.contains(j as usize) && !pit@.contains(j as usize)
                            ==> peer_markup@.contains((#[trigger] self.cells[j])->Solved_0),
                    self.refines_grid(start),
                    forall|j: int| 0 <= j < 81 ==> (#[trigger] self.cells[j] is Solved) == (
                    start.cells[j] is Solved),
                    forall|d: u8| #[trigger]
                        peer_markup@.contains(d) ==> start.solved_peer_digit(idx as int, d),
                decreases pit@.len(),
            {
                proof {
                    lemma_indices_empty(pit.0);
                }
                let j = pit.next().unwrap();
                proof {
                    lemma_indices_finite(pit.0);
                }
                let v = self.cells[j].value();
                proof {
                    assert(self.cells[j as int] is Solved);
                    assert(cell_ok(self.cells[j as int]));
                    assert(refines(self.cells[j as int], start.cells[j as int]));
                    assert(start.cells[j as int] == Cell::Solved(v));
                    assert(peer_set(idx as int).contains(j));
                }
                if v < 16 {
                    peer_markup.insert(v);
                }
            }
            if let Cell::Unsolved(markup) = self.cells[idx] {
                let mut markup = markup;
                markup.difference_mut(peer_markup);
                self.cells[idx] = Cell::Unsolved(markup);
            }
            proof {
                lemma_indices_empty(pit.0);
                assert forall|j: int| 0 <= j < 81 && peer_set(idx as int).contains(j as usize) && (
                #[trigger] self.cells[j]) is Solved implies !markup_of(
                    self.cells[idx as int],
                ).contains(self.cells[j]->Solved_0) by {
                    assert(!self.empty_cells@.contains(j as usize));
                    assert(peers@.contains(j as usize));
                }
            }
        }
        proof {
            lemma_indices_empty(it.0);
            assert forall|sol: Seq<u8>| is_solution(sol) && #[trigger] start.allows(sol) implies self.allows(
                sol,
            ) by {
                assert forall|i: int| 0 <= i < 81 implies allows_digit(#[trigger] self.cells[i], sol[i]) by {
                    assert(allows_digit(start.cells[i], sol[i]));
                    assert(refines(self.cells[i], start.cells[i]));
                    if start.cells[i] is Unsolved {
                        if start.solved_peer_digit(i, sol[i]) {
                            let j = choose|j: int|
                                0 <= j < 81 && #[trigger] peer_set(i).contains(j as usize)
                                    && start.cells[j] == Cell::Solved(sol[i]);
                            assert(allows_digit(start.cells[j], sol[j]));
                            lemma_peers_differ(sol, i, j);
                        }
                        assert(markup_of(self.cells[i]).contains(sol[i]));
                    }
                }
            }
        }
    }

    /// Solves every unsolved cell left with a single candidate, striking its digit from its
    /// peers, until a full pass solves nothing. Returns whether any cell was solved.
    fn fill_singles(&mut self) -> (r: bool)
        requires
            old(self).wf(),
        ensures
            final(self).wf(),
            final(self).refines_grid(*old(self)),
            final(self).empty_cells@.subset_of(old(self).empty_cells@),
            r ==> final(self).empty_cells@.len() < old(self).empty_cells@.len(),
            !r ==> *final(self) == *old(self),
            final(self).no_singles(),
            final(self).keeps_solutions(*old(self)),
            final(self).struck_since(*old(self)),
    {
        let ghost start = *self;
        let mut cont = true;
        let mut modified = false;
        proof {
            lemma_indices_finite(self.empty_cells.0);
        }
        while cont
            invariant
                self.wf(),
                self.refines_grid(start),
                self.empty_cells@.subset_of(start.empty_cells@),
                self.empty_cells@.finite(),
                start.empty_cells@.finite(),
                modified ==> self.empty_cells@.len() < start.empty_cells@.len(),
                !modified ==> *self == start,
                !cont ==> self.no_singles(),
                self.keeps_solutions(start),
                self.struck_since(start),
            decreases self.empty_cells@.len() + (if cont {
                1int
            } else {
                0int
            }),
        {
            cont = false;
            let ghost before = *self;
            let mut it = self.empty_cells.into_iter();
            proof {
                lemma_indices_finite(it.0);
            }
            while it.0 != 0
                invariant
                    self.wf(),
                    self.refines_grid(start),
                    self.refines_grid(before),
                    self.empty_cells@.subset_of(before.empty_cells@),
                    before.empty_cells@.subset_of(start.empty_cells@),
                    self.empty_cells@.finite(),
                    before.empty_cells@.finite(),
                    start.empty_cells@.finite(),
                    it@.finite(),
                    it@.subset_of(before.empty_cells@),
                    before.wf(),
                    before.refines_grid(start),
                    modified ==> self.empty_cells@.len() < start.empty_cells@.len(),
                    !modified ==> *self == start,
                    cont ==> self.empty_cells@.len() < before.empty_cells@.len(),
                    !cont ==> *self == before,
                    cont ==> modified,
                    self.keeps_solutions(start),
                    self.struck_since(start),
                    !cont ==> forall|j: usize| #[trigger]
                        before.empty_cells@.contains(j) && !it@.contains(j) ==> markup_of(
                            self.cells[j as int],
                        ).len() != 1,
                decreases it@.len(),
            {
                proof {
                    lemma_indices_empty(it.0);
                }
                let idx = it.next().unwrap();
                proof {
                    lemma_indices_finite(it.0);
                }
                let empty_cell_values = self.cells[idx].markup();
                if empty_cell_values.len() == 1 {
                    let value = empty_cell_values.pop();
                    proof {
                        lemma_digits_finite(empty_cell_values.0);
                        assert(cell_ok(self.cells[idx as int]));
                        lemma_indices_finite(self.empty_cells.0);
                        lemma_refines_trans(*self, before, start);
                    }
                    let ghost mid = *self;
                    self.cells[idx] = Cell::Solved(value);
                    self.empty_cells.remove(idx);
                    proof {
                        lemma_indices_finite(self.empty_cells.0);
                        assert(self.refines_grid(mid));
                        lemma_refines_trans(*self, mid, before);
                        lemma_refines_trans(*self, mid, start);
                        vstd::set_lib::lemma_len_subset(self.empty_cells@, mid.empty_cells@);
                        vstd::set_lib::lemma_len_subset(mid.empty_cells@, before.empty_cells@);
                        vstd::set_lib::lemma_len_subset(before.empty_cells@, start.empty_cells@);
                    }
                    cont = true;
                    modified = true;
                    let ghost mid2 = *self;
                    let peers = ranges_of(idx);
                    self.cross_out(peers, value);
                    proof {
                        assert forall|i: int, j: int|
                            #![trigger self.cells[i], start.cells[j]]
                            0 <= i < 81 && 0 <= j < 81 && start.cells[j] is Unsolved
                                && self.cells[j] is Solved && peer_set(j).contains(i as usize)
                                && self.cells[i] is Unsolved implies !markup_of(
                            self.cells[i],
                        ).contains(self.cells[j]->Solved_0) by {
                            assert(refines(self.cells[i], mid2.cells[i]));
                            assert(self.cells[j] == mid2.cells[j]);
                            if j != idx {
                                assert(mid.cells[i] == mid2.cells[i]);
                                assert(mid.cells[j] == mid2.cells[j]);
                                assert(!markup_of(mid.cells[i]).contains(mid.cells[j]->Solved_0));
                            } else {
                                assert(peers@.contains(i as usize));
                            }
                        }
                        lemma_refines_trans(*self, mid2, before);
                        lemma_refines_trans(*self, mid2, start);
                        assert forall|sol: Seq<u8>| is_solution(sol) && #[trigger] start.allows(
                            sol,
                        ) implies self.allows(sol) by {
                            assert(mid.allows(sol));
                            assert(allows_digit(mid.cells[idx as int], sol[idx as int]));
                            lemma_single_member(empty_cell_values@, value, sol[idx as int]);
                            assert forall|i: int| 0 <= i < 81 implies allows_digit(
                                #[trigger] self.cells[i],
                                sol[i],
                            ) by {
                                assert(allows_digit(mid.cells[i], sol[i]));
                                if i != idx && self.cells[i] != mid2.cells[i] {
                                    lemma_peers_differ(sol, idx as int, i);
                                }
                            }
                        }
                    }
                }
            }
            proof {
                if cont {
                    vstd::set_lib::lemma_len_subset(before.empty_cells@, start.empty_cells@);
                } else {
                    lemma_indices_empty(it.0);
                    assert forall|i: int| 0 <= i < 81 && (#[trigger] self.cells[i]) is Unsolved
                        implies markup_of(self.cells[i]).len() != 1 by {
                        assert(before.empty_cells@.contains(i as usize));
                    }
                }
            }
        }
        modified
    }

    /// Every locked set of sizes 2, 3 and 4 among the unsolved cells of `range`, each subset of
    /// those cells examined in the enumerator's order.
    fn find_pre_sets(&self, range: IndexSet) -> (r: Vec<LockedSet>)
        requires
            self.wf(),
        ensures
            forall|k: int| 0 <= k < r.len() ==> self.is_locked(range@, #[trigger] r[k]),
            forall|c: Set<usize>| #[trigger]
                self.locked_candidate(range@, c) ==> found_exactly(r@, c),
    {
        let mut acc: Vec<LockedSet> = Vec::new();
        let mut n: usize = 2;
        while n <= 4
            invariant
                self.wf(),
                2 <= n <= 5,
                forall|k: int| 0 <= k < acc.len() ==> self.is_locked(range@, #[trigger] acc[k]),
                forall|c: Set<usize>| #[trigger]
                    self.locked_candidate(range@, c) && c.len() < n ==> found_exactly(acc@, c),
            decreases 5 - n,
        {
            let source = range.intersection(self.empty_cells);
            let mut combinations = Combinations::new(source.into_iter(), n);
            let mut sets: Vec<IndexSet> = Vec::new();
            loop
                invariant
                    combinations.wf(),
                    combinations.measure() >= 0,
                    combinations.source() == source@,
                    combinations.k() == n,
                    source@ == range@.intersect(self.empty_cells@),
                    sets.len() == combinations.emitted().len(),
                    forall|t: int|
                        0 <= t < sets.len() ==> (#[trigger] sets[t])@ == combinations.emitted()[t],
                    forall|k: int|
                        0 <= k < sets.len() ==> (#[trigger] sets[k])@.subset_of(source@)
                            && sets[k]@.len() == n,
                ensures
                    forall|k: int|
                        0 <= k < sets.len() ==> (#[trigger] sets[k])@.subset_of(source@)
                            && sets[k]@.len() == n,
                    forall|c: Set<usize>| #[trigger]
                        self.locked_candidate(range@, c) && c.len() == n ==> in_list(sets@, c),
                decreases combinations.measure(),
            {
                let next = combinations.next();
                match next {
                    Some(c) => {
                        sets.push(c);
                    },
                    None => {
                        proof {
                            assert forall|c: Set<usize>| #[trigger]
                                self.locked_candidate(range@, c) && c.len() == n implies in_list(
                                sets@,
                                c,
                            ) by {
                                assert(combinations.emitted().contains(c));
                                let t = choose|t: int|
                                    0 <= t < combinations.emitted().len()
                                        && combinations.emitted()[t] == c;
                                assert(sets@[t]@ == c);
                            }
                        }
                        break;
                    },
                }
            }
            let mut t: usize = 0;
            while t < sets.len()
                invariant
                    self.wf(),
                    2 <= n <= 4,
                    t <= sets.len(),
                    source@ == range@.intersect(self.empty_cells@),
                    forall|k: int|
                        0 <= k < sets.len() ==> (#[trigger] sets[k])@.subset_of(source@)
                            && sets[k]@.len() == n,
                    forall|k: int| 0 <= k < acc.len() ==> self.is_locked(range@, #[trigger] acc[k]),
                    forall|c: Set<usize>| #[trigger]
                        self.locked_candidate(range@, c) && c.len() < n ==> found_exactly(acc@, c),
                    forall|c: Set<usize>| #[trigger]
                        self.locked_candidate(range@, c) && c.len() == n ==> in_list(sets@, c),
                    forall|c: Set<usize>| #[trigger]
                        self.locked_candidate(range@, c) && c.len() == n && in_list(
                            sets@.subrange(0, t as int),
                            c,
                        ) ==> found_exactly(acc@, c),
                decreases sets.len() - t,
            {
                let x = sets[t];
                let ghost acc0 = acc@;
                let nums = self.union_of_markups(x);
                if nums.len() == n {
                    proof {
                        assert(x@.subset_of(source@));
                    }
                    acc.push(LockedSet { numbers: nums, cells: x });
                }
                proof {
                    assert forall|c: Set<usize>| #[trigger]
                        self.locked_candidate(range@, c) && (c.len() < n || (c.len() == n && in_list(
                            sets@.subrange(0, t + 1),
                            c,
                        ))) implies found_exactly(acc@, c) by {
                        if c.len() < n || in_list(sets@.subrange(0, t as int), c) {
                            let a = choose|a: int| 0 <= a < acc0.len() && acc0[a].cells@ == c;
                            assert(acc@[a] == acc0[a]);
                        } else {
                            let sub = sets@.subrange(0, t + 1);
                            let u = choose|u: int| 0 <= u < sub.len() && (#[trigger] sub[u])@ == c;
                            if u < t {
                                assert(sets@.subrange(0, t as int)[u]@ == c);
                            } else {
                                assert(x@ == c);
                                assert(nums@ == union_markups(*self, c));
                                assert(acc@[acc@.len() - 1].cells@ == c);
                            }
                        }
                    }
                }
                t += 1;
            }
            proof {
                assert(sets@.subrange(0, t as int) == sets@);
                assert forall|c: Set<usize>| #[trigger]
                    self.locked_candidate(range@, c) && c.len() < n + 1 implies found_exactly(
                    acc@,
                    c,
                ) by {}
            }
            n += 1;
        }
        proof {
            assert forall|c: Set<usize>| #[trigger]
                self.locked_candidate(range@, c) implies found_exactly(acc@, c) by {
                assert(c.len() < n);
            }
        }
        acc
    }

    /// `c` is a locked set of `range` waiting to be found: two to four unsolved cells of `range`
    /// whose candidates together number as many digits as there are cells.
    pub open spec fn locked_candidate(&self, range: Set<usize>, c: Set<usize>) -> bool {
        &&& 2 <= c.len() <= 4
        &&& c.subset_of(range.intersect(self.empty_cells@))
        &&& union_markups(*self, c).len() == c.len()
    }

    /// `ls` is a locked set of `range`: unsolved cells of `range` whose candidates all lie among
    /// `ls.numbers`, with as many numbers as cells.
    spec fn is_locked(&self, range: Set<usize>, ls: LockedSet) -> bool {
        &&& ls.cells@.subset_of(range.intersect(self.empty_cells@))
        &&& 2 <= ls.cells@.len() <= 4
        &&& ls.numbers@ == union_markups(*self, ls.cells@)
        &&& forall|i: usize| #[trigger]
            ls.cells@.contains(i) ==> markup_of(self.cells[i as int]).subset_of(ls.numbers@)
        &&& ls.numbers@.len() == ls.cells@.len()
    }

    /// The union of the candidates of the cells in `x`.
    fn union_of_markups(&self, x: IndexSet) -> (r: DigitSet)
        requires
            self.wf(),
        ensures
            forall|i: usize| #[trigger]
                x@.contains(i) && i < 81 ==> markup_of(self.cells[i as int]).subset_of(r@),
            r@ == union_markups(*self, x@),
    {
        let mut it = x.into_iter();
        let mut nums = DigitSet::new(0);
        proof {
            lemma_indices_finite(it.0);
            lemma_digits_empty(0);
            assert(union_markups(*self, x@.difference(it@)) =~= Set::<u8>::empty());
        }
        while it.0 != 0
            invariant
                self.wf(),
                it@.finite(),
                it@.subset_of(x@),
                forall|i: usize| #[trigger]
                    x@.contains(i) && !it@.contains(i) && i < 81 ==> markup_of(
                        self.cells[i as int],
                    ).subset_of(nums@),
                nums@ == union_markups(*self, x@.difference(it@)),
            decreases it@.len(),
        {
            proof {
                lemma_indices_empty(it.0);
            }
            let ghost done = x@.difference(it@);
            let idx = it.next().unwrap();
            proof {
                lemma_indices_finite(it.0);
                assert(x@.difference(it@) =~= done.insert(idx));
            }
            let ghost before = nums@;
            if idx < 81 {
                nums = self.cells[idx].markup().union(nums);
            }
            proof {
                let now = done.insert(idx);
                assert forall|d: u8| #[trigger] union_markups(*self, now).contains(d) == nums@.contains(
                    d,
                ) by {
                    if union_markups(*self, now).contains(d) {
                        let i = choose|i: usize|
                            now.contains(i) && i < 81 && markup_of(self.cells[i as int]).contains(d);
                        if i != idx {
                            assert(union_markups(*self, done).contains(d));
                        }
                    }
                    if before.contains(d) {
                        let i = choose|i: usize|
                            done.contains(i) && i < 81 && markup_of(self.cells[i as int]).contains(d);
                        assert(now.contains(i));
                    }
                    if idx < 81 && markup_of(self.cells[idx as int]).contains(d) {
                        assert(now.contains(idx));
                    }
                }
                assert(union_markups(*self, now) =~= nums@);
            }
        }
        proof {
            lemma_indices_empty(it.0);
            assert(x@.difference(it@) =~= x@);
        }
        nums
    }

    /// In every group, strikes the digits of each locked set from the group's other cells. The
    /// locked sets of all groups are found in the grid as it was on entry.
    fn apply_locked_sets(&mut self)
        requires
            old(self).wf(),
        ensures
            final(self).wf(),
            final(self).empty_cells == old(self).empty_cells,
            final(self).refines_grid(*old(self)),
            final(self).keeps_solutions(*old(self)),
            forall|g: int, c: Set<usize>|
                0 <= g < 27 && #[trigger] old(self).locked_candidate(group_set(g), c) ==> forall|
                    j: usize,
                | group_set(g).contains(j) && !c.contains(j) ==> #[trigger] markup_of(
                    final(self).cells[j as int],
                ).disjoint(union_markups(*old(self), c)),
    {
        let ghost start = *self;
        let mut lists: Vec<Vec<LockedSet>> = Vec::new();
        let mut g: usize = 0;
        while g < 27
            invariant
                self.wf(),
                *self == start,
                g <= 27,
                lists.len() == g,
                forall|h: int, k: int|
                    0 <= h < g && 0 <= k < lists[h].len() ==> start.is_locked(
                        group_set(h),
                        #[trigger] lists[h][k],
                    ),
                forall|h: int, c: Set<usize>|
                    0 <= h < g && #[trigger] start.locked_candidate(group_set(h), c)
                        ==> found_exactly(lists[h]@, c),
            decreases 27 - g,
        {
            let indices = range(g);
            let found = self.find_pre_sets(indices);
            lists.push(found);
            g += 1;
        }
        g = 0;
        proof {
            lemma_refines_refl(*self);
        }
        while g < 27
            invariant
                self.wf(),
                start.wf(),
                g <= 27,
                lists.len() == 27,
                self.empty_cells == start.empty_cells,
                self.refines_grid(start),
                self.keeps_solutions(start),
                forall|h: int, k: int|
                    0 <= h < 27 && 0 <= k < lists[h].len() ==> start.is_locked(
                        group_set(h),
                        #[trigger] lists[h][k],
                    ),
                forall|h: int, k: int|
                    0 <= h < g && 0 <= k < lists[h].len() ==> struck(
                        *self,
                        h,
                        #[trigger] lists[h][k],
                    ),
            decreases 27 - g,
        {
            let indices = range(g);
            let pre_sets = &lists[g];
            let mut p: usize = 0;
            while p < pre_sets.len()
                invariant
                    self.wf(),
                    start.wf(),
                    g < 27,
                    lists.len() == 27,
                    pre_sets == &lists[g as int],
                    indices@ == group_set(g as int),
                    self.empty_cells == start.empty_cells,
                    self.refines_grid(start),
                    self.keeps_solutions(start),
                    forall|h: int, k: int|
                        0 <= h < 27 && 0 <= k < lists[h].len() ==> start.is_locked(
                            group_set(h),
                            #[trigger] lists[h][k],
                        ),
                    forall|h: int, k: int|
                        ((0 <= h < g && 0 <= k < lists[h].len()) || (h == g && 0 <= k < p))
                            ==> struck(*self, h, #[trigger] lists[h][k]),
                decreases pre_sets.len() - p,
            {
                let ps = pre_sets[p];
                let others = indices.difference(ps.cells);
                let mut it = others.into_iter();
                let ghost before = *self;
                proof {
                    lemma_indices_finite(it.0);
                    lemma_refines_refl(*self);
                }
                while it.0 != 0
                    invariant
                        self.wf(),
                        start.wf(),
                        before.wf(),
                        g < 27,
                        indices@ == group_set(g as int),
                        others@ == indices@.difference(ps.cells@),
                        it@.subset_of(others@),
                        start.is_locked(group_set(g as int), ps),
                        self.empty_cells == start.empty_cells,
                        before.empty_cells == start.empty_cells,
                        self.refines_grid(start),
                        self.refines_grid(before),
                        self.keeps_solutions(start),
                        it@.finite(),
                        forall|j: usize|
                            others@.contains(j) && !it@.contains(j) ==> #[trigger] markup_of(
                                self.cells[j as int],
                            ).disjoint(ps.numbers@),
                    decreases it@.len(),
                {
                    proof {
                        lemma_indices_empty(it.0);
                    }
                    let cell_idx = it.next().unwrap();
                    proof {
                        lemma_indices_finite(it.0);
                    }
                    let ghost prev = *self;
                    if cell_idx < 81 {
                        if let Cell::Unsolved(set) = self.cells[cell_idx] {
                            let mut set = set;
                            set.difference_mut(ps.numbers);
                            self.cells[cell_idx] = Cell::Unsolved(set);
                            proof {
                                assert(cell_ok(self.cells[cell_idx as int]));
                                assert(self.refines_grid(prev));
                                lemma_refines_trans(*self, prev, start);
                                lemma_refines_trans(*self, prev, before);
                                assert forall|sol: Seq<u8>| is_solution(sol) && #[trigger] start.allows(
                                    sol,
                                ) implies self.allows(sol) by {
                                    assert(prev.allows(sol));
                                    lemma_locked_set_excludes(
                                        prev,
                                        start,
                                        g as int,
                                        ps,
                                        sol,
                                        cell_idx as int,
                                    );
                                    assert forall|i: int| 0 <= i < 81 implies allows_digit(
                                        #[trigger] self.cells[i],
                                        sol[i],
                                    ) by {
                                        assert(allows_digit(prev.cells[i], sol[i]));
                                    }
                                }
                            }
                        }
                    }
                    proof {
                        assert forall|j: usize|
                            others@.contains(j) && !it@.contains(j) implies #[trigger] markup_of(
                            self.cells[j as int],
                        ).disjoint(ps.numbers@) by {
                            if j != cell_idx {
                                assert(self.cells[j as int] == prev.cells[j as int]);
                            } else if cell_idx >= 81 {
                                assert(!group_set(g as int).contains(j));
                            }
                        }
                    }
                }
                proof {
                    lemma_indices_empty(it.0);
                    assert forall|h: int, k: int|
                        ((0 <= h < g && 0 <= k < lists[h].len()) || (h == g && 0 <= k < p + 1))
                            implies struck(*self, h, #[trigger] lists[h][k]) by {
                        if h == g && k == p {
                            assert(lists[h][k] == ps);
                        } else {
                            lemma_struck_kept(*self, before, h, lists[h][k]);
                        }
                    }
                }
                p += 1;
            }
            g += 1;
        }
        proof {
            assert forall|h: int, c: Set<usize>|
                0 <= h < 27 && #[trigger] start.locked_candidate(group_set(h), c) implies forall|
                    j: usize,
                | group_set(h).contains(j) && !c.contains(j) ==> #[trigger] markup_of(
                    self.cells[j as int],
                ).disjoint(union_markups(start, c)) by {
                let a = choose|a: int| 0 <= a < lists[h]@.len() && lists[h]@[a].cells@ == c;
                assert(start.is_locked(group_set(h), lists[h][a]));
                assert(struck(*self, h, lists[h][a]));
            }
        }
    }

    /// Runs markup generation, locked-set elimination and single filling until a round solves
    /// no cell.
    fn simplify(&mut self)
        requires
            old(self).wf(),
        ensures
            final(self).wf(),
            final(self).refines_grid(*old(self)),
            final(self).empty_cells@.subset_of(old(self).empty_cells@),
            final(self).no_singles(),
            final(self).keeps_solutions(*old(self)),
            final(self).markup_consistent(),
    {
        let ghost start = *self;
        let mut modified_previous = true;
        proof {
            lemma_refines_refl(*self);
            lemma_keeps_refl(*self);
            lemma_indices_finite(self.empty_cells.0);
        }
        while modified_previous
            invariant
                self.wf(),
                self.refines_grid(start),
                self.empty_cells@.subset_of(start.empty_cells@),
                self.empty_cells@.finite(),
                !modified_previous ==> self.no_singles(),
                !modified_previous ==> self.markup_consistent(),
                self.keeps_solutions(start),
            decreases self.empty_cells@.len() + (if modified_previous {
                1int
            } else {
                0int
            }),
        {
            let ghost before = *self;
            self.generate_markup();
            let ghost a = *self;
            self.apply_locked_sets();
            let ghost b = *self;
            modified_previous = self.fill_singles();
            proof {
                lemma_refines_trans(b, a, before);
                lemma_refines_trans(*self, b, before);
                lemma_refines_trans(*self, before, start);
                lemma_indices_finite(self.empty_cells.0);
                lemma_nothing_solved(b, a);
                lemma_markup_consistent_kept(b, a);
                lemma_markup_consistent_kept(*self, b);
                lemma_keeps_trans(b, a, before);
                lemma_keeps_trans(*self, b, before);
                lemma_keeps_trans(*self, before, start);
            }
        }
    }

    /// Solves the grid: propagation, then a guess on a cell with the fewest candidates, in
    /// ascending digit order, undoing each guess that leads nowhere. On failure the grid is left
    /// as it was.
    pub fn solve(&mut self) -> (r: bool)
        requires
            old(self).wf(),
        ensures
            r ==> final(self).wf() && final(self).is_solved() && final(self).consistent()
                && final(self).refines_grid(*old(self)),
            !r ==> *final(self) == *old(self),
            !r ==> forall|sol: Seq<u8>| is_solution(sol) ==> !(#[trigger] old(self).allows(sol)),
        decreases old(self).empty_cells@.len(),
    {
        let entry = *self;
        proof {
            lemma_indices_finite(self.empty_cells.0);
        }
        self.simplify();
        match self.find_empty_cell() {
            Some((idx, possibilities)) => {
                let ghost simplified = *self;
                self.empty_cells.remove(idx);
                proof {
                    lemma_indices_finite(simplified.empty_cells.0);
                    lemma_indices_finite(self.empty_cells.0);
                    vstd::set_lib::lemma_len_subset(
                        simplified.empty_cells@,
                        entry.empty_cells@,
                    );
                }
                let ghost base = *self;
                let mut it = possibilities.into_iter();
                proof {
                    lemma_digits_finite(it.0);
                }
                while it.0 != 0
                    invariant
                        *self == base,
                        idx < 81,
                        base.cells == simplified.cells,
                        base.empty_cells@ == simplified.empty_cells@.remove(idx),
                        simplified.wf(),
                        simplified.cells[idx as int] == Cell::Unsolved(possibilities),
                        simplified.refines_grid(entry),
                        base.empty_cells@.len() < entry.empty_cells@.len(),
                        base.empty_cells@.finite(),
                        it@.finite(),
                        it@.subset_of(possibilities@),
                        entry.wf(),
                        entry == *old(self),
                        simplified.keeps_solutions(entry),
                        forall|sol: Seq<u8>|
                            is_solution(sol) && #[trigger] simplified.allows(sol) ==> it@.contains(
                                sol[idx as int],
                            ),
                    decreases it@.len(),
                {
                    proof {
                        lemma_digits_empty(it.0);
                    }
                    let possibility = it.next().unwrap();
                    proof {
                        lemma_digits_finite(it.0);
                    }
                    let prev_state = *self;
                    self.cells[idx] = Cell::Solved(possibility);
                    proof {
                        assert(cell_ok(simplified.cells[idx as int]));
                        assert(self.empty_cells@ =~= base.empty_cells@);
                        assert(self.refines_grid(simplified));
                        lemma_refines_trans(*self, simplified, entry);
                    }
                    let ghost guessed = *self;
                    let ghost left = it@;
                    if self.solve() {
                        proof {
                            lemma_refines_trans(*self, guessed, entry);
                        }
                        return true;
                    }
                    proof {
                        assert forall|sol: Seq<u8>| is_solution(sol) && #[trigger] simplified.allows(
                            sol,
                        ) implies left.contains(sol[idx as int]) by {
                            if sol[idx as int] == possibility {
                                assert forall|i: int| 0 <= i < 81 implies allows_digit(
                                    #[trigger] guessed.cells[i],
                                    sol[i],
                                ) by {
                                    assert(allows_digit(simplified.cells[i], sol[i]));
                                }
                                assert(guessed.allows(sol));
                            }
                        }
                    }
                    *self = prev_state;
                }
                proof {
                    lemma_digits_empty(it.0);
                    assert forall|sol: Seq<u8>| is_solution(sol) implies !(
                    #[trigger] entry.allows(sol)) by {
                        if entry.allows(sol) {
                            assert(simplified.allows(sol));
                        }
                    }
                }
                *self = entry;
                false
            },
            None => {
                if self.is_valid() {
                    true
                } else {
                    proof {
                        assert forall|sol: Seq<u8>| is_solution(sol) implies !(
                        #[trigger] entry.allows(sol)) by {
                            if entry.allows(sol) {
                                assert(self.allows(sol));
                                assert forall|g: int| 0 <= g < 27 implies #[trigger]
                                    self.group_consistent(g) by {
                                    assert forall|i: int, j: int|
                                        #![trigger in_group(g, i), in_group(g, j)]
                                        in_group(g, i) && in_group(g, j) && i != j && self.cells[i] is Solved
                                            && self.cells[j] is Solved implies self.cells[i]
                                        != self.cells[j] by {
                                        assert(allows_digit(self.cells[i], sol[i]));
                                        assert(allows_digit(self.cells[j], sol[j]));
                                    }
                                }
                            }
                        }
                    }
                    *self = entry;
                    false
                }
            },
        }
    }
}

/// In a solved grid where no group repeats a digit, every row, column and box holds each digit
/// 1..=9 exactly once.
pub proof fn law_solution_has_each_digit_once(p: Puzzle, g: int, d: u8)
    requires
        p.wf(),
        p.is_solved(),
        p.consistent(),
        0 <= g < 27,
        1 <= d <= 9,
    ensures
        exists|i: int| #[trigger] in_group(g, i) && p.cells[i] == Cell::Solved(d),
        forall|i: int, j: int|
            #![trigger in_group(g, i), in_group(g, j)]
            in_group(g, i) && in_group(g, j) && p.cells[i] == Cell::Solved(d) && p.cells[j]
                == Cell::Solved(d) ==> i == j,
{
    lemma_group_size(g);
    let grp = group_set(g);
    let v = |i: usize| p.cells[i as int]->Solved_0;
    assert(p.group_consistent(g));
    assert forall|a: usize, b: usize|
        grp.contains(a) && grp.contains(b) && #[trigger] v(a) == #[trigger] v(b) implies a == b by {
        assert(p.cells[a as int] is Solved && p.cells[b as int] is Solved);
        if a != b {
            assert(in_group(g, a as int) && in_group(g, b as int));
        }
    }
    lemma_map_size(grp, grp.map(v), v);
    assert forall|e: u8| #[trigger] grp.map(v).contains(e) implies all_digits().contains(e) by {
        let a = choose|a: usize| grp.contains(a) && v(a) == e;
        assert(cell_ok(p.cells[a as int]));
    }
    assert(all_digits() =~= Set::range(1u8, 10u8));
    range_set_properties::<u8>(1u8, 10u8);
    lemma_subset_equality(grp.map(v), all_digits());
    assert(grp.map(v).contains(d));
    let a = choose|a: usize| grp.contains(a) && v(a) == d;
    assert(in_group(g, a as int) && p.cells[a as int] == Cell::Solved(d));
}

/// Validation reads the cells alone: two grids with the same cells get the same answer, however
/// often it is asked.
pub proof fn law_validation_is_stable(p: Puzzle, q: Puzzle)
    requires
        p.cells == q.cells,
    ensures
        p.consistent() == q.consistent(),
{
    assert(p.cells@ == q.cells@);
    assert forall|g: int|
        #![trigger p.group_consistent(g)]
        #![trigger q.group_consistent(g)]
        0 <= g < 27 implies p.group_consistent(g) == q.group_consistent(g) by {}
}

/// In a solution, the cells of a locked set of group `g` take exactly its digits, so no other
/// cell of the group takes one of them.
proof fn lemma_locked_set_excludes(
    p: Puzzle,
    snap: Puzzle,
    g: int,
    ls: LockedSet,
    sol: Seq<u8>,
    o: int,
)
    requires
        p.wf(),
        p.refines_grid(snap),
        p.empty_cells == snap.empty_cells,
        snap.is_locked(group_set(g), ls),
        0 <= g < 27,
        is_solution(sol),
        p.allows(sol),
        0 <= o < 81,
        group_set(g).contains(o as usize),
        !ls.cells@.contains(o as usize),
    ensures
        !ls.numbers@.contains(sol[o]),
{
    let cells = ls.cells@;
    let nums = ls.numbers@;
    lemma_indices_finite(ls.cells.0);
    lemma_digits_finite(ls.numbers.0);
    let f = |c: usize| sol[c as int];
    assert forall|a: usize, b: usize|
        cells.contains(a) && cells.contains(b) && #[trigger] f(a) == #[trigger] f(b) implies a == b by {
        if a != b {
            assert(in_group(g, a as int) && in_group(g, b as int));
        }
    }
    lemma_map_size(cells, cells.map(f), f);
    assert forall|e: u8| #[trigger] cells.map(f).contains(e) implies nums.contains(e) by {
        let c = choose|c: usize| cells.contains(c) && f(c) == e;
        assert(p.empty_cells@.contains(c));
        assert(allows_digit(p.cells[c as int], sol[c as int]));
        assert(refines(p.cells[c as int], snap.cells[c as int]));
        assert(markup_of(snap.cells[c as int]).subset_of(nums));
    }
    lemma_subset_equality(cells.map(f), nums);
    if nums.contains(sol[o]) {
        assert(cells.map(f).contains(sol[o]));
        let c = choose|c: usize| cells.contains(c) && f(c) == sol[o];
        assert(in_group(g, c as int) && in_group(g, o));
    }
}

/// A grid keeps its own solutions.
/// Refinement, spelled out: a solved cell keeps its digit, and an unsolved cell only loses
/// candidates or is solved with one of them. Every propagation pass and a successful search
/// ensure `refines_grid` of the grid they started from.
pub proof fn law_refinement_never_adds(new: Puzzle, old: Puzzle)
    requires
        new.refines_grid(old),
    ensures
        forall|i: int|
            0 <= i < 81 && (#[trigger] old.cells[i]) is Solved ==> new.cells[i] == old.cells[i],
        forall|i: int|
            0 <= i < 81 && (#[trigger] old.cells[i]) is Unsolved ==> match new.cells[i] {
                Cell::Unsolved(n) => n@.subset_of(markup_of(old.cells[i])),
                Cell::Solved(d) => markup_of(old.cells[i]).contains(d),
            },
{
    assert forall|i: int| 0 <= i < 81 && (#[trigger] old.cells[i]) is Solved implies new.cells[i]
        == old.cells[i] by {
        assert(refines(new.cells[i], old.cells[i]));
    }
    assert forall|i: int| 0 <= i < 81 && (#[trigger] old.cells[i]) is Unsolved implies match new.cells[i] {
        Cell::Unsolved(n) => n@.subset_of(markup_of(old.cells[i])),
        Cell::Solved(d) => markup_of(old.cells[i]).contains(d),
    } by {
        assert(refines(new.cells[i], old.cells[i]));
    }
}

/// A pass that only narrows candidates and strikes the digits it solves keeps candidates clear of
/// solved peers' digits.
proof fn lemma_markup_consistent_kept(new: Puzzle, old: Puzzle)
    requires
        old.markup_consistent(),
        new.refines_grid(old),
        new.struck_since(old),
    ensures
        new.markup_consistent(),
{
    assert forall|i: int, j: int|
        #![trigger new.cells[i], new.cells[j]]
        0 <= i < 81 && 0 <= j < 81 && peer_set(i).contains(j as usize) && new.cells[i] is Unsolved
            && new.cells[j] is Solved implies !markup_of(new.cells[i]).contains(
        new.cells[j]->Solved_0,
    ) by {
        assert(refines(new.cells[i], old.cells[i]));
        assert(refines(new.cells[j], old.cells[j]));
        if old.cells[j] is Unsolved {
            lemma_peer_symmetric(i, j);
            assert(peer_set(j).contains(i as usize));
            assert(old.cells[j] is Unsolved && new.cells[j] is Solved);
        } else {
            assert(!markup_of(old.cells[i]).contains(old.cells[j]->Solved_0));
        }
    }
}

/// A pass that solves no cell has nothing to strike.
proof fn lemma_nothing_solved(new: Puzzle, old: Puzzle)
    requires
        new.wf(),
        old.wf(),
        new.empty_cells == old.empty_cells,
    ensures
        new.struck_since(old),
{
    assert forall|i: int, j: int|
        #![trigger new.cells[i], old.cells[j]]
        0 <= i < 81 && 0 <= j < 81 && old.cells[j] is Unsolved && new.cells[j] is Solved
            && peer_set(j).contains(i as usize) && new.cells[i] is Unsolved implies !markup_of(
        new.cells[i],
    ).contains(new.cells[j]->Solved_0) by {
        assert(old.empty_cells@.contains(j as usize));
    }
}

/// Sharing a row, a column or a box is symmetric.
proof fn lemma_peer_symmetric(i: int, j: int)
    requires
        0 <= i < 81,
        0 <= j < 81,
        peer_set(i).contains(j as usize),
    ensures
        peer_set(j).contains(i as usize),
{
    assert(in_group(i / 9, j as int) || in_group(9 + i % 9, j as int) || in_group(
        18 + box_index(i),
        j as int,
    ));
    assert(0 <= j / 9 < 9 && 0 <= box_index(j) < 9);
}

proof fn lemma_keeps_refl(p: Puzzle)
    ensures
        p.keeps_solutions(p),
{
}

/// Keeping solutions chains.
proof fn lemma_keeps_trans(a: Puzzle, b: Puzzle, c: Puzzle)
    requires
        a.keeps_solutions(b),
        b.keeps_solutions(c),
    ensures
        a.keeps_solutions(c),
{
    assert forall|sol: Seq<u8>| is_solution(sol) && #[trigger] c.allows(sol) implies a.allows(sol) by {
        assert(b.allows(sol));
    }
}

/// A grid refines itself.
proof fn lemma_refines_refl(p: Puzzle)
    ensures
        p.refines_grid(p),
{
    assert forall|i: int| 0 <= i < 81 implies refines(#[trigger] p.cells[i], p.cells[i]) by {
        match p.cells[i] {
            Cell::Unsolved(m) => {
                assert(m@.subset_of(m@));
            },
            Cell::Solved(_) => {},
        }
    }
}

/// Refinement chains.
proof fn lemma_refines_trans(a: Puzzle, b: Puzzle, c: Puzzle)
    requires
        a.refines_grid(b),
        b.refines_grid(c),
    ensures
        a.refines_grid(c),
{
    assert forall|i: int| 0 <= i < 81 implies refines(#[trigger] a.cells[i], c.cells[i]) by {
        assert(refines(a.cells[i], b.cells[i]));
        assert(refines(b.cells[i], c.cells[i]));
    }
}

} // verus!
