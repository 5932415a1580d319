use vstd::prelude::*;

use crate::bitset::{
    index_rank, indices_of, lemma_indices_empty, lemma_indices_finite, BitSetIter, IndexSet,
};

verus! {

/// Enumerates the `k`-element subsets of the members of a `BitSetIter`, in lexicographic order
/// of their members' positions, pulling members from the source only as they are needed.
pub struct Combinations {
    iter: BitSetIter<usize>,
    indices: Vec<usize>,
    buffer: IndexSet,
    first: bool,
    source: Ghost<Set<usize>>,
    emitted: Ghost<Seq<Set<usize>>>,
    positions: Ghost<Seq<Seq<usize>>>,
}

/// Some position of `ps` is `r`.
pub open spec fn has_rank(ps: Seq<usize>, r: nat) -> bool {
    exists|j: int| 0 <= j < ps.len() && ps[j] == r
}

/// The members of `source` whose rank in it is one of the positions `ps`.
pub open spec fn subset_at(source: Set<usize>, ps: Seq<usize>) -> Set<usize> {
    Set::new(|e: usize| source.contains(e) && has_rank(ps, index_rank(source, e)))
}

/// What the record of handed-out subsets keeps: each is the subset at a strictly increasing
/// vector of `k` positions, every position the rank of a member of the source, and the vectors
/// strictly increase in lexicographic order, up to the current one.
pub open spec fn history_ok(
    source: Set<usize>,
    indices: Seq<usize>,
    emitted: Seq<Set<usize>>,
    positions: Seq<Seq<usize>>,
    first: bool,
) -> bool {
    let k = indices.len();
    &&& emitted.len() == positions.len()
    &&& forall|t: int| 0 <= t < emitted.len() ==> entry_ok(source, k, #[trigger] emitted[t], positions[t])
    &&& forall|t1: int, t2: int|
        0 <= t1 < t2 < emitted.len() ==> lex_rank(#[trigger] positions[t1]) < lex_rank(
            #[trigger] positions[t2],
        )
    &&& first ==> emitted.len() == 0
    &&& emitted.len() > 0 ==> lex_rank(positions.last()) <= lex_rank(indices)
}

/// `c` is the subset of `source` at the strictly increasing positions `ps`, `k` of them, each
/// the rank of a member of `source`.
pub open spec fn entry_ok(source: Set<usize>, k: nat, c: Set<usize>, ps: Seq<usize>) -> bool {
    &&& ps.len() == k
    &&& strictly_increasing(ps)
    &&& forall|j: int| 0 <= j < k ==> ranked_in(source, source, #[trigger] ps[j] as int)
    &&& c == subset_at(source, ps)
    &&& c.subset_of(source)
    &&& c.finite()
    &&& c.len() == k
}

/// Recording a new subset at positions beyond every earlier vector keeps the record sound.
proof fn lemma_history_push(
    source: Set<usize>,
    indices: Seq<usize>,
    emitted: Seq<Set<usize>>,
    positions: Seq<Seq<usize>>,
    c: Set<usize>,
)
    requires
        history_ok(source, indices, emitted, positions, false),
        emitted.len() > 0 ==> lex_rank(positions.last()) < lex_rank(indices),
        entry_ok(source, indices.len(), c, indices),
    ensures
        history_ok(source, indices, emitted.push(c), positions.push(indices), false),
{
    let e2 = emitted.push(c);
    let p2 = positions.push(indices);
    assert forall|t: int| 0 <= t < e2.len() implies entry_ok(
        source,
        indices.len(),
        #[trigger] e2[t],
        p2[t],
    ) by {
        if t < emitted.len() {
            assert(entry_ok(source, indices.len(), emitted[t], positions[t]));
        }
    }
    assert forall|t1: int, t2: int| 0 <= t1 < t2 < e2.len() implies lex_rank(
        #[trigger] p2[t1],
    ) < lex_rank(#[trigger] p2[t2]) by {
        if t2 == emitted.len() && t1 < emitted.len() - 1 {
            assert(lex_rank(positions[t1]) < lex_rank(positions[emitted.len() - 1]));
        }
    }
}

/// Adding the member `e` of rank `indices[j]` extends the subset at the first `j` positions to
/// the subset at the first `j + 1`.
proof fn lemma_decode_step(source: Set<usize>, indices: Seq<usize>, j: int, c: Set<usize>, e: usize)
    requires
        source.finite(),
        0 <= j < indices.len(),
        source.contains(e),
        index_rank(source, e) == indices[j],
        forall|x: usize|
            #![trigger c.contains(x)]
            c.contains(x) <==> (source.contains(x) && exists|l: int|
                0 <= l < j && indices[l] == index_rank(source, x)),
        forall|l: int| 0 <= l < j ==> ranked_in(source, c, #[trigger] indices[l] as int),
        strictly_increasing(indices),
    ensures
        !c.contains(e),
        forall|x: usize|
            #![trigger c.insert(e).contains(x)]
            c.insert(e).contains(x) <==> (source.contains(x) && exists|l: int|
                0 <= l < j + 1 && indices[l] == index_rank(source, x)),
        forall|l: int| 0 <= l < j + 1 ==> ranked_in(source, c.insert(e), #[trigger] indices[l] as int),
{
    if c.contains(e) {
        let l = choose|l: int| 0 <= l < j && indices[l] == index_rank(source, e);
        assert(indices[l] < indices[j]);
    }
    let c2 = c.insert(e);
    assert forall|x: usize| #![trigger c2.contains(x)] c2.contains(x) <==> (source.contains(x)
        && exists|l: int| 0 <= l < j + 1 && indices[l] == index_rank(source, x)) by {
        if source.contains(x) && index_rank(source, x) == indices[j] && x != e {
            lemma_rank_injective(source, x, e);
        }
        if c.contains(x) {
            let l = choose|l: int| 0 <= l < j && indices[l] == index_rank(source, x);
            assert(0 <= l < j + 1 && indices[l] == index_rank(source, x));
        }
        if x == e {
            assert(0 <= j < j + 1 && indices[j] == index_rank(source, x));
        }
    }
    assert forall|l: int| 0 <= l < j + 1 implies ranked_in(source, c2, #[trigger] indices[l] as int) by {
        if l == j {
            assert(c2.contains(e) && index_rank(source, e) == indices[l]);
        } else {
            let x = choose|x: usize| c.contains(x) && index_rank(source, x) == indices[l];
            assert(c2.contains(x));
        }
    }
}

/// Some member of `c` has rank `r` in `source`.
pub open spec fn ranked_in(source: Set<usize>, c: Set<usize>, r: int) -> bool {
    exists|x: usize| c.contains(x) && index_rank(source, x) == r
}

/// `v` is a strictly increasing vector of `k` positions below `n`.
pub open spec fn is_position_vector(v: Seq<usize>, k: nat, n: nat) -> bool {
    &&& v.len() == k
    &&& strictly_increasing(v)
    &&& forall|j: int| 0 <= j < v.len() ==> v[j] < n
}

/// Every vector of positions below `n` up to `cur` in lexicographic order is among `positions`.
pub open spec fn covered(n: nat, cur: Seq<usize>, positions: Seq<Seq<usize>>) -> bool {
    forall|v: Seq<usize>|
        #[trigger] is_position_vector(v, cur.len(), n) && lex_rank(v) <= lex_rank(cur)
            ==> positions.contains(v)
}

/// `new` is `old` with position `i` raised by one and the positions after it packed; those
/// positions stood at their highest for `bound`, and if there were any, `bound` is `n`.
pub open spec fn is_step(old: Seq<usize>, new: Seq<usize>, i: int, bound: int, n: int) -> bool {
    &&& old.len() == new.len()
    &&& 0 <= i < old.len()
    &&& bound <= n <= 128
    &&& forall|j: int| 0 <= j < old.len() ==> old[j] < 128 && new[j] < 128
    &&& forall|j: int| 0 <= j < i ==> new[j] == old[j]
    &&& new[i] == old[i] + 1
    &&& forall|j: int| i < j < new.len() ==> new[j] == new[i] + (j - i)
    &&& forall|j: int| i < j < old.len() ==> old[j] == j + bound - old.len()
    &&& i < old.len() - 1 ==> bound == n
}

/// The `k`-element subsets of `source`.
pub open spec fn k_subsets(source: Set<usize>, k: nat) -> Set<Set<usize>> {
    Set::new(|c: Set<usize>| c.subset_of(source) && c.len() == k)
}

/// The positions of `s` strictly increase.
pub open spec fn strictly_increasing(s: Seq<usize>) -> bool {
    forall|a: int, b: int| 0 <= a < b < s.len() ==> s[a] < s[b]
}

/// Positions in base 128, the first one most significant.
pub open spec fn lex_rank(s: Seq<usize>) -> int
    decreases s.len(),
{
    if s.len() == 0 {
        0
    } else {
        lex_rank(s.drop_last()) * 128 + s.last()
    }
}

/// 128 to the power `n`.
pub open spec fn pow128(n: nat) -> int
    decreases n,
{
    if n == 0 {
        1
    } else {
        pow128((n - 1) as nat) * 128
    }
}

/// Powers of 128 are positive.
proof fn lemma_pow128_positive(n: nat)
    ensures
        pow128(n) >= 1,
    decreases n,
{
    if n > 0 {
        lemma_pow128_positive((n - 1) as nat);
    }
}

/// The rank of `n` positions below 128 lies in `0..128^n`.
proof fn lemma_lex_rank_bound(s: Seq<usize>)
    requires
        forall|j: int| 0 <= j < s.len() ==> s[j] < 128,
    ensures
        0 <= lex_rank(s) < pow128(s.len()),
    decreases s.len(),
{
    if s.len() > 0 {
        lemma_lex_rank_bound(s.drop_last());
    }
}

/// Positions below 128 are told apart by their rank.
proof fn lemma_lex_rank_injective(a: Seq<usize>, b: Seq<usize>)
    requires
        a.len() == b.len(),
        forall|j: int| 0 <= j < a.len() ==> a[j] < 128 && b[j] < 128,
        lex_rank(a) == lex_rank(b),
    ensures
        a == b,
    decreases a.len(),
{
    if a.len() > 0 {
        lemma_lex_rank_bound(a.drop_last());
        lemma_lex_rank_bound(b.drop_last());
        vstd::arithmetic::div_mod::lemma_fundamental_div_mod_converse(
            lex_rank(a),
            128,
            lex_rank(a.drop_last()),
            a.last() as int,
        );
        vstd::arithmetic::div_mod::lemma_fundamental_div_mod_converse(
            lex_rank(b),
            128,
            lex_rank(b.drop_last()),
            b.last() as int,
        );
        lemma_lex_rank_injective(a.drop_last(), b.drop_last());
        assert(a =~= a.drop_last().push(a.last()));
        assert(b =~= b.drop_last().push(b.last()));
    } else {
        assert(a =~= b);
    }
}

/// Position by position no larger means no larger rank.
proof fn lemma_lex_rank_mono(a: Seq<usize>, b: Seq<usize>)
    requires
        a.len() == b.len(),
        forall|j: int| 0 <= j < a.len() ==> a[j] <= b[j],
    ensures
        lex_rank(a) <= lex_rank(b),
    decreases a.len(),
{
    if a.len() > 0 {
        lemma_lex_rank_mono(a.drop_last(), b.drop_last());
    }
}

/// A smaller rank shows at the first position where the two differ.
proof fn lemma_lex_rank_first_difference(a: Seq<usize>, b: Seq<usize>) -> (d: int)
    requires
        a.len() == b.len(),
        forall|j: int| 0 <= j < a.len() ==> a[j] < 128 && b[j] < 128,
        lex_rank(a) < lex_rank(b),
    ensures
        0 <= d < a.len(),
        forall|j: int| 0 <= j < d ==> a[j] == b[j],
        a[d] < b[d],
    decreases a.len(),
{
    let (a1, b1) = (a.drop_last(), b.drop_last());
    lemma_lex_rank_bound(a1);
    lemma_lex_rank_bound(b1);
    if lex_rank(a1) < lex_rank(b1) {
        let d = lemma_lex_rank_first_difference(a1, b1);
        assert forall|j: int| 0 <= j < d implies a[j] == b[j] by {
            assert(a1[j] == b1[j]);
        }
        assert(a1[d] < b1[d]);
        d
    } else if lex_rank(a1) == lex_rank(b1) {
        lemma_lex_rank_injective(a1, b1);
        assert forall|j: int| 0 <= j < a.len() - 1 implies a[j] == b[j] by {
            assert(a1[j] == b1[j]);
        }
        a.len() - 1
    } else {
        assert(false);
        0
    }
}

/// Raising position `i` while keeping the ones before it raises the rank.
proof fn lemma_lex_rank_grows(a: Seq<usize>, b: Seq<usize>, i: int)
    requires
        a.len() == b.len(),
        0 <= i < a.len(),
        forall|j: int| 0 <= j < i ==> a[j] == b[j],
        a[i] < b[i],
        forall|j: int| 0 <= j < a.len() ==> a[j] < 128 && b[j] < 128,
    ensures
        lex_rank(a) < lex_rank(b),
    decreases a.len(),
{
    if i == a.len() - 1 {
        assert(a.drop_last() =~= b.drop_last());
    } else {
        lemma_lex_rank_grows(a.drop_last(), b.drop_last(), i);
    }
}

/// The member of `num` with exactly `n` smaller members, if there is one.
pub fn index(num: u128, n: usize) -> (r: Option<usize>)
    ensures
        r is Some <==> n < indices_of(num).len(),
        r matches Some(i) ==> indices_of(num).contains(i) && index_rank(indices_of(num), i) == n,
{
    let mut it = BitSetIter::<usize>(num);
    it.nth(n)
}

impl Combinations {
    /// The set whose subsets are enumerated.
    pub closed spec fn source(&self) -> Set<usize> {
        self.source@
    }

    /// The subsets handed out so far, in order.
    pub closed spec fn emitted(&self) -> Seq<Set<usize>> {
        self.emitted@
    }

    /// The record of handed-out subsets, as `history_ok` describes it.
    closed spec fn history_wf(&self) -> bool {
        history_ok(self.source@, self.indices@, self.emitted@, self.positions@, self.first)
    }

    /// The position vector of each subset handed out so far: the ranks of its members in the
    /// source, ascending.
    pub closed spec fn positions(&self) -> Seq<Seq<usize>> {
        self.positions@
    }

    /// No subset has been asked for yet.
    pub closed spec fn fresh(&self) -> bool {
        self.first
    }

    /// The size of the subsets.
    pub closed spec fn k(&self) -> nat {
        self.indices@.len()
    }

    /// Drops with every subset handed out.
    pub closed spec fn measure(&self) -> int {
        if self.first {
            pow128(self.indices@.len()) + 1
        } else {
            pow128(self.indices@.len()) - lex_rank(self.indices@)
        }
    }

    /// The buffer and the rest of the source split the source; the positions are `0..k` before
    /// the first subset and strictly increasing positions into the buffer after it.
    pub closed spec fn wf(&self) -> bool {
        &&& self.buffer@.union(self.iter@) == self.source@
        &&& self.buffer@.disjoint(self.iter@)
        &&& self.source@.finite()
        &&& forall|a: usize, b: usize|
            #![trigger self.buffer@.contains(a), self.iter@.contains(b)]
            self.buffer@.contains(a) && self.iter@.contains(b) ==> a < b
        &&& self.first ==> forall|j: int| 0 <= j < self.indices.len() ==> self.indices[j] == j
        &&& !self.first ==> forall|j: int|
            0 <= j < self.indices.len() ==> self.indices[j] < self.buffer@.len()
        &&& !self.first ==> forall|j: int, l: int|
            0 <= j < l < self.indices.len() ==> self.indices[j] < self.indices[l]
        &&& self.measure() >= 0
        &&& self.history_wf()
        &&& self.source@.len() <= 128
        &&& !self.first ==> covered(self.source@.len(), self.indices@, self.positions@)
    }

    /// Enumerates the `k`-element subsets of what `iter` has left.
    pub fn new(iter: BitSetIter<usize>, k: usize) -> (r: Self)
        ensures
            r.wf(),
            r.source() == iter@,
            r.k() == k,
            r.measure() >= 0,
            r.fresh(),
            r.emitted() == Seq::<Set<usize>>::empty(),
    {
        let mut indices: Vec<usize> = Vec::new();
        let mut j: usize = 0;
        while j < k
            invariant
                j <= k,
                indices.len() == j,
                forall|l: int| 0 <= l < j ==> indices[l] == l,
            decreases k - j,
        {
            indices.push(j);
            j += 1;
        }
        let buffer = IndexSet::new(0);
        proof {
            lemma_indices_finite(0);
            lemma_indices_finite(iter.0);
            lemma_indices_empty(0);
            assert(buffer@.union(iter@) =~= iter@);
        }
        proof {
            lemma_pow128_positive(k as nat);
        }
        Self {
            source: Ghost(iter@),
            iter,
            indices,
            buffer,
            first: true,
            emitted: Ghost(Seq::empty()),
            positions: Ghost(Seq::empty()),
        }
    }

    /// The members at the current positions.
    fn decode(&self) -> (c: IndexSet)
        requires
            self.buffer@.union(self.iter@) == self.source@,
            self.source@.finite(),
            forall|a: usize, b: usize|
                #![trigger self.buffer@.contains(a), self.iter@.contains(b)]
                self.buffer@.contains(a) && self.iter@.contains(b) ==> a < b,
            forall|j: int| 0 <= j < self.indices.len() ==> self.indices[j] < self.buffer@.len(),
            strictly_increasing(self.indices@),
        ensures
            entry_ok(self.source@, self.indices@.len(), c@, self.indices@),
    {
        let k = self.indices.len();
        let mut c = IndexSet::new(0);
        proof {
            lemma_indices_empty(0);
            lemma_indices_finite(0);
        }
        let mut j: usize = 0;
        while j < k
            invariant
                j <= k,
                k == self.indices.len(),
                self.buffer@.union(self.iter@) == self.source@,
                self.source@.finite(),
                forall|a: usize, b: usize|
                    #![trigger self.buffer@.contains(a), self.iter@.contains(b)]
                    self.buffer@.contains(a) && self.iter@.contains(b) ==> a < b,
                forall|j: int| 0 <= j < self.indices.len() ==> self.indices[j] < self.buffer@.len(),
                strictly_increasing(self.indices@),
                c@.finite(),
                c@.len() == j,
                forall|x: usize|
                    #![trigger c@.contains(x)]
                    c@.contains(x) <==> (self.source@.contains(x) && exists|l: int|
                        0 <= l < j && self.indices@[l] == index_rank(self.source@, x)),
                forall|l: int| 0 <= l < j ==> ranked_in(self.source@, c@, #[trigger] self.indices@[l] as int),
            decreases k - j,
        {
            let e = index(self.buffer.0, self.indices[j]).unwrap();
            let ghost c_before = c@;
            proof {
                lemma_rank_in_prefix(self.buffer@, self.iter@, self.source@, e);
                lemma_decode_step(self.source@, self.indices@, j as int, c@, e);
            }
            c.insert(e);
            proof {
                lemma_indices_finite(c.0);
            }
            j += 1;
        }
        proof {
            assert(c@ =~= subset_at(self.source@, self.indices@));
            assert forall|l: int| 0 <= l < k implies ranked_in(
                self.source@,
                self.source@,
                #[trigger] self.indices@[l] as int,
            ) by {
                assert(ranked_in(self.source@, c@, self.indices@[l] as int));
                let x = choose|x: usize|
                    c@.contains(x) && index_rank(self.source@, x) == self.indices@[l];
                assert(self.source@.contains(x));
            }
        }
        c
    }

    /// The next subset: `k` distinct members of the source. Once it gives `None`, every
    /// `k`-element subset of the source has been handed out.
    pub fn next(&mut self) -> (r: Option<IndexSet>)
        requires
            old(self).wf(),
        ensures
            final(self).wf(),
            final(self).source() == old(self).source(),
            final(self).k() == old(self).k(),
            final(self).measure() >= 0,
            old(self).fresh() ==> (r is Some <==> old(self).k() <= old(self).source().len()),
            r is None ==> final(self).emitted() == old(self).emitted(),
            r matches Some(c) ==> final(self).emitted() == old(self).emitted().push(c@),
            r is None ==> forall|c: Set<usize>|
                c.subset_of(old(self).source()) && c.len() == old(self).k()
                    ==> #[trigger] final(self).emitted().contains(c),
            r is None ==> forall|v: Seq<usize>| #[trigger]
                is_position_vector(v, old(self).k(), old(self).source().len())
                    ==> final(self).positions().contains(v),
            r is None ==> final(self).emitted().to_set() == k_subsets(
                old(self).source(),
                old(self).k(),
            ),
            r is None ==> final(self).emitted().len() == k_subsets(
                old(self).source(),
                old(self).k(),
            ).len(),
            r is None ==> final(self).emitted().len() == binomial(
                old(self).source().len(),
                old(self).k(),
            ),
            r matches Some(c) ==> c@.subset_of(old(self).source()) && c@.len() == old(self).k()
                && final(self).measure() < old(self).measure(),
    {
        let r = self.advance();
        proof {
            if r is None {
                self.law_subsets_are_distinct();
                let all = k_subsets(self.source@, self.indices@.len());
                assert forall|c: Set<usize>| #[trigger] self.emitted().to_set().contains(c) == all.contains(c) by {
                    if all.contains(c) {
                        vstd::set_lib::lemma_set_subset_finite(self.source@, c);
                        self.lemma_every_subset_emitted(c);
                    }
                    if self.emitted().to_set().contains(c) {
                        let t = choose|t: int| 0 <= t < self.emitted().len() && self.emitted()[t] == c;
                        assert(self.emitted()[t].subset_of(self.source()));
                    }
                }
                assert(self.emitted().to_set() =~= all);
                assert(self.emitted().no_duplicates());
                self.emitted().unique_seq_to_set();
                lemma_k_subsets_count(self.source@, self.indices@.len());
                assert forall|c: Set<usize>|
                    c.subset_of(self.source()) && c.len() == self.k() implies #[trigger] self.emitted().contains(
                    c,
                ) by {
                    vstd::set_lib::lemma_set_subset_finite(self.source@, c);
                    self.lemma_every_subset_emitted(c);
                }
            }
        }
        r
    }

    /// One step of the enumeration.
    fn advance(&mut self) -> (r: Option<IndexSet>)
        requires
            old(self).wf(),
        ensures
            final(self).wf(),
            final(self).source() == old(self).source(),
            final(self).k() == old(self).k(),
            final(self).measure() >= 0,
            old(self).fresh() ==> (r is Some <==> old(self).k() <= old(self).source().len()),
            r is None ==> final(self).emitted() == old(self).emitted(),
            r matches Some(c) ==> final(self).emitted() == old(self).emitted().push(c@),
            r is None ==> forall|v: Seq<usize>| #[trigger]
                is_position_vector(v, old(self).k(), old(self).source().len())
                    ==> final(self).positions().contains(v),
            r matches Some(c) ==> c@.subset_of(old(self).source()) && c@.len() == old(self).k()
                && final(self).measure() < old(self).measure(),
    {
        let k = self.indices.len();
        proof {
            lemma_indices_finite(self.buffer.0);
        }
        let ghost was_first = self.first;
        let ghost old_ind = self.indices@;
        let ghost old_pos = self.positions@;
        let ghost mut pivot: int = 0;
        let ghost mut bound: int = 0;
        if self.first {
            let buffer_len = self.buffer.len();
            if k > buffer_len {
                let delta = k - buffer_len;
                let mut pulled: usize = 0;
                while pulled < delta
                    invariant
                        self.buffer@.union(self.iter@) == self.source@,
                        self.buffer@.disjoint(self.iter@),
                        self.indices.len() == k,
                        self.first,
                        self.source@ == old(self).source@,
                        k == old(self).indices@.len(),
                        self.source@.finite(),
                        pulled <= delta,
                        self.buffer@.len() == buffer_len + pulled || self.iter@.len() == 0,
                        self.emitted@ == old(self).emitted@,
                        self.positions@ == old(self).positions@,
                        self.emitted@.len() == 0,
                        forall|a: usize, b: usize|
                            #![trigger self.buffer@.contains(a), self.iter@.contains(b)]
                            self.buffer@.contains(a) && self.iter@.contains(b) ==> a < b,
                        forall|j: int| 0 <= j < self.indices.len() ==> self.indices[j] == j,
                    decreases delta - pulled,
                {
                    proof {
                        lemma_indices_finite(self.buffer.0);
                        lemma_indices_finite(self.iter.0);
                    }
                    if let Some(x) = self.iter.next() {
                        self.buffer.insert(x);
                        proof {
                            assert(self.buffer@.union(self.iter@) =~= self.source@);
                        }
                    }
                    pulled += 1;
                }
            }
            proof {
                lemma_indices_finite(self.buffer.0);
                lemma_indices_finite(self.iter.0);
                vstd::set_lib::lemma_len_subset(self.buffer@, self.source@);
                if self.iter@.len() == 0 {
                    self.iter@.lemma_len0_is_empty();
                    assert(self.buffer@ =~= self.source@);
                }
            }
            if k > self.buffer.len() {
                proof {
                    assert forall|v: Seq<usize>| #[trigger]
                        is_position_vector(v, k as nat, self.source@.len()) implies self.positions@.contains(
                        v,
                    ) by {
                        lemma_strictly_increasing_gaps(v, 0, k - 1);
                    }
                }
                return None;
            }
            self.first = false;
            proof {
                lemma_indices_finite(self.buffer.0);
                lemma_lex_rank_bound(self.indices@);
            }
        } else if k == 0 {
            return None;
        } else {
            let ghost before = self.indices@;
            let mut i: usize = k - 1;
            let blen = self.buffer.len();
            let ghost blen0 = blen as int;
            if self.indices[i] == blen - 1 {
                let ghost (old_buffer, old_iter) = (self.buffer@, self.iter@);
                proof {
                    lemma_indices_finite(self.iter.0);
                    lemma_indices_empty(self.iter.0);
                }
                if let Some(x) = self.iter.next() {
                    self.buffer.insert(x);
                    proof {
                        assert(self.buffer@.union(self.iter@) =~= self.source@);
                        lemma_indices_finite(self.buffer.0);
                        assert forall|a: usize, b: usize|
                            self.buffer@.contains(a) && self.iter@.contains(b) implies a < b by {
                            assert(old_iter.contains(b));
                            if a != x {
                                assert(old_buffer.contains(a));
                            }
                        }
                    }
                }
            }
            let blen = self.buffer.len();
            proof {
                lemma_indices_finite(self.buffer.0);
                lemma_indices_finite(self.iter.0);
                lemma_strictly_increasing_gaps(self.indices@, 0, k - 1);
                if before[k - 1] == blen - 1 {
                    assert(before[k - 1] == blen0 - 1);
                    assert(self.iter@.len() == 0);
                    self.iter@.lemma_len0_is_empty();
                    assert(self.buffer@ =~= self.source@);
                }
                assert forall|j: int| 0 <= j < k implies self.indices[j] <= j + blen - k by {
                    assert forall|l: int| j <= l < k implies self.indices[j] + (l - j)
                        <= self.indices[l] by {
                        lemma_strictly_increasing_gaps(self.indices@, j, l);
                    }
                }
            }
            while self.indices[i] == i + blen - k
                invariant
                    i < k,
                    k == self.indices.len(),
                    self.wf(),
                    !self.first,
                    !old(self).first,
                    self.source@ == old(self).source@,
                    self.indices@ == before,
                    before == old(self).indices@,
                    self.emitted@ == old(self).emitted@,
                    self.positions@ == old(self).positions@,
                    k == old(self).indices@.len(),
                    blen == self.buffer@.len(),
                    k <= blen <= 128,
                    forall|j: int| 0 <= j < k ==> self.indices[j] <= j + blen - k,
                    forall|j: int| i < j < k ==> before[j] == j + blen - k,
                    before[k - 1] == blen - 1 ==> self.source@.len() == blen,
                decreases i,
            {
                if i > 0 {
                    i -= 1;
                } else {
                    proof {
                        assert forall|v: Seq<usize>| #[trigger]
                            is_position_vector(v, k as nat, self.source@.len()) implies self.positions@.contains(
                            v,
                        ) by {
                            lemma_last_vector_is_greatest(before, blen as int, v);
                        }
                    }
                    return None;
                }
            }
            self.indices.set(i, self.indices[i] + 1);
            let mut j: usize = i + 1;
            while j < k
                invariant
                    i < j <= k,
                    k == self.indices.len(),
                    self.buffer@.union(self.iter@) == self.source@,
                    self.buffer@.disjoint(self.iter@),
                    self.source@.finite(),
                    forall|a: usize, b: usize|
                        #![trigger self.buffer@.contains(a), self.iter@.contains(b)]
                        self.buffer@.contains(a) && self.iter@.contains(b) ==> a < b,
                    !self.first,
                    self.source@ == old(self).source@,
                    blen == self.buffer@.len(),
                    k <= blen <= 128,
                    forall|l: int| 0 <= l < i ==> self.indices[l] == before[l],
                    self.indices[i as int] == before[i as int] + 1,
                    self.indices[i as int] <= i + blen - k,
                    forall|l: int| i < l < j ==> self.indices[l] == self.indices[i as int] + (l - i),
                    forall|l: int| j <= l < k ==> self.indices[l] == before[l],
                    forall|l: int| 0 <= l < k ==> before[l] < blen,
                    before == old(self).indices@,
                    old(self).history_wf(),
                    self.emitted@ == old(self).emitted@,
                    self.positions@ == old(self).positions@,
                    self.first == old(self).first,
                    before.len() == k,
                    k == old(self).indices@.len(),
                    forall|a: int, b: int| 0 <= a < b < k ==> before[a] < before[b],
                decreases k - j,
            {
                let v = self.indices[j - 1] + 1;
                self.indices.set(j, v);
                j += 1;
            }
            proof {
                assert forall|l: int| 0 <= l < k implies before[l] < 128 && self.indices@[l]
                    < blen by {
                    assert(before[l] < 128);
                    if l > i {
                        assert(self.indices@[l] == self.indices@[i as int] + (l - i));
                        assert(self.indices@[l] < blen);
                    } else if l == i {
                        assert(self.indices@[l] < blen);
                    } else {
                        assert(self.indices@[l] < blen);
                    }
                }
                assert forall|a: int, b: int| 0 <= a < b < k implies self.indices@[a]
                    < self.indices@[b] by {
                    if b < i {
                        assert(before[a] < before[b]);
                    } else if b == i {
                        assert(before[a] < before[b]);
                    } else if a > i {
                        assert(self.indices@[a] == self.indices@[i as int] + (a - i));
                        assert(self.indices@[b] == self.indices@[i as int] + (b - i));
                    } else if a == i {
                        assert(self.indices@[b] == self.indices@[i as int] + (b - i));
                    } else {
                        assert(before[a] < before[i as int]);
                        assert(self.indices@[b] == self.indices@[i as int] + (b - i));
                    }
                }
                lemma_lex_rank_grows(before, self.indices@, i as int);
                lemma_lex_rank_bound(self.indices@);
                assert(self.history_wf());
                pivot = i as int;
                bound = blen as int;
                vstd::set_lib::lemma_len_subset(self.buffer@, self.source@);
                assert(is_step(old_ind, self.indices@, pivot, bound, self.source@.len() as int));
            }
        }
        let c = self.decode();
        proof {
            lemma_history_push(
                self.source@,
                self.indices@,
                self.emitted@,
                self.positions@,
                c@,
            );
            self.emitted@ = self.emitted@.push(c@);
            self.positions@ = self.positions@.push(self.indices@);
            let n = self.source@.len();
            let last = self.positions@.len() - 1;
            assert(self.positions@[last] == self.indices@);
            assert forall|v: Seq<usize>| #[trigger]
                is_position_vector(v, k as nat, n) && lex_rank(v) <= lex_rank(
                    self.indices@,
                ) implies self.positions@.contains(v) by {
                if was_first {
                    lemma_first_vector_is_least(self.indices@, v);
                    lemma_lex_rank_injective(v, self.indices@);
                } else if lex_rank(v) <= lex_rank(old_ind) {
                    assert(old_pos.contains(v));
                    let t = choose|t: int| 0 <= t < old_pos.len() && old_pos[t] == v;
                    assert(self.positions@[t] == v);
                } else {
                    lemma_step_skips_nothing(old_ind, self.indices@, pivot, bound, n as int, v);
                    lemma_lex_rank_injective(v, self.indices@);
                }
            }
        }
        Some(c)
    }
}

/// When every member of `buffer` lies below every member of `rest`, a member of `buffer` has the
/// same rank in `buffer` as in `buffer` and `rest` together.
proof fn lemma_rank_in_prefix(buffer: Set<usize>, rest: Set<usize>, source: Set<usize>, e: usize)
    requires
        buffer.union(rest) == source,
        forall|a: usize, b: usize|
            #![trigger buffer.contains(a), rest.contains(b)]
            buffer.contains(a) && rest.contains(b) ==> a < b,
        buffer.contains(e),
    ensures
        index_rank(buffer, e) == index_rank(source, e),
{
    let below_in_buffer = buffer.filter(|x: usize| x < e);
    let below_in_source = source.filter(|x: usize| x < e);
    assert forall|x: usize| #[trigger] below_in_source.contains(x) implies below_in_buffer.contains(
        x,
    ) by {
        if rest.contains(x) {
            assert(buffer.contains(e) && rest.contains(x));
        }
    }
    assert(below_in_buffer =~= below_in_source);
}

/// Distinct members of a finite set have distinct ranks.
proof fn lemma_rank_injective(s: Set<usize>, a: usize, b: usize)
    requires
        s.finite(),
        s.contains(a),
        s.contains(b),
        a != b,
    ensures
        index_rank(s, a) != index_rank(s, b),
        a < b ==> index_rank(s, a) < index_rank(s, b),
{
    let (lo, hi) = if a < b {
        (a, b)
    } else {
        (b, a)
    };
    let below_lo = s.filter(|x: usize| x < lo);
    let below_hi = s.filter(|x: usize| x < hi);
    assert(below_lo.subset_of(below_hi.remove(lo)));
    s.lemma_len_filter(|x: usize| x < hi);
    vstd::set_lib::lemma_len_subset(below_lo, below_hi.remove(lo));
    assert(below_hi.contains(lo));
}

/// In a strictly increasing sequence, members `l - j` apart differ by at least `l - j`.
proof fn lemma_strictly_increasing_gaps(s: Seq<usize>, j: int, l: int)
    requires
        0 <= j <= l < s.len(),
        forall|a: int, b: int| 0 <= a < b < s.len() ==> s[a] < s[b],
    ensures
        s[j] + (l - j) <= s[l],
    decreases l - j,
{
    if j < l {
        lemma_strictly_increasing_gaps(s, j, l - 1);
    }
}

/// Two strictly increasing sequences with the same members are equal.
proof fn lemma_same_members_sorted(a: Seq<usize>, b: Seq<usize>)
    requires
        strictly_increasing(a),
        strictly_increasing(b),
        forall|x: usize| a.contains(x) <==> b.contains(x),
    ensures
        a == b,
    decreases a.len(),
{
    if a.len() == 0 {
        if b.len() > 0 {
            assert(b.contains(b[0]));
        }
        assert(a =~= b);
    } else {
        assert(a.contains(a[0]));
        let (m, n) = (a.last(), b.last());
        assert(a.contains(m) && b.contains(n));
        let i = choose|i: int| 0 <= i < b.len() && b[i] == m;
        let l = choose|l: int| 0 <= l < a.len() && a[l] == n;
        if i < b.len() - 1 {
            assert(b[i] < b[b.len() - 1]);
        }
        if l < a.len() - 1 {
            assert(a[l] < a[a.len() - 1]);
        }
        assert(m == n);
        let (a1, b1) = (a.drop_last(), b.drop_last());
        assert forall|x: usize| a1.contains(x) <==> b1.contains(x) by {
            if a1.contains(x) {
                let p = choose|p: int| 0 <= p < a1.len() && a1[p] == x;
                assert(a[p] < a[a.len() - 1]);
                assert(b.contains(x));
                let q = choose|q: int| 0 <= q < b.len() && b[q] == x;
                if q == b.len() - 1 {
                    assert(false);
                }
                assert(b1[q] == x);
            }
            if b1.contains(x) {
                let q = choose|q: int| 0 <= q < b1.len() && b1[q] == x;
                assert(b[q] < b[b.len() - 1]);
                assert(a.contains(x));
                let p = choose|p: int| 0 <= p < a.len() && a[p] == x;
                if p == a.len() - 1 {
                    assert(false);
                }
                assert(a1[p] == x);
            }
        }
        lemma_same_members_sorted(a1, b1);
        assert(a =~= a1.push(m));
        assert(b =~= b1.push(n));
    }
}

impl Combinations {
    /// The subsets come out in the canonical order: each is the subset at a strictly increasing
    /// vector of `k` ranks in the source, and the vectors strictly increase lexicographically
    /// from one subset to the next.
    pub proof fn law_subsets_in_order(&self)
        requires
            self.wf(),
        ensures
            self.positions().len() == self.emitted().len(),
            forall|t: int|
                0 <= t < self.emitted().len() ==> #[trigger] self.emitted()[t] == subset_at(
                    self.source(),
                    self.positions()[t],
                ) && strictly_increasing(self.positions()[t]) && self.positions()[t].len()
                    == self.k(),
            forall|t1: int, t2: int|
                0 <= t1 < t2 < self.emitted().len() ==> lex_rank(#[trigger] self.positions()[t1])
                    < lex_rank(#[trigger] self.positions()[t2]),
    {
        assert forall|t: int| 0 <= t < self.emitted().len() implies #[trigger] self.emitted()[t]
            == subset_at(self.source(), self.positions()[t]) && strictly_increasing(
            self.positions()[t],
        ) && self.positions()[t].len() == self.k() by {
            assert(entry_ok(self.source@, self.indices@.len(), self.emitted@[t], self.positions@[t]));
        }
    }

    /// Every subset handed out so far has `k` members, all from the source, and no two of them
    /// are equal.
    pub proof fn law_subsets_are_distinct(&self)
        requires
            self.wf(),
        ensures
            forall|t: int|
                0 <= t < self.emitted().len() ==> (#[trigger] self.emitted()[t]).subset_of(
                    self.source(),
                ) && self.emitted()[t].len() == self.k(),
            forall|t1: int, t2: int|
                0 <= t1 < t2 < self.emitted().len() ==> #[trigger] self.emitted()[t1]
                    != #[trigger] self.emitted()[t2],
    {
        let source = self.source@;
        let k = self.indices@.len();
        assert forall|t: int| 0 <= t < self.emitted().len() implies (
        #[trigger] self.emitted()[t]).subset_of(self.source()) && self.emitted()[t].len()
            == self.k() by {
            assert(entry_ok(source, k, self.emitted@[t], self.positions@[t]));
        }
        assert forall|t1: int, t2: int| 0 <= t1 < t2 < self.emitted().len() implies #[trigger]
            self.emitted()[t1] != #[trigger] self.emitted()[t2] by {
            let (p1, p2) = (self.positions@[t1], self.positions@[t2]);
            assert(entry_ok(source, k, self.emitted@[t1], p1));
            assert(entry_ok(source, k, self.emitted@[t2], p2));
            if self.emitted@[t1] == self.emitted@[t2] {
                assert forall|x: usize| p1.contains(x) <==> p2.contains(x) by {
                    if p1.contains(x) {
                        let j = choose|j: int| 0 <= j < p1.len() && p1[j] == x;
                        assert(ranked_in(source, source, p1[j] as int));
                        let e = choose|e: usize| source.contains(e) && index_rank(source, e) == p1[j];
                        assert(has_rank(p1, index_rank(source, e)));
                        assert(subset_at(source, p1).contains(e));
                        assert(subset_at(source, p2).contains(e));
                        let j2 = choose|j2: int| 0 <= j2 < p2.len() && p2[j2] == index_rank(source, e);
                        assert(p2[j2] == x);
                    }
                    if p2.contains(x) {
                        let j = choose|j: int| 0 <= j < p2.len() && p2[j] == x;
                        assert(ranked_in(source, source, p2[j] as int));
                        let e = choose|e: usize| source.contains(e) && index_rank(source, e) == p2[j];
                        assert(has_rank(p2, index_rank(source, e)));
                        assert(subset_at(source, p2).contains(e));
                        assert(subset_at(source, p1).contains(e));
                        let j1 = choose|j1: int| 0 <= j1 < p1.len() && p1[j1] == index_rank(source, e);
                        assert(p1[j1] == x);
                    }
                }
                lemma_same_members_sorted(p1, p2);
                assert(lex_rank(p1) < lex_rank(p2));
            }
        }
    }
}

/// The step of `next` skips no vector: from `old`, raising position `i` by one and packing the
/// positions after it gives the least strictly increasing vector beyond `old`, among those whose
/// positions lie below `n`. The positions after `i` already stood at their highest for `bound`,
/// and when there are such positions every member of the source has been pulled.
proof fn lemma_step_skips_nothing(
    old: Seq<usize>,
    new: Seq<usize>,
    i: int,
    bound: int,
    n: int,
    v: Seq<usize>,
)
    requires
        is_step(old, new, i, bound, n),
        v.len() == old.len(),
        strictly_increasing(v),
        forall|j: int| 0 <= j < v.len() ==> v[j] < n,
        lex_rank(old) < lex_rank(v),
    ensures
        lex_rank(new) <= lex_rank(v),
{
    let k = old.len() as int;
    let d = lemma_lex_rank_first_difference(old, v);
    if d < i {
        lemma_lex_rank_grows(new, v, d);
    } else if d == i {
        if v[i] > new[i] {
            lemma_lex_rank_grows(new, v, i);
        } else {
            assert forall|j: int| 0 <= j < k implies new[j] <= v[j] by {
                if j > i {
                    lemma_strictly_increasing_gaps(v, i, j);
                }
            }
            lemma_lex_rank_mono(new, v);
        }
    } else {
        lemma_strictly_increasing_gaps(v, d, k - 1);
        assert(false);
    }
}

/// Every strictly increasing vector of `k` positions below `n` is at most the last one.
proof fn lemma_last_vector_is_greatest(last: Seq<usize>, n: int, v: Seq<usize>)
    requires
        v.len() == last.len(),
        forall|j: int| 0 <= j < last.len() ==> last[j] == j + n - last.len(),
        strictly_increasing(v),
        forall|j: int| 0 <= j < v.len() ==> v[j] < n,
    ensures
        lex_rank(v) <= lex_rank(last),
{
    assert forall|j: int| 0 <= j < v.len() implies v[j] <= last[j] by {
        lemma_strictly_increasing_gaps(v, j, v.len() - 1);
    }
    lemma_lex_rank_mono(v, last);
}

/// Every strictly increasing vector of `k` positions is at least `0, 1, .., k - 1`.
proof fn lemma_first_vector_is_least(first: Seq<usize>, v: Seq<usize>)
    requires
        v.len() == first.len(),
        forall|j: int| 0 <= j < first.len() ==> first[j] == j,
        strictly_increasing(v),
    ensures
        lex_rank(first) <= lex_rank(v),
{
    assert forall|j: int| 0 <= j < v.len() implies first[j] <= v[j] by {
        lemma_strictly_increasing_gaps(v, 0, j);
    }
    lemma_lex_rank_mono(first, v);
}

/// A finite nonempty set of indices has a greatest member.
proof fn lemma_greatest_member(s: Set<usize>) -> (m: usize)
    requires
        s.finite(),
        s.len() > 0,
    ensures
        s.contains(m),
        forall|x: usize| #[trigger] s.contains(x) ==> x <= m,
    decreases s.len(),
{
    let x = s.choose();
    if s.len() == 1 {
        assert forall|y: usize| #[trigger] s.contains(y) implies y <= x by {
            if y != x {
                assert(s.remove(x).contains(y));
                s.remove(x).lemma_len0_is_empty();
            }
        }
        x
    } else {
        let m = lemma_greatest_member(s.remove(x));
        if x > m {
            x
        } else {
            m
        }
    }
}

/// A member's rank is below the size of the set.
proof fn lemma_rank_below_len(s: Set<usize>, e: usize)
    requires
        s.finite(),
        s.contains(e),
    ensures
        index_rank(s, e) < s.len(),
{
    let below = s.filter(|x: usize| x < e);
    assert(below.subset_of(s.remove(e)));
    vstd::set_lib::lemma_len_subset(below, s.remove(e));
}

/// Every set of `k` members of `source` is the subset at the vector of their ranks, ascending.
proof fn lemma_ranks_of_subset(source: Set<usize>, c: Set<usize>) -> (v: Seq<usize>)
    requires
        source.finite(),
        source.len() <= 128,
        c.finite(),
        c.subset_of(source),
    ensures
        is_position_vector(v, c.len(), source.len()),
        subset_at(source, v) == c,
        forall|j: int| 0 <= j < v.len() ==> ranked_in(source, c, #[trigger] v[j] as int),
    decreases c.len(),
{
    if c.len() == 0 {
        let v = Seq::<usize>::empty();
        c.lemma_len0_is_empty();
        assert(subset_at(source, v) =~= c);
        v
    } else {
        let m = lemma_greatest_member(c);
        let rest = c.remove(m);
        let w = lemma_ranks_of_subset(source, rest);
        lemma_rank_below_len(source, m);
        let rm = index_rank(source, m);
        let v = w.push(rm as usize);
        assert forall|j: int| 0 <= j < w.len() implies w[j] < rm by {
            assert(ranked_in(source, rest, w[j] as int));
            let e = choose|e: usize| rest.contains(e) && index_rank(source, e) == w[j];
            lemma_rank_injective(source, e, m);
        }
        assert forall|j: int| 0 <= j < v.len() implies ranked_in(source, c, #[trigger] v[j] as int) by {
            if j < w.len() {
                assert(ranked_in(source, rest, w[j] as int));
                let e = choose|e: usize| rest.contains(e) && index_rank(source, e) == w[j];
                assert(c.contains(e));
            } else {
                assert(c.contains(m) && index_rank(source, m) == v[j]);
            }
        }
        assert(strictly_increasing(v));
        assert forall|x: usize| #[trigger] subset_at(source, v).contains(x) == c.contains(x) by {
            if c.contains(x) && x != m {
                assert(subset_at(source, w).contains(x));
                let j = choose|j: int| 0 <= j < w.len() && w[j] == index_rank(source, x);
                assert(v[j] == index_rank(source, x));
            }
            if x == m {
                assert(v[w.len() as int] == index_rank(source, x));
            }
            if subset_at(source, v).contains(x) {
                let j = choose|j: int| 0 <= j < v.len() && v[j] == index_rank(source, x);
                if j < w.len() {
                    assert(has_rank(w, index_rank(source, x)));
                } else if x != m {
                    lemma_rank_injective(source, x, m);
                }
            }
        }
        assert(subset_at(source, v) =~= c);
        v
    }
}

impl Combinations {
    /// When every vector of `k` ranks has come out, every `k`-element subset of the source has.
    proof fn lemma_every_subset_emitted(&self, c: Set<usize>)
        requires
            self.wf(),
            forall|v: Seq<usize>| #[trigger]
                is_position_vector(v, self.k(), self.source().len()) ==> self.positions().contains(
                    v,
                ),
            c.subset_of(self.source()),
            c.finite(),
            c.len() == self.k(),
        ensures
            self.emitted().contains(c),
    {
        let v = lemma_ranks_of_subset(self.source@, c);
        assert(self.positions@.contains(v));
        let t = choose|t: int| 0 <= t < self.positions@.len() && self.positions@[t] == v;
        assert(entry_ok(self.source@, self.indices@.len(), self.emitted@[t], self.positions@[t]));
        assert(self.emitted@[t] == c);
    }
}

/// The binomial coefficient, by Pascal's rule.
pub open spec fn binomial(n: nat, k: nat) -> nat
    decreases n,
{
    if k == 0 {
        1
    } else if n == 0 {
        0
    } else {
        binomial((n - 1) as nat, (k - 1) as nat) + binomial((n - 1) as nat, k)
    }
}

/// A finite set of `n` members has `binomial(n, k)` subsets of `k` members.
pub proof fn lemma_k_subsets_count(s: Set<usize>, k: nat)
    requires
        s.finite(),
    ensures
        k_subsets(s, k).finite(),
        k_subsets(s, k).len() == binomial(s.len(), k),
    decreases s.len(),
{
    if k == 0 {
        assert forall|c: Set<usize>| #[trigger] k_subsets(s, k).contains(c) == (c
            == Set::<usize>::empty()) by {
            if k_subsets(s, k).contains(c) {
                vstd::set_lib::lemma_set_subset_finite(s, c);
                c.lemma_len0_is_empty();
            }
        }
        assert(k_subsets(s, k) =~= set![Set::<usize>::empty()]);
    } else if s.len() == 0 {
        s.lemma_len0_is_empty();
        assert forall|c: Set<usize>| !(#[trigger] k_subsets(s, k).contains(c)) by {
            if k_subsets(s, k).contains(c) {
                assert(c =~= Set::<usize>::empty());
            }
        }
        assert(k_subsets(s, k) =~= Set::<Set<usize>>::empty());
    } else {
        let x = s.choose();
        vstd::set::axiom_set_choose_len(s);
        let rest = s.remove(x);
        lemma_k_subsets_count(rest, k);
        lemma_k_subsets_count(rest, (k - 1) as nat);
        let a = k_subsets(rest, k);
        let b = k_subsets(rest, (k - 1) as nat);
        let f = |c: Set<usize>| c.insert(x);
        assert forall|c1: Set<usize>, c2: Set<usize>|
            b.contains(c1) && b.contains(c2) && #[trigger] f(c1) == #[trigger] f(c2) implies c1
            == c2 by {
            assert(c1 =~= f(c1).remove(x));
            assert(c2 =~= f(c2).remove(x));
        }
        vstd::set_lib::lemma_map_size(b, b.map(f), f);
        assert forall|c: Set<usize>| #[trigger] k_subsets(s, k).contains(c) == (a.contains(c)
            || b.map(f).contains(c)) by {
            if k_subsets(s, k).contains(c) {
                vstd::set_lib::lemma_set_subset_finite(s, c);
                if c.contains(x) {
                    let c1 = c.remove(x);
                    assert(b.contains(c1));
                    assert(f(c1) =~= c);
                } else {
                    assert(c.subset_of(rest));
                }
            }
            if b.map(f).contains(c) {
                let c1 = choose|c1: Set<usize>| b.contains(c1) && f(c1) == c;
                vstd::set_lib::lemma_set_subset_finite(rest, c1);
                assert(!c1.contains(x));
            }
        }
        assert(k_subsets(s, k) =~= a.union(b.map(f)));
        assert(a.disjoint(b.map(f))) by {
            assert forall|c: Set<usize>| a.contains(c) implies !b.map(f).contains(c) by {
                if b.map(f).contains(c) {
                    let c1 = choose|c1: Set<usize>| b.contains(c1) && f(c1) == c;
                    assert(c.contains(x));
                }
            }
        }
        vstd::set_lib::lemma_set_disjoint_lens(a, b.map(f));
    }
}

} // verus!
