//! The colours of the numbers on revealed tiles: a table of upper bounds,
//! each with its colour, kept in order of bound and searched for the first
//! bound that a number does not exceed. The colours are carried, never read.
use vstd::prelude::*;

verus! {

/// The entries are in order of bound.
pub open spec fn sorted_by_bound<C>(s: Seq<(i16, C)>) -> bool {
    forall|a: int, b: int| 0 <= a <= b < s.len() ==> s[a].0 <= s[b].0
}

/// The entries of `s` whose bound is `k`, in their order in `s`.
pub open spec fn with_bound<C>(s: Seq<(i16, C)>, k: i16) -> Seq<(i16, C)> {
    s.filter(|e: (i16, C)| e.0 == k)
}

/// `after` holds the entries of `before` in order of bound, entries with
/// equal bounds in the order they had in `before`.
pub open spec fn stably_sorted<C>(before: Seq<(i16, C)>, after: Seq<(i16, C)>) -> bool {
    &&& sorted_by_bound(after)
    &&& forall|k: i16| #[trigger] with_bound(after, k) == with_bound(before, k)
}

/// Sorts the entries by bound with std's `sort_by_key`, which the standard
/// library documents as a stable sort: the result is in order of key and
/// entries with equal keys keep their order. Taken on trust from that
/// documentation.
#[verifier::external_body]
fn sort_by_bound<C>(entries: &mut Vec<(i16, C)>)
    ensures
        stably_sorted(old(entries)@, final(entries)@),
{
    entries.sort_by_key(|e| e.0);
}

/// A table from the number on a tile to its colour.
#[derive(Clone)]
pub struct MinecountColorMap<C> {
    boundaries: Vec<(i16, C)>,
}

impl<C> View for MinecountColorMap<C> {
    type V = Seq<(i16, C)>;

    closed spec fn view(&self) -> Seq<(i16, C)> {
        self.boundaries@
    }
}

/// A table that can be searched: in order of bound, and ending with the
/// greatest bound there is, so that every number finds an entry.
pub open spec fn table_ok<C>(s: Seq<(i16, C)>) -> bool {
    &&& s.len() >= 1
    &&& sorted_by_bound(s)
    &&& s.last().0 == i16::MAX
}

/// A sequence with an entry whose bound is `k` has such an entry in every
/// filter by that bound.
proof fn lemma_bound_present<C>(s: Seq<(i16, C)>, k: i16)
    requires
        with_bound(s, k).len() >= 1,
    ensures
        exists|j: int| 0 <= j < s.len() && s[j].0 == k,
    decreases s.len(),
{
    reveal(Seq::filter);
    if s.len() == 0 {
    } else if s.last().0 == k {
        assert(s[s.len() - 1].0 == k);
    } else {
        assert(with_bound(s, k) == with_bound(s.drop_last(), k));
        lemma_bound_present(s.drop_last(), k);
        let j = choose|j: int| 0 <= j < s.drop_last().len() && s.drop_last()[j].0 == k;
        assert(s[j].0 == k);
    }
}

impl<C: Copy> MinecountColorMap<C> {
    /// A table of `rules`, each an upper bound with its colour, and
    /// `fallback` for every number above them all, kept in order of bound.
    pub fn new(rules: Vec<(i16, C)>, fallback: C) -> (m: Self)
        ensures
            stably_sorted(rules@.push((i16::MAX, fallback)), m@),
            table_ok(m@),
    {
        let mut rules = rules;
        rules.push((i16::MAX, fallback));
        let ghost before = rules@;
        sort_by_bound(&mut rules);
        proof {
            reveal(Seq::filter);
            assert(with_bound(before, i16::MAX) == with_bound(before.drop_last(), i16::MAX).push(
                before.last(),
            ));
            assert(with_bound(rules@, i16::MAX) == with_bound(before, i16::MAX));
            lemma_bound_present(rules@, i16::MAX);
            let j = choose|j: int| 0 <= j < rules@.len() && rules@[j].0 == i16::MAX;
            assert(rules@[j].0 <= rules@[rules@.len() - 1].0);
        }
        MinecountColorMap { boundaries: rules }
    }

    /// The colour of the first entry whose bound `minecount` does not exceed.
    pub fn get(&self, minecount: i16) -> (r: C)
        requires
            table_ok(self@),
        ensures
            exists|j: int|
                0 <= j < self@.len() && r == self@[j].1 && minecount <= self@[j].0 && forall|i: int|
                    0 <= i < j ==> self@[i].0 < minecount,
    {
        let mut k: usize = 0;
        while self.boundaries[k].0 < minecount
            invariant
                table_ok(self@),
                self@ == self.boundaries@,
                0 <= k < self.boundaries.len(),
                forall|i: int| 0 <= i < k ==> self@[i].0 < minecount,
            decreases self.boundaries.len() - k,
        {
            k += 1;
        }
        self.boundaries[k].1
    }

    /// Every entry but the first.
    pub fn rules(&self) -> (r: &[(i16, C)])
        requires
            table_ok(self@),
        ensures
            r@ == self@.subrange(1, self@.len() as int),
    {
        &self.boundaries.as_slice()[1..self.boundaries.len()]
    }

    /// The colour of the first entry.
    pub fn fallback(&self) -> (r: C)
        requires
            table_ok(self@),
        ensures
            r == self@[0].1,
    {
        self.boundaries[0].1
    }
}

} // verus!
