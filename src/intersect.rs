use std::cmp::Ordering;
use std::io;

use vstd::prelude::*;
use vstd::std_specs::iter::IteratorSpec;

use crate::chrom_dict::{compare_pos, compare_spec, lemma_compare_partial_order, lemma_compare_transitive, ChromDict};
use crate::{colocated, ChromPos};

verus! {

/// `std::io::Error`, carried through as it comes from a source.
#[verifier::external_type_specification]
#[verifier::external_body]
pub struct ExIoError(io::Error);

/// A finite source: it obeys the iterator laws (once exhausted it returns `None`, and goes on
/// doing so), and it has a termination measure.
pub open spec fn finite_source<I: Iterator>(it: &I) -> bool {
    it.obeys_prophetic_iter_laws() && it.decrease() is Some
}

/// An item is a candidate when it is an error, or a position on a chromosome among `ids`.
pub open spec fn is_candidate<T: ChromPos>(ids: Seq<Seq<char>>, item: io::Result<T>) -> bool {
    match item {
        Ok(v) => ids.contains(v.chrom_spec()),
        Err(_) => true,
    }
}

/// An item ends a search for `target` when it is an error, or a candidate position that is not
/// dictionary-less than the target.
pub open spec fn ends_search<T: ChromPos>(
    ids: Seq<Seq<char>>,
    target: &T,
    item: io::Result<T>,
) -> bool {
    match item {
        Ok(v) => ids.contains(v.chrom_spec()) && compare_pos(ids, &v, target) != Some(
            Ordering::Less,
        ),
        Err(_) => true,
    }
}

/// `k` is the index of the first candidate of `s`.
pub open spec fn first_candidate_at<T: ChromPos>(
    ids: Seq<Seq<char>>,
    s: Seq<io::Result<T>>,
    k: int,
) -> bool {
    &&& 0 <= k < s.len()
    &&& is_candidate(ids, s[k])
    &&& forall|j: int| 0 <= j < k ==> !is_candidate(ids, #[trigger] s[j])
}

/// `k` is the index of the first item of `s` that ends a search for `target`.
pub open spec fn first_search_end_at<T: ChromPos>(
    ids: Seq<Seq<char>>,
    target: &T,
    s: Seq<io::Result<T>>,
    k: int,
) -> bool {
    &&& 0 <= k < s.len()
    &&& ends_search(ids, target, s[k])
    &&& forall|j: int| 0 <= j < k ==> !ends_search(ids, target, #[trigger] s[j])
}

/// `s[k]` is a position at coordinate `p` of chromosome `c`.
pub open spec fn occurs_at<T: ChromPos>(s: Seq<io::Result<T>>, k: int, c: Seq<char>, p: u32) -> bool {
    &&& 0 <= k < s.len()
    &&& s[k] is Ok
    &&& s[k]->Ok_0.chrom_spec() == c
    &&& s[k]->Ok_0.pos_spec() == p
}

/// Some item of `s` is a position at coordinate `p` of chromosome `c`.
pub open spec fn occurs_in<T: ChromPos>(s: Seq<io::Result<T>>, c: Seq<char>, p: u32) -> bool {
    exists|k: int| occurs_at(s, k, c, p)
}

/// The positions of `s` never go back in dictionary order.
pub open spec fn sorted_by<T: ChromPos>(ids: Seq<Seq<char>>, s: Seq<io::Result<T>>) -> bool {
    forall|a: int, b: int|
        0 <= a < b < s.len() && s[a] is Ok && s[b] is Ok ==> compare_pos(
            ids,
            &(#[trigger] s[b])->Ok_0,
            &(#[trigger] s[a])->Ok_0,
        ) != Some(Ordering::Less)
}

/// No item of `s` is an error.
pub open spec fn error_free<T>(s: Seq<io::Result<T>>) -> bool {
    forall|k: int| 0 <= k < s.len() ==> (#[trigger] s[k]) is Ok
}

/// `after` is what is left of `before` once a prefix of it was taken.
pub open spec fn advanced<A>(before: Seq<A>, after: Seq<A>) -> bool {
    &&& after.len() <= before.len()
    &&& after == before.skip(before.len() - after.len())
}

proof fn lemma_advanced<A>(s: Seq<A>)
    ensures
        advanced(s, s),
        advanced(s, Seq::<A>::empty()),
{
    assert(s.skip(0) == s);
    assert(s.skip(s.len() as int) == Seq::<A>::empty());
}

/// The last item taken from `before` to leave `after`.
pub open spec fn last_taken<A>(before: Seq<A>, after: Seq<A>) -> A {
    before[before.len() - after.len() - 1]
}

/// The location at coordinate `p` of chromosome `c` is a position in every one of `rems`, and
/// its chromosome is among `ids`.
pub open spec fn common_to<T: ChromPos>(
    ids: Seq<Seq<char>>,
    rems: Seq<Seq<io::Result<T>>>,
    c: Seq<char>,
    p: u32,
) -> bool {
    ids.contains(c) && forall|i: int| 0 <= i < rems.len() ==> occurs_in(#[trigger] rems[i], c, p)
}

/// Each of `rems` is sorted in dictionary order and holds no error.
pub open spec fn well_behaved<T: ChromPos>(ids: Seq<Seq<char>>, rems: Seq<Seq<io::Result<T>>>) -> bool {
    forall|i: int| 0 <= i < rems.len() ==> sorted_by(ids, #[trigger] rems[i]) && error_free(rems[i])
}

/// In a sorted source, a location that occurs in the source and is not dictionary-less than the
/// last position taken (`o[taken - 1]`) occurs at or after that position.
proof fn lemma_occurs_from<T: ChromPos>(
    ids: Seq<Seq<char>>,
    o: Seq<io::Result<T>>,
    taken: int,
    c: Seq<char>,
    p: u32,
) -> (k: int)
    requires
        sorted_by(ids, o),
        1 <= taken <= o.len(),
        o[taken - 1] is Ok,
        ids.contains(o[taken - 1]->Ok_0.chrom_spec()),
        ids.contains(c),
        occurs_in(o, c, p),
        compare_spec(
            ids,
            c,
            p,
            o[taken - 1]->Ok_0.chrom_spec(),
            o[taken - 1]->Ok_0.pos_spec(),
        ) != Some(Ordering::Less),
    ensures
        taken - 1 <= k < o.len(),
        occurs_at(o, k, c, p),
{
    let k = choose|k: int| occurs_at(o, k, c, p);
    if k < taken - 1 {
        let x = o[taken - 1]->Ok_0;
        lemma_compare_partial_order(ids, c, p, x.chrom_spec(), x.pos_spec());
        lemma_compare_partial_order(ids, x.chrom_spec(), x.pos_spec(), c, p);
        assert(compare_pos(ids, &o[taken - 1]->Ok_0, &o[k]->Ok_0) != Some(Ordering::Less));
        assert(occurs_at(o, taken - 1, c, p));
        taken - 1
    } else {
        k
    }
}

/// `s[k]` is the first item at or after index `from` that `ends_search` for `target`, when the
/// items from `from` on are `s.skip(from)`.
proof fn lemma_first_end_shift<T: ChromPos>(
    ids: Seq<Seq<char>>,
    target: &T,
    s: Seq<io::Result<T>>,
    from: int,
    e: int,
)
    requires
        0 <= from <= s.len(),
        first_search_end_at(ids, target, s.skip(from), e),
    ensures
        ends_search(ids, target, s[from + e]),
        forall|j: int| from <= j < from + e ==> !ends_search(ids, target, #[trigger] s[j]),
{
    assert(s.skip(from)[e] == s[from + e]);
    assert forall|j: int| from <= j < from + e implies !ends_search(ids, target, #[trigger] s[j]) by {
        assert(s.skip(from)[j - from] == s[j]);
    }
}

/// In a sorted source whose last position taken is `x`, a common location that is not
/// dictionary-less than `x` nor than a candidate `m` that `x` is below (and not colocated with)
/// lies strictly after `x`, where it ends a search for `m`.
proof fn lemma_common_ahead<T: ChromPos>(
    ids: Seq<Seq<char>>,
    o: Seq<io::Result<T>>,
    taken: int,
    x: T,
    m: T,
    c: Seq<char>,
    p: u32,
) -> (k: int)
    requires
        sorted_by(ids, o),
        1 <= taken <= o.len(),
        o[taken - 1] == Ok::<T, io::Error>(x),
        ids.contains(x.chrom_spec()),
        ids.contains(m.chrom_spec()),
        compare_pos(ids, &x, &m) != Some(Ordering::Greater),
        !colocated(&x, &m),
        ids.contains(c),
        occurs_in(o, c, p),
        compare_spec(ids, c, p, x.chrom_spec(), x.pos_spec()) != Some(Ordering::Less),
        compare_spec(ids, c, p, m.chrom_spec(), m.pos_spec()) != Some(Ordering::Less),
    ensures
        taken <= k < o.len(),
        occurs_at(o, k, c, p),
        ends_search(ids, &m, o[k]),
{
    let k = lemma_occurs_from(ids, o, taken, c, p);
    lemma_compare_partial_order(ids, x.chrom_spec(), x.pos_spec(), m.chrom_spec(), m.pos_spec());
    lemma_compare_partial_order(ids, c, p, m.chrom_spec(), m.pos_spec());
    k
}

/// A cursor never goes back: once the item at index `k` of a sorted source is returned, what
/// is left is `s.skip(k + 1)`, still sorted, and no position in it is dictionary-less than the
/// one returned.
pub proof fn lemma_cursor_monotonic<T: ChromPos>(ids: Seq<Seq<char>>, s: Seq<io::Result<T>>, k: int)
    requires
        sorted_by(ids, s),
        0 <= k < s.len(),
        s[k] is Ok,
    ensures
        sorted_by(ids, s.skip(k + 1)),
        forall|j: int|
            0 <= j < s.skip(k + 1).len() && (#[trigger] s.skip(k + 1)[j]) is Ok ==> compare_pos(
                ids,
                &s.skip(k + 1)[j]->Ok_0,
                &s[k]->Ok_0,
            ) != Some(Ordering::Less),
{
    let t = s.skip(k + 1);
    assert forall|j: int| 0 <= j < t.len() && (#[trigger] t[j]) is Ok implies compare_pos(
        ids,
        &t[j]->Ok_0,
        &s[k]->Ok_0,
    ) != Some(Ordering::Less) by {
        assert(t[j] == s[k + 1 + j]);
    }
    assert forall|a: int, b: int| 0 <= a < b < t.len() && (#[trigger] t[a]) is Ok && (#[trigger] t[b]) is Ok implies compare_pos(
        ids,
        &t[b]->Ok_0,
        &t[a]->Ok_0,
    ) != Some(Ordering::Less) by {
        assert(t[a] == s[k + 1 + a]);
        assert(t[b] == s[k + 1 + b]);
    }
}

/// Search iterator.
///
/// Wraps a source of positions to search forward for positions that meet given criteria.
pub struct Search<I>(I);

impl<I> Search<I> {
    /// The wrapped source.
    pub closed spec fn source(&self) -> I {
        self.0
    }

    /// Create new search iterator.
    pub fn new(inner: I) -> (r: Self)
        ensures
            r.source() == inner,
    {
        Search(inner)
    }
}

impl<I, T> Search<I> where I: Iterator<Item = io::Result<T>>, T: ChromPos {
    /// Find the next candidate position.
    ///
    /// A candidate position is one on a chromosome of the dictionary. Positions on other
    /// chromosomes are skipped; an error is returned as it comes. If the source is exhausted
    /// first, returns `None`.
    pub fn next_candidate(&mut self, dict: &ChromDict) -> (r: Option<io::Result<T>>)
        requires
            finite_source(&old(self).source()),
        ensures
            finite_source(&final(self).source()),
            r is Some ==> final(self).source().decrease()->0 < old(self).source().decrease()->0,
            ({
                let rem = old(self).source().remaining();
                match r {
                    Some(item) => exists|k: int|
                        #![trigger first_candidate_at(dict@, rem, k)]
                        first_candidate_at(dict@, rem, k) && rem[k] == item
                            && final(self).source().remaining() == rem.skip(k + 1),
                    None => (forall|j: int|
                        0 <= j < rem.len() ==> !is_candidate(dict@, #[trigger] rem[j]))
                        && final(self).source().remaining() == Seq::<io::Result<T>>::empty(),
                }
            }),
    {
        let ghost rem = self.0.remaining();
        let ghost d0: nat = self.0.decrease()->0;
        let ghost mut k: int = 0;
        loop
            invariant
                finite_source(&self.0),
                0 <= k <= rem.len(),
                self.0.remaining() == rem.skip(k),
                rem == old(self).0.remaining(),
                d0 == old(self).0.decrease()->0,
                k > 0 ==> self.0.decrease()->0 < d0,
                k == 0 ==> self.0 == old(self).0,
                forall|j: int| 0 <= j < k ==> !is_candidate(dict@, #[trigger] rem[j]),
            decreases self.0.decrease()->0,
        {
            let next = self.0.next();
            proof {
                if next is Some {
                    assert(rem.skip(k)[0] == rem[k]);
                    assert(rem.skip(k).drop_first() == rem.skip(k + 1));
                } else {
                    assert(rem.len() == k);
                }
            }
            match next {
                Some(Ok(v)) => {
                    if dict.contains(&v) {
                        proof {
                            assert(first_candidate_at(dict@, rem, k));
                            assert(rem == old(self).source().remaining());
                        }
                        return Some(Ok(v));
                    }
                    proof {
                        k = k + 1;
                    }
                },
                Some(Err(e)) => {
                    proof {
                        assert(first_candidate_at(dict@, rem, k));
                        assert(rem == old(self).source().remaining());
                    }
                    return Some(Err(e));
                },
                None => {
                    return None;
                },
            }
        }
    }

    /// Search for a target position.
    ///
    /// Skips the candidates that are dictionary-less than the target and returns the first
    /// candidate that is not: the target itself if it is there, else the first position after
    /// it. An error is returned as it comes. Returns `None` if the source is exhausted first, or
    /// if the target's chromosome is not in the dictionary (then one candidate is consumed).
    pub fn search(&mut self, target: &T, dict: &ChromDict) -> (r: Option<io::Result<T>>)
        requires
            finite_source(&old(self).source()),
        ensures
            finite_source(&final(self).source()),
            ({
                let rem = old(self).source().remaining();
                match r {
                    Some(item) => exists|k: int|
                        #![trigger first_search_end_at(dict@, target, rem, k)]
                        first_search_end_at(dict@, target, rem, k) && rem[k] == item
                            && final(self).source().remaining() == rem.skip(k + 1) && (item is Ok
                            ==> dict@.contains(target.chrom_spec())),
                    None => ((forall|j: int|
                        0 <= j < rem.len() ==> !ends_search(dict@, target, #[trigger] rem[j]))
                        && final(self).source().remaining() == Seq::<io::Result<T>>::empty()) || (
                    exists|k: int|
                        #![trigger first_search_end_at(dict@, target, rem, k)]
                        first_search_end_at(dict@, target, rem, k) && rem[k] is Ok
                            && !dict@.contains(target.chrom_spec())
                            && final(self).source().remaining() == rem.skip(k + 1)),
                }
            }),
            r matches Some(Ok(v)) ==> compare_pos(dict@, &v, target) matches Some(
                Ordering::Equal | Ordering::Greater,
            ),
            r is Some ==> final(self).source().decrease()->0 < old(self).source().decrease()->0,
    {
        let ghost rem = self.0.remaining();
        loop
            invariant
                finite_source(&self.0),
                self.0 == old(self).0 || self.0.decrease()->0 < old(self).0.decrease()->0,
                rem == old(self).0.remaining(),
                self.0.remaining().len() <= rem.len(),
                self.0.remaining() == rem.skip(rem.len() - self.0.remaining().len()),
                forall|j: int|
                    0 <= j < rem.len() - self.0.remaining().len() ==> !ends_search(
                        dict@,
                        target,
                        #[trigger] rem[j],
                    ),
            decreases self.0.decrease()->0,
        {
            let ghost before = self.0.remaining();
            let ghost k = rem.len() - before.len();
            let next = self.next_candidate(dict);
            let ghost c = choose|c: int|
                first_candidate_at(dict@, before, c) && before[c] == next->Some_0
                    && self.0.remaining() == before.skip(c + 1);
            proof {
                if next is Some {
                    assert forall|j: int| 0 <= j < k + c implies !ends_search(
                        dict@,
                        target,
                        #[trigger] rem[j],
                    ) by {
                        if j >= k {
                            assert(rem[j] == before[j - k]);
                            assert(!is_candidate(dict@, before[j - k]));
                        }
                    }
                    assert(before[c] == rem[k + c]);
                    assert(self.0.remaining() == rem.skip(k + c + 1));
                } else {
                    assert forall|j: int| 0 <= j < rem.len() implies !ends_search(
                        dict@,
                        target,
                        #[trigger] rem[j],
                    ) by {
                        if j >= k {
                            assert(rem[j] == before[j - k]);
                            assert(!is_candidate(dict@, before[j - k]));
                        }
                    }
                }
            }
            match next {
                Some(Ok(v)) => {
                    match dict.compare(&v, target) {
                        Some(Ordering::Less) => {},
                        Some(o) => {
                            proof {
                                assert(first_search_end_at(dict@, target, rem, k + c));
                                assert(rem == old(self).source().remaining());
                            }
                            return Some(Ok(v));
                        },
                        None => {
                            proof {
                                assert(first_search_end_at(dict@, target, rem, k + c));
                            }
                            return None;
                        },
                    }
                },
                Some(Err(e)) => {
                    proof {
                        assert(first_search_end_at(dict@, target, rem, k + c));
                        assert(rem == old(self).source().remaining());
                    }
                    return Some(Err(e));
                },
                None => {
                    return None;
                },
            }
        }
    }
}

/// Multiple positions.
///
/// A collection of positions, one per source, that may or may not be intersecting.
pub struct Positions<T>(pub Vec<T>);

impl<T: ChromPos> Positions<T> {
    /// Get number of positions.
    pub fn len(&self) -> (r: usize)
        ensures
            r == self.0.len(),
    {
        self.0.len()
    }

    /// Check whether all positions are colocated.
    pub fn is_intersection(&self) -> (r: bool)
        requires
            self.0.len() > 0,
        ensures
            r == forall|i: int| 0 <= i < self.0.len() ==> colocated(&self.0@[i], &self.0@[0]),
    {
        let first = &self.0[0];
        let mut i: usize = 1;
        while i < self.0.len()
            invariant
                1 <= i <= self.0.len(),
                first == self.0@[0],
                forall|j: int| 0 <= j < i ==> colocated(&self.0@[j], &self.0@[0]),
            decreases self.0.len() - i,
        {
            if !self.0[i].intersect(first) {
                proof {
                    assert(!colocated(&self.0@[i as int], &self.0@[0]));
                }
                return false;
            }
            i = i + 1;
        }
        true
    }

    /// Get the index of the greatest position.
    ///
    /// If all positions are on chromosomes of the dictionary, returns the index of the
    /// dictionary-greatest position; of several tied for greatest, the first. Otherwise (when
    /// there are two positions or more) returns `None`.
    pub fn argmax(&self, dict: &ChromDict) -> (r: Option<usize>)
        requires
            self.0.len() > 0,
        ensures
            r is None <==> self.0.len() > 1 && exists|i: int|
                0 <= i < self.0.len() && !dict@.contains(#[trigger] self.0@[i].chrom_spec()),
            r matches Some(m) ==> {
                &&& m < self.0.len()
                &&& forall|i: int|
                    0 <= i < self.0.len() ==> compare_pos(dict@, &self.0@[i], &self.0@[m as int])
                        != Some(Ordering::Greater)
                &&& forall|i: int|
                    0 <= i < m ==> compare_pos(dict@, &self.0@[i], &self.0@[m as int]) == Some(
                        Ordering::Less,
                    )
            },
    {
        let ids = Ghost(dict@);
        let v = &self.0;
        proof {
            let p = &v@[0];
            lemma_compare_partial_order(
                ids@,
                p.chrom_spec(),
                p.pos_spec(),
                p.chrom_spec(),
                p.pos_spec(),
            );
        }
        if v.len() == 1 {
            return Some(0);
        }
        let mut argmax: usize = 0;
        let mut i: usize = 1;
        while i < v.len()
            invariant
                v == self.0,
                ids@ == dict@,
                v.len() > 1,
                1 <= i <= v.len(),
                argmax < i,
                i > 1 ==> forall|j: int| 0 <= j < i ==> ids@.contains(#[trigger] v@[j].chrom_spec()),
                forall|j: int|
                    0 <= j < i ==> compare_pos(ids@, &v@[j], &v@[argmax as int]) != Some(
                        Ordering::Greater,
                    ),
                forall|j: int|
                    0 <= j < argmax ==> compare_pos(ids@, &v@[j], &v@[argmax as int]) == Some(
                        Ordering::Less,
                    ),
            decreases v.len() - i,
        {
            let o = dict.compare(&v[i], &v[argmax]);
            let ghost a = &v@[argmax as int];
            let ghost b = &v@[i as int];
            proof {
                lemma_compare_partial_order(
                    ids@,
                    b.chrom_spec(),
                    b.pos_spec(),
                    a.chrom_spec(),
                    a.pos_spec(),
                );
                lemma_compare_partial_order(
                    ids@,
                    b.chrom_spec(),
                    b.pos_spec(),
                    b.chrom_spec(),
                    b.pos_spec(),
                );
            }
            match o {
                Some(Ordering::Greater) => {
                    proof {
                        assert forall|j: int| 0 <= j < i implies compare_pos(
                            ids@,
                            &v@[j],
                            &v@[i as int],
                        ) == Some(Ordering::Less) by {
                            let c = &v@[j];
                            lemma_compare_partial_order(
                                ids@,
                                c.chrom_spec(),
                                c.pos_spec(),
                                a.chrom_spec(),
                                a.pos_spec(),
                            );
                            lemma_compare_partial_order(
                                ids@,
                                a.chrom_spec(),
                                a.pos_spec(),
                                b.chrom_spec(),
                                b.pos_spec(),
                            );
                            if compare_pos(ids@, c, a) == Some(Ordering::Less) {
                                lemma_compare_transitive(
                                    ids@,
                                    c.chrom_spec(),
                                    c.pos_spec(),
                                    a.chrom_spec(),
                                    a.pos_spec(),
                                    b.chrom_spec(),
                                    b.pos_spec(),
                                );
                            }
                        }
                    }
                    argmax = i;
                },
                Some(_) => {},
                None => {
                    return None;
                },
            }
            i = i + 1;
        }
        Some(argmax)
    }
}

/// The sum of the termination measures of the sources.
pub open spec fn total_measure<I: Iterator>(s: Seq<Search<I>>) -> nat
    decreases s.len(),
{
    if s.len() == 0 {
        0
    } else {
        total_measure(s.drop_last()) + s.last().source().decrease()->0
    }
}

proof fn lemma_total_measure_update<I: Iterator>(s: Seq<Search<I>>, i: int, x: Search<I>)
    requires
        0 <= i < s.len(),
    ensures
        total_measure(s.update(i, x)) + s[i].source().decrease()->0 == total_measure(s)
            + x.source().decrease()->0,
    decreases s.len(),
{
    let u = s.update(i, x);
    if i < s.len() - 1 {
        assert(u.drop_last() == s.drop_last().update(i, x));
        lemma_total_measure_update(s.drop_last(), i, x);
    } else {
        assert(u.drop_last() == s.drop_last());
    }
}

/// Intersect iterator.
///
/// Yields the intersection of positions from pre-sorted sources, where a position is anything
/// that implements [`ChromPos`]. The chromosome dictionary must be computed ahead of time: see
/// [`ChromDict`].
pub struct Intersect<I> {
    iters: Vec<Search<I>>,
    dict: ChromDict,
}

impl<I> Intersect<I> {
    /// The sources, in their current state.
    pub closed spec fn sources(&self) -> Seq<I> {
        self.iters@.map_values(|x: Search<I>| x.source())
    }

    proof fn lemma_sources(&self)
        ensures
            self.sources().len() == self.iters.len(),
            forall|j: int|
                0 <= j < self.iters.len() ==> #[trigger] self.sources()[j] == self.iters@[j].source(),
    {
    }

    /// The IDs of the chromosome dictionary.
    pub closed spec fn dict_view(&self) -> Seq<Seq<char>> {
        self.dict@
    }

    /// Create new intersect iterator.
    pub fn new(input: Vec<I>, dict: ChromDict) -> (r: Self)
        ensures
            r.sources() == input@,
            r.dict_view() == dict@,
    {
        let mut input = input;
        let ghost all = input@;
        let mut iters: Vec<Search<I>> = Vec::new();
        while input.len() > 0
            invariant
                iters@.map_values(|x: Search<I>| x.source()) + input@ == all,
            decreases input.len(),
        {
            let x = input.remove(0);
            proof {
                let before = iters@.map_values(|x: Search<I>| x.source());
                assert(before + input@.insert(0, x) == all);
            }
            iters.push(Search::new(x));
            proof {
                let now = iters@.map_values(|x: Search<I>| x.source());
                let before = now.drop_last();
                assert(now == before.push(x));
                assert(now + input@ == all);
            }
        }
        proof {
            assert(input@ == Seq::<I>::empty());
            assert(iters@.map_values(|x: Search<I>| x.source()) == all);
        }
        Intersect { iters, dict }
    }
}

impl<I, T> Intersect<I> where I: Iterator<Item = io::Result<T>>, T: ChromPos {
    /// Every source is finite.
    pub open spec fn wf(&self) -> bool {
        forall|i: int| 0 <= i < self.sources().len() ==> finite_source(&#[trigger] self.sources()[i])
    }

    /// Take the next candidate position of each source, in order.
    ///
    /// Stops at the first source that is exhausted, or that yields an error.
    fn next_candidates(&mut self) -> (r: Option<io::Result<Vec<T>>>)
        requires
            old(self).wf(),
        ensures
            final(self).wf(),
            final(self).dict == old(self).dict,
            final(self).iters.len() == old(self).iters.len(),
            forall|i: int|
                0 <= i < old(self).iters.len() ==> advanced(
                    old(self).iters@[i].source().remaining(),
                    #[trigger] final(self).iters@[i].source().remaining(),
                ),
            r matches Some(Ok(v)) ==> v.len() == old(self).iters.len() && forall|i: int|
                0 <= i < v.len() ==> {
                    let o = old(self).iters@[i].source().remaining();
                    let f = final(self).iters@[i].source().remaining();
                    &&& f.len() < o.len()
                    &&& last_taken(o, f) == Ok::<T, io::Error>(#[trigger] v@[i])
                    &&& old(self).dict@.contains(v@[i].chrom_spec())
                    &&& forall|k: int|
                        0 <= k < o.len() - f.len() - 1 ==> !is_candidate(old(self).dict@, #[trigger] o[k])
                },
            r matches Some(Err(e)) ==> exists|i: int|
                0 <= i < old(self).iters.len() && {
                    let o = old(self).iters@[i].source().remaining();
                    let f = (#[trigger] final(self).iters@[i]).source().remaining();
                    f.len() < o.len() && last_taken(o, f) == Err::<T, io::Error>(e)
                },
            r is None ==> exists|i: int|
                0 <= i < old(self).iters.len() && {
                    let o = old(self).iters@[i].source().remaining();
                    let f = (#[trigger] final(self).iters@[i]).source().remaining();
                    f.len() == 0 && forall|k: int| 0 <= k < o.len() ==> !is_candidate(old(self).dict@, #[trigger] o[k])
                },
    {
        let n = self.iters.len();
        let mut v: Vec<T> = Vec::new();
        let mut i: usize = 0;
        proof {
            self.lemma_sources();
            assert forall|j: int| 0 <= j < n implies advanced(
                old(self).iters@[j].source().remaining(),
                #[trigger] self.iters@[j].source().remaining(),
            ) by {
                lemma_advanced(self.iters@[j].source().remaining());
            }
            assert forall|j: int| 0 <= j < n implies finite_source(
                &(#[trigger] self.iters@[j]).source(),
            ) by {
                assert(finite_source(&self.sources()[j]));
            }
        }
        while i < n
            invariant
                n == self.iters.len(),
                n == old(self).iters.len(),
                self.dict == old(self).dict,
                0 <= i <= n,
                v.len() == i,
                forall|j: int| 0 <= j < n ==> finite_source(&(#[trigger] self.iters@[j]).source()),
                forall|j: int| i <= j < n ==> #[trigger] self.iters@[j] == old(self).iters@[j],
                forall|j: int|
                    0 <= j < n ==> advanced(
                        old(self).iters@[j].source().remaining(),
                        #[trigger] self.iters@[j].source().remaining(),
                    ),
                forall|j: int|
                    0 <= j < i ==> {
                        let o = old(self).iters@[j].source().remaining();
                        let f = (#[trigger] self.iters@[j]).source().remaining();
                        &&& advanced(o, f)
                        &&& f.len() < o.len()
                        &&& last_taken(o, f) == Ok::<T, io::Error>(v@[j])
                        &&& self.dict@.contains(v@[j].chrom_spec())
                        &&& forall|k: int|
                            0 <= k < o.len() - f.len() - 1 ==> !is_candidate(self.dict@, #[trigger] o[k])
                    },
            decreases n - i,
        {
            let c = self.iters[i].next_candidate(&self.dict);
            let ghost o = old(self).iters@[i as int].source().remaining();
            let ghost f = self.iters@[i as int].source().remaining();
            proof {
                self.lemma_sources();
                lemma_advanced(o);
            }
            match c {
                Some(Ok(x)) => {
                    proof {
                        let k = choose|k: int|
                            #![trigger first_candidate_at(self.dict@, o, k)]
                            first_candidate_at(self.dict@, o, k) && o[k] == c->Some_0
                                && f == o.skip(k + 1);
                        assert(o.len() - f.len() == k + 1);
                    }
                    v.push(x);
                },
                Some(Err(e)) => {
                    proof {
                        let k = choose|k: int|
                            #![trigger first_candidate_at(self.dict@, o, k)]
                            first_candidate_at(self.dict@, o, k) && o[k] == c->Some_0
                                && f == o.skip(k + 1);
                        assert(o.len() - f.len() == k + 1);
                    }
                    return Some(Err(e));
                },
                None => {
                    return None;
                },
            }
            i = i + 1;
        }
        proof {
            self.lemma_sources();
        }
        Some(Ok(v))
    }

    /// Find the next location common to all sources.
    ///
    /// Takes the next candidate of each source; then, while they are not all colocated, moves
    /// every source that is not at the dictionary-greatest candidate forward to it. Returns the
    /// colocated positions, one per source; an error from a source as it comes; `None` once a
    /// source is exhausted.
    pub fn next(&mut self) -> (r: Option<io::Result<Vec<T>>>)
        requires
            old(self).wf(),
            old(self).sources().len() > 0,
        ensures
            final(self).wf(),
            final(self).dict_view() == old(self).dict_view(),
            final(self).sources().len() == old(self).sources().len(),
            forall|i: int|
                0 <= i < old(self).sources().len() ==> advanced(
                    old(self).sources()[i].remaining(),
                    #[trigger] final(self).sources()[i].remaining(),
                ),
            r matches Some(Ok(v)) ==> {
                &&& v.len() == old(self).sources().len()
                &&& old(self).dict_view().contains(v@[0].chrom_spec())
                &&& forall|i: int|
                    0 <= i < v.len() ==> {
                        let o = old(self).sources()[i].remaining();
                        let f = final(self).sources()[i].remaining();
                        &&& colocated(&v@[i], &v@[0])
                        &&& f.len() < o.len()
                        &&& last_taken(o, f) == Ok::<T, io::Error>(#[trigger] v@[i])
                    }
            },
            r matches Some(Err(e)) ==> exists|i: int|
                0 <= i < old(self).sources().len() && {
                    let o = old(self).sources()[i].remaining();
                    let f = (#[trigger] final(self).sources()[i]).remaining();
                    f.len() < o.len() && last_taken(o, f) == Err::<T, io::Error>(e)
                },
            r is None ==> exists|i: int|
                0 <= i < old(self).sources().len() && (
                #[trigger] final(self).sources()[i]).remaining().len() == 0,
            ({
                let ids = old(self).dict_view();
                let olds = Seq::new(
                    old(self).sources().len(),
                    |i: int| old(self).sources()[i].remaining(),
                );
                well_behaved(ids, olds) ==> {
                    &&& r matches Some(Ok(v)) ==> forall|c: Seq<char>, p: u32|
                        #[trigger] common_to(ids, olds, c, p) ==> compare_spec(
                            ids,
                            c,
                            p,
                            v@[0].chrom_spec(),
                            v@[0].pos_spec(),
                        ) != Some(Ordering::Less)
                    &&& r is None ==> forall|c: Seq<char>, p: u32| !#[trigger] common_to(ids, olds, c, p)
                    &&& !(r matches Some(Err(_)))
                }
            }),
            (forall|i: int|
                0 <= i < old(self).sources().len() ==> error_free(
                    #[trigger] old(self).sources()[i].remaining(),
                )) ==> {
                &&& (exists|i: int|
                    0 <= i < old(self).sources().len() && (
                    #[trigger] old(self).sources()[i]).remaining().len() == 0) ==> r is None
                &&& old(self).dict_view().len() == 0 ==> r is None
            },
    {
        proof {
            self.lemma_sources();
        }
        let ghost n = self.iters.len() as int;
        let ghost ids = self.dict@;
        let ghost olds = Seq::new(n as nat, |i: int| self.iters@[i].source().remaining());
        proof {
            assert(olds =~= Seq::new(
                old(self).sources().len(),
                |i: int| old(self).sources()[i].remaining(),
            ));
            assert forall|j: int| 0 <= j < n implies #[trigger] olds[j]
                == old(self).iters@[j].source().remaining() by {}
        }
        let ghost wb = well_behaved(ids, olds);
        let first = self.next_candidates();
        proof {
            self.lemma_sources();
        }
        proof {
            assert forall|j: int| 0 <= j < n implies finite_source(
                &(#[trigger] self.iters@[j]).source(),
            ) by {
                assert(finite_source(&self.sources()[j]));
            }
        }
        let mut positions = match first {
            Some(Ok(v)) => Positions(v),
            Some(Err(e)) => {
                proof {
                    let i = choose|i: int|
                        0 <= i < n && {
                            let o = old(self).iters@[i].source().remaining();
                            let f = (#[trigger] self.iters@[i]).source().remaining();
                            f.len() < o.len() && last_taken(o, f) == Err::<T, io::Error>(e)
                        };
                    let o = olds[i];
                    let f = self.iters@[i].source().remaining();
                    assert(wb ==> error_free(o));
                    assert(wb ==> o[o.len() - f.len() - 1] is Ok);
                    self.lemma_sources();
                    assert(self.sources()[i] == self.iters@[i].source());
                }
                proof {
                    assert(olds =~= Seq::new(
                        old(self).sources().len(),
                        |i: int| old(self).sources()[i].remaining(),
                    ));
                }
                return Some(Err(e));
            },
            None => {
                proof {
                    let i = choose|i: int|
                        0 <= i < n && {
                            let o = old(self).iters@[i].source().remaining();
                            let f = (#[trigger] self.iters@[i]).source().remaining();
                            f.len() == 0 && forall|k: int|
                                0 <= k < o.len() ==> !is_candidate(ids, #[trigger] o[k])
                        };
                    assert(self.sources()[i].remaining().len() == 0);
                    assert forall|c: Seq<char>, p: u32| #[trigger] common_to(ids, olds, c, p) implies false by {
                        assert(occurs_in(olds[i], c, p));
                        let k = choose|k: int| occurs_at(olds[i], k, c, p);
                        assert(is_candidate(ids, olds[i][k]));
                    }
                }
                proof {
                    self.lemma_sources();
                    assert(olds =~= Seq::new(
                        old(self).sources().len(),
                        |i: int| old(self).sources()[i].remaining(),
                    ));
                }
                return None;
            },
        };
        proof {
            assert forall|c: Seq<char>, p: u32| wb && #[trigger] common_to(ids, olds, c, p) implies forall|j: int|
                0 <= j < n ==> compare_spec(
                    ids,
                    c,
                    p,
                    (#[trigger] positions.0@[j]).chrom_spec(),
                    positions.0@[j].pos_spec(),
                ) != Some(Ordering::Less) by {
                assert forall|j: int| 0 <= j < n implies compare_spec(
                    ids,
                    c,
                    p,
                    (#[trigger] positions.0@[j]).chrom_spec(),
                    positions.0@[j].pos_spec(),
                ) != Some(Ordering::Less) by {
                    let o = olds[j];
                    let f = self.iters@[j].source().remaining();
                    let taken = o.len() - f.len();
                    let x = positions.0@[j];
                    assert(occurs_in(o, c, p));
                    let k = choose|k: int| occurs_at(o, k, c, p);
                    assert(sorted_by(ids, o));
                    assert(o[taken - 1] == Ok::<T, io::Error>(x));
                    lemma_compare_partial_order(ids, c, p, x.chrom_spec(), x.pos_spec());
                    assert(k < taken - 1 ==> is_candidate(ids, o[k]));
                    assert(k > taken - 1 ==> compare_pos(ids, &o[k]->Ok_0, &o[taken - 1]->Ok_0)
                        != Some(Ordering::Less));
                }
            }
        }
        proof {
            assert forall|j: int| 0 <= j < n implies {
                let o = olds[j];
                let f = (#[trigger] self.iters@[j]).source().remaining();
                &&& advanced(o, f)
                &&& f.len() < o.len()
                &&& last_taken(o, f) == Ok::<T, io::Error>(positions.0@[j])
                &&& ids.contains(positions.0@[j].chrom_spec())
            } by {
                let x = positions.0@[j];
                assert(advanced(olds[j], self.iters@[j].source().remaining()));
            }
        }
        while !positions.is_intersection()
            invariant
                n > 0,
                self.iters.len() == n,
                positions.0.len() == n,
                self.dict == old(self).dict,
                ids == self.dict@,
                olds.len() == n,
                old(self).sources().len() == n,
                forall|j: int|
                    0 <= j < n ==> #[trigger] old(self).sources()[j] == old(self).iters@[j].source(),
                forall|j: int|
                    0 <= j < n ==> #[trigger] olds[j] == old(self).iters@[j].source().remaining(),
                wb == well_behaved(ids, olds),
                forall|j: int| 0 <= j < n ==> finite_source(&(#[trigger] self.iters@[j]).source()),
                forall|j: int|
                    0 <= j < n ==> {
                        let o = olds[j];
                        let f = (#[trigger] self.iters@[j]).source().remaining();
                        &&& advanced(o, f)
                        &&& f.len() < o.len()
                        &&& last_taken(o, f) == Ok::<T, io::Error>(positions.0@[j])
                        &&& ids.contains(positions.0@[j].chrom_spec())
                    },
                forall|c: Seq<char>, p: u32|
                    wb && #[trigger] common_to(ids, olds, c, p) ==> forall|j: int|
                        0 <= j < n ==> compare_spec(
                            ids,
                            c,
                            p,
                            (#[trigger] positions.0@[j]).chrom_spec(),
                            positions.0@[j].pos_spec(),
                        ) != Some(Ordering::Less),
            decreases total_measure(self.iters@),
        {
            let argmax = match positions.argmax(&self.dict) {
                Some(m) => m,
                None => {
                    proof {
                        let j = choose|j: int|
                            0 <= j < n && !ids.contains(#[trigger] positions.0@[j].chrom_spec());
                        assert(self.iters@[j].source().remaining().len() < olds[j].len());
                    }
                    proof {
                        self.lemma_sources();
                        assert(olds =~= Seq::new(
                            old(self).sources().len(),
                            |i: int| old(self).sources()[i].remaining(),
                        ));
                    }
                    return None;
                },
            };
            let ghost start = positions.0@;
            let ghost start_iters = self.iters@;
            let ghost mut progressed: bool = false;
            let len = positions.len();
            let mut i: usize = 0;
            while i < len
                invariant
                    n > 0,
                    len == n,
                    0 <= i <= n,
                    argmax < n,
                    self.iters.len() == n,
                    positions.0.len() == n,
                    self.dict == old(self).dict,
                    ids == self.dict@,
                    olds.len() == n,
                    old(self).sources().len() == n,
                    forall|j: int|
                        0 <= j < n ==> #[trigger] old(self).sources()[j] == old(self).iters@[j].source(),
                    forall|j: int|
                        0 <= j < n ==> #[trigger] olds[j] == old(self).iters@[j].source().remaining(),
                    wb == well_behaved(ids, olds),
                    start.len() == n,
                    start_iters.len() == n,
                    !(forall|j: int| 0 <= j < n ==> colocated(&start[j], &start[0])),
                    forall|j: int|
                        0 <= j < n ==> compare_pos(ids, &start[j], &start[argmax as int]) != Some(
                            Ordering::Greater,
                        ),
                    positions.0@[argmax as int] == start[argmax as int],
                    forall|j: int|
                        i <= j < n ==> #[trigger] positions.0@[j] == start[j] && self.iters@[j]
                            == start_iters[j],
                    progressed ==> total_measure(self.iters@) < total_measure(start_iters),
                    !progressed ==> self.iters@ == start_iters && forall|j: int|
                        0 <= j < i ==> j == argmax || colocated(&start[j], &start[argmax as int]),
                    forall|j: int|
                        0 <= j < n ==> finite_source(&(#[trigger] self.iters@[j]).source()),
                    forall|j: int|
                        0 <= j < n ==> {
                            let o = olds[j];
                            let f = (#[trigger] self.iters@[j]).source().remaining();
                            &&& advanced(o, f)
                            &&& f.len() < o.len()
                            &&& last_taken(o, f) == Ok::<T, io::Error>(positions.0@[j])
                            &&& ids.contains(positions.0@[j].chrom_spec())
                        },
                    forall|c: Seq<char>, p: u32|
                        wb && #[trigger] common_to(ids, olds, c, p) ==> forall|j: int|
                            0 <= j < n ==> compare_spec(
                                ids,
                                c,
                                p,
                                (#[trigger] positions.0@[j]).chrom_spec(),
                                positions.0@[j].pos_spec(),
                            ) != Some(Ordering::Less),
                decreases n - i,
            {
                if i != argmax && !positions.0[i].intersect(&positions.0[argmax]) {
                    let ghost o = olds[i as int];
                    let ghost before = self.iters@[i as int].source().remaining();
                    let ghost taken = o.len() - before.len();
                    let ghost prev_iters = self.iters@;
                    let ghost m = start[argmax as int];
                    let ghost x = start[i as int];
                    proof {
                        // the source at the greatest candidate is where its eligibility is stated
                        let source_at_max = self.iters@[argmax as int];
                        assert(ids.contains(m.chrom_spec()));
                    }
                    let res = self.iters[i].search(&positions.0[argmax], &self.dict);
                    proof {
                        lemma_total_measure_update(prev_iters, i as int, self.iters@[i as int]);
                        assert(self.iters@ == prev_iters.update(i as int, self.iters@[i as int]));
                        assert(before == o.skip(taken));
                        assert(o[taken - 1] == Ok::<T, io::Error>(x));
                    }
                    match res {
                        Some(Ok(v)) => {
                            let ghost e = choose|e: int|
                                #![trigger first_search_end_at(ids, &m, before, e)]
                                first_search_end_at(ids, &m, before, e) && before[e] == res->Some_0
                                    && self.iters@[i as int].source().remaining() == before.skip(e + 1);
                            proof {
                                lemma_first_end_shift(ids, &m, o, taken, e);
                                assert(before[e] == o[taken + e]);
                                assert(self.iters@[i as int].source().remaining() == o.skip(taken + e + 1));
                                assert forall|c: Seq<char>, p: u32|
                                    wb && #[trigger] common_to(ids, olds, c, p) implies compare_spec(
                                        ids,
                                        c,
                                        p,
                                        v.chrom_spec(),
                                        v.pos_spec(),
                                    ) != Some(Ordering::Less) by {
                                    assert(occurs_in(olds[i as int], c, p));
                                    assert(sorted_by(ids, o));
                                    assert(compare_spec(ids, c, p, x.chrom_spec(), x.pos_spec())
                                        != Some(Ordering::Less));
                                    assert(compare_spec(ids, c, p, m.chrom_spec(), m.pos_spec())
                                        != Some(Ordering::Less));
                                    let k = lemma_common_ahead(ids, o, taken, x, m, c, p);
                                    lemma_compare_partial_order(ids, c, p, c, p);
                                    assert(k > taken + e ==> compare_pos(
                                        ids,
                                        &o[k]->Ok_0,
                                        &o[taken + e]->Ok_0,
                                    ) != Some(Ordering::Less));
                                }
                            }
                            positions.0.set(i, v);
                            proof {
                                progressed = true;
                            }
                        },
                        Some(Err(e)) => {
                            proof {
                                let e2 = choose|e2: int|
                                    #![trigger first_search_end_at(ids, &m, before, e2)]
                                    first_search_end_at(ids, &m, before, e2) && before[e2] == res->Some_0
                                        && self.iters@[i as int].source().remaining() == before.skip(e2 + 1);
                                assert(before[e2] == o[taken + e2]);
                                assert(self.iters@[i as int].source().remaining() == o.skip(taken + e2 + 1));
                                assert(wb ==> error_free(o));
                                self.lemma_sources();
                                assert(self.sources()[i as int] == self.iters@[i as int].source());
                                assert(olds =~= Seq::new(
                                    old(self).sources().len(),
                                    |i: int| old(self).sources()[i].remaining(),
                                ));
                            }
                            return Some(Err(e));
                        },
                        None => {
                            proof {
                                lemma_advanced(o);
                                assert(!(exists|e2: int|
                                    #![trigger first_search_end_at(ids, &m, before, e2)]
                                    first_search_end_at(ids, &m, before, e2) && before[e2] is Ok
                                        && !ids.contains(m.chrom_spec())
                                        && self.iters@[i as int].source().remaining() == before.skip(e2 + 1)));
                                assert forall|c: Seq<char>, p: u32|
                                    wb && #[trigger] common_to(ids, olds, c, p) implies false by {
                                    assert(occurs_in(olds[i as int], c, p));
                                    assert(sorted_by(ids, o));
                                    assert(compare_spec(ids, c, p, x.chrom_spec(), x.pos_spec())
                                        != Some(Ordering::Less));
                                    assert(compare_spec(ids, c, p, m.chrom_spec(), m.pos_spec())
                                        != Some(Ordering::Less));
                                    let k = lemma_common_ahead(ids, o, taken, x, m, c, p);
                                    assert(before[k - taken] == o[k]);
                                }
                                self.lemma_sources();
                                assert(self.sources()[i as int] == self.iters@[i as int].source());
                                assert(olds =~= Seq::new(
                                    old(self).sources().len(),
                                    |i: int| old(self).sources()[i].remaining(),
                                ));
                            }
                            return None;
                        },
                    }
                }
                i = i + 1;
            }
            proof {
                if !progressed {
                    assert forall|j: int| 0 <= j < n implies colocated(&start[j], &start[0]) by {
                        assert(colocated(&start[0], &start[argmax as int]) || argmax == 0);
                    }
                }
            }
        }
        proof {
            self.lemma_sources();
            assert(olds =~= Seq::new(
                old(self).sources().len(),
                |i: int| old(self).sources()[i].remaining(),
            ));
            let x0 = positions.0@[0];
            assert(self.iters@[0].source().remaining().len() < olds[0].len());
            assert(ids.contains(x0.chrom_spec()));
            assert forall|i: int| 0 <= i < n implies #[trigger] old(self).sources()[i].remaining().len()
                > 0 by {
                let x = positions.0@[i];
                assert(self.iters@[i].source().remaining().len() < olds[i].len());
            }
            assert forall|i: int| 0 <= i < n implies {
                let o = old(self).sources()[i].remaining();
                let f = self.sources()[i].remaining();
                &&& colocated(&positions.0@[i], &positions.0@[0])
                &&& f.len() < o.len()
                &&& last_taken(o, f) == Ok::<T, io::Error>(#[trigger] positions.0@[i])
            } by {
                assert(self.sources()[i] == self.iters@[i].source());
                assert(old(self).sources()[i] == old(self).iters@[i].source());
            }
        }
        Some(Ok(positions.0))
    }
}

} // verus!
