use std::cmp::Ordering;

use indexmap::IndexSet;
use vstd::prelude::*;

use crate::ChromPos;

verus! {

/// `indexmap::IndexSet`, an insertion-ordered set; its contents are named by `set_items`.
#[verifier::external_type_specification]
#[verifier::external_body]
#[verifier::reject_recursive_types(T)]
#[verifier::reject_recursive_types(S)]
pub struct ExIndexSet<T, S>(IndexSet<T, S>);

/// The IDs held by an `IndexSet`, in insertion order.
pub uninterp spec fn set_items(s: IndexSet<String>) -> Seq<Seq<char>>;

/// Relies on `IndexSet::new`: a new set is empty.
#[verifier::external_body]
fn set_new() -> (r: IndexSet<String>)
    ensures
        set_items(r) == Seq::<Seq<char>>::empty(),
{
    IndexSet::new()
}

/// Relies on `IndexSet::insert`: a value already in the set leaves it unchanged and gives
/// `false`; any other value is appended at the end and gives `true`.
#[verifier::external_body]
fn set_insert(s: &mut IndexSet<String>, value: String) -> (r: bool)
    ensures
        r == !set_items(*old(s)).contains(value@),
        set_items(*final(s)) == if set_items(*old(s)).contains(value@) {
            set_items(*old(s))
        } else {
            set_items(*old(s)).push(value@)
        },
{
    s.insert(value)
}

/// Relies on `IndexSet::contains`: whether an equal value is in the set.
#[verifier::external_body]
fn set_contains(s: &IndexSet<String>, value: &str) -> (r: bool)
    ensures
        r == set_items(*s).contains(value@),
{
    s.contains(value)
}

/// Relies on `IndexSet::get_index_of`: the index of an equal value, if there is one.
#[verifier::external_body]
fn set_index_of(s: &IndexSet<String>, value: &str) -> (r: Option<usize>)
    ensures
        match r {
            Some(i) => i < set_items(*s).len() && set_items(*s)[i as int] == value@,
            None => !set_items(*s).contains(value@),
        },
{
    s.get_index_of(value)
}

/// Relies on `IndexSet::retain`: the values for which the closure answers `true` stay, in their
/// order, and it returns normally when the closure does; here the closure asks whether `other`
/// holds the value.
#[verifier::external_body]
fn set_retain_common(s: &mut IndexSet<String>, other: &ChromDict)
    ensures
        set_items(*final(s)) == set_items(*old(s)).filter(|x: Seq<char>| other@.contains(x)),
    no_unwind
{
    s.retain(|x| other.contains_id(x))
}

/// The views of a sequence of string slices.
pub open spec fn strs_view(v: Seq<&str>) -> Seq<Seq<char>> {
    v.map_values(|s: &str| s@)
}

/// The IDs of `s` in the order of their first occurrence, each once.
pub open spec fn dedup(s: Seq<Seq<char>>) -> Seq<Seq<char>>
    decreases s.len(),
{
    if s.len() == 0 {
        s
    } else {
        let d = dedup(s.drop_last());
        if d.contains(s.last()) {
            d
        } else {
            d.push(s.last())
        }
    }
}

/// The IDs common to all `sources`, each once, in the order of the first source.
pub open spec fn intersection_spec(sources: Seq<Seq<Seq<char>>>) -> Seq<Seq<char>> {
    if sources.len() == 0 {
        Seq::empty()
    } else {
        dedup(sources[0]).filter(
            |x: Seq<char>| forall|j: int| 0 <= j < sources.len() ==> #[trigger] sources[j].contains(x),
        )
    }
}

/// The sign of `a - b` as an ordering.
pub open spec fn order_of(a: int, b: int) -> Ordering {
    if a < b {
        Ordering::Less
    } else if a == b {
        Ordering::Equal
    } else {
        Ordering::Greater
    }
}

/// The order of two positions, given by chromosome ID and coordinate, relative to the IDs
/// `ids`: `None` unless both chromosomes are among the IDs; by coordinate on one chromosome;
/// by the index of the chromosomes otherwise.
pub open spec fn compare_spec(
    ids: Seq<Seq<char>>,
    a_chrom: Seq<char>,
    a_pos: u32,
    b_chrom: Seq<char>,
    b_pos: u32,
) -> Option<Ordering> {
    if !(ids.contains(a_chrom) && ids.contains(b_chrom)) {
        None
    } else if a_chrom == b_chrom {
        Some(order_of(a_pos as int, b_pos as int))
    } else {
        Some(order_of(ids.index_of(a_chrom), ids.index_of(b_chrom)))
    }
}

/// `compare_spec` on two positions.
pub open spec fn compare_pos<T: ChromPos>(ids: Seq<Seq<char>>, a: &T, b: &T) -> Option<Ordering> {
    compare_spec(ids, a.chrom_spec(), a.pos_spec(), b.chrom_spec(), b.pos_spec())
}

proof fn lemma_dedup(s: Seq<Seq<char>>)
    ensures
        dedup(s).no_duplicates(),
        forall|x: Seq<char>| #[trigger] dedup(s).contains(x) <==> s.contains(x),
    decreases s.len(),
{
    if s.len() > 0 {
        lemma_dedup(s.drop_last());
        let d = dedup(s.drop_last());
        assert forall|x: Seq<char>| #[trigger] dedup(s).contains(x) <==> s.contains(x) by {
            if s.contains(x) {
                let i = choose|i: int| 0 <= i < s.len() && s[i] == x;
                if i < s.len() - 1 {
                    assert(s.drop_last()[i] == x);
                    assert(d.contains(x));
                    if !d.contains(s.last()) {
                        let k = choose|k: int| 0 <= k < d.len() && d[k] == x;
                        assert(d.push(s.last())[k] == x);
                    }
                } else if !d.contains(s.last()) {
                    assert(d.push(s.last())[d.len() as int] == x);
                }
            }
            if dedup(s).contains(x) {
                if d.contains(x) {
                    let i = choose|i: int| 0 <= i < s.drop_last().len() && s.drop_last()[i] == x;
                    assert(s[i] == x);
                } else {
                    let k = choose|k: int| 0 <= k < dedup(s).len() && dedup(s)[k] == x;
                    if k < d.len() {
                        assert(d[k] == x);
                    }
                    assert(s[s.len() - 1] == x);
                }
            }
        }
    }
}

proof fn lemma_filter_no_duplicates(s: Seq<Seq<char>>, p: spec_fn(Seq<char>) -> bool)
    requires
        s.no_duplicates(),
    ensures
        s.filter(p).no_duplicates(),
        forall|x: Seq<char>| #[trigger] s.filter(p).contains(x) <==> s.contains(x) && p(x),
    decreases s.len(),
{
    reveal(Seq::filter);
    broadcast use vstd::seq_lib::group_filter_ensures;
    if s.len() > 0 {
        let t = s.drop_last();
        assert(t.no_duplicates());
        lemma_filter_no_duplicates(t, p);
        assert forall|x: Seq<char>| #[trigger] s.filter(p).contains(x) <==> s.contains(x) && p(x) by {
            if s.contains(x) && p(x) {
                let i = choose|i: int| 0 <= i < s.len() && s[i] == x;
                assert(s.filter(p).contains(s[i]));
            }
            if s.filter(p).contains(x) {
                let k = choose|k: int| 0 <= k < s.filter(p).len() && s.filter(p)[k] == x;
                assert(p(s.filter(p)[k]));
                if t.filter(p).contains(x) {
                    let i = choose|i: int| 0 <= i < t.len() && t[i] == x;
                    assert(s[i] == x);
                } else {
                    if k < t.filter(p).len() {
                        assert(t.filter(p)[k] == x);
                    }
                    assert(s[s.len() - 1] == x);
                }
            }
        }
        if p(s.last()) {
            assert(!t.contains(s.last())) by {
                if t.contains(s.last()) {
                    let i = choose|i: int| 0 <= i < t.len() && t[i] == s.last();
                    assert(s[i] == s[s.len() - 1]);
                }
            }
            let tf = t.filter(p);
            let f = s.filter(p);
            assert(f == tf.push(s.last()));
            assert forall|i: int, j: int| 0 <= i < f.len() && 0 <= j < f.len() && i != j implies f[i]
                != f[j] by {
                if i < tf.len() && j < tf.len() {
                    assert(f[i] == tf[i] && f[j] == tf[j]);
                } else if i < tf.len() {
                    assert(f[i] == tf[i]);
                    assert(tf.contains(f[i]));
                } else {
                    assert(f[j] == tf[j]);
                    assert(tf.contains(f[j]));
                }
            }
        } else {
            assert(s.filter(p) == t.filter(p));
        }
    }
}

proof fn lemma_filter_all(s: Seq<Seq<char>>, p: spec_fn(Seq<char>) -> bool)
    requires
        forall|i: int| 0 <= i < s.len() ==> p(#[trigger] s[i]),
    ensures
        s.filter(p) == s,
    decreases s.len(),
{
    reveal(Seq::filter);
    if s.len() > 0 {
        lemma_filter_all(s.drop_last(), p);
        assert(p(s[s.len() - 1]));
        assert(s.drop_last().push(s.last()) == s);
    }
}

proof fn lemma_filter_filter(
    s: Seq<Seq<char>>,
    p: spec_fn(Seq<char>) -> bool,
    q: spec_fn(Seq<char>) -> bool,
    both: spec_fn(Seq<char>) -> bool,
)
    requires
        forall|x: Seq<char>| #[trigger] both(x) == (p(x) && q(x)),
    ensures
        s.filter(p).filter(q) == s.filter(both),
    decreases s.len(),
{
    reveal(Seq::filter);
    if s.len() > 0 {
        lemma_filter_filter(s.drop_last(), p, q, both);
        let fp = s.drop_last().filter(p);
        if p(s.last()) {
            assert(s.filter(p).drop_last() == fp);
        } else {
            assert(s.filter(p) == fp);
        }
    }
}

/// Dictionary order is a partial order on positions: it is defined exactly when both chromosomes
/// are in the dictionary, it is antisymmetric, it calls two positions equal only when they are
/// colocated, it orders one chromosome by coordinate and two chromosomes by their index in the
/// dictionary.
pub proof fn lemma_compare_partial_order(
    ids: Seq<Seq<char>>,
    a_chrom: Seq<char>,
    a_pos: u32,
    b_chrom: Seq<char>,
    b_pos: u32,
)
    ensures
        compare_spec(ids, a_chrom, a_pos, b_chrom, b_pos) is None <==> !(ids.contains(a_chrom)
            && ids.contains(b_chrom)),
        compare_spec(ids, a_chrom, a_pos, b_chrom, b_pos) == Some(Ordering::Less) <==> compare_spec(
            ids,
            b_chrom,
            b_pos,
            a_chrom,
            a_pos,
        ) == Some(Ordering::Greater),
        compare_spec(ids, a_chrom, a_pos, b_chrom, b_pos) == Some(Ordering::Equal) <==> (ids.contains(
            a_chrom,
        ) && a_chrom == b_chrom && a_pos == b_pos),
        ids.contains(a_chrom) && a_chrom == b_chrom ==> compare_spec(
            ids,
            a_chrom,
            a_pos,
            b_chrom,
            b_pos,
        ) == Some(order_of(a_pos as int, b_pos as int)),
        ids.contains(a_chrom) && ids.contains(b_chrom) && a_chrom != b_chrom ==> {
            let i = ids.index_of(a_chrom);
            let j = ids.index_of(b_chrom);
            &&& 0 <= i < ids.len() && ids[i] == a_chrom
            &&& 0 <= j < ids.len() && ids[j] == b_chrom
            &&& compare_spec(ids, a_chrom, a_pos, b_chrom, b_pos) == Some(order_of(i, j))
            &&& i != j
        },
{
    if ids.contains(a_chrom) && ids.contains(b_chrom) && a_chrom != b_chrom {
        let i = ids.index_of(a_chrom);
        let j = ids.index_of(b_chrom);
        assert(ids[i] == a_chrom && ids[j] == b_chrom);
    }
}

/// Dictionary order is transitive.
pub proof fn lemma_compare_transitive(
    ids: Seq<Seq<char>>,
    a_chrom: Seq<char>,
    a_pos: u32,
    b_chrom: Seq<char>,
    b_pos: u32,
    c_chrom: Seq<char>,
    c_pos: u32,
)
    requires
        compare_spec(ids, a_chrom, a_pos, b_chrom, b_pos) == Some(Ordering::Less),
        compare_spec(ids, b_chrom, b_pos, c_chrom, c_pos) == Some(Ordering::Less),
    ensures
        compare_spec(ids, a_chrom, a_pos, c_chrom, c_pos) == Some(Ordering::Less),
{
    lemma_compare_partial_order(ids, a_chrom, a_pos, b_chrom, b_pos);
    lemma_compare_partial_order(ids, b_chrom, b_pos, c_chrom, c_pos);
    lemma_compare_partial_order(ids, a_chrom, a_pos, c_chrom, c_pos);
}

/// Building a dictionary from one sequence of IDs gives the same IDs as intersecting that
/// sequence with itself, or taking it as the only source.
pub proof fn lemma_intersection_idempotent(ids: Seq<Seq<char>>)
    ensures
        intersection_spec(seq![ids, ids]) == dedup(ids),
        intersection_spec(seq![ids]) == dedup(ids),
{
    lemma_dedup(ids);
    let d = dedup(ids);
    let two = seq![ids, ids];
    let one = seq![ids];
    let p2 = |x: Seq<char>| forall|j: int| 0 <= j < two.len() ==> #[trigger] two[j].contains(x);
    let p1 = |x: Seq<char>| forall|j: int| 0 <= j < one.len() ==> #[trigger] one[j].contains(x);
    assert forall|i: int| 0 <= i < d.len() implies #[trigger] p2(d[i]) && p1(d[i]) by {
        assert(d.contains(d[i]));
    }
    lemma_filter_all(d, p2);
    lemma_filter_all(d, p1);
}

/// `x` is in every one of `sources`.
pub open spec fn in_all(sources: Seq<Seq<Seq<char>>>, x: Seq<char>) -> bool {
    forall|j: int| 0 <= j < sources.len() ==> #[trigger] sources[j].contains(x)
}

/// With no ID common to all sources, the intersection is empty.
pub proof fn lemma_no_common_ids(sources: Seq<Seq<Seq<char>>>)
    requires
        forall|x: Seq<char>| !#[trigger] in_all(sources, x),
    ensures
        intersection_spec(sources) == Seq::<Seq<char>>::empty(),
{
    if sources.len() > 0 {
        let d = dedup(sources[0]);
        let p = |x: Seq<char>| forall|j: int| 0 <= j < sources.len() ==> #[trigger] sources[j].contains(x);
        reveal(Seq::filter);
        broadcast use vstd::seq_lib::group_filter_ensures;
        if d.filter(p).len() > 0 {
            let x = d.filter(p)[0];
            assert(p(x));
            assert(in_all(sources, x));
        }
        assert(d.filter(p).len() == 0);
    }
}

/// Ordered chromosome dictionary.
///
/// Merging positions across ordered sources needs the subset of chromosomes that occur in all
/// sources, and the order of that subset: this is the chromosome dictionary. The IDs of each
/// source typically come from a header, and [`from_intersection`](Self::from_intersection)
/// builds the dictionary from them.
#[derive(Debug, PartialEq, Eq)]
pub struct ChromDict(IndexSet<String>);

impl View for ChromDict {
    type V = Seq<Seq<char>>;

    /// The IDs, in dictionary order.
    closed spec fn view(&self) -> Seq<Seq<char>> {
        set_items(self.0)
    }
}

impl ChromDict {
    /// No ID occurs twice.
    #[verifier::type_invariant]
    closed spec fn inv(&self) -> bool {
        set_items(self.0).no_duplicates()
    }

    /// Order positions relative to the dictionary.
    ///
    /// If both positions are on chromosomes in the dictionary, returns the ordering of the
    /// positions. Otherwise, returns `None`.
    pub fn compare<T: ChromPos>(&self, first: &T, second: &T) -> (r: Option<Ordering>)
        ensures
            r == compare_pos(self@, first, second),
    {
        proof {
            use_type_invariant(self);
        }
        if !(self.contains(first) && self.contains(second)) {
            return None;
        }
        if *first.chrom() == *second.chrom() {
            Some(first.pos().cmp(&second.pos()))
        } else {
            let i = set_index_of(&self.0, first.chrom());
            let j = set_index_of(&self.0, second.chrom());
            match (i, j) {
                (Some(i), Some(j)) => {
                    proof {
                        let ids = self@;
                        let a = first.chrom_spec();
                        let b = second.chrom_spec();
                        assert(ids.index_of(a) == i as int) by {
                            let k = ids.index_of(a);
                            assert(ids[k] == a && ids[i as int] == a);
                        }
                        assert(ids.index_of(b) == j as int) by {
                            let k = ids.index_of(b);
                            assert(ids[k] == b && ids[j as int] == b);
                        }
                    }
                    Some(i.cmp(&j))
                },
                _ => None,
            }
        }
    }

    /// Checks whether a position is on a chromosome in the dictionary.
    pub fn contains<T: ChromPos>(&self, chrom_pos: &T) -> (r: bool)
        ensures
            r == self@.contains(chrom_pos.chrom_spec()),
    {
        set_contains(&self.0, chrom_pos.chrom())
    }

    /// Checks whether a chromosome ID is in the dictionary.
    pub fn contains_id(&self, id: &str) -> (r: bool)
        ensures
            r == self@.contains(id@),
    {
        set_contains(&self.0, id)
    }

    fn set_from_ids(ids: &Vec<&str>) -> (r: IndexSet<String>)
        ensures
            set_items(r) == dedup(strs_view(ids@)),
            set_items(r).no_duplicates(),
    {
        let mut set = set_new();
        let mut i: usize = 0;
        while i < ids.len()
            invariant
                i <= ids.len(),
                set_items(set) == dedup(strs_view(ids@).take(i as int)),
            decreases ids.len() - i,
        {
            let id: &str = ids[i];
            set_insert(&mut set, id.to_owned());
            proof {
                let v = strs_view(ids@);
                assert(v.take(i + 1).drop_last() == v.take(i as int));
                assert(v.take(i + 1).last() == id@);
            }
            i = i + 1;
        }
        proof {
            assert(strs_view(ids@).take(ids.len() as int) == strs_view(ids@));
            lemma_dedup(strs_view(ids@));
        }
        set
    }

    /// Create a dictionary from chromosome IDs, in the order of their first occurrence.
    ///
    /// See [`from_intersection`](Self::from_intersection) for a dictionary of several sources.
    pub fn from_ids(ids: Vec<&str>) -> (r: Self)
        ensures
            r@ == dedup(strs_view(ids@)),
    {
        ChromDict(Self::set_from_ids(&ids))
    }

    /// Create a dictionary from the intersection of chromosome IDs from several sources.
    ///
    /// Keeps the IDs found in every source, in the order of the first source. The IDs are
    /// assumed to be sorted the same way in each source. With no source, or a source with no ID,
    /// the dictionary is empty.
    pub fn from_intersection(id_sources: Vec<Vec<&str>>) -> (r: Self)
        ensures
            r@ == intersection_spec(id_sources@.map_values(|v: Vec<&str>| strs_view(v@))),
    {
        let ghost srcs = id_sources@.map_values(|v: Vec<&str>| strs_view(v@));
        if id_sources.len() == 0 {
            return Self::new();
        }
        let mut dict = ChromDict(Self::set_from_ids(&id_sources[0]));
        proof {
            lemma_dedup(srcs[0]);
            let d = dedup(srcs[0]);
            let p1 = |x: Seq<char>| forall|k: int| 0 <= k < 1 ==> #[trigger] srcs[k].contains(x);
            assert forall|i: int| 0 <= i < d.len() implies #[trigger] p1(d[i]) by {
                assert(d.contains(d[i]));
            }
            lemma_filter_all(d, p1);
        }
        let mut j: usize = 1;
        while j < id_sources.len()
            invariant
                1 <= j <= id_sources.len(),
                srcs == id_sources@.map_values(|v: Vec<&str>| strs_view(v@)),
                dict@ == dedup(srcs[0]).filter(
                    |x: Seq<char>| forall|k: int| 0 <= k < j ==> #[trigger] srcs[k].contains(x),
                ),
            decreases id_sources.len() - j,
        {
            let other = ChromDict(Self::set_from_ids(&id_sources[j]));
            proof {
                lemma_dedup(srcs[j as int]);
            }
            dict.intersect(&other);
            proof {
                let pj = |x: Seq<char>| forall|k: int| 0 <= k < j ==> #[trigger] srcs[k].contains(x);
                let pn = |x: Seq<char>|
                    forall|k: int| 0 <= k < j + 1 ==> #[trigger] srcs[k].contains(x);
                let q = |x: Seq<char>| other@.contains(x);
                assert forall|x: Seq<char>| #[trigger] pn(x) == (pj(x) && q(x)) by {
                    if pj(x) && q(x) {
                        assert forall|k: int| 0 <= k < j + 1 implies #[trigger] srcs[k].contains(x) by {
                            if k < j {
                                assert(pj(x));
                            }
                        }
                    }
                    if pn(x) {
                        assert(srcs[j as int].contains(x));
                    }
                }
                lemma_filter_filter(dedup(srcs[0]), pj, q, pn);
            }
            j = j + 1;
        }
        dict
    }

    /// An empty dictionary.
    pub fn new() -> (r: Self)
        ensures
            r@ == Seq::<Seq<char>>::empty(),
    {
        ChromDict(set_new())
    }

    /// Intersect dictionaries.
    ///
    /// Subset `self` to only contain entries also found in `other`, keeping their order.
    pub fn intersect(&mut self, other: &Self)
        ensures
            final(self)@ == old(self)@.filter(|x: Seq<char>| other@.contains(x)),
    {
        proof {
            use_type_invariant(&*self);
            lemma_filter_no_duplicates(self@, |x: Seq<char>| other@.contains(x));
        }
        set_retain_common(&mut self.0, other);
    }
}

impl Default for ChromDict {
    fn default() -> (r: Self)
        ensures
            r@ == Seq::<Seq<char>>::empty(),
    {
        Self::new()
    }
}

} // verus!
