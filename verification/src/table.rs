//! The station table: an ordered mapping from station names to aggregates.
//!
//! Entries are kept sorted by byte-lexicographic name at all times, so the
//! final report can be emitted by a single pass.  The ghost model of a table
//! is a map from each station name to the multiset of fixed-point values
//! recorded for it; every operation is specified against that model, and the
//! merge of two tables is proved to be the key-wise multiset union, which is
//! commutative and associative.

use crate::aggregate::Aggregate;
use crate::keys::KeyOrder;
use crate::keys::lemma_lex_irrefl;
use crate::keys::lemma_lex_transitive;
use crate::keys::lex_cmp;
use crate::keys::lex_lt;
use vstd::map::*;
use vstd::multiset::Multiset;
use vstd::prelude::*;

verus! {

broadcast use
    vstd::multiset::group_multiset_axioms,
    vstd::map::group_map_axioms,
    vstd::set::group_set_axioms,
;

/// Ghost model of a table: each station name maps to the multiset of all
/// fixed-point values recorded under that name.
pub type StationModel = Map<Seq<u8>, Multiset<int>>;

/// Fold one station's multiset of values into a model.
pub open spec fn merge_into(m: StationModel, k: Seq<u8>, vs: Multiset<int>) -> StationModel {
    if m.dom().contains(k) {
        m.insert(k, m[k].add(vs))
    } else {
        m.insert(k, vs)
    }
}

/// Fold a single recorded value into a model.
pub open spec fn record_into(m: StationModel, k: Seq<u8>, v: int) -> StationModel {
    merge_into(m, k, Multiset::empty().insert(v))
}

/// Key-wise multiset union of two models: the model of everything both
/// tables have recorded.
pub open spec fn model_union(m1: StationModel, m2: StationModel) -> StationModel {
    Map::new(
        |k: Seq<u8>| m1.dom().contains(k) || m2.dom().contains(k),
        |k: Seq<u8>|
            if m1.dom().contains(k) && m2.dom().contains(k) {
                m1[k].add(m2[k])
            } else if m1.dom().contains(k) {
                m1[k]
            } else {
                m2[k]
            },
    )
}

/// A table of per-station aggregates, sorted by station name.
pub struct StationTable {
    pub entries: Vec<(Vec<u8>, Aggregate)>,
}

impl StationTable {
    /// The name of the entry at index `i`.
    pub open spec fn key_at(self, i: int) -> Seq<u8> {
        self.entries@[i].0@
    }

    /// Entries are strictly sorted by name (hence names are unique) and every
    /// aggregate is well formed.
    pub open spec fn wf(self) -> bool {
        &&& forall|i: int, j: int|
            0 <= i < j < self.entries@.len() ==> lex_lt(
                #[trigger] self.key_at(i),
                #[trigger] self.key_at(j),
            )
        &&& forall|i: int|
            0 <= i < self.entries@.len() ==> (#[trigger] self.entries@[i].1).wf()
    }

    /// Whether some entry carries the name `k`.
    pub open spec fn has_name(self, k: Seq<u8>) -> bool {
        exists|i: int| 0 <= i < self.entries@.len() && self.key_at(i) == k
    }

    /// The index of the entry named `k` (meaningful only when `has_name(k)`).
    pub open spec fn index_of(self, k: Seq<u8>) -> int {
        choose|i: int| 0 <= i < self.entries@.len() && self.key_at(i) == k
    }

    /// The table's ghost model.
    pub open spec fn model(self) -> StationModel {
        Map::new(
            |k: Seq<u8>| self.has_name(k),
            |k: Seq<u8>| self.entries@[self.index_of(k)].1.vals@,
        )
    }

    /// In a well-formed table each name occurs once, so the entry at index
    /// `i` is exactly what the model says about its name.
    pub proof fn lemma_key_at_index(self, i: int)
        requires
            self.wf(),
            0 <= i < self.entries@.len(),
        ensures
            self.has_name(self.key_at(i)),
            self.index_of(self.key_at(i)) == i,
            self.model().dom().contains(self.key_at(i)),
            self.model()[self.key_at(i)] == self.entries@[i].1.vals@,
    {
        let k = self.key_at(i);
        assert(self.has_name(k));
        let j = self.index_of(k);
        if j < i {
            assert(lex_lt(self.key_at(j), self.key_at(i)));
            lemma_lex_irrefl(k);
        } else if j > i {
            assert(lex_lt(self.key_at(i), self.key_at(j)));
            lemma_lex_irrefl(k);
        }
    }

    /// An empty table.
    pub fn new() -> (t: StationTable)
        ensures
            t.wf(),
            t.model() == Map::<Seq<u8>, Multiset<int>>::empty(),
    {
        let t = StationTable { entries: Vec::new() };
        proof {
            assert(t.model() =~= Map::<Seq<u8>, Multiset<int>>::empty());
        }
        t
    }

    /// How many distinct stations the table holds.
    pub fn num_stations(&self) -> (n: usize)
        ensures
            n == self.entries@.len(),
    {
        self.entries.len()
    }

    /// The largest count over all entries; zero for an empty table.  A caller
    /// about to add `n` more values can test `max_count() + n` against the
    /// counter's range before calling in.
    pub fn max_count(&self) -> (n: u64)
        requires
            self.wf(),
        ensures
            forall|k: Seq<u8>| self.model().dom().contains(k) ==> self.model()[k].len() <= n,
            self.entries@.len() == 0 ==> n == 0,
            self.entries@.len() > 0 ==> exists|k: Seq<u8>|
                self.model().dom().contains(k) && self.model()[k].len() == n,
    {
        let mut n: u64 = 0;
        let mut i: usize = 0;
        while i < self.entries.len()
            invariant
                0 <= i <= self.entries@.len(),
                self.wf(),
                forall|j: int| 0 <= j < i ==> (#[trigger] self.entries@[j].1).count <= n,
                i == 0 ==> n == 0,
                i > 0 ==> exists|j: int| 0 <= j < i && (#[trigger] self.entries@[j].1).count == n,
            decreases self.entries@.len() - i,
        {
            if self.entries[i].1.count > n {
                n = self.entries[i].1.count;
            }
            proof {
                if self.entries@[i as int].1.count == n {
                    assert(exists|j: int|
                        0 <= j < i + 1 && (#[trigger] self.entries@[j].1).count == n);
                }
            }
            i = i + 1;
        }
        proof {
            assert forall|k: Seq<u8>| self.model().dom().contains(k) implies self.model()[k].len()
                <= n by {
                let j = self.index_of(k);
                self.lemma_key_at_index(j);
            }
            if self.entries@.len() > 0 {
                let j = choose|j: int|
                    0 <= j < self.entries@.len() && (#[trigger] self.entries@[j].1).count == n;
                self.lemma_key_at_index(j);
                assert(self.model()[self.key_at(j)].len() == n);
            }
        }
        n
    }

    /// Where `name` stands or belongs: the first index whose entry is not
    /// below `name`, and whether that entry carries `name` itself.
    fn find_slot(&self, name: &[u8]) -> (r: (usize, bool))
        requires
            self.wf(),
        ensures
            r.0 <= self.entries@.len(),
            forall|j: int| 0 <= j < r.0 ==> lex_lt(#[trigger] self.key_at(j), name@),
            r.1 ==> r.0 < self.entries@.len() && self.key_at(r.0 as int) == name@,
            !r.1 ==> (r.0 == self.entries@.len() || lex_lt(name@, self.key_at(r.0 as int))),
    {
        let mut i: usize = 0;
        while i < self.entries.len()
            invariant
                0 <= i <= self.entries@.len(),
                self.wf(),
                forall|j: int| 0 <= j < i ==> lex_lt(#[trigger] self.key_at(j), name@),
            decreases self.entries@.len() - i,
        {
            let o = lex_cmp(self.entries[i].0.as_slice(), name);
            if o == KeyOrder::Equal {
                return (i, true);
            }
            if o == KeyOrder::Greater {
                return (i, false);
            }
            i = i + 1;
        }
        (i, false)
    }

    /// Fold a whole aggregate into the table under `name`, keeping the
    /// entries sorted: combine with the existing entry, or insert a new one
    /// at its place.
    pub fn add_aggregate(&mut self, name: Vec<u8>, agg: Aggregate)
        requires
            old(self).wf(),
            agg.wf(),
            old(self).has_name(name@) ==> old(self).model()[name@].len() + agg.count
                <= u64::MAX,
        ensures
            final(self).wf(),
            final(self).model() == merge_into(old(self).model(), name@, agg.vals@),
    {
        let (p, found) = self.find_slot(name.as_slice());
        if found {
            proof {
                old(self).lemma_key_at_index(p as int);
            }
            let (kept_name, mut a) = self.entries.remove(p);
            a.combine(&agg);
            self.entries.insert(p, (kept_name, a));
            proof {
                assert(self.entries@ =~= old(self).entries@.update(p as int, (kept_name, a)));
                lemma_model_after_update(*old(self), *self, p as int, agg.vals@);
            }
        } else {
            self.entries.insert(p, (name, agg));
            proof {
                lemma_model_after_insert(*old(self), *self, p as int);
            }
        }
    }

    /// Record one measurement for `name`: the model gains one occurrence of
    /// the value under that station.
    pub fn add_value(&mut self, name: Vec<u8>, v: i16)
        requires
            old(self).wf(),
            old(self).has_name(name@) ==> old(self).model()[name@].len() < u64::MAX,
        ensures
            final(self).wf(),
            final(self).model() == record_into(old(self).model(), name@, v as int),
    {
        let agg = Aggregate::new(v);
        self.add_aggregate(name, agg);
    }
}

/// After replacing the aggregate at index `p` by one that has absorbed the
/// extra values `vs`, the table's model is the old model with `vs` folded
/// into that entry's station.
proof fn lemma_model_after_update(pre: StationTable, post: StationTable, p: int, vs: Multiset<int>)
    requires
        pre.wf(),
        0 <= p < pre.entries@.len(),
        post.entries@.len() == pre.entries@.len(),
        forall|i: int|
            0 <= i < pre.entries@.len() && i != p ==> post.entries@[i] == pre.entries@[i],
        post.key_at(p) == pre.key_at(p),
        post.entries@[p].1.wf(),
        post.entries@[p].1.vals@ == pre.entries@[p].1.vals@.add(vs),
    ensures
        post.wf(),
        post.model() == merge_into(pre.model(), pre.key_at(p), vs),
{
    assert(forall|i: int| 0 <= i < pre.entries@.len() ==> post.key_at(i) == pre.key_at(i));
    assert(post.wf());
    let k = pre.key_at(p);
    pre.lemma_key_at_index(p);
    post.lemma_key_at_index(p);
    assert forall|q: Seq<u8>| true implies #[trigger] post.has_name(q) == pre.has_name(q) by {
        if pre.has_name(q) {
            let i = choose|i: int| 0 <= i < pre.entries@.len() && pre.key_at(i) == q;
            assert(post.key_at(i) == q);
        }
        if post.has_name(q) {
            let i = choose|i: int| 0 <= i < post.entries@.len() && post.key_at(i) == q;
            assert(pre.key_at(i) == q);
        }
    }
    assert forall|q: Seq<u8>| post.has_name(q) && q != k implies post.model()[q]
        == pre.model()[q] by {
        let i = choose|i: int| 0 <= i < pre.entries@.len() && pre.key_at(i) == q;
        pre.lemma_key_at_index(i);
        post.lemma_key_at_index(i);
        assert(i != p);
    }
    assert(post.model() =~= merge_into(pre.model(), k, vs));
}

/// After inserting a fresh entry at its sorted place `p`, the table is still
/// sorted and its model is the old model with the new aggregate's values
/// folded in under the new name.
proof fn lemma_model_after_insert(pre: StationTable, post: StationTable, p: int)
    requires
        pre.wf(),
        0 <= p <= pre.entries@.len(),
        post.entries@.len() == pre.entries@.len() + 1,
        forall|i: int| 0 <= i < p ==> post.entries@[i] == pre.entries@[i],
        forall|i: int|
            p < i < post.entries@.len() ==> post.entries@[i] == pre.entries@[i - 1],
        post.entries@[p].1.wf(),
        forall|j: int| 0 <= j < p ==> lex_lt(#[trigger] pre.key_at(j), post.key_at(p)),
        p < pre.entries@.len() ==> lex_lt(post.key_at(p), pre.key_at(p)),
    ensures
        post.wf(),
        post.model() == merge_into(pre.model(), post.key_at(p), post.entries@[p].1.vals@),
{
    let k = post.key_at(p);
    assert forall|i: int, j: int| 0 <= i < j < post.entries@.len() implies lex_lt(
        #[trigger] post.key_at(i),
        #[trigger] post.key_at(j),
    ) by {
        if i < p {
            assert(post.key_at(i) == pre.key_at(i));
        }
        if i > p {
            assert(post.key_at(i) == pre.key_at(i - 1));
        }
        if j < p {
            assert(post.key_at(j) == pre.key_at(j));
        }
        if j > p {
            assert(post.key_at(j) == pre.key_at(j - 1));
        }
        if j < p || i > p {
            assert(lex_lt(pre.key_at(i), pre.key_at(j)) || lex_lt(
                pre.key_at(i - 1),
                pre.key_at(j - 1),
            ));
        } else if i < p && j == p {
            assert(lex_lt(pre.key_at(i), k));
        } else if i == p && j > p {
            if j - 1 > p {
                assert(lex_lt(pre.key_at(p), pre.key_at(j - 1)));
                lemma_lex_transitive(k, pre.key_at(p), pre.key_at(j - 1));
            }
        } else if i < p && j > p {
            if i < j - 1 {
                assert(lex_lt(pre.key_at(i), pre.key_at(j - 1)));
            } else {
                assert(j - 1 == p);
                assert(lex_lt(pre.key_at(i), k));
                lemma_lex_transitive(pre.key_at(i), k, pre.key_at(p));
            }
        }
    }
    assert(post.wf());
    assert(!pre.has_name(k)) by {
        if pre.has_name(k) {
            let i = choose|i: int| 0 <= i < pre.entries@.len() && pre.key_at(i) == k;
            if i < p {
                assert(lex_lt(pre.key_at(i), k));
                lemma_lex_irrefl(k);
            } else {
                assert(lex_lt(k, pre.key_at(p)));
                if i > p {
                    assert(lex_lt(pre.key_at(p), pre.key_at(i)));
                    lemma_lex_transitive(k, pre.key_at(p), pre.key_at(i));
                }
                lemma_lex_irrefl(k);
            }
        }
    }
    post.lemma_key_at_index(p);
    assert forall|q: Seq<u8>| pre.has_name(q) implies post.has_name(q) && post.model()[q]
        == pre.model()[q] by {
        let i = choose|i: int| 0 <= i < pre.entries@.len() && pre.key_at(i) == q;
        pre.lemma_key_at_index(i);
        if i < p {
            assert(post.key_at(i) == q);
            post.lemma_key_at_index(i);
        } else {
            assert(post.key_at(i + 1) == q);
            post.lemma_key_at_index(i + 1);
        }
    }
    assert forall|q: Seq<u8>| post.has_name(q) && q != k implies pre.has_name(q) by {
        let i = choose|i: int| 0 <= i < post.entries@.len() && post.key_at(i) == q;
        if i < p {
            assert(pre.key_at(i) == q);
        } else {
            assert(i > p);
            assert(pre.key_at(i - 1) == q);
        }
    }
    assert(post.model() =~= merge_into(pre.model(), k, post.entries@[p].1.vals@));
}

/// The union with an empty model changes nothing.
pub proof fn lemma_union_empty(m: StationModel)
    ensures
        model_union(m, Map::empty()) == m,
        model_union(Map::empty(), m) == m,
{
    assert(model_union(m, Map::empty()) =~= m);
    assert(model_union(Map::empty(), m) =~= m);
}

/// Merging models is commutative: the outcome does not depend on which
/// worker's table is folded into which.
pub proof fn lemma_union_commutative(a: StationModel, b: StationModel)
    ensures
        model_union(a, b) == model_union(b, a),
{
    assert forall|k: Seq<u8>| #[trigger] model_union(a, b).dom().contains(k) implies model_union(
        a,
        b,
    )[k] == model_union(b, a)[k] by {
        if a.dom().contains(k) && b.dom().contains(k) {
            assert(a[k].add(b[k]) =~= b[k].add(a[k]));
        }
    }
    assert(model_union(a, b) =~= model_union(b, a));
}

/// Merging models is associative: any pairwise reduction order over the
/// workers' tables gives the same result.
pub proof fn lemma_union_associative(a: StationModel, b: StationModel, c: StationModel)
    ensures
        model_union(model_union(a, b), c) == model_union(a, model_union(b, c)),
{
    let l = model_union(model_union(a, b), c);
    let r = model_union(a, model_union(b, c));
    assert forall|k: Seq<u8>| #[trigger] l.dom().contains(k) implies l[k] == r[k] by {
        if a.dom().contains(k) && b.dom().contains(k) && c.dom().contains(k) {
            assert(a[k].add(b[k]).add(c[k]) =~= a[k].add(b[k].add(c[k])));
        }
    }
    assert(l =~= r);
}

/// Folding one station into the right operand of a union is the same as
/// folding it into the union itself.
pub proof fn lemma_merge_into_union(
    a: StationModel,
    b: StationModel,
    k: Seq<u8>,
    vs: Multiset<int>,
)
    ensures
        merge_into(model_union(a, b), k, vs) == model_union(a, merge_into(b, k, vs)),
{
    let l = merge_into(model_union(a, b), k, vs);
    let r = model_union(a, merge_into(b, k, vs));
    assert forall|q: Seq<u8>| #[trigger] l.dom().contains(q) implies l[q] == r[q] by {
        if q == k {
            if a.dom().contains(k) && b.dom().contains(k) {
                assert(a[k].add(b[k]).add(vs) =~= a[k].add(b[k].add(vs)));
            }
        }
    }
    assert(l =~= r);
}

/// The model described by a sequence of table entries: every entry's multiset
/// folded in under its name, in order.
pub open spec fn entries_model(s: Seq<(Vec<u8>, Aggregate)>) -> StationModel
    decreases s.len(),
{
    if s.len() == 0 {
        Map::empty()
    } else {
        merge_into(entries_model(s.drop_last()), s.last().0@, s.last().1.vals@)
    }
}

/// With pairwise-distinct names, the folded model reads back exactly the
/// entries it was folded from.
proof fn lemma_entries_model_char(s: Seq<(Vec<u8>, Aggregate)>)
    requires
        forall|i: int, j: int| 0 <= i < j < s.len() ==> (#[trigger] s[i]).0@ != (#[trigger] s[j]).0@,
    ensures
        forall|i: int|
            0 <= i < s.len() ==> entries_model(s).dom().contains((#[trigger] s[i]).0@)
                && entries_model(s)[s[i].0@] == s[i].1.vals@,
        forall|k: Seq<u8>|
            #[trigger] entries_model(s).dom().contains(k) ==> exists|i: int|
                0 <= i < s.len() && (#[trigger] s[i]).0@ == k,
    decreases s.len(),
{
    if s.len() > 0 {
        let s0 = s.drop_last();
        lemma_entries_model_char(s0);
        let klast = s.last().0@;
        assert(forall|i: int| 0 <= i < s0.len() ==> s0[i] == s[i]);
        assert(!entries_model(s0).dom().contains(klast)) by {
            if entries_model(s0).dom().contains(klast) {
                let i = choose|i: int| 0 <= i < s0.len() && s0[i].0@ == klast;
                assert(s[i].0@ != s[s.len() - 1].0@);
            }
        }
        assert forall|k: Seq<u8>| #[trigger] entries_model(s).dom().contains(k) implies exists|
            i: int,
        | 0 <= i < s.len() && (#[trigger] s[i]).0@ == k by {
            if k == klast {
                assert(s[s.len() - 1].0@ == k);
            } else {
                let i = choose|i: int| 0 <= i < s0.len() && s0[i].0@ == k;
                assert(s[i].0@ == k);
            }
        }
    }
}

/// A well-formed table's model is the fold of its entries.
pub proof fn lemma_table_model(t: StationTable)
    requires
        t.wf(),
    ensures
        entries_model(t.entries@) == t.model(),
{
    let s = t.entries@;
    assert forall|i: int, j: int| 0 <= i < j < s.len() implies (#[trigger] s[i]).0@ != (
    #[trigger] s[j]).0@ by {
        if s[i].0@ == s[j].0@ {
            assert(lex_lt(t.key_at(i), t.key_at(j)));
            lemma_lex_irrefl(t.key_at(i));
        }
    }
    lemma_entries_model_char(s);
    assert forall|k: Seq<u8>| #[trigger] t.model().dom().contains(k) implies entries_model(
        s,
    ).dom().contains(k) && entries_model(s)[k] == t.model()[k] by {
        let i = t.index_of(k);
        t.lemma_key_at_index(i);
        assert(s[i].0@ == k);
    }
    assert forall|k: Seq<u8>| #[trigger] entries_model(s).dom().contains(k) implies t.model(
    ).dom().contains(k) by {
        let i = choose|i: int| 0 <= i < s.len() && s[i].0@ == k;
        t.lemma_key_at_index(i);
    }
    assert(entries_model(s) =~= t.model());
}

impl StationTable {
    /// Merge another table into this one: afterwards this table's model is
    /// the key-wise multiset union of the two models, exactly as if every
    /// value recorded in either table had been recorded here.
    pub fn merge_from(&mut self, other: StationTable)
        requires
            old(self).wf(),
            other.wf(),
            forall|k: Seq<u8>|
                old(self).model().dom().contains(k) && other.model().dom().contains(k)
                    ==> old(self).model()[k].len() + other.model()[k].len() <= u64::MAX,
        ensures
            final(self).wf(),
            final(self).model() == model_union(old(self).model(), other.model()),
    {
        proof {
            lemma_table_model(other);
        }
        let ghost m0 = old(self).model();
        let ghost os = other.entries@;
        let mut i: usize = 0;
        while i < other.entries.len()
            invariant
                0 <= i <= os.len(),
                other.entries@ == os,
                other.wf(),
                self.wf(),
                self.model() == model_union(m0, entries_model(os.take(i as int))),
                forall|k: Seq<u8>|
                    m0.dom().contains(k) && entries_model(os).dom().contains(k) ==> m0[k].len()
                        + entries_model(os)[k].len() <= u64::MAX,
            decreases os.len() - i,
        {
            let name = other.entries[i].0.clone();
            let agg = other.entries[i].1;
            proof {
                assert(name@ == os[i as int].0@);
                other.lemma_key_at_index(i as int);
                lemma_step_requires(m0, other, i as int, *self);
            }
            self.add_aggregate(name, agg);
            proof {
                lemma_merge_into_union(m0, entries_model(os.take(i as int)), os[i as int].0@,
                    os[i as int].1.vals@);
                assert(os.take(i + 1 as int).drop_last() =~= os.take(i as int));
                assert(os.take(i + 1 as int).last() == os[i as int]);
            }
            i = i + 1;
        }
        proof {
            assert(os.take(os.len() as int) =~= os);
        }
    }
}

/// At each step of a merge, the station about to be folded in still has the
/// count it had before the merge began, because the source table names each
/// station once; so the counter bound carries over to the running table.
proof fn lemma_step_requires(m0: StationModel, other: StationTable, i: int, cur: StationTable)
    requires
        other.wf(),
        0 <= i < other.entries@.len(),
        cur.wf(),
        cur.model() == model_union(m0, entries_model(other.entries@.take(i))),
        forall|k: Seq<u8>|
            m0.dom().contains(k) && entries_model(other.entries@).dom().contains(k) ==> m0[k].len()
                + entries_model(other.entries@)[k].len() <= u64::MAX,
    ensures
        cur.has_name(other.key_at(i)) ==> cur.model()[other.key_at(i)].len()
            + other.entries@[i].1.count <= u64::MAX,
{
    let os = other.entries@;
    let k = other.key_at(i);
    assert forall|a: int, b: int| 0 <= a < b < os.len() implies (#[trigger] os[a]).0@ != (
    #[trigger] os[b]).0@ by {
        if os[a].0@ == os[b].0@ {
            assert(lex_lt(other.key_at(a), other.key_at(b)));
            lemma_lex_irrefl(other.key_at(a));
        }
    }
    lemma_entries_model_char(os);
    let pre = os.take(i);
    assert(forall|a: int, b: int|
        0 <= a < b < pre.len() ==> (#[trigger] pre[a]).0@ != (#[trigger] pre[b]).0@);
    lemma_entries_model_char(pre);
    if cur.has_name(k) {
        assert(cur.model().dom().contains(k)) by {
            let j = cur.index_of(k);
            cur.lemma_key_at_index(j);
        }
        assert(!entries_model(pre).dom().contains(k)) by {
            if entries_model(pre).dom().contains(k) {
                let a = choose|a: int| 0 <= a < pre.len() && pre[a].0@ == k;
                assert(os[a].0@ == os[i].0@);
            }
        }
        assert(m0.dom().contains(k));
        assert(cur.model()[k] == m0[k]);
        assert(entries_model(os).dom().contains(k) && entries_model(os)[k] == os[i].1.vals@) by {
            assert(os[i].0@ == k);
        }
        assert(os[i].1.wf());
        assert(os[i].1.vals@.len() == os[i].1.count);
    }
}

} // verus!

