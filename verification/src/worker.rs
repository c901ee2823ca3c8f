//! A worker's share of the pipeline: split a chunk into lines, parse every
//! line, and fold the records into a station table.
//!
//! A chunk is processed in two passes.  The first pass parses every line and
//! fails without touching the table when any line is malformed, so a parse
//! failure never leaves half a chunk recorded.  The second pass folds the
//! parsed records into the table.  The model-level lemmas at the end say that
//! chunking and merging do not matter: the model of everything processed is a
//! function of the records alone.

use crate::parse::NEWLINE;
use crate::parse::find_byte;
use crate::parse::lemma_find_byte;
use crate::parse::lemma_find_byte_is;
use crate::parse::line_name;
use crate::parse::line_value;
use crate::parse::parse_line;
use crate::parse::valid_line;
use crate::table::StationModel;
use crate::table::StationTable;
use crate::table::lemma_merge_into_union;
use crate::table::lemma_union_empty;
use crate::table::merge_into;
use crate::table::model_union;
use crate::table::record_into;
use vstd::map::*;
use vstd::multiset::Multiset;
use vstd::prelude::*;
use vstd::slice::slice_subrange;

verus! {

broadcast use
    vstd::multiset::group_multiset_axioms,
    vstd::map::group_map_axioms,
    vstd::set::group_set_axioms,
;

/// The lines of a byte stream: a line feed ends each line, and bytes after
/// the last line feed form a final line when there are any.
pub open spec fn lines_of(s: Seq<u8>) -> Seq<Seq<u8>>
    decreases s.len(),
    via lines_of_decreases
{
    if s.len() == 0 {
        Seq::empty()
    } else {
        let i = find_byte(s, NEWLINE);
        if i == s.len() {
            seq![s]
        } else {
            seq![s.take(i)] + lines_of(s.skip(i + 1))
        }
    }
}

#[via_fn]
proof fn lines_of_decreases(s: Seq<u8>) {
    if s.len() > 0 {
        lemma_find_byte(s, NEWLINE);
    }
}

/// A stream has at most as many lines as bytes.
pub proof fn lemma_lines_count(s: Seq<u8>)
    ensures
        lines_of(s).len() <= s.len(),
    decreases s.len(),
{
    if s.len() > 0 {
        lemma_find_byte(s, NEWLINE);
        let i = find_byte(s, NEWLINE);
        if i < s.len() {
            lemma_lines_count(s.skip(i + 1));
        }
    }
}

/// Every line of the sequence is well formed.
pub open spec fn lines_valid(ls: Seq<Seq<u8>>) -> bool {
    forall|i: int| 0 <= i < ls.len() ==> valid_line(#[trigger] ls[i])
}

/// The (station name, fixed-point value) records read from a sequence of
/// well-formed lines.
pub open spec fn records_of_lines(ls: Seq<Seq<u8>>) -> Seq<(Seq<u8>, int)> {
    ls.map_values(|l: Seq<u8>| (line_name(l), line_value(l)))
}

/// Fold a sequence of records into a model, in order.
pub open spec fn apply_records(m: StationModel, rs: Seq<(Seq<u8>, int)>) -> StationModel
    decreases rs.len(),
{
    if rs.len() == 0 {
        m
    } else {
        record_into(apply_records(m, rs.drop_last()), rs.last().0, rs.last().1)
    }
}

/// The model a sequence of records builds from nothing: each station mapped
/// to the multiset of values recorded for it.
pub open spec fn records_model(rs: Seq<(Seq<u8>, int)>) -> StationModel {
    apply_records(Map::empty(), rs)
}

/// The model a whole byte stream builds, when all its lines are well formed.
pub open spec fn chunk_model(s: Seq<u8>) -> StationModel {
    records_model(records_of_lines(lines_of(s)))
}

/// Folding records into a model only ever adds to it: the result is the
/// union of the model and what the records build on their own.
pub proof fn lemma_apply_records_union(m: StationModel, rs: Seq<(Seq<u8>, int)>)
    ensures
        apply_records(m, rs) == model_union(m, records_model(rs)),
    decreases rs.len(),
{
    if rs.len() == 0 {
        lemma_union_empty(m);
    } else {
        let rs0 = rs.drop_last();
        lemma_apply_records_union(m, rs0);
        lemma_merge_into_union(
            m,
            records_model(rs0),
            rs.last().0,
            Multiset::empty().insert(rs.last().1),
        );
    }
}

/// Partition independence: the records of two workers build, merged, exactly
/// the model one worker would build from all of them in one go.  Splitting a
/// record stream anywhere changes nothing.
pub proof fn lemma_records_model_append(a: Seq<(Seq<u8>, int)>, b: Seq<(Seq<u8>, int)>)
    ensures
        records_model(a + b) == model_union(records_model(a), records_model(b)),
    decreases b.len(),
{
    if b.len() == 0 {
        assert(a + b =~= a);
        lemma_union_empty(records_model(a));
    } else {
        let b0 = b.drop_last();
        assert((a + b).drop_last() =~= a + b0);
        assert((a + b).last() == b.last());
        lemma_records_model_append(a, b0);
        lemma_merge_into_union(
            records_model(a),
            records_model(b0),
            b.last().0,
            Multiset::empty().insert(b.last().1),
        );
    }
}

/// The values of exactly those records that name station `k`.
pub open spec fn station_values(rs: Seq<(Seq<u8>, int)>, k: Seq<u8>) -> Multiset<int>
    decreases rs.len(),
{
    if rs.len() == 0 {
        Multiset::empty()
    } else if rs.last().0 == k {
        station_values(rs.drop_last(), k).insert(rs.last().1)
    } else {
        station_values(rs.drop_last(), k)
    }
}

/// What the records build for one station is exactly the multiset of values
/// of the records naming that station: together with an aggregate's
/// well-formedness this ties `count` to the number of records for the
/// station and `sum` to their exact total.
pub proof fn lemma_records_model_station(rs: Seq<(Seq<u8>, int)>, k: Seq<u8>)
    ensures
        records_model(rs).dom().contains(k) <==> station_values(rs, k).len() > 0,
        records_model(rs).dom().contains(k) ==> records_model(rs)[k] == station_values(rs, k),
    decreases rs.len(),
{
    if rs.len() > 0 {
        let rs0 = rs.drop_last();
        lemma_records_model_station(rs0, k);
        assert(records_model(rs) == record_into(records_model(rs0), rs.last().0, rs.last().1));
        if rs.last().0 == k {
            if records_model(rs0).dom().contains(k) {
                assert(records_model(rs)[k] =~= station_values(rs, k));
            } else {
                assert(station_values(rs0, k).len() == 0);
                assert(station_values(rs0, k) =~= Multiset::empty());
                assert(records_model(rs)[k] =~= station_values(rs, k));
            }
        }
    }
}

/// No station can have more recorded values than there were records.
pub proof fn lemma_records_model_len(rs: Seq<(Seq<u8>, int)>)
    ensures
        forall|k: Seq<u8>|
            #[trigger] records_model(rs).dom().contains(k) ==> records_model(rs)[k].len()
                <= rs.len(),
    decreases rs.len(),
{
    if rs.len() > 0 {
        let rs0 = rs.drop_last();
        lemma_records_model_len(rs0);
        assert(records_model(rs) == record_into(records_model(rs0), rs.last().0, rs.last().1));
    }
}

/// Process one chunk: parse every line, and fold the records into the table.
/// When any line is malformed nothing is recorded and the call reports
/// failure; otherwise the table's model grows by exactly the chunk's records.
pub fn process_chunk(t: &mut StationTable, data: &[u8]) -> (ok: bool)
    requires
        old(t).wf(),
        forall|k: Seq<u8>|
            old(t).model().dom().contains(k) ==> old(t).model()[k].len() + data@.len()
                <= u64::MAX,
    ensures
        final(t).wf(),
        ok <==> lines_valid(lines_of(data@)),
        ok ==> final(t).model() == apply_records(
            old(t).model(),
            records_of_lines(lines_of(data@)),
        ),
        !ok ==> final(t).model() == old(t).model(),
{
    let len: usize = data.len();
    let mut recs: Vec<(Vec<u8>, i16)> = Vec::new();
    let mut pos: usize = 0;
    let ghost mut done: Seq<Seq<u8>> = Seq::empty();
    proof {
        assert(data@.skip(0) =~= data@);
        assert(Seq::<Seq<u8>>::empty() + lines_of(data@) =~= lines_of(data@));
    }
    while pos < len
        invariant
            *t == *old(t),
            old(t).wf(),
            0 <= pos <= len == data@.len(),
            lines_of(data@) == done + lines_of(data@.skip(pos as int)),
            lines_valid(done),
            recs@.len() == done.len(),
            done.len() <= pos,
            forall|j: int|
                0 <= j < done.len() ==> (#[trigger] recs@[j]).0@ == line_name(done[j])
                    && recs@[j].1 as int == line_value(done[j]),
        decreases len - pos,
    {
        let mut e: usize = pos;
        while e < len && data[e] != NEWLINE
            invariant
                pos <= e <= len == data@.len(),
                forall|j: int| pos <= j < e ==> data@[j] != NEWLINE,
            decreases len - e,
        {
            e = e + 1;
        }
        let ghost rest = data@.skip(pos as int);
        proof {
            assert(forall|j: int| 0 <= j < rest.len() ==> rest[j] == data@[pos + j]);
            lemma_find_byte_is(rest, NEWLINE, e - pos);
        }
        let line = slice_subrange(data, pos, e);
        proof {
            assert(line@ =~= rest.take(e - pos));
            if e - pos == rest.len() {
                assert(line@ =~= rest);
            }
            assert(lines_of(rest)[0] == line@);
            assert(lines_of(data@)[done.len() as int] == line@);
        }
        match parse_line(line) {
            None => {
                proof {
                    assert(!valid_line(lines_of(data@)[done.len() as int]));
                }
                return false;
            },
            Some((name, v)) => {
                recs.push((name, v));
                proof {
                    if e < len {
                        assert(lines_of(rest) == seq![line@] + lines_of(rest.skip(e - pos + 1)));
                        assert(data@.skip(e + 1) =~= rest.skip(e - pos + 1));
                        assert(done + lines_of(rest) =~= done.push(line@) + lines_of(
                            data@.skip(e + 1),
                        ));
                    } else {
                        assert(lines_of(rest) =~= seq![line@]);
                        assert(data@.skip(len as int) =~= Seq::<u8>::empty());
                        assert(done + lines_of(rest) =~= done.push(line@) + lines_of(
                            data@.skip(len as int),
                        ));
                    }
                    done = done.push(line@);
                }
                if e < len {
                    pos = e + 1;
                } else {
                    pos = len;
                }
            },
        }
    }
    proof {
        assert(data@.skip(len as int) =~= Seq::<u8>::empty());
        assert(done + lines_of(data@.skip(len as int)) =~= done);
        assert(done == lines_of(data@));
        lemma_lines_count(data@);
    }
    let ghost m0 = old(t).model();
    let ghost rspec = records_of_lines(lines_of(data@));
    proof {
        assert(rspec.len() == done.len());
        assert(forall|j: int|
            0 <= j < rspec.len() ==> rspec[j] == (line_name(done[j]), line_value(done[j])));
    }
    let n = recs.len();
    let mut i: usize = 0;
    while i < n
        invariant
            t.wf(),
            0 <= i <= n == recs@.len(),
            rspec.len() == recs@.len(),
            rspec.len() <= data@.len(),
            forall|j: int|
                0 <= j < rspec.len() ==> #[trigger] rspec[j] == ((#[trigger] recs@[j]).0@,
                recs@[j].1 as int),
            t.model() == apply_records(m0, rspec.take(i as int)),
            forall|k: Seq<u8>|
                m0.dom().contains(k) ==> m0[k].len() + data@.len() <= u64::MAX,
        decreases n - i,
    {
        let name = recs[i].0.clone();
        let v = recs[i].1;
        proof {
            assert(name@ == rspec[i as int].0);
            lemma_apply_records_union(m0, rspec.take(i as int));
            lemma_records_model_len(rspec.take(i as int));
            if t.has_name(name@) {
                assert(t.model().dom().contains(name@));
                let sub = records_model(rspec.take(i as int));
                if m0.dom().contains(name@) && sub.dom().contains(name@) {
                    assert(t.model()[name@].len() == m0[name@].len() + sub[name@].len());
                    assert(sub[name@].len() <= i);
                } else if m0.dom().contains(name@) {
                    assert(t.model()[name@].len() == m0[name@].len());
                } else {
                    assert(t.model()[name@].len() == sub[name@].len());
                    assert(sub[name@].len() <= i);
                }
            }
        }
        t.add_value(name, v);
        proof {
            assert(rspec.take(i + 1).drop_last() =~= rspec.take(i as int));
            assert(rspec.take(i + 1).last() == rspec[i as int]);
            assert(t.model() == apply_records(m0, rspec.take(i + 1)));
        }
        i = i + 1;
    }
    proof {
        assert(rspec.take(rspec.len() as int) =~= rspec);
    }
    true
}

} // verus!
