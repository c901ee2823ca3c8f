//! Line-aligned chunking of the input stream.
//!
//! The reader hands each worker whole lines: a chunk boundary never falls
//! inside a line.  `split_into_chunks` cuts a byte stream into pieces of at
//! least the requested size, each extended to the next line feed, and the
//! lemmas here prove that cutting at line feeds neither loses, corrupts nor
//! duplicates a line: the lines (and hence the model) of the concatenation
//! are exactly the lines of the chunks, one after another.

use crate::parse::NEWLINE;
use crate::parse::find_byte;
use crate::parse::lemma_find_byte;
use crate::parse::lemma_find_byte_is;
use crate::table::StationModel;
use crate::table::model_union;
use crate::worker::chunk_model;
use crate::worker::lemma_records_model_append;
use crate::worker::lines_of;
use crate::worker::records_of_lines;
use vstd::prelude::*;
use vstd::slice::slice_subrange;
use vstd::slice::slice_to_vec;

verus! {

broadcast use
    vstd::map::group_map_axioms,
    vstd::set::group_set_axioms,
;

/// A chunk that may be followed by another: empty, or ending at a line feed.
pub open spec fn line_aligned(s: Seq<u8>) -> bool {
    s.len() == 0 || s.last() == NEWLINE
}

/// The concatenation of a sequence of chunks.
pub open spec fn concat_chunks(cs: Seq<Seq<u8>>) -> Seq<u8>
    decreases cs.len(),
{
    if cs.len() == 0 {
        Seq::empty()
    } else {
        concat_chunks(cs.drop_last()) + cs.last()
    }
}

/// The lines of a sequence of chunks, chunk by chunk.
pub open spec fn lines_of_chunks(cs: Seq<Seq<u8>>) -> Seq<Seq<u8>>
    decreases cs.len(),
{
    if cs.len() == 0 {
        Seq::empty()
    } else {
        lines_of_chunks(cs.drop_last()) + lines_of(cs.last())
    }
}

/// A concatenation of line-aligned chunks is line-aligned.
pub proof fn lemma_concat_aligned(cs: Seq<Seq<u8>>)
    requires
        forall|i: int| 0 <= i < cs.len() ==> line_aligned(#[trigger] cs[i]),
    ensures
        line_aligned(concat_chunks(cs)),
    decreases cs.len(),
{
    if cs.len() > 0 {
        let cs0 = cs.drop_last();
        assert(forall|i: int| 0 <= i < cs0.len() ==> cs0[i] == cs[i]);
        lemma_concat_aligned(cs0);
        if cs.last().len() > 0 {
            assert(concat_chunks(cs).last() == cs.last().last());
        } else {
            assert(concat_chunks(cs) =~= concat_chunks(cs0));
        }
    }
}

/// Cutting a stream at a line feed splits its lines without loss,
/// duplication or corruption: the lines of the whole are the lines of the
/// first piece followed by the lines of the second.
pub proof fn lemma_lines_split(a: Seq<u8>, b: Seq<u8>)
    requires
        line_aligned(a),
    ensures
        lines_of(a + b) == lines_of(a) + lines_of(b),
    decreases a.len(),
{
    if a.len() == 0 {
        assert(a + b =~= b);
        assert(lines_of(a) + lines_of(b) =~= lines_of(b));
    } else {
        lemma_find_byte(a, NEWLINE);
        let i = find_byte(a, NEWLINE);
        assert(i < a.len()) by {
            if i == a.len() {
                assert(a[a.len() - 1] != NEWLINE);
            }
        }
        assert(forall|j: int| 0 <= j < i ==> (a + b)[j] == a[j]);
        assert((a + b)[i] == a[i]);
        lemma_find_byte_is(a + b, NEWLINE, i);
        assert((a + b).take(i) =~= a.take(i));
        assert((a + b).skip(i + 1) =~= a.skip(i + 1) + b);
        assert(line_aligned(a.skip(i + 1))) by {
            if i + 1 < a.len() {
                assert(a.skip(i + 1).last() == a.last());
            }
        }
        lemma_lines_split(a.skip(i + 1), b);
        assert(lines_of(a) == seq![a.take(i)] + lines_of(a.skip(i + 1)));
        assert(lines_of(a + b) == seq![a.take(i)] + (lines_of(a.skip(i + 1)) + lines_of(b)));
        assert(lines_of(a) + lines_of(b) =~= lines_of(a + b));
    }
}

/// The records of concatenated line sequences are the records of each, in
/// order.
proof fn lemma_records_of_lines_append(l1: Seq<Seq<u8>>, l2: Seq<Seq<u8>>)
    ensures
        records_of_lines(l1 + l2) == records_of_lines(l1) + records_of_lines(l2),
{
    assert(records_of_lines(l1 + l2) =~= records_of_lines(l1) + records_of_lines(l2));
}

/// A chunk boundary at a line feed does not change what is recorded: the
/// model of the whole stream is the merge of the models of the two pieces.
pub proof fn lemma_chunk_boundary(a: Seq<u8>, b: Seq<u8>)
    requires
        line_aligned(a),
    ensures
        lines_of(a + b) == lines_of(a) + lines_of(b),
        chunk_model(a + b) == model_union(chunk_model(a), chunk_model(b)),
{
    lemma_lines_split(a, b);
    lemma_records_of_lines_append(lines_of(a), lines_of(b));
    lemma_records_model_append(records_of_lines(lines_of(a)), records_of_lines(lines_of(b)));
}

/// The lines of a line-aligned chunking are exactly the lines of the whole
/// stream: no line is lost, split in two, or read twice.
pub proof fn lemma_chunks_lines(cs: Seq<Seq<u8>>)
    requires
        forall|i: int| 0 <= i < cs.len() - 1 ==> line_aligned(#[trigger] cs[i]),
    ensures
        lines_of(concat_chunks(cs)) == lines_of_chunks(cs),
    decreases cs.len(),
{
    if cs.len() > 0 {
        let cs0 = cs.drop_last();
        assert(forall|i: int| 0 <= i < cs0.len() ==> cs0[i] == cs[i]);
        lemma_chunks_lines(cs0);
        lemma_concat_aligned(cs0);
        lemma_lines_split(concat_chunks(cs0), cs.last());
    }
}

/// The model a sequence of chunks builds, merged chunk by chunk.
pub open spec fn chunks_model(cs: Seq<Seq<u8>>) -> StationModel
    decreases cs.len(),
{
    if cs.len() == 0 {
        Map::empty()
    } else {
        model_union(chunks_model(cs.drop_last()), chunk_model(cs.last()))
    }
}

/// Single-worker equivalence: the model of the whole stream, processed in
/// one go, is exactly the merged models of any line-aligned chunking of it,
/// however many workers the chunks were spread over.
pub proof fn lemma_chunks_model(cs: Seq<Seq<u8>>)
    requires
        forall|i: int| 0 <= i < cs.len() - 1 ==> line_aligned(#[trigger] cs[i]),
    ensures
        chunk_model(concat_chunks(cs)) == chunks_model(cs),
    decreases cs.len(),
{
    if cs.len() == 0 {
        assert(lines_of(Seq::<u8>::empty()).len() == 0);
        assert(records_of_lines(lines_of(Seq::<u8>::empty())).len() == 0);
        assert(chunk_model(concat_chunks(cs)) =~= Map::empty());
    } else {
        let cs0 = cs.drop_last();
        assert(forall|i: int| 0 <= i < cs0.len() ==> cs0[i] == cs[i]);
        lemma_chunks_model(cs0);
        lemma_concat_aligned(cs0);
        lemma_chunk_boundary(concat_chunks(cs0), cs.last());
    }
}

/// The worker a chunk is assigned to: round-robin over the chunk counter,
/// independent of the stations the chunk holds.
pub fn worker_for_chunk(chunk_index: usize, worker_count: usize) -> (w: usize)
    requires
        worker_count >= 1,
    ensures
        w as int == (chunk_index as int) % (worker_count as int),
        w < worker_count,
{
    chunk_index % worker_count
}

/// What holds of every chunk that another chunk follows: it carries at least
/// `chunk_size` bytes and ends at the first line feed at or after that size.
/// Together with concatenation this pins the cut points exactly: a splitter
/// that lumps the stream into one oversized piece cannot meet it.
pub open spec fn sized_chunk(c: Seq<u8>, chunk_size: int) -> bool {
    &&& c.len() >= chunk_size
    &&& c.len() > 0
    &&& c.last() == NEWLINE
    &&& forall|j: int| chunk_size - 1 <= j < c.len() - 1 ==> c[j] != NEWLINE
}

/// Split a byte stream into line-aligned chunks of roughly `chunk_size`
/// bytes: each chunk but the last carries at least `chunk_size` bytes and is
/// extended up to and including the next line feed, so no line spans two
/// chunks, and nothing is lost or duplicated: the chunks concatenate back to
/// the stream.
pub fn split_into_chunks(data: &[u8], chunk_size: usize) -> (cs: Vec<Vec<u8>>)
    requires
        chunk_size >= 1,
    ensures
        concat_chunks(cs@.map_values(|c: Vec<u8>| c@)) == data@,
        forall|i: int|
            0 <= i < cs@.len() - 1 ==> sized_chunk((#[trigger] cs@[i])@, chunk_size as int),
        forall|i: int| 0 <= i < cs@.len() - 1 ==> line_aligned((#[trigger] cs@[i])@),
        forall|i: int| 0 <= i < cs@.len() ==> (#[trigger] cs@[i])@.len() > 0,
{
    let len: usize = data.len();
    let mut cs: Vec<Vec<u8>> = Vec::new();
    let mut pos: usize = 0;
    proof {
        assert(data@.take(0) =~= Seq::<u8>::empty());
    }
    while pos < len
        invariant
            0 <= pos <= len == data@.len(),
            chunk_size >= 1,
            concat_chunks(cs@.map_values(|c: Vec<u8>| c@)) == data@.take(pos as int),
            forall|i: int|
                0 <= i < cs@.len() - 1 ==> sized_chunk((#[trigger] cs@[i])@, chunk_size as int),
            cs@.len() > 0 && !sized_chunk(cs@[cs@.len() - 1]@, chunk_size as int) ==> pos == len,
            forall|i: int| 0 <= i < cs@.len() ==> (#[trigger] cs@[i])@.len() > 0,
        decreases len - pos,
    {
        let capped: bool = len - pos > chunk_size;
        let mut e: usize = if capped {
            pos + chunk_size
        } else {
            len
        };
        while e < len && data[e - 1] != NEWLINE
            invariant
                pos < e <= len == data@.len(),
                capped ==> e >= pos + chunk_size,
                !capped ==> e == len,
                forall|j: int| pos + chunk_size - 1 <= j < e - 1 ==> data@[j] != NEWLINE,
            decreases len - e,
        {
            e = e + 1;
        }
        let piece = slice_to_vec(slice_subrange(data, pos, e));
        proof {
            assert(piece@ =~= data@.subrange(pos as int, e as int));
            let old_map = cs@.map_values(|c: Vec<u8>| c@);
            let new_map = cs@.push(piece).map_values(|c: Vec<u8>| c@);
            assert(new_map.drop_last() =~= old_map);
            assert(new_map.last() == piece@);
            assert(data@.take(pos as int) + data@.subrange(pos as int, e as int) =~= data@.take(
                e as int,
            ));
            if e < len {
                assert(capped);
                assert(data@[e - 1] == NEWLINE);
                assert(piece@.last() == data@[e - 1]);
                assert(piece@.len() >= chunk_size);
                assert forall|j: int|
                    chunk_size - 1 <= j < piece@.len() - 1 implies piece@[j] != NEWLINE by {
                    assert(piece@[j] == data@[pos + j]);
                }
                assert(sized_chunk(piece@, chunk_size as int));
            }
        }
        cs.push(piece);
        pos = e;
    }
    proof {
        assert(data@.take(len as int) =~= data@);
        assert forall|i: int| 0 <= i < cs@.len() - 1 implies line_aligned(
            (#[trigger] cs@[i])@,
        ) by {
            assert(sized_chunk(cs@[i]@, chunk_size as int));
        }
    }
    cs
}

} // verus!
