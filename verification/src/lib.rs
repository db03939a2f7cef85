//! External merge sort of newline-delimited byte streams by a caller-supplied key.
//!
//! A stream larger than the capacity is split into chunks of whole lines until each
//! piece fits; the pieces are sorted in memory and merged two by two. Lines with tied
//! keys keep the order they had in the input, under both order modes.
//!
//! Every line is copied byte for byte. A last line without delimiter is therefore
//! written without one wherever its key puts it, and runs into the line that follows
//! it. The laws of [`laws`] that speak of the output's lines hold of the inputs that
//! [`laws::regular`] admits: those that end with the delimiter, and those whose last
//! line sorts last.

use crate::chunk::Chunk;
use crate::key::in_key_order;
use crate::key::key_for;
use crate::key::key_of;
use crate::key::pure_key;
use crate::key::sorted_lines;
use crate::key::ties_kept;
use crate::laws::law_lines_verbatim;
use crate::laws::law_merge;
use crate::laws::law_ordering;
use crate::laws::law_permutation;
use crate::laws::law_stability;
use crate::laws::lemma_sorted_stream_regular;
use crate::laws::made_of;
use crate::laws::regular;
use crate::lines::lemma_lines_of_delimited;
use crate::lines::lemma_lines_of_flatten;
use crate::lines::lines_of;
use crate::merging::lemma_woven_step;
use crate::merging::merged;
use crate::merging::overtakes;
use crate::merging::sorted_stream;
use crate::merging::woven;
use crate::order::ahead;
use crate::order::lawful;
use crate::store::RoughCount;
use crate::store::Store;
use crate::store::copy;
use crate::store::rewind;
use vstd::prelude::*;
use vstd::seq_lib::lemma_flatten_concat;

pub mod chunk;
pub mod key;
pub mod laws;
pub mod lines;
pub mod merging;
pub mod order;
pub mod slice_utils;
pub mod stable;
pub mod store;
pub mod width;

verus! {

/// Sorts the lines of `fin` by key, ascending, and appends them to `fout`.
pub fn sort_by_key<F, K>(fin: Vec<u8>, fout: &mut Vec<u8>, cap: u64, key: F) where
    F: Fn(&Vec<u8>) -> K,
    K: Ord,

    requires
        pure_key(key),
        lawful::<K>(),
    ensures
        final(fout)@ == old(fout)@ + sorted_stream(key, lines_of(fin@), cap, false),
        ({
            let out = final(fout)@.skip(old(fout)@.len() as int);
            &&& made_of(out, lines_of(fin@))
            &&& regular(key, lines_of(fin@), false) ==> {
                &&& out == sorted_lines(key, lines_of(fin@), false).flatten()
                &&& in_key_order(key, lines_of(out), false)
                &&& lines_of(out).to_multiset() == lines_of(fin@).to_multiset()
                &&& ties_kept(key, lines_of(fin@), lines_of(out))
            }
        }),
{
    sort_by_key_with_order(fin, fout, cap, false, key)
}

/// Sorts the lines of `fin` by key, descending, and appends them to `fout`.
pub fn reverse_sort_by_key<F, K>(fin: Vec<u8>, fout: &mut Vec<u8>, cap: u64, key: F) where
    F: Fn(&Vec<u8>) -> K,
    K: Ord,

    requires
        pure_key(key),
        lawful::<K>(),
    ensures
        final(fout)@ == old(fout)@ + sorted_stream(key, lines_of(fin@), cap, true),
        ({
            let out = final(fout)@.skip(old(fout)@.len() as int);
            &&& made_of(out, lines_of(fin@))
            &&& regular(key, lines_of(fin@), true) ==> {
                &&& out == sorted_lines(key, lines_of(fin@), true).flatten()
                &&& in_key_order(key, lines_of(out), true)
                &&& lines_of(out).to_multiset() == lines_of(fin@).to_multiset()
                &&& ties_kept(key, lines_of(fin@), lines_of(out))
            }
        }),
{
    sort_by_key_with_order(fin, fout, cap, true, key)
}

/// Sorts the lines of `fin` by key, ascending or, when `rev` is set, descending, and
/// appends them to `fout`. No more than `cap` bytes of lines are sorted in memory at a
/// time, unless a single line outweighs the rest of its chunk.
pub fn sort_by_key_with_order<F, K>(
    fin: Vec<u8>,
    fout: &mut Vec<u8>,
    cap: u64,
    rev: bool,
    key: F,
) where F: Fn(&Vec<u8>) -> K, K: Ord
    requires
        pure_key(key),
        lawful::<K>(),
    ensures
        final(fout)@ == old(fout)@ + sorted_stream(key, lines_of(fin@), cap, rev),
        ({
            let out = final(fout)@.skip(old(fout)@.len() as int);
            &&& made_of(out, lines_of(fin@))
            &&& regular(key, lines_of(fin@), rev) ==> {
                &&& out == sorted_lines(key, lines_of(fin@), rev).flatten()
                &&& in_key_order(key, lines_of(out), rev)
                &&& lines_of(out).to_multiset() == lines_of(fin@).to_multiset()
                &&& ties_kept(key, lines_of(fin@), lines_of(out))
            }
        }),
{
    proof {
        law_lines_verbatim(key, fin@, cap, rev);
        if regular(key, lines_of(fin@), rev) {
            law_ordering(key, fin@, cap, rev);
            law_permutation(key, fin@, cap, rev);
            law_stability(key, fin@, cap, rev);
        }
    }
    let chunk = Chunk::new(Store::from_bytes(fin), cap);
    let sorted = sort_chunk(chunk, rev, &key);
    let mut file = sorted.file;
    proof {
        assert(file.rest() =~= file@);
    }
    copy(&mut file, fout);
    proof {
        let out = sorted_stream(key, lines_of(fin@), cap, rev);
        assert(fout@.skip(old(fout)@.len() as int) =~= out);
    }
}

/// Sorts a chunk: leaves it alone if it has fewer than two lines, sorts it in memory if
/// it fits the capacity, and else splits it, sorts the halves and merges them.
pub fn sort_chunk<F, K>(chunk: Chunk, rev: bool, key: &F) -> (out: Chunk) where
    F: Fn(&Vec<u8>) -> K,
    K: Ord,

    requires
        chunk.wf(),
        pure_key(*key),
        lawful::<K>(),
    ensures
        out.wf(),
        out.capacity == chunk.capacity,
        out@ == sorted_stream(*key, chunk.lines(), chunk.capacity, rev),
        regular(*key, chunk.lines(), rev) ==> out@ == sorted_lines(
            *key,
            chunk.lines(),
            rev,
        ).flatten(),
    decreases chunk.lines().len(),
{
    proof {
        lemma_lines_of_flatten(chunk@);
        lemma_lines_of_delimited(chunk@);
        if regular(*key, chunk.lines(), rev) {
            lemma_sorted_stream_regular(*key, chunk.lines(), chunk.capacity, rev);
        }
    }
    if chunk.rough_count == RoughCount::Zero || chunk.rough_count == RoughCount::One {
        return chunk;
    }
    if chunk.fit_in_buffer() {
        return chunk.sort(rev, key);
    }
    let (c1, c2) = chunk.split();

    if c2.rough_count == RoughCount::Zero {
        return c1.sort(rev, key);
    }
    merge(sort_chunk(c1, rev, key), sort_chunk(c2, rev, key), rev, key)
}

/// Writes the buffered line to `writer` and buffers the next line of `reader`, if there
/// is one. Returns the length of that line, or 0.
fn emit(writer: &mut Store, reader: &mut Store, buf: &mut Vec<u8>) -> (n: usize)
    requires
        old(writer).wf(),
        old(reader).wf(),
    ensures
        final(writer).wf(),
        final(reader).wf(),
        final(writer)@ == old(writer)@ + old(buf)@,
        old(reader).pending().len() == 0 ==> n == 0,
        old(reader).pending().len() > 0 ==> {
            &&& n > 0
            &&& final(buf)@ == old(reader).pending()[0]
            &&& final(reader).pending() == old(reader).pending().skip(1)
        },
{
    writer.write(buf);
    buf.clear();
    reader.read_line(buf)
}

/// Merges two chunks, each sorted under the order mode, into one sorted chunk. Where
/// the next lines of both have tied keys, the line of the first chunk goes first.
pub fn merge<F, K>(c1: Chunk, c2: Chunk, rev: bool, key: &F) -> (out: Chunk) where
    F: Fn(&Vec<u8>) -> K,
    K: Ord,

    requires
        c1.wf(),
        c2.wf(),
        c1.capacity == c2.capacity,
        pure_key(*key),
        lawful::<K>(),
    ensures
        out.wf(),
        out.capacity == c1.capacity,
        out@ == merged(*key, c1.lines(), c2.lines(), rev).flatten(),
        in_key_order(*key, c1.lines(), rev) && in_key_order(*key, c2.lines(), rev) ==> out@
            == sorted_lines(*key, c1.lines() + c2.lines(), rev).flatten(),
{
    proof {
        if in_key_order(*key, c1.lines(), rev) && in_key_order(*key, c2.lines(), rev) {
            law_merge(*key, c1.lines(), c2.lines(), rev);
        }
    }
    let ghost a = c1.lines();
    let ghost b = c2.lines();
    let ghost pick = overtakes(*key, rev);
    let cap: u64 = c1.capacity;
    let mut reader1 = c1.file;
    let mut reader2 = c2.file;
    let mut writer = Store::new();
    let mut r1_buf: Vec<u8> = Vec::new();
    let mut r2_buf: Vec<u8> = Vec::new();
    proof {
        assert(reader1.rest() =~= reader1@);
        assert(reader2.rest() =~= reader2@);
    }

    let mut r1_read: usize = reader1.read_line(&mut r1_buf);
    let mut r2_read: usize = reader2.read_line(&mut r2_buf);

    let mut r1_key: Option<K> = if r1_read > 0 {
        Some(key_for(key, &r1_buf))
    } else {
        None
    };
    let mut r2_key: Option<K> = if r2_read > 0 {
        Some(key_for(key, &r2_buf))
    } else {
        None
    };
    let ghost mut i: int = 0;
    let ghost mut j: int = 0;
    proof {
        assert(a.skip(0) =~= a);
        assert(b.skip(0) =~= b);
    }

    while r1_read > 0 && r2_read > 0
        invariant
            reader1.wf(),
            reader2.wf(),
            writer.wf(),
            pure_key(*key),
            lawful::<K>(),
            pick == overtakes(*key, rev),
            0 <= i <= a.len(),
            0 <= j <= b.len(),
            r1_read > 0 ==> i < a.len() && r1_buf@ == a[i] && reader1.pending() == a.skip(i + 1)
                && r1_key == Some(key_of(*key, a[i])),
            r1_read == 0 ==> i == a.len(),
            r2_read > 0 ==> j < b.len() && r2_buf@ == b[j] && reader2.pending() == b.skip(j + 1)
                && r2_key == Some(key_of(*key, b[j])),
            r2_read == 0 ==> j == b.len(),
            writer@ + woven(a.skip(i), b.skip(j), pick).flatten() == woven(a, b, pick).flatten(),
        decreases a.len() - i + b.len() - j,
    {
        let second: bool = match &r1_key {
            Some(k1) => match &r2_key {
                Some(k2) => ahead(k2, k1, rev),
                None => false,
            },
            None => false,
        };
        proof {
            assert(a.skip(i).skip(1) =~= a.skip(i + 1));
            assert(b.skip(j).skip(1) =~= b.skip(j + 1));
            if second {
                lemma_flatten_concat(seq![b[j]], woven(a.skip(i), b.skip(j + 1), pick));
                seq![b[j]].lemma_flatten_one_element();
            } else {
                lemma_flatten_concat(seq![a[i]], woven(a.skip(i + 1), b.skip(j), pick));
                seq![a[i]].lemma_flatten_one_element();
            }
        }
        if second {
            r2_read = emit(&mut writer, &mut reader2, &mut r2_buf);
            if r2_read > 0 {
                r2_key = Some(key_for(key, &r2_buf));
            }
            proof {
                j = j + 1;
            }
        } else {
            r1_read = emit(&mut writer, &mut reader1, &mut r1_buf);
            if r1_read > 0 {
                r1_key = Some(key_for(key, &r1_buf));
            }
            proof {
                i = i + 1;
            }
        }
    }

    while r1_read > 0
        invariant
            reader1.wf(),
            writer.wf(),
            0 <= i <= a.len(),
            0 <= j <= b.len(),
            r1_read > 0 ==> j == b.len(),
            r1_read > 0 ==> i < a.len() && r1_buf@ == a[i] && reader1.pending() == a.skip(i + 1),
            r1_read == 0 ==> i == a.len(),
            writer@ + woven(a.skip(i), b.skip(j), pick).flatten() == woven(a, b, pick).flatten(),
        decreases a.len() - i,
    {
        proof {
            lemma_woven_step(a.skip(i), b.skip(j), pick);
            assert(a.skip(i).skip(1) =~= a.skip(i + 1));
            seq![a[i]].lemma_flatten_one_element();
        }
        r1_read = emit(&mut writer, &mut reader1, &mut r1_buf);
        proof {
            i = i + 1;
        }
    }

    while r2_read > 0
        invariant
            reader2.wf(),
            writer.wf(),
            i == a.len(),
            0 <= j <= b.len(),
            r2_read > 0 ==> j < b.len() && r2_buf@ == b[j] && reader2.pending() == b.skip(j + 1),
            r2_read == 0 ==> j == b.len(),
            writer@ + woven(a.skip(i), b.skip(j), pick).flatten() == woven(a, b, pick).flatten(),
        decreases b.len() - j,
    {
        proof {
            assert(b.skip(j).skip(1) =~= b.skip(j + 1));
        }
        r2_read = emit(&mut writer, &mut reader2, &mut r2_buf);
        proof {
            j = j + 1;
        }
    }
    rewind(&mut writer);
    Chunk::new(writer, cap)
}

} // verus!
