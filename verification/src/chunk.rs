//! A chunk: a byte container of lines, the capacity threshold of the sort it belongs to,
//! and the coarse count of its lines.

use crate::key::keys_of;
use crate::key::lemma_key_of;
use crate::key::pure_key;
use crate::key::sorted_lines;
use crate::lines::delimited;
use crate::lines::lemma_delimited_parts;
use crate::lines::lemma_flatten_lines_of;
use crate::lines::lemma_lines_of_delimited;
use crate::lines::lemma_lines_of_flatten;
use crate::lines::lines_of;
use crate::order::lawful;
use crate::slice_utils::keyed_by;
use crate::slice_utils::sort_by_cached_key;
use crate::stable::stable_sort;
use crate::store::RoughCount;
use crate::store::Store;
use crate::store::count_roughly;
use crate::store::rewind;
use crate::store::rough;
use vstd::prelude::*;

verus! {

/// A container of lines that one sort operation works on.
pub struct Chunk {
    /// The lines, as bytes.
    pub file: Store,
    /// The byte size up to which a chunk is sorted in memory.
    pub capacity: u64,
    /// The coarse count of the lines in `file`.
    pub rough_count: RoughCount,
}

impl View for Chunk {
    type V = Seq<u8>;

    /// The bytes of the chunk.
    open spec fn view(&self) -> Seq<u8> {
        self.file@
    }
}

/// What a list of byte vectors holds.
pub open spec fn contents(lines: Seq<Vec<u8>>) -> Seq<Seq<u8>> {
    lines.map_values(|l: Vec<u8>| l@)
}

/// How many leading lines, at least `j` and at most all, it takes until their bytes
/// total `mid` or more.
pub open spec fn reach(lines: Seq<Seq<u8>>, mid: int, j: int) -> int
    decreases lines.len() - j,
{
    if j >= lines.len() {
        lines.len() as int
    } else if lines.take(j).flatten().len() >= mid {
        j
    } else {
        reach(lines, mid, j + 1)
    }
}

/// The number of lines that a split leaves in the first half: one of two, and otherwise
/// as many as it takes to hold half the bytes.
pub open spec fn split_index(lines: Seq<Seq<u8>>) -> int {
    if lines.len() == 2 {
        1
    } else {
        reach(lines, lines.flatten().len() as int / 2, 1)
    }
}

impl Chunk {
    /// The container is at offset 0 and the coarse count is that of its lines.
    pub open spec fn wf(&self) -> bool {
        &&& self.file.wf()
        &&& self.file.position() == 0
        &&& self.rough_count == rough(self.lines().len())
    }

    /// The lines of the chunk.
    pub open spec fn lines(&self) -> Seq<Seq<u8>> {
        lines_of(self@)
    }

    /// Wraps a container as a chunk: moves it to offset 0 and classifies its lines.
    pub fn new(f: Store, cap: u64) -> (c: Chunk)
        requires
            f.wf(),
        ensures
            c.wf(),
            c@ == f@,
            c.capacity == cap,
    {
        let mut f = f;
        rewind(&mut f);
        let rc = count_roughly(&mut f);
        proof {
            assert(f.rest() =~= f@);
        }
        Chunk { capacity: cap, file: f, rough_count: rc }
    }

    /// Whether the chunk is small enough to be sorted in memory.
    pub fn fit_in_buffer(&self) -> (fits: bool)
        ensures
            fits == (self@.len() <= self.capacity),
    {
        self.file.len() <= self.capacity
    }

    /// Sorts the lines of the chunk in memory, stably, by their keys under the order
    /// mode, and writes them to a fresh chunk.
    pub fn sort<F, K>(self, rev: bool, key: &F) -> (out: Chunk) where
        F: Fn(&Vec<u8>) -> K,
        K: Ord,

        requires
            self.wf(),
            pure_key(*key),
            lawful::<K>(),
        ensures
            out.wf(),
            out.capacity == self.capacity,
            out@ == sorted_lines(*key, self.lines(), rev).flatten(),
    {
        let ghost all = self.lines();
        let cap: u64 = self.capacity;
        let mut file = self.file;
        let mut lines: Vec<Vec<u8>> = Vec::new();
        let mut more: bool = true;
        proof {
            assert(file.rest() =~= file@);
        }
        while more
            invariant
                file.wf(),
                lines@.len() <= all.len(),
                contents(lines@) == all.take(lines@.len() as int),
                more ==> file.pending() == all.skip(lines@.len() as int),
                !more ==> lines@.len() == all.len(),
            decreases all.len() - lines@.len() + (if more { 1int } else { 0int }),
        {
            let mut buf: Vec<u8> = Vec::new();
            if file.read_line(&mut buf) > 0 {
                proof {
                    let j = lines@.len() as int;
                    assert(buf@ =~= all[j]);
                    assert(all.take(j + 1) =~= all.take(j).push(all[j]));
                    assert(contents(lines@.push(buf)) =~= contents(lines@).push(buf@));
                }
                lines.push(buf);
            } else {
                more = false;
            }
        }
        let ghost read = lines@;
        proof {
            assert(all.take(all.len() as int) =~= all);
        }
        sort_by_cached_key(&mut lines, rev, key);
        proof {
            let wanted = keys_of(*key, all);
            if read.len() < 2 {
                crate::stable::lemma_stable_sort_short(all, wanted, rev);
            } else {
                let keys = choose|keys: Seq<K>| #[trigger]
                    keyed_by(key, read, keys) && lines@ == stable_sort(read, keys, rev);
                assert forall|i: int| 0 <= i < keys.len() implies keys[i] == wanted[i] by {
                    lemma_key_of(*key, read[i], keys[i]);
                }
                assert(keys =~= wanted);
                crate::stable::lemma_stable_order(keys, rev);
            }
            assert(contents(lines@) == sorted_lines(*key, all, rev));
        }
        let mut out = Store::new();
        let mut i: usize = 0;
        let n: usize = lines.len();
        proof {
            assert(contents(lines@).take(0).flatten() =~= out@);
        }
        while i < n
            invariant
                i <= n,
                n == lines@.len(),
                out.wf(),
                out@ == contents(lines@).take(i as int).flatten(),
            decreases n - i,
        {
            proof {
                let done = contents(lines@).take(i as int);
                assert(contents(lines@).take(i + 1) =~= done.push(lines@[i as int]@));
                done.lemma_flatten_push(lines@[i as int]@);
            }
            out.write(&lines[i]);
            i += 1;
        }
        proof {
            assert(contents(lines@).take(n as int) =~= contents(lines@));
        }
        rewind(&mut out);
        Chunk::new(out, cap)
    }

    /// Splits a chunk of two or more lines into two chunks that together hold its lines
    /// in the same order. A chunk of two lines gives one line to each; a longer one
    /// fills the first chunk until it holds at least half the bytes.
    pub fn split(self) -> (halves: (Chunk, Chunk))
        requires
            self.wf(),
            self.rough_count == RoughCount::Two || self.rough_count == RoughCount::ThreeOrMore,
        ensures
            halves.0.wf(),
            halves.1.wf(),
            halves.0.capacity == self.capacity,
            halves.1.capacity == self.capacity,
            halves.0.lines() == self.lines().take(split_index(self.lines())),
            halves.1.lines() == self.lines().skip(split_index(self.lines())),
            1 <= split_index(self.lines()) <= self.lines().len(),
            halves.0@ + halves.1@ == self@,
    {
        let ghost all = self.lines();
        let cap: u64 = self.capacity;
        let two: bool = self.rough_count == RoughCount::Two;
        let mid: u64 = self.file.len() / 2;
        let mut file = self.file;
        let mut writer1 = Store::new();
        let mut writer2 = Store::new();
        let mut sum: u64 = 0;
        let mut more: bool = true;
        let ghost mut j: int = 0;
        proof {
            assert(file.rest() =~= file@);
            lemma_lines_of_flatten(file@);
            lemma_lines_of_delimited(file@);
        }
        while more
            invariant
                file.wf(),
                writer1.wf(),
                delimited(all),
                all.len() >= 2,
                two == (all.len() == 2),
                mid == all.flatten().len() / 2,
                all.flatten().len() <= u64::MAX,
                0 <= j <= all.len(),
                file.pending() == all.skip(j),
                writer1@ == all.take(j).flatten(),
                sum == writer1@.len(),
                sum <= all.flatten().len(),
                more && j > 0 ==> !two && sum < mid,
                j > 0 ==> reach(all, mid as int, j) == reach(all, mid as int, 1),
                !more ==> j >= 1 && (two ==> j == 1) && (!two ==> j == reach(all, mid as int, 1)),
            decreases all.len() - j + (if more { 1int } else { 0int }),
        {
            let mut buf: Vec<u8> = Vec::new();
            let n: usize = file.read_line(&mut buf);
            if n > 0 {
                proof {
                    assert(buf@ =~= all[j]);
                    assert(all.take(j + 1) =~= all.take(j).push(all[j]));
                    all.take(j).lemma_flatten_push(all[j]);
                    assert(all.skip(j).skip(1) =~= all.skip(j + 1));
                    lemma_delimited_parts(all, j + 1);
                    crate::lines::lemma_flatten_len(all.skip(j + 1));
                }
                sum = sum + n as u64;
                writer1.write(&buf);
                proof {
                    j = j + 1;
                }
                if sum >= mid || two {
                    more = false;
                }
            } else {
                more = false;
            }
        }
        let mut rest: bool = true;
        let ghost mut k: int = 0;
        while rest
            invariant
                file.wf(),
                writer2.wf(),
                0 <= j <= all.len(),
                0 <= k <= all.len() - j,
                file.pending() == all.skip(j + k),
                writer2@ == all.skip(j).take(k).flatten(),
                !rest ==> j + k == all.len(),
            decreases all.len() - j - k + (if rest { 1int } else { 0int }),
        {
            let mut buf: Vec<u8> = Vec::new();
            if file.read_line(&mut buf) > 0 {
                proof {
                    assert(all.skip(j).take(k + 1) =~= all.skip(j).take(k).push(all[j + k]));
                    all.skip(j).take(k).lemma_flatten_push(all[j + k]);
                    k = k + 1;
                }
                writer2.write(&buf);
            } else {
                rest = false;
            }
        }
        proof {
            assert(all.skip(j).take(k) =~= all.skip(j));
            lemma_delimited_parts(all, j);
            lemma_flatten_lines_of(all.take(j));
            lemma_flatten_lines_of(all.skip(j));
        }
        rewind(&mut writer1);
        rewind(&mut writer2);
        (Chunk::new(writer1, cap), Chunk::new(writer2, cap))
    }
}

} // verus!
