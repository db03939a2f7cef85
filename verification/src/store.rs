//! A private, seekable byte container, and the operations that scan one line by line.

use crate::lines::DELIMITER;
use crate::lines::lemma_line_len_scan;
use crate::lines::lemma_lines_of_step;
use crate::lines::lines_of;
use vstd::prelude::*;

verus! {

/// A byte container with a read position. Writing appends to it; reading takes one line
/// at a time from the read position onwards.
pub struct Store {
    bytes: Vec<u8>,
    cursor: usize,
}

impl View for Store {
    type V = Seq<u8>;

    /// Every byte the container holds, whatever the read position.
    closed spec fn view(&self) -> Seq<u8> {
        self.bytes@
    }
}

impl Store {
    /// The read position: the number of bytes that reading has passed.
    pub closed spec fn position(&self) -> nat {
        self.cursor as nat
    }

    /// The read position lies within the container.
    pub closed spec fn wf(&self) -> bool {
        self.cursor <= self.bytes@.len()
    }

    /// The bytes from the read position onwards.
    pub open spec fn rest(&self) -> Seq<u8> {
        self@.skip(self.position() as int)
    }

    /// The lines from the read position onwards.
    pub open spec fn pending(&self) -> Seq<Seq<u8>> {
        lines_of(self.rest())
    }

    /// A fresh, empty container.
    pub fn new() -> (s: Store)
        ensures
            s.wf(),
            s@ == Seq::<u8>::empty(),
            s.position() == 0,
    {
        Store { bytes: Vec::new(), cursor: 0 }
    }

    /// A container that holds `bytes`, with the read position at offset 0.
    pub fn from_bytes(bytes: Vec<u8>) -> (s: Store)
        ensures
            s.wf(),
            s@ == bytes@,
            s.position() == 0,
    {
        Store { bytes, cursor: 0 }
    }

    /// Gives up the container for the bytes it holds.
    pub fn into_bytes(self) -> (bytes: Vec<u8>)
        ensures
            bytes@ == self@,
    {
        self.bytes
    }

    /// The number of bytes the container holds.
    pub fn len(&self) -> (n: u64)
        ensures
            n == self@.len(),
    {
        self.bytes.len() as u64
    }

    /// Appends the next line, its delimiter included, to `buf` and moves the read
    /// position past it. Returns the number of bytes read, which is 0 only when no line
    /// is pending.
    pub fn read_line(&mut self, buf: &mut Vec<u8>) -> (n: usize)
        requires
            old(self).wf(),
        ensures
            final(self).wf(),
            final(self)@ == old(self)@,
            final(self).position() == old(self).position() + n,
            old(self).pending().len() == 0 ==> n == 0 && final(buf)@ == old(buf)@,
            old(self).pending().len() > 0 ==> {
                &&& n > 0
                &&& n == old(self).pending()[0].len()
                &&& final(buf)@ == old(buf)@ + old(self).pending()[0]
                &&& final(self).pending() == old(self).pending().skip(1)
            },
    {
        let start: usize = self.cursor;
        let len: usize = self.bytes.len();
        let mut at: usize = start;
        let mut ended: bool = false;
        while at < len && !ended
            invariant
                start <= at <= len,
                len == self.bytes@.len(),
                self.bytes@ == old(self).bytes@,
                self.cursor == start,
                buf@ == old(buf)@ + self.bytes@.subrange(start as int, at as int),
                ended ==> at > start && self.bytes@[at - 1] == DELIMITER,
                forall|j: int|
                    start <= j < at - (if ended {
                        1int
                    } else {
                        0int
                    }) ==> self.bytes@[j] != DELIMITER,
            decreases len - at + (if ended { 0int } else { 1int }),
        {
            let b: u8 = self.bytes[at];
            buf.push(b);
            at += 1;
            if b == DELIMITER {
                ended = true;
            }
        }
        self.cursor = at;
        proof {
            let rest = old(self).rest();
            let consumed = at - start;
            if ended {
                lemma_line_len_scan(rest, consumed - 1);
            } else {
                lemma_line_len_scan(rest, consumed);
            }
            assert(self.rest() =~= rest.skip(consumed));
        }
        at - start
    }

    /// Appends `bytes` to the container and leaves the read position at its end.
    pub fn write(&mut self, bytes: &Vec<u8>)
        requires
            old(self).wf(),
        ensures
            final(self).wf(),
            final(self)@ == old(self)@ + bytes@,
            final(self).position() == final(self)@.len(),
    {
        self.bytes.extend_from_slice(bytes.as_slice());
        self.cursor = self.bytes.len();
    }

    /// Moves the read position back to offset 0.
    pub fn rewind(&mut self)
        requires
            old(self).wf(),
        ensures
            final(self).wf(),
            final(self)@ == old(self)@,
            final(self).position() == 0,
    {
        self.cursor = 0;
    }
}

/// A coarse count of lines: none, one, two, or more than two.
#[derive(Debug, Clone, Copy, PartialEq, Eq, Structural)]
pub enum RoughCount {
    Zero,
    One,
    Two,
    ThreeOrMore,
}

/// The coarse count for `n` lines.
pub open spec fn rough(n: nat) -> RoughCount {
    if n == 0 {
        RoughCount::Zero
    } else if n == 1 {
        RoughCount::One
    } else if n == 2 {
        RoughCount::Two
    } else {
        RoughCount::ThreeOrMore
    }
}

/// Classifies the number of lines that are pending in `f`, reading at most three of
/// them, and then moves the read position to offset 0, however many were read.
pub fn count_roughly(f: &mut Store) -> (rc: RoughCount)
    requires
        old(f).wf(),
    ensures
        final(f).wf(),
        final(f)@ == old(f)@,
        final(f).position() == 0,
        rc == rough(old(f).pending().len()),
{
    let mut buf: Vec<u8> = Vec::new();
    let mut n: u8 = 0;
    let mut more: bool = true;
    while more && n < 3
        invariant
            f.wf(),
            f@ == old(f)@,
            n <= 3,
            more ==> n + f.pending().len() == old(f).pending().len(),
            !more ==> n == old(f).pending().len(),
        decreases 3 - n + (if more { 1int } else { 0int }),
    {
        if f.read_line(&mut buf) > 0 {
            buf.clear();
            n += 1;
        } else {
            more = false;
        }
    }
    f.rewind();
    match n {
        0 => RoughCount::Zero,
        1 => RoughCount::One,
        2 => RoughCount::Two,
        _ => RoughCount::ThreeOrMore,
    }
}

/// Moves the read position of `f` back to offset 0 and returns that offset.
pub fn rewind(f: &mut Store) -> (at: u64)
    requires
        old(f).wf(),
    ensures
        final(f).wf(),
        final(f)@ == old(f)@,
        final(f).position() == 0,
        at == 0,
{
    f.rewind();
    0
}

/// Copies what is pending in `fin` to the end of `fout`, line by line and byte for byte.
pub fn copy(fin: &mut Store, fout: &mut Vec<u8>)
    requires
        old(fin).wf(),
    ensures
        final(fin).wf(),
        final(fin)@ == old(fin)@,
        final(fin).position() == final(fin)@.len(),
        final(fout)@ == old(fout)@ + old(fin).rest(),
{
    let mut buf: Vec<u8> = Vec::new();
    let mut more: bool = true;
    while more
        invariant
            fin.wf(),
            fin@ == old(fin)@,
            buf@.len() == 0,
            old(fin).position() <= fin.position() <= fin@.len(),
            fout@ == old(fout)@ + old(fin)@.subrange(
                old(fin).position() as int,
                fin.position() as int,
            ),
            !more ==> fin.position() == fin@.len(),
        decreases fin@.len() - fin.position() + (if more { 1int } else { 0int }),
    {
        proof {
            lemma_lines_of_step(fin.rest());
        }
        if fin.read_line(&mut buf) > 0 {
            fout.extend_from_slice(buf.as_slice());
            buf.clear();
        } else {
            more = false;
        }
    }
}

} // verus!
