//! The lines of a byte stream: each runs up to and including the next delimiter, and the
//! last one may lack it.

use vstd::prelude::*;
use vstd::seq_lib::lemma_flatten_concat;

verus! {

/// The byte that ends a line.
pub const DELIMITER: u8 = 10;

/// The length of the first line of `s`, its delimiter included; `0` where `s` is empty.
pub open spec fn line_len(s: Seq<u8>) -> int
    decreases s.len(),
{
    if s.len() == 0 {
        0
    } else if s[0] == DELIMITER {
        1
    } else {
        1 + line_len(s.skip(1))
    }
}

/// The lines of `s`, in order. Each includes its delimiter; only the last may lack one.
pub open spec fn lines_of(s: Seq<u8>) -> Seq<Seq<u8>>
    decreases s.len(),
{
    if s.len() == 0 {
        Seq::empty()
    } else {
        proof {
            lemma_line_len_bounds(s);
        }
        seq![s.take(line_len(s))] + lines_of(s.skip(line_len(s)))
    }
}

/// `l` is one line: it is not empty and holds no delimiter before its last byte.
pub open spec fn is_line(l: Seq<u8>) -> bool {
    &&& l.len() > 0
    &&& forall|j: int| 0 <= j < l.len() - 1 ==> l[j] != DELIMITER
}

/// `l` ends with the delimiter.
pub open spec fn is_ended(l: Seq<u8>) -> bool {
    l.len() > 0 && l.last() == DELIMITER
}

/// `ls` reads back as it was written: every item is one line, and every line but the
/// last ends with the delimiter.
pub open spec fn delimited(ls: Seq<Seq<u8>>) -> bool {
    forall|i: int|
        0 <= i < ls.len() ==> is_line(#[trigger] ls[i]) && (i < ls.len() - 1 ==> is_ended(ls[i]))
}

/// The first line of a stream that is not empty holds at least one byte and no more
/// than the stream.
pub proof fn lemma_line_len_bounds(s: Seq<u8>)
    ensures
        s.len() > 0 ==> 1 <= line_len(s) <= s.len(),
        s.len() == 0 ==> line_len(s) == 0,
    decreases s.len(),
{
    if s.len() > 0 && s[0] != DELIMITER {
        lemma_line_len_bounds(s.skip(1));
    }
}

/// The first line ends right after the first delimiter, or where the stream ends.
pub proof fn lemma_line_len_scan(s: Seq<u8>, k: int)
    requires
        0 <= k <= s.len(),
        forall|j: int| 0 <= j < k ==> s[j] != DELIMITER,
    ensures
        k < s.len() && s[k] == DELIMITER ==> line_len(s) == k + 1,
        k == s.len() ==> line_len(s) == k,
        line_len(s) >= k,
    decreases k,
{
    if k > 0 {
        let t = s.skip(1);
        lemma_line_len_scan(t, k - 1);
    } else {
        lemma_line_len_bounds(s);
    }
}

/// No delimiter stands before the last byte of the first line.
pub proof fn lemma_first_line(s: Seq<u8>)
    requires
        s.len() > 0,
    ensures
        is_line(s.take(line_len(s))),
        line_len(s) < s.len() ==> is_ended(s.take(line_len(s))),
    decreases s.len(),
{
    lemma_line_len_bounds(s);
    if s[0] != DELIMITER {
        let t = s.skip(1);
        if t.len() > 0 {
            lemma_first_line(t);
            let n = line_len(s);
            assert forall|j: int| 0 <= j < n - 1 implies s.take(n)[j] != DELIMITER by {
                if j > 0 {
                    assert(s.take(n)[j] == t.take(n - 1)[j - 1]);
                }
            }
        }
    }
}

/// A line followed by more bytes is the first line of the whole, provided it is ended
/// or nothing follows.
pub proof fn lemma_line_len_of_line(l: Seq<u8>, more: Seq<u8>)
    requires
        is_line(l),
        is_ended(l) || more.len() == 0,
    ensures
        line_len(l + more) == l.len(),
{
    let s = l + more;
    if is_ended(l) {
        lemma_line_len_scan(s, l.len() - 1);
    } else {
        lemma_line_len_scan(s, l.len() as int);
    }
}

/// Reading a stream peels its first line off the lines that are pending.
pub proof fn lemma_lines_of_step(s: Seq<u8>)
    ensures
        s.len() == 0 <==> lines_of(s).len() == 0,
        s.len() > 0 ==> {
            &&& lines_of(s)[0] == s.take(line_len(s))
            &&& lines_of(s).skip(1) == lines_of(s.skip(line_len(s)))
            &&& lines_of(s)[0].len() == line_len(s)
            &&& line_len(s) >= 1
        },
{
    if s.len() > 0 {
        lemma_line_len_bounds(s);
    }
}

/// The lines of a stream are delimited.
pub proof fn lemma_lines_of_delimited(s: Seq<u8>)
    ensures
        delimited(lines_of(s)),
    decreases s.len(),
{
    if s.len() > 0 {
        lemma_line_len_bounds(s);
        lemma_first_line(s);
        let n = line_len(s);
        let tail = s.skip(n);
        lemma_lines_of_delimited(tail);
    }
}

/// Nothing is lost between the lines: joined again, they are the stream.
pub proof fn lemma_lines_of_flatten(s: Seq<u8>)
    ensures
        lines_of(s).flatten() == s,
    decreases s.len(),
{
    if s.len() > 0 {
        lemma_line_len_bounds(s);
        let n = line_len(s);
        lemma_lines_of_flatten(s.skip(n));
        lemma_flatten_concat(seq![s.take(n)], lines_of(s.skip(n)));
        seq![s.take(n)].lemma_flatten_one_element();
    }
}

/// Delimited lines, joined and read back, are the same lines.
pub proof fn lemma_flatten_lines_of(ls: Seq<Seq<u8>>)
    requires
        delimited(ls),
    ensures
        lines_of(ls.flatten()) == ls,
    decreases ls.len(),
{
    if ls.len() > 0 {
        let head = ls.first();
        let tail = ls.drop_first();
        lemma_flatten_lines_of(tail);
        let s = ls.flatten();
        lemma_line_len_of_line(head, tail.flatten());
        assert(s.take(head.len() as int) =~= head);
        assert(s.skip(head.len() as int) =~= tail.flatten());
    }
}

/// The total length of lines that are not empty grows with every line.
pub proof fn lemma_flatten_len(ls: Seq<Seq<u8>>)
    requires
        forall|i: int| 0 <= i < ls.len() ==> (#[trigger] ls[i]).len() > 0,
    ensures
        ls.flatten().len() >= ls.len(),
    decreases ls.len(),
{
    if ls.len() > 0 {
        let tail = ls.drop_first();
        lemma_flatten_len(tail);
    }
}

/// A run of delimited lines is delimited, and so is what it is cut into.
pub proof fn lemma_delimited_parts(ls: Seq<Seq<u8>>, j: int)
    requires
        delimited(ls),
        0 <= j <= ls.len(),
    ensures
        delimited(ls.take(j)),
        delimited(ls.skip(j)),
        ls.take(j).flatten() + ls.skip(j).flatten() == ls.flatten(),
{
    let (a, b) = (ls.take(j), ls.skip(j));
    lemma_flatten_concat(a, b);
    assert(a + b =~= ls);
}

/// Bytes without a delimiter only lengthen the first line of what follows them.
pub proof fn lemma_line_len_after_plain(l: Seq<u8>, more: Seq<u8>)
    requires
        forall|j: int| 0 <= j < l.len() ==> l[j] != DELIMITER,
    ensures
        line_len(l + more) == l.len() + line_len(more),
    decreases l.len(),
{
    if l.len() > 0 {
        let s = l + more;
        assert(s.skip(1) =~= l.skip(1) + more);
        lemma_line_len_after_plain(l.skip(1), more);
    }
}

/// Of lines written one after another, the first few make up the first line that is
/// read back, and the others make up the rest. Returns how many those first few are.
pub proof fn lemma_first_group(s: Seq<Seq<u8>>) -> (r: int)
    requires
        s.len() > 0,
        forall|i: int| 0 <= i < s.len() ==> is_line(#[trigger] s[i]),
    ensures
        1 <= r <= s.len(),
        s.flatten().len() > 0,
        lines_of(s.flatten())[0] == s.take(r).flatten(),
        lines_of(s.flatten()).skip(1) == lines_of(s.skip(r).flatten()),
    decreases s.len(),
{
    let head = s.first();
    let tail = s.drop_first();
    let flat = s.flatten();
    if is_ended(head) || s.len() == 1 {
        lemma_line_len_of_line(head, tail.flatten());
        assert(s.take(1) =~= seq![head]);
        seq![head].lemma_flatten_one_element();
        assert(flat.skip(head.len() as int) =~= tail.flatten());
        1
    } else {
        let r = lemma_first_group(tail);
        lemma_line_len_after_plain(head, tail.flatten());
        let n = line_len(tail.flatten());
        lemma_line_len_bounds(tail.flatten());
        assert(s.take(r + 1) =~= seq![head] + tail.take(r));
        lemma_flatten_concat(seq![head], tail.take(r));
        seq![head].lemma_flatten_one_element();
        assert(flat.skip(head.len() + n) =~= tail.flatten().skip(n));
        assert(s.skip(r + 1) =~= tail.skip(r));
        r + 1
    }
}

} // verus!
