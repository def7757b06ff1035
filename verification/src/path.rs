//! Paths as text: segments between slashes, with escapes for the bytes
//! that a segment cannot hold as they are.

use vstd::prelude::*;
use crate::serde::{text_of, utf8_lossy};

verus! {

/// Whether a byte of a segment is written as an escape: a control, a slash,
/// a hash, a question mark, or a byte that is not ASCII.
pub open spec fn is_escaped(byte: u8) -> bool {
    byte >= 0x80 || byte <= 0x1f || byte == 0x7f || byte == 0x2f || byte == 0x23 || byte == 0x3f
}

/// The digit that stands for `value` in an escape: `0` to `9`, then `A` to `F`.
pub open spec fn hex_digit(value: u8) -> u8 {
    if value < 10 {
        (48 + value) as u8
    } else {
        (55 + value) as u8
    }
}

/// The escape of a byte: a percent sign and the byte's two hexadecimal digits.
pub open spec fn escape_of(byte: u8) -> Seq<u8> {
    seq![37u8, hex_digit(byte / 16), hex_digit(byte % 16)]
}

/// The bytes of a segment as they are written in a path: each byte that
/// `is_escaped` names as its escape, each other byte as itself.
pub open spec fn escaped(bytes: Seq<u8>) -> Seq<u8>
    decreases bytes.len(),
{
    if bytes.len() == 0 {
        Seq::empty()
    } else {
        escaped(bytes.drop_last()) + if is_escaped(bytes.last()) {
            escape_of(bytes.last())
        } else {
            seq![bytes.last()]
        }
    }
}

/// The value of a hexadecimal digit, in either case.
pub open spec fn hex_value(digit: u8) -> Option<u8> {
    if 48 <= digit <= 57 {
        Some((digit - 48) as u8)
    } else if 65 <= digit <= 70 {
        Some((digit - 55) as u8)
    } else if 97 <= digit <= 102 {
        Some((digit - 87) as u8)
    } else {
        None
    }
}

/// The bytes that the bytes of a written segment stand for: a percent sign
/// with two hexadecimal digits behind it stands for the byte of that value,
/// every other byte for itself.
pub open spec fn unescaped(bytes: Seq<u8>) -> Seq<u8>
    decreases bytes.len(),
{
    if bytes.len() == 0 {
        Seq::empty()
    } else if bytes[0] == 37 && bytes.len() >= 3 && hex_value(bytes[1]) is Some && hex_value(
        bytes[2],
    ) is Some {
        seq![(hex_value(bytes[1]).unwrap() * 16 + hex_value(bytes[2]).unwrap()) as u8] + unescaped(
            bytes.skip(3),
        )
    } else {
        seq![bytes[0]] + unescaped(bytes.drop_first())
    }
}

/// Calls `percent_encoding::percent_encode_byte`, which gives the escape of a
/// byte: a percent sign and two upper-case hexadecimal digits.
#[verifier::external_body]
fn percent_encode_byte(byte: u8) -> (escape: &'static [u8])
    ensures
        escape@ == escape_of(byte),
{
    percent_encoding::percent_encode_byte(byte).as_bytes()
}

/// Calls `percent_encoding::percent_decode` and `decode_utf8_lossy` on what it
/// gives: the escapes among the bytes are replaced by the bytes they stand
/// for, and the result is read as text as `String::from_utf8_lossy` does.
#[verifier::external_body]
fn percent_decode_lossy(bytes: &[u8]) -> (text: String)
    ensures
        text@ == text_of(unescaped(bytes@)),
{
    percent_encoding::percent_decode(bytes).decode_utf8_lossy().into_owned()
}

/// The number of bytes at the front of `bytes` before the first slash.
pub open spec fn run_len(bytes: Seq<u8>) -> int
    decreases bytes.len(),
{
    if bytes.len() == 0 || bytes[0] == 47 {
        0
    } else {
        1 + run_len(bytes.drop_first())
    }
}

/// The segments that the bytes of a written path fall into: the runs of
/// bytes between slashes, without the empty ones.
pub open spec fn split(bytes: Seq<u8>) -> Seq<Seq<u8>>
    decreases bytes.len(),
{
    let n = run_len(bytes);
    if bytes.len() == 0 {
        Seq::empty()
    } else if bytes[0] == 47 {
        split(bytes.drop_first())
    } else if 0 < n <= bytes.len() {
        seq![bytes.take(n)] + split(bytes.skip(n))
    } else {
        Seq::empty()
    }
}

/// Bytes that begin with `m` bytes other than a slash, and have a slash or
/// nothing behind them, begin with a run of `m` bytes.
pub proof fn lemma_run_len(bytes: Seq<u8>, m: int)
    requires
        0 <= m <= bytes.len(),
        forall|k: int| 0 <= k < m ==> bytes[k] != 47,
        m == bytes.len() || bytes[m] == 47,
    ensures
        run_len(bytes) == m,
    decreases m,
{
    if m > 0 {
        let rest = bytes.drop_first();
        assert forall|k: int| 0 <= k < m - 1 implies rest[k] != 47 by {
            assert(rest[k] == bytes[k + 1]);
        }
        lemma_run_len(rest, m - 1);
    }
}

/// The texts that the segments `parts` stand for.
pub open spec fn decoded(parts: Seq<Seq<u8>>) -> Seq<Seq<char>> {
    Seq::new(parts.len(), |i: int| text_of(unescaped(parts[i])))
}

/// The bytes of the segments `segments` written as a path: the segments in
/// order, each with its escapes, and a slash between one and the next.
pub open spec fn joined(segments: Seq<Seq<char>>) -> Seq<u8>
    decreases segments.len(),
{
    if segments.len() == 0 {
        Seq::empty()
    } else if segments.len() == 1 {
        escaped(vstd::utf8::encode_utf8(segments[0]))
    } else {
        joined(segments.drop_last()) + seq![47u8] + escaped(
            vstd::utf8::encode_utf8(segments.last()),
        )
    }
}

/// A path: the names that lead from the root directory to a directory or a
/// file, one for each step.
#[derive(Debug)]
pub struct Path {
    pub segments: Vec<String>,
}

impl View for Path {
    type V = Seq<Seq<char>>;

    /// The names of the path, in order.
    open spec fn view(&self) -> Seq<Seq<char>> {
        Seq::new(self.segments@.len(), |i: int| self.segments@[i]@)
    }
}

impl Path {
    /// The path that `text` spells: its segments between slashes, the empty
    /// ones left out, each with its escapes replaced.
    pub fn parse(text: &str) -> (path: Self)
        ensures
            path@ == decoded(split(vstd::utf8::encode_utf8(text@))),
    {
        let bytes = text.as_bytes();
        let mut segments: Vec<String> = Vec::new();
        let ghost mut parts: Seq<Seq<u8>> = Seq::empty();
        let mut start: usize = 0;
        let mut i: usize = 0;
        proof {
            assert(bytes@.skip(0) =~= bytes@);
        }
        while i < bytes.len()
            invariant
                start <= i <= bytes@.len(),
                forall|k: int| start <= k < i ==> bytes@[k] != 47,
                split(bytes@) == parts + split(bytes@.skip(start as int)),
                segments@.len() == parts.len(),
                forall|k: int|
                    0 <= k < parts.len() ==> (#[trigger] segments@[k])@ == text_of(
                        unescaped(parts[k]),
                    ),
            decreases bytes@.len() - i,
        {
            if bytes[i] == 47u8 {
                let ghost rest = bytes@.skip(start as int);
                if i > start {
                    let part = vstd::slice::slice_subrange(bytes, start, i);
                    segments.push(percent_decode_lossy(part));
                    proof {
                        lemma_run_len(rest, i - start);
                        assert(rest[0] == bytes@[start as int]);
                        assert(split(rest) == seq![rest.take(i - start)] + split(
                            rest.skip(i - start),
                        ));
                        assert(rest.take(i - start) =~= part@);
                        assert(rest.skip(i - start) =~= bytes@.skip(i as int));
                        assert(bytes@.skip(i as int)[0] == 47);
                        assert(bytes@.skip(i as int).drop_first() =~= bytes@.skip(i + 1));
                        assert(split(bytes@.skip(i as int)) == split(bytes@.skip(i + 1)));
                        assert(parts + (seq![part@] + split(bytes@.skip(i + 1))) =~= parts.push(
                            part@,
                        ) + split(bytes@.skip(i + 1)));
                        parts = parts.push(part@);
                    }
                } else {
                    proof {
                        assert(rest[0] == 47);
                        assert(rest.drop_first() =~= bytes@.skip(i + 1));
                        assert(split(rest) == split(bytes@.skip(i + 1)));
                    }
                }
                start = i + 1;
            }
            i = i + 1;
        }
        if i > start {
            let ghost rest = bytes@.skip(start as int);
            let part = vstd::slice::slice_subrange(bytes, start, i);
            segments.push(percent_decode_lossy(part));
            proof {
                lemma_run_len(rest, i - start);
                assert(rest[0] == bytes@[start as int]);
                assert(split(rest) == seq![rest.take(i - start)] + split(rest.skip(i - start)));
                assert(rest.take(i - start) =~= part@);
                assert(rest.skip(i - start) =~= Seq::<u8>::empty());
                assert(split(Seq::<u8>::empty()) =~= Seq::<Seq<u8>>::empty());
                assert(parts + (seq![part@] + Seq::<Seq<u8>>::empty()) =~= parts.push(part@));
                parts = parts.push(part@);
            }
        } else {
            proof {
                assert(bytes@.skip(start as int) =~= Seq::<u8>::empty());
                assert(parts + Seq::<Seq<u8>>::empty() =~= parts);
            }
        }
        let path = Path { segments };
        proof {
            assert(path@ =~= decoded(parts));
            assert(parts == split(bytes@));
            assert(bytes@ == vstd::utf8::encode_utf8(text@));
        }
        path
    }

    /// The text that spells the path: its names in order, each with its
    /// escapes, and a slash between one and the next.
    pub fn to_text(&self) -> (text: String)
        ensures
            text@ == text_of(joined(self@)),
    {
        let mut out: Vec<u8> = Vec::new();
        let mut i: usize = 0;
        proof {
            assert(self@.take(0) =~= Seq::<Seq<char>>::empty());
        }
        while i < self.segments.len()
            invariant
                i <= self.segments@.len(),
                self@.len() == self.segments@.len(),
                out@ == joined(self@.take(i as int)),
            decreases self.segments@.len() - i,
        {
            let ghost before = out@;
            if i > 0 {
                out.push(47u8);
            }
            let bytes = self.segments[i].as_str().as_bytes();
            let ghost lead = out@;
            let mut k: usize = 0;
            while k < bytes.len()
                invariant
                    k <= bytes@.len(),
                    out@ == lead + escaped(bytes@.take(k as int)),
                decreases bytes@.len() - k,
            {
                let byte = bytes[k];
                let ghost sofar = out@;
                if byte >= 0x80 || byte <= 0x1f || byte == 0x7f || byte == 0x2f || byte == 0x23
                    || byte == 0x3f {
                    let escape = percent_encode_byte(byte);
                    let mut e: usize = 0;
                    while e < escape.len()
                        invariant
                            e <= escape@.len(),
                            out@ == sofar + escape@.take(e as int),
                        decreases escape@.len() - e,
                    {
                        out.push(escape[e]);
                        proof {
                            assert(out@ =~= sofar + escape@.take(e + 1));
                        }
                        e = e + 1;
                    }
                    proof {
                        assert(escape@.take(e as int) =~= escape@);
                    }
                } else {
                    out.push(byte);
                }
                proof {
                    assert(bytes@.take(k + 1).drop_last() =~= bytes@.take(k as int));
                    assert(out@ =~= lead + escaped(bytes@.take(k + 1)));
                }
                k = k + 1;
            }
            proof {
                assert(bytes@.take(k as int) =~= bytes@);
                assert(self@.take(i + 1).drop_last() =~= self@.take(i as int));
                assert(self@.take(i + 1).last() == self.segments@[i as int]@);
                assert(bytes@ == vstd::utf8::encode_utf8(self.segments@[i as int]@));
            }
            i = i + 1;
        }
        proof {
            assert(self@.take(i as int) =~= self@);
        }
        utf8_lossy(out.as_slice())
    }

    /// Takes the last name off the path and returns it.
    pub fn pop(&mut self) -> (last: Option<String>)
        ensures
            old(self).segments@.len() == 0 ==> last is None
                && final(self).segments@ == old(self).segments@,
            old(self).segments@.len() > 0 ==> last == Some(old(self).segments@.last())
                && final(self).segments@ == old(self).segments@.drop_last(),
    {
        self.segments.pop()
    }

    /// The number of names in the path.
    pub fn len(&self) -> (len: usize)
        ensures
            len == self@.len(),
    {
        self.segments.len()
    }
}

} // verus!
