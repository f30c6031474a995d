//! Byte-level text primitives shared by the parser and the serializer:
//! line splitting in the style of buffered readers (split at LF, strip one
//! trailing CR), CRLF termination, prefix tests, ASCII literals as bytes,
//! and decimal rendering of integers.

use vstd::prelude::*;
use vstd::utf8::{encode_utf8, is_ascii_chars, is_ascii_chars_encode_utf8};

verus! {

/// Line feed, `\n`.
pub const LF: u8 = 10;

/// Carriage return, `\r`.
pub const CR: u8 = 13;

/// The quoting character `>`.
pub const GT: u8 = 62;

/// The bytes of an ASCII string, one byte per character.
pub open spec fn ascii_bytes(s: Seq<char>) -> Seq<u8> {
    s.map_values(|c: char| c as u8)
}

/// Copy the bytes of an ASCII string.
pub fn ascii_str_bytes(s: &str) -> (r: Vec<u8>)
    requires
        is_ascii_chars(s@),
    ensures
        r@ == ascii_bytes(s@),
{
    proof {
        is_ascii_chars_encode_utf8(s@);
        assert(encode_utf8(s@) =~= ascii_bytes(s@));
    }
    vstd::slice::slice_to_vec(s.as_bytes())
}

/// Index of the first line feed in `s`, or `s.len()` if there is none.
pub open spec fn find_lf(s: Seq<u8>) -> int
    decreases s.len(),
{
    if s.len() == 0 {
        0
    } else if s[0] == LF {
        0
    } else {
        1 + find_lf(s.skip(1))
    }
}

pub proof fn lemma_find_lf(s: Seq<u8>)
    ensures
        0 <= find_lf(s) <= s.len(),
        forall|k: int| 0 <= k < find_lf(s) ==> s[k] != LF,
        find_lf(s) < s.len() ==> s[find_lf(s)] == LF,
    decreases s.len(),
{
    if s.len() == 0 {
    } else if s[0] == LF {
    } else {
        lemma_find_lf(s.skip(1));
        assert forall|k: int| 0 <= k < find_lf(s) implies s[k] != LF by {
            if k > 0 {
                assert(s.skip(1)[k - 1] != LF);
            }
        }
    }
}

/// A line with a single trailing carriage return removed, if there is one.
pub open spec fn strip_cr(l: Seq<u8>) -> Seq<u8> {
    if l.len() > 0 && l[l.len() - 1] == CR {
        l.drop_last()
    } else {
        l
    }
}

/// The lines of `s`: split at each LF, with one trailing CR stripped from
/// each piece, and a final piece without LF kept. This is the discipline of
/// the standard library's line iterators.
pub open spec fn lines_of(s: Seq<u8>) -> Seq<Seq<u8>>
    decreases s.len(),
    via lines_of_decreases
{
    if s.len() == 0 {
        Seq::empty()
    } else if find_lf(s) == s.len() {
        seq![strip_cr(s)]
    } else {
        seq![strip_cr(s.take(find_lf(s)))] + lines_of(s.skip(find_lf(s) + 1))
    }
}

#[via_fn]
proof fn lines_of_decreases(s: Seq<u8>) {
    lemma_find_lf(s);
}

/// A sequence of bytes with no line feed in it.
pub open spec fn has_no_lf(s: Seq<u8>) -> bool {
    forall|k: int| 0 <= k < s.len() ==> s[k] != LF
}

/// If `s` has no line feed, the first line feed of `s + t` lies in `t`.
pub proof fn lemma_find_lf_append(s: Seq<u8>, t: Seq<u8>)
    requires
        has_no_lf(s),
    ensures
        find_lf(s + t) == s.len() + find_lf(t),
    decreases s.len(),
{
    if s.len() == 0 {
        assert(s + t =~= t);
    } else {
        lemma_find_lf_append(s.skip(1), t);
        assert((s + t).skip(1) =~= s.skip(1) + t);
        assert(s.skip(1).len() == s.len() - 1);
    }
}

/// Peeling one full line off the front of a byte sequence.
pub proof fn lemma_lines_of_line(cur: Seq<u8>, rest: Seq<u8>)
    requires
        has_no_lf(cur),
    ensures
        lines_of(cur + seq![LF] + rest) == seq![strip_cr(cur)] + lines_of(rest),
{
    let s = cur + seq![LF] + rest;
    lemma_find_lf_append(cur, seq![LF] + rest);
    assert((seq![LF] + rest)[0] == LF);
    assert(find_lf(seq![LF] + rest) == 0);
    assert(s =~= cur + (seq![LF] + rest));
    assert(find_lf(s) == cur.len());
    assert(find_lf(s) < s.len());
    assert(s.take(cur.len() as int) =~= cur);
    assert(s.skip(cur.len() as int + 1) =~= rest);
}

/// A byte sequence without line feeds is one line (or no line when empty).
pub proof fn lemma_lines_of_tail(cur: Seq<u8>)
    requires
        has_no_lf(cur),
        cur.len() > 0,
    ensures
        lines_of(cur) == seq![strip_cr(cur)],
{
    lemma_find_lf(cur);
    assert(find_lf(cur) == cur.len());
}

/// A sequence of bytes that stands on one line: no LF and no CR in it.
pub open spec fn line_clean(s: Seq<u8>) -> bool {
    forall|k: int| 0 <= k < s.len() ==> s[k] != LF && s[k] != CR
}

/// A line re-terminated with CR LF.
pub open spec fn with_crlf(l: Seq<u8>) -> Seq<u8> {
    l + seq![CR, LF]
}

/// The concatenation of the given lines, each re-terminated with CR LF.
pub open spec fn cat_crlf(ls: Seq<Seq<u8>>) -> Seq<u8>
    decreases ls.len(),
{
    if ls.len() == 0 {
        Seq::empty()
    } else {
        with_crlf(ls[0]) + cat_crlf(ls.skip(1))
    }
}

/// `p` stands at the front of `s`.
pub open spec fn begins_with(s: Seq<u8>, p: Seq<u8>) -> bool {
    p.len() <= s.len() && s.take(p.len() as int) == p
}

/// Whether `p` stands at the front of `s`.
pub fn slice_begins_with(s: &[u8], p: &[u8]) -> (r: bool)
    ensures
        r == begins_with(s@, p@),
{
    if p.len() > s.len() {
        return false;
    }
    let mut i: usize = 0;
    while i < p.len()
        invariant
            0 <= i <= p@.len() <= s@.len(),
            forall|k: int| 0 <= k < i ==> s@[k] == p@[k],
        decreases p@.len() - i,
    {
        if s[i] != p[i] {
            proof {
                assert(s@.take(p@.len() as int)[i as int] == s@[i as int]);
            }
            return false;
        }
        i += 1;
    }
    proof {
        assert(s@.take(p@.len() as int) =~= p@);
    }
    true
}

/// Append all of `s` to `out`.
pub fn push_bytes(out: &mut Vec<u8>, s: &[u8])
    ensures
        final(out)@ == old(out)@ + s@,
{
    let ghost base = out@;
    let mut i: usize = 0;
    while i < s.len()
        invariant
            0 <= i <= s@.len(),
            out@ == base + s@.take(i as int),
        decreases s@.len() - i,
    {
        out.push(s[i]);
        proof {
            assert(base + s@.take(i as int) + seq![s@[i as int]] =~= base + s@.take(i + 1));
        }
        i += 1;
    }
    proof {
        assert(base + s@.take(s@.len() as int) =~= base + s@);
    }
}

/// The decimal digits of `n`.
pub open spec fn dec_nat(n: nat) -> Seq<u8>
    decreases n,
{
    if n < 10 {
        seq![(48 + n) as u8]
    } else {
        dec_nat(n / 10) + seq![(48 + n % 10) as u8]
    }
}

/// The decimal rendering of `n`, with a leading `-` when negative.
pub open spec fn dec_int(n: int) -> Seq<u8> {
    if n >= 0 {
        dec_nat(n as nat)
    } else {
        seq![45u8] + dec_nat((-n) as nat)
    }
}

/// Render `n` in decimal.
pub fn fmt_u64(n: u64) -> (r: Vec<u8>)
    ensures
        r@ == dec_nat(n as nat),
    decreases n,
{
    if n < 10 {
        let mut v: Vec<u8> = Vec::new();
        v.push(48 + (n as u8));
        proof {
            assert(v@ =~= dec_nat(n as nat));
        }
        v
    } else {
        let mut v = fmt_u64(n / 10);
        v.push(48 + ((n % 10) as u8));
        proof {
            assert(v@ =~= dec_nat(n as nat));
        }
        v
    }
}

/// Render `n` in decimal, with a leading `-` when negative.
pub fn fmt_i64(n: i64) -> (r: Vec<u8>)
    ensures
        r@ == dec_int(n as int),
{
    if n >= 0 {
        fmt_u64(n as u64)
    } else {
        let mag: u64 = (-(n as i128)) as u64;
        proof {
            assert(mag == -(n as int));
        }
        let mut v: Vec<u8> = Vec::new();
        v.push(45);
        let mut digits = fmt_u64(mag);
        v.append(&mut digits);
        proof {
            assert(v@ =~= dec_int(n as int));
        }
        v
    }
}

} // verus!
