//! The mail message: parsed from the bytes of an input stream, its header
//! block normalized in place, and rendered as an RFC 4155 mbox record.

use vstd::prelude::*;
use crate::clock::{now_envelope_stamps, now_rfc2822, now_timestamp_parts};
use crate::text::{
    ascii_bytes, ascii_str_bytes, begins_with, cat_crlf, dec_int, dec_nat, fmt_i64, fmt_u64,
    has_no_lf, lemma_lines_of_line, lemma_lines_of_tail, line_clean, lines_of, push_bytes,
    slice_begins_with, strip_cr, with_crlf, CR, GT, LF,
};

verus! {

/// Representation of a mail message.
///
/// Each header line is stored with its canonical `\r\n` terminator attached;
/// the body is one blob whose lines carry the same terminator.
#[derive(Debug)]
pub struct MailMessage {
    headers: Vec<Vec<u8>>,
    body: Vec<u8>,
}

/// The mathematical shape of a message: its header lines and its body bytes.
#[verifier::ext_equal]
pub struct MailMessageView {
    pub headers: Seq<Seq<u8>>,
    pub body: Seq<u8>,
}

/// The byte sequences the given vectors hold, in order.
pub open spec fn seq_views(ls: Seq<Vec<u8>>) -> Seq<Seq<u8>> {
    ls.map_values(|l: Vec<u8>| l@)
}

impl View for MailMessage {
    type V = MailMessageView;

    closed spec fn view(&self) -> MailMessageView {
        MailMessageView { headers: seq_views(self.headers@), body: self.body@ }
    }
}

/// Index of the first empty line, or `ls.len()` if every line is nonempty.
pub open spec fn first_blank(ls: Seq<Seq<u8>>) -> int
    decreases ls.len(),
{
    if ls.len() == 0 {
        0
    } else if ls[0].len() == 0 {
        0
    } else {
        1 + first_blank(ls.skip(1))
    }
}

pub proof fn lemma_first_blank(ls: Seq<Seq<u8>>)
    ensures
        0 <= first_blank(ls) <= ls.len(),
        forall|k: int| 0 <= k < first_blank(ls) ==> ls[k].len() != 0,
        first_blank(ls) < ls.len() ==> ls[first_blank(ls)].len() == 0,
    decreases ls.len(),
{
    if ls.len() == 0 {
    } else if ls[0].len() == 0 {
    } else {
        lemma_first_blank(ls.skip(1));
        assert forall|k: int| 0 <= k < first_blank(ls) implies ls[k].len() != 0 by {
            if k > 0 {
                assert(ls.skip(1)[k - 1].len() != 0);
            }
        }
    }
}

/// What parsing a byte stream yields: the lines strictly before the first
/// blank line become the headers and the lines strictly after it become the
/// body, every line re-terminated with CR LF; with no blank line anywhere,
/// the headers stay empty and the whole input becomes the body.
pub open spec fn spec_parse(s: Seq<u8>) -> MailMessageView {
    let ls = lines_of(s);
    let fb = first_blank(ls);
    if fb < ls.len() {
        MailMessageView {
            headers: ls.take(fb).map_values(|l: Seq<u8>| with_crlf(l)),
            body: cat_crlf(ls.skip(fb + 1)),
        }
    } else {
        MailMessageView { headers: Seq::empty(), body: cat_crlf(ls) }
    }
}

/// Split `input` into its lines: at each LF, stripping one trailing CR from
/// each piece, the last piece kept even without a terminator.
#[verifier::loop_isolation(false)]
fn split_lines(input: &[u8]) -> (ls: Vec<Vec<u8>>)
    ensures
        seq_views(ls@) == lines_of(input@),
{
    let mut ls: Vec<Vec<u8>> = Vec::new();
    let mut cur: Vec<u8> = Vec::new();
    let mut i: usize = 0;
    proof {
        assert(cur@ + input@.skip(0) =~= input@);
        assert(seq_views(ls@) + lines_of(input@) =~= lines_of(input@));
    }
    while i < input.len()
        invariant
            0 <= i <= input@.len(),
            has_no_lf(cur@),
            lines_of(input@) =~= seq_views(ls@) + lines_of(cur@ + input@.skip(i as int)),
        decreases input@.len() - i,
    {
        let ghost prev_cur = cur@;
        let ghost prev_ls = ls@;
        let b = input[i];
        if b == LF {
            let mut line = cur;
            cur = Vec::new();
            if line.len() > 0 && line[line.len() - 1] == CR {
                let _ = line.pop();
            }
            proof {
                assert(line@ =~= strip_cr(prev_cur));
            }
            ls.push(line);
            proof {
                assert(prev_cur + input@.skip(i as int) =~= prev_cur + seq![LF] + input@.skip(
                    i + 1,
                ));
                lemma_lines_of_line(prev_cur, input@.skip(i + 1));
                assert(seq_views(ls@) =~= seq_views(prev_ls).push(strip_cr(prev_cur)));
                assert(seq_views(prev_ls) + (seq![strip_cr(prev_cur)] + lines_of(
                    input@.skip(i + 1),
                )) =~= seq_views(ls@) + lines_of(cur@ + input@.skip(i + 1)));
            }
        } else {
            cur.push(b);
            proof {
                assert(prev_cur + input@.skip(i as int) =~= cur@ + input@.skip(i + 1));
            }
        }
        i += 1;
    }
    proof {
        assert(cur@ + input@.skip(input@.len() as int) =~= cur@);
    }
    if cur.len() > 0 {
        let ghost prev_cur = cur@;
        let ghost prev_ls = ls@;
        let mut line = cur;
        if line.len() > 0 && line[line.len() - 1] == CR {
            let _ = line.pop();
        }
        proof {
            assert(line@ =~= strip_cr(prev_cur));
        }
        ls.push(line);
        proof {
            lemma_lines_of_tail(prev_cur);
            assert(seq_views(ls@) =~= seq_views(prev_ls).push(strip_cr(prev_cur)));
            assert(seq_views(prev_ls) + seq![strip_cr(prev_cur)] =~= seq_views(ls@));
        }
    } else {
        proof {
            assert(lines_of(cur@) =~= Seq::<Seq<u8>>::empty());
            assert(seq_views(ls@) + Seq::<Seq<u8>>::empty() =~= seq_views(ls@));
        }
    }
    ls
}

/// Index of the first empty line of `ls`, or its length if there is none.
#[verifier::loop_isolation(false)]
fn find_first_blank(ls: &Vec<Vec<u8>>) -> (fb: usize)
    ensures
        fb as int == first_blank(seq_views(ls@)),
{
    let ghost s = seq_views(ls@);
    proof {
        lemma_first_blank(s);
    }
    let mut j: usize = 0;
    while j < ls.len()
        invariant
            0 <= j <= ls@.len(),
            s == seq_views(ls@),
            forall|k: int| 0 <= k < j ==> s[k].len() != 0,
        decreases ls@.len() - j,
    {
        if ls[j].len() == 0 {
            proof {
                assert(s[j as int].len() == 0);
            }
            return j;
        }
        proof {
            assert(s[j as int] == ls@[j as int]@);
        }
        j += 1;
    }
    j
}

/// The name prefix of a `Bcc:` header line.
pub open spec fn bcc_prefix() -> Seq<u8> {
    ascii_bytes("Bcc:"@)
}

/// The name prefix of a `Date:` header line.
pub open spec fn date_prefix() -> Seq<u8> {
    ascii_bytes("Date:"@)
}

/// The name prefix of a `Message-ID:` header line.
pub open spec fn msgid_prefix() -> Seq<u8> {
    ascii_bytes("Message-ID:"@)
}

/// The header lines with every `Bcc:` line removed, order kept.
pub open spec fn remove_bcc(hs: Seq<Seq<u8>>) -> Seq<Seq<u8>>
    decreases hs.len(),
{
    if hs.len() == 0 {
        Seq::empty()
    } else if begins_with(hs[0], bcc_prefix()) {
        remove_bcc(hs.skip(1))
    } else {
        seq![hs[0]] + remove_bcc(hs.skip(1))
    }
}

/// Some header line carries the name prefix `p`.
pub open spec fn has_line_with(hs: Seq<Seq<u8>>, p: Seq<u8>) -> bool {
    exists|k: int| 0 <= k < hs.len() && begins_with(hs[k], p)
}

/// The synthesized `Message-ID:` header line for the given instant.
pub open spec fn msgid_line(secs: int, millis: u32, micros: u32) -> Seq<u8> {
    ascii_bytes("Message-ID: <"@) + dec_int(secs) + seq![46u8] + dec_nat(millis as nat)
        + seq![46u8] + dec_nat(micros as nat) + ascii_bytes("@localhost>"@) + seq![CR, LF]
}

/// The synthesized `Date:` header line around the given RFC 2822 rendering.
pub open spec fn date_line(date: Seq<u8>) -> Seq<u8> {
    ascii_bytes("Date: "@) + date + seq![CR, LF]
}

/// What normalizing the headers yields, for a message-id built of the given
/// timestamp parts and a date built of the given rendering: every `Bcc:`
/// line removed; a `Message-ID:` line synthesized and prepended when none is
/// present; then a `Date:` line synthesized and prepended when none is
/// present. The body is left as it stands.
pub open spec fn spec_fix(
    m: MailMessageView,
    secs: int,
    millis: u32,
    micros: u32,
    date: Seq<u8>,
) -> MailMessageView {
    let h1 = remove_bcc(m.headers);
    let h2 = if !has_line_with(h1, msgid_prefix()) {
        seq![msgid_line(secs, millis, micros)] + h1
    } else {
        h1
    };
    let h3 = if !has_line_with(h2, date_prefix()) {
        seq![date_line(date)] + h2
    } else {
        h2
    };
    MailMessageView { headers: h3, body: m.body }
}

/// Every CR LF pair collapsed to a bare LF, left to right, without
/// rescanning what a collapse produced.
pub open spec fn collapse_crlf(l: Seq<u8>) -> Seq<u8>
    decreases l.len(),
{
    if l.len() == 0 {
        Seq::empty()
    } else if l.len() >= 2 && l[0] == CR && l[1] == LF {
        seq![LF] + collapse_crlf(l.skip(2))
    } else {
        seq![l[0]] + collapse_crlf(l.skip(1))
    }
}

/// The line with its leading `>` characters stripped.
pub open spec fn skip_gt(l: Seq<u8>) -> Seq<u8>
    decreases l.len(),
{
    if l.len() > 0 && l[0] == GT {
        skip_gt(l.skip(1))
    } else {
        l
    }
}

/// A line that would be misread as an mbox envelope line: after stripping
/// leading `>` characters it begins with the literal `From `.
pub open spec fn needs_quote(l: Seq<u8>) -> bool {
    begins_with(skip_gt(l), ascii_bytes("From "@))
}

/// A line as the serializer writes it: CR LF collapsed to LF, and one `>`
/// prepended when the collapsed line would be misread as an envelope line.
pub open spec fn escape(l: Seq<u8>) -> Seq<u8> {
    let c = collapse_crlf(l);
    if needs_quote(c) {
        seq![GT] + c
    } else {
        c
    }
}

/// The header lines, each escaped and written with its own terminator.
pub open spec fn cat_escaped(hs: Seq<Seq<u8>>) -> Seq<u8>
    decreases hs.len(),
{
    if hs.len() == 0 {
        Seq::empty()
    } else {
        escape(hs[0]) + cat_escaped(hs.skip(1))
    }
}

/// The body lines, each escaped and terminated with a single LF.
pub open spec fn cat_body(ls: Seq<Seq<u8>>) -> Seq<u8>
    decreases ls.len(),
{
    if ls.len() == 0 {
        Seq::empty()
    } else {
        escape(ls[0]) + seq![LF] + cat_body(ls.skip(1))
    }
}

/// The mbox record for a message: the `From ` envelope line with the sender
/// and a ctime-style timestamp, a synthetic `Received:` trace header with an
/// RFC 2822 timestamp, the escaped header lines, a blank separator, the
/// escaped body lines each ended with a single LF, and a terminating blank
/// line.
pub open spec fn spec_mbox(
    m: MailMessageView,
    sender: Seq<u8>,
    ctime: Seq<u8>,
    date: Seq<u8>,
) -> Seq<u8> {
    ascii_bytes("From "@) + sender + seq![32u8] + ctime + seq![LF]
        + ascii_bytes("Received: by localhost with sendmail_into_mbox; "@) + date + seq![LF]
        + cat_escaped(m.headers) + seq![LF] + cat_body(lines_of(m.body)) + seq![LF]
}

/// Whether the line, already collapsed, would be misread as an envelope line.
#[verifier::loop_isolation(false)]
fn from_needs_quote(c: &[u8]) -> (r: bool)
    ensures
        r == needs_quote(c@),
{
    let mut j: usize = 0;
    proof {
        assert(c@.skip(0) =~= c@);
    }
    while j < c.len() && c[j] == GT
        invariant
            0 <= j <= c@.len(),
            skip_gt(c@) == skip_gt(c@.skip(j as int)),
        decreases c@.len() - j,
    {
        proof {
            assert(c@.skip(j as int).skip(1) =~= c@.skip(j + 1));
        }
        j += 1;
    }
    proof {
        assert(skip_gt(c@) == c@.skip(j as int));
        reveal_strlit("From ");
    }
    let from = ascii_str_bytes("From ");
    slice_begins_with(vstd::slice::slice_subrange(c, j, c.len()), from.as_slice())
}

/// Escape one line for mbox output.
#[verifier::loop_isolation(false)]
fn escape_line(l: &[u8]) -> (r: Vec<u8>)
    ensures
        r@ == escape(l@),
{
    let mut c: Vec<u8> = Vec::new();
    let mut i: usize = 0;
    proof {
        assert(l@.skip(0) =~= l@);
        assert(c@ + collapse_crlf(l@.skip(0)) =~= collapse_crlf(l@));
    }
    while i < l.len()
        invariant
            0 <= i <= l@.len(),
            collapse_crlf(l@) =~= c@ + collapse_crlf(l@.skip(i as int)),
        decreases l@.len() - i,
    {
        let ghost pre = c@;
        if l[i] == CR && i + 1 < l.len() && l[i + 1] == LF {
            c.push(LF);
            proof {
                assert(l@.skip(i as int)[0] == CR && l@.skip(i as int)[1] == LF);
                assert(l@.skip(i as int).skip(2) =~= l@.skip(i + 2));
                assert(pre + (seq![LF] + collapse_crlf(l@.skip(i + 2))) =~= c@ + collapse_crlf(
                    l@.skip(i + 2),
                ));
            }
            i += 2;
        } else {
            c.push(l[i]);
            proof {
                assert(l@.skip(i as int)[0] == l@[i as int]);
                assert(l@.skip(i as int).skip(1) =~= l@.skip(i + 1));
                assert(pre + (seq![l@[i as int]] + collapse_crlf(l@.skip(i + 1))) =~= c@
                    + collapse_crlf(l@.skip(i + 1)));
            }
            i += 1;
        }
    }
    proof {
        assert(collapse_crlf(l@.skip(l@.len() as int)) =~= Seq::<u8>::empty());
        assert(c@ + Seq::<u8>::empty() =~= c@);
    }
    if from_needs_quote(c.as_slice()) {
        let mut r: Vec<u8> = Vec::new();
        r.push(GT);
        push_bytes(&mut r, c.as_slice());
        proof {
            assert(r@ =~= escape(l@));
        }
        r
    } else {
        c
    }
}

/// Whether some line of `hs` carries the name prefix `p`.
#[verifier::loop_isolation(false)]
fn any_begins_with(hs: &Vec<Vec<u8>>, p: &[u8]) -> (r: bool)
    ensures
        r == has_line_with(seq_views(hs@), p@),
{
    let mut i: usize = 0;
    while i < hs.len()
        invariant
            0 <= i <= hs@.len(),
            forall|k: int| 0 <= k < i ==> !begins_with(seq_views(hs@)[k], p@),
        decreases hs@.len() - i,
    {
        proof {
            assert(seq_views(hs@)[i as int] == hs@[i as int]@);
        }
        if slice_begins_with(hs[i].as_slice(), p) {
            proof {
                assert(begins_with(seq_views(hs@)[i as int], p@));
            }
            return true;
        }
        i += 1;
    }
    false
}

impl MailMessage {
    /// A message with the given header lines and body, as they stand.
    pub fn new(headers: Vec<Vec<u8>>, body: Vec<u8>) -> (m: MailMessage)
        ensures
            m@.headers == seq_views(headers@),
            m@.body == body@,
    {
        MailMessage { headers, body }
    }

    /// The header lines.
    pub fn headers(&self) -> (h: &Vec<Vec<u8>>)
        ensures
            seq_views(h@) == self@.headers,
    {
        &self.headers
    }

    /// The body.
    pub fn body(&self) -> (b: &Vec<u8>)
        ensures
            b@ == self@.body,
    {
        &self.body
    }

    /// Create a mail message from the bytes read off a stream, in the
    /// `sendmail` manner: the lines before the first blank line are the
    /// headers, the lines after it the body, each re-terminated with CR LF;
    /// when no blank line appears the whole input is the body.
    #[verifier::loop_isolation(false)]
    pub fn new_from_stream(input: &[u8]) -> (m: MailMessage)
        ensures
            m@ == spec_parse(input@),
    {
        let ls = split_lines(input);
        let ghost lsv = seq_views(ls@);
        let fb = find_first_blank(&ls);
        proof {
            lemma_first_blank(lsv);
        }
        let mut headers: Vec<Vec<u8>> = Vec::new();
        let mut body: Vec<u8> = Vec::new();
        if fb < ls.len() {
            let mut j: usize = 0;
            proof {
                assert(seq_views(headers@) =~= lsv.take(0).map_values(|l: Seq<u8>| with_crlf(l)));
            }
            while j < fb
                invariant
                    0 <= j <= fb < ls@.len(),
                    lsv == seq_views(ls@),
                    seq_views(headers@) =~= lsv.take(j as int).map_values(
                        |l: Seq<u8>| with_crlf(l),
                    ),
                decreases fb - j,
            {
                let ghost prev_headers = headers@;
                let mut h: Vec<u8> = Vec::new();
                push_bytes(&mut h, ls[j].as_slice());
                h.push(CR);
                h.push(LF);
                proof {
                    assert(h@ =~= with_crlf(lsv[j as int]));
                }
                headers.push(h);
                proof {
                    assert(seq_views(headers@) =~= seq_views(prev_headers).push(
                        with_crlf(lsv[j as int]),
                    ));
                    assert(lsv.take(j + 1).map_values(|l: Seq<u8>| with_crlf(l)) =~= lsv.take(
                        j as int,
                    ).map_values(|l: Seq<u8>| with_crlf(l)).push(with_crlf(lsv[j as int])));
                }
                j += 1;
            }
            let mut k: usize = fb + 1;
            proof {
                assert(body@ + cat_crlf(lsv.skip(fb + 1)) =~= cat_crlf(lsv.skip(fb + 1)));
            }
            while k < ls.len()
                invariant
                    fb + 1 <= k <= ls@.len(),
                    lsv == seq_views(ls@),
                    cat_crlf(lsv.skip(fb + 1)) =~= body@ + cat_crlf(lsv.skip(k as int)),
                decreases ls@.len() - k,
            {
                let ghost prev_body = body@;
                push_bytes(&mut body, ls[k].as_slice());
                body.push(CR);
                body.push(LF);
                proof {
                    assert(lsv.skip(k as int).skip(1) =~= lsv.skip(k + 1));
                    assert(lsv.skip(k as int)[0] == lsv[k as int]);
                    assert(body@ =~= prev_body + with_crlf(lsv[k as int]));
                    assert(prev_body + cat_crlf(lsv.skip(k as int)) =~= body@ + cat_crlf(
                        lsv.skip(k + 1),
                    ));
                }
                k += 1;
            }
            proof {
                assert(cat_crlf(lsv.skip(ls@.len() as int)) =~= Seq::<u8>::empty());
                assert(body@ + Seq::<u8>::empty() =~= body@);
            }
        } else {
            let mut k: usize = 0;
            proof {
                assert(lsv.skip(0) =~= lsv);
                assert(body@ + cat_crlf(lsv) =~= cat_crlf(lsv));
            }
            while k < ls.len()
                invariant
                    0 <= k <= ls@.len(),
                    lsv == seq_views(ls@),
                    cat_crlf(lsv) =~= body@ + cat_crlf(lsv.skip(k as int)),
                decreases ls@.len() - k,
            {
                let ghost prev_body = body@;
                push_bytes(&mut body, ls[k].as_slice());
                body.push(CR);
                body.push(LF);
                proof {
                    assert(lsv.skip(k as int).skip(1) =~= lsv.skip(k + 1));
                    assert(lsv.skip(k as int)[0] == lsv[k as int]);
                    assert(body@ =~= prev_body + with_crlf(lsv[k as int]));
                    assert(prev_body + cat_crlf(lsv.skip(k as int)) =~= body@ + cat_crlf(
                        lsv.skip(k + 1),
                    ));
                }
                k += 1;
            }
            proof {
                assert(cat_crlf(lsv.skip(ls@.len() as int)) =~= Seq::<u8>::empty());
                assert(body@ + Seq::<u8>::empty() =~= body@);
            }
        }
        let m = MailMessage { headers, body };
        proof {
            assert(m@ =~~= spec_parse(input@));
        }
        m
    }

    /// Normalize the headers against the given instant: remove every `Bcc:`
    /// line, then prepend a synthesized `Message-ID:` line when none is
    /// present, then prepend a synthesized `Date:` line around `date` when
    /// none is present. The body is not touched.
    #[verifier::loop_isolation(false)]
    pub fn fix_headers_at(&mut self, secs: i64, millis: u32, micros: u32, date: &[u8])
        ensures
            final(self)@ == spec_fix(old(self)@, secs as int, millis, micros, date@),
    {
        let ghost h0 = seq_views(old(self).headers@);
        proof {
            reveal_strlit("Bcc:");
        }
        let bcc = ascii_str_bytes("Bcc:");
        let mut kept: Vec<Vec<u8>> = Vec::new();
        proof {
            assert(seq_views(kept@) + remove_bcc(h0) =~= remove_bcc(h0));
        }
        while self.headers.len() > 0
            invariant
                remove_bcc(h0) =~= seq_views(kept@) + remove_bcc(seq_views(self.headers@)),
                self.body@ == old(self).body@,
            decreases self.headers.len(),
        {
            let ghost pre = seq_views(self.headers@);
            let h = self.headers.remove(0);
            proof {
                assert(pre[0] == h@);
                assert(seq_views(self.headers@) =~= pre.skip(1));
            }
            if !slice_begins_with(h.as_slice(), bcc.as_slice()) {
                let ghost prek = kept@;
                kept.push(h);
                proof {
                    assert(seq_views(kept@) =~= seq_views(prek).push(h@));
                    assert(seq_views(prek) + (seq![pre[0]] + remove_bcc(pre.skip(1))) =~= seq_views(
                        kept@,
                    ) + remove_bcc(pre.skip(1)));
                }
            }
        }
        proof {
            assert(remove_bcc(seq_views(self.headers@)) =~= Seq::<Seq<u8>>::empty());
            assert(seq_views(kept@) + Seq::<Seq<u8>>::empty() =~= seq_views(kept@));
        }
        self.headers = kept;
        proof {
            reveal_strlit("Message-ID:");
        }
        let midp = ascii_str_bytes("Message-ID:");
        if !any_begins_with(&self.headers, midp.as_slice()) {
            proof {
                reveal_strlit("Message-ID: <");
                reveal_strlit("@localhost>");
            }
            let mut line = ascii_str_bytes("Message-ID: <");
            let mut digits = fmt_i64(secs);
            line.append(&mut digits);
            line.push(46);  // '.'
            let mut digits_ms = fmt_u64(millis as u64);
            line.append(&mut digits_ms);
            line.push(46);  // '.'
            let mut digits_us = fmt_u64(micros as u64);
            line.append(&mut digits_us);
            let mut host = ascii_str_bytes("@localhost>");
            line.append(&mut host);
            line.push(CR);
            line.push(LF);
            proof {
                assert(line@ =~= msgid_line(secs as int, millis, micros));
            }
            let ghost preh = seq_views(self.headers@);
            self.headers.insert(0, line);
            proof {
                assert(seq_views(self.headers@) =~= seq![msgid_line(secs as int, millis, micros)]
                    + preh);
            }
        }
        proof {
            reveal_strlit("Date:");
        }
        let datep = ascii_str_bytes("Date:");
        if !any_begins_with(&self.headers, datep.as_slice()) {
            proof {
                reveal_strlit("Date: ");
            }
            let mut line = ascii_str_bytes("Date: ");
            push_bytes(&mut line, date);
            line.push(CR);
            line.push(LF);
            proof {
                assert(line@ =~= date_line(date@));
            }
            let ghost preh = seq_views(self.headers@);
            self.headers.insert(0, line);
            proof {
                assert(seq_views(self.headers@) =~= seq![date_line(date@)] + preh);
            }
        }
        proof {
            assert(self@ =~~= spec_fix(old(self)@, secs as int, millis, micros, date@));
        }
    }

    /// Fix mail headers against the current clock:
    ///
    /// * remove `Bcc:` headers,
    /// * add a `Message-ID:` header if absent,
    /// * add a `Date:` header if absent.
    ///
    /// The body is never altered.
    pub fn fix_mail_headers(&mut self)
        ensures
            final(self)@.body == old(self)@.body,
            exists|secs: int, millis: u32, micros: u32, date: Seq<u8>|
                millis < 2000 && micros < 2_000_000 && line_clean(date) && date.len() > 0
                    && final(self)@ == spec_fix(old(self)@, secs, millis, micros, date),
    {
        let parts = now_timestamp_parts();
        let date = now_rfc2822();
        self.fix_headers_at(parts.0, parts.1, parts.2, date.as_slice());
    }

    /// The RFC 4155 mbox record for this message, with the given sender, the
    /// given ctime-style envelope timestamp and the given RFC 2822 trace
    /// timestamp.
    #[verifier::loop_isolation(false)]
    pub fn mbox_record(&self, sender: &[u8], ctime: &[u8], date: &[u8]) -> (r: Vec<u8>)
        ensures
            r@ == spec_mbox(self@, sender@, ctime@, date@),
    {
        let mut out: Vec<u8> = Vec::new();
        proof {
            reveal_strlit("From ");
            reveal_strlit("Received: by localhost with sendmail_into_mbox; ");
        }
        let envelope = ascii_str_bytes("From ");
        push_bytes(&mut out, envelope.as_slice());
        push_bytes(&mut out, sender);
        out.push(32);  // ' '
        push_bytes(&mut out, ctime);
        out.push(LF);
        let received = ascii_str_bytes("Received: by localhost with sendmail_into_mbox; ");
        push_bytes(&mut out, received.as_slice());
        push_bytes(&mut out, date);
        out.push(LF);
        let ghost head = out@;
        let ghost hs = self@.headers;
        let mut i: usize = 0;
        proof {
            assert(hs.skip(0) =~= hs);
            assert(head + cat_escaped(hs) =~= head + cat_escaped(hs));
        }
        while i < self.headers.len()
            invariant
                0 <= i <= self.headers@.len(),
                hs == seq_views(self.headers@),
                head + cat_escaped(hs) =~= out@ + cat_escaped(hs.skip(i as int)),
            decreases self.headers@.len() - i,
        {
            let ghost pre = out@;
            let e = escape_line(self.headers[i].as_slice());
            push_bytes(&mut out, e.as_slice());
            proof {
                assert(hs.skip(i as int)[0] == hs[i as int]);
                assert(hs.skip(i as int).skip(1) =~= hs.skip(i + 1));
                assert(hs[i as int] == self.headers@[i as int]@);
                assert(pre + cat_escaped(hs.skip(i as int)) =~= out@ + cat_escaped(
                    hs.skip(i + 1),
                ));
            }
            i += 1;
        }
        proof {
            assert(cat_escaped(hs.skip(hs.len() as int)) =~= Seq::<u8>::empty());
            assert(out@ =~= head + cat_escaped(hs));
        }
        out.push(LF);
        let ghost head2 = out@;
        let body_lines = split_lines(self.body.as_slice());
        let ghost bl = seq_views(body_lines@);
        let mut k: usize = 0;
        proof {
            assert(bl.skip(0) =~= bl);
        }
        while k < body_lines.len()
            invariant
                0 <= k <= body_lines@.len(),
                bl == seq_views(body_lines@),
                head2 + cat_body(bl) =~= out@ + cat_body(bl.skip(k as int)),
            decreases body_lines@.len() - k,
        {
            let ghost pre = out@;
            let e = escape_line(body_lines[k].as_slice());
            push_bytes(&mut out, e.as_slice());
            out.push(LF);
            proof {
                assert(bl.skip(k as int)[0] == bl[k as int]);
                assert(bl.skip(k as int).skip(1) =~= bl.skip(k + 1));
                assert(bl[k as int] == body_lines@[k as int]@);
                assert(pre + cat_body(bl.skip(k as int)) =~= out@ + cat_body(bl.skip(k + 1)));
            }
            k += 1;
        }
        proof {
            assert(cat_body(bl.skip(bl.len() as int)) =~= Seq::<u8>::empty());
            assert(out@ =~= head2 + cat_body(bl));
        }
        out.push(LF);
        proof {
            assert(out@ =~= spec_mbox(self@, sender@, ctime@, date@));
        }
        out
    }

    /// Write the mail message in RFC 4155 mbox format, against the current
    /// clock: the record returned is the message framed between a `From `
    /// envelope line holding `sender` and a terminating blank line, with a
    /// synthetic `Received:` trace header recording local injection. The
    /// two timestamps are nonempty single lines read off one instant of the
    /// clock.
    ///
    /// `sender` should not be empty, in which case use
    /// `MAILER-DAEMON@localhost` instead.
    pub fn write_to_mbox(&self, sender: &[u8]) -> (r: Vec<u8>)
        ensures
            exists|ctime: Seq<u8>, date: Seq<u8>|
                line_clean(ctime) && ctime.len() > 0 && line_clean(date) && date.len() > 0
                    && r@ == spec_mbox(self@, sender@, ctime, date),
    {
        let stamps = now_envelope_stamps();
        self.mbox_record(sender, stamps.0.as_slice(), stamps.1.as_slice())
    }
}

/// Law: on an input with a blank line, parsing splits at the first one.
/// The headers are exactly the lines strictly before it, the body the
/// concatenation of the lines strictly after it, every line re-terminated
/// with CR LF; no line before the split point is blank, and the line at the
/// split point is.
pub proof fn lemma_parse_splits_at_first_blank(s: Seq<u8>)
    requires
        exists|k: int| 0 <= k < lines_of(s).len() && lines_of(s)[k].len() == 0,
    ensures
        ({
            let ls = lines_of(s);
            let fb = first_blank(ls);
            &&& 0 <= fb < ls.len()
            &&& ls[fb].len() == 0
            &&& forall|k: int| 0 <= k < fb ==> ls[k].len() != 0
            &&& spec_parse(s).headers == ls.take(fb).map_values(|l: Seq<u8>| with_crlf(l))
            &&& spec_parse(s).body == cat_crlf(ls.skip(fb + 1))
        }),
{
    let ls = lines_of(s);
    lemma_first_blank(ls);
    let k = choose|k: int| 0 <= k < ls.len() && ls[k].len() == 0;
    assert(first_blank(ls) <= k);
}

/// Law: on an input with no blank line, parsing yields empty headers and a
/// body equal to the entire input, CRLF-normalized line by line.
pub proof fn lemma_parse_no_blank(s: Seq<u8>)
    requires
        forall|k: int| 0 <= k < lines_of(s).len() ==> lines_of(s)[k].len() != 0,
    ensures
        spec_parse(s).headers == Seq::<Seq<u8>>::empty(),
        spec_parse(s).body == cat_crlf(lines_of(s)),
{
    lemma_first_blank(lines_of(s));
}

/// No line that the `Bcc:` removal keeps carries the `Bcc:` prefix.
proof fn lemma_remove_bcc_clean(hs: Seq<Seq<u8>>)
    ensures
        forall|k: int|
            0 <= k < remove_bcc(hs).len() ==> !begins_with(
                #[trigger] remove_bcc(hs)[k],
                bcc_prefix(),
            ),
    decreases hs.len(),
{
    if hs.len() == 0 {
    } else {
        lemma_remove_bcc_clean(hs.skip(1));
        if begins_with(hs[0], bcc_prefix()) {
            assert forall|k: int| 0 <= k < remove_bcc(hs).len() implies !begins_with(
                #[trigger] remove_bcc(hs)[k],
                bcc_prefix(),
            ) by {
                assert(remove_bcc(hs)[k] == remove_bcc(hs.skip(1))[k]);
            }
        } else {
            assert forall|k: int| 0 <= k < remove_bcc(hs).len() implies !begins_with(
                #[trigger] remove_bcc(hs)[k],
                bcc_prefix(),
            ) by {
                if k == 0 {
                    assert(remove_bcc(hs)[0] == hs[0]);
                } else {
                    assert(remove_bcc(hs)[k] == remove_bcc(hs.skip(1))[k - 1]);
                }
            }
        }
    }
}

/// The `Bcc:` removal does nothing on headers free of `Bcc:` lines.
proof fn lemma_remove_bcc_id(hs: Seq<Seq<u8>>)
    requires
        forall|k: int| 0 <= k < hs.len() ==> !begins_with(#[trigger] hs[k], bcc_prefix()),
    ensures
        remove_bcc(hs) == hs,
    decreases hs.len(),
{
    if hs.len() == 0 {
        assert(remove_bcc(hs) =~= hs);
    } else {
        assert(forall|k: int|
            0 <= k < hs.skip(1).len() ==> !begins_with(#[trigger] hs.skip(1)[k], bcc_prefix()));
        lemma_remove_bcc_id(hs.skip(1));
        assert(remove_bcc(hs) =~= hs);
    }
}

/// The synthesized `Message-ID:` line carries the `Message-ID:` prefix and
/// not the `Bcc:` or `Date:` prefix; the synthesized `Date:` line carries
/// the `Date:` prefix and not the `Bcc:` one.
proof fn lemma_synthesized_prefixes(secs: int, millis: u32, micros: u32, date: Seq<u8>)
    ensures
        begins_with(msgid_line(secs, millis, micros), msgid_prefix()),
        !begins_with(msgid_line(secs, millis, micros), bcc_prefix()),
        !begins_with(msgid_line(secs, millis, micros), date_prefix()),
        begins_with(date_line(date), date_prefix()),
        !begins_with(date_line(date), bcc_prefix()),
{
    reveal_strlit("Bcc:");
    reveal_strlit("Date:");
    reveal_strlit("Date: ");
    reveal_strlit("Message-ID:");
    reveal_strlit("Message-ID: <");
    let mid = msgid_line(secs, millis, micros);
    assert(mid.take(msgid_prefix().len() as int) =~= msgid_prefix());
    assert(mid[0] == 'M' as u8);
    let dl = date_line(date);
    assert(dl.take(date_prefix().len() as int) =~= date_prefix());
    assert(dl[0] == 'D' as u8);
    if begins_with(mid, bcc_prefix()) {
        assert(mid.take(bcc_prefix().len() as int)[0] == 'B' as u8);
    }
    if begins_with(mid, date_prefix()) {
        assert(mid.take(date_prefix().len() as int)[1] == 'a' as u8);
        assert(mid[1] == 'e' as u8);
    }
    if begins_with(dl, bcc_prefix()) {
        assert(dl.take(bcc_prefix().len() as int)[0] == 'B' as u8);
    }
}

/// Law: normalizing the headers is idempotent. A second run, against
/// whatever instant, finds the `Bcc:` lines already gone and a `Date:` and
/// a `Message-ID:` line already present, and changes nothing.
pub proof fn lemma_fix_idempotent(
    m: MailMessageView,
    secs1: int,
    millis1: u32,
    micros1: u32,
    date1: Seq<u8>,
    secs2: int,
    millis2: u32,
    micros2: u32,
    date2: Seq<u8>,
)
    ensures
        spec_fix(spec_fix(m, secs1, millis1, micros1, date1), secs2, millis2, micros2, date2)
            == spec_fix(m, secs1, millis1, micros1, date1),
{
    let h1 = remove_bcc(m.headers);
    let mid = msgid_line(secs1, millis1, micros1);
    let dl = date_line(date1);
    let h2 = if !has_line_with(h1, msgid_prefix()) {
        seq![mid] + h1
    } else {
        h1
    };
    let h3 = if !has_line_with(h2, date_prefix()) {
        seq![dl] + h2
    } else {
        h2
    };
    lemma_remove_bcc_clean(m.headers);
    lemma_synthesized_prefixes(secs1, millis1, micros1, date1);
    assert(forall|k: int| 0 <= k < h3.len() ==> !begins_with(#[trigger] h3[k], bcc_prefix()));
    lemma_remove_bcc_id(h3);
    if !has_line_with(h1, msgid_prefix()) {
        assert(begins_with(h2[0], msgid_prefix()));
        assert(has_line_with(h2, msgid_prefix()));
    } else {
        let k = choose|k: int| 0 <= k < h1.len() && begins_with(h1[k], msgid_prefix());
        assert(begins_with(h2[k], msgid_prefix()));
        assert(has_line_with(h2, msgid_prefix()));
    }
    let k2 = choose|k: int| 0 <= k < h2.len() && begins_with(h2[k], msgid_prefix());
    if !has_line_with(h2, date_prefix()) {
        assert(begins_with(h3[k2 + 1], msgid_prefix()));
        assert(has_line_with(h3, msgid_prefix()));
        assert(begins_with(h3[0], date_prefix()));
        assert(has_line_with(h3, date_prefix()));
    } else {
        assert(begins_with(h3[k2], msgid_prefix()));
        assert(has_line_with(h3, msgid_prefix()));
    }
    assert(spec_fix(spec_fix(m, secs1, millis1, micros1, date1), secs2, millis2, micros2, date2)
        =~~= spec_fix(m, secs1, millis1, micros1, date1));
}

/// Law: normalizing establishes the header-block invariant. Whatever the
/// instant, the normalized headers hold no `Bcc:` line, at least one
/// `Date:` line and at least one `Message-ID:` line.
pub proof fn lemma_fix_establishes_invariant(
    m: MailMessageView,
    secs: int,
    millis: u32,
    micros: u32,
    date: Seq<u8>,
)
    ensures
        !has_line_with(spec_fix(m, secs, millis, micros, date).headers, bcc_prefix()),
        has_line_with(spec_fix(m, secs, millis, micros, date).headers, date_prefix()),
        has_line_with(spec_fix(m, secs, millis, micros, date).headers, msgid_prefix()),
{
    let h1 = remove_bcc(m.headers);
    let h2 = if !has_line_with(h1, msgid_prefix()) {
        seq![msgid_line(secs, millis, micros)] + h1
    } else {
        h1
    };
    let h3 = if !has_line_with(h2, date_prefix()) {
        seq![date_line(date)] + h2
    } else {
        h2
    };
    lemma_remove_bcc_clean(m.headers);
    lemma_synthesized_prefixes(secs, millis, micros, date);
    assert(forall|k: int| 0 <= k < h3.len() ==> !begins_with(#[trigger] h3[k], bcc_prefix()));
    if !has_line_with(h1, msgid_prefix()) {
        assert(begins_with(h2[0], msgid_prefix()));
        assert(has_line_with(h2, msgid_prefix()));
    } else {
        let k = choose|k: int| 0 <= k < h1.len() && begins_with(h1[k], msgid_prefix());
        assert(begins_with(h2[k], msgid_prefix()));
        assert(has_line_with(h2, msgid_prefix()));
    }
    let k2 = choose|k: int| 0 <= k < h2.len() && begins_with(h2[k], msgid_prefix());
    if !has_line_with(h2, date_prefix()) {
        assert(begins_with(h3[k2 + 1], msgid_prefix()));
        assert(has_line_with(h3, msgid_prefix()));
        assert(begins_with(h3[0], date_prefix()));
        assert(has_line_with(h3, date_prefix()));
    } else {
        assert(begins_with(h3[k2], msgid_prefix()));
        assert(has_line_with(h3, msgid_prefix()));
        let kd = choose|k: int| 0 <= k < h2.len() && begins_with(h2[k], date_prefix());
        assert(begins_with(h3[kd], date_prefix()));
        assert(has_line_with(h3, date_prefix()));
    }
}

/// A line that ends with the canonical CR LF terminator.
pub open spec fn crlf_terminated(l: Seq<u8>) -> bool {
    l.len() >= 2 && l[l.len() - 2] == CR && l[l.len() - 1] == LF
}

/// Law: every header line that parsing stores ends with CR LF.
pub proof fn lemma_parse_headers_terminated(s: Seq<u8>)
    ensures
        forall|k: int|
            0 <= k < spec_parse(s).headers.len() ==> crlf_terminated(
                #[trigger] spec_parse(s).headers[k],
            ),
{
    let hs = spec_parse(s).headers;
    assert forall|k: int| 0 <= k < hs.len() implies crlf_terminated(hs[k]) by {
        if first_blank(lines_of(s)) < lines_of(s).len() {
            let l = lines_of(s).take(first_blank(lines_of(s)))[k];
            assert(hs[k] == with_crlf(l));
        }
    }
}

/// The `Bcc:` removal keeps only lines the headers already held.
proof fn lemma_remove_bcc_terminated(hs: Seq<Seq<u8>>)
    requires
        forall|k: int| 0 <= k < hs.len() ==> crlf_terminated(#[trigger] hs[k]),
    ensures
        forall|k: int|
            0 <= k < remove_bcc(hs).len() ==> crlf_terminated(#[trigger] remove_bcc(hs)[k]),
    decreases hs.len(),
{
    if hs.len() == 0 {
    } else {
        assert(forall|k: int|
            0 <= k < hs.skip(1).len() ==> crlf_terminated(#[trigger] hs.skip(1)[k]));
        lemma_remove_bcc_terminated(hs.skip(1));
        assert forall|k: int| 0 <= k < remove_bcc(hs).len() implies crlf_terminated(
            #[trigger] remove_bcc(hs)[k],
        ) by {
            if begins_with(hs[0], bcc_prefix()) {
                assert(remove_bcc(hs)[k] == remove_bcc(hs.skip(1))[k]);
            } else if k == 0 {
                assert(remove_bcc(hs)[0] == hs[0]);
            } else {
                assert(remove_bcc(hs)[k] == remove_bcc(hs.skip(1))[k - 1]);
            }
        }
    }
}

/// Law: normalizing keeps every header line CR LF terminated. The kept
/// lines already were, and both synthesized lines are by construction.
pub proof fn lemma_fix_keeps_termination(
    m: MailMessageView,
    secs: int,
    millis: u32,
    micros: u32,
    date: Seq<u8>,
)
    requires
        forall|k: int| 0 <= k < m.headers.len() ==> crlf_terminated(#[trigger] m.headers[k]),
    ensures
        forall|k: int|
            0 <= k < spec_fix(m, secs, millis, micros, date).headers.len() ==> crlf_terminated(
                #[trigger] spec_fix(m, secs, millis, micros, date).headers[k],
            ),
{
    lemma_remove_bcc_terminated(m.headers);
    let mid = msgid_line(secs, millis, micros);
    let dl = date_line(date);
    assert(mid[mid.len() - 2] == CR && mid[mid.len() - 1] == LF);
    assert(dl[dl.len() - 2] == CR && dl[dl.len() - 1] == LF);
    let h1 = remove_bcc(m.headers);
    let h2 = if !has_line_with(h1, msgid_prefix()) {
        seq![mid] + h1
    } else {
        h1
    };
    let h3 = if !has_line_with(h2, date_prefix()) {
        seq![dl] + h2
    } else {
        h2
    };
    assert(forall|k: int| 0 <= k < h2.len() ==> crlf_terminated(#[trigger] h2[k]));
    assert(forall|k: int| 0 <= k < h3.len() ==> crlf_terminated(#[trigger] h3[k]));
}

/// A line free of CR LF pairs is left as it stands by the collapse.
proof fn lemma_collapse_id(l: Seq<u8>)
    requires
        forall|k: int| 0 <= k < l.len() - 1 ==> !(#[trigger] l[k] == CR && l[k + 1] == LF),
    ensures
        collapse_crlf(l) == l,
    decreases l.len(),
{
    if l.len() == 0 {
        assert(collapse_crlf(l) =~= l);
    } else {
        assert(forall|k: int|
            0 <= k < l.skip(1).len() - 1 ==> !(#[trigger] l.skip(1)[k] == CR && l.skip(1)[k + 1]
                == LF));
        lemma_collapse_id(l.skip(1));
        assert(collapse_crlf(l) =~= l);
    }
}

/// Law: round-trip escaping. A line that, once its CR LF pairs are
/// collapsed, does not begin with `From ` after stripping leading `>`
/// characters is written unchanged but for that collapse; one that does is
/// written with exactly one `>` prepended to it. A line free of CR LF pairs
/// is not even collapsed.
pub proof fn lemma_escape_round_trip(l: Seq<u8>)
    ensures
        !needs_quote(collapse_crlf(l)) ==> escape(l) == collapse_crlf(l),
        needs_quote(collapse_crlf(l)) ==> escape(l) == seq![GT] + collapse_crlf(l),
        (forall|k: int| 0 <= k < l.len() - 1 ==> !(#[trigger] l[k] == CR && l[k + 1] == LF))
            && !needs_quote(collapse_crlf(l)) ==> escape(l) == l,
{
    if forall|k: int| 0 <= k < l.len() - 1 ==> !(#[trigger] l[k] == CR && l[k + 1] == LF) {
        lemma_collapse_id(l);
    }
}

} // verus!
