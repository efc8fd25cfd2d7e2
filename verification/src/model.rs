//! Mathematical model of the wire protocol: the frame value model, the
//! encoding function, and the decode relation over byte sequences.
use vstd::prelude::*;

verus! {

/// The two-byte terminator that ends every header and payload.
pub open spec fn crlf() -> Seq<u8> {
    seq![13u8, 10u8]
}

pub open spec fn is_digit(b: u8) -> bool {
    48 <= b <= 57
}

pub open spec fn all_digits(s: Seq<u8>) -> bool {
    forall|i: int| 0 <= i < s.len() ==> is_digit(#[trigger] s[i])
}

/// Value of an ASCII digit string, most significant digit first.
pub open spec fn dec_val(s: Seq<u8>) -> nat
    decreases s.len(),
{
    if s.len() == 0 {
        0
    } else {
        dec_val(s.drop_last()) * 10 + (s.last() - 48) as nat
    }
}

/// Canonical decimal digits of a natural number (no leading zeros).
pub open spec fn dec_digits(n: nat) -> Seq<u8>
    decreases n,
{
    if n < 10 {
        seq![(48 + n) as u8]
    } else {
        dec_digits(n / 10).push((48 + n % 10) as u8)
    }
}

/// Canonical decimal rendering of a signed integer.
pub open spec fn int_digits(n: int) -> Seq<u8> {
    if n < 0 {
        seq![45u8] + dec_digits((-n) as nat)
    } else {
        dec_digits(n as nat)
    }
}

/// The value a length line denotes: digits only, at least one.
pub open spec fn is_length_line(line: Seq<u8>) -> bool {
    line.len() > 0 && all_digits(line)
}

/// The `-1` sentinel line that marks an absent bulk string or array.
pub open spec fn is_null_line(line: Seq<u8>) -> bool {
    line.len() == 2 && line[0] == 45 && line[1] == 49
}

/// A signed 64-bit integer line: optional `-`, then digits, in range.
pub open spec fn parse_int(line: Seq<u8>) -> Option<int> {
    if line.len() >= 1 && line[0] == 45 {
        let digits = line.skip(1);
        if is_length_line(digits) && dec_val(digits) <= 0x8000_0000_0000_0000 {
            Some(-(dec_val(digits) as int))
        } else {
            None
        }
    } else if is_length_line(line) && dec_val(line) <= i64::MAX {
        Some(dec_val(line) as int)
    } else {
        None
    }
}

/// One protocol value: the spec-level mirror of a frame.
pub enum FrameM {
    Simple(Seq<u8>),
    Int(int),
    Bulk(Option<Seq<u8>>),
    Arr(Option<Seq<FrameM>>),
    Null,
}

/// No two-byte terminator pair occurs anywhere inside `d`.
pub open spec fn crlf_free(d: Seq<u8>) -> bool {
    forall|j: int| #![trigger d[j]] 0 <= j && j + 1 < d.len() ==> !(d[j] == 13 && d[j + 1] == 10)
}

/// A frame the executable model can hold: integers fit in 64 bits and a
/// simple string carries no terminator sequence inside its text.
pub open spec fn wf_frame(m: FrameM) -> bool
    decreases m,
{
    match m {
        FrameM::Simple(d) => crlf_free(d),
        FrameM::Int(n) => i64::MIN <= n <= i64::MAX,
        FrameM::Bulk(_) => true,
        FrameM::Arr(es_opt) => match es_opt {
            Some(es) => forall|i: int| 0 <= i < es.len() ==> wf_frame(#[trigger] es[i]),
            None => true,
        },
        FrameM::Null => true,
    }
}

/// Bytes of one encoded frame.
pub open spec fn enc(m: FrameM) -> Seq<u8>
    decreases m,
{
    match m {
        FrameM::Simple(d) => seq![43u8] + d + crlf(),
        FrameM::Int(n) => seq![58u8] + int_digits(n) + crlf(),
        FrameM::Bulk(d_opt) => match d_opt {
            Some(d) => seq![36u8] + dec_digits(d.len()) + crlf() + d + crlf(),
            None => seq![36u8, 45u8, 49u8] + crlf(),
        },
        FrameM::Arr(es_opt) => match es_opt {
            Some(es) => seq![42u8] + dec_digits(es.len()) + crlf() + enc_list(es),
            None => seq![42u8, 45u8, 49u8] + crlf(),
        },
        FrameM::Null => seq![95u8] + crlf(),
    }
}

/// Bytes of a list of encoded frames, in order.
pub open spec fn enc_list(es: Seq<FrameM>) -> Seq<u8>
    decreases es,
{
    if es.len() == 0 {
        Seq::empty()
    } else {
        enc(es[0]) + enc_list(es.subrange(1, es.len() as int))
    }
}

/// Index of the first terminator pair in `s`, if any.
pub open spec fn find_crlf(s: Seq<u8>) -> Option<int>
    decreases s.len(),
{
    if s.len() < 2 {
        None
    } else if s[0] == 13 && s[1] == 10 {
        Some(0)
    } else {
        match find_crlf(s.subrange(1, s.len() as int)) {
            Some(i) => Some(i + 1),
            None => None,
        }
    }
}

/// Outcome of decoding one frame from the front of a byte sequence.
pub enum DecRes {
    /// A whole frame, and how many bytes it occupies.
    Found(FrameM, int),
    /// A valid prefix of a frame: more bytes are needed.
    Incomplete,
    /// The bytes cannot begin any frame.
    Malformed,
}

/// Outcome of decoding a fixed count of frames from a byte sequence.
pub enum ElemsRes {
    Found(Seq<FrameM>, int),
    Incomplete,
    Malformed,
}

/// The decode relation: what the front of `s` holds.
pub open spec fn dec_frame(s: Seq<u8>) -> DecRes
    decreases s.len(), 0int, 0nat,
{
    if s.len() == 0 {
        DecRes::Incomplete
    } else {
        let m = s[0];
        match find_crlf(s.subrange(1, s.len() as int)) {
            None => if m == 43 || m == 58 || m == 36 || m == 42 || m == 95 {
                DecRes::Incomplete
            } else {
                DecRes::Malformed
            },
            Some(i) => {
                let line = s.subrange(1, 1 + i);
                let header = 1 + i + 2;
                if m == 43 {
                    DecRes::Found(FrameM::Simple(line), header)
                } else if m == 58 {
                    match parse_int(line) {
                        Some(v) => DecRes::Found(FrameM::Int(v), header),
                        None => DecRes::Malformed,
                    }
                } else if m == 36 {
                    if is_null_line(line) {
                        DecRes::Found(FrameM::Bulk(None), header)
                    } else if is_length_line(line) {
                        let len = dec_val(line);
                        let total = header + len + 2;
                        if s.len() < total {
                            DecRes::Incomplete
                        } else if s[total - 2] == 13 && s[total - 1] == 10 {
                            DecRes::Found(
                                FrameM::Bulk(Some(s.subrange(header, header + len))),
                                total,
                            )
                        } else {
                            DecRes::Malformed
                        }
                    } else {
                        DecRes::Malformed
                    }
                } else if m == 42 {
                    if is_null_line(line) {
                        DecRes::Found(FrameM::Arr(None), header)
                    } else if is_length_line(line) {
                        let n = dec_val(line);
                        if 0 <= i && header <= s.len() {
                            match dec_elems(s.subrange(header, s.len() as int), n) {
                                ElemsRes::Found(es, used) => DecRes::Found(
                                    FrameM::Arr(Some(es)),
                                    header + used,
                                ),
                                ElemsRes::Incomplete => DecRes::Incomplete,
                                ElemsRes::Malformed => DecRes::Malformed,
                            }
                        } else {
                            DecRes::Incomplete
                        }
                    } else {
                        DecRes::Malformed
                    }
                } else if m == 95 {
                    if i == 0 {
                        DecRes::Found(FrameM::Null, 3)
                    } else {
                        DecRes::Malformed
                    }
                } else {
                    DecRes::Malformed
                }
            },
        }
    }
}

/// Decode exactly `n` frames from the front of `s`.
pub open spec fn dec_elems(s: Seq<u8>, n: nat) -> ElemsRes
    decreases s.len(), 1int, n,
{
    if n == 0 {
        ElemsRes::Found(Seq::empty(), 0)
    } else {
        match dec_frame(s) {
            DecRes::Found(f, used) => if 1 <= used <= s.len() {
                match dec_elems(s.subrange(used, s.len() as int), (n - 1) as nat) {
                    ElemsRes::Found(rest, u2) => ElemsRes::Found(seq![f] + rest, used + u2),
                    ElemsRes::Incomplete => ElemsRes::Incomplete,
                    ElemsRes::Malformed => ElemsRes::Malformed,
                }
            } else {
                ElemsRes::Malformed
            },
            DecRes::Incomplete => ElemsRes::Incomplete,
            DecRes::Malformed => ElemsRes::Malformed,
        }
    }
}

// ---------- facts about digit strings ----------

pub proof fn lemma_dec_digits(n: nat)
    ensures
        dec_digits(n).len() >= 1,
        all_digits(dec_digits(n)),
        dec_val(dec_digits(n)) == n,
    decreases n,
{
    if n < 10 {
        let d = dec_digits(n);
        assert(d.drop_last() =~= Seq::<u8>::empty());
        assert(dec_val(d) == dec_val(d.drop_last()) * 10 + (d.last() - 48) as nat);
    } else {
        lemma_dec_digits(n / 10);
        let d = dec_digits(n / 10);
        let whole = d.push((48 + n % 10) as u8);
        assert(whole.drop_last() =~= d);
        assert(forall|i: int| 0 <= i < whole.len() ==> is_digit(#[trigger] whole[i]));
    }
}

/// Appending one digit multiplies the prefix value by ten and adds the digit.
pub proof fn lemma_dec_val_step(s: Seq<u8>, k: int)
    requires
        0 <= k < s.len(),
    ensures
        dec_val(s.take(k + 1)) == dec_val(s.take(k)) * 10 + (s[k] - 48) as nat,
{
    assert(s.take(k + 1).drop_last() =~= s.take(k));
    assert(s.take(k + 1).last() == s[k]);
}

// ---------- facts about the terminator scan ----------

pub proof fn lemma_find_crlf_props(s: Seq<u8>)
    ensures
        match find_crlf(s) {
            Some(i) => 0 <= i && i + 2 <= s.len() && s[i] == 13 && s[i + 1] == 10
                && (forall|j: int| #![trigger s[j]] 0 <= j < i ==> !(s[j] == 13 && s[j + 1] == 10)),
            None => crlf_free(s),
        },
    decreases s.len(),
{
    if s.len() < 2 {
    } else if s[0] == 13 && s[1] == 10 {
    } else {
        let t = s.subrange(1, s.len() as int);
        lemma_find_crlf_props(t);
        match find_crlf(t) {
            Some(i) => {
                assert(s[i + 1] == t[i]);
                assert(s[i + 2] == t[i + 1]);
                assert(forall|j: int| 1 <= j < i + 1 ==> !(#[trigger] s[j] == 13 && s[j + 1]
                    == 10)) by {
                    assert(forall|j: int| 1 <= j < i + 1 ==> (#[trigger] s[j] == t[j - 1] && s[j
                        + 1] == t[j]));
                }
            },
            None => {
                assert forall|j: int| #![trigger s[j]] 0 <= j && j + 1 < s.len() implies !(s[j]
                    == 13 && s[j + 1] == 10) by {
                    if j > 0 {
                        assert(s[j] == t[j - 1]);
                        assert(s[j + 1] == t[j]);
                    }
                }
            },
        }
    }
}

/// The scan finds exactly the first terminator pair.
pub proof fn lemma_find_crlf_at(s: Seq<u8>, i: int)
    requires
        0 <= i,
        i + 2 <= s.len(),
        s[i] == 13,
        s[i + 1] == 10,
        forall|j: int| #![trigger s[j]] 0 <= j < i ==> !(s[j] == 13 && s[j + 1] == 10),
    ensures
        find_crlf(s) == Some(i),
    decreases s.len(),
{
    if i == 0 {
    } else {
        let t = s.subrange(1, s.len() as int);
        assert(forall|j: int| 0 <= j < i - 1 ==> (#[trigger] t[j] == s[j + 1] && t[j + 1] == s[j
            + 2]));
        lemma_find_crlf_at(t, i - 1);
    }
}

pub proof fn lemma_find_crlf_none(s: Seq<u8>)
    requires
        crlf_free(s),
    ensures
        find_crlf(s) == None::<int>,
{
    lemma_find_crlf_props(s);
    if let Some(i) = find_crlf(s) {
        assert(s[i] == 13 && s[i + 1] == 10);
        assert(false);
    }
}

// ---------- bounds of the decode relation ----------

pub proof fn lemma_dec_frame_bounds(s: Seq<u8>)
    ensures
        match dec_frame(s) {
            DecRes::Found(_, n) => 3 <= n <= s.len(),
            _ => true,
        },
    decreases s.len(), 0int, 0nat,
{
    if s.len() > 0 {
        lemma_find_crlf_props(s.subrange(1, s.len() as int));
        if let Some(i) = find_crlf(s.subrange(1, s.len() as int)) {
            let line = s.subrange(1, 1 + i);
            let header = 1 + i + 2;
            if s[0] == 42 && !is_null_line(line) && is_length_line(line) && 0 <= i && header
                <= s.len() {
                lemma_dec_elems_bounds(s.subrange(header, s.len() as int), dec_val(line));
            }
        }
    }
}

pub proof fn lemma_dec_elems_bounds(s: Seq<u8>, n: nat)
    ensures
        match dec_elems(s, n) {
            ElemsRes::Found(es, u) => 0 <= u <= s.len() && es.len() == n,
            _ => true,
        },
    decreases s.len(), 1int, n,
{
    if n == 0 {
    } else {
        lemma_dec_frame_bounds(s);
        match dec_frame(s) {
            DecRes::Found(f, used) => {
                if 1 <= used <= s.len() {
                    lemma_dec_elems_bounds(s.subrange(used, s.len() as int), (n - 1) as nat);
                }
            },
            _ => {},
        }
    }
}

/// Every encoded frame occupies at least three bytes.
pub proof fn lemma_enc_len_min(m: FrameM)
    ensures
        enc(m).len() >= 3,
{
    match m {
        FrameM::Simple(_) => {},
        FrameM::Int(n) => {},
        FrameM::Bulk(d_opt) => {
            if let Some(d) = d_opt {
                lemma_dec_digits(d.len());
            }
        },
        FrameM::Arr(es_opt) => {
            if let Some(es) = es_opt {
                lemma_dec_digits(es.len());
            }
        },
        FrameM::Null => {},
    }
}

/// Encoding a list with one more frame at the end appends that frame's bytes.
pub proof fn lemma_enc_list_snoc(p: Seq<FrameM>, x: FrameM)
    ensures
        enc_list(p.push(x)) == enc_list(p) + enc(x),
    decreases p,
{
    if p.len() == 0 {
        let es = p.push(x);
        assert(es[0] == x);
        let tail = es.subrange(1, 1);
        assert(enc_list(tail) == Seq::<u8>::empty());
        assert(enc_list(es) == enc(x) + enc_list(tail));
        assert(enc_list(p) == Seq::<u8>::empty());
        assert(enc(x) + Seq::<u8>::empty() =~= Seq::<u8>::empty() + enc(x));
    } else {
        let tl = p.subrange(1, p.len() as int);
        assert(p.push(x).subrange(1, p.push(x).len() as int) =~= tl.push(x));
        assert(p.push(x)[0] == p[0]);
        lemma_enc_list_snoc(tl, x);
        assert(enc_list(p.push(x)) =~= enc_list(p) + enc(x));
    }
}

pub proof fn lemma_digits_crlf_free(line: Seq<u8>)
    requires
        all_digits(line),
    ensures
        crlf_free(line),
{
}

/// Scanning `[marker] line crlf tail` finds the terminator right after `line`.
pub proof fn lemma_header_scan(marker: u8, line: Seq<u8>, tail: Seq<u8>)
    requires
        crlf_free(line),
    ensures
        ({
            let s = seq![marker] + line + crlf() + tail;
            find_crlf(s.subrange(1, s.len() as int)) == Some(line.len() as int)
                && s.subrange(1, 1 + line.len() as int) == line && s[0] == marker
        }),
{
    let s = seq![marker] + line + crlf() + tail;
    let t = s.subrange(1, s.len() as int);
    assert(t =~= line + crlf() + tail);
    let i = line.len() as int;
    assert(t[i] == 13 && t[i + 1] == 10);
    assert forall|j: int| #![trigger t[j]] 0 <= j < i implies !(t[j] == 13 && t[j + 1] == 10) by {
        if j + 1 < i {
            assert(t[j] == line[j]);
            assert(t[j + 1] == line[j + 1]);
        } else {
            assert(t[j + 1] == 13);
        }
    }
    lemma_find_crlf_at(t, i);
    assert(s.subrange(1, 1 + i) =~= line);
}

/// Decoding an encoding, with anything after it, yields exactly the encoded
/// frame and consumes exactly its bytes.
pub proof fn lemma_round_trip(m: FrameM, rest: Seq<u8>)
    requires
        wf_frame(m),
    ensures
        dec_frame(enc(m) + rest) == DecRes::Found(m, enc(m).len() as int),
    decreases m, 0nat,
{
    let s = enc(m) + rest;
    match m {
        FrameM::Simple(d) => {
            assert(s =~= seq![43u8] + d + crlf() + rest);
            lemma_header_scan(43, d, rest);
        },
        FrameM::Int(n) => {
            let line = int_digits(n);
            assert(s =~= seq![58u8] + line + crlf() + rest);
            if n < 0 {
                lemma_dec_digits((-n) as nat);
                let digits = dec_digits((-n) as nat);
                assert(line =~= seq![45u8] + digits);
                assert forall|j: int| 0 <= j < line.len() implies #[trigger] line[j] != 13
                    && line[j] != 10 by {
                    if j > 0 {
                        assert(line[j] == digits[j - 1]);
                        assert(is_digit(digits[j - 1]));
                    }
                }
                lemma_header_scan(58, line, rest);
                assert(line.skip(1) =~= digits);
                assert(parse_int(line) == Some(n));
            } else {
                lemma_dec_digits(n as nat);
                assert(line == dec_digits(n as nat));
                lemma_digits_crlf_free(line);
                lemma_header_scan(58, line, rest);
                assert(is_digit(line[0]));
                assert(line[0] != 45);
                assert(parse_int(line) == Some(n));
            }
        },
        FrameM::Bulk(d_opt) => match d_opt {
            None => {
                let line = seq![45u8, 49u8];
                assert(s =~= seq![36u8] + line + crlf() + rest);
                assert(crlf_free(line));
                lemma_header_scan(36, line, rest);
                assert(is_null_line(line));
                assert(enc(m).len() == 5);
            },
            Some(d) => {
                let line = dec_digits(d.len());
                lemma_dec_digits(d.len());
                lemma_digits_crlf_free(line);
                let tail = d + crlf() + rest;
                assert(s =~= seq![36u8] + line + crlf() + tail);
                lemma_header_scan(36, line, tail);
                let i = line.len() as int;
                let header = 1 + i + 2;
                assert(is_digit(line[0]));
                assert(!is_null_line(line));
                assert(is_length_line(line));
                let total = header + d.len() + 2;
                assert(enc(m).len() == total);
                assert(s.len() >= total);
                assert(s[total - 2] == 13 && s[total - 1] == 10) by {
                    assert(s[total - 2] == enc(m)[total - 2]);
                    assert(s[total - 1] == enc(m)[total - 1]);
                    assert(enc(m) =~= seq![36u8] + line + crlf() + d + crlf());
                }
                assert(s.subrange(header, header + d.len() as int) =~= d);
                assert(dec_frame(s) == DecRes::Found(FrameM::Bulk(Some(d)), total as int));
            },
        },
        FrameM::Arr(es_opt) => match es_opt {
            None => {
                let line = seq![45u8, 49u8];
                assert(s =~= seq![42u8] + line + crlf() + rest);
                assert(crlf_free(line));
                lemma_header_scan(42, line, rest);
                assert(is_null_line(line));
                assert(enc(m).len() == 5);
            },
            Some(es) => {
                let line = dec_digits(es.len());
                lemma_dec_digits(es.len());
                lemma_digits_crlf_free(line);
                let tail = enc_list(es) + rest;
                assert(s =~= seq![42u8] + line + crlf() + tail);
                lemma_header_scan(42, line, tail);
                let i = line.len() as int;
                let header = 1 + i + 2;
                assert(is_digit(line[0]));
                assert(!is_null_line(line));
                assert(is_length_line(line));
                assert(header <= s.len());
                assert(s.subrange(header, s.len() as int) =~= enc_list(es) + rest);
                lemma_round_trip_list(es, rest);
                assert(enc(m).len() == header + enc_list(es).len());
            },
        },
        FrameM::Null => {
            let t = s.subrange(1, s.len() as int);
            assert(t =~= crlf() + rest);
            assert(t[0] == 13 && t[1] == 10);
            lemma_find_crlf_at(t, 0);
            assert(enc(m).len() == 3);
        },
    }
}

pub proof fn lemma_round_trip_list(es: Seq<FrameM>, rest: Seq<u8>)
    requires
        forall|i: int| 0 <= i < es.len() ==> wf_frame(#[trigger] es[i]),
    ensures
        dec_elems(enc_list(es) + rest, es.len()) == ElemsRes::Found(
            es,
            enc_list(es).len() as int,
        ),
    decreases es, 1nat,
{
    let s = enc_list(es) + rest;
    if es.len() == 0 {
        assert(es =~= Seq::<FrameM>::empty());
        assert(enc_list(es) =~= Seq::<u8>::empty());
        assert(dec_elems(s, 0) == ElemsRes::Found(Seq::<FrameM>::empty(), 0int));
    } else {
        let hd = es[0];
        let tl = es.subrange(1, es.len() as int);
        assert(s =~= enc(hd) + (enc_list(tl) + rest));
        lemma_round_trip(hd, enc_list(tl) + rest);
        let n0 = enc(hd).len() as int;
        lemma_enc_len_min(hd);
        assert(dec_frame(s) == DecRes::Found(hd, n0));
        assert(1 <= n0 <= s.len());
        assert(s.subrange(n0, s.len() as int) =~= enc_list(tl) + rest);
        lemma_round_trip_list(tl, rest);
        assert(seq![hd] + tl =~= es);
        assert(enc_list(es).len() == n0 + enc_list(tl).len());
    }
}

/// The frame of a Found outcome.
pub open spec fn found_frame(r: DecRes) -> FrameM {
    match r {
        DecRes::Found(f, _) => f,
        _ => FrameM::Null,
    }
}

/// The byte count of a Found outcome.
pub open spec fn found_len(r: DecRes) -> int {
    match r {
        DecRes::Found(_, n) => n,
        _ => 0,
    }
}


/// A prefix of `line + crlf + rest` that reaches at most one byte past
/// `line` holds no terminator pair.
proof fn lemma_line_prefix_crlf_free(line: Seq<u8>, rest: Seq<u8>, j: int)
    requires
        crlf_free(line),
        0 <= j <= line.len() + 1,
    ensures
        crlf_free((line + crlf() + rest).take(j)),
{
    let w = (line + crlf() + rest).take(j);
    assert forall|i: int| #![trigger w[i]] 0 <= i && i + 1 < w.len() implies !(w[i] == 13 && w[i
        + 1] == 10) by {
        if i + 1 < line.len() {
            assert(w[i] == line[i]);
            assert(w[i + 1] == line[i + 1]);
        } else {
            assert(w[i + 1] == (line + crlf() + rest)[line.len() as int]);
        }
    }
}

/// Every strict prefix of an encoded frame decodes to the incomplete
/// signal: decoding never mistakes a cut-off frame for a whole one.
/// A cut within the header line reads as incomplete.
proof fn lemma_header_prefix_incomplete(marker: u8, line: Seq<u8>, tail: Seq<u8>, k: int)
    requires
        crlf_free(line),
        1 <= k <= line.len() + 2,
        k <= (seq![marker] + line + crlf() + tail).len(),
        marker == 43 || marker == 58 || marker == 36 || marker == 42 || marker == 95,
    ensures
        dec_frame((seq![marker] + line + crlf() + tail).take(k)) == DecRes::Incomplete,
{
    let s = seq![marker] + line + crlf() + tail;
    let t = s.take(k);
    assert(t[0] == marker);
    assert(t.subrange(1, k) =~= (line + crlf() + tail).take(k - 1));
    lemma_line_prefix_crlf_free(line, tail, k - 1);
    lemma_find_crlf_none(t.subrange(1, k));
}

/// A cut past the header line still scans to the same header.
proof fn lemma_header_prefix_scan(marker: u8, line: Seq<u8>, tail: Seq<u8>, k: int)
    requires
        crlf_free(line),
        line.len() + 3 <= k <= (seq![marker] + line + crlf() + tail).len(),
    ensures
        ({
            let t = (seq![marker] + line + crlf() + tail).take(k);
            find_crlf(t.subrange(1, t.len() as int)) == Some(line.len() as int) && t.subrange(
                1,
                1 + line.len() as int,
            ) == line && t[0] == marker && t.len() == k
        }),
{
    let s = seq![marker] + line + crlf() + tail;
    let t = s.take(k);
    let u = t.subrange(1, k);
    let i = line.len() as int;
    assert(u =~= (line + crlf() + tail).take(k - 1));
    assert(u[i] == 13 && u[i + 1] == 10);
    assert forall|j: int| #![trigger u[j]] 0 <= j < i implies !(u[j] == 13 && u[j + 1] == 10) by {
        if j + 1 < i {
            assert(u[j] == line[j]);
            assert(u[j + 1] == line[j + 1]);
        } else {
            assert(u[j + 1] == 13);
        }
    }
    lemma_find_crlf_at(u, i);
    assert(t.subrange(1, 1 + i) =~= line);
}

/// Every strict prefix of an encoded frame decodes to the incomplete
/// signal: decoding never mistakes a cut-off frame for a whole one.
pub proof fn lemma_enc_prefix_incomplete(m: FrameM, k: int)
    requires
        wf_frame(m),
        0 <= k < enc(m).len(),
    ensures
        dec_frame(enc(m).take(k)) == DecRes::Incomplete,
    decreases m, 0nat,
{
    let s = enc(m);
    let t = s.take(k);
    if k == 0 {
        return ;
    }
    match m {
        FrameM::Simple(d) => {
            assert(s =~= seq![43u8] + d + crlf() + Seq::<u8>::empty());
            lemma_header_prefix_incomplete(43, d, Seq::empty(), k);
        },
        FrameM::Int(n) => {
            let line = int_digits(n);
            assert(crlf_free(line)) by {
                if n < 0 {
                    lemma_dec_digits((-n) as nat);
                    let digits = dec_digits((-n) as nat);
                    assert(line =~= seq![45u8] + digits);
                    assert forall|j: int| 0 <= j < line.len() implies #[trigger] line[j] != 13 by {
                        if j > 0 {
                            assert(line[j] == digits[j - 1]);
                            assert(is_digit(digits[j - 1]));
                        }
                    }
                } else {
                    lemma_dec_digits(n as nat);
                    lemma_digits_crlf_free(line);
                }
            }
            assert(s =~= seq![58u8] + line + crlf() + Seq::<u8>::empty());
            lemma_header_prefix_incomplete(58, line, Seq::empty(), k);
        },
        FrameM::Bulk(d_opt) => match d_opt {
            None => {
                let line = seq![45u8, 49u8];
                assert(crlf_free(line));
                assert(s =~= seq![36u8] + line + crlf() + Seq::<u8>::empty());
                lemma_header_prefix_incomplete(36, line, Seq::empty(), k);
            },
            Some(d) => {
                let line = dec_digits(d.len());
                lemma_dec_digits(d.len());
                lemma_digits_crlf_free(line);
                let i = line.len() as int;
                let header = 1 + i + 2;
                let tail = d + crlf();
                assert(s =~= seq![36u8] + line + crlf() + tail);
                if k < header {
                    lemma_header_prefix_incomplete(36, line, tail, k);
                } else {
                    lemma_header_prefix_scan(36, line, tail, k);
                    assert(is_digit(line[0]));
                    assert(!is_null_line(line));
                    assert(is_length_line(line));
                    assert(t.len() < header + d.len() + 2);
                }
            },
        },
        FrameM::Arr(es_opt) => match es_opt {
            None => {
                let line = seq![45u8, 49u8];
                assert(crlf_free(line));
                assert(s =~= seq![42u8] + line + crlf() + Seq::<u8>::empty());
                lemma_header_prefix_incomplete(42, line, Seq::empty(), k);
            },
            Some(es) => {
                let line = dec_digits(es.len());
                lemma_dec_digits(es.len());
                lemma_digits_crlf_free(line);
                let i = line.len() as int;
                let header = 1 + i + 2;
                let tail = enc_list(es);
                assert(s =~= seq![42u8] + line + crlf() + tail);
                assert(enc(m).len() == header + enc_list(es).len());
                if k < header {
                    lemma_header_prefix_incomplete(42, line, tail, k);
                } else {
                    lemma_header_prefix_scan(42, line, tail, k);
                    assert(is_digit(line[0]));
                    assert(!is_null_line(line));
                    assert(is_length_line(line));
                    assert(t.subrange(header, t.len() as int) =~= enc_list(es).take(k - header));
                    lemma_enc_list_prefix_incomplete(es, k - header);
                }
            },
        },
        FrameM::Null => {
            assert(s =~= seq![95u8] + Seq::<u8>::empty() + crlf() + Seq::<u8>::empty());
            lemma_header_prefix_incomplete(95, Seq::empty(), Seq::empty(), k);
        },
    }
}

pub proof fn lemma_enc_list_prefix_incomplete(es: Seq<FrameM>, k: int)
    requires
        forall|i: int| 0 <= i < es.len() ==> wf_frame(#[trigger] es[i]),
        0 <= k < enc_list(es).len(),
    ensures
        dec_elems(enc_list(es).take(k), es.len()) == ElemsRes::Incomplete,
    decreases es, 1nat,
{
    assert(es.len() > 0);
    let hd = es[0];
    let tl = es.subrange(1, es.len() as int);
    let w = enc_list(es);
    let n0 = enc(hd).len() as int;
    lemma_enc_len_min(hd);
    let t = w.take(k);
    if k < n0 {
        assert(t =~= enc(hd).take(k));
        lemma_enc_prefix_incomplete(hd, k);
    } else {
        assert(t =~= enc(hd) + enc_list(tl).take(k - n0));
        lemma_round_trip(hd, enc_list(tl).take(k - n0));
        assert(dec_frame(t) == DecRes::Found(hd, n0));
        assert(1 <= n0 <= t.len());
        assert(t.subrange(n0, t.len() as int) =~= enc_list(tl).take(k - n0));
        if k == n0 {
            assert(enc_list(tl).len() > 0);
            assert(enc_list(tl).take(0) =~= Seq::<u8>::empty());
            assert(dec_frame(Seq::<u8>::empty()) == DecRes::Incomplete);
            assert(es.len() - 1 > 0) by {
                if tl.len() == 0 {
                    assert(enc_list(tl).len() == 0);
                }
            }
        } else {
            lemma_enc_list_prefix_incomplete(tl, k - n0);
        }
    }
}

/// Splitting a valid encoding anywhere changes nothing: the first chunk
/// alone reads as incomplete, and the chunks re-joined decode exactly as the
/// whole does.
pub proof fn lemma_incremental_decode(m: FrameM, k: int)
    requires
        wf_frame(m),
        0 <= k < enc(m).len(),
    ensures
        dec_frame(enc(m).take(k)) == DecRes::Incomplete,
        enc(m).take(k) + enc(m).skip(k) == enc(m),
        dec_frame(enc(m)) == DecRes::Found(m, enc(m).len() as int),
{
    lemma_enc_prefix_incomplete(m, k);
    assert(enc(m).take(k) + enc(m).skip(k) =~= enc(m));
    lemma_round_trip(m, Seq::empty());
    assert(enc(m) + Seq::<u8>::empty() =~= enc(m));
}

/// An absent bulk string and an absent array each encode to their sentinel
/// and decode back to absence; neither equals a present-but-empty value.
pub proof fn lemma_null_empty_distinction()
    ensures
        enc(FrameM::Bulk(None)) == seq![36u8, 45u8, 49u8, 13u8, 10u8],
        enc(FrameM::Arr(None)) == seq![42u8, 45u8, 49u8, 13u8, 10u8],
        dec_frame(enc(FrameM::Bulk(None))) == DecRes::Found(FrameM::Bulk(None), 5int),
        dec_frame(enc(FrameM::Arr(None))) == DecRes::Found(FrameM::Arr(None), 5int),
        enc(FrameM::Bulk(None)) != enc(FrameM::Bulk(Some(Seq::empty()))),
        enc(FrameM::Arr(None)) != enc(FrameM::Arr(Some(Seq::empty()))),
        FrameM::Bulk(None) != FrameM::Bulk(Some(Seq::<u8>::empty())),
        FrameM::Arr(None) != FrameM::Arr(Some(Seq::<FrameM>::empty())),
{
    assert(enc(FrameM::Bulk(None)) =~= seq![36u8, 45u8, 49u8, 13u8, 10u8]);
    assert(enc(FrameM::Arr(None)) =~= seq![42u8, 45u8, 49u8, 13u8, 10u8]);
    lemma_round_trip(FrameM::Bulk(None), Seq::empty());
    lemma_round_trip(FrameM::Arr(None), Seq::empty());
    assert(enc(FrameM::Bulk(None)) + Seq::<u8>::empty() =~= enc(FrameM::Bulk(None)));
    assert(enc(FrameM::Arr(None)) + Seq::<u8>::empty() =~= enc(FrameM::Arr(None)));
    lemma_dec_digits(0);
    assert(dec_digits(0) =~= seq![48u8]);
    assert(enc(FrameM::Bulk(Some(Seq::empty()))).len() == 6) by {
        assert(enc(FrameM::Bulk(Some(Seq::empty()))) =~= seq![36u8] + seq![48u8] + crlf()
            + Seq::<u8>::empty() + crlf());
    }
    assert(enc_list(Seq::<FrameM>::empty()) =~= Seq::<u8>::empty());
    assert(enc(FrameM::Arr(Some(Seq::empty()))) =~= seq![42u8, 48u8, 13u8, 10u8]);
    assert(enc(FrameM::Arr(Some(Seq::empty()))).len() == 4);
}


} // verus!
