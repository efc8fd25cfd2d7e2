//! The executable frame types and the frame codec: total encoding to bytes,
//! and all-or-nothing decoding from the front of a growing byte buffer.
use vstd::prelude::*;

use crate::buffer::{buf_advance, buf_bytes, buf_slice};
use crate::model::{
    all_digits, crlf_free, found_frame, found_len, is_digit, dec_digits, dec_frame, dec_val, enc, enc_list, find_crlf,
    is_length_line, is_null_line, lemma_dec_val_step, lemma_find_crlf_at, lemma_find_crlf_none,
    lemma_find_crlf_props, parse_int, DecRes, ElemsRes, FrameM,
};
use vstd::slice::{slice_subrange, slice_to_vec};

verus! {

/// A short status line frame.
#[derive(Debug)]
pub struct SimpleString(pub Vec<u8>);

/// A length-prefixed, nullable, binary-safe byte string frame.
#[derive(Debug)]
pub struct BulkString(pub Option<Vec<u8>>);

/// A nullable, ordered, recursive sequence of frames.
#[derive(Debug)]
pub struct RespArray(pub Option<Vec<RespFrame>>);

/// The frame that marks explicit absence.
#[derive(Debug)]
pub struct RespNull;

/// One protocol value.
#[derive(Debug)]
pub enum RespFrame {
    SimpleString(SimpleString),
    Integer(i64),
    BulkString(BulkString),
    Array(RespArray),
    Null(RespNull),
}

/// Why a decode attempt returned no frame.
#[derive(Debug, Clone, Copy, PartialEq, Eq, Structural)]
pub enum RespError {
    /// A valid prefix: retry once more bytes have arrived.
    NotComplete,
    /// The bytes cannot begin any frame.
    InvalidFrame,
    /// The bytes do not begin a frame of the requested kind.
    InvalidFrameType,
}

pub open spec fn models(v: Seq<RespFrame>) -> Seq<FrameM>
    decreases v,
{
    Seq::new(
        v.len(),
        |i: int|
            if 0 <= i < v.len() {
                v[i].model()
            } else {
                FrameM::Null
            },
    )
}

impl RespFrame {
    /// The mathematical value this frame stands for.
    pub open spec fn model(self) -> FrameM
        decreases self,
    {
        match self {
            RespFrame::SimpleString(s) => FrameM::Simple(s.0@),
            RespFrame::Integer(n) => FrameM::Int(n as int),
            RespFrame::BulkString(b) => FrameM::Bulk(
                match b.0 {
                    Some(v) => Some(v@),
                    None => None,
                },
            ),
            RespFrame::Array(a) => FrameM::Arr(
                match a.0 {
                    Some(v) => Some(models(v@)),
                    None => None,
                },
            ),
            RespFrame::Null(_) => FrameM::Null,
        }
    }
}

impl BulkString {
    /// The byte sequence this bulk string stands for, or absence.
    pub open spec fn model(self) -> Option<Seq<u8>> {
        match self.0 {
            Some(v) => Some(v@),
            None => None,
        }
    }
}

impl RespArray {
    /// The frame sequence this array stands for, or absence.
    pub open spec fn model(self) -> Option<Seq<FrameM>> {
        match self.0 {
            Some(v) => Some(models(v@)),
            None => None,
        }
    }
}

/// Bytewise equality of two slices.
fn bytes_eq(a: &[u8], b: &[u8]) -> (r: bool)
    ensures
        r == (a@ == b@),
{
    if a.len() != b.len() {
        return false;
    }
    let mut k: usize = 0;
    while k < a.len()
        invariant
            k <= a.len(),
            a@.len() == b@.len(),
            forall|i: int| 0 <= i < k ==> a@[i] == b@[i],
        decreases a.len() - k,
    {
        if a[k] != b[k] {
            return false;
        }
        k = k + 1;
    }
    proof {
        assert(a@ =~= b@);
    }
    true
}

impl Clone for SimpleString {
    /// Cloning keeps the bytes.
    fn clone(&self) -> (r: Self)
        ensures
            r.0@ == self.0@,
    {
        SimpleString(slice_to_vec(self.0.as_slice()))
    }
}

impl Clone for BulkString {
    /// Cloning keeps the value.
    fn clone(&self) -> (r: Self)
        ensures
            r.model() == self.model(),
    {
        match &self.0 {
            Some(d) => BulkString(Some(slice_to_vec(d.as_slice()))),
            None => BulkString(None),
        }
    }
}

impl Clone for RespFrame {
    /// Cloning keeps the value, recursing into array contents.
    #[verifier::loop_isolation(false)]
    fn clone(&self) -> (r: Self)
        ensures
            r.model() == self.model(),
        decreases *self,
    {
        match self {
            RespFrame::SimpleString(s) => RespFrame::SimpleString(s.clone()),
            RespFrame::Integer(n) => RespFrame::Integer(*n),
            RespFrame::BulkString(b) => RespFrame::BulkString(b.clone()),
            RespFrame::Array(a) => match &a.0 {
                Some(frames) => {
                    let mut v: Vec<RespFrame> = Vec::new();
                    let mut k: usize = 0;
                    while k < frames.len()
                        invariant
                            k <= frames.len(),
                            v@.len() == k,
                            models(v@) == models(frames@).take(k as int),
                        decreases frames.len() - k,
                    {
                        v.push(frames[k].clone());
                        proof {
                            assert(models(v@) =~= models(frames@).take(k + 1));
                        }
                        k = k + 1;
                    }
                    proof {
                        assert(models(frames@).take(frames@.len() as int) =~= models(frames@));
                    }
                    RespFrame::Array(RespArray(Some(v)))
                },
                None => RespFrame::Array(RespArray(None)),
            },
            RespFrame::Null(_) => RespFrame::Null(RespNull),
        }
    }
}

impl RespFrame {
    /// Structural equality of two frames, recursing into array contents.
    #[verifier::loop_isolation(false)]
    pub fn frame_eq(&self, other: &RespFrame) -> (r: bool)
        ensures
            r == (self.model() == other.model()),
        decreases *self,
    {
        match (self, other) {
            (RespFrame::SimpleString(a), RespFrame::SimpleString(b)) => bytes_eq(
                a.0.as_slice(),
                b.0.as_slice(),
            ),
            (RespFrame::Integer(a), RespFrame::Integer(b)) => *a == *b,
            (RespFrame::BulkString(a), RespFrame::BulkString(b)) => match (&a.0, &b.0) {
                (Some(x), Some(y)) => bytes_eq(x.as_slice(), y.as_slice()),
                (None, None) => true,
                _ => false,
            },
            (RespFrame::Array(a), RespFrame::Array(b)) => match (&a.0, &b.0) {
                (Some(x), Some(y)) => {
                    if x.len() != y.len() {
                        proof {
                            assert(models(x@).len() != models(y@).len());
                        }
                        return false;
                    }
                    let mut k: usize = 0;
                    while k < x.len()
                        invariant
                            k <= x.len(),
                            x@.len() == y@.len(),
                            forall|i: int| 0 <= i < k ==> models(x@)[i] == models(y@)[i],
                        decreases x.len() - k,
                    {
                        if !x[k].frame_eq(&y[k]) {
                            proof {
                                assert(models(x@)[k as int] != models(y@)[k as int]);
                            }
                            return false;
                        }
                        k = k + 1;
                    }
                    proof {
                        assert(models(x@) =~= models(y@));
                    }
                    true
                },
                (None, None) => true,
                _ => false,
            },
            (RespFrame::Null(_), RespFrame::Null(_)) => true,
            _ => false,
        }
    }
}

impl SimpleString {
    pub fn new(data: Vec<u8>) -> (r: Self)
        ensures
            r.0@ == data@,
    {
        SimpleString(data)
    }
}

impl BulkString {
    pub fn new(data: Option<Vec<u8>>) -> (r: Self)
        ensures
            r.0 == data,
    {
        BulkString(data)
    }
}

impl RespArray {
    pub fn new(frames: Option<Vec<RespFrame>>) -> (r: Self)
        ensures
            r.0 == frames,
    {
        RespArray(frames)
    }
}

// ---------- encoding ----------

/// Appends the decimal digits of `n`.
fn push_dec_digits(n: u64, out: &mut Vec<u8>)
    ensures
        final(out)@ == old(out)@ + dec_digits(n as nat),
    decreases n,
{
    if n < 10 {
        out.push((48 + n) as u8);
        assert(out@ =~= old(out)@ + dec_digits(n as nat));
    } else {
        push_dec_digits(n / 10, out);
        out.push((48 + (n % 10)) as u8);
        assert(out@ =~= old(out)@ + dec_digits(n as nat));
    }
}

/// Appends all bytes of `data`.
fn push_all(data: &[u8], out: &mut Vec<u8>)
    ensures
        final(out)@ == old(out)@ + data@,
{
    let mut k: usize = 0;
    while k < data.len()
        invariant
            k <= data.len(),
            out@ == old(out)@ + data@.take(k as int),
        decreases data.len() - k,
    {
        out.push(data[k]);
        assert(out@ =~= old(out)@ + data@.take(k + 1));
        k = k + 1;
    }
    assert(data@.take(data@.len() as int) =~= data@);
}

fn push_crlf(out: &mut Vec<u8>)
    ensures
        final(out)@ == old(out)@ + crate::model::crlf(),
{
    out.push(13);
    out.push(10);
    assert(out@ =~= old(out)@ + crate::model::crlf());
}

impl RespFrame {
    /// Encoding is total and side-effect-free: it yields exactly the wire
    /// bytes of this frame's value.
    pub fn encode(self) -> (r: Vec<u8>)
        ensures
            r@ == enc(self.model()),
    {
        let mut out: Vec<u8> = Vec::new();
        self.encode_into(&mut out);
        out
    }

    #[verifier::loop_isolation(false)]
    fn encode_into(&self, out: &mut Vec<u8>)
        ensures
            final(out)@ == old(out)@ + enc(self.model()),
        decreases *self,
    {
        match self {
            RespFrame::SimpleString(s) => {
                out.push(43);
                push_all(s.0.as_slice(), out);
                push_crlf(out);
                assert(out@ =~= old(out)@ + enc(self.model()));
            },
            RespFrame::Integer(n) => {
                out.push(58);
                let v = *n;
                if v < 0 {
                    out.push(45);
                    let mag: u64 = (-(v as i128)) as u64;
                    push_dec_digits(mag, out);
                } else {
                    push_dec_digits(v as u64, out);
                }
                push_crlf(out);
                assert(out@ =~= old(out)@ + enc(self.model()));
            },
            RespFrame::BulkString(b) => {
                match &b.0 {
                    Some(d) => {
                        out.push(36);
                        push_dec_digits(d.len() as u64, out);
                        push_crlf(out);
                        push_all(d.as_slice(), out);
                        push_crlf(out);
                        assert(out@ =~= old(out)@ + enc(self.model()));
                    },
                    None => {
                        out.push(36);
                        out.push(45);
                        out.push(49);
                        push_crlf(out);
                        assert(out@ =~= old(out)@ + enc(self.model()));
                    },
                }
            },
            RespFrame::Array(a) => {
                match &a.0 {
                    Some(frames) => {
                        out.push(42);
                        push_dec_digits(frames.len() as u64, out);
                        push_crlf(out);
                        let ghost ms = models(frames@);
                        let ghost base = out@;
                        let mut k: usize = 0;
                        while k < frames.len()
                            invariant
                                k <= frames.len(),
                                ms == models(frames@),
                                out@ == base + enc_list(ms.take(k as int)),
                            decreases frames.len() - k,
                        {
                            frames[k].encode_into(out);
                            proof {
                                assert(ms.take(k as int).push(ms[k as int]) =~= ms.take(
                                    k + 1,
                                ));
                                crate::model::lemma_enc_list_snoc(
                                    ms.take(k as int),
                                    ms[k as int],
                                );
                            }
                            k = k + 1;
                        }
                        proof {
                            assert(ms.take(frames@.len() as int) =~= ms);
                            assert(base + enc_list(ms) =~= old(out)@ + enc(self.model()));
                        }
                    },
                    None => {
                        out.push(42);
                        out.push(45);
                        out.push(49);
                        push_crlf(out);
                        assert(out@ =~= old(out)@ + enc(self.model()));
                    },
                }
            },
            RespFrame::Null(_) => {
                out.push(95);
                push_crlf(out);
                assert(out@ =~= old(out)@ + enc(self.model()));
            },
        }
    }
}


// ---------- decoding ----------

/// Finds the first terminator pair in `s`.
fn scan_crlf(s: &[u8]) -> (r: Option<usize>)
    ensures
        match r {
            Some(i) => find_crlf(s@) == Some(i as int),
            None => find_crlf(s@) == None::<int>,
        },
{
    if s.len() < 1 {
        proof {
            lemma_find_crlf_props(s@);
            if let Some(i) = find_crlf(s@) {
                assert(false);
            }
        }
        return None;
    }
    let mut j: usize = 0;
    while j < s.len() - 1
        invariant
            s@.len() >= 1,
            j <= s.len(),
            forall|t: int| #![trigger s@[t]] 0 <= t < j ==> !(s@[t] == 13 && s@[t + 1] == 10),
        decreases s.len() - j,
    {
        if s[j] == 13 && s[j + 1] == 10 {
            proof {
                lemma_find_crlf_at(s@, j as int);
            }
            return Some(j);
        }
        j = j + 1;
    }
    proof {
        lemma_find_crlf_none(s@);
    }
    None
}

/// How a header line reads as an unsigned length.
enum DigitsOut {
    Val(u64),
    TooBig,
    NotDigits,
}

/// Reads a line of decimal digits.
fn parse_digits(line: &[u8]) -> (r: DigitsOut)
    ensures
        match r {
            DigitsOut::Val(v) => is_length_line(line@) && dec_val(line@) == v as nat,
            DigitsOut::TooBig => is_length_line(line@) && dec_val(line@) > u64::MAX,
            DigitsOut::NotDigits => !is_length_line(line@),
        },
{
    if line.len() == 0 {
        return DigitsOut::NotDigits;
    }
    let mut val: u64 = 0;
    let mut big = false;
    let mut k: usize = 0;
    while k < line.len()
        invariant
            k <= line.len(),
            all_digits(line@.take(k as int)),
            !big ==> val as nat == dec_val(line@.take(k as int)),
            big ==> dec_val(line@.take(k as int)) > u64::MAX,
        decreases line.len() - k,
    {
        let b = line[k];
        if b < 48 || b > 57 {
            assert(!is_digit(line@[k as int]));
            return DigitsOut::NotDigits;
        }
        proof {
            lemma_dec_val_step(line@, k as int);
            assert(line@.take(k + 1).drop_last() =~= line@.take(k as int));
        }
        if big {
            proof {
                assert(dec_val(line@.take(k + 1)) >= dec_val(line@.take(k as int)));
            }
        } else {
            let wide: u128 = (val as u128) * 10 + ((b - 48) as u128);
            if wide > u64::MAX as u128 {
                big = true;
            } else {
                val = wide as u64;
            }
        }
        k = k + 1;
    }
    proof {
        assert(line@.take(line@.len() as int) =~= line@);
    }
    if big {
        DigitsOut::TooBig
    } else {
        DigitsOut::Val(val)
    }
}

/// Reads a line as a signed 64-bit integer.
fn parse_int_line(line: &[u8]) -> (r: Option<i64>)
    ensures
        match r {
            Some(v) => parse_int(line@) == Some(v as int),
            None => parse_int(line@) == None::<int>,
        },
{
    if line.len() >= 1 && line[0] == 45 {
        let digits = slice_subrange(line, 1, line.len());
        proof {
            assert(digits@ =~= line@.skip(1));
        }
        match parse_digits(digits) {
            DigitsOut::Val(v) => if v <= 0x8000_0000_0000_0000u64 {
                Some((-(v as i128)) as i64)
            } else {
                None
            },
            DigitsOut::TooBig => None,
            DigitsOut::NotDigits => None,
        }
    } else {
        match parse_digits(line) {
            DigitsOut::Val(v) => if v <= i64::MAX as u64 {
                Some(v as i64)
            } else {
                None
            },
            DigitsOut::TooBig => None,
            DigitsOut::NotDigits => None,
        }
    }
}

/// Reads one whole frame from the front of `s` without consuming anything:
/// the non-committing probe behind both `decode` and `expect_length`.
#[verifier::loop_isolation(false)]
#[verifier::rlimit(60)]
pub fn try_parse(s: &[u8]) -> (r: Result<(RespFrame, usize), RespError>)
    ensures
        match r {
            Ok((f, n)) => dec_frame(s@) == DecRes::Found(f.model(), n as int) && 3 <= n
                <= s@.len(),
            Err(e) => (e == RespError::NotComplete && dec_frame(s@) == DecRes::Incomplete) || (
            e == RespError::InvalidFrame && dec_frame(s@) == DecRes::Malformed),
        },
    decreases s@.len(),
{
    proof {
        crate::model::lemma_dec_frame_bounds(s@);
    }
    if s.len() == 0 {
        return Err(RespError::NotComplete);
    }
    let m = s[0];
    let tail = slice_subrange(s, 1, s.len());
    proof {
        assert(tail@ =~= s@.subrange(1, s@.len() as int));
        lemma_find_crlf_props(tail@);
    }
    let i = match scan_crlf(tail) {
        Some(i) => i,
        None => {
            if m == 43 || m == 58 || m == 36 || m == 42 || m == 95 {
                return Err(RespError::NotComplete);
            } else {
                return Err(RespError::InvalidFrame);
            }
        },
    };
    let line = slice_subrange(s, 1, 1 + i);
    proof {
        assert(line@ =~= s@.subrange(1, 1 + i as int));
    }
    let header = 1 + i + 2;
    if m == 43 {
        let data = slice_to_vec(line);
        Ok((RespFrame::SimpleString(SimpleString(data)), header))
    } else if m == 58 {
        match parse_int_line(line) {
            Some(v) => Ok((RespFrame::Integer(v), header)),
            None => Err(RespError::InvalidFrame),
        }
    } else if m == 36 {
        if line.len() == 2 && line[0] == 45 && line[1] == 49 {
            assert(is_null_line(line@));
            Ok((RespFrame::BulkString(BulkString(None)), header))
        } else {
            assert(!is_null_line(line@));
            match parse_digits(line) {
                DigitsOut::Val(len64) => {
                    let remaining = s.len() - header;
                    if remaining < 2 || len64 > (remaining - 2) as u64 {
                        assert((s@.len() as int) < 1 + i + 2 + dec_val(line@) + 2);
                        Err(RespError::NotComplete)
                    } else {
                        let len = len64 as usize;
                        let total = header + len + 2;
                        if s[total - 2] == 13 && s[total - 1] == 10 {
                            let data = slice_to_vec(slice_subrange(s, header, header + len));
                            proof {
                                assert(data@ =~= s@.subrange(
                                    header as int,
                                    header as int + dec_val(line@),
                                ));
                            }
                            Ok((RespFrame::BulkString(BulkString(Some(data))), total))
                        } else {
                            Err(RespError::InvalidFrame)
                        }
                    }
                },
                DigitsOut::TooBig => {
                    assert((s@.len() as int) < 1 + i + 2 + dec_val(line@) + 2);
                    Err(RespError::NotComplete)
                },
                DigitsOut::NotDigits => Err(RespError::InvalidFrame),
            }
        }
    } else if m == 42 {
        if line.len() == 2 && line[0] == 45 && line[1] == 49 {
            assert(is_null_line(line@));
            Ok((RespFrame::Array(RespArray(None)), header))
        } else {
            assert(!is_null_line(line@));
            let (cnt64, big) = match parse_digits(line) {
                DigitsOut::Val(c) => (c, false),
                DigitsOut::TooBig => (0u64, true),
                DigitsOut::NotDigits => {
                    return Err(RespError::InvalidFrame);
                },
            };
            let ghost cnt: nat = dec_val(line@);
            let ghost rem0 = s@.subrange(header as int, s@.len() as int);
            let mut elems: Vec<RespFrame> = Vec::new();
            let mut off: usize = header;
            let mut k: u64 = 0;
            proof {
                assert(s@.subrange(off as int, s@.len() as int) =~= rem0);
                assert(models(elems@) + Seq::<FrameM>::empty() =~= models(elems@));
            }
            while big || k < cnt64
                invariant
                    header <= off <= s.len(),
                    elems@.len() == k as nat,
                    !big ==> cnt == cnt64 as nat && k <= cnt64,
                    big ==> cnt > u64::MAX as nat,
                    off as int >= header as int + 3 * (k as int),
                    k as nat <= cnt,
                    ({
                        let inner = crate::model::dec_elems(
                            s@.subrange(off as int, s@.len() as int),
                            (cnt - k as nat) as nat,
                        );
                        crate::model::dec_elems(rem0, cnt) == match inner {
                            ElemsRes::Found(rest, u) => ElemsRes::Found(
                                models(elems@) + rest,
                                (off - header) + u,
                            ),
                            ElemsRes::Incomplete => ElemsRes::Incomplete,
                            ElemsRes::Malformed => ElemsRes::Malformed,
                        }
                    }),
                decreases cnt - k as nat,
            {
                proof {
                    if big {
                        assert(3 * (k as int) <= s@.len());
                        assert((k as nat) < cnt);
                    }
                }
                let sub = slice_subrange(s, off, s.len());
                proof {
                    assert(sub@ =~= s@.subrange(off as int, s@.len() as int));
                }
                match try_parse(sub) {
                    Ok((f, n)) => {
                        proof {
                            let ghost remk = s@.subrange(off as int, s@.len() as int);
                            assert(crate::model::dec_elems(remk, (cnt - k as nat) as nat)
                                == match crate::model::dec_elems(
                                remk.subrange(n as int, remk.len() as int),
                                (cnt - k as nat - 1) as nat,
                            ) {
                                ElemsRes::Found(rest, u) => ElemsRes::Found(
                                    seq![f.model()] + rest,
                                    n + u,
                                ),
                                ElemsRes::Incomplete => ElemsRes::Incomplete,
                                ElemsRes::Malformed => ElemsRes::Malformed,
                            });
                            assert(remk.subrange(n as int, remk.len() as int) =~= s@.subrange(
                                off + n,
                                s@.len() as int,
                            ));
                        }
                        let ghost old_elems = elems@;
                        elems.push(f);
                        proof {
                            assert(models(elems@) =~= models(old_elems).push(f.model()));
                            assert forall|rest: Seq<FrameM>|
                                models(old_elems) + (seq![f.model()] + rest) =~= models(
                                elems@,
                            ) + rest by {}
                        }
                        off = off + n;
                        k = k + 1;
                    },
                    Err(e) => {
                        return Err(e);
                    },
                }
            }
            proof {
                assert(crate::model::dec_elems(
                    s@.subrange(off as int, s@.len() as int),
                    0,
                ) == ElemsRes::Found(Seq::<FrameM>::empty(), 0int));
                assert(models(elems@) + Seq::<FrameM>::empty() =~= models(elems@));
                assert(crate::model::dec_elems(rem0, cnt) == ElemsRes::Found(
                    models(elems@),
                    off - header,
                ));
            }
            Ok((RespFrame::Array(RespArray(Some(elems))), off))
        }
    } else if m == 95 {
        if i == 0 {
            Ok((RespFrame::Null(RespNull), 3))
        } else {
            Err(RespError::InvalidFrame)
        }
    } else {
        Err(RespError::InvalidFrame)
    }
}



impl RespFrame {
    /// How many bytes the frame at the front of `buf` occupies, without
    /// consuming anything.
    pub fn expect_length(buf: &[u8]) -> (r: Result<usize, RespError>)
        ensures
            match r {
                Ok(n) => dec_frame(buf@) is Found && n as int == found_len(dec_frame(buf@)),
                Err(e) => (e == RespError::NotComplete && dec_frame(buf@) == DecRes::Incomplete)
                    || (e == RespError::InvalidFrame && dec_frame(buf@) == DecRes::Malformed),
            },
    {
        match try_parse(buf) {
            Ok((_, n)) => Ok(n),
            Err(e) => Err(e),
        }
    }

    /// All-or-nothing decode: on success the whole frame is removed from the
    /// front of the buffer; otherwise the buffer is left byte-for-byte
    /// unchanged and the error says whether to wait for more bytes.
    pub fn decode(buf: &mut bytes::BytesMut) -> (r: Result<RespFrame, RespError>)
        ensures
            match r {
                Ok(f) => dec_frame(buf_bytes(*old(buf))) is Found && f.model() == found_frame(
                    dec_frame(buf_bytes(*old(buf))),
                ) && buf_bytes(*final(buf)) == buf_bytes(*old(buf)).skip(
                    found_len(dec_frame(buf_bytes(*old(buf)))),
                ),
                Err(e) => buf_bytes(*final(buf)) == buf_bytes(*old(buf)) && ((e
                    == RespError::NotComplete && dec_frame(buf_bytes(*old(buf)))
                    == DecRes::Incomplete) || (e == RespError::InvalidFrame && dec_frame(
                    buf_bytes(*old(buf)),
                ) == DecRes::Malformed)),
            },
    {
        let r = try_parse(buf_slice(buf));
        match r {
            Ok((f, n)) => {
                buf_advance(buf, n);
                Ok(f)
            },
            Err(e) => Err(e),
        }
    }
}

impl BulkString {
    /// How many bytes the bulk string at the front of `buf` occupies.
    pub fn expect_length(buf: &[u8]) -> (r: Result<usize, RespError>)
        ensures
            match r {
                Ok(n) => dec_frame(buf@) is Found && n as int == found_len(dec_frame(buf@)),
                Err(e) => (e == RespError::NotComplete && dec_frame(buf@) == DecRes::Incomplete)
                    || (e == RespError::InvalidFrame && dec_frame(buf@) == DecRes::Malformed) || (
                e == RespError::InvalidFrameType && buf@.len() > 0 && buf@[0] != 36),
            },
    {
        if buf.len() > 0 && buf[0] != 36 {
            return Err(RespError::InvalidFrameType);
        }
        RespFrame::expect_length(buf)
    }

    /// Decodes one frame that must be a bulk string; any other kind is
    /// refused without consuming anything.
    pub fn decode(buf: &mut bytes::BytesMut) -> (r: Result<BulkString, RespError>)
        ensures
            match r {
                Ok(b) => dec_frame(buf_bytes(*old(buf))) is Found && FrameM::Bulk(b.model())
                    == found_frame(dec_frame(buf_bytes(*old(buf)))) && buf_bytes(*final(buf))
                    == buf_bytes(*old(buf)).skip(found_len(dec_frame(buf_bytes(*old(buf))))),
                Err(e) => buf_bytes(*final(buf)) == buf_bytes(*old(buf)) && ((e
                    == RespError::NotComplete && dec_frame(buf_bytes(*old(buf)))
                    == DecRes::Incomplete) || (e == RespError::InvalidFrame && dec_frame(
                    buf_bytes(*old(buf)),
                ) == DecRes::Malformed) || (e == RespError::InvalidFrameType && buf_bytes(
                    *old(buf),
                ).len() > 0 && buf_bytes(*old(buf))[0] != 36)),
            },
    {
        let first_ok = {
            let s = buf_slice(buf);
            s.len() > 0 && s[0] == 36
        };
        if !first_ok {
            let s = buf_slice(buf);
            if s.len() == 0 {
                return Err(RespError::NotComplete);
            }
            return Err(RespError::InvalidFrameType);
        }
        proof {
            assert(buf_bytes(*buf)[0] == 36);
        }
        match RespFrame::decode(buf) {
            Ok(f) => match f {
                RespFrame::BulkString(b) => Ok(b),
                _ => {
                    proof {
                        assert(false);
                    }
                    Err(RespError::InvalidFrameType)
                },
            },
            Err(e) => Err(e),
        }
    }
}

impl RespArray {
    /// How many bytes the array at the front of `buf` occupies.
    pub fn expect_length(buf: &[u8]) -> (r: Result<usize, RespError>)
        ensures
            match r {
                Ok(n) => dec_frame(buf@) is Found && n as int == found_len(dec_frame(buf@)),
                Err(e) => (e == RespError::NotComplete && dec_frame(buf@) == DecRes::Incomplete)
                    || (e == RespError::InvalidFrame && dec_frame(buf@) == DecRes::Malformed) || (
                e == RespError::InvalidFrameType && buf@.len() > 0 && buf@[0] != 42),
            },
    {
        if buf.len() > 0 && buf[0] != 42 {
            return Err(RespError::InvalidFrameType);
        }
        RespFrame::expect_length(buf)
    }

    /// Decodes one frame that must be an array; any other kind is refused
    /// without consuming anything.
    pub fn decode(buf: &mut bytes::BytesMut) -> (r: Result<RespArray, RespError>)
        ensures
            match r {
                Ok(a) => dec_frame(buf_bytes(*old(buf))) is Found && FrameM::Arr(a.model())
                    == found_frame(dec_frame(buf_bytes(*old(buf)))) && buf_bytes(*final(buf))
                    == buf_bytes(*old(buf)).skip(found_len(dec_frame(buf_bytes(*old(buf))))),
                Err(e) => buf_bytes(*final(buf)) == buf_bytes(*old(buf)) && ((e
                    == RespError::NotComplete && dec_frame(buf_bytes(*old(buf)))
                    == DecRes::Incomplete) || (e == RespError::InvalidFrame && dec_frame(
                    buf_bytes(*old(buf)),
                ) == DecRes::Malformed) || (e == RespError::InvalidFrameType && buf_bytes(
                    *old(buf),
                ).len() > 0 && buf_bytes(*old(buf))[0] != 42)),
            },
    {
        let first_ok = {
            let s = buf_slice(buf);
            s.len() > 0 && s[0] == 42
        };
        if !first_ok {
            let s = buf_slice(buf);
            if s.len() == 0 {
                return Err(RespError::NotComplete);
            }
            return Err(RespError::InvalidFrameType);
        }
        proof {
            assert(buf_bytes(*buf)[0] == 42);
        }
        match RespFrame::decode(buf) {
            Ok(f) => match f {
                RespFrame::Array(a) => Ok(a),
                _ => {
                    proof {
                        assert(false);
                    }
                    Err(RespError::InvalidFrameType)
                },
            },
            Err(e) => Err(e),
        }
    }
}


impl SimpleString {
    /// The wire bytes of this frame alone.
    pub fn encode(self) -> (r: Vec<u8>)
        ensures
            r@ == enc(FrameM::Simple(self.0@)),
    {
        RespFrame::SimpleString(self).encode()
    }
}

impl BulkString {
    /// The wire bytes of this frame alone.
    pub fn encode(self) -> (r: Vec<u8>)
        ensures
            r@ == enc(FrameM::Bulk(self.model())),
    {
        RespFrame::BulkString(self).encode()
    }
}

impl RespArray {
    /// The wire bytes of this frame alone.
    pub fn encode(self) -> (r: Vec<u8>)
        ensures
            r@ == enc(FrameM::Arr(self.model())),
    {
        RespFrame::Array(self).encode()
    }
}

impl RespNull {
    /// The wire bytes of this frame alone.
    pub fn encode(self) -> (r: Vec<u8>)
        ensures
            r@ == enc(FrameM::Null),
    {
        RespFrame::Null(self).encode()
    }
}

} // verus!
