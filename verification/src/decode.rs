//! The decoder: recursive descent keyed on the tag byte, returning exactly
//! one frame and the count of bytes consumed, or `Incomplete` (the buffer
//! holds a valid prefix of a frame: consume nothing, retry with more bytes),
//! or `Malformed` (the buffer violates the grammar at this position). The
//! spec-level parser `spec_parse` pins the executable decoder down exactly.

use vstd::prelude::*;
use vstd::slice::{slice_subrange, slice_to_vec};

use crate::error::DecodeError;
use crate::frame::{
    entries_has, entries_put, frame_wf, frames_view, BulkError, BulkString, FrameSpec, RespArray,
    RespDouble, RespFrame, RespMap, RespNull, RespNullArray, RespNullBulkString, RespSet,
    SimpleError, SimpleString,
};
use crate::grammar::{
    all_digits, digits_val, digits_value_capped, double_text_check, double_text_ok, find_crlf,
    find_crlf_from, lemma_find_crlf_from, lemma_first_non_digit, line_ok,
    scan_digits, CR, LF, MAX_SIZE,
};

verus! {

broadcast use vstd::seq::group_seq_axioms, vstd::std_specs::vec::group_vec_axioms;

/// Outcome of a spec-level parse: a value and the bytes consumed, or the need
/// for more bytes, or a grammar violation.
pub enum Parsed<T> {
    Done(T, int),
    Incomplete,
    Malformed,
}

/// The integer a line of text denotes: optional sign, one or more digits, and
/// the value must fit a 64-bit signed integer.
pub open spec fn int_value(line: Seq<u8>) -> Option<int> {
    let ds = if line.len() > 0 && (line[0] == 43 || line[0] == 45) {
        line.subrange(1, line.len() as int)
    } else {
        line
    };
    let neg = line.len() > 0 && line[0] == 45;
    if ds.len() >= 1 && all_digits(ds) {
        let v = if neg {
            -digits_val(ds)
        } else {
            digits_val(ds)
        };
        if -0x8000000000000000 <= v <= 0x7fffffffffffffff {
            Option::Some(v)
        } else {
            Option::None
        }
    } else {
        Option::None
    }
}

/// The length or count a header line denotes: one or more digits, no leading
/// zero except for zero itself, at most the hardening limit.
pub open spec fn len_value(line: Seq<u8>) -> Option<int> {
    if line.len() >= 1 && all_digits(line) && (line[0] != 48 || line.len() == 1) && digits_val(
        line,
    ) <= MAX_SIZE {
        Option::Some(digits_val(line))
    } else {
        Option::None
    }
}

/// Parses exactly one frame from the front of `b`.
pub open spec fn spec_parse(b: Seq<u8>) -> Parsed<FrameSpec>
    decreases b.len(), 0int,
{
    if b.len() == 0 {
        Parsed::Incomplete
    } else {
        let tag = b[0];
        if tag == 43 || tag == 45 || tag == 58 || tag == 35 || tag == 95 || tag == 44 {
            match find_crlf_from(b, 1) {
                Option::None => Parsed::Incomplete,
                Option::Some(i) => if !(1 <= i && i + 2 <= b.len()) {
                    Parsed::Malformed
                } else {
                    let line = b.subrange(1, i);
                    let c = i + 2;
                    if tag == 43 {
                        if line_ok(line) {
                            Parsed::Done(FrameSpec::SimpleString(line), c)
                        } else {
                            Parsed::Malformed
                        }
                    } else if tag == 45 {
                        if line_ok(line) {
                            Parsed::Done(FrameSpec::Error(line), c)
                        } else {
                            Parsed::Malformed
                        }
                    } else if tag == 58 {
                        match int_value(line) {
                            Option::Some(v) => Parsed::Done(FrameSpec::Integer(v as i64), c),
                            Option::None => Parsed::Malformed,
                        }
                    } else if tag == 35 {
                        if line == seq![116u8] {
                            Parsed::Done(FrameSpec::Boolean(true), c)
                        } else if line == seq![102u8] {
                            Parsed::Done(FrameSpec::Boolean(false), c)
                        } else {
                            Parsed::Malformed
                        }
                    } else if tag == 95 {
                        if line.len() == 0 {
                            Parsed::Done(FrameSpec::Null, c)
                        } else {
                            Parsed::Malformed
                        }
                    } else {
                        if double_text_ok(line) {
                            Parsed::Done(FrameSpec::Double(line), c)
                        } else {
                            Parsed::Malformed
                        }
                    }
                },
            }
        } else if tag == 33 || tag == 36 {
            match find_crlf_from(b, 1) {
                Option::None => Parsed::Incomplete,
                Option::Some(i) => if !(1 <= i && i + 2 <= b.len()) {
                    Parsed::Malformed
                } else {
                    let line = b.subrange(1, i);
                    let hdr = i + 2;
                    if tag == 36 && line == seq![45u8, 49u8] {
                        Parsed::Done(FrameSpec::NullBulkString, hdr)
                    } else {
                        match len_value(line) {
                            Option::None => Parsed::Malformed,
                            Option::Some(n) => if hdr + n + 1 <= b.len() && b[hdr + n] != CR {
                                Parsed::Malformed
                            } else if b.len() < hdr + n + 2 {
                                Parsed::Incomplete
                            } else if b[hdr + n + 1] == LF {
                                if tag == 33 {
                                    Parsed::Done(
                                        FrameSpec::BulkError(b.subrange(hdr, hdr + n)),
                                        hdr + n + 2,
                                    )
                                } else {
                                    Parsed::Done(
                                        FrameSpec::BulkString(b.subrange(hdr, hdr + n)),
                                        hdr + n + 2,
                                    )
                                }
                            } else {
                                Parsed::Malformed
                            },
                        }
                    }
                },
            }
        } else if tag == 42 || tag == 126 || tag == 37 {
            match find_crlf_from(b, 1) {
                Option::None => Parsed::Incomplete,
                Option::Some(i) => if !(1 <= i && i + 2 <= b.len()) {
                    Parsed::Malformed
                } else {
                    let line = b.subrange(1, i);
                    let hdr = i + 2;
                    if tag == 42 && line == seq![45u8, 49u8] {
                        Parsed::Done(FrameSpec::NullArray, hdr)
                    } else {
                        match len_value(line) {
                            Option::None => Parsed::Malformed,
                            Option::Some(n) => if tag == 37 {
                                match spec_parse_pairs(
                                    b.subrange(hdr, b.len() as int),
                                    n,
                                    Seq::empty(),
                                ) {
                                    Parsed::Done(es, c) => Parsed::Done(
                                        FrameSpec::MapFrame(es),
                                        hdr + c,
                                    ),
                                    Parsed::Incomplete => Parsed::Incomplete,
                                    Parsed::Malformed => Parsed::Malformed,
                                }
                            } else {
                                match spec_parse_items(b.subrange(hdr, b.len() as int), n) {
                                    Parsed::Done(fs, c) => if tag == 42 {
                                        Parsed::Done(FrameSpec::Array(fs), hdr + c)
                                    } else {
                                        Parsed::Done(FrameSpec::SetFrame(fs), hdr + c)
                                    },
                                    Parsed::Incomplete => Parsed::Incomplete,
                                    Parsed::Malformed => Parsed::Malformed,
                                }
                            },
                        }
                    }
                },
            }
        } else {
            Parsed::Malformed
        }
    }
}

/// Parses exactly `n` frames from the front of `b`, in sequence.
pub open spec fn spec_parse_items(b: Seq<u8>, n: int) -> Parsed<Seq<FrameSpec>>
    decreases b.len(), n,
{
    if n <= 0 {
        Parsed::Done(Seq::empty(), 0)
    } else {
        match spec_parse(b) {
            Parsed::Incomplete => Parsed::Incomplete,
            Parsed::Malformed => Parsed::Malformed,
            Parsed::Done(f, c) => if !(0 <= c <= b.len()) {
                Parsed::Malformed
            } else {
                match spec_parse_items(b.subrange(c, b.len() as int), n - 1) {
                    Parsed::Done(fs, c2) => Parsed::Done(seq![f] + fs, c + c2),
                    Parsed::Incomplete => Parsed::Incomplete,
                    Parsed::Malformed => Parsed::Malformed,
                }
            },
        }
    }
}

/// Parses exactly `n` key/value pairs from the front of `b`: each key a
/// simple string not yet present, collected into `acc` in canonical order.
pub open spec fn spec_parse_pairs(b: Seq<u8>, n: int, acc: Seq<(Seq<u8>, FrameSpec)>) -> Parsed<
    Seq<(Seq<u8>, FrameSpec)>,
>
    decreases b.len(), n,
{
    if n <= 0 {
        Parsed::Done(acc, 0)
    } else {
        match spec_parse(b) {
            Parsed::Incomplete => Parsed::Incomplete,
            Parsed::Malformed => Parsed::Malformed,
            Parsed::Done(kf, c1) => if !(0 <= c1 <= b.len()) {
                Parsed::Malformed
            } else {
                match kf {
                    FrameSpec::SimpleString(k) => if entries_has(acc, k) {
                        Parsed::Malformed
                    } else {
                        match spec_parse(b.subrange(c1, b.len() as int)) {
                            Parsed::Incomplete => Parsed::Incomplete,
                            Parsed::Malformed => Parsed::Malformed,
                            Parsed::Done(vf, c2) => if !(0 <= c2 <= b.len() - c1) {
                                Parsed::Malformed
                            } else {
                                match spec_parse_pairs(
                                    b.subrange(c1 + c2, b.len() as int),
                                    n - 1,
                                    entries_put(acc, k, vf),
                                ) {
                                    Parsed::Done(es, c3) => Parsed::Done(es, c1 + c2 + c3),
                                    Parsed::Incomplete => Parsed::Incomplete,
                                    Parsed::Malformed => Parsed::Malformed,
                                }
                            },
                        }
                    },
                    _ => Parsed::Malformed,
                }
            },
        }
    }
}

/// What the executable decoder must return for the buffer `b`: the same
/// three-way outcome as the spec-level parser, with the decoded frame's view
/// and the exact byte count on success.
pub open spec fn decode_outcome(b: Seq<u8>, r: Result<(RespFrame, usize), DecodeError>) -> bool {
    match r {
        Result::Ok((f, c)) => spec_parse(b) == Parsed::Done(f@, c as int),
        Result::Err(DecodeError::Incomplete) => spec_parse(b) is Incomplete,
        Result::Err(DecodeError::Malformed(_)) => spec_parse(b) is Malformed,
    }
}

/// Parses the integer a line denotes, mirroring `int_value`.
fn parse_int(buf: &[u8], lo: usize, hi: usize) -> (r: Option<i64>)
    requires
        lo <= hi <= buf@.len(),
    ensures
        match r {
            Option::Some(v) => int_value(buf@.subrange(lo as int, hi as int)) == Option::Some(
                v as int,
            ),
            Option::None => int_value(buf@.subrange(lo as int, hi as int)) is None,
        },
{
    let ghost line = buf@.subrange(lo as int, hi as int);
    if lo == hi {
        return None;
    }
    let neg = buf[lo] == 45;
    let dlo: usize = if buf[lo] == 45 || buf[lo] == 43 {
        lo + 1
    } else {
        lo
    };
    let ghost ds = buf@.subrange(dlo as int, hi as int);
    proof {
        if dlo > lo {
            assert(ds =~= line.subrange(1, line.len() as int));
        } else {
            assert(ds =~= line);
        }
    }
    if dlo == hi {
        return None;
    }
    let e = scan_digits(buf, dlo);
    proof {
        lemma_first_non_digit(buf@, dlo as int);
    }
    if e < hi {
        proof {
            assert(!crate::grammar::is_digit(buf@[e as int]));
            assert(ds[e - dlo] == buf@[e as int]);
            assert(!all_digits(ds));
        }
        return None;
    }
    proof {
        assert forall|j: int| 0 <= j < ds.len() implies crate::grammar::is_digit(
            #[trigger] ds[j],
        ) by {
            assert(ds[j] == buf@[dlo + j]);
        }
    }
    let cap: u64 = if neg {
        0x8000000000000000
    } else {
        0x7fffffffffffffff
    };
    match digits_value_capped(buf, dlo, hi, cap) {
        Option::None => {
            proof {
                crate::grammar::lemma_digits_val_nonneg(ds);
            }
            None
        },
        Option::Some(v) => {
            if neg {
                if v == 0x8000000000000000 {
                    Some(i64::MIN)
                } else {
                    Some(-(v as i64))
                }
            } else {
                Some(v as i64)
            }
        },
    }
}

/// Parses the length or count a header line denotes, mirroring `len_value`.
fn parse_len(buf: &[u8], lo: usize, hi: usize) -> (r: Option<usize>)
    requires
        lo <= hi <= buf@.len(),
    ensures
        match r {
            Option::Some(n) => len_value(buf@.subrange(lo as int, hi as int)) == Option::Some(
                n as int,
            ) && n <= MAX_SIZE,
            Option::None => len_value(buf@.subrange(lo as int, hi as int)) is None,
        },
{
    let ghost line = buf@.subrange(lo as int, hi as int);
    if lo == hi {
        return None;
    }
    let e = scan_digits(buf, lo);
    proof {
        lemma_first_non_digit(buf@, lo as int);
    }
    if e < hi {
        proof {
            assert(!crate::grammar::is_digit(buf@[e as int]));
            assert(line[e - lo] == buf@[e as int]);
            assert(!all_digits(line));
        }
        return None;
    }
    proof {
        assert forall|j: int| 0 <= j < line.len() implies crate::grammar::is_digit(
            #[trigger] line[j],
        ) by {
            assert(line[j] == buf@[lo + j]);
        }
    }
    if buf[lo] == 48 && hi - lo > 1 {
        return None;
    }
    match digits_value_capped(buf, lo, hi, MAX_SIZE as u64) {
        Option::None => None,
        Option::Some(v) => {
            assert(v <= MAX_SIZE);
            Some(v as usize)
        },
    }
}

/// Decodes exactly one frame from the front of `buf`, returning it with the
/// count of bytes consumed; consumes nothing on `Incomplete` or `Malformed`.
pub fn decode(buf: &[u8]) -> (r: Result<(RespFrame, usize), DecodeError>)
    ensures
        decode_outcome(buf@, r),
        r matches Ok((f, c)) ==> c <= buf@.len() && frame_wf(f@),
    decreases buf@.len(), 0int,
{
    proof {
        crate::laws::lemma_parse_wf(buf@);
    }
    if buf.len() == 0 {
        return Err(DecodeError::Incomplete);
    }
    let tag = buf[0];
    if tag == 43 || tag == 45 || tag == 58 || tag == 35 || tag == 95 || tag == 44 {
        let i = match find_crlf(buf, 1) {
            Option::None => {
                return Err(DecodeError::Incomplete);
            },
            Option::Some(i) => i,
        };
        proof {
            lemma_find_crlf_from(buf@, 1);
        }
        let line = slice_subrange(buf, 1, i);
        let ghost lv = buf@.subrange(1, i as int);
        let c = i + 2;
        if tag == 43 || tag == 45 {
            if !crate::encode::check_line(line) {
                return Err(DecodeError::Malformed("line payload holds CR or LF".to_owned()));
            }
            let data = slice_to_vec(line);
            if tag == 43 {
                return Ok((RespFrame::SimpleString(SimpleString { data }), c));
            } else {
                return Ok((RespFrame::Error(SimpleError { data }), c));
            }
        } else if tag == 58 {
            match parse_int(buf, 1, i) {
                Option::Some(v) => {
                    return Ok((RespFrame::Integer(v), c));
                },
                Option::None => {
                    return Err(DecodeError::Malformed("integer text violates the grammar".to_owned()));
                },
            }
        } else if tag == 35 {
            if i == 2 && buf[1] == 116 {
                assert(lv =~= seq![116u8]);
                return Ok((RespFrame::Boolean(true), c));
            } else if i == 2 && buf[1] == 102 {
                assert(lv =~= seq![102u8]);
                return Ok((RespFrame::Boolean(false), c));
            } else {
                proof {
                    if lv == seq![116u8] {
                        assert(lv.len() == 1 && lv[0] == 116);
                        assert(buf@[1] == 116);
                    }
                    if lv == seq![102u8] {
                        assert(lv.len() == 1 && lv[0] == 102);
                        assert(buf@[1] == 102);
                    }
                }
                return Err(DecodeError::Malformed("boolean is neither t nor f".to_owned()));
            }
        } else if tag == 95 {
            if i == 1 {
                return Ok((RespFrame::Null(RespNull), c));
            } else {
                return Err(DecodeError::Malformed("null carries a payload".to_owned()));
            }
        } else {
            if double_text_check(line) {
                let data = slice_to_vec(line);
                return Ok((RespFrame::Double(RespDouble { data }), c));
            } else {
                return Err(DecodeError::Malformed("double text violates the grammar".to_owned()));
            }
        }
    } else if tag == 33 || tag == 36 {
        let i = match find_crlf(buf, 1) {
            Option::None => {
                return Err(DecodeError::Incomplete);
            },
            Option::Some(i) => i,
        };
        proof {
            lemma_find_crlf_from(buf@, 1);
        }
        let ghost lv = buf@.subrange(1, i as int);
        let hdr = i + 2;
        if tag == 36 && i == 3 && buf[1] == 45 && buf[2] == 49 {
            assert(lv =~= seq![45u8, 49u8]);
            return Ok((RespFrame::NullBulkString(RespNullBulkString), hdr));
        }
        proof {
            if lv == seq![45u8, 49u8] {
                assert(lv.len() == 2 && lv[0] == 45 && lv[1] == 49);
                assert(buf@[1] == 45 && buf@[2] == 49);
            }
        }
        let n = match parse_len(buf, 1, i) {
            Option::Some(n) => n,
            Option::None => {
                return Err(DecodeError::Malformed("bad length header".to_owned()));
            },
        };
        if buf.len() - hdr >= n + 1 && buf[hdr + n] != CR {
            return Err(DecodeError::Malformed("payload not closed by CR".to_owned()));
        }
        if buf.len() - hdr < n + 2 {
            return Err(DecodeError::Incomplete);
        }
        if buf[hdr + n + 1] == LF {
            let data = slice_to_vec(slice_subrange(buf, hdr, hdr + n));
            if tag == 33 {
                return Ok((RespFrame::BulkError(BulkError { data }), hdr + n + 2));
            } else {
                return Ok((RespFrame::BulkString(BulkString { data }), hdr + n + 2));
            }
        } else {
            return Err(DecodeError::Malformed("payload not closed by CRLF".to_owned()));
        }
    } else if tag == 42 || tag == 126 || tag == 37 {
        let i = match find_crlf(buf, 1) {
            Option::None => {
                return Err(DecodeError::Incomplete);
            },
            Option::Some(i) => i,
        };
        proof {
            lemma_find_crlf_from(buf@, 1);
        }
        let ghost lv = buf@.subrange(1, i as int);
        let hdr = i + 2;
        if tag == 42 && i == 3 && buf[1] == 45 && buf[2] == 49 {
            assert(lv =~= seq![45u8, 49u8]);
            return Ok((RespFrame::NullArray(RespNullArray), hdr));
        }
        proof {
            if lv == seq![45u8, 49u8] {
                assert(lv.len() == 2 && lv[0] == 45 && lv[1] == 49);
                assert(buf@[1] == 45 && buf@[2] == 49);
            }
        }
        let n = match parse_len(buf, 1, i) {
            Option::Some(n) => n,
            Option::None => {
                return Err(DecodeError::Malformed("bad count header".to_owned()));
            },
        };
        let body = slice_subrange(buf, hdr, buf.len());
        if tag == 37 {
            match decode_pairs(body, n, RespMap::new()) {
                Result::Ok((m, c)) => {
                    return Ok((RespFrame::MapFrame(m), hdr + c));
                },
                Result::Err(e) => {
                    return Err(e);
                },
            }
        } else {
            match decode_items(body, n) {
                Result::Ok((v, c)) => {
                    if tag == 42 {
                        return Ok((RespFrame::Array(RespArray { data: v }), hdr + c));
                    } else {
                        return Ok((RespFrame::SetFrame(RespSet { data: v }), hdr + c));
                    }
                },
                Result::Err(e) => {
                    return Err(e);
                },
            }
        }
    } else {
        return Err(DecodeError::Malformed("unknown type tag".to_owned()));
    }
}

/// Decodes exactly `n` frames from the front of `buf`, in sequence.
fn decode_items(buf: &[u8], n: usize) -> (r: Result<(Vec<RespFrame>, usize), DecodeError>)
    ensures
        match r {
            Result::Ok((v, c)) => spec_parse_items(buf@, n as int) == Parsed::Done(
                frames_view(v@),
                c as int,
            ) && c <= buf@.len(),
            Result::Err(DecodeError::Incomplete) => spec_parse_items(buf@, n as int)
                is Incomplete,
            Result::Err(DecodeError::Malformed(_)) => spec_parse_items(buf@, n as int)
                is Malformed,
        },
    decreases buf@.len(), n,
{
    if n == 0 {
        let v: Vec<RespFrame> = Vec::new();
        assert(frames_view(v@) =~= Seq::<FrameSpec>::empty());
        return Ok((v, 0));
    }
    match decode(buf) {
        Result::Err(e) => Err(e),
        Result::Ok((f, c)) => {
            let rest = slice_subrange(buf, c, buf.len());
            match decode_items(rest, n - 1) {
                Result::Err(e) => Err(e),
                Result::Ok((mut v, c2)) => {
                    let ghost tail = v@;
                    let ghost tail_views = frames_view(tail);
                    v.insert(0, f);
                    proof {
                        assert(v@.subrange(1, v@.len() as int) =~= tail);
                        assert(frames_view(v@) =~= seq![f@] + tail_views);
                    }
                    Ok((v, c + c2))
                },
            }
        },
    }
}

/// Decodes exactly `n` key/value pairs from the front of `buf` into `m`,
/// rejecting duplicate and non-text keys.
fn decode_pairs(buf: &[u8], n: usize, m: RespMap) -> (r: Result<(RespMap, usize), DecodeError>)
    ensures
        match r {
            Result::Ok((m2, c)) => spec_parse_pairs(buf@, n as int, m@) == Parsed::Done(
                m2@,
                c as int,
            ) && c <= buf@.len(),
            Result::Err(DecodeError::Incomplete) => spec_parse_pairs(buf@, n as int, m@)
                is Incomplete,
            Result::Err(DecodeError::Malformed(_)) => spec_parse_pairs(buf@, n as int, m@)
                is Malformed,
        },
    decreases buf@.len(), n,
{
    if n == 0 {
        return Ok((m, 0));
    }
    match decode(buf) {
        Result::Err(e) => Err(e),
        Result::Ok((kf, c1)) => {
            let key: Vec<u8> = match kf {
                RespFrame::SimpleString(ss) => ss.data,
                _ => {
                    return Err(DecodeError::Malformed("map key is not a simple string".to_owned()));
                },
            };
            if m.has_key(key.as_slice()) {
                return Err(DecodeError::Malformed("duplicate map key".to_owned()));
            }
            let rest = slice_subrange(buf, c1, buf.len());
            match decode(rest) {
                Result::Err(e) => Err(e),
                Result::Ok((vf, c2)) => {
                    let mut m2 = m;
                    m2.insert(key, vf);
                    let rest2 = slice_subrange(buf, c1 + c2, buf.len());
                    proof {
                        assert(rest2@ =~= rest@.subrange(c2 as int, rest@.len() as int));
                        assert(rest2@ =~= buf@.subrange(c1 + c2, buf@.len() as int));
                    }
                    match decode_pairs(rest2, n - 1, m2) {
                        Result::Err(e) => Err(e),
                        Result::Ok((m3, c3)) => Ok((m3, c1 + c2 + c3)),
                    }
                },
            }
        },
    }
}

/// Decoding: one frame is read from the front of a byte buffer, all or
/// nothing, exactly as the spec-level parser says.
pub trait RespDecode {
    /// Decodes exactly one frame and the count of bytes consumed, or reports
    /// `Incomplete` (retry with more bytes) or `Malformed` (protocol broken).
    fn decode(data: &[u8]) -> (r: Result<(RespFrame, usize), DecodeError>)
        ensures
            decode_outcome(data@, r),
            r matches Ok((f, c)) ==> c <= data@.len() && frame_wf(f@),
    ;
}

impl RespDecode for RespFrame {
    fn decode(data: &[u8]) -> (r: Result<(RespFrame, usize), DecodeError>) {
        decode(data)
    }
}

} // verus!
