//! The encoder: a total, deterministic mapping from well-formed frames to
//! their canonical wire bytes, stated by `encode_spec` and implemented by
//! `RespEncode::encode`. A value that violates a variant's constraints is
//! rejected with an `EncodeError`, never silently corrected.

use vstd::prelude::*;

use crate::error::EncodeError;
use crate::frame::{
    entries_sorted, entries_wf, frame_wf, frames_view, frames_wf, lemma_adjacent_sorted,
    lemma_entries_wf_iff, lemma_frames_view_index, lemma_frames_wf_iff, lemma_pairs_view_index,
    pairs_view, BulkError, BulkString, FrameSpec, RespArray, RespDouble, RespFrame, RespMap,
    RespNull, RespNullArray, RespNullBulkString, RespSet, SimpleError, SimpleString,
};
use crate::grammar::{dec_of, double_text_check, line_ok, CR, LF, MAX_SIZE};

verus! {

broadcast use vstd::seq::group_seq_axioms, vstd::std_specs::vec::group_vec_axioms;

/// The line terminator.
pub open spec fn crlf() -> Seq<u8> {
    seq![CR, LF]
}

/// The decimal text of an integer, with a leading minus sign when negative.
pub open spec fn dec_int(v: int) -> Seq<u8> {
    if v >= 0 {
        dec_of(v as nat)
    } else {
        seq![45u8] + dec_of((-v) as nat)
    }
}

/// The canonical wire bytes of a frame.
pub open spec fn encode_spec(f: FrameSpec) -> Seq<u8>
    decreases f, 0int,
{
    match f {
        FrameSpec::SimpleString(s) => seq![43u8] + s + crlf(),
        FrameSpec::Error(s) => seq![45u8] + s + crlf(),
        FrameSpec::BulkError(b) => seq![33u8] + dec_of(b.len()) + crlf() + b + crlf(),
        FrameSpec::Integer(v) => seq![58u8] + dec_int(v as int) + crlf(),
        FrameSpec::BulkString(b) => seq![36u8] + dec_of(b.len()) + crlf() + b + crlf(),
        FrameSpec::NullBulkString => seq![36u8, 45u8, 49u8, CR, LF],
        FrameSpec::Array(items) => seq![42u8] + dec_of(items.len()) + crlf() + encode_items_from(
            items,
            0,
        ),
        FrameSpec::NullArray => seq![42u8, 45u8, 49u8, CR, LF],
        FrameSpec::Null => seq![95u8, CR, LF],
        FrameSpec::Boolean(b) => seq![35u8, (if b { 116u8 } else { 102u8 }), CR, LF],
        FrameSpec::Double(t) => seq![44u8] + t + crlf(),
        FrameSpec::MapFrame(es) => seq![37u8] + dec_of(es.len()) + crlf() + encode_pairs_from(
            es,
            0,
        ),
        FrameSpec::SetFrame(items) => seq![126u8] + dec_of(items.len()) + crlf()
            + encode_items_from(items, 0),
    }
}

/// The concatenated encodings of `items[i..]`.
pub open spec fn encode_items_from(items: Seq<FrameSpec>, i: int) -> Seq<u8>
    decreases items, items.len() - i,
{
    if 0 <= i < items.len() {
        encode_spec(items[i]) + encode_items_from(items, i + 1)
    } else {
        Seq::empty()
    }
}

/// The concatenated encodings of the entries `es[i..]`: each key as a simple
/// string, then the value.
pub open spec fn encode_pairs_from(es: Seq<(Seq<u8>, FrameSpec)>, i: int) -> Seq<u8>
    decreases es, es.len() - i,
{
    if 0 <= i < es.len() {
        seq![43u8] + es[i].0 + crlf() + encode_spec(es[i].1) + encode_pairs_from(es, i + 1)
    } else {
        Seq::empty()
    }
}

/// Checks that text holds no line terminator bytes.
pub fn check_line(data: &[u8]) -> (r: bool)
    ensures
        r == line_ok(data@),
{
    let mut i: usize = 0;
    while i < data.len()
        invariant
            i <= data@.len(),
            forall|j: int| 0 <= j < i ==> data@[j] != CR && data@[j] != LF,
        decreases data@.len() - i,
    {
        if data[i] == CR || data[i] == LF {
            return false;
        }
        i += 1;
    }
    true
}

/// Appends the decimal digits of `n`.
fn push_dec(out: &mut Vec<u8>, n: u64)
    ensures
        final(out)@ == old(out)@ + dec_of(n as nat),
    decreases n,
{
    if n < 10 {
        out.push(48 + n as u8);
        assert(out@ =~= old(out)@ + dec_of(n as nat));
    } else {
        push_dec(out, n / 10);
        out.push(48 + (n % 10) as u8);
        assert(out@ =~= old(out)@ + dec_of(n as nat));
    }
}

/// Appends the decimal text of `v`, with a minus sign when negative.
fn push_int(out: &mut Vec<u8>, v: i64)
    ensures
        final(out)@ == old(out)@ + dec_int(v as int),
{
    if v >= 0 {
        push_dec(out, v as u64);
    } else {
        out.push(45);
        let m: u64 = (-(v as i128)) as u64;
        assert(m as nat == (-(v as int)) as nat);
        push_dec(out, m);
        assert(out@ =~= old(out)@ + dec_int(v as int));
    }
}

/// Appends the line terminator.
fn push_crlf(out: &mut Vec<u8>)
    ensures
        final(out)@ == old(out)@ + crlf(),
{
    out.push(CR);
    out.push(LF);
    assert(out@ =~= old(out)@ + crlf());
}

/// Appends a line-delimited payload: tag, text, terminator.
fn encode_line(tag: u8, data: &Vec<u8>, out: &mut Vec<u8>) -> (r: Result<(), EncodeError>)
    ensures
        r is Ok <==> line_ok(data@),
        r is Ok ==> final(out)@ == old(out)@ + seq![tag] + data@ + crlf(),
{
    if !check_line(data.as_slice()) {
        return Err(EncodeError { reason: "line payload holds CR or LF".to_owned() });
    }
    out.push(tag);
    out.extend_from_slice(data.as_slice());
    push_crlf(out);
    assert(out@ =~= old(out)@ + seq![tag] + data@ + crlf());
    Ok(())
}

/// Appends a length-prefixed payload: tag, decimal length, terminator, raw
/// bytes, terminator.
fn encode_bulk(tag: u8, data: &Vec<u8>, out: &mut Vec<u8>) -> (r: Result<(), EncodeError>)
    ensures
        r is Ok <==> data@.len() <= MAX_SIZE,
        r is Ok ==> final(out)@ == old(out)@ + seq![tag] + dec_of(data@.len()) + crlf() + data@
            + crlf(),
{
    if data.len() > MAX_SIZE {
        return Err(EncodeError { reason: "bulk payload too long".to_owned() });
    }
    out.push(tag);
    push_dec(out, data.len() as u64);
    push_crlf(out);
    out.extend_from_slice(data.as_slice());
    push_crlf(out);
    assert(out@ =~= old(out)@ + seq![tag] + dec_of(data@.len()) + crlf() + data@ + crlf());
    Ok(())
}

/// Appends the encodings of `items` after a tagged count header.
fn encode_frames(tag: u8, items: &Vec<RespFrame>, out: &mut Vec<u8>) -> (r: Result<
    (),
    EncodeError,
>)
    ensures
        r is Ok <==> (items@.len() <= MAX_SIZE && frames_wf(frames_view(items@))),
        r is Ok ==> final(out)@ == old(out)@ + seq![tag] + dec_of(items@.len()) + crlf()
            + encode_items_from(frames_view(items@), 0),
    decreases items@, 2int,
{
    let ghost views = frames_view(items@);
    proof {
        crate::frame::lemma_frames_view_len(items@);
        lemma_frames_wf_iff(views);
    }
    if items.len() > MAX_SIZE {
        return Err(EncodeError { reason: "too many elements".to_owned() });
    }
    out.push(tag);
    push_dec(out, items.len() as u64);
    push_crlf(out);
    let ghost start = out@;
    let mut i: usize = 0;
    while i < items.len()
        invariant
            i <= items@.len(),
            views == frames_view(items@),
            views.len() == items@.len(),
            forall|j: int| 0 <= j < i ==> frame_wf(#[trigger] views[j]),
            out@ + encode_items_from(views, i as int) == start + encode_items_from(views, 0),
        decreases items@.len() - i,
    {
        proof {
            lemma_frames_view_index(items@, i as int);
        }
        let ghost before = out@;
        match encode_frame(&items[i], out) {
            Ok(()) => {},
            Err(e) => {
                proof {
                    lemma_frames_wf_iff(views);
                }
                return Err(e);
            },
        }
        proof {
            assert(encode_items_from(views, i as int) == encode_spec(views[i as int])
                + encode_items_from(views, i + 1));
            assert(out@ + encode_items_from(views, i + 1) =~= before + encode_items_from(
                views,
                i as int,
            ));
        }
        i += 1;
    }
    proof {
        assert(encode_items_from(views, items@.len() as int) =~= Seq::<u8>::empty());
        assert(out@ + Seq::<u8>::empty() =~= out@);
        assert(out@ =~= old(out)@ + seq![tag] + dec_of(items@.len()) + crlf()
            + encode_items_from(views, 0));
    }
    Ok(())
}

/// Appends the encodings of map entries after the count header, checking the
/// key text and the strictly ascending canonical key order.
fn encode_entries(entries: &Vec<(Vec<u8>, RespFrame)>, out: &mut Vec<u8>) -> (r: Result<
    (),
    EncodeError,
>)
    ensures
        r is Ok <==> (entries@.len() <= MAX_SIZE && entries_sorted(pairs_view(entries@))
            && entries_wf(pairs_view(entries@))),
        r is Ok ==> final(out)@ == old(out)@ + seq![37u8] + dec_of(entries@.len()) + crlf()
            + encode_pairs_from(pairs_view(entries@), 0),
    decreases entries@, 2int,
{
    let ghost es = pairs_view(entries@);
    proof {
        crate::frame::lemma_pairs_view_len(entries@);
        lemma_entries_wf_iff(es);
    }
    if entries.len() > MAX_SIZE {
        return Err(EncodeError { reason: "too many entries".to_owned() });
    }
    out.push(37);
    push_dec(out, entries.len() as u64);
    push_crlf(out);
    let ghost start = out@;
    let mut i: usize = 0;
    while i < entries.len()
        invariant
            i <= entries@.len(),
            es == pairs_view(entries@),
            es.len() == entries@.len(),
            forall|j: int| 0 <= j < i ==> line_ok((#[trigger] es[j]).0) && frame_wf(es[j].1),
            forall|j: int| 0 <= j && j + 1 < i ==> crate::bytes::lex_lt(
                (#[trigger] es[j]).0,
                es[j + 1].0,
            ),
            out@ + encode_pairs_from(es, i as int) == start + encode_pairs_from(es, 0),
        decreases entries@.len() - i,
    {
        proof {
            lemma_pairs_view_index(entries@, i as int);
            if i > 0 {
                lemma_pairs_view_index(entries@, i - 1);
            }
        }
        if i > 0 {
            match crate::bytes::bytes_cmp(entries[i - 1].0.as_slice(), entries[i].0.as_slice()) {
                crate::bytes::ByteOrder::Less => {},
                _ => {
                    assert(!entries_sorted(es));
                    return Err(EncodeError { reason: "map keys out of order".to_owned() });
                },
            }
        }
        let ghost before = out@;
        match encode_line(43, &entries[i].0, out) {
            Ok(()) => {},
            Err(e) => {
                proof {
                    lemma_entries_wf_iff(es);
                }
                return Err(e);
            },
        }
        match encode_frame(&entries[i].1, out) {
            Ok(()) => {},
            Err(e) => {
                proof {
                    lemma_entries_wf_iff(es);
                }
                return Err(e);
            },
        }
        proof {
            assert(encode_pairs_from(es, i as int) == seq![43u8] + es[i as int].0 + crlf()
                + encode_spec(es[i as int].1) + encode_pairs_from(es, i + 1));
            assert(out@ + encode_pairs_from(es, i + 1) =~= before + encode_pairs_from(
                es,
                i as int,
            ));
        }
        i += 1;
    }
    proof {
        lemma_adjacent_sorted(es);
        assert(encode_pairs_from(es, entries@.len() as int) =~= Seq::<u8>::empty());
        assert(out@ + Seq::<u8>::empty() =~= out@);
        assert(out@ =~= old(out)@ + seq![37u8] + dec_of(entries@.len()) + crlf()
            + encode_pairs_from(es, 0));
    }
    Ok(())
}

/// Appends the canonical encoding of `f`, or reports why `f` is not
/// encodable.
pub fn encode_frame(f: &RespFrame, out: &mut Vec<u8>) -> (r: Result<(), EncodeError>)
    ensures
        r is Ok <==> frame_wf(f@),
        r is Ok ==> final(out)@ == old(out)@ + encode_spec(f@),
    decreases *f, 3int,
{
    match f {
        RespFrame::SimpleString(s) => {
            let r = encode_line(43, &s.data, out);
            assert(f@ == FrameSpec::SimpleString(s.data@));
            assert(r is Ok ==> out@ =~= old(out)@ + encode_spec(f@));
            r
        },
        RespFrame::Error(s) => {
            let r = encode_line(45, &s.data, out);
            assert(f@ == FrameSpec::Error(s.data@));
            assert(r is Ok ==> out@ =~= old(out)@ + encode_spec(f@));
            r
        },
        RespFrame::BulkError(b) => {
            let r = encode_bulk(33, &b.data, out);
            assert(f@ == FrameSpec::BulkError(b.data@));
            assert(r is Ok ==> out@ =~= old(out)@ + encode_spec(f@));
            r
        },
        RespFrame::Integer(v) => {
            out.push(58);
            push_int(out, *v);
            push_crlf(out);
            assert(out@ =~= old(out)@ + encode_spec(f@));
            Ok(())
        },
        RespFrame::BulkString(b) => {
            let r = encode_bulk(36, &b.data, out);
            assert(f@ == FrameSpec::BulkString(b.data@));
            assert(r is Ok ==> out@ =~= old(out)@ + encode_spec(f@));
            r
        },
        RespFrame::NullBulkString(_) => {
            out.push(36);
            out.push(45);
            out.push(49);
            push_crlf(out);
            assert(out@ =~= old(out)@ + encode_spec(f@));
            Ok(())
        },
        RespFrame::Array(a) => {
            proof {
                crate::frame::lemma_frames_view_len(a.data@);
            }
            let r = encode_frames(42, &a.data, out);
            assert(f@ == FrameSpec::Array(frames_view(a.data@)));
            assert(r is Ok ==> out@ =~= old(out)@ + encode_spec(f@));
            r
        },
        RespFrame::NullArray(_) => {
            out.push(42);
            out.push(45);
            out.push(49);
            push_crlf(out);
            assert(out@ =~= old(out)@ + encode_spec(f@));
            Ok(())
        },
        RespFrame::Null(_) => {
            out.push(95);
            push_crlf(out);
            assert(out@ =~= old(out)@ + encode_spec(f@));
            Ok(())
        },
        RespFrame::Boolean(b) => {
            out.push(35);
            if *b {
                out.push(116);
            } else {
                out.push(102);
            }
            push_crlf(out);
            assert(out@ =~= old(out)@ + encode_spec(f@));
            Ok(())
        },
        RespFrame::Double(d) => {
            if !double_text_check(d.data.as_slice()) {
                return Err(EncodeError { reason: "double text violates the grammar".to_owned() });
            }
            out.push(44);
            out.extend_from_slice(d.data.as_slice());
            push_crlf(out);
            assert(out@ =~= old(out)@ + encode_spec(f@));
            Ok(())
        },
        RespFrame::MapFrame(m) => {
            proof {
                crate::frame::lemma_pairs_view_len(m.entries@);
            }
            let r = encode_entries(&m.entries, out);
            assert(f@ == FrameSpec::MapFrame(pairs_view(m.entries@)));
            assert(r is Ok ==> out@ =~= old(out)@ + encode_spec(f@));
            r
        },
        RespFrame::SetFrame(s) => {
            proof {
                crate::frame::lemma_frames_view_len(s.data@);
            }
            let r = encode_frames(126, &s.data, out);
            assert(f@ == FrameSpec::SetFrame(frames_view(s.data@)));
            assert(r is Ok ==> out@ =~= old(out)@ + encode_spec(f@));
            r
        },
    }
}

/// Encoding: every value that stands for a frame turns into that frame's
/// canonical wire bytes, and a value violating the frame constraints is
/// reported instead.
pub trait RespEncode {
    /// The frame this value stands for.
    spec fn frame_spec(&self) -> FrameSpec;

    /// The canonical wire bytes of this value's frame, or an `EncodeError`
    /// exactly when the value violates the frame's constraints.
    fn encode(&self) -> (r: Result<Vec<u8>, EncodeError>)
        ensures
            r is Ok <==> frame_wf(self.frame_spec()),
            r matches Ok(bytes) ==> bytes@ == encode_spec(self.frame_spec()),
    ;
}

impl RespEncode for RespFrame {
    open spec fn frame_spec(&self) -> FrameSpec {
        self@
    }

    fn encode(&self) -> (r: Result<Vec<u8>, EncodeError>) {
        let mut out: Vec<u8> = Vec::new();
        match encode_frame(self, &mut out) {
            Ok(()) => {
                assert(out@ =~= encode_spec(self@));
                Ok(out)
            },
            Err(e) => Err(e),
        }
    }
}

impl RespEncode for SimpleString {
    open spec fn frame_spec(&self) -> FrameSpec {
        FrameSpec::SimpleString(self.data@)
    }

    fn encode(&self) -> (r: Result<Vec<u8>, EncodeError>) {
        let mut out: Vec<u8> = Vec::new();
        match encode_line(43, &self.data, &mut out) {
            Ok(()) => {
                assert(out@ =~= encode_spec(self.frame_spec()));
                Ok(out)
            },
            Err(e) => Err(e),
        }
    }
}

impl RespEncode for SimpleError {
    open spec fn frame_spec(&self) -> FrameSpec {
        FrameSpec::Error(self.data@)
    }

    fn encode(&self) -> (r: Result<Vec<u8>, EncodeError>) {
        let mut out: Vec<u8> = Vec::new();
        match encode_line(45, &self.data, &mut out) {
            Ok(()) => {
                assert(out@ =~= encode_spec(self.frame_spec()));
                Ok(out)
            },
            Err(e) => Err(e),
        }
    }
}

impl RespEncode for BulkError {
    open spec fn frame_spec(&self) -> FrameSpec {
        FrameSpec::BulkError(self.data@)
    }

    fn encode(&self) -> (r: Result<Vec<u8>, EncodeError>) {
        let mut out: Vec<u8> = Vec::new();
        match encode_bulk(33, &self.data, &mut out) {
            Ok(()) => {
                assert(out@ =~= encode_spec(self.frame_spec()));
                Ok(out)
            },
            Err(e) => Err(e),
        }
    }
}

impl RespEncode for BulkString {
    open spec fn frame_spec(&self) -> FrameSpec {
        FrameSpec::BulkString(self.data@)
    }

    fn encode(&self) -> (r: Result<Vec<u8>, EncodeError>) {
        let mut out: Vec<u8> = Vec::new();
        match encode_bulk(36, &self.data, &mut out) {
            Ok(()) => {
                assert(out@ =~= encode_spec(self.frame_spec()));
                Ok(out)
            },
            Err(e) => Err(e),
        }
    }
}

impl RespEncode for RespNullBulkString {
    open spec fn frame_spec(&self) -> FrameSpec {
        FrameSpec::NullBulkString
    }

    fn encode(&self) -> (r: Result<Vec<u8>, EncodeError>) {
        let mut out: Vec<u8> = Vec::new();
        out.push(36);
        out.push(45);
        out.push(49);
        push_crlf(&mut out);
        assert(out@ =~= encode_spec(self.frame_spec()));
        Ok(out)
    }
}

impl RespEncode for RespNullArray {
    open spec fn frame_spec(&self) -> FrameSpec {
        FrameSpec::NullArray
    }

    fn encode(&self) -> (r: Result<Vec<u8>, EncodeError>) {
        let mut out: Vec<u8> = Vec::new();
        out.push(42);
        out.push(45);
        out.push(49);
        push_crlf(&mut out);
        assert(out@ =~= encode_spec(self.frame_spec()));
        Ok(out)
    }
}

impl RespEncode for RespNull {
    open spec fn frame_spec(&self) -> FrameSpec {
        FrameSpec::Null
    }

    fn encode(&self) -> (r: Result<Vec<u8>, EncodeError>) {
        let mut out: Vec<u8> = Vec::new();
        out.push(95);
        push_crlf(&mut out);
        assert(out@ =~= encode_spec(self.frame_spec()));
        Ok(out)
    }
}

impl RespEncode for RespDouble {
    open spec fn frame_spec(&self) -> FrameSpec {
        FrameSpec::Double(self.data@)
    }

    fn encode(&self) -> (r: Result<Vec<u8>, EncodeError>) {
        if !double_text_check(self.data.as_slice()) {
            return Err(EncodeError { reason: "double text violates the grammar".to_owned() });
        }
        let mut out: Vec<u8> = Vec::new();
        out.push(44);
        out.extend_from_slice(self.data.as_slice());
        push_crlf(&mut out);
        assert(out@ =~= encode_spec(self.frame_spec()));
        Ok(out)
    }
}

impl RespEncode for RespArray {
    open spec fn frame_spec(&self) -> FrameSpec {
        FrameSpec::Array(frames_view(self.data@))
    }

    fn encode(&self) -> (r: Result<Vec<u8>, EncodeError>) {
        let mut out: Vec<u8> = Vec::new();
        proof {
            crate::frame::lemma_frames_view_len(self.data@);
        }
        match encode_frames(42, &self.data, &mut out) {
            Ok(()) => {
                assert(out@ =~= encode_spec(self.frame_spec()));
                Ok(out)
            },
            Err(e) => Err(e),
        }
    }
}

impl RespEncode for RespSet {
    open spec fn frame_spec(&self) -> FrameSpec {
        FrameSpec::SetFrame(frames_view(self.data@))
    }

    fn encode(&self) -> (r: Result<Vec<u8>, EncodeError>) {
        let mut out: Vec<u8> = Vec::new();
        proof {
            crate::frame::lemma_frames_view_len(self.data@);
        }
        match encode_frames(126, &self.data, &mut out) {
            Ok(()) => {
                assert(out@ =~= encode_spec(self.frame_spec()));
                Ok(out)
            },
            Err(e) => Err(e),
        }
    }
}

impl RespEncode for RespMap {
    open spec fn frame_spec(&self) -> FrameSpec {
        FrameSpec::MapFrame(pairs_view(self.entries@))
    }

    fn encode(&self) -> (r: Result<Vec<u8>, EncodeError>) {
        let mut out: Vec<u8> = Vec::new();
        proof {
            crate::frame::lemma_pairs_view_len(self.entries@);
        }
        match encode_entries(&self.entries, &mut out) {
            Ok(()) => {
                assert(out@ =~= encode_spec(self.frame_spec()));
                Ok(out)
            },
            Err(e) => Err(e),
        }
    }
}

impl RespEncode for i64 {
    open spec fn frame_spec(&self) -> FrameSpec {
        FrameSpec::Integer(*self)
    }

    fn encode(&self) -> (r: Result<Vec<u8>, EncodeError>) {
        let mut out: Vec<u8> = Vec::new();
        out.push(58);
        push_int(&mut out, *self);
        push_crlf(&mut out);
        assert(out@ =~= encode_spec(self.frame_spec()));
        Ok(out)
    }
}

impl RespEncode for bool {
    open spec fn frame_spec(&self) -> FrameSpec {
        FrameSpec::Boolean(*self)
    }

    fn encode(&self) -> (r: Result<Vec<u8>, EncodeError>) {
        let mut out: Vec<u8> = Vec::new();
        out.push(35);
        if *self {
            out.push(116);
        } else {
            out.push(102);
        }
        push_crlf(&mut out);
        assert(out@ =~= encode_spec(self.frame_spec()));
        Ok(out)
    }
}

} // verus!
