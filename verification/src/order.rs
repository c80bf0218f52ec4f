//! The frame model's partial order: values of the same variant compare by
//! their natural ordering (numeric variants numerically, text and binary
//! variants byte-wise, aggregates element-wise with a short circuit at the
//! first difference), and values of different variants are incomparable:
//! the comparison returns nothing rather than inventing an order.

use vstd::prelude::*;

use crate::bytes::{bytes_cmp, lex_lt, ByteOrder};
use crate::frame::{
    frames_view, lemma_frames_view_index, lemma_pairs_view_index, pairs_view, FrameSpec,
    RespFrame,
};

verus! {

broadcast use vstd::seq::group_seq_axioms, vstd::std_specs::vec::group_vec_axioms;

/// The three-way order of two byte strings.
pub open spec fn bytes_order(a: Seq<u8>, b: Seq<u8>) -> ByteOrder {
    if lex_lt(a, b) {
        ByteOrder::Less
    } else if lex_lt(b, a) {
        ByteOrder::Greater
    } else {
        ByteOrder::Equal
    }
}

/// The three-way order of two integers.
pub open spec fn int_order(a: int, b: int) -> ByteOrder {
    if a < b {
        ByteOrder::Less
    } else if a > b {
        ByteOrder::Greater
    } else {
        ByteOrder::Equal
    }
}

/// The partial order on frames: same-variant values compare by their payloads,
/// different variants are incomparable. Doubles compare as equal only when
/// their texts agree byte for byte; ordering their numeric values is
/// floating-point work and stays outside the core.
pub open spec fn frame_cmp_spec(a: FrameSpec, b: FrameSpec) -> Option<ByteOrder>
    decreases a, 0int,
{
    match (a, b) {
        (FrameSpec::SimpleString(x), FrameSpec::SimpleString(y)) => Option::Some(bytes_order(x, y)),
        (FrameSpec::Error(x), FrameSpec::Error(y)) => Option::Some(bytes_order(x, y)),
        (FrameSpec::BulkError(x), FrameSpec::BulkError(y)) => Option::Some(bytes_order(x, y)),
        (FrameSpec::Integer(x), FrameSpec::Integer(y)) => Option::Some(int_order(x as int, y as int)),
        (FrameSpec::BulkString(x), FrameSpec::BulkString(y)) => Option::Some(bytes_order(x, y)),
        (FrameSpec::NullBulkString, FrameSpec::NullBulkString) => Option::Some(ByteOrder::Equal),
        (FrameSpec::Array(x), FrameSpec::Array(y)) => frames_cmp_spec(x, y, 0),
        (FrameSpec::NullArray, FrameSpec::NullArray) => Option::Some(ByteOrder::Equal),
        (FrameSpec::Null, FrameSpec::Null) => Option::Some(ByteOrder::Equal),
        (FrameSpec::Boolean(x), FrameSpec::Boolean(y)) => Option::Some(
            if x == y {
                ByteOrder::Equal
            } else if !x {
                ByteOrder::Less
            } else {
                ByteOrder::Greater
            },
        ),
        (FrameSpec::Double(x), FrameSpec::Double(y)) => if x == y {
            Option::Some(ByteOrder::Equal)
        } else {
            Option::None
        },
        (FrameSpec::MapFrame(x), FrameSpec::MapFrame(y)) => entries_cmp_spec(x, y, 0),
        (FrameSpec::SetFrame(x), FrameSpec::SetFrame(y)) => frames_cmp_spec(x, y, 0),
        _ => Option::None,
    }
}

/// Element-wise comparison of two frame sequences from position `i` on: the
/// first differing element decides, a missing element orders the shorter
/// sequence first, and one incomparable pair makes the whole incomparable.
pub open spec fn frames_cmp_spec(x: Seq<FrameSpec>, y: Seq<FrameSpec>, i: int) -> Option<ByteOrder>
    decreases x, x.len() - i,
{
    if i < 0 {
        Option::None
    } else if i >= x.len() && i >= y.len() {
        Option::Some(ByteOrder::Equal)
    } else if i >= x.len() {
        Option::Some(ByteOrder::Less)
    } else if i >= y.len() {
        Option::Some(ByteOrder::Greater)
    } else {
        match frame_cmp_spec(x[i], y[i]) {
            Option::None => Option::None,
            Option::Some(ByteOrder::Equal) => frames_cmp_spec(x, y, i + 1),
            Option::Some(o) => Option::Some(o),
        }
    }
}

/// Entry-wise comparison of two sorted entry sequences from position `i` on:
/// keys order first, then values.
pub open spec fn entries_cmp_spec(
    x: Seq<(Seq<u8>, FrameSpec)>,
    y: Seq<(Seq<u8>, FrameSpec)>,
    i: int,
) -> Option<ByteOrder>
    decreases x, x.len() - i,
{
    if i < 0 {
        Option::None
    } else if i >= x.len() && i >= y.len() {
        Option::Some(ByteOrder::Equal)
    } else if i >= x.len() {
        Option::Some(ByteOrder::Less)
    } else if i >= y.len() {
        Option::Some(ByteOrder::Greater)
    } else if bytes_order(x[i].0, y[i].0) != ByteOrder::Equal {
        Option::Some(bytes_order(x[i].0, y[i].0))
    } else {
        match frame_cmp_spec(x[i].1, y[i].1) {
            Option::None => Option::None,
            Option::Some(ByteOrder::Equal) => entries_cmp_spec(x, y, i + 1),
            Option::Some(o) => Option::Some(o),
        }
    }
}

fn vec_cmp(x: &Vec<RespFrame>, y: &Vec<RespFrame>) -> (r: Option<ByteOrder>)
    ensures
        r == frames_cmp_spec(frames_view(x@), frames_view(y@), 0),
    decreases x@, 2int,
{
    let ghost xv = frames_view(x@);
    let ghost yv = frames_view(y@);
    proof {
        crate::frame::lemma_frames_view_len(x@);
        crate::frame::lemma_frames_view_len(y@);
    }
    let mut i: usize = 0;
    loop
        invariant
            i <= x@.len(),
            i <= y@.len(),
            xv == frames_view(x@),
            yv == frames_view(y@),
            xv.len() == x@.len(),
            yv.len() == y@.len(),
            frames_cmp_spec(xv, yv, 0) == frames_cmp_spec(xv, yv, i as int),
        decreases x@.len() - i,
    {
        if i == x.len() && i == y.len() {
            return Some(ByteOrder::Equal);
        }
        if i == x.len() {
            return Some(ByteOrder::Less);
        }
        if i == y.len() {
            return Some(ByteOrder::Greater);
        }
        proof {
            lemma_frames_view_index(x@, i as int);
            lemma_frames_view_index(y@, i as int);
        }
        match frame_cmp(&x[i], &y[i]) {
            Option::None => {
                return None;
            },
            Option::Some(ByteOrder::Equal) => {
                i += 1;
            },
            Option::Some(o) => {
                return Some(o);
            },
        }
    }
}

fn entry_vec_cmp(x: &Vec<(Vec<u8>, RespFrame)>, y: &Vec<(Vec<u8>, RespFrame)>) -> (r: Option<
    ByteOrder,
>)
    ensures
        r == entries_cmp_spec(pairs_view(x@), pairs_view(y@), 0),
    decreases x@, 2int,
{
    let ghost xv = pairs_view(x@);
    let ghost yv = pairs_view(y@);
    proof {
        crate::frame::lemma_pairs_view_len(x@);
        crate::frame::lemma_pairs_view_len(y@);
    }
    let mut i: usize = 0;
    loop
        invariant
            i <= x@.len(),
            i <= y@.len(),
            xv == pairs_view(x@),
            yv == pairs_view(y@),
            xv.len() == x@.len(),
            yv.len() == y@.len(),
            entries_cmp_spec(xv, yv, 0) == entries_cmp_spec(xv, yv, i as int),
        decreases x@.len() - i,
    {
        if i == x.len() && i == y.len() {
            return Some(ByteOrder::Equal);
        }
        if i == x.len() {
            return Some(ByteOrder::Less);
        }
        if i == y.len() {
            return Some(ByteOrder::Greater);
        }
        proof {
            lemma_pairs_view_index(x@, i as int);
            lemma_pairs_view_index(y@, i as int);
        }
        match bytes_cmp(x[i].0.as_slice(), y[i].0.as_slice()) {
            ByteOrder::Equal => {},
            o => {
                return Some(o);
            },
        }
        match frame_cmp(&x[i].1, &y[i].1) {
            Option::None => {
                return None;
            },
            Option::Some(ByteOrder::Equal) => {
                i += 1;
            },
            Option::Some(o) => {
                return Some(o);
            },
        }
    }
}

/// Compares two frames under the partial order: `None` for values of
/// different variants, and for doubles whose texts differ.
pub fn frame_cmp(a: &RespFrame, b: &RespFrame) -> (r: Option<ByteOrder>)
    ensures
        r == frame_cmp_spec(a@, b@),
    decreases *a, 3int,
{
    match (a, b) {
        (RespFrame::SimpleString(x), RespFrame::SimpleString(y)) => Some(
            bytes_cmp(x.data.as_slice(), y.data.as_slice()),
        ),
        (RespFrame::Error(x), RespFrame::Error(y)) => Some(
            bytes_cmp(x.data.as_slice(), y.data.as_slice()),
        ),
        (RespFrame::BulkError(x), RespFrame::BulkError(y)) => Some(
            bytes_cmp(x.data.as_slice(), y.data.as_slice()),
        ),
        (RespFrame::Integer(x), RespFrame::Integer(y)) => Some(
            if *x < *y {
                ByteOrder::Less
            } else if *x > *y {
                ByteOrder::Greater
            } else {
                ByteOrder::Equal
            },
        ),
        (RespFrame::BulkString(x), RespFrame::BulkString(y)) => Some(
            bytes_cmp(x.data.as_slice(), y.data.as_slice()),
        ),
        (RespFrame::NullBulkString(_), RespFrame::NullBulkString(_)) => Some(ByteOrder::Equal),
        (RespFrame::Array(x), RespFrame::Array(y)) => vec_cmp(&x.data, &y.data),
        (RespFrame::NullArray(_), RespFrame::NullArray(_)) => Some(ByteOrder::Equal),
        (RespFrame::Null(_), RespFrame::Null(_)) => Some(ByteOrder::Equal),
        (RespFrame::Boolean(x), RespFrame::Boolean(y)) => Some(
            if *x == *y {
                ByteOrder::Equal
            } else if !*x {
                ByteOrder::Less
            } else {
                ByteOrder::Greater
            },
        ),
        (RespFrame::Double(x), RespFrame::Double(y)) => {
            if matches!(bytes_cmp(x.data.as_slice(), y.data.as_slice()), ByteOrder::Equal) {
                Some(ByteOrder::Equal)
            } else {
                None
            }
        },
        (RespFrame::MapFrame(x), RespFrame::MapFrame(y)) => entry_vec_cmp(&x.entries, &y.entries),
        (RespFrame::SetFrame(x), RespFrame::SetFrame(y)) => vec_cmp(&x.data, &y.data),
        _ => None,
    }
}

/// The partial order is consistent with structural equality: two frames
/// compare as `Equal` exactly when they are the same value.
pub proof fn lemma_cmp_consistent_with_eq(a: FrameSpec, b: FrameSpec)
    ensures
        frame_cmp_spec(a, b) == Option::Some(ByteOrder::Equal) <==> a == b,
    decreases a, 0int,
{
    match (a, b) {
        (FrameSpec::SimpleString(x), FrameSpec::SimpleString(y)) => {
            lemma_bytes_order_eq(x, y);
        },
        (FrameSpec::Error(x), FrameSpec::Error(y)) => {
            lemma_bytes_order_eq(x, y);
        },
        (FrameSpec::BulkError(x), FrameSpec::BulkError(y)) => {
            lemma_bytes_order_eq(x, y);
        },
        (FrameSpec::BulkString(x), FrameSpec::BulkString(y)) => {
            lemma_bytes_order_eq(x, y);
        },
        (FrameSpec::Array(x), FrameSpec::Array(y)) => {
            lemma_frames_cmp_eq(x, y, 0);
            if frames_cmp_spec(x, y, 0) == Option::Some(ByteOrder::Equal) {
                assert(x =~= y);
            }
        },
        (FrameSpec::SetFrame(x), FrameSpec::SetFrame(y)) => {
            lemma_frames_cmp_eq(x, y, 0);
            if frames_cmp_spec(x, y, 0) == Option::Some(ByteOrder::Equal) {
                assert(x =~= y);
            }
        },
        (FrameSpec::MapFrame(x), FrameSpec::MapFrame(y)) => {
            lemma_entries_cmp_eq(x, y, 0);
            if entries_cmp_spec(x, y, 0) == Option::Some(ByteOrder::Equal) {
                assert(x =~= y);
            }
        },
        _ => {},
    }
}

proof fn lemma_bytes_order_eq(x: Seq<u8>, y: Seq<u8>)
    ensures
        bytes_order(x, y) == ByteOrder::Equal <==> x == y,
{
    crate::bytes::lemma_lex_total(x, y);
    if x == y {
        crate::bytes::lemma_lex_total(x, x);
    }
    if bytes_order(x, y) == ByteOrder::Equal {
        assert(x =~= y);
    }
}

proof fn lemma_frames_cmp_eq(x: Seq<FrameSpec>, y: Seq<FrameSpec>, i: int)
    requires
        0 <= i <= x.len(),
        i <= y.len(),
    ensures
        frames_cmp_spec(x, y, i) == Option::Some(ByteOrder::Equal) <==> (x.len() == y.len()
            && forall|j: int| i <= j < x.len() ==> x[j] == y[j]),
    decreases x, x.len() - i,
{
    if i >= x.len() && i >= y.len() {
    } else if i >= x.len() || i >= y.len() {
    } else {
        lemma_cmp_consistent_with_eq(x[i], y[i]);
        if frame_cmp_spec(x[i], y[i]) == Option::Some(ByteOrder::Equal) {
            lemma_frames_cmp_eq(x, y, i + 1);
            if x.len() == y.len() && (forall|j: int| i + 1 <= j < x.len() ==> x[j] == y[j]) {
                assert forall|j: int| i <= j < x.len() implies x[j] == y[j] by {
                    if j > i {
                        assert(x[j] == y[j]);
                    }
                }
            }
        } else {
            if x.len() == y.len() && (forall|j: int| i <= j < x.len() ==> x[j] == y[j]) {
                assert(x[i] == y[i]);
            }
        }
    }
}

proof fn lemma_entries_cmp_eq(x: Seq<(Seq<u8>, FrameSpec)>, y: Seq<(Seq<u8>, FrameSpec)>, i: int)
    requires
        0 <= i <= x.len(),
        i <= y.len(),
    ensures
        entries_cmp_spec(x, y, i) == Option::Some(ByteOrder::Equal) <==> (x.len() == y.len()
            && forall|j: int| i <= j < x.len() ==> x[j] == y[j]),
    decreases x, x.len() - i,
{
    if i >= x.len() && i >= y.len() {
    } else if i >= x.len() || i >= y.len() {
    } else {
        lemma_bytes_order_eq(x[i].0, y[i].0);
        if bytes_order(x[i].0, y[i].0) == ByteOrder::Equal {
            lemma_cmp_consistent_with_eq(x[i].1, y[i].1);
            if frame_cmp_spec(x[i].1, y[i].1) == Option::Some(ByteOrder::Equal) {
                lemma_entries_cmp_eq(x, y, i + 1);
                if x.len() == y.len() && (forall|j: int| i + 1 <= j < x.len() ==> x[j] == y[j]) {
                    assert forall|j: int| i <= j < x.len() implies x[j] == y[j] by {
                        if j > i {
                            assert(x[j] == y[j]);
                        } else {
                            assert(x[i].0 == y[i].0 && x[i].1 == y[i].1);
                        }
                    }
                }
            } else {
                if x.len() == y.len() && (forall|j: int| i <= j < x.len() ==> x[j] == y[j]) {
                    assert(x[i] == y[i]);
                    assert(x[i].1 == y[i].1);
                }
            }
        } else {
            if x.len() == y.len() && (forall|j: int| i <= j < x.len() ==> x[j] == y[j]) {
                assert(x[i] == y[i]);
                assert(x[i].0 == y[i].0);
            }
        }
    }
}

/// Structural equality of two frames, decided through the partial order.
pub fn frame_eq(a: &RespFrame, b: &RespFrame) -> (r: bool)
    ensures
        r <==> a@ == b@,
{
    proof {
        lemma_cmp_consistent_with_eq(a@, b@);
    }
    matches!(frame_cmp(a, b), Option::Some(ByteOrder::Equal))
}


} // verus!
