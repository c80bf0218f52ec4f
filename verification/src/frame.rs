//! The frame data model: a closed set of protocol value variants, their
//! mathematical views, and the well-formedness conditions that the encoder
//! requires and the decoder guarantees.

use vstd::prelude::*;

use crate::bytes::{bytes_cmp, bytes_eq, lex_lt, lemma_lex_total, lemma_lex_trans, ByteOrder};
use crate::grammar::{double_text_ok, line_ok, MAX_SIZE};

verus! {

broadcast use vstd::seq::group_seq_axioms, vstd::std_specs::vec::group_vec_axioms;

/// The mathematical value of a frame: what the exec types below stand for.
pub enum FrameSpec {
    SimpleString(Seq<u8>),
    Error(Seq<u8>),
    BulkError(Seq<u8>),
    Integer(i64),
    BulkString(Seq<u8>),
    NullBulkString,
    Array(Seq<FrameSpec>),
    NullArray,
    Null,
    Boolean(bool),
    Double(Seq<u8>),
    MapFrame(Seq<(Seq<u8>, FrameSpec)>),
    SetFrame(Seq<FrameSpec>),
}

/// Map entries carry strictly ascending keys: the canonical, deterministic
/// on-wire order, and at once the uniqueness of the keys.
pub open spec fn entries_sorted(es: Seq<(Seq<u8>, FrameSpec)>) -> bool {
    forall|i: int, j: int| 0 <= i < j < es.len() ==> lex_lt(#[trigger] es[i].0, #[trigger] es[j].0)
}

/// Some entry of `es` has the key `k`.
pub open spec fn entries_has(es: Seq<(Seq<u8>, FrameSpec)>, k: Seq<u8>) -> bool {
    exists|i: int| 0 <= i < es.len() && (#[trigger] es[i]).0 == k
}

/// `es` with `v` stored under `k`: replaces the entry holding `k`, or inserts
/// a new entry at its place in the ascending key order.
pub open spec fn entries_put(
    es: Seq<(Seq<u8>, FrameSpec)>,
    k: Seq<u8>,
    v: FrameSpec,
) -> Seq<(Seq<u8>, FrameSpec)>
    decreases es.len(),
{
    if es.len() == 0 {
        seq![(k, v)]
    } else if lex_lt(k, es[0].0) {
        seq![(k, v)] + es
    } else if k == es[0].0 {
        seq![(k, v)] + es.subrange(1, es.len() as int)
    } else {
        seq![es[0]] + entries_put(es.subrange(1, es.len() as int), k, v)
    }
}

/// Well-formedness of a frame value: text payloads hold no line terminator
/// bytes, double text obeys the numeric grammar, bulk payloads and aggregate
/// counts stay under the hardening limit, and map keys are unique and sorted.
pub open spec fn frame_wf(f: FrameSpec) -> bool
    decreases f,
{
    match f {
        FrameSpec::SimpleString(s) => line_ok(s),
        FrameSpec::Error(s) => line_ok(s),
        FrameSpec::BulkError(b) => b.len() <= MAX_SIZE,
        FrameSpec::Integer(_) => true,
        FrameSpec::BulkString(b) => b.len() <= MAX_SIZE,
        FrameSpec::NullBulkString => true,
        FrameSpec::Array(items) => items.len() <= MAX_SIZE && frames_wf(items),
        FrameSpec::NullArray => true,
        FrameSpec::Null => true,
        FrameSpec::Boolean(_) => true,
        FrameSpec::Double(t) => double_text_ok(t),
        FrameSpec::MapFrame(es) => {
            &&& es.len() <= MAX_SIZE
            &&& entries_sorted(es)
            &&& entries_wf(es)
        },
        FrameSpec::SetFrame(items) => items.len() <= MAX_SIZE && frames_wf(items),
    }
}

/// Every element of `items` is well formed.
pub open spec fn frames_wf(items: Seq<FrameSpec>) -> bool
    decreases items,
{
    items.len() == 0 || (frame_wf(items[0]) && frames_wf(items.subrange(1, items.len() as int)))
}

/// Every entry of `es` has a line-safe key and a well-formed value.
pub open spec fn entries_wf(es: Seq<(Seq<u8>, FrameSpec)>) -> bool
    decreases es,
{
    es.len() == 0 || (line_ok(es[0].0) && frame_wf(es[0].1) && entries_wf(
        es.subrange(1, es.len() as int),
    ))
}

/// `frames_wf` is the same as the well-formedness of each element.
pub proof fn lemma_frames_wf_iff(items: Seq<FrameSpec>)
    ensures
        frames_wf(items) <==> forall|i: int| 0 <= i < items.len() ==> frame_wf(#[trigger] items[i]),
    decreases items.len(),
{
    if items.len() > 0 {
        let tail = items.subrange(1, items.len() as int);
        lemma_frames_wf_iff(tail);
        assert(forall|i: int| 0 <= i < tail.len() ==> #[trigger] tail[i] == items[i + 1]);
        if frame_wf(items[0]) && (forall|i: int|
            0 <= i < tail.len() ==> frame_wf(#[trigger] tail[i])) {
            assert forall|i: int| 0 <= i < items.len() implies frame_wf(#[trigger] items[i]) by {
                if i > 0 {
                    assert(items[i] == tail[i - 1]);
                }
            }
        }
    }
}

/// `entries_wf` is the same as the well-formedness of each entry.
pub proof fn lemma_entries_wf_iff(es: Seq<(Seq<u8>, FrameSpec)>)
    ensures
        entries_wf(es) <==> forall|i: int|
            0 <= i < es.len() ==> line_ok((#[trigger] es[i]).0) && frame_wf(es[i].1),
    decreases es.len(),
{
    if es.len() > 0 {
        let tail = es.subrange(1, es.len() as int);
        lemma_entries_wf_iff(tail);
        assert(forall|i: int| 0 <= i < tail.len() ==> #[trigger] tail[i] == es[i + 1]);
        if line_ok(es[0].0) && frame_wf(es[0].1) && (forall|i: int|
            0 <= i < tail.len() ==> line_ok((#[trigger] tail[i]).0) && frame_wf(tail[i].1)) {
            assert forall|i: int| 0 <= i < es.len() implies line_ok((#[trigger] es[i]).0)
                && frame_wf(es[i].1) by {
                if i > 0 {
                    assert(es[i] == tail[i - 1]);
                }
            }
        }
    }
}

/// Keys ascending between each neighbouring pair ascend overall.
pub proof fn lemma_adjacent_sorted(es: Seq<(Seq<u8>, FrameSpec)>)
    requires
        forall|i: int| 0 <= i && i + 1 < es.len() ==> lex_lt(
            (#[trigger] es[i]).0,
            es[i + 1].0,
        ),
    ensures
        entries_sorted(es),
{
    assert forall|i: int, j: int| 0 <= i < j < es.len() implies lex_lt(
        #[trigger] es[i].0,
        #[trigger] es[j].0,
    ) by {
        lemma_lex_chain(es, i, j);
    }
}

proof fn lemma_lex_chain(es: Seq<(Seq<u8>, FrameSpec)>, i: int, j: int)
    requires
        forall|p: int| 0 <= p && p + 1 < es.len() ==> lex_lt((#[trigger] es[p]).0, es[p + 1].0),
        0 <= i < j < es.len(),
    ensures
        lex_lt(es[i].0, es[j].0),
    decreases j - i,
{
    if j == i + 1 {
        assert(lex_lt(es[i].0, es[i + 1].0));
    } else {
        lemma_lex_chain(es, i, j - 1);
        assert(lex_lt(es[j - 1].0, es[j].0));
        lemma_lex_trans(es[i].0, es[j - 1].0, es[j].0);
    }
}

/// Storing a value into a sorted entry sequence keeps it sorted, whatever the
/// order of the insertions: the canonical map order is a fact of construction,
/// not of any particular build sequence.
pub proof fn lemma_entries_put_sorted(es: Seq<(Seq<u8>, FrameSpec)>, k: Seq<u8>, v: FrameSpec)
    requires
        entries_sorted(es),
    ensures
        entries_sorted(entries_put(es, k, v)),
        entries_put(es, k, v).len() >= es.len(),
        entries_put(es, k, v).len() <= es.len() + 1,
    decreases es.len(),
{
    let r = entries_put(es, k, v);
    if es.len() == 0 {
        assert(entries_sorted(r));
    } else if lex_lt(k, es[0].0) {
        assert forall|i: int, j: int| 0 <= i < j < r.len() implies lex_lt(
            #[trigger] r[i].0,
            #[trigger] r[j].0,
        ) by {
            if i == 0 {
                if j == 1 {
                    assert(r[j] == es[0]);
                } else {
                    assert(r[j] == es[j - 1]);
                    assert(lex_lt(es[0].0, es[j - 1].0));
                    lemma_lex_trans(k, es[0].0, es[j - 1].0);
                }
            } else {
                assert(r[i] == es[i - 1] && r[j] == es[j - 1]);
            }
        }
    } else if k == es[0].0 {
        assert forall|i: int, j: int| 0 <= i < j < r.len() implies lex_lt(
            #[trigger] r[i].0,
            #[trigger] r[j].0,
        ) by {
            if i == 0 {
                assert(r[j] == es[j]);
                assert(lex_lt(es[0].0, es[j].0));
            } else {
                assert(r[i] == es[i] && r[j] == es[j]);
            }
        }
    } else {
        let tail = es.subrange(1, es.len() as int);
        assert(forall|i: int| 0 <= i < tail.len() ==> #[trigger] tail[i] == es[i + 1]);
        assert(entries_sorted(tail));
        lemma_entries_put_sorted(tail, k, v);
        let tr = entries_put(tail, k, v);
        lemma_lex_total(k, es[0].0);
        assert(lex_lt(es[0].0, k));
        lemma_entries_put_head_keys(tail, k, v);
        assert forall|i: int, j: int| 0 <= i < j < r.len() implies lex_lt(
            #[trigger] r[i].0,
            #[trigger] r[j].0,
        ) by {
            if i == 0 {
                assert(r[j] == tr[j - 1]);
                if tr[j - 1].0 == k {
                    assert(lex_lt(es[0].0, k));
                } else {
                    assert(entries_has(tail, tr[j - 1].0) || tr[j - 1].0 == k);
                    let w = choose|w: int| 0 <= w < tail.len() && (#[trigger] tail[w]).0 == tr[j
                        - 1].0;
                    assert(lex_lt(es[0].0, tail[w].0));
                }
            } else {
                assert(r[i] == tr[i - 1] && r[j] == tr[j - 1]);
            }
        }
    }
}

/// Every key of `entries_put(es, k, v)` is `k` or a key of `es`.
proof fn lemma_entries_put_head_keys(es: Seq<(Seq<u8>, FrameSpec)>, k: Seq<u8>, v: FrameSpec)
    ensures
        forall|i: int| 0 <= i < entries_put(es, k, v).len() ==> (#[trigger] entries_put(
            es,
            k,
            v,
        )[i]).0 == k || entries_has(es, entries_put(es, k, v)[i].0),
    decreases es.len(),
{
    let r = entries_put(es, k, v);
    if es.len() == 0 {
    } else if lex_lt(k, es[0].0) {
        assert forall|i: int| 0 <= i < r.len() implies (#[trigger] r[i]).0 == k || entries_has(
            es,
            r[i].0,
        ) by {
            if i > 0 {
                assert(r[i] == es[i - 1]);
            }
        }
    } else if k == es[0].0 {
        assert forall|i: int| 0 <= i < r.len() implies (#[trigger] r[i]).0 == k || entries_has(
            es,
            r[i].0,
        ) by {
            if i > 0 {
                assert(r[i] == es[i]);
            }
        }
    } else {
        let tail = es.subrange(1, es.len() as int);
        lemma_entries_put_head_keys(tail, k, v);
        let tr = entries_put(tail, k, v);
        assert forall|i: int| 0 <= i < r.len() implies (#[trigger] r[i]).0 == k || entries_has(
            es,
            r[i].0,
        ) by {
            if i == 0 {
                assert(r[0] == es[0]);
                assert(entries_has(es, es[0].0));
            } else {
                assert(r[i] == tr[i - 1]);
                if tr[i - 1].0 != k {
                    let w = choose|w: int| 0 <= w < tail.len() && (#[trigger] tail[w]).0 == tr[i
                        - 1].0;
                    assert(es[w + 1] == tail[w]);
                    assert(entries_has(es, tail[w].0));
                }
            }
        }
    }
}

/// Simple (line-delimited) text, wire tag `+`.
#[derive(Clone, Debug, PartialEq, Eq)]
pub struct SimpleString {
    pub data: Vec<u8>,
}

/// Simple (line-delimited) error text, wire tag `-`.
#[derive(Clone, Debug, PartialEq, Eq)]
pub struct SimpleError {
    pub data: Vec<u8>,
}

/// Length-prefixed binary error payload, wire tag `!`.
#[derive(Clone, Debug, PartialEq, Eq)]
pub struct BulkError {
    pub data: Vec<u8>,
}

/// Length-prefixed binary payload, wire tag `$`.
#[derive(Clone, Debug, PartialEq, Eq)]
pub struct BulkString {
    pub data: Vec<u8>,
}

/// The null bulk string sentinel, wire form `$-1`.
#[derive(Clone, Debug, PartialEq, Eq)]
pub struct RespNullBulkString;

/// An ordered sequence of nested frames, wire tag `*`.
#[derive(Debug, PartialEq)]
pub struct RespArray {
    pub data: Vec<RespFrame>,
}

/// The null array sentinel, wire form `*-1`.
#[derive(Clone, Debug, PartialEq, Eq)]
pub struct RespNullArray;

/// The plain null value, wire tag `_`.
#[derive(Clone, Debug, PartialEq, Eq)]
pub struct RespNull;

/// The textual form of a double-precision number, wire tag `,`: an optionally
/// signed decimal with optional fraction and exponent, or one of the special
/// forms `inf`, `-inf`, `nan`. The text is kept exactly as received or as
/// built; turning machine floats into this form is the caller's business.
#[derive(Clone, Debug, PartialEq, Eq)]
pub struct RespDouble {
    pub data: Vec<u8>,
}

/// A mapping from text keys to frames, wire tag `%`. The entries sit in
/// strictly ascending lexicographic key order whatever the insertion order,
/// so the encoding is canonical and deterministic.
#[derive(Debug, PartialEq)]
pub struct RespMap {
    pub entries: Vec<(Vec<u8>, RespFrame)>,
}

/// An ordered sequence of nested frames in stored order, wire tag `~`.
#[derive(Debug, PartialEq)]
pub struct RespSet {
    pub data: Vec<RespFrame>,
}

/// One protocol value: the closed union of every variant the wire knows.
#[derive(Debug, PartialEq)]
pub enum RespFrame {
    SimpleString(SimpleString),
    Error(SimpleError),
    BulkError(BulkError),
    Integer(i64),
    BulkString(BulkString),
    NullBulkString(RespNullBulkString),
    Array(RespArray),
    NullArray(RespNullArray),
    Null(RespNull),
    Boolean(bool),
    Double(RespDouble),
    MapFrame(RespMap),
    SetFrame(RespSet),
}

/// The views of the frames of `v`, in order.
pub open spec fn frames_view(v: Seq<RespFrame>) -> Seq<FrameSpec>
    decreases v,
{
    if v.len() == 0 {
        Seq::empty()
    } else {
        seq![v[0]@] + frames_view(v.subrange(1, v.len() as int))
    }
}

/// The views of the map entries of `v`, in order.
pub open spec fn pairs_view(v: Seq<(Vec<u8>, RespFrame)>) -> Seq<(Seq<u8>, FrameSpec)>
    decreases v,
{
    if v.len() == 0 {
        Seq::empty()
    } else {
        seq![(v[0].0@, v[0].1@)] + pairs_view(v.subrange(1, v.len() as int))
    }
}

impl View for RespFrame {
    type V = FrameSpec;

    open spec fn view(&self) -> FrameSpec
        decreases self,
    {
        match self {
            RespFrame::SimpleString(s) => FrameSpec::SimpleString(s.data@),
            RespFrame::Error(s) => FrameSpec::Error(s.data@),
            RespFrame::BulkError(b) => FrameSpec::BulkError(b.data@),
            RespFrame::Integer(i) => FrameSpec::Integer(*i),
            RespFrame::BulkString(b) => FrameSpec::BulkString(b.data@),
            RespFrame::NullBulkString(_) => FrameSpec::NullBulkString,
            RespFrame::Array(a) => FrameSpec::Array(frames_view(a.data@)),
            RespFrame::NullArray(_) => FrameSpec::NullArray,
            RespFrame::Null(_) => FrameSpec::Null,
            RespFrame::Boolean(b) => FrameSpec::Boolean(*b),
            RespFrame::Double(d) => FrameSpec::Double(d.data@),
            RespFrame::MapFrame(m) => FrameSpec::MapFrame(pairs_view(m.entries@)),
            RespFrame::SetFrame(s) => FrameSpec::SetFrame(frames_view(s.data@)),
        }
    }
}

impl View for SimpleString {
    type V = Seq<u8>;

    open spec fn view(&self) -> Seq<u8> {
        self.data@
    }
}

impl View for SimpleError {
    type V = Seq<u8>;

    open spec fn view(&self) -> Seq<u8> {
        self.data@
    }
}

impl View for BulkError {
    type V = Seq<u8>;

    open spec fn view(&self) -> Seq<u8> {
        self.data@
    }
}

impl View for BulkString {
    type V = Seq<u8>;

    open spec fn view(&self) -> Seq<u8> {
        self.data@
    }
}

impl View for RespDouble {
    type V = Seq<u8>;

    open spec fn view(&self) -> Seq<u8> {
        self.data@
    }
}

impl View for RespArray {
    type V = Seq<FrameSpec>;

    open spec fn view(&self) -> Seq<FrameSpec> {
        frames_view(self.data@)
    }
}

impl View for RespSet {
    type V = Seq<FrameSpec>;

    open spec fn view(&self) -> Seq<FrameSpec> {
        frames_view(self.data@)
    }
}

impl View for RespMap {
    type V = Seq<(Seq<u8>, FrameSpec)>;

    open spec fn view(&self) -> Seq<(Seq<u8>, FrameSpec)> {
        pairs_view(self.entries@)
    }
}

/// `frames_view` keeps the length.
pub proof fn lemma_frames_view_len(v: Seq<RespFrame>)
    ensures
        frames_view(v).len() == v.len(),
    decreases v,
{
    if v.len() > 0 {
        let tail = v.subrange(1, v.len() as int);
        lemma_frames_view_len(tail);
        assert(frames_view(v) == seq![v[0]@] + frames_view(tail));
    }
}

/// `frames_view` maps each frame to its view, position by position.
pub proof fn lemma_frames_view_index(v: Seq<RespFrame>, i: int)
    requires
        0 <= i < v.len(),
    ensures
        frames_view(v).len() == v.len(),
        frames_view(v)[i] == v[i]@,
    decreases v,
{
    lemma_frames_view_len(v);
    let tail = v.subrange(1, v.len() as int);
    assert(frames_view(v) == seq![v[0]@] + frames_view(tail));
    if i > 0 {
        lemma_frames_view_index(tail, i - 1);
        assert(frames_view(v)[i] == frames_view(tail)[i - 1]);
        assert(tail[i - 1] == v[i]);
    } else {
        assert(frames_view(v)[0] == v[0]@);
    }
}

/// `pairs_view` keeps the length.
pub proof fn lemma_pairs_view_len(v: Seq<(Vec<u8>, RespFrame)>)
    ensures
        pairs_view(v).len() == v.len(),
    decreases v,
{
    if v.len() > 0 {
        let tail = v.subrange(1, v.len() as int);
        lemma_pairs_view_len(tail);
        assert(pairs_view(v) == seq![(v[0].0@, v[0].1@)] + pairs_view(tail));
    }
}

/// `pairs_view` maps each entry to its view, position by position.
pub proof fn lemma_pairs_view_index(v: Seq<(Vec<u8>, RespFrame)>, i: int)
    requires
        0 <= i < v.len(),
    ensures
        pairs_view(v).len() == v.len(),
        pairs_view(v)[i] == (v[i].0@, v[i].1@),
    decreases v,
{
    lemma_pairs_view_len(v);
    let tail = v.subrange(1, v.len() as int);
    assert(pairs_view(v) == seq![(v[0].0@, v[0].1@)] + pairs_view(tail));
    if i > 0 {
        lemma_pairs_view_index(tail, i - 1);
        assert(pairs_view(v)[i] == pairs_view(tail)[i - 1]);
        assert(tail[i - 1] == v[i]);
    } else {
        assert(pairs_view(v)[0] == (v[0].0@, v[0].1@));
    }
}

proof fn lemma_pairs_view_push(v: Seq<(Vec<u8>, RespFrame)>, p: (Vec<u8>, RespFrame))
    ensures
        pairs_view(v.push(p)) =~= pairs_view(v).push((p.0@, p.1@)),
{
    lemma_pairs_view_len(v);
    lemma_pairs_view_len(v.push(p));
    assert forall|i: int| 0 <= i < v.len() + 1 implies pairs_view(v.push(p))[i] == pairs_view(
        v,
    ).push((p.0@, p.1@))[i] by {
        lemma_pairs_view_index(v.push(p), i);
        if i < v.len() {
            lemma_pairs_view_index(v, i);
        }
    }
}

proof fn lemma_pairs_view_update(v: Seq<(Vec<u8>, RespFrame)>, at: int, p: (Vec<u8>, RespFrame))
    requires
        0 <= at < v.len(),
    ensures
        pairs_view(v.update(at, p)) =~= pairs_view(v).update(at, (p.0@, p.1@)),
{
    lemma_pairs_view_len(v);
    lemma_pairs_view_len(v.update(at, p));
    assert forall|i: int| 0 <= i < v.len() implies pairs_view(v.update(at, p))[i] == pairs_view(
        v,
    ).update(at, (p.0@, p.1@))[i] by {
        lemma_pairs_view_index(v.update(at, p), i);
        if i != at {
            lemma_pairs_view_index(v, i);
        }
    }
}

proof fn lemma_pairs_view_insert(v: Seq<(Vec<u8>, RespFrame)>, at: int, p: (Vec<u8>, RespFrame))
    requires
        0 <= at <= v.len(),
    ensures
        pairs_view(v.insert(at, p)) =~= pairs_view(v).insert(at, (p.0@, p.1@)),
{
    lemma_pairs_view_len(v);
    lemma_pairs_view_len(v.insert(at, p));
    assert forall|i: int| 0 <= i < v.len() + 1 implies pairs_view(v.insert(at, p))[i] == pairs_view(
        v,
    ).insert(at, (p.0@, p.1@))[i] by {
        lemma_pairs_view_index(v.insert(at, p), i);
        if i < at {
            lemma_pairs_view_index(v, i);
        } else if i > at {
            lemma_pairs_view_index(v, i - 1);
        }
    }
}

/// Where the first `at` keys of `es` come before `k`, `entries_put` lands
/// exactly at position `at`: as a replacement when `es[at]` already holds
/// `k`, as an insertion otherwise.
proof fn lemma_entries_put_at(
    es: Seq<(Seq<u8>, FrameSpec)>,
    k: Seq<u8>,
    v: FrameSpec,
    at: int,
    replace: bool,
)
    requires
        0 <= at <= es.len(),
        forall|j: int| 0 <= j < at ==> lex_lt((#[trigger] es[j]).0, k),
        replace ==> at < es.len() && es[at].0 == k,
        !replace && at < es.len() ==> lex_lt(k, es[at].0),
    ensures
        replace ==> entries_put(es, k, v) =~= es.update(at, (k, v)),
        !replace ==> entries_put(es, k, v) =~= es.insert(at, (k, v)),
    decreases es.len(),
{
    if at == 0 {
        if replace {
            lemma_lex_total(k, es[0].0);
            assert(!lex_lt(k, es[0].0));
            assert(entries_put(es, k, v) =~= es.update(0, (k, v)));
        } else if es.len() == 0 {
            assert(entries_put(es, k, v) =~= es.insert(0, (k, v)));
        } else {
            lemma_lex_total(k, es[0].0);
            assert(lex_lt(k, es[0].0));
            assert(entries_put(es, k, v) =~= es.insert(0, (k, v)));
        }
    } else {
        let tail = es.subrange(1, es.len() as int);
        assert(lex_lt(es[0].0, k));
        lemma_lex_total(k, es[0].0);
        assert(!lex_lt(k, es[0].0) && k != es[0].0);
        assert forall|j: int| 0 <= j < at - 1 implies lex_lt((#[trigger] tail[j]).0, k) by {
            assert(tail[j] == es[j + 1]);
        }
        assert(replace ==> at - 1 < tail.len() && tail[at - 1].0 == k);
        assert(!replace && at - 1 < tail.len() ==> lex_lt(k, tail[at - 1].0));
        lemma_entries_put_at(tail, k, v, at - 1, replace);
        if replace {
            assert(entries_put(es, k, v) =~= es.update(at, (k, v)));
        } else {
            assert(entries_put(es, k, v) =~= es.insert(at, (k, v)));
        }
    }
}

/// Storing a line-safe key with a well-formed value keeps every entry of a
/// well-formed entry sequence well formed.
pub proof fn lemma_entries_put_wf(es: Seq<(Seq<u8>, FrameSpec)>, k: Seq<u8>, v: FrameSpec)
    requires
        entries_wf(es),
        line_ok(k),
        frame_wf(v),
    ensures
        entries_wf(entries_put(es, k, v)),
    decreases es.len(),
{
    let r = entries_put(es, k, v);
    lemma_entries_wf_iff(es);
    if es.len() == 0 {
        lemma_entries_wf_iff(r);
    } else if lex_lt(k, es[0].0) {
        lemma_entries_wf_iff(r);
        assert forall|i: int| 0 <= i < r.len() implies line_ok((#[trigger] r[i]).0) && frame_wf(
            r[i].1,
        ) by {
            if i > 0 {
                assert(r[i] == es[i - 1]);
            }
        }
    } else if k == es[0].0 {
        lemma_entries_wf_iff(r);
        assert forall|i: int| 0 <= i < r.len() implies line_ok((#[trigger] r[i]).0) && frame_wf(
            r[i].1,
        ) by {
            if i > 0 {
                assert(r[i] == es[i]);
            }
        }
    } else {
        let tail = es.subrange(1, es.len() as int);
        lemma_entries_wf_iff(tail);
        assert(forall|i: int| 0 <= i < tail.len() ==> #[trigger] tail[i] == es[i + 1]);
        lemma_entries_put_wf(tail, k, v);
        let tr = entries_put(tail, k, v);
        lemma_entries_wf_iff(tr);
        lemma_entries_wf_iff(r);
        assert forall|i: int| 0 <= i < r.len() implies line_ok((#[trigger] r[i]).0) && frame_wf(
            r[i].1,
        ) by {
            if i > 0 {
                assert(r[i] == tr[i - 1]);
            }
        }
    }
}

/// Storing a key greater than every key of `es` appends the entry at the end.
pub proof fn lemma_entries_put_append(es: Seq<(Seq<u8>, FrameSpec)>, k: Seq<u8>, v: FrameSpec)
    requires
        forall|j: int| 0 <= j < es.len() ==> lex_lt((#[trigger] es[j]).0, k),
    ensures
        entries_put(es, k, v) =~= es.push((k, v)),
{
    lemma_entries_put_at(es, k, v, es.len() as int, false);
    assert(es.insert(es.len() as int, (k, v)) =~= es.push((k, v)));
}

impl SimpleString {
    /// Wraps text bytes as a simple string frame payload.
    pub fn new(data: Vec<u8>) -> (r: Self)
        ensures
            r@ == data@,
    {
        SimpleString { data }
    }
}

impl SimpleError {
    /// Wraps text bytes as a simple error frame payload.
    pub fn new(data: Vec<u8>) -> (r: Self)
        ensures
            r@ == data@,
    {
        SimpleError { data }
    }
}

impl BulkError {
    /// Wraps arbitrary bytes as a bulk error frame payload.
    pub fn new(data: Vec<u8>) -> (r: Self)
        ensures
            r@ == data@,
    {
        BulkError { data }
    }
}

impl BulkString {
    /// Wraps arbitrary bytes as a bulk string frame payload.
    pub fn new(data: Vec<u8>) -> (r: Self)
        ensures
            r@ == data@,
    {
        BulkString { data }
    }
}

impl RespArray {
    /// Wraps a sequence of frames as an array frame payload.
    pub fn new(data: Vec<RespFrame>) -> (r: Self)
        ensures
            r@ == frames_view(data@),
    {
        RespArray { data }
    }
}

impl RespSet {
    /// Wraps a sequence of frames as a set frame payload, kept in the given
    /// (insertion) order.
    pub fn new(data: Vec<RespFrame>) -> (r: Self)
        ensures
            r@ == frames_view(data@),
    {
        RespSet { data }
    }
}

impl RespDouble {
    /// Wraps the textual form of a double. Whether the text obeys the numeric
    /// grammar is checked when the frame is encoded.
    pub fn new(data: Vec<u8>) -> (r: Self)
        ensures
            r@ == data@,
    {
        RespDouble { data }
    }
}

impl RespMap {
    /// An empty map.
    pub fn new() -> (r: Self)
        ensures
            r@ == Seq::<(Seq<u8>, FrameSpec)>::empty(),
    {
        RespMap { entries: Vec::new() }
    }

    /// How many entries the map holds.
    pub fn len(&self) -> (r: usize)
        ensures
            r == self@.len(),
    {
        proof {
            lemma_pairs_view_len(self.entries@);
        }
        self.entries.len()
    }

    /// Whether some entry holds the key `k`.
    pub fn has_key(&self, k: &[u8]) -> (r: bool)
        ensures
            r == entries_has(self@, k@),
    {
        let mut i: usize = 0;
        proof {
            lemma_pairs_view_len(self.entries@);
        }
        while i < self.entries.len()
            invariant
                i <= self.entries.len(),
                self@.len() == self.entries@.len(),
                forall|j: int| 0 <= j < i ==> (#[trigger] self@[j]).0 != k@,
            decreases self.entries.len() - i,
        {
            proof {
                lemma_pairs_view_index(self.entries@, i as int);
            }
            if bytes_eq(self.entries[i].0.as_slice(), k) {
                return true;
            }
            i += 1;
        }
        false
    }

    /// Stores `value` under `key`: replaces the entry with that key, or
    /// inserts a new one at its place in the ascending key order, so that the
    /// entries stay sorted whatever the order of the insertions.
    pub fn insert(&mut self, key: Vec<u8>, value: RespFrame)
        ensures
            final(self)@ == entries_put(old(self)@, key@, value@),
    {
        let ghost old_pairs = old(self).entries@;
        let mut i: usize = 0;
        proof {
            lemma_pairs_view_len(old_pairs);
        }
        loop
            invariant
                i <= self.entries.len(),
                old(self).entries@ == old_pairs,
                self.entries@ == old_pairs,
                pairs_view(old_pairs).len() == old_pairs.len(),
                forall|j: int| 0 <= j < i ==> lex_lt((#[trigger] pairs_view(old_pairs)[j]).0, key@),
            decreases self.entries.len() - i,
        {
            proof {
                if i < old_pairs.len() {
                    lemma_pairs_view_index(old_pairs, i as int);
                }
            }
            if i == self.entries.len() {
                proof {
                    lemma_entries_put_at(
                        pairs_view(old_pairs),
                        key@,
                        value@,
                        old_pairs.len() as int,
                        false,
                    );
                }
                let ghost pair_view = (key@, value@);
                self.entries.push((key, value));
                proof {
                    lemma_pairs_view_push(old_pairs, (self.entries@[old_pairs.len() as int]));
                    assert(self@ =~= entries_put(pairs_view(old_pairs), pair_view.0, pair_view.1));
                }
                return ;
            }
            match bytes_cmp(self.entries[i].0.as_slice(), key.as_slice()) {
                ByteOrder::Less => {
                    i += 1;
                },
                ByteOrder::Equal => {
                    proof {
                        lemma_entries_put_at(pairs_view(old_pairs), key@, value@, i as int, true);
                    }
                    let ghost pair_view = (key@, value@);
                    self.entries[i] = (key, value);
                    proof {
                        lemma_pairs_view_update(
                            old_pairs,
                            i as int,
                            self.entries@[i as int],
                        );
                        assert(self@ =~= entries_put(
                            pairs_view(old_pairs),
                            pair_view.0,
                            pair_view.1,
                        ));
                    }
                    return ;
                },
                ByteOrder::Greater => {
                    proof {
                        lemma_entries_put_at(pairs_view(old_pairs), key@, value@, i as int, false);
                    }
                    let ghost pair_view = (key@, value@);
                    self.entries.insert(i, (key, value));
                    proof {
                        lemma_pairs_view_insert(old_pairs, i as int, self.entries@[i as int]);
                        assert(self@ =~= entries_put(
                            pairs_view(old_pairs),
                            pair_view.0,
                            pair_view.1,
                        ));
                    }
                    return ;
                },
            }
        }
    }
}

} // verus!
