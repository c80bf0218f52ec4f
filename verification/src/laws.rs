//! The codec's laws: decoding the canonical encoding of any well-formed frame
//! yields that frame and consumes exactly its bytes, whatever follows in the
//! buffer; and every proper prefix of such an encoding decodes to
//! `Incomplete`, so a streaming caller can always retry after appending more
//! bytes.

use vstd::prelude::*;

use crate::bytes::{lemma_lex_total, lex_lt};
use crate::decode::{
    int_value, len_value, spec_parse, spec_parse_items, spec_parse_pairs, Parsed,
};
use crate::encode::{crlf, dec_int, encode_items_from, encode_pairs_from, encode_spec};
use crate::frame::{entries_has, entries_put, entries_sorted, entries_wf, frame_wf, frames_wf, FrameSpec};
use crate::grammar::{
    crlf_at, dec_of, digits_val, find_crlf_from, lemma_dec_of_shape, lemma_dec_of_val,
    lemma_double_text_line_ok, lemma_find_crlf_at, lemma_find_crlf_none, line_ok, CR, LF,
    MAX_SIZE,
};

verus! {

broadcast use vstd::seq::group_seq_axioms, vstd::std_specs::vec::group_vec_axioms;

/// A tagged line followed by a tail, as every wire form starts.
pub open spec fn line_frame(tag: u8, line: Seq<u8>, tail: Seq<u8>) -> Seq<u8> {
    seq![tag] + line + crlf() + tail
}

/// How a tagged line decomposes: the scan finds the terminator right after
/// the line, and the pieces read back exactly.
proof fn lemma_line_header(tag: u8, line: Seq<u8>, tail: Seq<u8>)
    requires
        line_ok(line),
    ensures
        line_frame(tag, line, tail).len() == line.len() + 3 + tail.len(),
        line_frame(tag, line, tail)[0] == tag,
        find_crlf_from(line_frame(tag, line, tail), 1) == Option::Some(1 + line.len() as int),
        line_frame(tag, line, tail).subrange(1, 1 + line.len() as int) =~= line,
        line_frame(tag, line, tail).subrange(
            line.len() + 3int,
            line_frame(tag, line, tail).len() as int,
        ) =~= tail,
{
    let b = line_frame(tag, line, tail);
    let p = 1 + line.len() as int;
    assert(b[p] == CR && b[p + 1] == LF);
    assert(crlf_at(b, p));
    assert forall|j: int| 1 <= j < p implies !crlf_at(b, j) by {
        assert(b[j] == line[j - 1]);
    }
    lemma_find_crlf_at(b, 1, p);
}

/// A proper prefix of a tagged line (the terminator not yet complete) has no
/// terminator to find.
proof fn lemma_line_header_prefix(tag: u8, line: Seq<u8>, k: int)
    requires
        line_ok(line),
        1 <= k <= line.len() + 2,
    ensures
        find_crlf_from(line_frame(tag, line, Seq::empty()).take(k), 1) is None,
{
    let b = line_frame(tag, line, Seq::empty()).take(k);
    assert forall|j: int| 1 <= j implies !crlf_at(b, j) by {
        if j + 2 <= k {
            assert(j <= line.len());
            assert(b[j] == line[j - 1]);
        }
    }
    lemma_find_crlf_none(b, 1);
}

/// The decimal text of an integer reads back as that integer, and is
/// line-safe.
proof fn lemma_int_line(v: int)
    requires
        -0x8000000000000000 <= v <= 0x7fffffffffffffff,
    ensures
        int_value(dec_int(v)) == Option::Some(v),
        line_ok(dec_int(v)),
{
    let line = dec_int(v);
    if v >= 0 {
        lemma_dec_of_shape(v as nat);
        lemma_dec_of_val(v as nat);
        assert(crate::grammar::is_digit(line[0]));
        assert(line_ok(line)) by {
            assert(forall|i: int|
                0 <= i < line.len() ==> crate::grammar::is_digit(#[trigger] line[i]));
        }
    } else {
        let m = (-v) as nat;
        lemma_dec_of_shape(m);
        lemma_dec_of_val(m);
        let ds = line.subrange(1, line.len() as int);
        assert(ds =~= dec_of(m));
        assert(line[0] == 45);
        assert(line_ok(line)) by {
            assert forall|i: int| 0 <= i < line.len() implies line[i] != CR && line[i] != LF by {
                if i > 0 {
                    assert(line[i] == dec_of(m)[i - 1]);
                    assert(crate::grammar::is_digit(dec_of(m)[i - 1]));
                }
            }
        }
        assert(int_value(line) == Option::Some(-digits_val(ds)));
    }
}

/// The decimal text of a length reads back as that length, is line-safe, and
/// is not the null sentinel.
proof fn lemma_len_line(n: int)
    requires
        0 <= n <= MAX_SIZE,
    ensures
        len_value(dec_of(n as nat)) == Option::Some(n),
        line_ok(dec_of(n as nat)),
        dec_of(n as nat) != seq![45u8, 49u8],
{
    let line = dec_of(n as nat);
    lemma_dec_of_shape(n as nat);
    lemma_dec_of_val(n as nat);
    assert(line_ok(line)) by {
        assert(forall|i: int| 0 <= i < line.len() ==> crate::grammar::is_digit(#[trigger] line[i]));
    }
    assert(crate::grammar::is_digit(line[0]));
    assert(seq![45u8, 49u8][0] == 45u8);
    if line == seq![45u8, 49u8] {
        assert(line[0] == 45);
    }
}

/// Round trip with an arbitrary continuation: parsing the canonical encoding
/// of a well-formed frame, whatever bytes follow it, yields exactly that
/// frame and consumes exactly the encoding.
pub proof fn lemma_parse_encode(f: FrameSpec, rest: Seq<u8>)
    requires
        frame_wf(f),
    ensures
        spec_parse(encode_spec(f) + rest) == Parsed::<FrameSpec>::Done(
            f,
            encode_spec(f).len() as int,
        ),
    decreases f, 0int,
{
    let b = encode_spec(f) + rest;
    match f {
        FrameSpec::SimpleString(s) => {
            assert(b =~= line_frame(43u8, s, rest));
            lemma_line_header(43u8, s, rest);
        },
        FrameSpec::Error(s) => {
            assert(b =~= line_frame(45u8, s, rest));
            lemma_line_header(45u8, s, rest);
        },
        FrameSpec::Integer(v) => {
            lemma_int_line(v as int);
            assert(b =~= line_frame(58u8, dec_int(v as int), rest));
            lemma_line_header(58u8, dec_int(v as int), rest);
            assert(spec_parse(b) == Parsed::<FrameSpec>::Done(
                FrameSpec::Integer(v as int as i64),
                dec_int(v as int).len() + 3int,
            ));
            assert(v as int as i64 == v);
        },
        FrameSpec::Boolean(v) => {
            let line: Seq<u8> = if v {
                seq![116u8]
            } else {
                seq![102u8]
            };
            assert(line_ok(line));
            assert(b =~= line_frame(35u8, line, rest));
            lemma_line_header(35u8, line, rest);
            if v {
                assert(b.subrange(1, 2) == seq![116u8]);
            } else {
                assert(b.subrange(1, 2) == seq![102u8]);
                assert(b.subrange(1, 2) != seq![116u8]) by {
                    assert(seq![102u8][0] == 102u8 && seq![116u8][0] == 116u8);
                }
            }
        },
        FrameSpec::Null => {
            assert(b =~= line_frame(95u8, Seq::empty(), rest));
            lemma_line_header(95u8, Seq::empty(), rest);
        },
        FrameSpec::Double(t) => {
            lemma_double_text_line_ok(t);
            assert(b =~= line_frame(44u8, t, rest));
            lemma_line_header(44u8, t, rest);
        },
        FrameSpec::NullBulkString => {
            let line = seq![45u8, 49u8];
            assert(line_ok(line)) by {
                assert(line[0] == 45u8 && line[1] == 49u8);
            }
            assert(b =~= line_frame(36u8, line, rest));
            lemma_line_header(36u8, line, rest);
            assert(b.subrange(1, 3) == line);
        },
        FrameSpec::NullArray => {
            let line = seq![45u8, 49u8];
            assert(line_ok(line)) by {
                assert(line[0] == 45u8 && line[1] == 49u8);
            }
            assert(b =~= line_frame(42u8, line, rest));
            lemma_line_header(42u8, line, rest);
            assert(b.subrange(1, 3) == line);
        },
        FrameSpec::BulkError(d) => {
            lemma_parse_bulk(33u8, d, rest);
        },
        FrameSpec::BulkString(d) => {
            lemma_parse_bulk(36u8, d, rest);
        },
        FrameSpec::Array(items) => {
            lemma_parse_aggregate(42u8, items, rest);
        },
        FrameSpec::SetFrame(items) => {
            lemma_parse_aggregate(126u8, items, rest);
        },
        FrameSpec::MapFrame(es) => {
            let line = dec_of(es.len());
            lemma_len_line(es.len() as int);
            let hdr = line.len() + 3;
            assert(b =~= line_frame(37u8, line, encode_pairs_from(es, 0) + rest));
            lemma_line_header(37u8, line, encode_pairs_from(es, 0) + rest);
            crate::frame::lemma_entries_wf_iff(es);
            lemma_parse_pairs_encode(es, 0, rest);
            assert(es.subrange(0, 0) =~= Seq::<(Seq<u8>, FrameSpec)>::empty());
            assert(b.subrange(hdr as int, b.len() as int) =~= encode_pairs_from(es, 0) + rest);
        },
    }
}

/// The bulk forms: tag, decimal length, terminator, payload, terminator.
proof fn lemma_parse_bulk(tag: u8, d: Seq<u8>, rest: Seq<u8>)
    requires
        tag == 33u8 || tag == 36u8,
        d.len() <= MAX_SIZE,
    ensures
        spec_parse(seq![tag] + dec_of(d.len()) + crlf() + d + crlf() + rest)
            == Parsed::<FrameSpec>::Done(
            if tag == 33u8 {
                FrameSpec::BulkError(d)
            } else {
                FrameSpec::BulkString(d)
            },
            dec_of(d.len()).len() + d.len() + 5int,
        ),
{
    let line = dec_of(d.len());
    lemma_len_line(d.len() as int);
    let b = seq![tag] + line + crlf() + d + crlf() + rest;
    let tail = d + crlf() + rest;
    assert(b =~= line_frame(tag, line, tail));
    lemma_line_header(tag, line, tail);
    let hdr = line.len() + 3;
    let n = d.len() as int;
    assert(b.subrange(1, 1 + line.len() as int) =~= line);
    assert(b.len() >= hdr + n + 2);
    assert(b[hdr + n] == CR && b[hdr + n + 1] == LF) by {
        assert(b.subrange(hdr as int, b.len() as int) =~= tail);
        assert(tail[n] == CR && tail[n + 1] == LF);
    }
    assert(b.subrange(hdr as int, hdr + n) =~= d) by {
        assert(b.subrange(hdr as int, b.len() as int) =~= tail);
        assert(forall|j: int| 0 <= j < n ==> b[hdr + j] == #[trigger] tail[j]);
        assert(forall|j: int| 0 <= j < n ==> tail[j] == #[trigger] d[j]);
    }
}

/// The array and set forms: tag, decimal count, terminator, elements.
proof fn lemma_parse_aggregate(tag: u8, items: Seq<FrameSpec>, rest: Seq<u8>)
    requires
        tag == 42u8 || tag == 126u8,
        items.len() <= MAX_SIZE,
        frames_wf(items),
    ensures
        spec_parse(seq![tag] + dec_of(items.len()) + crlf() + encode_items_from(items, 0) + rest)
            == Parsed::<FrameSpec>::Done(
            if tag == 42u8 {
                FrameSpec::Array(items)
            } else {
                FrameSpec::SetFrame(items)
            },
            dec_of(items.len()).len() + 3int + encode_items_from(items, 0).len(),
        ),
    decreases items, items.len() + 1,
{
    let line = dec_of(items.len());
    lemma_len_line(items.len() as int);
    let b = seq![tag] + line + crlf() + encode_items_from(items, 0) + rest;
    let tail = encode_items_from(items, 0) + rest;
    assert(b =~= line_frame(tag, line, tail));
    lemma_line_header(tag, line, tail);
    let hdr = line.len() + 3;
    crate::frame::lemma_frames_wf_iff(items);
    lemma_parse_items_encode(items, 0, rest);
    assert(items.subrange(0, items.len() as int) =~= items);
    assert(b.subrange(hdr as int, b.len() as int) =~= tail);
}

/// Parsing the encodings of `items[i..]`, whatever follows, yields exactly
/// those frames and consumes exactly their encodings.
proof fn lemma_parse_items_encode(items: Seq<FrameSpec>, i: int, rest: Seq<u8>)
    requires
        0 <= i <= items.len(),
        frames_wf_from(items, i),
    ensures
        spec_parse_items(encode_items_from(items, i) + rest, items.len() - i)
            == Parsed::<Seq<FrameSpec>>::Done(
            items.subrange(i, items.len() as int),
            encode_items_from(items, i).len() as int,
        ),
    decreases items, items.len() - i,
{
    let b = encode_items_from(items, i) + rest;
    if i == items.len() {
        assert(encode_items_from(items, i).len() == 0);
        assert(items.subrange(i, items.len() as int) =~= Seq::<FrameSpec>::empty());
    } else {
        let child = encode_spec(items[i]);
        let after = encode_items_from(items, i + 1);
        assert(b =~= child + (after + rest));
        lemma_parse_encode(items[i], after + rest);
        assert(spec_parse(b) == Parsed::<FrameSpec>::Done(items[i], child.len() as int));
        assert(b.subrange(child.len() as int, b.len() as int) =~= after + rest);
        lemma_parse_items_encode(items, i + 1, rest);
        assert(items.subrange(i, items.len() as int) =~= seq![items[i]] + items.subrange(
            i + 1,
            items.len() as int,
        ));
    }
}

/// `frames_wf` restricted to the suffix that starts at `i`.
pub open spec fn frames_wf_from(items: Seq<FrameSpec>, i: int) -> bool {
    forall|j: int| i <= j < items.len() ==> frame_wf(#[trigger] items[j])
}

/// Parsing the encodings of the entries `es[i..]`, the first `i` already
/// collected, yields all of `es` and consumes exactly those encodings.
proof fn lemma_parse_pairs_encode(es: Seq<(Seq<u8>, FrameSpec)>, i: int, rest: Seq<u8>)
    requires
        0 <= i <= es.len(),
        entries_sorted(es),
        entries_wf_from(es, i),
    ensures
        spec_parse_pairs(encode_pairs_from(es, i) + rest, es.len() - i, es.subrange(0, i))
            == Parsed::<Seq<(Seq<u8>, FrameSpec)>>::Done(
            es,
            encode_pairs_from(es, i).len() as int,
        ),
    decreases es, es.len() - i,
{
    let b = encode_pairs_from(es, i) + rest;
    let acc = es.subrange(0, i);
    if i == es.len() {
        assert(encode_pairs_from(es, i).len() == 0);
        assert(acc =~= es);
    } else {
        let k = es[i].0;
        let v = es[i].1;
        let kenc = seq![43u8] + k + crlf();
        let venc = encode_spec(v);
        let after = encode_pairs_from(es, i + 1);
        assert(b =~= (seq![43u8] + k + crlf()) + (venc + (after + rest)));
        assert(line_ok(k) && frame_wf(v));
        let tail1 = venc + (after + rest);
        assert(b =~= line_frame(43u8, k, tail1));
        lemma_line_header(43u8, k, tail1);
        assert(spec_parse(b) == Parsed::<FrameSpec>::Done(
            FrameSpec::SimpleString(k),
            kenc.len() as int,
        ));
        let c1 = kenc.len() as int;
        assert(!entries_has(acc, k)) by {
            lemma_lex_total(k, k);
            if entries_has(acc, k) {
                let w = choose|w: int| 0 <= w < acc.len() && (#[trigger] acc[w]).0 == k;
                assert(acc[w] == es[w]);
                assert(lex_lt(es[w].0, es[i].0));
            }
        }
        assert(b.subrange(c1, b.len() as int) =~= venc + (after + rest));
        lemma_parse_encode(v, after + rest);
        let c2 = venc.len() as int;
        assert(b.subrange(c1 + c2, b.len() as int) =~= after + rest);
        assert(entries_put(acc, k, v) =~= es.subrange(0, i + 1)) by {
            assert forall|j: int| 0 <= j < acc.len() implies lex_lt((#[trigger] acc[j]).0, k) by {
                assert(acc[j] == es[j]);
            }
            crate::frame::lemma_entries_put_append(acc, k, v);
            assert(acc.push((k, v)) =~= es.subrange(0, i + 1));
        }
        lemma_parse_pairs_encode(es, i + 1, rest);
    }
}

/// `entries_wf` restricted to the suffix that starts at `i`.
pub open spec fn entries_wf_from(es: Seq<(Seq<u8>, FrameSpec)>, i: int) -> bool {
    forall|j: int| i <= j < es.len() ==> line_ok((#[trigger] es[j]).0) && frame_wf(es[j].1)
}

/// Round trip: decoding the canonical encoding of any well-formed frame
/// yields exactly that frame and consumes exactly the encoding's length.
pub proof fn lemma_round_trip(f: FrameSpec)
    requires
        frame_wf(f),
    ensures
        spec_parse(encode_spec(f)) == Parsed::<FrameSpec>::Done(f, encode_spec(f).len() as int),
{
    lemma_parse_encode(f, Seq::empty());
    assert(encode_spec(f) + Seq::<u8>::empty() =~= encode_spec(f));
}

/// A prefix of a tagged-line wire form that is shorter than the full header
/// has nothing but the tag and a partial line: the parse wants more bytes.
proof fn lemma_header_prefix_incomplete(tag: u8, line: Seq<u8>, tail: Seq<u8>, k: int)
    requires
        line_ok(line),
        1 <= k <= line.len() + 2,
    ensures
        find_crlf_from(line_frame(tag, line, tail).take(k), 1) is None,
        line_frame(tag, line, tail).take(k)[0] == tag,
{
    let whole = line_frame(tag, line, tail);
    let cut = line_frame(tag, line, Seq::empty());
    assert(whole.take(k) =~= cut.take(k)) by {
        assert(forall|j: int| 0 <= j < k ==> whole[j] == #[trigger] cut[j]);
    }
    lemma_line_header_prefix(tag, line, k);
}

/// A prefix that already holds the full header line decomposes like the whole
/// buffer does.
proof fn lemma_header_prefix_found(tag: u8, line: Seq<u8>, tail: Seq<u8>, k: int)
    requires
        line_ok(line),
        line.len() + 3 <= k <= line_frame(tag, line, tail).len(),
    ensures
        find_crlf_from(line_frame(tag, line, tail).take(k), 1) == Option::Some(
            1 + line.len() as int,
        ),
        line_frame(tag, line, tail).take(k)[0] == tag,
        line_frame(tag, line, tail).take(k).subrange(1, 1 + line.len() as int) =~= line,
        line_frame(tag, line, tail).take(k).subrange(line.len() + 3int, k) =~= tail.take(
            k - line.len() - 3,
        ),
{
    let whole = line_frame(tag, line, tail);
    let b = whole.take(k);
    let p = 1 + line.len() as int;
    assert(b[p] == CR && b[p + 1] == LF);
    assert(crlf_at(b, p));
    assert forall|j: int| 1 <= j < p implies !crlf_at(b, j) by {
        assert(b[j] == line[j - 1]);
    }
    lemma_find_crlf_at(b, 1, p);
}

/// Every proper prefix of the canonical encoding of a well-formed frame
/// parses to `Incomplete`: appending the remaining bytes always completes it.
pub proof fn lemma_parse_prefix(f: FrameSpec, k: int)
    requires
        frame_wf(f),
        0 <= k < encode_spec(f).len(),
    ensures
        spec_parse(encode_spec(f).take(k)) is Incomplete,
    decreases f, 0int,
{
    let enc = encode_spec(f);
    let b = enc.take(k);
    if k == 0 {
        assert(b.len() == 0);
    } else {
        match f {
            FrameSpec::SimpleString(s) => {
                assert(enc =~= line_frame(43u8, s, Seq::empty()));
                lemma_header_prefix_incomplete(43u8, s, Seq::empty(), k);
            },
            FrameSpec::Error(s) => {
                assert(enc =~= line_frame(45u8, s, Seq::empty()));
                lemma_header_prefix_incomplete(45u8, s, Seq::empty(), k);
            },
            FrameSpec::Integer(v) => {
                lemma_int_line(v as int);
                assert(enc =~= line_frame(58u8, dec_int(v as int), Seq::empty()));
                lemma_header_prefix_incomplete(58u8, dec_int(v as int), Seq::empty(), k);
            },
            FrameSpec::Boolean(v) => {
                let line: Seq<u8> = if v {
                    seq![116u8]
                } else {
                    seq![102u8]
                };
                assert(line_ok(line));
                assert(enc =~= line_frame(35u8, line, Seq::empty()));
                lemma_header_prefix_incomplete(35u8, line, Seq::empty(), k);
            },
            FrameSpec::Null => {
                assert(enc =~= line_frame(95u8, Seq::empty(), Seq::empty()));
                lemma_header_prefix_incomplete(95u8, Seq::empty(), Seq::empty(), k);
            },
            FrameSpec::Double(t) => {
                lemma_double_text_line_ok(t);
                assert(enc =~= line_frame(44u8, t, Seq::empty()));
                lemma_header_prefix_incomplete(44u8, t, Seq::empty(), k);
            },
            FrameSpec::NullBulkString => {
                let line = seq![45u8, 49u8];
                assert(line_ok(line)) by {
                    assert(line[0] == 45u8 && line[1] == 49u8);
                }
                assert(enc =~= line_frame(36u8, line, Seq::empty()));
                lemma_header_prefix_incomplete(36u8, line, Seq::empty(), k);
            },
            FrameSpec::NullArray => {
                let line = seq![45u8, 49u8];
                assert(line_ok(line)) by {
                    assert(line[0] == 45u8 && line[1] == 49u8);
                }
                assert(enc =~= line_frame(42u8, line, Seq::empty()));
                lemma_header_prefix_incomplete(42u8, line, Seq::empty(), k);
            },
            FrameSpec::BulkError(d) => {
                lemma_bulk_prefix(33u8, d, k);
            },
            FrameSpec::BulkString(d) => {
                lemma_bulk_prefix(36u8, d, k);
            },
            FrameSpec::Array(items) => {
                crate::frame::lemma_frames_wf_iff(items);
                lemma_aggregate_prefix(42u8, items, k);
            },
            FrameSpec::SetFrame(items) => {
                crate::frame::lemma_frames_wf_iff(items);
                lemma_aggregate_prefix(126u8, items, k);
            },
            FrameSpec::MapFrame(es) => {
                let line = dec_of(es.len());
                lemma_len_line(es.len() as int);
                let hdr = line.len() + 3;
                let body = encode_pairs_from(es, 0);
                assert(enc =~= line_frame(37u8, line, body));
                if k <= line.len() + 2 {
                    lemma_header_prefix_incomplete(37u8, line, body, k);
                } else {
                    lemma_header_prefix_found(37u8, line, body, k);
                    assert(b.subrange(1, 1 + line.len() as int) =~= line);
                    crate::frame::lemma_entries_wf_iff(es);
                    assert(es.subrange(0, 0) =~= Seq::<(Seq<u8>, FrameSpec)>::empty());
                    lemma_parse_pairs_prefix(es, 0, k - hdr);
                    assert(b.subrange(hdr as int, b.len() as int) =~= body.take(k - hdr));
                }
            },
        }
    }
}

/// A proper prefix of a bulk form parses to `Incomplete`: either the header
/// line is cut, or the payload with its terminator has not fully arrived.
proof fn lemma_bulk_prefix(tag: u8, d: Seq<u8>, k: int)
    requires
        tag == 33u8 || tag == 36u8,
        d.len() <= MAX_SIZE,
        1 <= k < dec_of(d.len()).len() + d.len() + 5,
    ensures
        spec_parse((seq![tag] + dec_of(d.len()) + crlf() + d + crlf()).take(k)) is Incomplete,
{
    let line = dec_of(d.len());
    lemma_len_line(d.len() as int);
    let tail = d + crlf();
    let enc = seq![tag] + line + crlf() + d + crlf();
    assert(enc =~= line_frame(tag, line, tail));
    let b = enc.take(k);
    assert(b =~= line_frame(tag, line, tail).take(k));
    if k <= line.len() + 2 {
        lemma_header_prefix_incomplete(tag, line, tail, k);
    } else {
        lemma_header_prefix_found(tag, line, tail, k);
        assert(b.subrange(1, 1 + line.len() as int) =~= line);
        assert(b.len() == k < line.len() + 3 + d.len() + 2);
    }
}

/// A proper prefix of an array or set form parses to `Incomplete`.
proof fn lemma_aggregate_prefix(tag: u8, items: Seq<FrameSpec>, k: int)
    requires
        tag == 42u8 || tag == 126u8,
        items.len() <= MAX_SIZE,
        frames_wf_from(items, 0),
        1 <= k < dec_of(items.len()).len() + 3 + encode_items_from(items, 0).len(),
    ensures
        spec_parse(
            (seq![tag] + dec_of(items.len()) + crlf() + encode_items_from(items, 0)).take(k),
        ) is Incomplete,
    decreases items, items.len() + 1,
{
    let line = dec_of(items.len());
    lemma_len_line(items.len() as int);
    let body = encode_items_from(items, 0);
    let enc = seq![tag] + line + crlf() + body;
    assert(enc =~= line_frame(tag, line, body));
    let b = enc.take(k);
    assert(b =~= line_frame(tag, line, body).take(k));
    let hdr = line.len() + 3;
    if k <= line.len() + 2 {
        lemma_header_prefix_incomplete(tag, line, body, k);
    } else {
        lemma_header_prefix_found(tag, line, body, k);
        assert(b.subrange(1, 1 + line.len() as int) =~= line);
        lemma_parse_items_prefix(items, 0, k - hdr);
        assert(items.subrange(0, items.len() as int) =~= items);
        assert(b.subrange(hdr as int, b.len() as int) =~= body.take(k - hdr));
    }
}

/// A proper prefix of the encodings of `items[i..]` leaves the sequence parse
/// `Incomplete`.
proof fn lemma_parse_items_prefix(items: Seq<FrameSpec>, i: int, k: int)
    requires
        0 <= i <= items.len(),
        frames_wf_from(items, i),
        0 <= k < encode_items_from(items, i).len(),
    ensures
        spec_parse_items(encode_items_from(items, i).take(k), items.len() - i) is Incomplete,
    decreases items, items.len() - i,
{
    let child = encode_spec(items[i]);
    let after = encode_items_from(items, i + 1);
    let b = encode_items_from(items, i).take(k);
    if k < child.len() {
        assert(b =~= child.take(k));
        lemma_parse_prefix(items[i], k);
        if k == 0 {
            assert(spec_parse(b) is Incomplete);
        }
    } else {
        let k2 = k - child.len();
        assert(b =~= child + after.take(k2));
        lemma_parse_encode(items[i], after.take(k2));
        assert(spec_parse(b) == Parsed::<FrameSpec>::Done(items[i], child.len() as int));
        assert(b.subrange(child.len() as int, b.len() as int) =~= after.take(k2));
        lemma_parse_items_prefix(items, i + 1, k2);
    }
}

/// A proper prefix of the encodings of the entries `es[i..]` leaves the pair
/// parse `Incomplete`.
proof fn lemma_parse_pairs_prefix(es: Seq<(Seq<u8>, FrameSpec)>, i: int, k: int)
    requires
        0 <= i <= es.len(),
        entries_sorted(es),
        entries_wf_from(es, i),
        0 <= k < encode_pairs_from(es, i).len(),
    ensures
        spec_parse_pairs(encode_pairs_from(es, i).take(k), es.len() - i, es.subrange(0, i))
            is Incomplete,
    decreases es, es.len() - i,
{
    let key = es[i].0;
    let v = es[i].1;
    let acc = es.subrange(0, i);
    let kenc = seq![43u8] + key + crlf();
    let venc = encode_spec(v);
    let after = encode_pairs_from(es, i + 1);
    let b = encode_pairs_from(es, i).take(k);
    assert(line_ok(key) && frame_wf(v));
    if k == 0 {
        assert(b.len() == 0);
        assert(spec_parse(b) is Incomplete);
    } else if k < kenc.len() {
        assert(b =~= line_frame(43u8, key, Seq::empty()).take(k)) by {
            assert(forall|j: int|
                0 <= j < k ==> encode_pairs_from(es, i)[j] == #[trigger] line_frame(
                    43u8,
                    key,
                    Seq::empty(),
                )[j]);
        }
        lemma_line_header_prefix(43u8, key, k);
        assert(b[0] == 43u8);
        assert(spec_parse(b) is Incomplete);
    } else {
        let k1 = k - kenc.len();
        assert(b =~= (seq![43u8] + key + crlf()) + (venc + after).take(k1));
        lemma_line_header(43u8, key, (venc + after).take(k1));
        assert(spec_parse(b) == Parsed::<FrameSpec>::Done(
            FrameSpec::SimpleString(key),
            kenc.len() as int,
        ));
        assert(!entries_has(acc, key)) by {
            lemma_lex_total(key, key);
            if entries_has(acc, key) {
                let w = choose|w: int| 0 <= w < acc.len() && (#[trigger] acc[w]).0 == key;
                assert(acc[w] == es[w]);
                assert(lex_lt(es[w].0, es[i].0));
            }
        }
        assert(b.subrange(kenc.len() as int, b.len() as int) =~= (venc + after).take(k1));
        if k1 < venc.len() {
            assert((venc + after).take(k1) =~= venc.take(k1));
            lemma_parse_prefix(v, k1);
            if k1 == 0 {
                assert(spec_parse(venc.take(k1)) is Incomplete);
            }
        } else {
            let k2 = k1 - venc.len();
            assert((venc + after).take(k1) =~= venc + after.take(k2));
            lemma_parse_encode(v, after.take(k2));
            assert((venc + after.take(k2)).subrange(
                venc.len() as int,
                (venc + after.take(k2)).len() as int,
            ) =~= after.take(k2));
            assert(b.subrange(kenc.len() + venc.len() as int, b.len() as int) =~= after.take(k2));
            assert(entries_put(acc, key, v) =~= es.subrange(0, i + 1)) by {
                assert forall|j: int| 0 <= j < acc.len() implies lex_lt(
                    (#[trigger] acc[j]).0,
                    key,
                ) by {
                    assert(acc[j] == es[j]);
                }
                crate::frame::lemma_entries_put_append(acc, key, v);
                assert(acc.push((key, v)) =~= es.subrange(0, i + 1));
            }
            lemma_parse_pairs_prefix(es, i + 1, k2);
        }
    }
}

/// Streaming idempotence: a buffer holding any proper prefix of a well-formed
/// frame's encoding decodes to `Incomplete` and consumes nothing, and once
/// the remaining bytes arrive the whole buffer decodes to exactly that frame.
pub proof fn lemma_prefix_then_complete(f: FrameSpec, k: int)
    requires
        frame_wf(f),
        0 <= k <= encode_spec(f).len(),
    ensures
        k < encode_spec(f).len() ==> spec_parse(encode_spec(f).take(k)) is Incomplete,
        spec_parse(encode_spec(f).take(k) + encode_spec(f).skip(k)) == Parsed::<FrameSpec>::Done(
            f,
            encode_spec(f).len() as int,
        ),
{
    if k < encode_spec(f).len() {
        lemma_parse_prefix(f, k);
    }
    assert(encode_spec(f).take(k) + encode_spec(f).skip(k) =~= encode_spec(f));
    lemma_round_trip(f);
}


/// No partial or invalid frame is ever produced: whatever bytes arrive, a
/// parse that completes yields a well-formed frame, consuming at least a tag
/// with a terminator and at most the whole buffer.
pub proof fn lemma_parse_wf(b: Seq<u8>)
    ensures
        spec_parse(b) matches Parsed::Done(f, c) ==> frame_wf(f) && 3 <= c <= b.len(),
    decreases b.len(), 0int,
{
    if b.len() == 0 {
    } else {
        let tag = b[0];
        match find_crlf_from(b, 1) {
            Option::None => {},
            Option::Some(i) => {
                if 1 <= i && i + 2 <= b.len() {
                    let hdr = i + 2;
                    if tag == 33 || tag == 36 {
                        let line = b.subrange(1, i);
                        match len_value(line) {
                            Option::None => {},
                            Option::Some(n) => {
                                crate::grammar::lemma_digits_val_nonneg(line);
                            },
                        }
                    }
                    if tag == 42 || tag == 126 || tag == 37 {
                        let line = b.subrange(1, i);
                        match len_value(line) {
                            Option::None => {},
                            Option::Some(n) => {
                                crate::grammar::lemma_digits_val_nonneg(line);
                                let body = b.subrange(hdr, b.len() as int);
                                if tag == 37 {
                                    lemma_parse_pairs_wf(
                                        body,
                                        n,
                                        Seq::empty(),
                                    );
                                } else {
                                    lemma_parse_items_wf(body, n);
                                }
                            },
                        }
                    }
                }
            },
        }
    }
}

proof fn lemma_parse_items_wf(b: Seq<u8>, n: int)
    ensures
        spec_parse_items(b, n) matches Parsed::Done(fs, c) ==> frames_wf(fs) && fs.len() == (
        if n >= 0 {
            n
        } else {
            0
        }) && 0 <= c <= b.len(),
    decreases b.len(), n,
{
    if n <= 0 {
        crate::frame::lemma_frames_wf_iff(Seq::empty());
    } else {
        lemma_parse_wf(b);
        match spec_parse(b) {
            Parsed::Done(f, c) => {
                if 0 <= c <= b.len() {
                    let rest = b.subrange(c, b.len() as int);
                    lemma_parse_items_wf(rest, n - 1);
                    match spec_parse_items(rest, n - 1) {
                        Parsed::Done(fs, c2) => {
                            crate::frame::lemma_frames_wf_iff(fs);
                            crate::frame::lemma_frames_wf_iff(seq![f] + fs);
                            assert forall|j: int| 0 <= j < (seq![f] + fs).len() implies frame_wf(
                                #[trigger] (seq![f] + fs)[j],
                            ) by {
                                if j > 0 {
                                    assert((seq![f] + fs)[j] == fs[j - 1]);
                                }
                            }
                        },
                        _ => {},
                    }
                }
            },
            _ => {},
        }
    }
}

proof fn lemma_parse_pairs_wf(b: Seq<u8>, n: int, acc: Seq<(Seq<u8>, FrameSpec)>)
    requires
        entries_sorted(acc),
        entries_wf(acc),
    ensures
        spec_parse_pairs(b, n, acc) matches Parsed::Done(es, c) ==> entries_sorted(es)
            && entries_wf(es) && es.len() <= acc.len() + (if n >= 0 {
            n
        } else {
            0
        }) && 0 <= c <= b.len(),
    decreases b.len(), n,
{
    if n <= 0 {
    } else {
        lemma_parse_wf(b);
        match spec_parse(b) {
            Parsed::Done(kf, c1) => {
                if 0 <= c1 <= b.len() {
                    match kf {
                        FrameSpec::SimpleString(k) => {
                            if !entries_has(acc, k) {
                                let rest = b.subrange(c1, b.len() as int);
                                lemma_parse_wf(rest);
                                match spec_parse(rest) {
                                    Parsed::Done(vf, c2) => {
                                        if 0 <= c2 <= b.len() - c1 {
                                            crate::frame::lemma_entries_put_sorted(acc, k, vf);
                                            crate::frame::lemma_entries_put_wf(acc, k, vf);
                                            lemma_parse_pairs_wf(
                                                b.subrange(c1 + c2, b.len() as int),
                                                n - 1,
                                                entries_put(acc, k, vf),
                                            );
                                        }
                                    },
                                    _ => {},
                                }
                            }
                        },
                        _ => {},
                    }
                }
            },
            _ => {},
        }
    }
}


} // verus!
