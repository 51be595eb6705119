//! The codec's laws: a well-formed frame's encoding parses back to the same
//! frame (also when more bytes follow, as pipelined requests do), and every
//! strict prefix of it is reported as incomplete, never as malformed.

use vstd::prelude::*;

use crate::num::{dec_int, digits_val, i64_text_valid, num_body, num_neg, text_value};
use crate::num::{lemma_dec_int_no_crlf, lemma_dec_int_valid};
use crate::resp::{
    crlf, depth_seq, encoding, encoding_seq, find_crlf, frame_depth, frame_wf, line_ok,
    parse_array_at, parse_at, parse_bulk_at, parse_elems_at, parse_error_at, parse_integer_at,
    parse_simple_at, ElemsOut, FrameModel, ParseOut, MAX_DEPTH,
};
use crate::resp::{
    lemma_depth_seq_bound, lemma_find_crlf_at, lemma_find_crlf_none,
};

verus! {

/// A full line (payload plus terminator) sits at `p`: the scan finds exactly
/// its terminator, and the payload reads back unchanged.
proof fn lemma_line_found(s: Seq<u8>, p: int, c: Seq<u8>)
    requires
        0 <= p,
        p + c.len() + 2 <= s.len(),
        forall|i: int| 0 <= i < c.len() ==> s[p + i] == #[trigger] c[i],
        s[p + c.len()] == 13,
        s[p + c.len() + 1] == 10,
        line_ok(c),
    ensures
        find_crlf(s, p) == Some(p + c.len() as int),
        s.subrange(p, p + c.len() as int) == c,
{
    assert forall|j: int| #![trigger s[j]] p <= j < p + c.len() implies !(s[j] == 13 && s[j + 1]
        == 10) by {
        let a = j - p;
        if a < c.len() - 1 {
            assert(s[j] == c[a]);
            assert(s[j + 1] == c[a + 1]);
        } else {
            assert(s[j + 1] == 13);
        }
    }
    lemma_find_crlf_at(s, p, p + c.len() as int);
    assert(s.subrange(p, p + c.len() as int) =~= c);
}

/// The buffer ends inside a line (payload or terminator): the scan finds no
/// terminator at all.
proof fn lemma_line_prefix_none(s: Seq<u8>, p: int, c: Seq<u8>)
    requires
        0 <= p <= s.len(),
        s.len() - p < c.len() + 2,
        forall|i: int| 0 <= i < s.len() - p ==> s[p + i] == #[trigger] (c + crlf())[i],
        line_ok(c),
    ensures
        find_crlf(s, p) is None,
{
    assert forall|j: int| #![trigger s[j]] p <= j < s.len() - 1 implies !(s[j] == 13 && s[j + 1]
        == 10) by {
        let a = j - p;
        assert(s[j] == (c + crlf())[a]);
        assert(s[j + 1] == (c + crlf())[a + 1]);
        if a + 1 < c.len() {
            assert((c + crlf())[a] == c[a]);
            assert((c + crlf())[a + 1] == c[a + 1]);
        } else {
            assert(a + 1 == c.len());
            assert((c + crlf())[a + 1] == 13);
        }
    }
    lemma_find_crlf_none(s, p);
}

/// The text "-1" is a valid number and denotes minus one.
proof fn lemma_minus_one_text()
    ensures
        i64_text_valid(seq![45u8, 49u8]),
        text_value(seq![45u8, 49u8]) == -1,
{
    let t = seq![45u8, 49u8];
    assert(num_neg(t));
    assert(num_body(t) =~= seq![49u8]);
    assert(seq![49u8].drop_last() =~= Seq::<u8>::empty());
    assert(digits_val(Seq::<u8>::empty()) == 0);
    assert(seq![49u8].last() == 49);
    assert(digits_val(seq![49u8]) == digits_val(seq![49u8].drop_last()) * 10 + (seq![49u8].last()
        - 48));
}

/// A well-formed frame's encoding, written at `pos` in a buffer, parses from
/// `pos` to exactly that frame, ending just past the encoding.
pub proof fn lemma_parse_at_encoding(s: Seq<u8>, pos: int, m: FrameModel, depth: nat)
    requires
        frame_wf(m),
        frame_depth(m) <= depth,
        0 <= pos,
        pos + encoding(m).len() <= s.len(),
        s.subrange(pos, pos + encoding(m).len() as int) == encoding(m),
    ensures
        parse_at(s, pos, depth) == ParseOut::Found(m, pos + encoding(m).len() as int),
    decreases m,
{
    let enc = encoding(m);
    let el = enc.len() as int;
    assert forall|i: int| 0 <= i < el implies s[pos + i] == #[trigger] enc[i] by {
        assert(s.subrange(pos, pos + el)[i] == s[pos + i]);
    }
    match m {
        FrameModel::SimpleString(c) => {
            assert(enc == seq![43u8] + c + crlf());
            assert(enc[0] == 43);
            assert(s[pos] == enc[0]);
            assert forall|i: int| 0 <= i < c.len() implies s[pos + 1 + i] == #[trigger] c[i] by {
                assert(enc[1 + i] == c[i]);
            }
            assert(enc[1 + c.len() as int] == 13);
            assert(enc[2 + c.len() as int] == 10);
            lemma_line_found(s, pos + 1, c);
            assert(parse_simple_at(s, pos + 1) == ParseOut::Found(m, pos + el));
        },
        FrameModel::SimpleError(c) => {
            assert(enc == seq![45u8] + c + crlf());
            assert(enc[0] == 45);
            assert(s[pos] == enc[0]);
            assert forall|i: int| 0 <= i < c.len() implies s[pos + 1 + i] == #[trigger] c[i] by {
                assert(enc[1 + i] == c[i]);
            }
            assert(enc[1 + c.len() as int] == 13);
            assert(enc[2 + c.len() as int] == 10);
            lemma_line_found(s, pos + 1, c);
            assert(parse_error_at(s, pos + 1) == ParseOut::Found(m, pos + el));
        },
        FrameModel::Integer(v) => {
            let c = dec_int(v);
            assert(enc == seq![58u8] + c + crlf());
            assert(enc[0] == 58);
            assert(s[pos] == enc[0]);
            lemma_dec_int_no_crlf(v);
            assert forall|i: int| 0 <= i < c.len() implies s[pos + 1 + i] == #[trigger] c[i] by {
                assert(enc[1 + i] == c[i]);
            }
            assert(enc[1 + c.len() as int] == 13);
            assert(enc[2 + c.len() as int] == 10);
            lemma_line_found(s, pos + 1, c);
            lemma_dec_int_valid(v);
            assert(parse_integer_at(s, pos + 1) == ParseOut::Found(m, pos + el));
        },
        FrameModel::Null => {
            assert(enc == seq![36u8, 45u8, 49u8] + crlf());
            assert(enc[0] == 36);
            assert(s[pos] == enc[0]);
            let c = seq![45u8, 49u8];
            assert forall|i: int| 0 <= i < c.len() implies s[pos + 1 + i] == #[trigger] c[i] by {
                assert(enc[1 + i] == c[i]);
            }
            assert(enc[3] == 13);
            assert(enc[4] == 10);
            lemma_line_found(s, pos + 1, c);
            lemma_minus_one_text();
            assert(parse_bulk_at(s, pos + 1) == ParseOut::Found(m, pos + el));
        },
        FrameModel::BulkString(c) => {
            let n = c.len() as int;
            let d = dec_int(n);
            let dl = d.len() as int;
            assert(enc == seq![36u8] + d + crlf() + c + crlf());
            assert(enc[0] == 36);
            assert(s[pos] == enc[0]);
            lemma_dec_int_no_crlf(n);
            assert forall|i: int| 0 <= i < dl implies s[pos + 1 + i] == #[trigger] d[i] by {
                assert(enc[1 + i] == d[i]);
            }
            assert(enc[1 + dl] == 13);
            assert(enc[2 + dl] == 10);
            lemma_line_found(s, pos + 1, d);
            lemma_dec_int_valid(n);
            let end = pos + 1 + dl;
            assert(end + 2 + n + 2 == pos + el);
            assert forall|i: int| 0 <= i < n implies s[end + 2 + i] == #[trigger] c[i] by {
                assert(enc[3 + dl + i] == c[i]);
            }
            assert(s[end + 2 + n] == 13) by {
                assert(enc[3 + dl + n] == 13);
            }
            assert(s[end + 2 + n + 1] == 10) by {
                assert(enc[3 + dl + n + 1] == 10);
            }
            assert(s.subrange(end + 2, end + 2 + n) =~= c);
            assert(parse_bulk_at(s, pos + 1) == ParseOut::Found(m, pos + el));
        },
        FrameModel::Array(ms) => {
            let n = ms.len() as int;
            let d = dec_int(n);
            let dl = d.len() as int;
            assert(enc == seq![42u8] + d + crlf() + encoding_seq(ms));
            assert(enc[0] == 42);
            assert(s[pos] == enc[0]);
            lemma_dec_int_no_crlf(n);
            assert forall|i: int| 0 <= i < dl implies s[pos + 1 + i] == #[trigger] d[i] by {
                assert(enc[1 + i] == d[i]);
            }
            assert(enc[1 + dl] == 13);
            assert(enc[2 + dl] == 10);
            lemma_line_found(s, pos + 1, d);
            lemma_dec_int_valid(n);
            let end = pos + 1 + dl;
            let esl = encoding_seq(ms).len() as int;
            assert(end + 2 + esl == pos + el);
            assert forall|i: int| 0 <= i < esl implies s[end + 2 + i] == #[trigger] encoding_seq(
                ms,
            )[i] by {
                assert(enc[3 + dl + i] == encoding_seq(ms)[i]);
            }
            assert(s.subrange(end + 2, end + 2 + esl) =~= encoding_seq(ms));
            assert(frame_depth(m) == 1 + depth_seq(ms));
            lemma_depth_seq_bound(ms);
            assert(depth >= 1);
            lemma_parse_elems_encoding(s, end + 2, ms, (depth - 1) as nat);
            assert(parse_elems_at(s, end + 2, n, (depth - 1) as nat) == ElemsOut::Found(
                ms,
                pos + el,
            ));
            assert(parse_array_at(s, pos + 1, depth) == ParseOut::Found(m, pos + el));
        },
    }
}

/// A row of well-formed frames, written back to back at `pos`, parses element
/// by element to exactly that row.
pub proof fn lemma_parse_elems_encoding(s: Seq<u8>, pos: int, ms: Seq<FrameModel>, depth: nat)
    requires
        forall|i: int| 0 <= i < ms.len() ==> frame_wf(#[trigger] ms[i]) && frame_depth(ms[i])
            <= depth,
        0 <= pos,
        pos + encoding_seq(ms).len() <= s.len(),
        s.subrange(pos, pos + encoding_seq(ms).len() as int) == encoding_seq(ms),
    ensures
        parse_elems_at(s, pos, ms.len() as int, depth) == ElemsOut::Found(
            ms,
            pos + encoding_seq(ms).len() as int,
        ),
    decreases ms,
{
    let es = encoding_seq(ms);
    let esl = es.len() as int;
    assert forall|i: int| 0 <= i < esl implies s[pos + i] == #[trigger] es[i] by {
        assert(s.subrange(pos, pos + esl)[i] == s[pos + i]);
    }
    if ms.len() == 0 {
        assert(parse_elems_at(s, pos, 0, depth) == ElemsOut::Found(Seq::<FrameModel>::empty(), pos));
        assert(ms =~= Seq::<FrameModel>::empty());
    } else {
        let head = ms[0];
        let rest = ms.drop_first();
        let e0 = encoding(head);
        let e0l = e0.len() as int;
        assert(es == e0 + encoding_seq(rest));
        assert forall|i: int| 0 <= i < e0l implies s[pos + i] == #[trigger] e0[i] by {
            assert(es[i] == e0[i]);
        }
        assert(s.subrange(pos, pos + e0l) =~= e0);
        lemma_parse_at_encoding(s, pos, head, depth);
        let pos2 = pos + e0l;
        let rl = encoding_seq(rest).len() as int;
        assert forall|i: int| 0 <= i < rl implies s[pos2 + i] == #[trigger] encoding_seq(rest)[i]
            by {
            assert(es[e0l + i] == encoding_seq(rest)[i]);
        }
        assert(s.subrange(pos2, pos2 + rl) =~= encoding_seq(rest));
        assert forall|i: int| 0 <= i < rest.len() implies frame_wf(#[trigger] rest[i])
            && frame_depth(rest[i]) <= depth by {
            assert(rest[i] == ms[i + 1]);
        }
        lemma_parse_elems_encoding(s, pos2, rest, depth);
        assert(parse_elems_at(s, pos2, rest.len() as int, depth) == ElemsOut::Found(
            rest,
            pos2 + rl,
        ));
        assert(seq![head] + rest =~= ms);
        assert(parse_elems_at(s, pos, ms.len() as int, depth) == ElemsOut::Found(ms, pos + esl));
    }
}

/// The buffer ends strictly inside a well-formed frame's encoding: the parse
/// reports an incomplete frame, never a malformed one.
pub proof fn lemma_parse_at_prefix(s: Seq<u8>, pos: int, m: FrameModel, depth: nat)
    requires
        frame_wf(m),
        frame_depth(m) <= depth,
        0 <= pos <= s.len(),
        s.len() - pos < encoding(m).len(),
        s.subrange(pos, s.len() as int) == encoding(m).subrange(0, s.len() - pos),
    ensures
        parse_at(s, pos, depth) is Incomplete,
    decreases m,
{
    let enc = encoding(m);
    let have = s.len() - pos;
    assert forall|i: int| 0 <= i < have implies s[pos + i] == #[trigger] enc[i] by {
        assert(s.subrange(pos, s.len() as int)[i] == s[pos + i]);
        assert(enc.subrange(0, have)[i] == enc[i]);
    }
    if have == 0 {
        assert(parse_at(s, pos, depth) is Incomplete);
    } else {
        match m {
            FrameModel::SimpleString(c) => {
                assert(enc == seq![43u8] + c + crlf());
                assert(enc[0] == 43);
            assert(s[pos] == enc[0]);
                assert forall|i: int| 0 <= i < s.len() - (pos + 1) implies s[pos + 1 + i]
                    == #[trigger] (c + crlf())[i] by {
                    assert(enc[1 + i] == (c + crlf())[i]);
                }
                lemma_line_prefix_none(s, pos + 1, c);
                assert(parse_simple_at(s, pos + 1) is Incomplete);
            },
            FrameModel::SimpleError(c) => {
                assert(enc == seq![45u8] + c + crlf());
                assert(enc[0] == 45);
            assert(s[pos] == enc[0]);
                assert forall|i: int| 0 <= i < s.len() - (pos + 1) implies s[pos + 1 + i]
                    == #[trigger] (c + crlf())[i] by {
                    assert(enc[1 + i] == (c + crlf())[i]);
                }
                lemma_line_prefix_none(s, pos + 1, c);
                assert(parse_error_at(s, pos + 1) is Incomplete);
            },
            FrameModel::Integer(v) => {
                let c = dec_int(v);
                assert(enc == seq![58u8] + c + crlf());
                assert(enc[0] == 58);
            assert(s[pos] == enc[0]);
                lemma_dec_int_no_crlf(v);
                assert forall|i: int| 0 <= i < s.len() - (pos + 1) implies s[pos + 1 + i]
                    == #[trigger] (c + crlf())[i] by {
                    assert(enc[1 + i] == (c + crlf())[i]);
                }
                lemma_line_prefix_none(s, pos + 1, c);
                assert(parse_integer_at(s, pos + 1) is Incomplete);
            },
            FrameModel::Null => {
                assert(enc == seq![36u8, 45u8, 49u8] + crlf());
                assert(enc[0] == 36);
            assert(s[pos] == enc[0]);
                let c = seq![45u8, 49u8];
                assert forall|i: int| 0 <= i < s.len() - (pos + 1) implies s[pos + 1 + i]
                    == #[trigger] (c + crlf())[i] by {
                    assert(enc[1 + i] == (c + crlf())[i]);
                }
                lemma_line_prefix_none(s, pos + 1, c);
                assert(parse_bulk_at(s, pos + 1) is Incomplete);
            },
            FrameModel::BulkString(c) => {
                let n = c.len() as int;
                let d = dec_int(n);
                let dl = d.len() as int;
                assert(enc == seq![36u8] + d + crlf() + c + crlf());
                assert(enc[0] == 36);
            assert(s[pos] == enc[0]);
                lemma_dec_int_no_crlf(n);
                if have < 1 + dl + 2 {
                    assert forall|i: int| 0 <= i < s.len() - (pos + 1) implies s[pos + 1 + i]
                        == #[trigger] (d + crlf())[i] by {
                        assert(enc[1 + i] == (d + crlf())[i]);
                    }
                    lemma_line_prefix_none(s, pos + 1, d);
                    assert(parse_bulk_at(s, pos + 1) is Incomplete);
                } else {
                    assert forall|i: int| 0 <= i < dl implies s[pos + 1 + i] == #[trigger] d[i] by {
                        assert(enc[1 + i] == d[i]);
                    }
                    assert(s[pos + 1 + dl] == 13) by {
                        assert(enc[1 + dl] == 13);
                    }
                    assert(s[pos + 1 + dl + 1] == 10) by {
                        assert(enc[2 + dl] == 10);
                    }
                    lemma_line_found(s, pos + 1, d);
                    lemma_dec_int_valid(n);
                    let end = pos + 1 + dl;
                    assert(end + 2 + n + 2 == pos + enc.len());
                    assert(end + 2 + n + 2 > s.len());
                    assert(parse_bulk_at(s, pos + 1) is Incomplete);
                }
            },
            FrameModel::Array(ms) => {
                let n = ms.len() as int;
                let d = dec_int(n);
                let dl = d.len() as int;
                assert(enc == seq![42u8] + d + crlf() + encoding_seq(ms));
                assert(enc[0] == 42);
            assert(s[pos] == enc[0]);
                lemma_dec_int_no_crlf(n);
                if have < 1 + dl + 2 {
                    assert forall|i: int| 0 <= i < s.len() - (pos + 1) implies s[pos + 1 + i]
                        == #[trigger] (d + crlf())[i] by {
                        assert(enc[1 + i] == (d + crlf())[i]);
                        assert((d + crlf() + encoding_seq(ms))[i] == (d + crlf())[i]);
                    }
                    lemma_line_prefix_none(s, pos + 1, d);
                    assert(parse_array_at(s, pos + 1, depth) is Incomplete);
                } else {
                    assert forall|i: int| 0 <= i < dl implies s[pos + 1 + i] == #[trigger] d[i] by {
                        assert(enc[1 + i] == d[i]);
                    }
                    assert(s[pos + 1 + dl] == 13) by {
                        assert(enc[1 + dl] == 13);
                    }
                    assert(s[pos + 1 + dl + 1] == 10) by {
                        assert(enc[2 + dl] == 10);
                    }
                    lemma_line_found(s, pos + 1, d);
                    lemma_dec_int_valid(n);
                    let end = pos + 1 + dl;
                    let pos2 = end + 2;
                    let esl = encoding_seq(ms).len() as int;
                    assert(pos2 + esl == pos + enc.len());
                    assert(s.len() - pos2 < esl);
                    assert forall|i: int| 0 <= i < s.len() - pos2 implies s[pos2 + i]
                        == #[trigger] encoding_seq(ms)[i] by {
                        assert(enc[3 + dl + i] == encoding_seq(ms)[i]);
                    }
                    assert(s.subrange(pos2, s.len() as int) =~= encoding_seq(ms).subrange(
                        0,
                        s.len() - pos2,
                    ));
                    assert(frame_depth(m) == 1 + depth_seq(ms));
                    lemma_depth_seq_bound(ms);
                    assert(depth >= 1);
                    lemma_parse_elems_prefix(s, pos2, ms, (depth - 1) as nat);
                    assert(parse_array_at(s, pos + 1, depth) is Incomplete);
                }
            },
        }
    }
}

/// The buffer ends strictly inside a row of well-formed frames: parsing the
/// row reports an incomplete frame.
pub proof fn lemma_parse_elems_prefix(s: Seq<u8>, pos: int, ms: Seq<FrameModel>, depth: nat)
    requires
        forall|i: int| 0 <= i < ms.len() ==> frame_wf(#[trigger] ms[i]) && frame_depth(ms[i])
            <= depth,
        0 <= pos <= s.len(),
        s.len() - pos < encoding_seq(ms).len(),
        s.subrange(pos, s.len() as int) == encoding_seq(ms).subrange(0, s.len() - pos),
    ensures
        parse_elems_at(s, pos, ms.len() as int, depth) is Incomplete,
    decreases ms,
{
    let es = encoding_seq(ms);
    let have = s.len() - pos;
    assert(ms.len() > 0) by {
        if ms.len() == 0 {
            assert(encoding_seq(ms).len() == 0);
        }
    }
    assert forall|i: int| 0 <= i < have implies s[pos + i] == #[trigger] es[i] by {
        assert(s.subrange(pos, s.len() as int)[i] == s[pos + i]);
        assert(es.subrange(0, have)[i] == es[i]);
    }
    let head = ms[0];
    let rest = ms.drop_first();
    let e0 = encoding(head);
    let e0l = e0.len() as int;
    assert(es == e0 + encoding_seq(rest));
    if have < e0l {
        assert forall|i: int| 0 <= i < have implies s[pos + i] == #[trigger] e0[i] by {
            assert(es[i] == e0[i]);
        }
        assert(s.subrange(pos, s.len() as int) =~= e0.subrange(0, have));
        lemma_parse_at_prefix(s, pos, head, depth);
        assert(parse_elems_at(s, pos, ms.len() as int, depth) is Incomplete);
    } else {
        assert forall|i: int| 0 <= i < e0l implies s[pos + i] == #[trigger] e0[i] by {
            assert(es[i] == e0[i]);
        }
        assert(s.subrange(pos, pos + e0l) =~= e0);
        lemma_parse_at_encoding(s, pos, head, depth);
        let pos2 = pos + e0l;
        let rl = encoding_seq(rest).len() as int;
        assert(s.len() - pos2 < rl);
        assert forall|i: int| 0 <= i < s.len() - pos2 implies s[pos2 + i] == #[trigger] encoding_seq(
            rest,
        )[i] by {
            assert(es[e0l + i] == encoding_seq(rest)[i]);
        }
        assert(s.subrange(pos2, s.len() as int) =~= encoding_seq(rest).subrange(
            0,
            s.len() - pos2,
        ));
        assert forall|i: int| 0 <= i < rest.len() implies frame_wf(#[trigger] rest[i])
            && frame_depth(rest[i]) <= depth by {
            assert(rest[i] == ms[i + 1]);
        }
        lemma_parse_elems_prefix(s, pos2, rest, depth);
        assert(parse_elems_at(s, pos2, ms.len() as int - 1, depth) is Incomplete);
        assert(parse_elems_at(s, pos, ms.len() as int, depth) is Incomplete);
    }
}

/// Round trip, with pipelining: a well-formed frame's encoding at the head of
/// a buffer — whatever follows it — parses back to exactly that frame and
/// consumes exactly the encoding.
pub proof fn lemma_round_trip(m: FrameModel, rest: Seq<u8>)
    requires
        frame_wf(m),
        frame_depth(m) <= MAX_DEPTH as nat,
    ensures
        parse_at(encoding(m) + rest, 0, MAX_DEPTH as nat) == ParseOut::Found(
            m,
            encoding(m).len() as int,
        ),
{
    let s = encoding(m) + rest;
    assert(s.subrange(0, encoding(m).len() as int) =~= encoding(m));
    lemma_parse_at_encoding(s, 0, m, MAX_DEPTH as nat);
}

/// Incremental parsing: feeding any strict prefix of a well-formed frame's
/// encoding reports an incomplete frame — never a parse error, and never a
/// bogus success.
pub proof fn lemma_prefix_incomplete(m: FrameModel, k: int)
    requires
        frame_wf(m),
        frame_depth(m) <= MAX_DEPTH as nat,
        0 <= k < encoding(m).len(),
    ensures
        parse_at(encoding(m).subrange(0, k), 0, MAX_DEPTH as nat) is Incomplete,
{
    let p = encoding(m).subrange(0, k);
    assert(p.subrange(0, k) =~= p);
    lemma_parse_at_prefix(p, 0, m, MAX_DEPTH as nat);
}

/// Pipelining: two encodings back to back in one buffer parse as two
/// successive frames, the second starting exactly where the first ended.
pub proof fn lemma_pipelined(m1: FrameModel, m2: FrameModel)
    requires
        frame_wf(m1),
        frame_wf(m2),
        frame_depth(m1) <= MAX_DEPTH as nat,
        frame_depth(m2) <= MAX_DEPTH as nat,
    ensures
        parse_at(encoding(m1) + encoding(m2), 0, MAX_DEPTH as nat) == ParseOut::Found(
            m1,
            encoding(m1).len() as int,
        ),
        parse_at(
            (encoding(m1) + encoding(m2)).subrange(
                encoding(m1).len() as int,
                (encoding(m1) + encoding(m2)).len() as int,
            ),
            0,
            MAX_DEPTH as nat,
        ) == ParseOut::Found(m2, encoding(m2).len() as int),
{
    lemma_round_trip(m1, encoding(m2));
    let s = encoding(m1) + encoding(m2);
    assert(s.subrange(encoding(m1).len() as int, s.len() as int) =~= encoding(m2));
    lemma_round_trip(m2, Seq::<u8>::empty());
    assert(encoding(m2) + Seq::<u8>::empty() =~= encoding(m2));
}

} // verus!
