//! The wire framing: an algebraic frame value, a total serializer, and an
//! incremental parser that tells a short buffer apart from a malformed one.

use vstd::prelude::*;

use crate::num::{
    dec_int, fmt_i64, fmt_usize, i64_text_valid, parse_i64_text, text_value,
};

verus! {

/// One syntactic unit of the wire protocol.
#[derive(Debug, PartialEq)]
pub enum RespValue {
    SimpleString(Vec<u8>),
    SimpleError(Vec<u8>),
    Integer(i64),
    BulkString(Vec<u8>),
    Array(Vec<RespValue>),
    Null,
}

/// The mathematical shape of a frame, over sequences instead of vectors.
pub enum FrameModel {
    SimpleString(Seq<u8>),
    SimpleError(Seq<u8>),
    Integer(int),
    BulkString(Seq<u8>),
    Array(Seq<FrameModel>),
    Null,
}

pub open spec fn frame_model(f: RespValue) -> FrameModel
    decreases f,
{
    match f {
        RespValue::SimpleString(c) => FrameModel::SimpleString(c@),
        RespValue::SimpleError(c) => FrameModel::SimpleError(c@),
        RespValue::Integer(i) => FrameModel::Integer(i as int),
        RespValue::BulkString(c) => FrameModel::BulkString(c@),
        RespValue::Array(items) => FrameModel::Array(models_of(items@)),
        RespValue::Null => FrameModel::Null,
    }
}

pub open spec fn models_of(s: Seq<RespValue>) -> Seq<FrameModel>
    decreases s,
{
    if s.len() == 0 {
        Seq::empty()
    } else {
        seq![frame_model(s[0])] + models_of(s.drop_first())
    }
}

pub proof fn lemma_models_of(s: Seq<RespValue>)
    ensures
        models_of(s).len() == s.len(),
        forall|i: int| 0 <= i < s.len() ==> models_of(s)[i] == frame_model(#[trigger] s[i]),
    decreases s,
{
    if s.len() > 0 {
        lemma_models_of(s.drop_first());
        assert forall|i: int| 0 <= i < s.len() implies models_of(s)[i] == frame_model(
            #[trigger] s[i],
        ) by {
            if i > 0 {
                assert(models_of(s)[i] == models_of(s.drop_first())[i - 1]);
                assert(s.drop_first()[i - 1] == s[i]);
            }
        }
    }
}

pub proof fn lemma_models_of_push(s: Seq<RespValue>, f: RespValue)
    ensures
        models_of(s.push(f)) == models_of(s) + seq![frame_model(f)],
{
    lemma_models_of(s.push(f));
    lemma_models_of(s);
    let a = models_of(s.push(f));
    let b = models_of(s) + seq![frame_model(f)];
    assert forall|i: int| 0 <= i < a.len() implies a[i] == b[i] by {
        assert(a[i] == frame_model(s.push(f)[i]));
        if i < s.len() {
            assert(s.push(f)[i] == s[i]);
        } else {
            assert(s.push(f)[i] == f);
        }
    }
    assert(a =~= b);
}

pub open spec fn crlf() -> Seq<u8> {
    seq![13u8, 10u8]
}

/// The bytes a frame serializes to.
pub open spec fn encoding(m: FrameModel) -> Seq<u8>
    decreases m,
{
    match m {
        FrameModel::SimpleString(c) => seq![43u8] + c + crlf(),
        FrameModel::SimpleError(c) => seq![45u8] + c + crlf(),
        FrameModel::Integer(i) => seq![58u8] + dec_int(i) + crlf(),
        FrameModel::BulkString(c) => seq![36u8] + dec_int(c.len() as int) + crlf() + c + crlf(),
        FrameModel::Null => seq![36u8, 45u8, 49u8] + crlf(),
        FrameModel::Array(ms) => seq![42u8] + dec_int(ms.len() as int) + crlf() + encoding_seq(ms),
    }
}

pub open spec fn encoding_seq(ms: Seq<FrameModel>) -> Seq<u8>
    decreases ms,
{
    if ms.len() == 0 {
        Seq::empty()
    } else {
        encoding(ms[0]) + encoding_seq(ms.drop_first())
    }
}

/// A line payload that does not contain the line terminator.
pub open spec fn line_ok(c: Seq<u8>) -> bool {
    forall|i: int| #![trigger c[i]] 0 <= i < c.len() - 1 ==> !(c[i] == 13 && c[i + 1] == 10)
}

/// The frames whose encodings parse back: line payloads hold no terminator,
/// integers and lengths fit the wire's signed 64-bit numbers.
pub open spec fn frame_wf(m: FrameModel) -> bool
    decreases m,
{
    match m {
        FrameModel::SimpleString(c) => line_ok(c),
        FrameModel::SimpleError(c) => line_ok(c),
        FrameModel::Integer(i) => i64::MIN <= i <= i64::MAX,
        FrameModel::BulkString(c) => c.len() <= i64::MAX,
        FrameModel::Null => true,
        FrameModel::Array(ms) => ms.len() <= i64::MAX && forall|i: int|
            0 <= i < ms.len() ==> frame_wf(#[trigger] ms[i]),
    }
}

/// Nesting depth: how many arrays enclose the deepest element.
pub open spec fn frame_depth(m: FrameModel) -> nat
    decreases m,
{
    match m {
        FrameModel::Array(ms) => 1 + depth_seq(ms),
        _ => 0,
    }
}

pub open spec fn depth_seq(ms: Seq<FrameModel>) -> nat
    decreases ms,
{
    if ms.len() == 0 {
        0
    } else {
        let d0 = frame_depth(ms[0]);
        let dr = depth_seq(ms.drop_first());
        if d0 > dr {
            d0
        } else {
            dr
        }
    }
}

pub proof fn lemma_depth_seq_bound(ms: Seq<FrameModel>)
    ensures
        forall|i: int| 0 <= i < ms.len() ==> frame_depth(#[trigger] ms[i]) <= depth_seq(ms),
    decreases ms,
{
    if ms.len() > 0 {
        lemma_depth_seq_bound(ms.drop_first());
        assert forall|i: int| 0 <= i < ms.len() implies frame_depth(#[trigger] ms[i])
            <= depth_seq(ms) by {
            if i > 0 {
                assert(ms[i] == ms.drop_first()[i - 1]);
            }
        }
    }
}

/// Index of the first line terminator at or after `pos`, if the buffer
/// holds one in full.
pub open spec fn find_crlf(s: Seq<u8>, pos: int) -> Option<int>
    decreases s.len() - pos,
{
    if pos < 0 || pos + 2 > s.len() {
        None
    } else if s[pos] == 13 && s[pos + 1] == 10 {
        Some(pos)
    } else {
        find_crlf(s, pos + 1)
    }
}

pub proof fn lemma_find_crlf_at(s: Seq<u8>, pos: int, end: int)
    requires
        0 <= pos <= end,
        end + 2 <= s.len(),
        s[end] == 13,
        s[end + 1] == 10,
        forall|i: int| #![trigger s[i]] pos <= i < end ==> !(s[i] == 13 && s[i + 1] == 10),
    ensures
        find_crlf(s, pos) == Some(end),
    decreases end - pos,
{
    if pos < end {
        lemma_find_crlf_at(s, pos + 1, end);
    }
}

pub proof fn lemma_find_crlf_none(s: Seq<u8>, pos: int)
    requires
        0 <= pos,
        forall|i: int| #![trigger s[i]] pos <= i < s.len() - 1 ==> !(s[i] == 13 && s[i + 1] == 10),
    ensures
        find_crlf(s, pos) is None,
    decreases s.len() - pos,
{
    if pos + 2 <= s.len() {
        lemma_find_crlf_none(s, pos + 1);
    }
}

/// Outcome of parsing one frame: the frame and the position one past its
/// final byte, or a short buffer, or a malformed one.
pub enum ParseOut {
    Found(FrameModel, int),
    Incomplete,
    Fail,
}

pub enum ElemsOut {
    Found(Seq<FrameModel>, int),
    Incomplete,
    Fail,
}

/// A line-framed payload: everything up to the next terminator.
pub open spec fn parse_simple_at(s: Seq<u8>, p: int) -> ParseOut {
    match find_crlf(s, p) {
        Option::None => ParseOut::Incomplete,
        Option::Some(end) => ParseOut::Found(FrameModel::SimpleString(s.subrange(p, end)), end + 2),
    }
}

pub open spec fn parse_error_at(s: Seq<u8>, p: int) -> ParseOut {
    match find_crlf(s, p) {
        Option::None => ParseOut::Incomplete,
        Option::Some(end) => ParseOut::Found(FrameModel::SimpleError(s.subrange(p, end)), end + 2),
    }
}

pub open spec fn parse_integer_at(s: Seq<u8>, p: int) -> ParseOut {
    match find_crlf(s, p) {
        Option::None => ParseOut::Incomplete,
        Option::Some(end) => {
            let c = s.subrange(p, end);
            if i64_text_valid(c) {
                ParseOut::Found(FrameModel::Integer(text_value(c)), end + 2)
            } else {
                ParseOut::Fail
            }
        },
    }
}

/// A length line, then exactly that many payload bytes and a terminator;
/// length -1 is the nil marker.
pub open spec fn parse_bulk_at(s: Seq<u8>, p: int) -> ParseOut {
    match find_crlf(s, p) {
        Option::None => ParseOut::Incomplete,
        Option::Some(end) => {
            let c = s.subrange(p, end);
            if !i64_text_valid(c) {
                ParseOut::Fail
            } else {
                let n = text_value(c);
                if n == -1 {
                    ParseOut::Found(FrameModel::Null, end + 2)
                } else if n < 0 {
                    ParseOut::Fail
                } else if end + 2 + n + 2 > s.len() {
                    ParseOut::Incomplete
                } else if s[end + 2 + n] == 13 && s[end + 2 + n + 1] == 10 {
                    ParseOut::Found(FrameModel::BulkString(s.subrange(end + 2, end + 2 + n)), end + 2 + n + 2)
                } else {
                    ParseOut::Fail
                }
            }
        },
    }
}

/// A count line, then that many frames, each at one less depth budget;
/// count -1 is the nil marker.
pub open spec fn parse_array_at(s: Seq<u8>, p: int, depth: nat) -> ParseOut
    decreases depth, 0int,
{
    match find_crlf(s, p) {
        Option::None => ParseOut::Incomplete,
        Option::Some(end) => {
            let c = s.subrange(p, end);
            if !i64_text_valid(c) {
                ParseOut::Fail
            } else {
                let n = text_value(c);
                if n == -1 {
                    ParseOut::Found(FrameModel::Null, end + 2)
                } else if n < 0 {
                    ParseOut::Fail
                } else if depth == 0 {
                    ParseOut::Fail
                } else {
                    match parse_elems_at(s, end + 2, n, (depth - 1) as nat) {
                        ElemsOut::Found(ms, fin) => ParseOut::Found(FrameModel::Array(ms), fin),
                        ElemsOut::Incomplete => ParseOut::Incomplete,
                        ElemsOut::Fail => ParseOut::Fail,
                    }
                }
            }
        },
    }
}

pub open spec fn parse_elems_at(s: Seq<u8>, pos: int, count: int, depth: nat) -> ElemsOut
    decreases depth, count + 2,
{
    if count <= 0 {
        ElemsOut::Found(Seq::empty(), pos)
    } else {
        match parse_at(s, pos, depth) {
            ParseOut::Found(m, end) => match parse_elems_at(s, end, count - 1, depth) {
                ElemsOut::Found(ms, fin) => ElemsOut::Found(seq![m] + ms, fin),
                ElemsOut::Incomplete => ElemsOut::Incomplete,
                ElemsOut::Fail => ElemsOut::Fail,
            },
            ParseOut::Incomplete => ElemsOut::Incomplete,
            ParseOut::Fail => ElemsOut::Fail,
        }
    }
}

/// Parse one frame at `pos`: the first byte selects the variant, anything
/// else is malformed. A buffer ending before the frame does is `Incomplete`,
/// never `Fail`, so a caller can wait for more bytes.
pub open spec fn parse_at(s: Seq<u8>, pos: int, depth: nat) -> ParseOut
    decreases depth, 1int,
{
    if pos < 0 || pos >= s.len() {
        ParseOut::Incomplete
    } else {
        let t = s[pos];
        let p = pos + 1;
        if t == 43 {
            parse_simple_at(s, p)
        } else if t == 45 {
            parse_error_at(s, p)
        } else if t == 58 {
            parse_integer_at(s, p)
        } else if t == 36 {
            parse_bulk_at(s, p)
        } else if t == 42 {
            parse_array_at(s, p, depth)
        } else {
            ParseOut::Fail
        }
    }
}

/// The deepest array nesting the parser accepts before it reports a
/// malformed frame.
pub const MAX_DEPTH: usize = 32;

/// What the executable parser reports.
#[derive(Debug, PartialEq)]
pub enum ParseResult {
    Complete(RespValue, usize),
    Incomplete,
    Error,
}

pub open spec fn out_matches(r: ParseResult, o: ParseOut) -> bool {
    match r {
        ParseResult::Complete(f, n) => o == ParseOut::Found(frame_model(f), n as int),
        ParseResult::Incomplete => o is Incomplete,
        ParseResult::Error => o is Fail,
    }
}

/// Copy `buf[from..to]` into a fresh vector.
fn copy_range(buf: &Vec<u8>, from: usize, to: usize) -> (r: Vec<u8>)
    requires
        from <= to <= buf@.len(),
    ensures
        r@ == buf@.subrange(from as int, to as int),
{
    let mut r: Vec<u8> = Vec::new();
    assert(r@ =~= buf@.subrange(from as int, from as int));
    let mut i: usize = from;
    while i < to
        invariant
            from <= i <= to <= buf@.len(),
            r@ == buf@.subrange(from as int, i as int),
        decreases to - i,
    {
        r.push(buf[i]);
        assert(r@ =~= buf@.subrange(from as int, (i + 1) as int));
        i = i + 1;
    }
    r
}

/// Find the next terminator and hand back the line before it together with
/// the position just past the terminator.
fn read_line(buf: &Vec<u8>, pos: usize) -> (r: Option<(Vec<u8>, usize)>)
    ensures
        match r {
            Option::Some(v) => {
                &&& find_crlf(buf@, pos as int) == Some(v.1 - 2int)
                &&& pos + 2 <= v.1 <= buf@.len()
                &&& v.0@ == buf@.subrange(pos as int, v.1 - 2int)
            },
            Option::None => find_crlf(buf@, pos as int) is None,
        },
{
    let n = buf.len();
    if pos >= n {
        proof {
            lemma_find_crlf_none(buf@, pos as int);
        }
        return None;
    }
    let mut i: usize = pos;
    while i < n - 1
        invariant
            pos <= i,
            pos < n,
            n == buf@.len(),
            forall|j: int| #![trigger buf@[j]] pos <= j < i ==> !(buf@[j] == 13 && buf@[j + 1]
                == 10),
        decreases n - i,
    {
        if buf[i] == 13 && buf[i + 1] == 10 {
            proof {
                lemma_find_crlf_at(buf@, pos as int, i as int);
            }
            let content = copy_range(buf, pos, i);
            return Some((content, i + 2));
        }
        i = i + 1;
    }
    proof {
        lemma_find_crlf_none(buf@, pos as int);
    }
    None
}

/// Parse one frame from `buf` at `pos`, spending at most `depth` levels of
/// array nesting.
fn parse_frame(buf: &Vec<u8>, pos: usize, depth: usize) -> (r: ParseResult)
    ensures
        out_matches(r, parse_at(buf@, pos as int, depth as nat)),
        r matches ParseResult::Complete(f, n) ==> pos < n <= buf@.len(),
    decreases depth, 1int,
{
    if pos >= buf.len() {
        return ParseResult::Incomplete;
    }
    let t = buf[pos];
    let p = pos + 1;
    if t == 43 || t == 45 {
        match read_line(buf, p) {
            Option::None => ParseResult::Incomplete,
            Option::Some((content, next)) => {
                if t == 43 {
                    ParseResult::Complete(RespValue::SimpleString(content), next)
                } else {
                    ParseResult::Complete(RespValue::SimpleError(content), next)
                }
            },
        }
    } else if t == 58 {
        match read_line(buf, p) {
            Option::None => ParseResult::Incomplete,
            Option::Some((content, next)) => match parse_i64_text(&content) {
                Option::None => ParseResult::Error,
                Option::Some(v) => ParseResult::Complete(RespValue::Integer(v), next),
            },
        }
    } else if t == 36 {
        match read_line(buf, p) {
            Option::None => ParseResult::Incomplete,
            Option::Some((content, next)) => match parse_i64_text(&content) {
                Option::None => ParseResult::Error,
                Option::Some(len) => {
                    if len == -1 {
                        ParseResult::Complete(RespValue::Null, next)
                    } else if len < 0 {
                        ParseResult::Error
                    } else {
                        let remaining = buf.len() - next;
                        if remaining < 2 || ((remaining - 2) as u64) < (len as u64) {
                            ParseResult::Incomplete
                        } else {
                            let n = len as usize;
                            if buf[next + n] == 13 && buf[next + n + 1] == 10 {
                                let data = copy_range(buf, next, next + n);
                                ParseResult::Complete(RespValue::BulkString(data), next + n + 2)
                            } else {
                                ParseResult::Error
                            }
                        }
                    }
                },
            },
        }
    } else if t == 42 {
        if depth == 0 {
            match read_line(buf, p) {
                Option::None => ParseResult::Incomplete,
                Option::Some((content, _next)) => match parse_i64_text(&content) {
                    Option::None => ParseResult::Error,
                    Option::Some(cnt) => {
                        if cnt == -1 {
                            ParseResult::Complete(RespValue::Null, _next)
                        } else {
                            ParseResult::Error
                        }
                    },
                },
            }
        } else {
            match read_line(buf, p) {
                Option::None => ParseResult::Incomplete,
                Option::Some((content, next)) => match parse_i64_text(&content) {
                    Option::None => ParseResult::Error,
                    Option::Some(cnt) => {
                        if cnt == -1 {
                            ParseResult::Complete(RespValue::Null, next)
                        } else if cnt < 0 {
                            ParseResult::Error
                        } else {
                            parse_array_items(buf, pos, next, cnt, depth)
                        }
                    },
                },
            }
        }
    } else {
        ParseResult::Error
    }
}

/// Parse the `cnt` frames of an array whose count line ends at `next`.
#[verifier::loop_isolation(false)]
fn parse_array_items(buf: &Vec<u8>, pos: usize, next: usize, cnt: i64, depth: usize) -> (r:
    ParseResult)
    requires
        depth >= 1,
        cnt >= 0,
        pos < next <= buf@.len(),
        parse_array_at(buf@, pos + 1, depth as nat) == match parse_elems_at(
            buf@,
            next as int,
            cnt as int,
            (depth - 1) as nat,
        ) {
            ElemsOut::Found(ms, fin) => ParseOut::Found(FrameModel::Array(ms), fin),
            ElemsOut::Incomplete => ParseOut::Incomplete,
            ElemsOut::Fail => ParseOut::Fail,
        },
    ensures
        out_matches(r, parse_array_at(buf@, pos + 1, depth as nat)),
        r matches ParseResult::Complete(f, n) ==> pos < n <= buf@.len(),
    decreases depth, 0int,
{
    let ghost s = buf@;
    let ghost d = (depth - 1) as nat;
    let mut items: Vec<RespValue> = Vec::new();
    let mut cur: usize = next;
    let mut k: i64 = 0;
    proof {
        assert(models_of(items@) =~= Seq::<FrameModel>::empty());
    }
    while k < cnt
        invariant
            0 <= k <= cnt,
            depth >= 1,
            d == (depth - 1) as nat,
            s == buf@,
            pos < next <= cur <= s.len(),
            match parse_elems_at(s, cur as int, cnt - k, d) {
                ElemsOut::Found(ms, fin) => parse_elems_at(s, next as int, cnt as int, d)
                    == ElemsOut::Found(models_of(items@) + ms, fin),
                ElemsOut::Incomplete => parse_elems_at(s, next as int, cnt as int, d)
                    is Incomplete,
                ElemsOut::Fail => parse_elems_at(s, next as int, cnt as int, d) is Fail,
            },
        decreases cnt - k,
    {
        match parse_frame(buf, cur, depth - 1) {
            ParseResult::Complete(f, n2) => {
                proof {
                    lemma_models_of_push(items@, f);
                    assert(parse_elems_at(s, cur as int, cnt - k, d) == match parse_elems_at(
                        s,
                        n2 as int,
                        cnt - k - 1,
                        d,
                    ) {
                        ElemsOut::Found(ms, fin) => ElemsOut::Found(
                            seq![frame_model(f)] + ms,
                            fin,
                        ),
                        ElemsOut::Incomplete => ElemsOut::Incomplete,
                        ElemsOut::Fail => ElemsOut::Fail,
                    });
                    if let ElemsOut::Found(ms2, fin2) = parse_elems_at(s, n2 as int, cnt - k - 1, d) {
                        assert((models_of(items@) + (seq![frame_model(f)] + ms2)) =~= (models_of(
                            items@,
                        ) + seq![frame_model(f)]) + ms2);
                    }
                }
                items.push(f);
                cur = n2;
                k = k + 1;
            },
            ParseResult::Incomplete => {
                proof {
                    assert(parse_elems_at(s, cur as int, cnt - k, d) is Incomplete);
                }
                return ParseResult::Incomplete;
            },
            ParseResult::Error => {
                proof {
                    assert(parse_elems_at(s, cur as int, cnt - k, d) is Fail);
                }
                return ParseResult::Error;
            },
        }
    }
    proof {
        assert(parse_elems_at(s, cur as int, 0, d) == ElemsOut::Found(
            Seq::<FrameModel>::empty(),
            cur as int,
        ));
        assert(models_of(items@) + Seq::<FrameModel>::empty() =~= models_of(items@));
        assert(parse_elems_at(s, next as int, cnt as int, d) == ElemsOut::Found(
            models_of(items@),
            cur as int,
        ));
    }
    ParseResult::Complete(RespValue::Array(items), cur)
}

/// Parse one frame from the head of `buf` at `pos`.
pub fn parse_resp(buf: &Vec<u8>, pos: usize) -> (r: ParseResult)
    ensures
        out_matches(r, parse_at(buf@, pos as int, MAX_DEPTH as nat)),
        r matches ParseResult::Complete(f, n) ==> pos < n <= buf@.len(),
{
    parse_frame(buf, pos, MAX_DEPTH)
}

/// Append a copy of `c` to `v`.
fn push_all(v: &mut Vec<u8>, c: &Vec<u8>)
    ensures
        final(v)@ == old(v)@ + c@,
{
    let mut i: usize = 0;
    assert(v@ =~= old(v)@ + c@.subrange(0, 0));
    while i < c.len()
        invariant
            i <= c@.len(),
            v@ == old(v)@ + c@.subrange(0, i as int),
        decreases c@.len() - i,
    {
        v.push(c[i]);
        assert(v@ =~= old(v)@ + c@.subrange(0, (i + 1) as int));
        i = i + 1;
    }
    assert(v@ =~= old(v)@ + c@);
}

pub proof fn lemma_encoding_seq_push(ms: Seq<FrameModel>, m: FrameModel)
    ensures
        encoding_seq(ms.push(m)) == encoding_seq(ms) + encoding(m),
    decreases ms,
{
    if ms.len() == 0 {
        assert(ms.push(m)[0] == m);
        assert(ms.push(m).drop_first() =~= Seq::<FrameModel>::empty());
        assert(encoding_seq(Seq::<FrameModel>::empty()) == Seq::<u8>::empty());
        assert(encoding_seq(ms.push(m)) == encoding(m) + Seq::<u8>::empty());
        assert(encoding_seq(ms) == Seq::<u8>::empty());
        assert(encoding(m) + Seq::<u8>::empty() =~= Seq::<u8>::empty() + encoding(m));
    } else {
        assert(ms.push(m)[0] == ms[0]);
        assert(ms.push(m).drop_first() =~= ms.drop_first().push(m));
        lemma_encoding_seq_push(ms.drop_first(), m);
        assert(encoding_seq(ms.push(m)) == encoding(ms[0]) + (encoding_seq(ms.drop_first())
            + encoding(m)));
        assert(encoding(ms[0]) + (encoding_seq(ms.drop_first()) + encoding(m)) =~= (encoding(
            ms[0],
        ) + encoding_seq(ms.drop_first())) + encoding(m));
    }
}

impl RespValue {
    /// Serialize this frame; total on every constructible frame.
    pub fn serialize(&self) -> (r: Vec<u8>)
        ensures
            r@ == encoding(frame_model(*self)),
        decreases *self,
    {
        match self {
            RespValue::SimpleString(c) => {
                let mut v: Vec<u8> = Vec::new();
                v.push(43);
                push_all(&mut v, c);
                v.push(13);
                v.push(10);
                assert(v@ =~= seq![43u8] + c@ + crlf());
                v
            },
            RespValue::SimpleError(c) => {
                let mut v: Vec<u8> = Vec::new();
                v.push(45);
                push_all(&mut v, c);
                v.push(13);
                v.push(10);
                assert(v@ =~= seq![45u8] + c@ + crlf());
                v
            },
            RespValue::Integer(i) => {
                let mut v: Vec<u8> = Vec::new();
                v.push(58);
                let mut d = fmt_i64(*i);
                v.append(&mut d);
                v.push(13);
                v.push(10);
                assert(v@ =~= seq![58u8] + dec_int(*i as int) + crlf());
                v
            },
            RespValue::BulkString(c) => {
                let mut v: Vec<u8> = Vec::new();
                v.push(36);
                let mut d = fmt_usize(c.len());
                v.append(&mut d);
                v.push(13);
                v.push(10);
                push_all(&mut v, c);
                v.push(13);
                v.push(10);
                assert(v@ =~= seq![36u8] + dec_int(c@.len() as int) + crlf() + c@ + crlf());
                v
            },
            RespValue::Null => {
                let mut v: Vec<u8> = Vec::new();
                v.push(36);
                v.push(45);
                v.push(49);
                v.push(13);
                v.push(10);
                assert(v@ =~= seq![36u8, 45u8, 49u8] + crlf());
                v
            },
            RespValue::Array(items) => {
                let mut v: Vec<u8> = Vec::new();
                v.push(42);
                let mut d = fmt_usize(items.len());
                v.append(&mut d);
                v.push(13);
                v.push(10);
                let ghost header = seq![42u8] + dec_int(items@.len() as int) + crlf();
                assert(v@ =~= header + encoding_seq(models_of(items@).subrange(0, 0)));
                let mut j: usize = 0;
                proof {
                    lemma_models_of(items@);
                }
                while j < items.len()
                    invariant
                        j <= items@.len(),
                        header == seq![42u8] + dec_int(items@.len() as int) + crlf(),
                        models_of(items@).len() == items@.len(),
                        forall|i: int| 0 <= i < items@.len() ==> models_of(items@)[i]
                            == frame_model(#[trigger] items@[i]),
                        v@ == header + encoding_seq(models_of(items@).subrange(0, j as int)),
                        *self == RespValue::Array(*items),
                    decreases items@.len() - j,
                {
                    proof {
                        assert(decreases_to!(*self => self->Array_0));
                        assert(self->Array_0 == *items);
                        assert(decreases_to!(*items => items@[j as int]));
                        assert(decreases_to!(*self => items@[j as int]));
                    }
                    let piece = items[j].serialize();
                    push_all(&mut v, &piece);
                    proof {
                        let ms = models_of(items@);
                        assert(ms.subrange(0, j + 1) =~= ms.subrange(0, j as int).push(ms[j as int]));
                        lemma_encoding_seq_push(ms.subrange(0, j as int), ms[j as int]);
                        assert(v@ =~= header + encoding_seq(ms.subrange(0, j + 1)));
                    }
                    j = j + 1;
                }
                proof {
                    assert(models_of(items@).subrange(0, items@.len() as int) =~= models_of(
                        items@,
                    ));
                }
                v
            },
        }
    }
}

} // verus!
