//! The value parser: consumes the token sequence recursively into a value
//! tree, or fails with an error and a recovery point, scanning forward past
//! the nearest closing bracket so that later, independent errors can still
//! be found.

use vstd::prelude::*;

use crate::lexer::errs_view;
use crate::lexer::spec_tokenize;
use crate::lexer::tokenize;
use crate::token::recs_bounds;
use crate::token::recs_view;
use crate::token::toks_wf;
use crate::token::Tok;
use crate::token::Token;
use crate::token::TokenRecord;
use crate::value::elems_view;
use crate::value::entries_sorted;
use crate::value::entries_view;
use crate::value::entries_wf;
use crate::value::insert_entry;
use crate::value::obj_insert;
use crate::value::wf;
use crate::value::JVal;
use crate::value::Json;
use crate::ErrorKind;
use crate::Span;

verus! {

/// Outcome of parsing one value at a position of the token sequence: a
/// value and the next position; the end of the tokens; or an error's kind
/// and (length, remaining) record together with the position parsing
/// resumes from after recovery.
pub enum PRes {
    Val(JVal, int),
    End,
    Fail(ErrorKind, int, int, int),
}

/// The recovery scan: the position just past the first `close` token at or
/// after `i`, or the end of the tokens if there is none.
pub open spec fn scan_close(ts: Seq<(Tok, int, int)>, i: int, close: Tok) -> int
    decreases ts.len() - i,
{
    if i < 0 || i >= ts.len() {
        ts.len() as int
    } else if ts[i].0 == close {
        i + 1
    } else {
        scan_close(ts, i + 1, close)
    }
}

/// The recovery scan moves forward and stays within the tokens.
pub proof fn lemma_scan_close_bounds(ts: Seq<(Tok, int, int)>, i: int, close: Tok)
    requires
        0 <= i <= ts.len(),
    ensures
        i <= scan_close(ts, i, close) <= ts.len(),
    decreases ts.len() - i,
{
    if i < ts.len() && ts[i].0 != close {
        lemma_scan_close_bounds(ts, i + 1, close);
    }
}

/// Parses one value at position `i`: a scalar token maps directly to its
/// value; an opening bracket hands over to the array or object rule; any
/// other token is unexpected.
pub open spec fn spec_value(ts: Seq<(Tok, int, int)>, i: int) -> PRes
    decreases ts.len() - i, 0int,
{
    if i < 0 || i >= ts.len() {
        PRes::End
    } else {
        let (t, l, f) = ts[i];
        match t {
            Tok::Null => PRes::Val(JVal::Null, i + 1),
            Tok::True => PRes::Val(JVal::Bool(true), i + 1),
            Tok::False => PRes::Val(JVal::Bool(false), i + 1),
            Tok::NumberLiteral(x) => PRes::Val(JVal::Num(x), i + 1),
            Tok::StringLiteral(x) => PRes::Val(JVal::Str(x), i + 1),
            Tok::OpenCurly => {
                if i + 1 < ts.len() && ts[i + 1].0 == Tok::CloseCurly {
                    PRes::Val(JVal::Obj(Seq::empty()), i + 2)
                } else {
                    spec_obj(ts, i + 1, Seq::empty(), l, f, l, f)
                }
            },
            Tok::OpenSquare => {
                if i + 1 < ts.len() && ts[i + 1].0 == Tok::CloseSquare {
                    PRes::Val(JVal::Arr(Seq::empty()), i + 2)
                } else {
                    spec_arr(ts, i + 1, Seq::empty(), f)
                }
            },
            _ => PRes::Fail(ErrorKind::UnexpectedToken, l, f, i + 1),
        }
    }
}

/// Parses the elements of a non-empty array whose `[` (with `f0` remaining
/// at it) has been consumed, `acc` holding the elements parsed so far: each
/// element is a value, elements are separated by commas, and `]` ends the
/// array. A failed element is recovered from by scanning past the nearest
/// `]`. Running out of tokens is an unterminated array, anchored at the `[`.
pub open spec fn spec_arr(ts: Seq<(Tok, int, int)>, i: int, acc: Seq<JVal>, f0: int) -> PRes
    decreases ts.len() - i, 1int,
{
    if i < 0 || i >= ts.len() {
        PRes::Fail(ErrorKind::UnterminatedArray, 0, f0, i)
    } else {
        match spec_value(ts, i) {
            PRes::End => PRes::Fail(ErrorKind::UnterminatedArray, 0, f0, i),
            PRes::Fail(ek, el, ef, j) => PRes::Fail(
                ek,
                el,
                ef,
                scan_close(ts, j, Tok::CloseSquare),
            ),
            PRes::Val(v, j) => {
                if j < ts.len() {
                    if ts[j].0 == Tok::Comma {
                        if i <= j {
                            spec_arr(ts, j + 1, acc.push(v), f0)
                        } else {
                            // never reached: parsing a value moves forward
                            // (see the props lemma); the test keeps the
                            // recursion visibly decreasing
                            PRes::End
                        }
                    } else if ts[j].0 == Tok::CloseSquare {
                        PRes::Val(JVal::Arr(acc.push(v)), j + 1)
                    } else {
                        PRes::Fail(ErrorKind::UnexpectedToken, ts[j].1, ts[j].2, j + 1)
                    }
                } else {
                    PRes::Fail(ErrorKind::UnterminatedArray, 0, f0, j)
                }
            },
        }
    }
}

/// Parses the entries of a non-empty object whose `{` (with record
/// `(cl, cf)`) has been consumed, `acc` holding the entries parsed so far
/// and `(lc_l, lc_f)` the record of the last separating comma: each entry is
/// a string key, a colon and a value; entries are separated by commas; `}`
/// ends the object. A `}` where a key should follow a comma is a trailing
/// comma, anchored at that comma. A failed entry value is recovered from by
/// scanning past the nearest `}`.
pub open spec fn spec_obj(
    ts: Seq<(Tok, int, int)>,
    i: int,
    acc: Seq<(Seq<char>, JVal)>,
    cl: int,
    cf: int,
    lc_l: int,
    lc_f: int,
) -> PRes
    decreases ts.len() - i, 1int,
{
    if i < 0 || i >= ts.len() {
        PRes::Fail(ErrorKind::UnexpectedToken, cl, cf, i)
    } else {
        let (t, l, f) = ts[i];
        match t {
            Tok::StringLiteral(key) => {
                if i + 1 < ts.len() && ts[i + 1].0 == Tok::Colon {
                    let colon_f = ts[i + 1].2;
                    match spec_value(ts, i + 2) {
                        PRes::End => PRes::Fail(ErrorKind::UnterminatedObject, 0, colon_f, i + 2),
                        PRes::Fail(ek, el, ef, j) => PRes::Fail(
                            ek,
                            el,
                            ef,
                            scan_close(ts, j, Tok::CloseCurly),
                        ),
                        PRes::Val(v, j) => {
                            if j < ts.len() {
                                if ts[j].0 == Tok::Comma {
                                    if i <= j {
                                        spec_obj(
                                            ts,
                                            j + 1,
                                            obj_insert(acc, key, v),
                                            cl,
                                            cf,
                                            ts[j].1,
                                            ts[j].2,
                                        )
                                    } else {
                                        // never reached: parsing a value
                                        // moves forward (see the props
                                        // lemma); the test keeps the
                                        // recursion visibly decreasing
                                        PRes::End
                                    }
                                } else if ts[j].0 == Tok::CloseCurly {
                                    PRes::Val(JVal::Obj(obj_insert(acc, key, v)), j + 1)
                                } else {
                                    PRes::Fail(
                                        ErrorKind::UnexpectedToken,
                                        ts[j].1,
                                        ts[j].2,
                                        j + 1,
                                    )
                                }
                            } else {
                                PRes::Fail(ErrorKind::UnterminatedObject, 0, colon_f, j)
                            }
                        },
                    }
                } else {
                    PRes::Fail(ErrorKind::UnexpectedToken, l, f, i + 1)
                }
            },
            Tok::CloseCurly => PRes::Fail(ErrorKind::TrailingComma, lc_l, lc_f, i + 1),
            _ => PRes::Fail(ErrorKind::UnexpectedToken, cl, cf, i),
        }
    }
}

/// Parsing one value moves forward, stays within the tokens, reports the end
/// only at the end, yields a well-formed value, and reports errors whose
/// position records lie within the input.
pub proof fn lemma_spec_value_props(ts: Seq<(Tok, int, int)>, i: int, total: int)
    requires
        0 <= i,
        toks_wf(ts),
        recs_bounds(ts, total),
    ensures
        match spec_value(ts, i) {
            PRes::Val(v, j) => i + 1 <= j <= ts.len() && wf(v),
            PRes::End => i >= ts.len(),
            PRes::Fail(k, l, f, j) => i + 1 <= j <= ts.len() && 0 <= l <= f <= total,
        },
    decreases ts.len() - i, 0int,
{
    if 0 <= i < ts.len() {
        let (t, l, f) = ts[i];
        match t {
            Tok::OpenCurly => {
                if i + 1 < ts.len() && ts[i + 1].0 == Tok::CloseCurly {
                    let e: Seq<(Seq<char>, JVal)> = Seq::empty();
                    assert(entries_wf(e));
                    assert(wf(JVal::Obj(e)));
                } else {
                    lemma_spec_obj_props(ts, i + 1, Seq::empty(), l, f, l, f, total);
                }
            },
            Tok::OpenSquare => {
                if !(i + 1 < ts.len() && ts[i + 1].0 == Tok::CloseSquare) {
                    lemma_spec_arr_props(ts, i + 1, Seq::empty(), f, total);
                }
            },
            Tok::NumberLiteral(x) => {
                assert(ts[i].0 matches Tok::NumberLiteral(y) && y == x);
            },
            _ => {},
        }
    }
}

/// As [`lemma_spec_value_props`], for the array rule.
pub proof fn lemma_spec_arr_props(
    ts: Seq<(Tok, int, int)>,
    i: int,
    acc: Seq<JVal>,
    f0: int,
    total: int,
)
    requires
        0 <= i <= ts.len(),
        toks_wf(ts),
        recs_bounds(ts, total),
        0 <= f0 <= total,
        forall|m: int| 0 <= m < acc.len() ==> wf(#[trigger] acc[m]),
    ensures
        match spec_arr(ts, i, acc, f0) {
            PRes::Val(v, j) => i + 1 <= j <= ts.len() && wf(v),
            PRes::End => false,
            PRes::Fail(k, l, f, j) => i <= j <= ts.len() && 0 <= l <= f <= total,
        },
    decreases ts.len() - i, 1int,
{
    if 0 <= i < ts.len() {
        lemma_spec_value_props(ts, i, total);
        match spec_value(ts, i) {
            PRes::End => {},
            PRes::Fail(ek, el, ef, j) => {
                lemma_scan_close_bounds(ts, j, Tok::CloseSquare);
            },
            PRes::Val(v, j) => {
                if j < ts.len() {
                    if ts[j].0 == Tok::Comma {
                        lemma_spec_arr_props(ts, j + 1, acc.push(v), f0, total);
                    } else if ts[j].0 == Tok::CloseSquare {
                        let out = acc.push(v);
                        assert(forall|m: int| 0 <= m < out.len() ==> wf(#[trigger] out[m]));
                    }
                }
            },
        }
    }
}

/// As [`lemma_spec_value_props`], for the object rule.
pub proof fn lemma_spec_obj_props(
    ts: Seq<(Tok, int, int)>,
    i: int,
    acc: Seq<(Seq<char>, JVal)>,
    cl: int,
    cf: int,
    lc_l: int,
    lc_f: int,
    total: int,
)
    requires
        0 <= i <= ts.len(),
        toks_wf(ts),
        recs_bounds(ts, total),
        0 <= cl <= cf <= total,
        0 <= lc_l <= lc_f <= total,
        entries_sorted(acc),
        entries_wf(acc),
    ensures
        match spec_obj(ts, i, acc, cl, cf, lc_l, lc_f) {
            PRes::Val(v, j) => i + 1 <= j <= ts.len() && wf(v),
            PRes::End => false,
            PRes::Fail(k, l, f, j) => i <= j <= ts.len() && 0 <= l <= f <= total,
        },
    decreases ts.len() - i, 1int,
{
    if 0 <= i < ts.len() {
        let (t, l, f) = ts[i];
        if let Tok::StringLiteral(key) = t {
            if i + 1 < ts.len() && ts[i + 1].0 == Tok::Colon {
                lemma_spec_value_props(ts, i + 2, total);
                match spec_value(ts, i + 2) {
                    PRes::End => {},
                    PRes::Fail(ek, el, ef, j) => {
                        lemma_scan_close_bounds(ts, j, Tok::CloseCurly);
                    },
                    PRes::Val(v, j) => {
                        crate::value::lemma_obj_insert_props(acc, key, v);
                        if j < ts.len() && ts[j].0 == Tok::Comma {
                            lemma_spec_obj_props(
                                ts,
                                j + 1,
                                obj_insert(acc, key, v),
                                cl,
                                cf,
                                ts[j].1,
                                ts[j].2,
                                total,
                            );
                        }
                    },
                }
            }
        }
    }
}

/// The top level: whatever tokens recovery leaves behind are parsed in turn,
/// so every distinct syntax error across the whole input is collected, in
/// order, together with every top-level value.
pub open spec fn spec_parse_stream(ts: Seq<(Tok, int, int)>, i: int) -> (
    Seq<JVal>,
    Seq<(ErrorKind, int, int)>,
)
    decreases ts.len() - i,
{
    if i < 0 || i >= ts.len() {
        (Seq::empty(), Seq::empty())
    } else {
        match spec_value(ts, i) {
            PRes::End => (Seq::empty(), Seq::empty()),
            PRes::Val(v, j) => if i < j <= ts.len() {
                let r = spec_parse_stream(ts, j);
                (seq![v] + r.0, r.1)
            } else {
                (Seq::empty(), Seq::empty())
            },
            PRes::Fail(k, l, f, j) => if i < j <= ts.len() {
                let r = spec_parse_stream(ts, j);
                (r.0, seq![(k, l, f)] + r.1)
            } else {
                (Seq::empty(), Seq::empty())
            },
        }
    }
}

/// The top-level values are well formed and the errors' records lie within
/// the input.
pub proof fn lemma_spec_parse_stream_props(ts: Seq<(Tok, int, int)>, i: int, total: int)
    requires
        0 <= i,
        toks_wf(ts),
        recs_bounds(ts, total),
    ensures
        ({
            let (vs, es) = spec_parse_stream(ts, i);
            &&& forall|m: int| 0 <= m < vs.len() ==> wf(#[trigger] vs[m])
            &&& forall|m: int| 0 <= m < es.len() ==> 0 <= (#[trigger] es[m]).1 <= es[m].2 <= total
        }),
    decreases ts.len() - i,
{
    let (vs, es) = spec_parse_stream(ts, i);
    if 0 <= i < ts.len() {
        lemma_spec_value_props(ts, i, total);
        match spec_value(ts, i) {
            PRes::End => {},
            PRes::Val(v, j) => {
                lemma_spec_parse_stream_props(ts, j, total);
                let r = spec_parse_stream(ts, j);
                assert forall|m: int| 0 <= m < vs.len() implies wf(#[trigger] vs[m]) by {
                    if m > 0 {
                        assert(vs[m] == r.0[m - 1]);
                    }
                }
            },
            PRes::Fail(k, l, f, j) => {
                lemma_spec_parse_stream_props(ts, j, total);
                let r = spec_parse_stream(ts, j);
                assert forall|m: int| 0 <= m < es.len() implies 0 <= (#[trigger] es[m]).1
                    && es[m].1 <= es[m].2 && es[m].2 <= total by {
                    if m > 0 {
                        assert(es[m] == r.1[m - 1]);
                    }
                }
            },
        }
    }
}

/// Converts an error's (length, remaining) record into the half-open range
/// it covers in the original input, of the given total length. The model
/// counts in characters; the reported spans translate each endpoint to its
/// byte offset.
pub open spec fn calc_range(total: int, e: (ErrorKind, int, int)) -> (ErrorKind, int, int) {
    (e.0, total - e.2, total - e.2 + e.1)
}

/// The byte offset of character position `o` of the text: the length of the
/// UTF-8 encoding of everything before it.
pub open spec fn byte_offset(s: Seq<char>, o: int) -> int {
    vstd::utf8::encode_utf8(s.take(o)).len() as int
}

/// The UTF-8 encoding of a concatenation is the concatenation of the
/// encodings.
proof fn lemma_encode_utf8_concat(x: Seq<char>, y: Seq<char>)
    ensures
        vstd::utf8::encode_utf8(x + y) == vstd::utf8::encode_utf8(x) + vstd::utf8::encode_utf8(y),
    decreases x.len(),
{
    if x.len() == 0 {
        assert(x + y =~= y);
        assert(vstd::utf8::encode_utf8(x) + vstd::utf8::encode_utf8(y) =~= vstd::utf8::encode_utf8(
            y,
        ));
    } else {
        assert((x + y)[0] == x[0]);
        assert((x + y).drop_first() =~= x.drop_first() + y);
        lemma_encode_utf8_concat(x.drop_first(), y);
        assert(vstd::utf8::encode_scalar(x[0] as u32) + (vstd::utf8::encode_utf8(x.drop_first())
            + vstd::utf8::encode_utf8(y)) =~= (vstd::utf8::encode_scalar(x[0] as u32)
            + vstd::utf8::encode_utf8(x.drop_first())) + vstd::utf8::encode_utf8(y));
    }
}

/// Byte offsets grow with character positions.
pub proof fn lemma_byte_offset_mono(s: Seq<char>, a: int, b: int)
    requires
        0 <= a <= b <= s.len(),
    ensures
        0 <= byte_offset(s, a) <= byte_offset(s, b),
{
    assert(s.take(b) =~= s.take(a) + s.take(b).subrange(a, b));
    lemma_encode_utf8_concat(s.take(a), s.take(b).subrange(a, b));
}

/// The byte offset of character position `c`, computed over the text.
fn byte_index_of(s: &str, c: usize) -> (r: usize)
    requires
        c <= s@.len(),
    ensures
        r == byte_offset(s@, c as int),
{
    let _bytes = s.as_bytes();
    let n = s.unicode_len();
    let pre = s.substring_char(0, c);
    proof {
        vstd::slice::axiom_spec_len(_bytes);
        assert(pre@ =~= s@.take(c as int));
        lemma_byte_offset_mono(s@, c as int, s@.len() as int);
        assert(s@.take(s@.len() as int) =~= s@);
    }
    pre.len()
}

/// What parsing a whole text yields: lexical errors gate everything; then
/// every syntax error is collected; then the token stream must hold exactly
/// one value, else the input as a whole is unexpected, anchored at its end.
/// Every error comes with the character range it covers in the input; the
/// reported spans carry both endpoints as byte offsets (see
/// [`spans_match`]).
pub open spec fn spec_parse(s: Seq<char>) -> Result<JVal, Seq<(ErrorKind, int, int)>> {
    let t3 = spec_tokenize(s);
    if t3.1.len() > 0 {
        Err(t3.1.map_values(|e: (ErrorKind, int, int)| calc_range(s.len() as int, e)))
    } else {
        let pv = spec_parse_stream(t3.0, 0);
        if pv.1.len() > 0 {
            Err(pv.1.map_values(|e: (ErrorKind, int, int)| calc_range(s.len() as int, e)))
        } else if pv.0.len() == 1 {
            Ok(pv.0[0])
        } else {
            Err(seq![calc_range(s.len() as int, (ErrorKind::UnexpectedToken, t3.2, t3.2))])
        }
    }
}

/// The reported list matches the model's: same kinds, and each span holds
/// the model's character range translated to byte offsets in the input.
pub open spec fn spans_match(
    out: Seq<(ErrorKind, Span)>,
    model: Seq<(ErrorKind, int, int)>,
    s: Seq<char>,
) -> bool {
    &&& out.len() == model.len()
    &&& forall|i: int|
        0 <= i < out.len() ==> (#[trigger] out[i]).0 == model[i].0 && out[i].1.start == byte_offset(
            s,
            model[i].1,
        ) && out[i].1.end == byte_offset(s, model[i].2)
}

/// The recovery scan, over the token records.
fn scan_close_at(toks: &Vec<TokenRecord>, from: usize, curly: bool) -> (r: usize)
    requires
        from <= toks@.len(),
    ensures
        r == scan_close(
            recs_view(toks@),
            from as int,
            if curly {
                Tok::CloseCurly
            } else {
                Tok::CloseSquare
            },
        ),
        from <= r <= toks@.len(),
{
    let ghost ts = recs_view(toks@);
    let ghost close = if curly {
        Tok::CloseCurly
    } else {
        Tok::CloseSquare
    };
    proof {
        lemma_scan_close_bounds(ts, from as int, close);
    }
    let mut m = from;
    loop
        invariant
            from <= m <= toks@.len(),
            ts == recs_view(toks@),
            close == if curly {
                Tok::CloseCurly
            } else {
                Tok::CloseSquare
            },
            scan_close(ts, from as int, close) == scan_close(ts, m as int, close),
        decreases toks@.len() - m,
    {
        if m >= toks.len() {
            return m;
        }
        proof {
            assert(ts[m as int].0 == toks@[m as int].0@);
        }
        let is_close = match &toks[m].0 {
            Token::CloseCurly => curly,
            Token::CloseSquare => !curly,
            _ => false,
        };
        if is_close {
            return m + 1;
        }
        m += 1;
    }
}

/// Parses one value at position `at` of the token records: the value and the
/// next position; `None` at the end of the tokens; or the error's kind,
/// (length, remaining) record and recovery position.
fn next_value(toks: &Vec<TokenRecord>, at: usize) -> (r: Result<
    (Option<Json>, usize),
    (ErrorKind, usize, usize, usize),
>)
    requires
        at <= toks@.len(),
        toks_wf(recs_view(toks@)),
        recs_bounds(recs_view(toks@), usize::MAX as int),
    ensures
        match spec_value(recs_view(toks@), at as int) {
            PRes::Val(v, j) => r matches Ok((o, jj)) && o matches Some(json) && json@ == v && jj
                == j,
            PRes::End => r matches Ok((o, jj)) && o is None && jj == at,
            PRes::Fail(k, l, f, j) => r matches Err(e) && e.0 == k && e.1 == l && e.2 == f && e.3
                == j,
        },
    decreases toks@.len() - at, 0int,
{
    let ghost ts = recs_view(toks@);
    proof {
        lemma_spec_value_props(ts, at as int, usize::MAX as int);
    }
    if at >= toks.len() {
        return Ok((None, at));
    }
    proof {
        assert(ts[at as int] == (toks@[at as int].0@, toks@[at as int].1 as int, toks@[at
            as int].2 as int));
    }
    let l = toks[at].1;
    let f = toks[at].2;
    match &toks[at].0 {
        Token::Null => Ok((Some(Json::Null), at + 1)),
        Token::True => Ok((Some(Json::Boolean(true)), at + 1)),
        Token::False => Ok((Some(Json::Boolean(false)), at + 1)),
        Token::NumberLiteral(x) => Ok((Some(Json::Number(x.clone())), at + 1)),
        Token::StringLiteral(x) => Ok((Some(Json::String(x.clone())), at + 1)),
        Token::OpenCurly => {
            if at + 1 < toks.len() && matches!(&toks[at + 1].0, Token::CloseCurly) {
                let empty_entries: Vec<(String, Json)> = Vec::new();
                proof {
                    assert(ts[at as int + 1].0 == toks@[at as int + 1].0@);
                    assert(entries_view(empty_entries@) =~= Seq::<(Seq<char>, JVal)>::empty());
                }
                Ok((Some(Json::Object(empty_entries)), at + 2))
            } else {
                proof {
                    if at + 1 < toks@.len() {
                        assert(ts[at as int + 1].0 == toks@[at as int + 1].0@);
                    }
                }
                parse_obj(toks, at + 1, l, f)
            }
        },
        Token::OpenSquare => {
            if at + 1 < toks.len() && matches!(&toks[at + 1].0, Token::CloseSquare) {
                let empty_elems: Vec<Json> = Vec::new();
                proof {
                    assert(ts[at as int + 1].0 == toks@[at as int + 1].0@);
                    assert(elems_view(empty_elems@) =~= Seq::<JVal>::empty());
                }
                Ok((Some(Json::Array(empty_elems)), at + 2))
            } else {
                proof {
                    if at + 1 < toks@.len() {
                        assert(ts[at as int + 1].0 == toks@[at as int + 1].0@);
                    }
                }
                parse_arr(toks, at + 1, f)
            }
        },
        _ => Err((ErrorKind::UnexpectedToken, l, f, at + 1)),
    }
}

/// Parses the elements of a non-empty array whose `[` has been consumed.
fn parse_arr(toks: &Vec<TokenRecord>, i0: usize, f0: usize) -> (r: Result<
    (Option<Json>, usize),
    (ErrorKind, usize, usize, usize),
>)
    requires
        i0 <= toks@.len(),
        toks_wf(recs_view(toks@)),
        recs_bounds(recs_view(toks@), usize::MAX as int),
    ensures
        match spec_arr(recs_view(toks@), i0 as int, Seq::empty(), f0 as int) {
            PRes::Val(v, j) => r matches Ok((o, jj)) && o matches Some(json) && json@ == v && jj
                == j,
            PRes::End => true,
            PRes::Fail(k, l, f, j) => r matches Err(e) && e.0 == k && e.1 == l && e.2 == f && e.3
                == j,
        },
    decreases toks@.len() - i0, 1int,
{
    let ghost ts = recs_view(toks@);
    let mut acc: Vec<Json> = Vec::new();
    let mut cur = i0;
    proof {
        assert(elems_view(acc@) =~= Seq::<JVal>::empty());
    }
    loop
        invariant
            i0 <= cur <= toks@.len(),
            ts == recs_view(toks@),
            toks_wf(ts),
            recs_bounds(ts, usize::MAX as int),
            spec_arr(ts, i0 as int, Seq::empty(), f0 as int) == spec_arr(
                ts,
                cur as int,
                elems_view(acc@),
                f0 as int,
            ),
        decreases toks@.len() - cur,
    {
        let ghost sacc = elems_view(acc@);
        if cur >= toks.len() {
            return Err((ErrorKind::UnterminatedArray, 0, f0, cur));
        }
        proof {
            lemma_spec_value_props(ts, cur as int, usize::MAX as int);
        }
        match next_value(toks, cur) {
            Ok((Some(v), j)) => {
                if j < toks.len() {
                    proof {
                        assert(ts[j as int] == (toks@[j as int].0@, toks@[j as int].1 as int, toks@[
                            j as int].2 as int));
                    }
                    let jl = toks[j].1;
                    let jf = toks[j].2;
                    match &toks[j].0 {
                        Token::Comma => {
                            let ghost acc0 = acc@;
                            acc.push(v);
                            proof {
                                assert(elems_view(acc@) =~= sacc.push(acc@[acc@.len() - 1]@));
                            }
                            cur = j + 1;
                        },
                        Token::CloseSquare => {
                            let ghost acc0 = acc@;
                            acc.push(v);
                            proof {
                                assert(elems_view(acc@) =~= sacc.push(acc@[acc@.len() - 1]@));
                            }
                            return Ok((Some(Json::Array(acc)), j + 1));
                        },
                        _ => {
                            return Err((ErrorKind::UnexpectedToken, jl, jf, j + 1));
                        },
                    }
                } else {
                    return Err((ErrorKind::UnterminatedArray, 0, f0, j));
                }
            },
            Ok((None, _)) => {
                return Err((ErrorKind::UnterminatedArray, 0, f0, cur));
            },
            Err(e) => {
                let rj = scan_close_at(toks, e.3, false);
                return Err((e.0, e.1, e.2, rj));
            },
        }
    }
}

/// Parses the entries of a non-empty object whose `{` (with record
/// `(cl, cf)`) has been consumed.
fn parse_obj(toks: &Vec<TokenRecord>, i0: usize, cl: usize, cf: usize) -> (r: Result<
    (Option<Json>, usize),
    (ErrorKind, usize, usize, usize),
>)
    requires
        i0 <= toks@.len(),
        toks_wf(recs_view(toks@)),
        recs_bounds(recs_view(toks@), usize::MAX as int),
    ensures
        match spec_obj(
            recs_view(toks@),
            i0 as int,
            Seq::empty(),
            cl as int,
            cf as int,
            cl as int,
            cf as int,
        ) {
            PRes::Val(v, j) => r matches Ok((o, jj)) && o matches Some(json) && json@ == v && jj
                == j,
            PRes::End => true,
            PRes::Fail(k, l, f, j) => r matches Err(e) && e.0 == k && e.1 == l && e.2 == f && e.3
                == j,
        },
    decreases toks@.len() - i0, 1int,
{
    let ghost ts = recs_view(toks@);
    let mut acc: Vec<(String, Json)> = Vec::new();
    let mut cur = i0;
    let mut lc_l = cl;
    let mut lc_f = cf;
    proof {
        assert(entries_view(acc@) =~= Seq::<(Seq<char>, JVal)>::empty());
    }
    loop
        invariant
            i0 <= cur <= toks@.len(),
            ts == recs_view(toks@),
            toks_wf(ts),
            recs_bounds(ts, usize::MAX as int),
            entries_sorted(entries_view(acc@)),
            entries_wf(entries_view(acc@)),
            spec_obj(
                ts,
                i0 as int,
                Seq::empty(),
                cl as int,
                cf as int,
                cl as int,
                cf as int,
            ) == spec_obj(
                ts,
                cur as int,
                entries_view(acc@),
                cl as int,
                cf as int,
                lc_l as int,
                lc_f as int,
            ),
        decreases toks@.len() - cur,
    {
        let ghost sacc = entries_view(acc@);
        if cur >= toks.len() {
            return Err((ErrorKind::UnexpectedToken, cl, cf, cur));
        }
        proof {
            assert(ts[cur as int] == (toks@[cur as int].0@, toks@[cur as int].1 as int, toks@[cur
                as int].2 as int));
        }
        let kl = toks[cur].1;
        let kf = toks[cur].2;
        let is_key = matches!(&toks[cur].0, Token::StringLiteral(_));
        let is_close = matches!(&toks[cur].0, Token::CloseCurly);
        if is_key {
            let has_colon = cur + 1 < toks.len() && matches!(&toks[cur + 1].0, Token::Colon);
            proof {
                if cur + 1 < toks@.len() {
                    assert(ts[cur as int + 1] == (toks@[cur as int + 1].0@, toks@[cur as int
                        + 1].1 as int, toks@[cur as int + 1].2 as int));
                }
            }
            if has_colon {
                let colon_f = toks[cur + 1].2;
                proof {
                    lemma_spec_value_props(ts, cur as int + 2, usize::MAX as int);
                }
                match next_value(toks, cur + 2) {
                    Ok((Some(v), j)) => {
                        let key = match &toks[cur].0 {
                            Token::StringLiteral(x) => x.clone(),
                            _ => String::new(),
                        };
                        proof {
                            crate::value::lemma_obj_insert_props(sacc, key@, v@);
                        }
                        if j < toks.len() {
                            proof {
                                assert(ts[j as int] == (toks@[j as int].0@, toks@[j as int].1
                                    as int, toks@[j as int].2 as int));
                            }
                            let jl = toks[j].1;
                            let jf = toks[j].2;
                            match &toks[j].0 {
                                Token::Comma => {
                                    insert_entry(&mut acc, key, v);
                                    lc_l = jl;
                                    lc_f = jf;
                                    cur = j + 1;
                                },
                                Token::CloseCurly => {
                                    insert_entry(&mut acc, key, v);
                                    return Ok((Some(Json::Object(acc)), j + 1));
                                },
                                _ => {
                                    return Err((ErrorKind::UnexpectedToken, jl, jf, j + 1));
                                },
                            }
                        } else {
                            return Err((ErrorKind::UnterminatedObject, 0, colon_f, j));
                        }
                    },
                    Ok((None, j)) => {
                        return Err((ErrorKind::UnterminatedObject, 0, colon_f, cur + 2));
                    },
                    Err(e) => {
                        let rj = scan_close_at(toks, e.3, true);
                        return Err((e.0, e.1, e.2, rj));
                    },
                }
            } else {
                return Err((ErrorKind::UnexpectedToken, kl, kf, cur + 1));
            }
        } else if is_close {
            return Err((ErrorKind::TrailingComma, lc_l, lc_f, cur + 1));
        } else {
            return Err((ErrorKind::UnexpectedToken, cl, cf, cur));
        }
    }
}

/// Builds the reported (kind, range) list from (kind, length, remaining)
/// records: each record's character range in the input, with both endpoints
/// translated to byte offsets.
fn make_spans(s: &str, total: usize, errs: &Vec<(ErrorKind, usize, usize)>) -> (r: Vec<
    (ErrorKind, Span),
>)
    requires
        total == s@.len(),
        forall|i: int| 0 <= i < errs@.len() ==> (#[trigger] errs@[i]).1 <= errs@[i].2 <= total,
    ensures
        spans_match(
            r@,
            errs_view(errs@).map_values(
                |e: (ErrorKind, int, int)| calc_range(total as int, e),
            ),
            s@,
        ),
{
    let ghost model = errs_view(errs@).map_values(
        |e: (ErrorKind, int, int)| calc_range(total as int, e),
    );
    let mut out: Vec<(ErrorKind, Span)> = Vec::new();
    let mut i: usize = 0;
    while i < errs.len()
        invariant
            i <= errs@.len(),
            total == s@.len(),
            model == errs_view(errs@).map_values(
                |e: (ErrorKind, int, int)| calc_range(total as int, e),
            ),
            forall|j: int| 0 <= j < errs@.len() ==> (#[trigger] errs@[j]).1 <= errs@[j].2 <= total,
            out@.len() == i,
            forall|j: int|
                0 <= j < i ==> (#[trigger] out@[j]).0 == model[j].0 && out@[j].1.start
                    == byte_offset(s@, model[j].1) && out@[j].1.end == byte_offset(s@, model[j].2),
        decreases errs@.len() - i,
    {
        let e = errs[i];
        let start = byte_index_of(s, total - e.2);
        let end = byte_index_of(s, total - e.2 + e.1);
        out.push((e.0, Span { start, end }));
        proof {
            assert(model[i as int] == calc_range(
                total as int,
                (errs@[i as int].0, errs@[i as int].1 as int, errs@[i as int].2 as int),
            ));
        }
        i += 1;
    }
    out
}

impl Json {
    /// Parses a JSON text into a value tree. On failure the complete ordered
    /// list of problems is returned instead, each with the byte range it
    /// covers in the input; every such range lies within the input. Lexical
    /// errors gate syntactic analysis: if any exist, only they are reported.
    pub fn parse(s: &str) -> (r: Result<Json, Vec<(ErrorKind, Span)>>)
        ensures
            match spec_parse(s@) {
                Ok(v) => r matches Ok(json) && json@ == v && wf(v),
                Err(es) => r matches Err(list) && spans_match(list@, es, s@) && forall|i: int|
                    0 <= i < es.len() ==> 0 <= (#[trigger] es[i]).1 <= es[i].2 <= s@.len() && 0
                        <= byte_offset(s@, es[i].1) <= byte_offset(s@, es[i].2) <= byte_offset(
                        s@,
                        s@.len() as int,
                    ),
            },
    {
        proof {
            assert forall|a: int, b: int| 0 <= a <= b <= s@.len() implies 0 <= #[trigger] byte_offset(
                s@,
                a,
            ) <= #[trigger] byte_offset(s@, b) <= byte_offset(s@, s@.len() as int) by {
                lemma_byte_offset_mono(s@, a, b);
                lemma_byte_offset_mono(s@, b, s@.len() as int);
            }
        }
        proof {
            crate::lexer::lemma_spec_tokenize_props(s@);
        }
        let total = s.unicode_len();
        let (toks, lex_errs, leftover) = tokenize(s);
        let ghost ts = recs_view(toks@);
        proof {
            assert(recs_bounds(ts, usize::MAX as int));
            lemma_spec_parse_stream_props(ts, 0, s@.len() as int);
        }
        if lex_errs.len() > 0 {
            proof {
                assert forall|i: int| 0 <= i < lex_errs@.len() implies (#[trigger] lex_errs@[i]).1
                    <= lex_errs@[i].2 <= total by {
                    assert(errs_view(lex_errs@)[i] == (lex_errs@[i].0, lex_errs@[i].1
                        as int, lex_errs@[i].2 as int));
                }
            }
            return Err(make_spans(s, total, &lex_errs));
        }
        let mut values: Vec<Json> = Vec::new();
        let mut errs: Vec<(ErrorKind, usize, usize)> = Vec::new();
        let mut cur: usize = 0;
        proof {
            assert(elems_view(values@) =~= Seq::<JVal>::empty());
            assert(errs_view(errs@) =~= Seq::<(ErrorKind, int, int)>::empty());
            assert(spec_parse_stream(ts, 0).0 =~= elems_view(values@) + spec_parse_stream(
                ts,
                0,
            ).0);
            assert(spec_parse_stream(ts, 0).1 =~= errs_view(errs@) + spec_parse_stream(ts, 0).1);
        }
        loop
            invariant
                cur <= toks@.len(),
                ts == recs_view(toks@),
                toks_wf(ts),
                recs_bounds(ts, usize::MAX as int),
                spec_parse_stream(ts, 0).0 == elems_view(values@) + spec_parse_stream(
                    ts,
                    cur as int,
                ).0,
                spec_parse_stream(ts, 0).1 == errs_view(errs@) + spec_parse_stream(
                    ts,
                    cur as int,
                ).1,
            ensures
                spec_parse_stream(ts, 0).0 == elems_view(values@),
                spec_parse_stream(ts, 0).1 == errs_view(errs@),
            decreases toks@.len() - cur,
        {
            if cur >= toks.len() {
                proof {
                    assert(spec_parse_stream(ts, cur as int).0 =~= Seq::<JVal>::empty());
                    assert(spec_parse_stream(ts, 0).0 =~= elems_view(values@));
                    assert(spec_parse_stream(ts, 0).1 =~= errs_view(errs@));
                }
                break ;
            }
            proof {
                lemma_spec_value_props(ts, cur as int, usize::MAX as int);
            }
            match next_value(&toks, cur) {
                Ok((Some(v), j)) => {
                    let ghost vals0 = values@;
                    let ghost cur0 = cur as int;
                    values.push(v);
                    cur = j;
                    proof {
                        let w = values@[values@.len() - 1]@;
                        assert(elems_view(values@) =~= elems_view(vals0).push(w));
                        assert(spec_parse_stream(ts, cur0).0 == seq![w] + spec_parse_stream(
                            ts,
                            cur as int,
                        ).0);
                        assert((elems_view(vals0) + (seq![w] + spec_parse_stream(ts, cur as int).0))
                            =~= (elems_view(vals0).push(w) + spec_parse_stream(ts, cur as int).0));
                    }
                },
                Ok((None, _)) => {
                    proof {
                        assert(spec_parse_stream(ts, cur as int).0 =~= Seq::<JVal>::empty());
                        assert(spec_parse_stream(ts, cur as int).1 =~= Seq::<
                            (ErrorKind, int, int),
                        >::empty());
                        assert(spec_parse_stream(ts, 0).0 =~= elems_view(values@));
                        assert(spec_parse_stream(ts, 0).1 =~= errs_view(errs@));
                    }
                    break ;
                },
                Err(e) => {
                    let ghost errs0 = errs@;
                    let ghost cur0 = cur as int;
                    errs.push((e.0, e.1, e.2));
                    cur = e.3;
                    proof {
                        let w = (e.0, e.1 as int, e.2 as int);
                        assert(errs_view(errs@) =~= errs_view(errs0) + seq![w]);
                        assert(spec_parse_stream(ts, cur0).1 == seq![w] + spec_parse_stream(
                            ts,
                            cur as int,
                        ).1);
                        assert((errs_view(errs0) + (seq![w] + spec_parse_stream(ts, cur as int).1))
                            =~= (errs_view(errs0) + seq![w]) + spec_parse_stream(ts, cur as int).1);
                    }
                },
            }
        }
        if errs.len() > 0 {
            proof {
                assert forall|i: int| 0 <= i < errs@.len() implies (#[trigger] errs@[i]).1
                    <= errs@[i].2 <= total by {
                    assert(errs_view(errs@)[i] == (errs@[i].0, errs@[i].1 as int, errs@[i].2
                        as int));
                }
            }
            return Err(make_spans(s, total, &errs));
        }
        proof {
            assert(errs_view(errs@) =~= Seq::<(ErrorKind, int, int)>::empty());
            assert(spec_parse_stream(ts, 0).1.len() == 0);
        }
        if values.len() == 1 {
            let v = values.remove(0);
            proof {
                assert(v@ == spec_parse_stream(ts, 0).0[0]);
            }
            Ok(v)
        } else {
            let mut one: Vec<(ErrorKind, usize, usize)> = Vec::new();
            one.push((ErrorKind::UnexpectedToken, leftover, leftover));
            let out = make_spans(s, total, &one);
            proof {
                let model = errs_view(one@).map_values(
                    |e: (ErrorKind, int, int)| calc_range(total as int, e),
                );
                assert(errs_view(one@) =~= seq![
                    (ErrorKind::UnexpectedToken, leftover as int, leftover as int),
                ]);
                assert(model =~= seq![
                    calc_range(
                        total as int,
                        (ErrorKind::UnexpectedToken, leftover as int, leftover as int),
                    ),
                ]);
            }
            Err(out)
        }
    }
}

impl core::str::FromStr for Json {
    type Err = Vec<(ErrorKind, Span)>;

    /// Parses a JSON text, as [`Json::parse`] does, with the same contract.
    fn from_str(s: &str) -> (r: Result<Json, Vec<(ErrorKind, Span)>>)
        ensures
            match spec_parse(s@) {
                Ok(v) => r matches Ok(json) && json@ == v && wf(v),
                Err(es) => r matches Err(list) && spans_match(list@, es, s@) && forall|i: int|
                    0 <= i < es.len() ==> 0 <= (#[trigger] es[i]).1 <= es[i].2 <= s@.len() && 0
                        <= byte_offset(s@, es[i].1) <= byte_offset(s@, es[i].2) <= byte_offset(
                        s@,
                        s@.len() as int,
                    ),
            },
    {
        Json::parse(s)
    }
}

} // verus!
