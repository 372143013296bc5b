//! The printer/parser round-trip laws: parsing what the printer rendered,
//! under any spacing policy, gives back the same tree.

use vstd::prelude::*;

use crate::lexer::is_ws;
use crate::lexer::spec_tokenize;
use crate::lexer::tok_next;
use crate::lexer::ws_scan;
use crate::lexer::TokStep;
use crate::number::is_digit;
use crate::number::is_number_lit;
use crate::number::num_char;
use crate::number::num_lex;
use crate::number::num_scan;
use crate::number::num_step;
use crate::number::NumOutcome;
use crate::number::NumState;
use crate::number::NumStep;
use crate::printer::compact_elems;
use crate::printer::compact_entries;
use crate::printer::kw_false;
use crate::printer::kw_null;
use crate::printer::kw_true;
use crate::printer::pretty_elems;
use crate::printer::pretty_entries;
use crate::printer::render;
use crate::printer::render_compact;
use crate::printer::render_pretty;
use crate::printer::Spacing;
use crate::string::str_lex;
use crate::string::str_scan;
use crate::string::StrOutcome;
use crate::parser::byte_offset;
use crate::parser::calc_range;
use crate::parser::scan_close;
use crate::parser::PRes;
use crate::parser::spec_arr;
use crate::parser::spec_obj;
use crate::parser::spec_parse;
use crate::parser::spec_parse_stream;
use crate::parser::spec_value;
use crate::token::Tok;
use crate::value::wf;
use crate::value::JVal;
use crate::ErrorKind;

verus! {

/// The tokens of a record sequence, without their positions.
pub open spec fn toks_of(ts: Seq<(Tok, int, int)>) -> Seq<Tok> {
    ts.map_values(|r: (Tok, int, int)| r.0)
}

/// Scanning `s` finds the tokens `pre` and then scans on exactly as it would
/// scan `rest`: same remaining tokens, same errors with the same position
/// records (positions are measured from the end of the input, which both
/// texts share), same leftover.
pub open spec fn lexes_to(s: Seq<char>, pre: Seq<Tok>, rest: Seq<char>) -> bool {
    let a = spec_tokenize(s);
    let b = spec_tokenize(rest);
    &&& toks_of(a.0) == pre + toks_of(b.0)
    &&& a.1 == b.1
    &&& a.2 == b.2
}

/// Chaining two scans.
proof fn lemma_lexes_chain(s1: Seq<char>, p1: Seq<Tok>, s2: Seq<char>, p2: Seq<Tok>, s3: Seq<char>)
    requires
        lexes_to(s1, p1, s2),
        lexes_to(s2, p2, s3),
    ensures
        lexes_to(s1, p1 + p2, s3),
{
    let a = spec_tokenize(s1);
    let c = spec_tokenize(s3);
    assert(toks_of(a.0) =~= (p1 + p2) + toks_of(c.0));
}

/// Every character of a text is whitespace.
pub open spec fn all_ws(s: Seq<char>) -> bool {
    forall|i: int| 0 <= i < s.len() ==> is_ws(#[trigger] s[i])
}

/// The whitespace scan stops at the first non-whitespace position.
proof fn lemma_ws_scan_stops(x: Seq<char>, i: nat, m: int)
    requires
        i <= m <= x.len(),
        forall|j: int| i <= j < m ==> is_ws(#[trigger] x[j]),
        m < x.len(),
        !is_ws(x[m]),
    ensures
        ws_scan(x, i) == m,
    decreases m - i,
{
    if i < m {
        lemma_ws_scan_stops(x, (i + 1) as nat, m);
    }
}

/// Up to the position the whitespace scan finds, everything is whitespace.
proof fn lemma_ws_scan_first(s: Seq<char>, i: nat)
    requires
        i <= s.len(),
    ensures
        forall|j: int| i <= j < ws_scan(s, i) ==> is_ws(#[trigger] s[j]),
        ws_scan(s, i) < s.len() ==> !is_ws(s[ws_scan(s, i)]),
    decreases s.len() - i,
{
    if i < s.len() && is_ws(s[i as int]) {
        lemma_ws_scan_first(s, (i + 1) as nat);
    }
}

/// Leading whitespace does not change what scanning finds: not the tokens,
/// not the errors with their records, not the leftover. The text after the
/// whitespace must hold some non-whitespace character.
proof fn lemma_tokenize_ws(ws: Seq<char>, s: Seq<char>)
    requires
        all_ws(ws),
        ws_scan(s, 0) < s.len(),
    ensures
        spec_tokenize(ws + s) == spec_tokenize(s),
{
    let x = ws + s;
    crate::lexer::lemma_ws_scan_bounds(s, 0);
    lemma_ws_scan_first(s, 0);
    let m = ws_scan(s, 0);
    assert(x[ws.len() + m] == s[m]);
    assert forall|j: int| 0 <= j < ws.len() + m implies is_ws(#[trigger] x[j]) by {
        if j < ws.len() {
            assert(x[j] == ws[j]);
        } else {
            assert(x[j] == s[j - ws.len()]);
        }
    }
    lemma_ws_scan_stops(x, 0, ws.len() + m);
    let r = x.skip(ws_scan(x, 0));
    assert(r =~= s.skip(m));
    assert(tok_next(x) == tok_next(s));
    crate::lexer::lemma_tok_next_bounds(s);
    match tok_next(s) {
        TokStep::End => {
            assert(false);
        },
        TokStep::Found(t, len, rem) => {
            let jx = x.len() - rem + len;
            let js = s.len() - rem + len;
            assert(x.skip(jx) =~= s.skip(js));
        },
        TokStep::Failed(k, l, f) => {
            let jx = x.len() - f + l;
            let js = s.len() - f + l;
            assert(x.skip(jx) =~= s.skip(js));
        },
    }
}

/// A structural character scans as its token.
proof fn lemma_lex_structural(c: char, tok: Tok, rest: Seq<char>)
    requires
        (c == '{' && tok == Tok::OpenCurly) || (c == '}' && tok == Tok::CloseCurly) || (c == '['
            && tok == Tok::OpenSquare) || (c == ']' && tok == Tok::CloseSquare) || (c == ','
            && tok == Tok::Comma) || (c == ':' && tok == Tok::Colon),
    ensures
        lexes_to(seq![c] + rest, seq![tok], rest),
{
    let x = seq![c] + rest;
    assert(x[0] == c);
    lemma_ws_scan_stops(x, 0, 0);
    let r = x.skip(0);
    assert(r =~= x);
    assert(tok_next(x) == TokStep::Found(tok, 1, x.len() as int));
    assert(x.skip(1) =~= rest);
    let a = spec_tokenize(x);
    let b = spec_tokenize(rest);
    assert(a.0 == seq![(tok, 1int, x.len() as int)] + b.0);
    assert(toks_of(a.0) =~= seq![tok] + toks_of(b.0));
}

/// The keyword `null` scans as its token, whatever follows it.
proof fn lemma_lex_null(rest: Seq<char>)
    ensures
        lexes_to(kw_null() + rest, seq![Tok::Null], rest),
{
    let x = kw_null() + rest;
    assert(x[0] == 'n' && x[1] == 'u' && x[2] == 'l' && x[3] == 'l');
    lemma_ws_scan_stops(x, 0, 0);
    assert(x.skip(0) =~= x);
    assert(tok_next(x) == TokStep::Found(Tok::Null, 4, x.len() as int));
    assert(x.skip(4) =~= rest);
    let a = spec_tokenize(x);
    let b = spec_tokenize(rest);
    assert(toks_of(a.0) =~= seq![Tok::Null] + toks_of(b.0));
}

/// The keyword `true` scans as its token.
proof fn lemma_lex_true(rest: Seq<char>)
    ensures
        lexes_to(kw_true() + rest, seq![Tok::True], rest),
{
    let x = kw_true() + rest;
    assert(x[0] == 't' && x[1] == 'r' && x[2] == 'u' && x[3] == 'e');
    lemma_ws_scan_stops(x, 0, 0);
    assert(x.skip(0) =~= x);
    assert(tok_next(x) == TokStep::Found(Tok::True, 4, x.len() as int));
    assert(x.skip(4) =~= rest);
    let a = spec_tokenize(x);
    let b = spec_tokenize(rest);
    assert(toks_of(a.0) =~= seq![Tok::True] + toks_of(b.0));
}

/// The keyword `false` scans as its token.
proof fn lemma_lex_false(rest: Seq<char>)
    ensures
        lexes_to(kw_false() + rest, seq![Tok::False], rest),
{
    let x = kw_false() + rest;
    assert(x[0] == 'f' && x[1] == 'a' && x[2] == 'l' && x[3] == 's' && x[4] == 'e');
    lemma_ws_scan_stops(x, 0, 0);
    assert(x.skip(0) =~= x);
    assert(tok_next(x) == TokStep::Found(Tok::False, 5, x.len() as int));
    assert(x.skip(5) =~= rest);
    let a = spec_tokenize(x);
    let b = spec_tokenize(rest);
    assert(toks_of(a.0) =~= seq![Tok::False] + toks_of(b.0));
}

/// A text that contains no quote and no backslash.
pub open spec fn str_plain(t: Seq<char>) -> bool {
    forall|i: int| 0 <= i < t.len() ==> #[trigger] t[i] != '"' && t[i] != '\\'
}

/// Scanning a plain string literal copies it through verbatim, up to the
/// closing quote.
proof fn lemma_str_scan_plain(x: Seq<char>, t: Seq<char>, rest: Seq<char>, i: int, out: Seq<char>)
    requires
        x == seq!['"'] + t + seq!['"'] + rest,
        str_plain(t),
        0 <= i <= t.len(),
    ensures
        str_scan(x, (1 + i) as nat, false, None, out) == StrOutcome::Done(
            out + t.skip(i),
            t.len() as int + 2,
        ),
    decreases t.len() - i,
{
    if i < t.len() {
        assert(x[1 + i] == t[i]);
        assert(t[i] != '"' && t[i] != '\\');
        lemma_str_scan_plain(x, t, rest, i + 1, out.push(t[i]));
        assert(out.push(t[i]) + t.skip(i + 1) =~= out + t.skip(i));
    } else {
        assert(x[1 + i] == '"');
        assert(out + t.skip(i) =~= out);
    }
}

/// A quoted plain string scans as its token.
proof fn lemma_lex_string(t: Seq<char>, rest: Seq<char>)
    requires
        str_plain(t),
    ensures
        lexes_to(
            seq!['"'] + t + seq!['"'] + rest,
            seq![Tok::StringLiteral(t)],
            rest,
        ),
{
    let x = seq!['"'] + t + seq!['"'] + rest;
    assert(x[0] == '"');
    lemma_ws_scan_stops(x, 0, 0);
    assert(x.skip(0) =~= x);
    lemma_str_scan_plain(x, t, rest, 0, Seq::empty());
    assert(Seq::empty() + t.skip(0) =~= t);
    assert(str_lex(x) == StrOutcome::Done(t, t.len() as int + 2));
    assert(tok_next(x) == TokStep::Found(Tok::StringLiteral(t), t.len() as int + 2, x.len() as int));
    assert(x.skip(t.len() as int + 2) =~= rest);
    let a = spec_tokenize(x);
    let b = spec_tokenize(rest);
    assert(toks_of(a.0) =~= seq![Tok::StringLiteral(t)] + toks_of(b.0));
}

/// The text after a rendered value must not begin with a character that
/// could extend or fail a numeric literal; anything else (or the end of the
/// input) ends it.
pub open spec fn safe_follow(rest: Seq<char>) -> bool {
    rest.len() == 0 || !num_char(rest[0])
}

/// Running the number machine over a fully accepted literal with more text
/// appended stops exactly at the literal's end, provided the next character
/// is not part of the number alphabet.
proof fn lemma_num_scan_append(t: Seq<char>, rest: Seq<char>, i: nat, st: NumState)
    requires
        i <= t.len(),
        num_scan(t, i, st) matches NumOutcome::Stop(cnt, st2) && cnt == t.len(),
        safe_follow(rest),
    ensures
        num_scan(t + rest, i, st) == num_scan(t, i, st),
    decreases t.len() - i,
{
    let x = t + rest;
    if i < t.len() {
        assert(x[i as int] == t[i as int]);
        match num_step(st, t[i as int]) {
            NumStep::Go(st2) => {
                lemma_num_scan_append(t, rest, (i + 1) as nat, st2);
            },
            NumStep::Stop => {},
            NumStep::Bad => {},
        }
    } else {
        if rest.len() > 0 {
            assert(x[i as int] == rest[0]);
            assert(num_step(st, rest[0]) == NumStep::Stop);
        } else {
            assert(x.len() == i);
        }
    }
}

/// A valid numeric literal begins with a minus sign or a digit.
proof fn lemma_number_first(t: Seq<char>)
    requires
        is_number_lit(t),
    ensures
        t.len() > 0,
        t[0] == '-' || is_digit(t[0]),
        !is_ws(t[0]),
        t[0] != '{' && t[0] != '}' && t[0] != '[' && t[0] != ']' && t[0] != ',' && t[0] != ':'
            && t[0] != '"' && t[0] != 'n' && t[0] != 't' && t[0] != 'f',
{
    match num_step(NumState::Sign, t[0]) {
        NumStep::Go(st2) => {},
        NumStep::Stop => {
            assert(num_scan(t, 0, NumState::Sign) matches NumOutcome::Stop(cnt, _) && cnt == 0);
        },
        NumStep::Bad => {},
    }
}

/// A valid numeric literal scans as its token when what follows cannot
/// extend it.
proof fn lemma_lex_number(t: Seq<char>, rest: Seq<char>)
    requires
        is_number_lit(t),
        safe_follow(rest),
    ensures
        lexes_to(t + rest, seq![Tok::NumberLiteral(t)], rest),
{
    let x = t + rest;
    lemma_number_first(t);
    assert(x[0] == t[0]);
    lemma_ws_scan_stops(x, 0, 0);
    assert(x.skip(0) =~= x);
    lemma_num_scan_append(t, rest, 0, NumState::Sign);
    let cnt = t.len() as int;
    assert(num_scan(x, 0, NumState::Sign) matches NumOutcome::Stop(c, _) && c == cnt);
    assert(x[cnt - 1] == t[cnt - 1]);
    assert(is_digit(t[cnt - 1]));
    assert(x.subrange(0, cnt) =~= t);
    assert(num_lex(x) == Ok::<_, (int, int)>((t, cnt)));
    assert(tok_next(x) == TokStep::Found(Tok::NumberLiteral(t), cnt, x.len() as int));
    assert(x.skip(cnt) =~= rest);
    let a = spec_tokenize(x);
    let b = spec_tokenize(rest);
    assert(toks_of(a.0) =~= seq![Tok::NumberLiteral(t)] + toks_of(b.0));
}

/// The token sequence a value serializes to: what tokenizing its rendering
/// yields, under any spacing policy.
pub open spec fn ser(v: JVal) -> Seq<Tok>
    decreases v,
{
    match v {
        JVal::Null => seq![Tok::Null],
        JVal::Bool(b) => if b {
            seq![Tok::True]
        } else {
            seq![Tok::False]
        },
        JVal::Num(t) => seq![Tok::NumberLiteral(t)],
        JVal::Str(t) => seq![Tok::StringLiteral(t)],
        JVal::Arr(es) => seq![Tok::OpenSquare] + ser_elems(es) + seq![Tok::CloseSquare],
        JVal::Obj(en) => seq![Tok::OpenCurly] + ser_entries(en) + seq![Tok::CloseCurly],
    }
}

/// The comma-separated token sequences of an array's elements.
pub open spec fn ser_elems(es: Seq<JVal>) -> Seq<Tok>
    decreases es,
{
    if es.len() == 0 {
        Seq::empty()
    } else if es.len() == 1 {
        ser(es[0])
    } else {
        ser(es[0]) + seq![Tok::Comma] + ser_elems(es.drop_first())
    }
}

/// The comma-separated token sequences of an object's entries, each a key,
/// a colon and a value.
pub open spec fn ser_entries(en: Seq<(Seq<char>, JVal)>) -> Seq<Tok>
    decreases en,
{
    if en.len() == 0 {
        Seq::empty()
    } else {
        let head = seq![Tok::StringLiteral(en[0].0), Tok::Colon] + ser(en[0].1);
        if en.len() == 1 {
            head
        } else {
            head + seq![Tok::Comma] + ser_entries(en.drop_first())
        }
    }
}

/// A tree the printer can render as lexable text: no string value and no
/// object key holds a quote or a backslash, which the printer would copy
/// through unescaped.
pub open spec fn printable(v: JVal) -> bool
    decreases v,
{
    match v {
        JVal::Str(t) => str_plain(t),
        JVal::Arr(es) => elems_printable(es),
        JVal::Obj(en) => entries_printable(en),
        _ => true,
    }
}

/// Every element is printable.
pub open spec fn elems_printable(es: Seq<JVal>) -> bool
    decreases es,
{
    forall|i: int| 0 <= i < es.len() ==> printable(#[trigger] es[i])
}

/// Every key is plain and every value printable.
pub open spec fn entries_printable(en: Seq<(Seq<char>, JVal)>) -> bool
    decreases en,
{
    forall|i: int| 0 <= i < en.len() ==> str_plain((#[trigger] en[i]).0) && printable(en[i].1)
}

/// A compact rendering is never empty and never begins with whitespace.
proof fn lemma_compact_first(v: JVal)
    requires
        wf(v),
    ensures
        render_compact(v).len() > 0,
        !is_ws(render_compact(v)[0]),
{
    match v {
        JVal::Num(t) => {
            lemma_number_first(t);
        },
        _ => {},
    }
}

/// Scanning a compact rendering finds exactly the tree's tokens, then scans
/// on as it would scan the following text, which must not begin inside the
/// number alphabet.
proof fn lemma_lex_compact(v: JVal, rest: Seq<char>)
    requires
        wf(v),
        printable(v),
        safe_follow(rest),
    ensures
        lexes_to(render_compact(v) + rest, ser(v), rest),
    decreases v, 0int,
{
    match v {
        JVal::Null => {
            lemma_lex_null(rest);
        },
        JVal::Bool(b) => {
            if b {
                lemma_lex_true(rest);
            } else {
                lemma_lex_false(rest);
            }
        },
        JVal::Num(t) => {
            lemma_lex_number(t, rest);
        },
        JVal::Str(t) => {
            lemma_lex_string(t, rest);
            assert(render_compact(v) + rest =~= seq!['"'] + t + seq!['"'] + rest);
        },
        JVal::Arr(es) => {
            let mid = compact_elems(es) + (seq![']'] + rest);
            assert(render_compact(v) + rest =~= seq!['['] + mid);
            lemma_lex_structural('[', Tok::OpenSquare, mid);
            assert(safe_follow(seq![']'] + rest));
            lemma_lex_compact_elems(es, seq![']'] + rest);
            lemma_lex_structural(']', Tok::CloseSquare, rest);
            lemma_lexes_chain(
                mid,
                ser_elems(es),
                seq![']'] + rest,
                seq![Tok::CloseSquare],
                rest,
            );
            lemma_lexes_chain(
                seq!['['] + mid,
                seq![Tok::OpenSquare],
                mid,
                ser_elems(es) + seq![Tok::CloseSquare],
                rest,
            );
            assert(seq![Tok::OpenSquare] + (ser_elems(es) + seq![Tok::CloseSquare]) =~= ser(v));
        },
        JVal::Obj(en) => {
            let mid = compact_entries(en) + (seq!['}'] + rest);
            assert(render_compact(v) + rest =~= seq!['{'] + mid);
            lemma_lex_structural('{', Tok::OpenCurly, mid);
            assert(safe_follow(seq!['}'] + rest));
            lemma_lex_compact_entries(en, seq!['}'] + rest);
            lemma_lex_structural('}', Tok::CloseCurly, rest);
            lemma_lexes_chain(
                mid,
                ser_entries(en),
                seq!['}'] + rest,
                seq![Tok::CloseCurly],
                rest,
            );
            lemma_lexes_chain(
                seq!['{'] + mid,
                seq![Tok::OpenCurly],
                mid,
                ser_entries(en) + seq![Tok::CloseCurly],
                rest,
            );
            assert(seq![Tok::OpenCurly] + (ser_entries(en) + seq![Tok::CloseCurly]) =~= ser(v));
        },
    }
}

/// As [`lemma_lex_compact`], for an array's comma-joined elements.
proof fn lemma_lex_compact_elems(es: Seq<JVal>, rest: Seq<char>)
    requires
        wf(JVal::Arr(es)),
        printable(JVal::Arr(es)),
        safe_follow(rest),
    ensures
        lexes_to(compact_elems(es) + rest, ser_elems(es), rest),
    decreases es, 1int,
{
    if es.len() == 0 {
        assert(compact_elems(es) + rest =~= rest);
        let b = spec_tokenize(rest);
        assert(toks_of(b.0) =~= Seq::<Tok>::empty() + toks_of(b.0));
    } else if es.len() == 1 {
        assert(crate::value::elems_wf(es) && elems_printable(es));
        assert(wf(es[0]) && printable(es[0]));
        lemma_lex_compact(es[0], rest);
        assert(compact_elems(es) + rest =~= render_compact(es[0]) + rest);
    } else {
        let tail = es.drop_first();
        let rest1 = compact_elems(tail) + rest;
        let rest2 = seq![','] + rest1;
        assert(compact_elems(es) + rest =~= render_compact(es[0]) + rest2);
        assert(crate::value::elems_wf(es) && elems_printable(es));
        assert(wf(es[0]) && printable(es[0]));
        lemma_lex_compact(es[0], rest2);
        lemma_lex_structural(',', Tok::Comma, rest1);
        assert(wf(JVal::Arr(tail)) && printable(JVal::Arr(tail))) by {
            assert(forall|i: int| 0 <= i < tail.len() ==> tail[i] == es[i + 1]);
        }
        lemma_lex_compact_elems(tail, rest);
        lemma_lexes_chain(rest2, seq![Tok::Comma], rest1, ser_elems(tail), rest);
        lemma_lexes_chain(
            render_compact(es[0]) + rest2,
            ser(es[0]),
            rest2,
            seq![Tok::Comma] + ser_elems(tail),
            rest,
        );
        assert(ser(es[0]) + (seq![Tok::Comma] + ser_elems(tail)) =~= ser_elems(es));
    }
}

/// As [`lemma_lex_compact`], for an object's comma-joined entries.
proof fn lemma_lex_compact_entries(en: Seq<(Seq<char>, JVal)>, rest: Seq<char>)
    requires
        wf(JVal::Obj(en)),
        printable(JVal::Obj(en)),
        safe_follow(rest),
    ensures
        lexes_to(compact_entries(en) + rest, ser_entries(en), rest),
    decreases en, 1int,
{
    if en.len() == 0 {
        assert(compact_entries(en) + rest =~= rest);
        let b = spec_tokenize(rest);
        assert(toks_of(b.0) =~= Seq::<Tok>::empty() + toks_of(b.0));
    } else {
        let k = en[0].0;
        let v0 = en[0].1;
        let tail = en.drop_first();
        let after_entry: Seq<char> = if en.len() == 1 {
            rest
        } else {
            seq![','] + (compact_entries(tail) + rest)
        };
        let rest_v = after_entry;
        let rest_colon = render_compact(v0) + rest_v;
        let rest_key = seq![':'] + rest_colon;
        assert(compact_entries(en) + rest =~= seq!['"'] + k + seq!['"'] + rest_key);
        lemma_lex_string(k, rest_key);
        lemma_lex_structural(':', Tok::Colon, rest_colon);
        assert(safe_follow(rest_v));
        assert(wf(en[0].1) && printable(en[0].1) && str_plain(en[0].0)) by {
            assert(crate::value::entries_wf(en));
        }
        lemma_lex_compact(v0, rest_v);
        lemma_lexes_chain(
            rest_key,
            seq![Tok::Colon],
            rest_colon,
            ser(v0),
            rest_v,
        );
        lemma_lexes_chain(
            seq!['"'] + k + seq!['"'] + rest_key,
            seq![Tok::StringLiteral(k)],
            rest_key,
            seq![Tok::Colon] + ser(v0),
            rest_v,
        );
        let head = seq![Tok::StringLiteral(k), Tok::Colon] + ser(v0);
        assert(seq![Tok::StringLiteral(k)] + (seq![Tok::Colon] + ser(v0)) =~= head);
        if en.len() == 1 {
            assert(ser_entries(en) =~= head);
        } else {
            let rest1 = compact_entries(tail) + rest;
            lemma_lex_structural(',', Tok::Comma, rest1);
            assert(wf(JVal::Obj(tail)) && printable(JVal::Obj(tail))) by {
                assert(forall|i: int| 0 <= i < tail.len() ==> tail[i] == en[i + 1]);
                assert(crate::value::entries_sorted(en));
                assert(crate::value::entries_wf(en));
                assert forall|i: int, j: int| 0 <= i < j < tail.len() implies crate::value::text_lt(
                    (#[trigger] tail[i]).0,
                    (#[trigger] tail[j]).0,
                ) by {
                    assert(crate::value::text_lt(en[i + 1].0, en[j + 1].0));
                }
                assert forall|i: int| 0 <= i < tail.len() implies wf((#[trigger] tail[i]).1)
                    && printable(tail[i].1) && str_plain(tail[i].0) by {
                    assert(wf(en[i + 1].1) && printable(JVal::Obj(en)));
                    assert(str_plain(en[i + 1].0) && printable(en[i + 1].1));
                }
                assert(crate::value::entries_wf(tail));
            }
            lemma_lex_compact_entries(tail, rest);
            lemma_lexes_chain(rest_v, seq![Tok::Comma], rest1, ser_entries(tail), rest);
            lemma_lexes_chain(
                compact_entries(en) + rest,
                head,
                rest_v,
                seq![Tok::Comma] + ser_entries(tail),
                rest,
            );
            assert(head + (seq![Tok::Comma] + ser_entries(tail)) =~= ser_entries(en));
        }
    }
}

/// Scanning an indented rendering, after any leading whitespace, finds
/// exactly the tree's tokens — the same tokens the compact rendering yields —
/// then scans on as it would scan the following text.
#[verifier::rlimit(100)]
proof fn lemma_lex_pretty(v: JVal, unit: Seq<char>, pad: Seq<char>, ws: Seq<char>, rest: Seq<char>)
    requires
        wf(v),
        printable(v),
        safe_follow(rest),
        all_ws(unit),
        all_ws(pad),
        all_ws(ws),
    ensures
        lexes_to(ws + render_pretty(v, unit, pad) + rest, ser(v), rest),
    decreases v, 0int,
{
    let rp = render_pretty(v, unit, pad);
    let x = ws + rp + rest;
    assert(x =~= ws + (rp + rest));
    match v {
        JVal::Arr(es) => {
            let ghost ind = pad + unit;
            assert(all_ws(ind)) by {
                assert forall|i: int| 0 <= i < ind.len() implies is_ws(#[trigger] ind[i]) by {
                    if i < pad.len() {
                        assert(ind[i] == pad[i]);
                    } else {
                        assert(ind[i] == unit[i - pad.len()]);
                    }
                }
            }
            if es.len() == 0 {
                assert((rp + rest)[0] == '[');
                lemma_ws_scan_stops(rp + rest, 0, 0);
                lemma_tokenize_ws(ws, rp + rest);
                let rest1 = seq![']'] + rest;
                assert(rp + rest =~= seq!['['] + rest1);
                lemma_lex_structural('[', Tok::OpenSquare, rest1);
                lemma_lex_structural(']', Tok::CloseSquare, rest);
                lemma_lexes_chain(
                    seq!['['] + rest1,
                    seq![Tok::OpenSquare],
                    rest1,
                    seq![Tok::CloseSquare],
                    rest,
                );
                assert(seq![Tok::OpenSquare] + seq![Tok::CloseSquare] =~= ser(v));
                assert(ser_elems(es) =~= Seq::<Tok>::empty());
                assert(seq![Tok::OpenSquare] + ser_elems(es) + seq![Tok::CloseSquare] =~= seq![
                    Tok::OpenSquare,
                    Tok::CloseSquare,
                ]);
            } else if es.len() == 1 {
                assert(crate::value::elems_wf(es) && elems_printable(es));
                assert((rp + rest)[0] == '[');
                lemma_ws_scan_stops(rp + rest, 0, 0);
                lemma_tokenize_ws(ws, rp + rest);
                let rest3 = seq![']'] + rest;
                let rest2 = seq![' '] + rest3;
                let core = render_compact(es[0]) + rest2;
                let rest1 = seq![' '] + core;
                assert(rp + rest =~= seq!['['] + rest1);
                lemma_lex_structural('[', Tok::OpenSquare, rest1);
                lemma_compact_first(es[0]);
                lemma_ws_scan_stops(core, 0, 0);
                lemma_tokenize_ws(seq![' '], core);
                assert(safe_follow(rest2));
                lemma_lex_compact(es[0], rest2);
                lemma_ws_scan_stops(rest3, 0, 0);
                lemma_tokenize_ws(seq![' '], rest3);
                lemma_lex_structural(']', Tok::CloseSquare, rest);
                assert(lexes_to(rest2, seq![Tok::CloseSquare], rest));
                lemma_lexes_chain(
                    core,
                    ser(es[0]),
                    rest2,
                    seq![Tok::CloseSquare],
                    rest,
                );
                assert(lexes_to(rest1, ser(es[0]) + seq![Tok::CloseSquare], rest));
                lemma_lexes_chain(
                    seq!['['] + rest1,
                    seq![Tok::OpenSquare],
                    rest1,
                    ser(es[0]) + seq![Tok::CloseSquare],
                    rest,
                );
                assert(seq![Tok::OpenSquare] + (ser(es[0]) + seq![Tok::CloseSquare]) =~= ser(v));
            } else {
                assert((rp + rest)[0] == '[');
                lemma_ws_scan_stops(rp + rest, 0, 0);
                lemma_tokenize_ws(ws, rp + rest);
                let tail = pad + (seq![']'] + rest);
                let rest1 = seq!['\n'] + (pretty_elems(es, unit, ind) + tail);
                assert(rp + rest =~= seq!['['] + rest1);
                lemma_lex_structural('[', Tok::OpenSquare, rest1);
                assert(tail[pad.len() as int] == ']');
                assert forall|j: int| 0 <= j < pad.len() implies is_ws(#[trigger] tail[j]) by {
                    assert(tail[j] == pad[j]);
                }
                lemma_ws_scan_stops(tail, 0, pad.len() as int);
                assert(all_ws(seq!['\n']));
                lemma_lex_pretty_elems(es, unit, ind, seq!['\n'], tail);
                assert(rest1 =~= seq!['\n'] + pretty_elems(es, unit, ind) + tail);
                lemma_tokenize_ws(pad, seq![']'] + rest);
                lemma_lex_structural(']', Tok::CloseSquare, rest);
                assert(lexes_to(tail, seq![Tok::CloseSquare], rest));
                lemma_lexes_chain(
                    rest1,
                    ser_elems(es),
                    tail,
                    seq![Tok::CloseSquare],
                    rest,
                );
                lemma_lexes_chain(
                    seq!['['] + rest1,
                    seq![Tok::OpenSquare],
                    rest1,
                    ser_elems(es) + seq![Tok::CloseSquare],
                    rest,
                );
                assert(seq![Tok::OpenSquare] + (ser_elems(es) + seq![Tok::CloseSquare]) =~= ser(
                    v,
                ));
            }
        },
        JVal::Obj(en) => {
            let ghost ind = pad + unit;
            assert(all_ws(ind)) by {
                assert forall|i: int| 0 <= i < ind.len() implies is_ws(#[trigger] ind[i]) by {
                    if i < pad.len() {
                        assert(ind[i] == pad[i]);
                    } else {
                        assert(ind[i] == unit[i - pad.len()]);
                    }
                }
            }
            if en.len() == 0 {
                assert((rp + rest)[0] == '{');
                lemma_ws_scan_stops(rp + rest, 0, 0);
                lemma_tokenize_ws(ws, rp + rest);
                let rest1 = seq!['}'] + rest;
                assert(rp + rest =~= seq!['{'] + rest1);
                lemma_lex_structural('{', Tok::OpenCurly, rest1);
                lemma_lex_structural('}', Tok::CloseCurly, rest);
                lemma_lexes_chain(
                    seq!['{'] + rest1,
                    seq![Tok::OpenCurly],
                    rest1,
                    seq![Tok::CloseCurly],
                    rest,
                );
                assert(ser_entries(en) =~= Seq::<Tok>::empty());
                assert(seq![Tok::OpenCurly] + seq![Tok::CloseCurly] =~= ser(v));
            } else {
                assert((rp + rest)[0] == '{');
                lemma_ws_scan_stops(rp + rest, 0, 0);
                lemma_tokenize_ws(ws, rp + rest);
                let tail = pad + (seq!['}'] + rest);
                let rest1 = seq!['\n'] + (pretty_entries(en, unit, ind) + tail);
                assert(rp + rest =~= seq!['{'] + rest1);
                lemma_lex_structural('{', Tok::OpenCurly, rest1);
                assert(tail[pad.len() as int] == '}');
                assert forall|j: int| 0 <= j < pad.len() implies is_ws(#[trigger] tail[j]) by {
                    assert(tail[j] == pad[j]);
                }
                lemma_ws_scan_stops(tail, 0, pad.len() as int);
                assert(all_ws(seq!['\n']));
                lemma_lex_pretty_entries(en, unit, ind, seq!['\n'], tail);
                assert(rest1 =~= seq!['\n'] + pretty_entries(en, unit, ind) + tail);
                lemma_tokenize_ws(pad, seq!['}'] + rest);
                lemma_lex_structural('}', Tok::CloseCurly, rest);
                assert(lexes_to(tail, seq![Tok::CloseCurly], rest));
                lemma_lexes_chain(
                    rest1,
                    ser_entries(en),
                    tail,
                    seq![Tok::CloseCurly],
                    rest,
                );
                lemma_lexes_chain(
                    seq!['{'] + rest1,
                    seq![Tok::OpenCurly],
                    rest1,
                    ser_entries(en) + seq![Tok::CloseCurly],
                    rest,
                );
                assert(seq![Tok::OpenCurly] + (ser_entries(en) + seq![Tok::CloseCurly]) =~= ser(
                    v,
                ));
            }
        },
        _ => {
            lemma_compact_first(v);
            assert(rp == render_compact(v));
            assert((rp + rest)[0] == rp[0]);
            lemma_ws_scan_stops(rp + rest, 0, 0);
            lemma_tokenize_ws(ws, rp + rest);
            lemma_lex_compact(v, rest);
        },
    }
}

/// As [`lemma_lex_pretty`], for an array's elements, one per line.
#[verifier::rlimit(100)]
proof fn lemma_lex_pretty_elems(
    es: Seq<JVal>,
    unit: Seq<char>,
    ind: Seq<char>,
    ws: Seq<char>,
    tail: Seq<char>,
)
    requires
        es.len() > 0,
        wf(JVal::Arr(es)),
        printable(JVal::Arr(es)),
        all_ws(unit),
        all_ws(ind),
        all_ws(ws),
        ws_scan(tail, 0) < tail.len(),
    ensures
        lexes_to(ws + pretty_elems(es, unit, ind) + tail, ser_elems(es), tail),
    decreases es, 1int,
{
    let x = ws + pretty_elems(es, unit, ind) + tail;
    assert(crate::value::elems_wf(es) && elems_printable(es));
    assert(all_ws(ws + ind)) by {
        assert forall|i: int| 0 <= i < (ws + ind).len() implies is_ws(#[trigger] (ws + ind)[i]) by {
            if i < ws.len() {
                assert((ws + ind)[i] == ws[i]);
            } else {
                assert((ws + ind)[i] == ind[i - ws.len()]);
            }
        }
    }
    if es.len() == 1 {
        let rest2 = seq!['\n'] + tail;
        assert(pretty_elems(es, unit, ind) == ind + render_pretty(es[0], unit, ind)
            + Seq::<char>::empty() + seq!['\n'] + pretty_elems(es.drop_first(), unit, ind));
        assert(pretty_elems(es.drop_first(), unit, ind) == Seq::<char>::empty());
        assert(x =~= (ws + ind) + render_pretty(es[0], unit, ind) + rest2);
        assert(safe_follow(rest2));
        lemma_lex_pretty(es[0], unit, ind, ws + ind, rest2);
        assert(all_ws(seq!['\n']));
        lemma_tokenize_ws(seq!['\n'], tail);
        assert(lexes_to(rest2, Seq::<Tok>::empty(), tail)) by {
            let b = spec_tokenize(tail);
            assert(toks_of(b.0) =~= Seq::<Tok>::empty() + toks_of(b.0));
        }
        lemma_lexes_chain(
            (ws + ind) + render_pretty(es[0], unit, ind) + rest2,
            ser(es[0]),
            rest2,
            Seq::empty(),
            tail,
        );
        assert(ser(es[0]) + Seq::<Tok>::empty() =~= ser_elems(es));
    } else {
        let drop = es.drop_first();
        let rest3 = seq!['\n'] + (pretty_elems(drop, unit, ind) + tail);
        let rest2 = seq![','] + rest3;
        assert(pretty_elems(es, unit, ind) == ind + render_pretty(es[0], unit, ind) + seq![',']
            + seq!['\n'] + pretty_elems(drop, unit, ind));
        assert(x =~= (ws + ind) + render_pretty(es[0], unit, ind) + rest2);
        assert(safe_follow(rest2));
        lemma_lex_pretty(es[0], unit, ind, ws + ind, rest2);
        lemma_lex_structural(',', Tok::Comma, rest3);
        assert(rest3 =~= seq!['\n'] + pretty_elems(drop, unit, ind) + tail);
        assert(wf(JVal::Arr(drop)) && printable(JVal::Arr(drop))) by {
            assert(forall|i: int| 0 <= i < drop.len() ==> drop[i] == es[i + 1]);
            assert forall|i: int| 0 <= i < drop.len() implies wf(#[trigger] drop[i]) && printable(
                drop[i],
            ) by {
                assert(wf(es[i + 1]) && printable(es[i + 1]));
            }
            assert(crate::value::elems_wf(drop));
            assert(elems_printable(drop));
        }
        assert(all_ws(seq!['\n']));
        lemma_lex_pretty_elems(drop, unit, ind, seq!['\n'], tail);
        lemma_lexes_chain(rest2, seq![Tok::Comma], rest3, ser_elems(drop), tail);
        lemma_lexes_chain(
            (ws + ind) + render_pretty(es[0], unit, ind) + rest2,
            ser(es[0]),
            rest2,
            seq![Tok::Comma] + ser_elems(drop),
            tail,
        );
        assert(ser(es[0]) + (seq![Tok::Comma] + ser_elems(drop)) =~= ser_elems(es));
    }
}

/// As [`lemma_lex_pretty`], for an object's entries, one per line.
#[verifier::rlimit(100)]
proof fn lemma_lex_pretty_entries(
    en: Seq<(Seq<char>, JVal)>,
    unit: Seq<char>,
    ind: Seq<char>,
    ws: Seq<char>,
    tail: Seq<char>,
)
    requires
        en.len() > 0,
        wf(JVal::Obj(en)),
        printable(JVal::Obj(en)),
        all_ws(unit),
        all_ws(ind),
        all_ws(ws),
        ws_scan(tail, 0) < tail.len(),
    ensures
        lexes_to(ws + pretty_entries(en, unit, ind) + tail, ser_entries(en), tail),
    decreases en, 1int,
{
    let x = ws + pretty_entries(en, unit, ind) + tail;
    let k = en[0].0;
    let v0 = en[0].1;
    assert(crate::value::entries_wf(en) && entries_printable(en));
    assert(str_plain(k) && wf(v0) && printable(v0));
    let restv: Seq<char> = if en.len() == 1 {
        seq!['\n'] + tail
    } else {
        seq![','] + (seq!['\n'] + (pretty_entries(en.drop_first(), unit, ind) + tail))
    };
    let restc = seq![' '] + (render_pretty(v0, unit, ind) + restv);
    let restk = seq![':'] + restc;
    let strx = seq!['"'] + k + seq!['"'] + restk;
    assert(x =~= (ws + ind) + strx);
    assert(all_ws(ws + ind)) by {
        assert forall|i: int| 0 <= i < (ws + ind).len() implies is_ws(#[trigger] (ws + ind)[i]) by {
            if i < ws.len() {
                assert((ws + ind)[i] == ws[i]);
            } else {
                assert((ws + ind)[i] == ind[i - ws.len()]);
            }
        }
    }
    assert(strx[0] == '"');
    lemma_ws_scan_stops(strx, 0, 0);
    lemma_tokenize_ws(ws + ind, strx);
    lemma_lex_string(k, restk);
    lemma_lex_structural(':', Tok::Colon, restc);
    assert(safe_follow(restv));
    assert(all_ws(seq![' ']));
    lemma_lex_pretty(v0, unit, ind, seq![' '], restv);
    assert(lexes_to(restc, ser(v0), restv)) by {
        assert(restc =~= seq![' '] + render_pretty(v0, unit, ind) + restv);
    }
    if en.len() == 1 {
        assert(all_ws(seq!['\n']));
        lemma_tokenize_ws(seq!['\n'], tail);
        assert(lexes_to(restv, Seq::<Tok>::empty(), tail)) by {
            let b = spec_tokenize(tail);
            assert(toks_of(b.0) =~= Seq::<Tok>::empty() + toks_of(b.0));
        }
        lemma_lexes_chain(restc, ser(v0), restv, Seq::empty(), tail);
        lemma_lexes_chain(restk, seq![Tok::Colon], restc, ser(v0) + Seq::empty(), tail);
        lemma_lexes_chain(
            strx,
            seq![Tok::StringLiteral(k)],
            restk,
            seq![Tok::Colon] + (ser(v0) + Seq::empty()),
            tail,
        );
        assert(seq![Tok::StringLiteral(k)] + (seq![Tok::Colon] + (ser(v0) + Seq::<Tok>::empty()))
            =~= ser_entries(en));
    } else {
        let drop = en.drop_first();
        let rest3 = seq!['\n'] + (pretty_entries(drop, unit, ind) + tail);
        assert(restv =~= seq![','] + rest3);
        lemma_lex_structural(',', Tok::Comma, rest3);
        assert(rest3 =~= seq!['\n'] + pretty_entries(drop, unit, ind) + tail);
        assert(wf(JVal::Obj(drop)) && printable(JVal::Obj(drop))) by {
            assert(forall|i: int| 0 <= i < drop.len() ==> drop[i] == en[i + 1]);
            assert forall|i: int, j: int| 0 <= i < j < drop.len() implies crate::value::text_lt(
                (#[trigger] drop[i]).0,
                (#[trigger] drop[j]).0,
            ) by {
                assert(crate::value::text_lt(en[i + 1].0, en[j + 1].0));
            }
            assert forall|i: int| 0 <= i < drop.len() implies wf((#[trigger] drop[i]).1)
                && str_plain(drop[i].0) && printable(drop[i].1) by {
                assert(wf(en[i + 1].1));
                assert(str_plain(en[i + 1].0) && printable(en[i + 1].1));
            }
            assert(crate::value::entries_sorted(drop));
            assert(crate::value::entries_wf(drop));
            assert(entries_printable(drop));
        }
        assert(all_ws(seq!['\n']));
        lemma_lex_pretty_entries(drop, unit, ind, seq!['\n'], tail);
        lemma_lexes_chain(restv, seq![Tok::Comma], rest3, ser_entries(drop), tail);
        lemma_lexes_chain(
            restc,
            ser(v0),
            restv,
            seq![Tok::Comma] + ser_entries(drop),
            tail,
        );
        lemma_lexes_chain(
            restk,
            seq![Tok::Colon],
            restc,
            ser(v0) + (seq![Tok::Comma] + ser_entries(drop)),
            tail,
        );
        lemma_lexes_chain(
            strx,
            seq![Tok::StringLiteral(k)],
            restk,
            seq![Tok::Colon] + (ser(v0) + (seq![Tok::Comma] + ser_entries(drop))),
            tail,
        );
        assert(seq![Tok::StringLiteral(k)] + (seq![Tok::Colon] + (ser(v0) + (seq![Tok::Comma]
            + ser_entries(drop)))) =~= ser_entries(en));
    }
}


/// A serialization is never empty and never begins with a closing bracket,
/// a comma or a colon.
proof fn lemma_ser_first(v: JVal)
    ensures
        ser(v).len() >= 1,
        ser(v)[0] != Tok::CloseSquare,
        ser(v)[0] != Tok::CloseCurly,
        ser(v)[0] != Tok::Comma,
        ser(v)[0] != Tok::Colon,
{
    match v {
        JVal::Arr(es) => {
            assert(ser(v)[0] == Tok::OpenSquare);
        },
        JVal::Obj(en) => {
            assert(ser(v)[0] == Tok::OpenCurly);
        },
        _ => {},
    }
}

/// Parsing the serialization of a well-formed tree at its position in the
/// token sequence yields exactly that tree and stops right after it,
/// whatever the position records hold.
proof fn lemma_parse_ser(ts: Seq<(Tok, int, int)>, i: int, v: JVal)
    requires
        0 <= i,
        i + ser(v).len() <= ts.len(),
        toks_of(ts).subrange(i, i + ser(v).len()) == ser(v),
        wf(v),
    ensures
        spec_value(ts, i) == crate::parser::PRes::Val(v, i + ser(v).len()),
    decreases v, 0int,
{
    let n = ser(v).len() as int;
    assert(toks_of(ts)[i] == ts[i].0);
    assert(ts[i].0 == ser(v)[0]) by {
        assert(toks_of(ts).subrange(i, i + n)[0] == toks_of(ts)[i]);
    }
    match v {
        JVal::Null => {
            assert(ser(v) =~= seq![Tok::Null]);
            assert(ts[i].0 == Tok::Null);
            assert(spec_value(ts, i) == crate::parser::PRes::Val(JVal::Null, i + 1));
        },
        JVal::Bool(b) => {
            assert(ser(v).len() == 1);
        },
        JVal::Num(t) => {
            assert(ser(v).len() == 1);
        },
        JVal::Str(t) => {
            assert(ser(v).len() == 1);
        },
        JVal::Arr(es) => {
            assert(ser(v) == seq![Tok::OpenSquare] + ser_elems(es) + seq![Tok::CloseSquare]);
            if es.len() == 0 {
                assert(ser_elems(es) == Seq::<Tok>::empty());
                assert(ser(v) =~= seq![Tok::OpenSquare, Tok::CloseSquare]);
                assert(ts[i + 1].0 == ser(v)[1]) by {
                    assert(toks_of(ts).subrange(i, i + n)[1] == toks_of(ts)[i + 1]);
                }
                assert(es =~= Seq::<JVal>::empty());
            } else {
                lemma_ser_first(es[0]);
                assert(ser_elems(es)[0] == ser(es[0])[0]);
                assert(ts[i + 1].0 == ser(v)[1]) by {
                    assert(toks_of(ts).subrange(i, i + n)[1] == toks_of(ts)[i + 1]);
                }
                assert(ser(v)[1] == ser_elems(es)[0]);
                assert(ts[i + 1].0 != Tok::CloseSquare);
                assert(crate::value::elems_wf(es));
                assert(es.skip(0) =~= es);
                assert(es.take(0) =~= Seq::<JVal>::empty());
                assert(toks_of(ts).subrange(i + 1, i + 1 + (ser_elems(es).len() + 1)) =~= ser_elems(
                    es.skip(0),
                ) + seq![Tok::CloseSquare]) by {
                    assert forall|m: int| 0 <= m < ser_elems(es).len() + 1 implies toks_of(
                        ts,
                    ).subrange(i + 1, i + 1 + (ser_elems(es).len() + 1))[m] == (ser_elems(es)
                        + seq![Tok::CloseSquare])[m] by {
                        assert(toks_of(ts).subrange(i, i + n)[m + 1] == toks_of(ts)[i + 1 + m]);
                    }
                }
                lemma_parse_ser_arr(ts, i + 1, es, 0, ts[i].2);
                assert(ser_elems(es.skip(0)) == ser_elems(es));
                assert(spec_value(ts, i) == spec_arr(ts, i + 1, Seq::empty(), ts[i].2));
                assert(spec_arr(ts, i + 1, es.take(0), ts[i].2) == crate::parser::PRes::Val(
                    JVal::Arr(es),
                    i + 1 + ser_elems(es.skip(0)).len() + 1,
                ));
            }
        },
        JVal::Obj(en) => {
            assert(ser(v) == seq![Tok::OpenCurly] + ser_entries(en) + seq![Tok::CloseCurly]);
            if en.len() == 0 {
                assert(ser_entries(en) == Seq::<Tok>::empty());
                assert(ser(v) =~= seq![Tok::OpenCurly, Tok::CloseCurly]);
                assert(ts[i + 1].0 == ser(v)[1]) by {
                    assert(toks_of(ts).subrange(i, i + n)[1] == toks_of(ts)[i + 1]);
                }
                assert(en =~= Seq::<(Seq<char>, JVal)>::empty());
            } else {
                assert(ser_entries(en)[0] == Tok::StringLiteral(en[0].0));
                assert(ts[i + 1].0 == ser(v)[1]) by {
                    assert(toks_of(ts).subrange(i, i + n)[1] == toks_of(ts)[i + 1]);
                }
                assert(ser(v)[1] == ser_entries(en)[0]);
                assert(ts[i + 1].0 != Tok::CloseCurly);
                assert(en.skip(0) =~= en);
                assert(en.take(0) =~= Seq::<(Seq<char>, JVal)>::empty());
                assert(toks_of(ts).subrange(i + 1, i + 1 + (ser_entries(en).len() + 1)) =~= ser_entries(
                    en.skip(0),
                ) + seq![Tok::CloseCurly]) by {
                    assert forall|m: int| 0 <= m < ser_entries(en).len() + 1 implies toks_of(
                        ts,
                    ).subrange(i + 1, i + 1 + (ser_entries(en).len() + 1))[m] == (ser_entries(en)
                        + seq![Tok::CloseCurly])[m] by {
                        assert(toks_of(ts).subrange(i, i + n)[m + 1] == toks_of(ts)[i + 1 + m]);
                    }
                }
                lemma_parse_ser_obj(ts, i + 1, en, 0, ts[i].1, ts[i].2);
                assert(ser_entries(en.skip(0)) == ser_entries(en));
                assert(spec_value(ts, i) == spec_obj(
                    ts,
                    i + 1,
                    Seq::empty(),
                    ts[i].1,
                    ts[i].2,
                    ts[i].1,
                    ts[i].2,
                ));
                assert(spec_obj(ts, i + 1, en.take(0), ts[i].1, ts[i].2, ts[i].1, ts[i].2)
                    == crate::parser::PRes::Val(
                    JVal::Obj(en),
                    i + 1 + ser_entries(en.skip(0)).len() + 1,
                ));
            }
        },
    }
}

/// As [`lemma_parse_ser`], for the elements of an array whose first `k`
/// elements have been parsed already.
proof fn lemma_parse_ser_arr(ts: Seq<(Tok, int, int)>, i: int, es: Seq<JVal>, k: int, f0: int)
    requires
        0 <= i,
        0 <= k < es.len(),
        crate::value::elems_wf(es),
        i + ser_elems(es.skip(k)).len() + 1 <= ts.len(),
        toks_of(ts).subrange(i, i + ser_elems(es.skip(k)).len() + 1) == ser_elems(es.skip(k))
            + seq![Tok::CloseSquare],
    ensures
        spec_arr(ts, i, es.take(k), f0) == crate::parser::PRes::Val(
            JVal::Arr(es),
            i + ser_elems(es.skip(k)).len() + 1,
        ),
    decreases es, es.len() - k,
{
    let rem = es.skip(k);
    let tail_len = ser_elems(rem).len() as int + 1;
    assert(rem[0] == es[k]);
    lemma_ser_first(es[k]);
    let hn = ser(es[k]).len() as int;
    assert(toks_of(ts).subrange(i, i + hn) =~= ser(es[k])) by {
        assert forall|m: int| 0 <= m < hn implies toks_of(ts).subrange(i, i + hn)[m] == ser(
            es[k],
        )[m] by {
            assert(toks_of(ts).subrange(i, i + tail_len)[m] == toks_of(ts)[i + m]);
            if rem.len() == 1 {
                assert(ser_elems(rem)[m] == ser(rem[0])[m]);
            } else {
                assert(ser_elems(rem) == ser(rem[0]) + seq![Tok::Comma] + ser_elems(
                    rem.drop_first(),
                ));
                assert(ser_elems(rem)[m] == ser(rem[0])[m]);
            }
        }
    }
    assert(wf(es[k]));
    lemma_parse_ser(ts, i, es[k]);
    let j = i + hn;
    assert(toks_of(ts)[j] == ts[j].0);
    if rem.len() == 1 {
        assert(ts[j].0 == Tok::CloseSquare) by {
            assert(toks_of(ts).subrange(i, i + tail_len)[hn] == toks_of(ts)[j]);
            assert((ser_elems(rem) + seq![Tok::CloseSquare])[hn] == Tok::CloseSquare);
        }
        assert(es.take(k).push(es[k]) =~= es);
        assert(spec_arr(ts, i, es.take(k), f0) == crate::parser::PRes::Val(
            JVal::Arr(es),
            j + 1,
        ));
    } else {
        assert(ser_elems(rem) == ser(rem[0]) + seq![Tok::Comma] + ser_elems(rem.drop_first()));
        assert(ts[j].0 == Tok::Comma) by {
            assert(toks_of(ts).subrange(i, i + tail_len)[hn] == toks_of(ts)[j]);
            assert((ser_elems(rem) + seq![Tok::CloseSquare])[hn] == Tok::Comma);
        }
        assert(rem.drop_first() =~= es.skip(k + 1));
        let tail2 = ser_elems(es.skip(k + 1)).len() as int + 1;
        assert(toks_of(ts).subrange(j + 1, j + 1 + tail2) =~= ser_elems(es.skip(k + 1)) + seq![
            Tok::CloseSquare,
        ]) by {
            assert forall|m: int| 0 <= m < tail2 implies #[trigger] toks_of(ts).subrange(
                j + 1,
                j + 1 + tail2,
            )[m] == (ser_elems(es.skip(k + 1)) + seq![Tok::CloseSquare])[m] by {
                assert(toks_of(ts).subrange(i, i + tail_len)[hn + 1 + m] == toks_of(ts)[j + 1 + m]);
                assert((ser_elems(rem) + seq![Tok::CloseSquare])[hn + 1 + m] == (ser_elems(
                    es.skip(k + 1),
                ) + seq![Tok::CloseSquare])[m]);
            }
        }
        lemma_parse_ser_arr(ts, j + 1, es, k + 1, f0);
        assert(es.take(k).push(es[k]) =~= es.take(k + 1));
    }
}

/// As [`lemma_parse_ser`], for the entries of an object whose first `k`
/// entries have been parsed already. Because the keys are strictly sorted,
/// each next key inserts at the end, so the parsed entry list is exactly the
/// tree's.
proof fn lemma_parse_ser_obj(
    ts: Seq<(Tok, int, int)>,
    i: int,
    en: Seq<(Seq<char>, JVal)>,
    k: int,
    cl: int,
    cf: int,
)
    requires
        0 <= i,
        0 <= k < en.len(),
        crate::value::entries_sorted(en),
        crate::value::entries_wf(en),
        i + ser_entries(en.skip(k)).len() + 1 <= ts.len(),
        toks_of(ts).subrange(i, i + ser_entries(en.skip(k)).len() + 1) == ser_entries(en.skip(k))
            + seq![Tok::CloseCurly],
    ensures
        forall|lc_l: int, lc_f: int|
            #[trigger] spec_obj(ts, i, en.take(k), cl, cf, lc_l, lc_f)
                == crate::parser::PRes::Val(
                JVal::Obj(en),
                i + ser_entries(en.skip(k)).len() + 1,
            ),
    decreases en, en.len() - k,
{
    let rem = en.skip(k);
    let tail_len = ser_entries(rem).len() as int + 1;
    assert(rem[0] == en[k]);
    let key = en[k].0;
    let v0 = en[k].1;
    let head = seq![Tok::StringLiteral(key), Tok::Colon] + ser(v0);
    assert(ser_entries(rem) == if rem.len() == 1 {
        head
    } else {
        head + seq![Tok::Comma] + ser_entries(rem.drop_first())
    });
    let hn = ser(v0).len() as int;
    assert(toks_of(ts)[i] == ts[i].0);
    assert(toks_of(ts)[i + 1] == ts[i + 1].0);
    assert(ts[i].0 == Tok::StringLiteral(key)) by {
        assert(toks_of(ts).subrange(i, i + tail_len)[0] == toks_of(ts)[i]);
        assert((ser_entries(rem) + seq![Tok::CloseCurly])[0] == Tok::StringLiteral(key));
    }
    assert(ts[i + 1].0 == Tok::Colon) by {
        assert(toks_of(ts).subrange(i, i + tail_len)[1] == toks_of(ts)[i + 1]);
        assert((ser_entries(rem) + seq![Tok::CloseCurly])[1] == Tok::Colon);
    }
    assert(toks_of(ts).subrange(i + 2, i + 2 + hn) =~= ser(v0)) by {
        assert forall|m: int| 0 <= m < hn implies toks_of(ts).subrange(i + 2, i + 2 + hn)[m] == ser(
            v0,
        )[m] by {
            assert(toks_of(ts).subrange(i, i + tail_len)[2 + m] == toks_of(ts)[i + 2 + m]);
            assert((ser_entries(rem) + seq![Tok::CloseCurly])[2 + m] == ser(v0)[m]);
        }
    }
    assert(wf(v0));
    lemma_parse_ser(ts, i + 2, v0);
    let j = i + 2 + hn;
    assert(toks_of(ts)[j] == ts[j].0);
    // the next key is above every key inserted so far, so insertion appends
    assert(crate::value::entries_sorted(en.take(k))) by {
        assert(forall|m: int| 0 <= m < k ==> en.take(k)[m] == en[m]);
    }
    assert(forall|m: int| 0 <= m < k ==> crate::value::text_lt(
        #[trigger] en.take(k)[m].0,
        key,
    )) by {
        assert(forall|m: int| 0 <= m < k ==> en.take(k)[m] == en[m]);
    }
    crate::value::lemma_obj_insert_at(en.take(k), key, v0, k);
    assert(crate::value::obj_insert(en.take(k), key, v0) =~= en.take(k + 1)) by {
        assert(en.take(k).insert(k, (key, v0)) =~= en.take(k + 1));
        assert((key, v0) == en[k]);
    }
    if rem.len() == 1 {
        assert(ts[j].0 == Tok::CloseCurly) by {
            assert(toks_of(ts).subrange(i, i + tail_len)[2 + hn] == toks_of(ts)[j]);
            assert((ser_entries(rem) + seq![Tok::CloseCurly])[2 + hn] == Tok::CloseCurly);
        }
        assert(en.take(k + 1) =~= en);
        assert forall|lc_l: int, lc_f: int|
            #[trigger] spec_obj(ts, i, en.take(k), cl, cf, lc_l, lc_f)
                == crate::parser::PRes::Val(
                JVal::Obj(en),
                i + ser_entries(en.skip(k)).len() + 1,
            ) by {
            assert(spec_obj(ts, i, en.take(k), cl, cf, lc_l, lc_f)
                == crate::parser::PRes::Val(
                JVal::Obj(crate::value::obj_insert(en.take(k), key, v0)),
                j + 1,
            ));
        }
    } else {
        assert(ts[j].0 == Tok::Comma) by {
            assert(toks_of(ts).subrange(i, i + tail_len)[2 + hn] == toks_of(ts)[j]);
            assert((ser_entries(rem) + seq![Tok::CloseCurly])[2 + hn] == Tok::Comma);
        }
        assert(rem.drop_first() =~= en.skip(k + 1));
        let tail2 = ser_entries(en.skip(k + 1)).len() as int + 1;
        assert(toks_of(ts).subrange(j + 1, j + 1 + tail2) =~= ser_entries(en.skip(k + 1)) + seq![
            Tok::CloseCurly,
        ]) by {
            assert forall|m: int| 0 <= m < tail2 implies #[trigger] toks_of(ts).subrange(
                j + 1,
                j + 1 + tail2,
            )[m] == (ser_entries(en.skip(k + 1)) + seq![Tok::CloseCurly])[m] by {
                assert(toks_of(ts).subrange(i, i + tail_len)[2 + hn + 1 + m] == toks_of(ts)[j + 1
                    + m]);
                assert((ser_entries(rem) + seq![Tok::CloseCurly])[2 + hn + 1 + m] == (ser_entries(
                    en.skip(k + 1),
                ) + seq![Tok::CloseCurly])[m]);
            }
        }
        lemma_parse_ser_obj(ts, j + 1, en, k + 1, cl, cf);
        assert forall|lc_l: int, lc_f: int|
            #[trigger] spec_obj(ts, i, en.take(k), cl, cf, lc_l, lc_f)
                == crate::parser::PRes::Val(
                JVal::Obj(en),
                i + ser_entries(en.skip(k)).len() + 1,
            ) by {
            assert(spec_obj(ts, j + 1, en.take(k + 1), cl, cf, ts[j].1, ts[j].2)
                == crate::parser::PRes::Val(
                JVal::Obj(en),
                j + 1 + ser_entries(en.skip(k + 1)).len() + 1,
            ));
            assert(spec_obj(ts, i, en.take(k), cl, cf, lc_l, lc_f) == spec_obj(
                ts,
                j + 1,
                crate::value::obj_insert(en.take(k), key, v0),
                cl,
                cf,
                ts[j].1,
                ts[j].2,
            ));
        }
    }
}

/// Parsing a rendering of a well-formed, printable tree, under any spacing
/// policy, succeeds and yields exactly that tree.
pub proof fn lemma_parse_render(v: JVal, sp: Spacing)
    requires
        wf(v),
        printable(v),
    ensures
        spec_parse(render(v, sp)) == Ok::<JVal, Seq<(ErrorKind, int, int)>>(v),
{
    let x = render(v, sp);
    let nothing: Seq<char> = Seq::empty();
    assert(safe_follow(nothing));
    match sp {
        Spacing::Compact => {
            lemma_lex_compact(v, nothing);
            assert(render_compact(v) + nothing =~= x);
        },
        Spacing::TabIndent => {
            let unit = seq!['\t'];
            assert(all_ws(unit));
            assert(all_ws(nothing));
            lemma_lex_pretty(v, unit, nothing, nothing, nothing);
            assert(nothing + render_pretty(v, unit, nothing) + nothing =~= x);
        },
        Spacing::SpaceIndent(n) => {
            let unit = Seq::new(n as nat, |i: int| ' ');
            assert(all_ws(unit));
            assert(all_ws(nothing));
            lemma_lex_pretty(v, unit, nothing, nothing, nothing);
            assert(nothing + render_pretty(v, unit, nothing) + nothing =~= x);
        },
    }
    let t3 = spec_tokenize(x);
    let e3 = spec_tokenize(nothing);
    assert(e3 == (Seq::<(Tok, int, int)>::empty(), Seq::<(ErrorKind, int, int)>::empty(), 0int));
    assert(toks_of(e3.0) =~= Seq::<Tok>::empty());
    assert(toks_of(t3.0) =~= ser(v));
    assert(t3.1.len() == 0);
    assert(t3.2 == 0);
    let ts = t3.0;
    assert(ts.len() == ser(v).len()) by {
        assert(toks_of(ts).len() == ts.len());
    }
    assert(toks_of(ts).subrange(0, ser(v).len() as int) =~= ser(v));
    lemma_parse_ser(ts, 0, v);
    let pv = spec_parse_stream(ts, 0);
    assert(ser(v).len() >= 1) by {
        lemma_ser_first(v);
    }
    assert(spec_value(ts, 0) == crate::parser::PRes::Val(v, ts.len() as int));
    assert(spec_parse_stream(ts, ts.len() as int) == (
        Seq::<JVal>::empty(),
        Seq::<(ErrorKind, int, int)>::empty(),
    ));
    assert(pv.0 =~= seq![v]);
    assert(pv.1 =~= Seq::<(ErrorKind, int, int)>::empty());
    assert(spec_parse(x) == Ok::<JVal, Seq<(ErrorKind, int, int)>>(v));
}

/// Round trip: parsing the compact rendering of any well-formed, printable
/// tree reproduces a tree equal to it. A parsed tree is always well formed;
/// it is printable unless a decoded string or key holds a quote or a
/// backslash, which the printer copies through verbatim, so that its output
/// would not scan back to the same value.
pub proof fn lemma_round_trip(v: JVal)
    requires
        wf(v),
        printable(v),
    ensures
        spec_parse(render_compact(v)) == Ok::<JVal, Seq<(ErrorKind, int, int)>>(v),
{
    lemma_parse_render(v, Spacing::Compact);
}

/// Idempotence: whatever tree the parser reads back from a rendering, that
/// tree renders to the very same text again, under every spacing policy.
pub proof fn lemma_print_parse_print(v: JVal, sp: Spacing)
    requires
        wf(v),
        printable(v),
    ensures
        spec_parse(render(v, sp)) matches Ok(w) && render(w, sp) == render(v, sp),
{
    lemma_parse_render(v, sp);
}

/// An empty array or an empty object always renders as `[]` or `{}`
/// verbatim, under every spacing policy.
pub proof fn lemma_empty_containers_print_bare(sp: Spacing)
    ensures
        render(JVal::Arr(Seq::empty()), sp) == seq!['[', ']'],
        render(JVal::Obj(Seq::empty()), sp) == seq!['{', '}'],
{
    assert(seq!['['] + compact_elems(Seq::empty()) + seq![']'] =~= seq!['[', ']']);
    assert(seq!['{'] + compact_entries(Seq::empty()) + seq!['}'] =~= seq!['{', '}']);
}

/// An array of exactly one element renders compactly on one line as
/// `[ element ]` under every indenting unit and at every nesting depth,
/// never as a multi-line expansion.
pub proof fn lemma_single_element_array_one_line(e: JVal, unit: Seq<char>, pad: Seq<char>)
    ensures
        render_pretty(JVal::Arr(seq![e]), unit, pad) == seq!['[', ' '] + render_compact(e) + seq![
            ' ',
            ']',
        ],
{
    assert(seq![e][0] == e);
}

/// Determinism: the printed text is a function of the tree and the policy
/// alone, so repeated prints of the same tree yield the same text — in
/// particular, the same object key order.
pub proof fn lemma_print_deterministic(a: JVal, b: JVal, sp: Spacing)
    requires
        a == b,
    ensures
        render(a, sp) == render(b, sp),
{
}


/// Every record's length and remaining-length are ordered sanely, and from
/// any record to any later one the remaining length shrinks by at least the
/// earlier record's length: the regions they cover never overlap and come
/// left to right.
pub open spec fn toks_chain(ts: Seq<(Tok, int, int)>) -> bool {
    &&& forall|m: int| 0 <= m < ts.len() ==> 0 <= (#[trigger] ts[m]).1 <= ts[m].2
    &&& forall|a: int, b: int|
        0 <= a < b < ts.len() ==> (#[trigger] ts[b]).2 <= (#[trigger] ts[a]).2 - ts[a].1
}

/// As [`toks_chain`], for error records: later errors lie wholly to the
/// right of earlier ones.
pub open spec fn errs_chain(es: Seq<(ErrorKind, int, int)>) -> bool {
    forall|a: int, b: int|
        0 <= a < b < es.len() ==> (#[trigger] es[b]).2 <= (#[trigger] es[a]).2 - es[a].1
}

/// Scanning yields its tokens and its errors in input order: along both
/// lists the remaining length shrinks by at least the record's length.
proof fn lemma_tokenize_order(s: Seq<char>)
    ensures
        ({
            let (toks, errs, _) = spec_tokenize(s);
            &&& toks_chain(toks)
            &&& forall|m: int| 0 <= m < toks.len() ==> (#[trigger] toks[m]).2 <= s.len()
            &&& errs_chain(errs)
            &&& forall|m: int| 0 <= m < errs.len() ==> (#[trigger] errs[m]).2 <= s.len()
        }),
    decreases s.len(),
{
    let (toks, errs, _) = spec_tokenize(s);
    if s.len() == 0 {
    } else {
        crate::lexer::lemma_tok_next_bounds(s);
        match tok_next(s) {
            TokStep::End => {},
            TokStep::Found(t, len, rem) => {
                let j = s.len() - rem + len;
                let rest = s.skip(j);
                lemma_tokenize_order(rest);
                let rec = spec_tokenize(rest);
                assert(rest.len() == rem - len);
                assert(forall|m: int| 1 <= m < toks.len() ==> toks[m] == rec.0[m - 1]);
                assert forall|a: int, b: int| 0 <= a < b < toks.len() implies (#[trigger] toks[b]).2
                    <= (#[trigger] toks[a]).2 - toks[a].1 by {
                    if a == 0 {
                        assert(rec.0[b - 1].2 <= rest.len());
                    }
                }
            },
            TokStep::Failed(k, l, f) => {
                let j = s.len() - f + l;
                let rest = s.skip(j);
                lemma_tokenize_order(rest);
                let rec = spec_tokenize(rest);
                assert(rest.len() == f - l);
                assert(forall|m: int| 1 <= m < errs.len() ==> errs[m] == rec.1[m - 1]);
                assert forall|a: int, b: int| 0 <= a < b < errs.len() implies (#[trigger] errs[b]).2
                    <= (#[trigger] errs[a]).2 - errs[a].1 by {
                    if a == 0 {
                        assert(rec.1[b - 1].2 <= rest.len());
                    }
                }
            },
        }
    }
}


/// The recovery scan either moves strictly forward or runs to the end.
proof fn lemma_scan_close_forward(ts: Seq<(Tok, int, int)>, i: int, close: Tok)
    requires
        0 <= i <= ts.len(),
    ensures
        scan_close(ts, i, close) >= i + 1 || scan_close(ts, i, close) == ts.len(),
    decreases ts.len() - i,
{
    if i < ts.len() && ts[i].0 != close {
        lemma_scan_close_forward(ts, i + 1, close);
    }
}

/// A failed parse reports a record no wider than the remaining input at the
/// position it started from, and resumes where the remaining input has
/// shrunk past the reported region — so errors of later parses lie wholly to
/// the right.
proof fn lemma_value_order(ts: Seq<(Tok, int, int)>, i: int, total: int)
    requires
        0 <= i,
        toks_chain(ts),
        crate::token::toks_wf(ts),
        crate::token::recs_bounds(ts, total),
    ensures
        spec_value(ts, i) matches PRes::Fail(k, l, f, j) ==> i < ts.len() && f <= ts[i].2 && (j
            < ts.len() ==> ts[j].2 <= f - l),
    decreases ts.len() - i, 0int,
{
    crate::parser::lemma_spec_value_props(ts, i, total);
    if 0 <= i < ts.len() {
        let (t, l, f) = ts[i];
        match t {
            Tok::OpenCurly => {
                if !(i + 1 < ts.len() && ts[i + 1].0 == Tok::CloseCurly) {
                    assert forall|m: int| i + 1 <= m < ts.len() implies (#[trigger] ts[m]).2 <= f
                        - l by {
                        assert(ts[m].2 <= ts[i].2 - ts[i].1);
                    }
                    lemma_obj_order(ts, i + 1, l, f, l, f, total);
                    assert(spec_value(ts, i) == spec_obj(ts, i + 1, Seq::empty(), l, f, l, f));
                    assert(spec_obj(ts, i + 1, Seq::<(Seq<char>, JVal)>::empty(), l, f, l, f)
                        matches PRes::Fail(k2, l2, f2, j2) ==> f2 <= f && (j2 < ts.len()
                        ==> ts[j2].2 <= f2 - l2));
                }
            },
            Tok::OpenSquare => {
                if !(i + 1 < ts.len() && ts[i + 1].0 == Tok::CloseSquare) {
                    assert forall|m: int| i + 1 <= m < ts.len() implies (#[trigger] ts[m]).2
                        <= f by {
                        assert(ts[m].2 <= ts[i].2 - ts[i].1);
                    }
                    lemma_arr_order(ts, i + 1, f, total);
                    assert(spec_value(ts, i) == spec_arr(ts, i + 1, Seq::empty(), f));
                    assert(spec_arr(ts, i + 1, Seq::<JVal>::empty(), f) matches PRes::Fail(
                        k2,
                        l2,
                        f2,
                        j2,
                    ) ==> f2 <= f && (j2 < ts.len() ==> ts[j2].2 <= f2 - l2));
                }
            },
            _ => {
                if let PRes::Fail(k2, l2, f2, j2) = spec_value(ts, i) {
                    assert(f2 == ts[i].2 && l2 == ts[i].1 && j2 == i + 1);
                    if i + 1 < ts.len() {
                        assert(ts[i + 1].2 <= ts[i].2 - ts[i].1);
                    }
                }
            },
        }
    }
}

/// As [`lemma_value_order`], for the array rule: `f0` bounds the remaining
/// input at every position still to be parsed.
proof fn lemma_arr_order(ts: Seq<(Tok, int, int)>, i: int, f0: int, total: int)
    requires
        0 <= i,
        toks_chain(ts),
        crate::token::toks_wf(ts),
        crate::token::recs_bounds(ts, total),
        forall|m: int| i <= m < ts.len() ==> (#[trigger] ts[m]).2 <= f0,
    ensures
        forall|acc: Seq<JVal>|
            #[trigger] spec_arr(ts, i, acc, f0) matches PRes::Fail(k, l, f, j) ==> f <= f0 && (j
                < ts.len() ==> ts[j].2 <= f - l),
    decreases ts.len() - i, 1int,
{
    if 0 <= i < ts.len() {
        lemma_value_order(ts, i, total);
        crate::parser::lemma_spec_value_props(ts, i, total);
        match spec_value(ts, i) {
            PRes::End => {},
            PRes::Fail(ek, el, ef, j_in) => {
                crate::parser::lemma_scan_close_bounds(ts, j_in, Tok::CloseSquare);
                lemma_scan_close_forward(ts, j_in, Tok::CloseSquare);
                let sc = scan_close(ts, j_in, Tok::CloseSquare);
                if sc < ts.len() && sc > j_in {
                    assert(ts[sc].2 <= ts[j_in].2 - ts[j_in].1);
                }
            },
            PRes::Val(v, j) => {
                if j < ts.len() && ts[j].0 == Tok::Comma {
                    lemma_arr_order(ts, j + 1, f0, total);
                }
            },
        }
    }
    assert forall|acc: Seq<JVal>|
        #[trigger] spec_arr(ts, i, acc, f0) matches PRes::Fail(k, l, f, j) ==> f <= f0 && (j
        < ts.len() ==> ts[j].2 <= f - l) by {
        if 0 <= i < ts.len() {
            match spec_value(ts, i) {
                PRes::End => {},
                PRes::Fail(ek, el, ef, j_in) => {},
                PRes::Val(v, j2) => {
                    if j2 < ts.len() && ts[j2].0 == Tok::Comma {
                        assert(spec_arr(ts, j2 + 1, acc.push(v), f0) matches PRes::Fail(
                            k3,
                            l3,
                            f3,
                            j3,
                        ) ==> f3 <= f0 && (j3 < ts.len() ==> ts[j3].2 <= f3 - l3));
                    }
                },
            }
        }
    }
}

/// As [`lemma_value_order`], for the object rule: the last comma's record
/// bounds the remaining input at every position still to be parsed, and lies
/// within the opening brace's record.
proof fn lemma_obj_order(
    ts: Seq<(Tok, int, int)>,
    i: int,
    cl: int,
    cf: int,
    lc_l: int,
    lc_f: int,
    total: int,
)
    requires
        0 <= i,
        toks_chain(ts),
        crate::token::toks_wf(ts),
        crate::token::recs_bounds(ts, total),
        0 <= cl,
        0 <= lc_l,
        lc_f <= cf,
        lc_f - lc_l <= cf - cl,
        forall|m: int| i <= m < ts.len() ==> (#[trigger] ts[m]).2 <= lc_f - lc_l,
    ensures
        forall|acc: Seq<(Seq<char>, JVal)>|
            #[trigger] spec_obj(ts, i, acc, cl, cf, lc_l, lc_f) matches PRes::Fail(k, l, f, j)
                ==> f <= cf && (j < ts.len() ==> ts[j].2 <= f - l),
    decreases ts.len() - i, 1int,
{
    if 0 <= i < ts.len() {
        let (t, l, f) = ts[i];
        if let Tok::StringLiteral(key) = t {
            if i + 1 < ts.len() && ts[i + 1].0 == Tok::Colon {
                lemma_value_order(ts, i + 2, total);
                crate::parser::lemma_spec_value_props(ts, i + 2, total);
                match spec_value(ts, i + 2) {
                    PRes::End => {},
                    PRes::Fail(ek, el, ef, j_in) => {
                        crate::parser::lemma_scan_close_bounds(ts, j_in, Tok::CloseCurly);
                        lemma_scan_close_forward(ts, j_in, Tok::CloseCurly);
                        let sc = scan_close(ts, j_in, Tok::CloseCurly);
                        if sc < ts.len() && sc > j_in {
                            assert(ts[sc].2 <= ts[j_in].2 - ts[j_in].1);
                        }
                    },
                    PRes::Val(v, j) => {
                        if j < ts.len() && ts[j].0 == Tok::Comma {
                            assert forall|m: int| j + 1 <= m < ts.len() implies (#[trigger] ts[m]).2
                                <= ts[j].2 - ts[j].1 by {
                                assert(ts[m].2 <= ts[j].2 - ts[j].1);
                            }
                            assert(ts[j].2 <= lc_f - lc_l);
                            lemma_obj_order(ts, j + 1, cl, cf, ts[j].1, ts[j].2, total);
                        }
                    },
                }
            }
        }
    }
    assert forall|acc: Seq<(Seq<char>, JVal)>|
        #[trigger] spec_obj(ts, i, acc, cl, cf, lc_l, lc_f) matches PRes::Fail(k, l, f, j) ==> f
        <= cf && (j < ts.len() ==> ts[j].2 <= f - l) by {
        if 0 <= i < ts.len() {
            if let Tok::StringLiteral(key) = ts[i].0 {
                if i + 1 < ts.len() && ts[i + 1].0 == Tok::Colon {
                    match spec_value(ts, i + 2) {
                        PRes::End => {},
                        PRes::Fail(ek, el, ef, j_in) => {},
                        PRes::Val(v, j2) => {
                            if j2 < ts.len() && ts[j2].0 == Tok::Comma {
                                assert(spec_obj(
                                    ts,
                                    j2 + 1,
                                    crate::value::obj_insert(acc, key, v),
                                    cl,
                                    cf,
                                    ts[j2].1,
                                    ts[j2].2,
                                ) matches PRes::Fail(k3, l3, f3, j3) ==> f3 <= cf && (j3 < ts.len()
                                    ==> ts[j3].2 <= f3 - l3));
                            }
                        },
                    }
                }
            }
        }
    }
}


/// Across the whole top level, the syntax errors come out in input order,
/// all of them within the remaining input at the position parsing starts
/// from.
proof fn lemma_stream_order(ts: Seq<(Tok, int, int)>, i: int, total: int)
    requires
        0 <= i,
        toks_chain(ts),
        crate::token::toks_wf(ts),
        crate::token::recs_bounds(ts, total),
    ensures
        ({
            let es = spec_parse_stream(ts, i).1;
            &&& errs_chain(es)
            &&& forall|m: int|
                0 <= m < es.len() ==> i < ts.len() && (#[trigger] es[m]).2 <= ts[i].2
        }),
    decreases ts.len() - i,
{
    let es = spec_parse_stream(ts, i).1;
    if 0 <= i < ts.len() {
        crate::parser::lemma_spec_value_props(ts, i, total);
        lemma_value_order(ts, i, total);
        match spec_value(ts, i) {
            PRes::End => {},
            PRes::Val(v, j) => {
                lemma_stream_order(ts, j, total);
                let r = spec_parse_stream(ts, j);
                assert forall|m: int| 0 <= m < es.len() implies i < ts.len() && (#[trigger] es[m]).2
                    <= ts[i].2 by {
                    assert(es[m] == r.1[m]);
                    if j < ts.len() {
                        assert(ts[j].2 <= ts[i].2 - ts[i].1);
                    }
                }
            },
            PRes::Fail(k, l, f, j) => {
                lemma_stream_order(ts, j, total);
                let r = spec_parse_stream(ts, j);
                assert(forall|m: int| 1 <= m < es.len() ==> es[m] == r.1[m - 1]);
                assert forall|a: int, b: int| 0 <= a < b < es.len() implies (#[trigger] es[b]).2
                    <= (#[trigger] es[a]).2 - es[a].1 by {
                    if a == 0 {
                        assert(es[b] == r.1[b - 1]);
                        assert(r.1[b - 1].2 <= ts[j].2);
                    }
                }
                assert forall|m: int| 0 <= m < es.len() implies i < ts.len() && (#[trigger] es[m]).2
                    <= ts[i].2 by {
                    if m > 0 {
                        assert(es[m] == r.1[m - 1]);
                        assert(r.1[m - 1].2 <= ts[j].2);
                        assert(ts[j].2 <= f - l);
                    }
                }
            },
        }
    }
}

/// The reported problems appear in input order, left to right: each error's
/// range ends no later than the next one's begins — in characters, and hence
/// also in the byte offsets the spans carry.
pub proof fn lemma_errors_ordered(s: Seq<char>)
    ensures
        spec_parse(s) matches Err(es) ==> forall|a: int, b: int|
            0 <= a < b < es.len() ==> (#[trigger] es[a]).2 <= (#[trigger] es[b]).1 && byte_offset(
                s,
                es[a].2,
            ) <= byte_offset(s, es[b].1),
    decreases 0int,
{
    crate::lexer::lemma_spec_tokenize_props(s);
    lemma_tokenize_order(s);
    let t3 = spec_tokenize(s);
    let total = s.len() as int;
    if t3.1.len() > 0 {
        let es = t3.1.map_values(|e: (ErrorKind, int, int)| calc_range(total, e));
        assert forall|a: int, b: int| 0 <= a < b < es.len() implies (#[trigger] es[a]).2 <= (
        #[trigger] es[b]).1 && byte_offset(s, es[a].2) <= byte_offset(s, es[b].1) by {
            assert(es[a] == calc_range(total, t3.1[a]));
            assert(es[b] == calc_range(total, t3.1[b]));
            assert(t3.1[b].2 <= t3.1[a].2 - t3.1[a].1);
            crate::parser::lemma_byte_offset_mono(s, es[a].2, es[b].1);
        }
    } else {
        lemma_stream_order(t3.0, 0, total);
        crate::parser::lemma_spec_parse_stream_props(t3.0, 0, total);
        let pv = spec_parse_stream(t3.0, 0);
        if pv.1.len() > 0 {
            let es = pv.1.map_values(|e: (ErrorKind, int, int)| calc_range(total, e));
            assert forall|a: int, b: int| 0 <= a < b < es.len() implies (#[trigger] es[a]).2 <= (
            #[trigger] es[b]).1 && byte_offset(s, es[a].2) <= byte_offset(s, es[b].1) by {
                assert(es[a] == calc_range(total, pv.1[a]));
                assert(es[b] == calc_range(total, pv.1[b]));
                assert(pv.1[b].2 <= pv.1[a].2 - pv.1[a].1);
                assert(0 <= pv.1[a].1 && pv.1[a].1 <= pv.1[a].2 && pv.1[a].2 <= total);
                assert(0 <= pv.1[b].1 && pv.1[b].1 <= pv.1[b].2 && pv.1[b].2 <= total);
                crate::parser::lemma_byte_offset_mono(s, es[a].2, es[b].1);
            }
        }
    }
}

} // verus!
