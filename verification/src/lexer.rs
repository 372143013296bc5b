//! The tokenizer: trims leading whitespace, dispatches on the first
//! character, and its driver loop, which scans a whole text into tokens,
//! resuming past malformed regions so that further lexical errors are still
//! found.

use vstd::prelude::*;

use crate::number::num_lex;
use crate::number::try_get_number;
use crate::string::str_lex;
use crate::string::try_get_string;
use crate::string::StrOutcome;
use crate::token::recs_view;
use crate::token::Tok;
use crate::token::Token;
use crate::token::TokenRecord;
use crate::ErrorKind;

verus! {

/// JSON whitespace.
pub open spec fn is_ws(c: char) -> bool {
    c == ' ' || c == '\t' || c == '\n' || c == '\r'
}

/// First position at or after `i` holding a non-whitespace character (or the
/// end of the input).
pub open spec fn ws_scan(s: Seq<char>, i: nat) -> int
    decreases s.len() - i,
{
    if i >= s.len() {
        s.len() as int
    } else if is_ws(s[i as int]) {
        ws_scan(s, (i + 1) as nat)
    } else {
        i as int
    }
}

/// The scan lands between `i` and the end of the input.
pub proof fn lemma_ws_scan_bounds(s: Seq<char>, i: nat)
    requires
        i <= s.len(),
    ensures
        i <= ws_scan(s, i) <= s.len(),
    decreases s.len() - i,
{
    if i < s.len() && is_ws(s[i as int]) {
        lemma_ws_scan_bounds(s, (i + 1) as nat);
    }
}

/// What the tokenizer does with the text `s`: nothing but trailing
/// whitespace is left, or one token is found, or lexing fails. A found token
/// carries its length and the input length remaining at its start; an error
/// carries its (length, remaining) record, from which scanning resumes just
/// past the malformed region.
pub enum TokStep {
    End,
    Found(Tok, int, int),
    Failed(ErrorKind, int, int),
}

/// One step of the tokenizer on `s`: trim leading whitespace, then dispatch
/// on the first character. `{ } [ ] , :` become structural tokens; a quote
/// starts a string literal; the keywords `null`, `true`, `false` are matched
/// by fixed prefix (whatever follows them); everything else must begin a
/// numeric literal.
pub open spec fn tok_next(s: Seq<char>) -> TokStep {
    let r = s.skip(ws_scan(s, 0));
    if r.len() == 0 {
        TokStep::End
    } else if r[0] == '{' {
        TokStep::Found(Tok::OpenCurly, 1, r.len() as int)
    } else if r[0] == '}' {
        TokStep::Found(Tok::CloseCurly, 1, r.len() as int)
    } else if r[0] == '[' {
        TokStep::Found(Tok::OpenSquare, 1, r.len() as int)
    } else if r[0] == ']' {
        TokStep::Found(Tok::CloseSquare, 1, r.len() as int)
    } else if r[0] == ',' {
        TokStep::Found(Tok::Comma, 1, r.len() as int)
    } else if r[0] == ':' {
        TokStep::Found(Tok::Colon, 1, r.len() as int)
    } else if r[0] == '"' {
        match str_lex(r) {
            StrOutcome::Done(content, len) => TokStep::Found(
                Tok::StringLiteral(content),
                len,
                r.len() as int,
            ),
            StrOutcome::Failed(k, l, f) => TokStep::Failed(k, l, f),
        }
    } else if r.len() >= 4 && r[0] == 'n' && r[1] == 'u' && r[2] == 'l' && r[3] == 'l' {
        TokStep::Found(Tok::Null, 4, r.len() as int)
    } else if r.len() >= 4 && r[0] == 't' && r[1] == 'r' && r[2] == 'u' && r[3] == 'e' {
        TokStep::Found(Tok::True, 4, r.len() as int)
    } else if r.len() >= 5 && r[0] == 'f' && r[1] == 'a' && r[2] == 'l' && r[3] == 's' && r[4]
        == 'e' {
        TokStep::Found(Tok::False, 5, r.len() as int)
    } else {
        match num_lex(r) {
            Ok((lit, cnt)) => TokStep::Found(Tok::NumberLiteral(lit), cnt, r.len() as int),
            Err((l, f)) => TokStep::Failed(ErrorKind::InvalidNumber, l, f),
        }
    }
}

/// The step's records lie within the input.
pub proof fn lemma_tok_next_bounds(s: Seq<char>)
    ensures
        match tok_next(s) {
            TokStep::End => true,
            TokStep::Found(t, len, rem) => 1 <= len <= rem <= s.len(),
            TokStep::Failed(k, l, f) => 1 <= l <= f <= s.len(),
        },
{
    lemma_ws_scan_bounds(s, 0);
    let r = s.skip(ws_scan(s, 0));
    if r.len() > 0 {
        if r[0] == '"' {
            crate::string::lemma_str_lex_bounds(r);
        } else {
            crate::number::lemma_num_lex_bounds(r);
        }
    }
}

/// Model of a sequence of error records.
pub open spec fn errs_view(es: Seq<(ErrorKind, usize, usize)>) -> Seq<(ErrorKind, int, int)> {
    Seq::new(es.len(), |i: int| (es[i].0, es[i].1 as int, es[i].2 as int))
}

/// Scanning a whole text: the tokens found, the lexical errors found (with
/// their (length, remaining) records), and the length of the trailing
/// whitespace left unconsumed. After an error, scanning resumes just past
/// the malformed region, so one bad token does not hide later ones.
pub open spec fn spec_tokenize(s: Seq<char>) -> (Seq<(Tok, int, int)>, Seq<(ErrorKind, int, int)>, int)
    decreases s.len(),
{
    if s.len() == 0 {
        (Seq::empty(), Seq::empty(), 0int)
    } else {
        match tok_next(s) {
            TokStep::End => (Seq::empty(), Seq::empty(), s.len() as int),
            TokStep::Found(t, len, rem) => {
                let j = s.len() - rem + len;
                if 1 <= j <= s.len() {
                    let rec = spec_tokenize(s.skip(j));
                    (seq![(t, len, rem)] + rec.0, rec.1, rec.2)
                } else {
                    (Seq::empty(), Seq::empty(), 0int)
                }
            },
            TokStep::Failed(k, l, f) => {
                let j = s.len() - f + l;
                if 1 <= j <= s.len() {
                    let rec = spec_tokenize(s.skip(j));
                    (rec.0, seq![(k, l, f)] + rec.1, rec.2)
                } else {
                    (Seq::empty(), Seq::empty(), 0int)
                }
            },
        }
    }
}

/// What scanning a whole text guarantees: every number token holds a valid
/// numeric literal; every token's and every error's position record lies
/// within the input; and the leftover is no longer than the input.
pub proof fn lemma_spec_tokenize_props(s: Seq<char>)
    ensures
        ({
            let (toks, errs, leftover) = spec_tokenize(s);
            &&& crate::token::toks_wf(toks)
            &&& crate::token::recs_bounds(toks, s.len() as int)
            &&& forall|i: int|
                0 <= i < errs.len() ==> 1 <= (#[trigger] errs[i]).1 <= errs[i].2 <= s.len()
            &&& 0 <= leftover <= s.len()
        }),
    decreases s.len(),
{
    let (toks, errs, leftover) = spec_tokenize(s);
    if s.len() == 0 {
    } else {
        lemma_tok_next_bounds(s);
        let r = s.skip(ws_scan(s, 0));
        lemma_ws_scan_bounds(s, 0);
        match tok_next(s) {
            TokStep::End => {},
            TokStep::Found(t, len, rem) => {
                // a number token comes from an accepted numeric literal
                if r.len() > 0 && r[0] != '{' && r[0] != '}' && r[0] != '[' && r[0] != ']' && r[0]
                    != ',' && r[0] != ':' && r[0] != '"' {
                    if num_lex(r) is Ok {
                        crate::number::lemma_num_lex_lit(r);
                    }
                }
                let j = s.len() - rem + len;
                let rest = s.skip(j);
                lemma_spec_tokenize_props(rest);
                let rec = spec_tokenize(rest);
                assert forall|i: int| 0 <= i < toks.len() implies 0 <= (#[trigger] toks[i]).1
                    && toks[i].1 <= toks[i].2 && toks[i].2 <= s.len() && (toks[i].0 matches
                Tok::NumberLiteral(x) ==> crate::number::is_number_lit(x)) by {
                    if i > 0 {
                        assert(toks[i] == rec.0[i - 1]);
                        assert(rest.len() <= s.len());
                    }
                }
            },
            TokStep::Failed(k, l, f) => {
                let j = s.len() - f + l;
                let rest = s.skip(j);
                lemma_spec_tokenize_props(rest);
                let rec = spec_tokenize(rest);
                assert forall|i: int| 0 <= i < errs.len() implies 1 <= (#[trigger] errs[i]).1
                    && errs[i].1 <= errs[i].2 && errs[i].2 <= s.len() by {
                    if i > 0 {
                        assert(errs[i] == rec.1[i - 1]);
                        assert(rest.len() <= s.len());
                    }
                }
            },
        }
    }
}

/// Scans a whole text into tokens, collecting every lexical error, and
/// returns both together with the length of the trailing whitespace left
/// unconsumed.
pub fn tokenize<'a>(s: &'a str) -> (r: (Vec<TokenRecord>, Vec<(ErrorKind, usize, usize)>, usize))
    ensures
        recs_view(r.0@) == spec_tokenize(s@).0,
        errs_view(r.1@) == spec_tokenize(s@).1,
        r.2 == spec_tokenize(s@).2,
{
    let mut toks: Vec<TokenRecord> = Vec::new();
    let mut errs: Vec<(ErrorKind, usize, usize)> = Vec::new();
    let mut cur: &str = s;
    proof {
        assert(recs_view(toks@) =~= Seq::<(Tok, int, int)>::empty());
        assert(errs_view(errs@) =~= Seq::<(ErrorKind, int, int)>::empty());
        assert(spec_tokenize(s@).0 =~= recs_view(toks@) + spec_tokenize(cur@).0);
        assert(spec_tokenize(s@).1 =~= errs_view(errs@) + spec_tokenize(cur@).1);
    }
    loop
        invariant
            spec_tokenize(s@).0 == recs_view(toks@) + spec_tokenize(cur@).0,
            spec_tokenize(s@).1 == errs_view(errs@) + spec_tokenize(cur@).1,
            spec_tokenize(s@).2 == spec_tokenize(cur@).2,
        ensures
            spec_tokenize(s@).0 == recs_view(toks@),
            spec_tokenize(s@).1 == errs_view(errs@),
            spec_tokenize(s@).2 == cur@.len() as int,
        decreases cur@.len(),
    {
        if cur.is_empty() {
            proof {
                assert(spec_tokenize(cur@).0 =~= Seq::<(Tok, int, int)>::empty());
                assert(spec_tokenize(s@).0 =~= recs_view(toks@));
                assert(spec_tokenize(s@).1 =~= errs_view(errs@));
            }
            break ;
        }
        let m = cur.unicode_len();
        match next_token(cur) {
            Ok((opt, rest)) => {
                match opt {
                    Some(rec) => {
                        let ghost toks0 = toks@;
                        let ghost cur0 = cur@;
                        toks.push(rec);
                        cur = rest;
                        proof {
                            let v = (rec.0@, rec.1 as int, rec.2 as int);
                            assert(recs_view(toks@) =~= recs_view(toks0) + seq![v]);
                            assert(spec_tokenize(cur0).0 == seq![v] + spec_tokenize(cur@).0);
                            assert((recs_view(toks0) + (seq![v] + spec_tokenize(cur@).0)) =~= (
                            recs_view(toks0) + seq![v]) + spec_tokenize(cur@).0);
                        }
                    },
                    None => {
                        proof {
                            assert(spec_tokenize(cur@).0 =~= Seq::<(Tok, int, int)>::empty());
                            assert(spec_tokenize(cur@).1 =~= Seq::<(ErrorKind, int, int)>::empty());
                            assert(spec_tokenize(s@).0 =~= recs_view(toks@));
                            assert(spec_tokenize(s@).1 =~= errs_view(errs@));
                        }
                        break ;
                    },
                }
            },
            Err(e) => {
                let ghost errs0 = errs@;
                let ghost cur0 = cur@;
                errs.push(e);
                let next = cur.substring_char(m - e.2 + e.1, m);
                cur = next;
                proof {
                    assert(cur@ =~= cur0.skip(cur0.len() - e.2 + e.1));
                    let v = (e.0, e.1 as int, e.2 as int);
                    assert(errs_view(errs@) =~= errs_view(errs0) + seq![v]);
                    assert(spec_tokenize(cur0).1 == seq![v] + spec_tokenize(cur@).1);
                    assert((errs_view(errs0) + (seq![v] + spec_tokenize(cur@).1)) =~= (errs_view(
                        errs0,
                    ) + seq![v]) + spec_tokenize(cur@).1);
                }
            },
        }
    }
    let leftover = cur.unicode_len();
    (toks, errs, leftover)
}

/// Whitespace test.
fn is_ws_at(c: char) -> (r: bool)
    ensures
        r == is_ws(c),
{
    c == ' ' || c == '\t' || c == '\n' || c == '\r'
}

/// Scans one token from `s`: `None` with the trimmed remainder at the end of
/// the input, or one token with its position record and the unconsumed
/// remainder, or the error's record.
pub fn next_token<'a>(s: &'a str) -> (r: Result<
    (Option<TokenRecord>, &'a str),
    (ErrorKind, usize, usize),
>)
    ensures
        match tok_next(s@) {
            TokStep::End => r matches Ok((opt, rest)) && opt is None && rest@ == s@.skip(
                ws_scan(s@, 0),
            ),
            TokStep::Found(t, len, rem) => {
                &&& r matches Ok((opt, rest)) && opt matches Some((tok, l, m)) && tok@ == t && l
                    == len && m == rem
                &&& r->Ok_0.1@ == s@.skip(s@.len() - rem + len)
                &&& 1 <= len <= rem <= s@.len()
            },
            TokStep::Failed(k, l, f) => {
                &&& r matches Err(e) && e.0 == k && e.1 == l && e.2 == f
                &&& 1 <= l <= f <= s@.len()
            },
        },
{
    proof {
        lemma_tok_next_bounds(s@);
    }
    let n = s.unicode_len();
    let mut w: usize = 0;
    loop
        invariant
            w <= n,
            n == s@.len(),
            ws_scan(s@, 0) == ws_scan(s@, w as nat),
        ensures
            w <= n,
            ws_scan(s@, 0) == w as int,
        decreases n - w,
    {
        if w >= n {
            break ;
        }
        if !is_ws_at(s.get_char(w)) {
            break ;
        }
        w += 1;
    }
    let rest = s.substring_char(w, n);
    proof {
        assert(rest@ =~= s@.skip(w as int));
    }
    if w == n {
        return Ok((None, rest));
    }
    let c = s.get_char(w);
    proof {
        assert(rest@[0] == s@[w as int]);
    }
    if c == '{' {
        return split_structural(s, w, n, Token::OpenCurly);
    }
    if c == '}' {
        return split_structural(s, w, n, Token::CloseCurly);
    }
    if c == '[' {
        return split_structural(s, w, n, Token::OpenSquare);
    }
    if c == ']' {
        return split_structural(s, w, n, Token::CloseSquare);
    }
    if c == ',' {
        return split_structural(s, w, n, Token::Comma);
    }
    if c == ':' {
        return split_structural(s, w, n, Token::Colon);
    }
    if c == '"' {
        return match try_get_string(rest) {
            Ok((t, more)) => Ok((Some(t), more)),
            Err(e) => Err(e),
        };
    }
    if n - w >= 4 && c == 'n' && s.get_char(w + 1) == 'u' && s.get_char(w + 2) == 'l' && s.get_char(
        w + 3,
    ) == 'l' {
        return split_keyword(s, w, n, Token::Null, 4);
    }
    if n - w >= 4 && c == 't' && s.get_char(w + 1) == 'r' && s.get_char(w + 2) == 'u' && s.get_char(
        w + 3,
    ) == 'e' {
        return split_keyword(s, w, n, Token::True, 4);
    }
    if n - w >= 5 && c == 'f' && s.get_char(w + 1) == 'a' && s.get_char(w + 2) == 'l' && s.get_char(
        w + 3,
    ) == 's' && s.get_char(w + 4) == 'e' {
        return split_keyword(s, w, n, Token::False, 5);
    }
    match try_get_number(rest) {
        Ok((t, more)) => Ok((Some(t), more)),
        Err(e) => Err(e),
    }
}

/// Splits a single-character structural token off the trimmed input.
fn split_structural<'a>(s: &'a str, w: usize, n: usize, token: Token) -> (r: Result<
    (Option<TokenRecord>, &'a str),
    (ErrorKind, usize, usize),
>)
    requires
        w < n,
        n == s@.len(),
    ensures
        r matches Ok((opt, rest)) && opt matches Some((tok, l, m)) && tok == token && l == 1 && m
            == n - w && rest@ == s@.skip(w + 1),
{
    let rest = s.substring_char(w + 1, n);
    proof {
        assert(rest@ =~= s@.skip(w + 1));
    }
    Ok((Some((token, 1, n - w)), rest))
}

/// Splits a fixed-length keyword token off the trimmed input.
fn split_keyword<'a>(s: &'a str, w: usize, n: usize, token: Token, len: usize) -> (r: Result<
    (Option<TokenRecord>, &'a str),
    (ErrorKind, usize, usize),
>)
    requires
        w < n,
        len <= n - w,
        n == s@.len(),
    ensures
        r matches Ok((opt, rest)) && opt matches Some((tok, l, m)) && tok == token && l == len && m
            == n - w && rest@ == s@.skip(w + len),
{
    let rest = s.substring_char(w + len, n);
    proof {
        assert(rest@ =~= s@.skip(w + len));
    }
    Ok((Some((token, len, n - w)), rest))
}

} // verus!
