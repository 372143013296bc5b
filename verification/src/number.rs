//! The number lexer: a finite-state machine over characters, with no
//! lookahead. It consumes greedily; the literal ends at the last character
//! for which a transition was legal.

use vstd::prelude::*;

use crate::token::Token;
use crate::ErrorKind;

verus! {

/// The machine's states: an optional leading minus (at most one; a second
/// sign fails the literal), the integer part (with no leading zero unless
/// the single digit is zero), the fractional part (the decimal point must be
/// followed by at least one digit before anything else), and the exponent.
#[derive(Clone, Copy, Debug)]
pub enum NumState {
    Sign,
    Signed,
    Whole,
    Point,
    FractStart,
    Fract,
    ExpSign,
    Exp,
}

/// What one character does to the machine: advance, end the literal just
/// before this character, or fail the literal at this character.
pub enum NumStep {
    Go(NumState),
    Stop,
    Bad,
}

/// Decimal digit.
pub open spec fn is_digit(c: char) -> bool {
    48 <= c as u32 <= 57
}

/// The characters that can ever appear inside a numeric literal. Any other
/// character ends the literal; these either advance the machine or fail it.
pub open spec fn num_char(c: char) -> bool {
    c == '-' || c == '+' || c == '.' || c == 'e' || c == 'E' || is_digit(c)
}

/// The machine's transition table.
pub open spec fn num_step(st: NumState, c: char) -> NumStep {
    match st {
        NumState::Sign => if c == '-' {
            NumStep::Go(NumState::Signed)
        } else if c == '0' {
            NumStep::Go(NumState::Point)
        } else if is_digit(c) {
            NumStep::Go(NumState::Whole)
        } else if num_char(c) {
            NumStep::Bad
        } else {
            NumStep::Stop
        },
        NumState::Signed => if c == '0' {
            NumStep::Go(NumState::Point)
        } else if is_digit(c) {
            NumStep::Go(NumState::Whole)
        } else if num_char(c) {
            NumStep::Bad
        } else {
            NumStep::Stop
        },
        NumState::Whole => if is_digit(c) {
            NumStep::Go(NumState::Whole)
        } else if c == '.' {
            NumStep::Go(NumState::FractStart)
        } else if c == 'e' || c == 'E' {
            NumStep::Go(NumState::ExpSign)
        } else if num_char(c) {
            NumStep::Bad
        } else {
            NumStep::Stop
        },
        NumState::Point => if c == '.' {
            NumStep::Go(NumState::FractStart)
        } else if c == 'e' || c == 'E' {
            NumStep::Go(NumState::ExpSign)
        } else if num_char(c) {
            NumStep::Bad
        } else {
            NumStep::Stop
        },
        NumState::FractStart => if is_digit(c) {
            NumStep::Go(NumState::Fract)
        } else if num_char(c) {
            NumStep::Bad
        } else {
            NumStep::Stop
        },
        NumState::Fract => if is_digit(c) {
            NumStep::Go(NumState::Fract)
        } else if c == 'e' || c == 'E' {
            NumStep::Go(NumState::ExpSign)
        } else if num_char(c) {
            NumStep::Bad
        } else {
            NumStep::Stop
        },
        NumState::ExpSign => if c == '-' || c == '+' || is_digit(c) {
            NumStep::Go(NumState::Exp)
        } else if num_char(c) {
            NumStep::Bad
        } else {
            NumStep::Stop
        },
        NumState::Exp => if is_digit(c) {
            NumStep::Go(NumState::Exp)
        } else if num_char(c) {
            NumStep::Bad
        } else {
            NumStep::Stop
        },
    }
}

/// Outcome of running the machine from position `i`: either the literal
/// fails at some position, or it ends at a position (exclusive), in a state.
/// Reaching the end of the input also ends the literal.
pub enum NumOutcome {
    Bad(int),
    Stop(int, NumState),
}

/// Runs the machine over `s` from position `i` in state `st`.
pub open spec fn num_scan(s: Seq<char>, i: nat, st: NumState) -> NumOutcome
    decreases s.len() - i,
{
    if i >= s.len() {
        NumOutcome::Stop(i as int, st)
    } else {
        match num_step(st, s[i as int]) {
            NumStep::Go(st2) => num_scan(s, (i + 1) as nat, st2),
            NumStep::Stop => NumOutcome::Stop(i as int, st),
            NumStep::Bad => NumOutcome::Bad(i as int),
        }
    }
}

/// A valid numeric literal: the machine consumes all of it, and it ends in
/// a digit (which rules out a bare sign, a trailing point, and a dangling
/// exponent marker or exponent sign).
pub open spec fn is_number_lit(t: Seq<char>) -> bool {
    &&& t.len() > 0
    &&& is_digit(t[t.len() - 1])
    &&& num_scan(t, 0, NumState::Sign) matches NumOutcome::Stop(cnt, _) && cnt == t.len()
}

/// What lexing a number from the start of `s` yields: the literal's text and
/// length, or an error's (length, remaining) position record. An error is
/// anchored at the offending character, except that a literal which the
/// machine accepted but which is not a valid number (it ends in a sign, a
/// point, or an exponent marker, or begins with a character no number can
/// start with) covers the whole remaining input.
pub open spec fn num_lex(s: Seq<char>) -> Result<(Seq<char>, int), (int, int)> {
    match num_scan(s, 0, NumState::Sign) {
        NumOutcome::Bad(i) => Err((1int, s.len() - i)),
        NumOutcome::Stop(cnt, _) => if cnt == 0 {
            Err((s.len() as int, s.len() as int))
        } else if s[cnt - 1] == '.' {
            Err((1int, s.len() - (cnt - 1)))
        } else if is_digit(s[cnt - 1]) {
            Ok((s.subrange(0, cnt), cnt))
        } else {
            Err((s.len() as int, s.len() as int))
        },
    }
}

/// The machine never stops or fails before the position it started at, nor
/// past the end of the input.
pub proof fn lemma_num_scan_bounds(s: Seq<char>, i: nat, st: NumState)
    requires
        i <= s.len(),
    ensures
        match num_scan(s, i, st) {
            NumOutcome::Stop(c, _) => i <= c <= s.len(),
            NumOutcome::Bad(c) => i <= c < s.len(),
        },
    decreases s.len() - i,
{
    if i >= s.len() {
    } else {
        match num_step(st, s[i as int]) {
            NumStep::Go(st2) => {
                lemma_num_scan_bounds(s, (i + 1) as nat, st2);
            },
            NumStep::Stop => {},
            NumStep::Bad => {},
        }
    }
}

/// Truncating the input after the point where the machine stopped does not
/// change the outcome.
pub proof fn lemma_num_scan_take(s: Seq<char>, i: nat, st: NumState, k: int)
    requires
        i <= k <= s.len(),
        num_scan(s, i, st) matches NumOutcome::Stop(cnt, st2) && cnt <= k,
    ensures
        num_scan(s.subrange(0, k), i, st) == num_scan(s, i, st),
    decreases s.len() - i,
{
    let t = s.subrange(0, k);
    if i >= k {
        // the machine stopped exactly here: the next character (if any)
        // cannot advance it
        if i < s.len() {
            match num_step(st, s[i as int]) {
                NumStep::Go(st2) => {
                    lemma_num_scan_bounds(s, (i + 1) as nat, st2);
                    assert(false);
                },
                NumStep::Stop => {},
                NumStep::Bad => {},
            }
        }
    } else {
        assert(t[i as int] == s[i as int]);
        match num_step(st, s[i as int]) {
            NumStep::Go(st2) => {
                lemma_num_scan_take(s, (i + 1) as nat, st2, k);
            },
            NumStep::Stop => {},
            NumStep::Bad => {},
        }
    }
}

/// The literal that `num_lex` accepts is a valid numeric literal.
pub proof fn lemma_num_lex_lit(s: Seq<char>)
    requires
        num_lex(s) is Ok,
    ensures
        num_lex(s) matches Ok((lit, cnt)) && is_number_lit(lit) && 0 < cnt <= s.len() && lit
            == s.subrange(0, cnt),
{
    lemma_num_scan_bounds(s, 0, NumState::Sign);
    let outcome = num_scan(s, 0, NumState::Sign);
    match outcome {
        NumOutcome::Bad(_) => {},
        NumOutcome::Stop(cnt, st) => {
            lemma_num_scan_take(s, 0, NumState::Sign, cnt);
            let lit = s.subrange(0, cnt);
            assert(lit[cnt - 1] == s[cnt - 1]);
        },
    }
}

/// Whatever `num_lex` yields lies within the input: an accepted literal is
/// nonempty and no longer than the input, and an error's record satisfies
/// `1 <= length <= remaining <= input length`.
pub proof fn lemma_num_lex_bounds(s: Seq<char>)
    requires
        s.len() > 0,
    ensures
        match num_lex(s) {
            Ok((lit, cnt)) => 1 <= cnt <= s.len() && lit.len() == cnt,
            Err((l, f)) => 1 <= l <= f <= s.len(),
        },
{
    lemma_num_scan_bounds(s, 0, NumState::Sign);
}

/// Lexes a numeric literal from the start of `s`, returning the token with
/// its position record and the unconsumed remainder, or the error's record.
pub fn try_get_number<'a>(s: &'a str) -> (r: Result<
    ((Token, usize, usize), &'a str),
    (ErrorKind, usize, usize),
>)
    requires
        s@.len() > 0,
    ensures
        match num_lex(s@) {
            Ok((lit, cnt)) => {
                &&& r matches Ok(((tok, len, rem), rest))
                &&& r->Ok_0.0.0 matches Token::NumberLiteral(t) && t@ == lit && is_number_lit(t@)
                &&& r->Ok_0.0.1 == cnt
                &&& r->Ok_0.0.2 == s@.len()
                &&& r->Ok_0.1@ == s@.skip(cnt)
            },
            Err((l, f)) => {
                &&& r matches Err((k, len, rem))
                &&& r->Err_0.0 == ErrorKind::InvalidNumber
                &&& r->Err_0.1 == l
                &&& r->Err_0.2 == f
            },
        },
{
    let n = s.unicode_len();
    let mut i: usize = 0;
    let mut st = NumState::Sign;
    loop
        invariant
            i <= n,
            n == s@.len(),
            num_scan(s@, 0, NumState::Sign) == num_scan(s@, i as nat, st),
        ensures
            i <= n,
            num_scan(s@, 0, NumState::Sign) matches NumOutcome::Stop(c, _) && c == i as int,
        decreases n - i,
    {
        if i >= n {
            break ;
        }
        let c = s.get_char(i);
        let step = num_step_at(st, c);
        match step {
            NumStep::Go(st2) => {
                st = st2;
                i += 1;
            },
            NumStep::Stop => {
                break ;
            },
            NumStep::Bad => {
                return Err((ErrorKind::InvalidNumber, 1, n - i));
            },
        }
    }
    // the machine stopped just before position i
    let cnt = i;
    if cnt == 0 {
        return Err((ErrorKind::InvalidNumber, n, n));
    }
    let last = s.get_char(cnt - 1);
    if last == '.' {
        return Err((ErrorKind::InvalidNumber, 1, n - (cnt - 1)));
    }
    if is_digit_at(last) {
        proof {
            lemma_num_lex_lit(s@);
        }
        let lit = s.substring_char(0, cnt);
        let rest = s.substring_char(cnt, n);
        proof {
            assert(rest@ =~= s@.skip(cnt as int));
        }
        Ok(((Token::NumberLiteral(lit.to_owned()), cnt, n), rest))
    } else {
        Err((ErrorKind::InvalidNumber, n, n))
    }
}

/// One transition of the machine.
fn num_step_at(st: NumState, c: char) -> (r: NumStep)
    ensures
        r == num_step(st, c),
{
    match st {
        NumState::Sign => if c == '-' {
            NumStep::Go(NumState::Signed)
        } else if c == '0' {
            NumStep::Go(NumState::Point)
        } else if is_digit_at(c) {
            NumStep::Go(NumState::Whole)
        } else if is_num_char(c) {
            NumStep::Bad
        } else {
            NumStep::Stop
        },
        NumState::Signed => if c == '0' {
            NumStep::Go(NumState::Point)
        } else if is_digit_at(c) {
            NumStep::Go(NumState::Whole)
        } else if is_num_char(c) {
            NumStep::Bad
        } else {
            NumStep::Stop
        },
        NumState::Whole => if is_digit_at(c) {
            NumStep::Go(NumState::Whole)
        } else if c == '.' {
            NumStep::Go(NumState::FractStart)
        } else if c == 'e' || c == 'E' {
            NumStep::Go(NumState::ExpSign)
        } else if is_num_char(c) {
            NumStep::Bad
        } else {
            NumStep::Stop
        },
        NumState::Point => if c == '.' {
            NumStep::Go(NumState::FractStart)
        } else if c == 'e' || c == 'E' {
            NumStep::Go(NumState::ExpSign)
        } else if is_num_char(c) {
            NumStep::Bad
        } else {
            NumStep::Stop
        },
        NumState::FractStart => if is_digit_at(c) {
            NumStep::Go(NumState::Fract)
        } else if is_num_char(c) {
            NumStep::Bad
        } else {
            NumStep::Stop
        },
        NumState::Fract => if is_digit_at(c) {
            NumStep::Go(NumState::Fract)
        } else if c == 'e' || c == 'E' {
            NumStep::Go(NumState::ExpSign)
        } else if is_num_char(c) {
            NumStep::Bad
        } else {
            NumStep::Stop
        },
        NumState::ExpSign => if c == '-' || c == '+' || is_digit_at(c) {
            NumStep::Go(NumState::Exp)
        } else if is_num_char(c) {
            NumStep::Bad
        } else {
            NumStep::Stop
        },
        NumState::Exp => if is_digit_at(c) {
            NumStep::Go(NumState::Exp)
        } else if is_num_char(c) {
            NumStep::Bad
        } else {
            NumStep::Stop
        },
    }
}

/// Decimal digit test.
fn is_digit_at(c: char) -> (r: bool)
    ensures
        r == is_digit(c),
{
    48 <= c as u32 && c as u32 <= 57
}

/// Number-alphabet test.
fn is_num_char(c: char) -> (r: bool)
    ensures
        r == num_char(c),
{
    c == '-' || c == '+' || c == '.' || c == 'e' || c == 'E' || is_digit_at(c)
}

} // verus!
