//! The string lexer: scans character by character after the opening quote,
//! tracking an escape flag and an in-progress four-hex-digit unicode escape
//! accumulator.

use vstd::prelude::*;

use crate::token::Token;
use crate::ErrorKind;

verus! {

/// Hexadecimal digit.
pub open spec fn is_hex_digit(c: char) -> bool {
    (48 <= c as u32 <= 57) || (97 <= c as u32 <= 102) || (65 <= c as u32 <= 70)
}

/// Value of a hexadecimal digit.
pub open spec fn hex_val(c: char) -> u32 {
    if 48 <= c as u32 <= 57 {
        (c as u32 - 48) as u32
    } else if 97 <= c as u32 <= 102 {
        (c as u32 - 87) as u32
    } else if 65 <= c as u32 <= 70 {
        (c as u32 - 55) as u32
    } else {
        0
    }
}

/// A four-hex-digit value names a Unicode scalar unless it falls in the
/// surrogate range.
pub open spec fn scalar16(u: u32) -> bool {
    !(0xD800 <= u <= 0xDFFF)
}

/// Outcome of scanning a string literal: the decoded content and the
/// token's length (through the closing quote), or an error's kind and
/// (length, remaining) position record.
pub enum StrOutcome {
    Done(Seq<char>, int),
    Failed(ErrorKind, int, int),
}

/// Scans `s` from position `i`. `esc` says a backslash was just read;
/// `unic` holds the count and value of the hex digits read of a `\u` escape.
/// The simple escapes map to their control characters; an unrecognized
/// escaped character is copied through verbatim; a non-hex character where a
/// hex digit is expected, or four hex digits naming a surrogate, fail with
/// `InvalidUnicode`; an unescaped quote ends the literal; running out of
/// input fails with `UnterminatedString`.
pub open spec fn str_scan(
    s: Seq<char>,
    i: nat,
    esc: bool,
    unic: Option<(u32, u32)>,
    out: Seq<char>,
) -> StrOutcome
    decreases s.len() - i,
{
    if i >= s.len() {
        StrOutcome::Failed(ErrorKind::UnterminatedString, s.len() as int, s.len() as int)
    } else {
        let c = s[i as int];
        if let Some((k, v)) = unic {
            if is_hex_digit(c) {
                let v2 = ((v * 16 + hex_val(c)) as u32);
                if k == 3 {
                    if scalar16(v2) {
                        str_scan(s, (i + 1) as nat, false, None, out.push(v2 as char))
                    } else {
                        StrOutcome::Failed(ErrorKind::InvalidUnicode, 4, s.len() - i + 3)
                    }
                } else {
                    str_scan(s, (i + 1) as nat, false, Some((((k + 1) as u32), v2)), out)
                }
            } else {
                StrOutcome::Failed(ErrorKind::InvalidUnicode, 1, s.len() - i)
            }
        } else if esc {
            if c == '"' {
                str_scan(s, (i + 1) as nat, false, None, out.push('"'))
            } else if c == '\\' {
                str_scan(s, (i + 1) as nat, false, None, out.push('\\'))
            } else if c == 'b' {
                str_scan(s, (i + 1) as nat, false, None, out.push('\u{0008}'))
            } else if c == 'f' {
                str_scan(s, (i + 1) as nat, false, None, out.push('\u{000C}'))
            } else if c == 'n' {
                str_scan(s, (i + 1) as nat, false, None, out.push('\n'))
            } else if c == 'r' {
                str_scan(s, (i + 1) as nat, false, None, out.push('\r'))
            } else if c == 't' {
                str_scan(s, (i + 1) as nat, false, None, out.push('\t'))
            } else if c == 'u' {
                str_scan(s, (i + 1) as nat, false, Some((0u32, 0u32)), out)
            } else {
                str_scan(s, (i + 1) as nat, false, None, out.push(c))
            }
        } else {
            if c == '\\' {
                str_scan(s, (i + 1) as nat, true, None, out)
            } else if c == '"' {
                StrOutcome::Done(out, i + 1 as int)
            } else {
                str_scan(s, (i + 1) as nat, false, None, out.push(c))
            }
        }
    }
}

/// What lexing a string literal from the start of `s` yields. Position 0
/// holds the opening quote; scanning begins after it.
pub open spec fn str_lex(s: Seq<char>) -> StrOutcome {
    str_scan(s, 1, false, None, Seq::empty())
}

/// Whatever the scan yields lies within the input: a finished literal ends
/// past the position scanning started at and within the input, and an
/// error's record satisfies `1 <= length <= remaining <= input length`.
pub proof fn lemma_str_scan_bounds(
    s: Seq<char>,
    i: nat,
    esc: bool,
    unic: Option<(u32, u32)>,
    out: Seq<char>,
)
    requires
        1 <= i <= s.len(),
        esc ==> i >= 2,
        unic matches Some((k, v)) ==> k <= 3 && i >= 3 + k,
    ensures
        match str_scan(s, i, esc, unic, out) {
            StrOutcome::Done(content, len) => i < len <= s.len(),
            StrOutcome::Failed(kind, l, f) => 1 <= l <= f <= s.len(),
        },
    decreases s.len() - i,
{
    if i >= s.len() {
    } else {
        let c = s[i as int];
        if let Some((k, v)) = unic {
            if is_hex_digit(c) {
                let v2 = ((v * 16 + hex_val(c)) as u32);
                if k == 3 {
                    if scalar16(v2) {
                        lemma_str_scan_bounds(s, (i + 1) as nat, false, None, out.push(v2 as char));
                    }
                } else {
                    lemma_str_scan_bounds(
                        s,
                        (i + 1) as nat,
                        false,
                        Some((((k + 1) as u32), v2)),
                        out,
                    );
                }
            }
        } else if esc {
            if c == 'u' {
                lemma_str_scan_bounds(s, (i + 1) as nat, false, Some((0u32, 0u32)), out);
            } else {
                let c2 = if c == '"' {
                    '"'
                } else if c == '\\' {
                    '\\'
                } else if c == 'b' {
                    '\u{0008}'
                } else if c == 'f' {
                    '\u{000C}'
                } else if c == 'n' {
                    '\n'
                } else if c == 'r' {
                    '\r'
                } else if c == 't' {
                    '\t'
                } else {
                    c
                };
                lemma_str_scan_bounds(s, (i + 1) as nat, false, None, out.push(c2));
            }
        } else {
            if c == '\\' {
                lemma_str_scan_bounds(s, (i + 1) as nat, true, None, out);
            } else if c == '"' {
            } else {
                lemma_str_scan_bounds(s, (i + 1) as nat, false, None, out.push(c));
            }
        }
    }
}

/// Bounds of [`lemma_str_scan_bounds`], at the literal's start.
pub proof fn lemma_str_lex_bounds(s: Seq<char>)
    requires
        s.len() > 0,
    ensures
        match str_lex(s) {
            StrOutcome::Done(content, len) => 1 < len <= s.len(),
            StrOutcome::Failed(kind, l, f) => 1 <= l <= f <= s.len(),
        },
{
    lemma_str_scan_bounds(s, 1, false, None, Seq::empty());
}

/// Relies on `core::char::from_u32`: it returns `Some` exactly when the value
/// is a Unicode scalar value (not a surrogate and at most `char::MAX`), and
/// the returned character has that value.
#[verifier::external_body]
fn char_from_u32(u: u32) -> (r: Option<char>)
    ensures
        r is Some <==> (u < 0xD800 || (0xE000 <= u && u < 0x110000)),
        r is Some ==> r->0 as u32 == u,
{
    char::from_u32(u)
}

/// Relies on `String`'s `FromIterator` implementation: collecting characters
/// yields the string of exactly those characters in order.
#[verifier::external_body]
fn chars_to_string(v: Vec<char>) -> (s: String)
    ensures
        s@ == v@,
{
    v.into_iter().collect()
}

/// Hexadecimal digit test.
fn is_hex_digit_at(c: char) -> (r: bool)
    ensures
        r == is_hex_digit(c),
{
    let u = c as u32;
    (48 <= u && u <= 57) || (97 <= u && u <= 102) || (65 <= u && u <= 70)
}

/// Value of a hexadecimal digit.
fn hex_val_at(c: char) -> (r: u32)
    ensures
        r == hex_val(c),
{
    let u = c as u32;
    if 48 <= u && u <= 57 {
        u - 48
    } else if 97 <= u && u <= 102 {
        u - 87
    } else if 65 <= u && u <= 70 {
        u - 55
    } else {
        0
    }
}

/// Lexes a string literal from the start of `s` (whose first character is
/// taken to be the opening quote), returning the token holding the decoded
/// content with its position record and the unconsumed remainder, or the
/// error's record.
pub fn try_get_string<'a>(s: &'a str) -> (r: Result<
    ((Token, usize, usize), &'a str),
    (ErrorKind, usize, usize),
>)
    ensures
        match str_lex(s@) {
            StrOutcome::Done(content, len) => {
                &&& r matches Ok(((tok, l, rem), rest))
                &&& r->Ok_0.0.0 matches Token::StringLiteral(t) && t@ == content
                &&& r->Ok_0.0.1 == len
                &&& r->Ok_0.0.2 == s@.len()
                &&& r->Ok_0.1@ == s@.skip(len)
            },
            StrOutcome::Failed(kind, l, f) => {
                &&& r matches Err((k, a, b))
                &&& r->Err_0.0 == kind
                &&& r->Err_0.1 == l
                &&& r->Err_0.2 == f
            },
        },
{
    let n = s.unicode_len();
    if n == 0 {
        return Err((ErrorKind::UnterminatedString, 0, 0));
    }
    let mut i: usize = 1;
    let mut esc = false;
    let mut unic: Option<(u32, u32)> = None;
    let mut out: Vec<char> = Vec::new();
    loop
        invariant
            1 <= i <= n,
            n == s@.len(),
            esc ==> i >= 2,
            unic is Some ==> !esc,
            unic matches Some((k, v)) ==> k <= 3 && i >= 3 + k && (if k == 0 {
                v == 0
            } else if k == 1 {
                v < 16
            } else if k == 2 {
                v < 256
            } else {
                v < 4096
            }),
            str_lex(s@) == str_scan(s@, i as nat, esc, unic, out@),
        decreases n - i,
    {
        if i >= n {
            return Err((ErrorKind::UnterminatedString, n, n));
        }
        let c = s.get_char(i);
        if let Some((k, v)) = unic {
            if is_hex_digit_at(c) {
                let v2 = v * 16 + hex_val_at(c);
                if k == 3 {
                    match char_from_u32(v2) {
                        Some(uc) => {
                            proof {
                                vstd::utf8::char_u32_cast(uc, v2);
                            }
                            out.push(uc);
                            unic = None;
                        },
                        None => {
                            return Err((ErrorKind::InvalidUnicode, 4, n - (i - 3)));
                        },
                    }
                } else {
                    unic = Some((k + 1, v2));
                }
            } else {
                return Err((ErrorKind::InvalidUnicode, 1, n - i));
            }
        } else if esc {
            esc = false;
            if c == '"' {
                out.push('"');
            } else if c == '\\' {
                out.push('\\');
            } else if c == 'b' {
                out.push('\u{0008}');
            } else if c == 'f' {
                out.push('\u{000C}');
            } else if c == 'n' {
                out.push('\n');
            } else if c == 'r' {
                out.push('\r');
            } else if c == 't' {
                out.push('\t');
            } else if c == 'u' {
                unic = Some((0, 0));
            } else {
                out.push(c);
            }
        } else {
            if c == '\\' {
                esc = true;
            } else if c == '"' {
                let rest = s.substring_char(i + 1, n);
                proof {
                    assert(rest@ =~= s@.skip(i + 1));
                }
                return Ok(((Token::StringLiteral(chars_to_string(out)), i + 1, n), rest));
            } else {
                out.push(c);
            }
        }
        i += 1;
    }
}

} // verus!
