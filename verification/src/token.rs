//! Lexical tokens and their mathematical model.

use vstd::prelude::*;

verus! {

/// One lexical unit of a JSON text: a structural symbol, a literal keyword,
/// or a literal value. A number token carries the text of its literal.
#[derive(Debug, PartialEq)]
pub enum Token {
    OpenCurly,
    CloseCurly,
    OpenSquare,
    CloseSquare,
    Comma,
    Colon,
    Null,
    True,
    False,
    NumberLiteral(String),
    StringLiteral(String),
}

/// Model of a [`Token`]: payloads are character sequences.
#[verifier::ext_equal]
pub enum Tok {
    OpenCurly,
    CloseCurly,
    OpenSquare,
    CloseSquare,
    Comma,
    Colon,
    Null,
    True,
    False,
    NumberLiteral(Seq<char>),
    StringLiteral(Seq<char>),
}

impl View for Token {
    type V = Tok;

    open spec fn view(&self) -> Tok {
        match self {
            Token::OpenCurly => Tok::OpenCurly,
            Token::CloseCurly => Tok::CloseCurly,
            Token::OpenSquare => Tok::OpenSquare,
            Token::CloseSquare => Tok::CloseSquare,
            Token::Comma => Tok::Comma,
            Token::Colon => Tok::Colon,
            Token::Null => Tok::Null,
            Token::True => Tok::True,
            Token::False => Tok::False,
            Token::NumberLiteral(t) => Tok::NumberLiteral(t@),
            Token::StringLiteral(t) => Tok::StringLiteral(t@),
        }
    }
}

/// A token together with its position record: the token's length in
/// characters and the length of the input still unconsumed at the point the
/// token begins. Both are measured in the original input, which every scanned
/// slice is a suffix of.
pub type TokenRecord = (Token, usize, usize);

/// Model of a sequence of token records.
pub open spec fn recs_view(rs: Seq<TokenRecord>) -> Seq<(Tok, int, int)> {
    Seq::new(rs.len(), |i: int| (rs[i].0@, rs[i].1 as int, rs[i].2 as int))
}

/// Every number token of the sequence holds a valid numeric literal, as the
/// tokenizer guarantees.
pub open spec fn toks_wf(ts: Seq<(Tok, int, int)>) -> bool {
    forall|i: int|
        0 <= i < ts.len() ==> ((#[trigger] ts[i].0) matches Tok::NumberLiteral(x)
            ==> crate::number::is_number_lit(x))
}

/// Every token record's length and remaining-length lie within the original
/// input's length.
pub open spec fn recs_bounds(ts: Seq<(Tok, int, int)>, total: int) -> bool {
    forall|i: int|
        0 <= i < ts.len() ==> 0 <= (#[trigger] ts[i]).1 && ts[i].1 <= ts[i].2 && ts[i].2 <= total
}

} // verus!
