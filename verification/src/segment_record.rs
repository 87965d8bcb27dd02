//! The record form of a piece: one field for each thing that can be said of
//! it. A record can be filled field by field; only a record whose fields fit
//! together stands for a piece.

use vstd::prelude::*;
use crate::grammar::{parse, Piece};
use crate::scanner::{pieces_of, scan, Token};
use vstd::string::StringExecFns;
use crate::text::{chars_of, int_text, integer_text, string_from_chars};

verus! {

/// What is known of one piece of a segment.
#[derive(Debug, Clone)]
pub struct SegmentRecord {
    /// The name of a parameter.
    pub name: Option<String>,
    /// The count of a counted wildcard.
    pub count: Option<i32>,
    /// Whether the parameter may be left without a segment.
    pub empty: Option<bool>,
    /// The text of a literal run.
    pub literal: Option<String>,
    /// Whether the parameter is a wildcard.
    pub wildcard: Option<bool>,
}

/// A record as plain values.
pub struct RecordView {
    pub name: Option<Seq<char>>,
    pub count: Option<int>,
    pub empty: Option<bool>,
    pub literal: Option<Seq<char>>,
    pub wildcard: Option<bool>,
}

impl View for SegmentRecord {
    type V = RecordView;

    open spec fn view(&self) -> RecordView {
        RecordView {
            name: match self.name {
                Some(n) => Some(n@),
                None => None,
            },
            count: match self.count {
                Some(c) => Some(c as int),
                None => None,
            },
            empty: self.empty,
            literal: match self.literal {
                Some(t) => Some(t@),
                None => None,
            },
            wildcard: self.wildcard,
        }
    }
}

/// The record of a piece. A literal run has its text and nothing else; a
/// token has its name, whether it is a wildcard, whether it is optional,
/// and the count if it has one.
pub open spec fn record_of(piece: Piece) -> RecordView {
    match piece {
        Piece::Literal(t) => RecordView {
            name: None,
            count: None,
            empty: None,
            literal: Some(t),
            wildcard: None,
        },
        Piece::Required(n) => RecordView {
            name: Some(n),
            count: None,
            empty: Some(false),
            literal: None,
            wildcard: Some(false),
        },
        Piece::Optional(n) => RecordView {
            name: Some(n),
            count: None,
            empty: Some(true),
            literal: None,
            wildcard: Some(false),
        },
        Piece::Wildcard(n, c) => RecordView {
            name: Some(n),
            count: c,
            empty: Some(false),
            literal: None,
            wildcard: Some(true),
        },
    }
}

/// The piece that a record stands for, if its fields fit together: a text
/// alone; or a name with both flags, not both of them set, and a count only
/// for a wildcard.
pub open spec fn piece_of(record: RecordView) -> Option<Piece> {
    match (record.literal, record.name, record.wildcard, record.empty) {
        (Some(t), None, None, None) => if record.count is None {
            Some(Piece::Literal(t))
        } else {
            None
        },
        (None, Some(n), Some(w), Some(e)) => if w && !e {
            Some(Piece::Wildcard(n, record.count))
        } else if !w && record.count is None {
            if e {
                Some(Piece::Optional(n))
            } else {
                Some(Piece::Required(n))
            }
        } else {
            None
        },
        _ => None,
    }
}

/// The record of a piece stands for that piece.
pub proof fn lemma_record_round_trip(piece: Piece)
    ensures
        piece_of(record_of(piece)) == Some(piece),
{
}

/// A record as text: four lines with the name, whether it says anything
/// about being a wildcard, the literal text, and the count, each with `None`
/// where the record says nothing.
pub open spec fn rendered(record: RecordView) -> Seq<char> {
    "name: "@ + (match record.name {
        Some(n) => n,
        None => "None"@,
    }) + " \nwildcard: "@ + (match record.wildcard {
        Some(_) => "True"@,
        None => "None"@,
    }) + "\nliteral: "@ + (match record.literal {
        Some(t) => t,
        None => "None"@,
    }) + " \ncount: "@ + (match record.count {
        Some(c) => int_text(c),
        None => "None"@,
    })
}

/// The records of the pieces of one segment; none for a text that is no
/// segment of a template.
pub open spec fn records_of(part: Seq<char>) -> Seq<RecordView> {
    match parse(seq!['/'] + part) {
        Ok(segments) => if segments.len() == 1 {
            segments[0].map_values(|p: Piece| record_of(p))
        } else {
            Seq::empty()
        },
        Err(_) => Seq::empty(),
    }
}

impl SegmentRecord {
    /// A record of which nothing is known.
    pub fn new() -> (r: Self)
        ensures
            r@ == (RecordView { name: None, count: None, empty: None, literal: None, wildcard: None }),
    {
        SegmentRecord { name: None, count: None, empty: None, literal: None, wildcard: None }
    }

    /// The record with this name.
    pub fn with_name(self, name: String) -> (r: Self)
        ensures
            r@ == (RecordView { name: Some(name@), ..self@ }),
    {
        let mut r = self;
        r.name = Some(name);
        r
    }

    /// The record with this count.
    pub fn with_count(self, count: i32) -> (r: Self)
        ensures
            r@ == (RecordView { count: Some(count as int), ..self@ }),
    {
        let mut r = self;
        r.count = Some(count);
        r
    }

    /// The record with this answer to whether the parameter is optional.
    pub fn with_empty(self, empty: bool) -> (r: Self)
        ensures
            r@ == (RecordView { empty: Some(empty), ..self@ }),
    {
        let mut r = self;
        r.empty = Some(empty);
        r
    }

    /// The record with this literal text.
    pub fn with_literal(self, literal: String) -> (r: Self)
        ensures
            r@ == (RecordView { literal: Some(literal@), ..self@ }),
    {
        let mut r = self;
        r.literal = Some(literal);
        r
    }

    /// The record with this answer to whether the parameter is a wildcard.
    pub fn with_wildcard(self, wildcard: bool) -> (r: Self)
        ensures
            r@ == (RecordView { wildcard: Some(wildcard), ..self@ }),
    {
        let mut r = self;
        r.wildcard = Some(wildcard);
        r
    }

    /// The record as text.
    pub fn render(&self) -> (r: String)
        ensures
            r@ == rendered(self@),
    {
        let mut out: String = String::from_str("name: ");
        match &self.name {
            Some(n) => out.append(n.as_str()),
            None => out.append("None"),
        }
        out.append(" \nwildcard: ");
        match &self.wildcard {
            Some(_) => out.append("True"),
            None => out.append("None"),
        }
        out.append("\nliteral: ");
        match &self.literal {
            Some(t) => out.append(t.as_str()),
            None => out.append("None"),
        }
        out.append(" \ncount: ");
        match &self.count {
            Some(c) => {
                let digits: String = string_from_chars(&integer_text(*c));
                out.append(digits.as_str());
            },
            None => out.append("None"),
        }
        out
    }

    /// The record of a token.
    pub fn from_token(token: &Token) -> (r: Self)
        ensures
            r@ == record_of(token@),
    {
        match token {
            Token::Literal(t) => SegmentRecord {
                name: None,
                count: None,
                empty: None,
                literal: Some(string_from_chars(t)),
                wildcard: None,
            },
            Token::Required(n) => SegmentRecord {
                name: Some(string_from_chars(n)),
                count: None,
                empty: Some(false),
                literal: None,
                wildcard: Some(false),
            },
            Token::Optional(n) => SegmentRecord {
                name: Some(string_from_chars(n)),
                count: None,
                empty: Some(true),
                literal: None,
                wildcard: Some(false),
            },
            Token::Wildcard(n, c) => SegmentRecord {
                name: Some(string_from_chars(n)),
                count: *c,
                empty: Some(false),
                literal: None,
                wildcard: Some(true),
            },
        }
    }

    /// The token that the record stands for; `None` where its fields do not
    /// fit together.
    pub fn token(&self) -> (r: Option<Token>)
        ensures
            (match r {
                Some(t) => Some(t@),
                None => None,
            }) == piece_of(self@),
    {
        match (&self.literal, &self.name, self.wildcard, self.empty) {
            (Some(t), None, None, None) => {
                if self.count.is_none() {
                    Some(Token::Literal(chars_of(t.as_str())))
                } else {
                    None
                }
            },
            (None, Some(n), Some(w), Some(e)) => {
                if w && !e {
                    Some(Token::Wildcard(chars_of(n.as_str()), self.count))
                } else if !w && self.count.is_none() {
                    if e {
                        Some(Token::Optional(chars_of(n.as_str())))
                    } else {
                        Some(Token::Required(chars_of(n.as_str())))
                    }
                } else {
                    None
                }
            },
            _ => None,
        }
    }
}

/// The records of the pieces of one segment of a template: a literal run,
/// a token, or both in turn. A text that is no segment gives no record.
pub fn parse_params(part: String) -> (r: Vec<SegmentRecord>)
    ensures
        r@.map_values(|x: SegmentRecord| x@) == records_of(part@),
{
    let mut text: Vec<char> = Vec::new();
    text.push('/');
    let mut rest: Vec<char> = chars_of(part.as_str());
    text.append(&mut rest);
    let mut out: Vec<SegmentRecord> = Vec::new();
    match scan(&text) {
        Err(_) => {},
        Ok(lists) => {
            if lists.len() == 1 {
                let tokens: &Vec<Token> = &lists[0];
                let mut k: usize = 0;
                while k < tokens.len()
                    invariant
                        k <= tokens.len(),
                        out@.len() == k,
                        forall|x: int|
                            0 <= x < k ==> (#[trigger] out@[x])@ == record_of(tokens@[x]@),
                    decreases tokens.len() - k,
                {
                    out.push(SegmentRecord::from_token(&tokens[k]));
                    k += 1;
                }
            }
        },
    }
    out
}

} // verus!
