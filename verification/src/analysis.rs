//! What the tokenizer says of a canonical template: its segments, the names
//! of its parameters, its fingerprint, and its form for the matcher.

use vstd::prelude::*;
use crate::grammar::{parse, Piece};
use crate::matching::Form;
use crate::pattern::{hole, shapes_of, Shape, Step};
use crate::text::lower;
use crate::scanner::{pieces_of, Token};

verus! {

/// One segment of a template.
#[derive(Debug)]
pub enum Descriptor {
    /// Literal text; empty for the segment behind a trailing slash.
    Literal(String),
    /// `{name}`, or `{name?}` where `optional` is set.
    Parameter { name: String, optional: bool },
    /// `{name*}`, or `{name*N}` where `count` is `Some(N)`.
    Wildcard { name: String, count: Option<i32> },
    /// Literal runs and plain parameters in turn.
    Mixed(Vec<Token>),
}

impl View for Descriptor {
    type V = Seq<Piece>;

    /// The pieces of the segment.
    open spec fn view(&self) -> Seq<Piece> {
        match self {
            Descriptor::Literal(t) => if t@.len() == 0 {
                Seq::empty()
            } else {
                seq![Piece::Literal(t@)]
            },
            Descriptor::Parameter { name, optional } => if *optional {
                seq![Piece::Optional(name@)]
            } else {
                seq![Piece::Required(name@)]
            },
            Descriptor::Wildcard { name, count } => seq![
                Piece::Wildcard(
                    name@,
                    match count {
                        Some(k) => Some(*k as int),
                        None => None,
                    },
                ),
            ],
            Descriptor::Mixed(tokens) => pieces_of(tokens@),
        }
    }
}

/// The analysis of one template.
#[derive(Debug)]
pub struct Analysis {
    /// The canonical template.
    pub path: String,
    /// Its segments.
    pub segments: Vec<Descriptor>,
    /// The names of its parameters, in their order.
    pub params: Vec<String>,
    /// The canonical signature of its structure.
    pub fingerprint: String,
    /// The shape of each segment.
    pub steps: Vec<Step>,
    /// The count of a counted wildcard.
    pub count: Option<i32>,
}

/// The analysis of one template, as plain values.
pub struct AnalysisView {
    pub path: Seq<char>,
    pub segments: Seq<Seq<Piece>>,
    pub params: Seq<Seq<char>>,
    pub fingerprint: Seq<char>,
    pub shapes: Seq<Shape>,
    pub count: Option<int>,
}

impl AnalysisView {
    /// The form by which the matcher knows the template.
    pub open spec fn form(self) -> Form {
        Form { shapes: self.shapes, count: self.count }
    }
}

impl View for Analysis {
    type V = AnalysisView;

    open spec fn view(&self) -> AnalysisView {
        AnalysisView {
            path: self.path@,
            segments: self.segments@.map_values(|d: Descriptor| d@),
            params: self.params@.map_values(|n: String| n@),
            fingerprint: self.fingerprint@,
            shapes: shapes_of(self.steps@),
            count: match self.count {
                Some(k) => Some(k as int),
                None => None,
            },
        }
    }
}

/// What a piece adds to the pattern of its segment: a literal run its text
/// in lower case, a parameter `{}`.
pub open spec fn piece_pattern(piece: Piece) -> Seq<char> {
    match piece {
        Piece::Literal(t) => lower(t),
        _ => hole(),
    }
}

/// The pattern of a segment.
pub open spec fn pattern_of(pieces: Seq<Piece>) -> Seq<char>
    decreases pieces.len(),
{
    if pieces.len() == 0 {
        Seq::empty()
    } else {
        pattern_of(pieces.drop_last()) + piece_pattern(pieces.last())
    }
}

/// The shape of a segment. Only the last segment of a template can be an
/// optional parameter or a wildcard.
pub open spec fn shape_of(pieces: Seq<Piece>, last: bool) -> Shape {
    if last && pieces.len() == 1 && pieces[0] is Optional {
        Shape::Optional
    } else if last && pieces.len() == 1 && pieces[0] is Wildcard {
        Shape::Wildcard
    } else {
        Shape::Pattern(pattern_of(pieces))
    }
}

/// The shapes of the segments of a template.
pub open spec fn shapes_for(segments: Seq<Seq<Piece>>) -> Seq<Shape> {
    Seq::new(segments.len(), |k: int| shape_of(segments[k], k == segments.len() - 1))
}

/// The count of the wildcard that a template ends with, if it has one.
pub open spec fn count_for(segments: Seq<Seq<Piece>>) -> Option<int> {
    if segments.len() >= 1 && segments.last().len() == 1 {
        match segments.last()[0] {
            Piece::Wildcard(_, Some(c)) => if c >= 1 {
                Some(c)
            } else {
                None
            },
            _ => None,
        }
    } else {
        None
    }
}

/// The names of the tokens among these pieces, in their order.
pub open spec fn names_in(pieces: Seq<Piece>) -> Seq<Seq<char>>
    decreases pieces.len(),
{
    if pieces.len() == 0 {
        Seq::empty()
    } else if pieces.last() is Literal {
        names_in(pieces.drop_last())
    } else {
        names_in(pieces.drop_last()).push(pieces.last().name())
    }
}

/// The names of the parameters of a template, in their order.
pub open spec fn names_for(segments: Seq<Seq<Piece>>) -> Seq<Seq<char>>
    decreases segments.len(),
{
    if segments.len() == 0 {
        Seq::empty()
    } else {
        names_for(segments.drop_last()) + names_in(segments.last())
    }
}

/// How a shape is written in a fingerprint.
pub open spec fn shape_text(shape: Shape) -> Seq<char> {
    match shape {
        Shape::Pattern(p) => p,
        Shape::Optional => seq!['{', '?', '}'],
        Shape::Wildcard => seq!['{', '*', '}'],
    }
}

/// The fingerprint of a template with these shapes: each shape behind a
/// `/`.
pub open spec fn fingerprint_of(shapes: Seq<Shape>) -> Seq<char>
    decreases shapes.len(),
{
    if shapes.len() == 0 {
        Seq::empty()
    } else {
        fingerprint_of(shapes.drop_last()) + seq!['/'] + shape_text(shapes.last())
    }
}

/// The analysis of a text with these segments.
pub open spec fn analysis_for(path: Seq<char>, segments: Seq<Seq<Piece>>) -> AnalysisView {
    AnalysisView {
        path,
        segments,
        params: names_for(segments),
        fingerprint: fingerprint_of(shapes_for(segments)),
        shapes: shapes_for(segments),
        count: count_for(segments),
    }
}

/// The analysis of a template.
pub open spec fn analysis_of(template: Seq<char>) -> AnalysisView {
    analysis_for(template, parse(template)->Ok_0)
}

/// The form of a template is one that the matcher can work with.
pub proof fn lemma_analysis_form(path: Seq<char>, segments: Seq<Seq<Piece>>)
    requires
        segments.len() >= 1,
    ensures
        analysis_for(path, segments).form().wf(),
{
}

} // verus!
