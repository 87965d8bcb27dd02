//! What one segment of a template demands of one segment of a request path.
//!
//! A segment of literal runs and plain parameters is a *pattern*: its literal
//! text in lower case, with `{}` where a parameter stands. An optional
//! parameter and a wildcard are shapes of their own.

use vstd::prelude::*;
use crate::text::{copy_range, lower_char, option_texts, texts_of, to_lower};

verus! {

/// The shape of one template segment: what the trie is keyed by.
pub enum Shape {
    /// Literal text in lower case, with `{}` for each parameter.
    Pattern(Seq<char>),
    /// An optional parameter.
    Optional,
    /// A wildcard.
    Wildcard,
}

/// The shape of one template segment, as the trie stores it.
#[derive(Debug)]
pub enum Step {
    Pattern(Vec<char>),
    Optional,
    Wildcard,
}

impl View for Step {
    type V = Shape;

    open spec fn view(&self) -> Shape {
        match self {
            Step::Pattern(p) => Shape::Pattern(p@),
            Step::Optional => Shape::Optional,
            Step::Wildcard => Shape::Wildcard,
        }
    }
}

/// The shapes that a sequence of steps stands for.
pub open spec fn shapes_of(steps: Seq<Step>) -> Seq<Shape> {
    steps.map_values(|s: Step| s@)
}

/// The values that the parameters of the pattern `p[i..]` take on the text
/// `s[j..]`, or `None` where the pattern does not match. A literal character
/// matches itself in either case; a parameter takes as few characters as the
/// rest of the pattern allows.
pub open spec fn match_from(p: Seq<char>, i: int, s: Seq<char>, j: int) -> Option<Seq<Seq<char>>>
    decreases p.len() - i, s.len() - j + 2,
{
    if i < 0 || j < 0 || j > s.len() {
        None
    } else if i >= p.len() {
        if j == s.len() {
            Some(Seq::empty())
        } else {
            None
        }
    } else if p[i] == '{' {
        if i + 2 <= p.len() {
            hole_from(p, i, s, j, j)
        } else {
            None
        }
    } else if j < s.len() && lower_char(s[j]) == p[i] {
        match_from(p, i + 1, s, j + 1)
    } else {
        None
    }
}

/// The values for the parameter at `p[i]`, which begins at `s[j]` and ends at
/// `k` or later, and for those behind it.
pub open spec fn hole_from(p: Seq<char>, i: int, s: Seq<char>, j: int, k: int) -> Option<
    Seq<Seq<char>>,
>
    decreases p.len() - i, s.len() - k + 1,
{
    if i < 0 || i + 2 > p.len() || k < j || j < 0 || k > s.len() {
        None
    } else {
        match match_from(p, i + 2, s, k) {
            Some(rest) => Some(seq![s.subrange(j, k)] + rest),
            None => hole_from(p, i, s, j, k + 1),
        }
    }
}

/// The values that the parameters of a pattern take on a path segment.
pub open spec fn pattern_match(p: Seq<char>, s: Seq<char>) -> Option<Seq<Seq<char>>> {
    match_from(p, 0, s, 0)
}

/// Whether a pattern holds a parameter.
pub open spec fn has_hole(p: Seq<char>) -> bool {
    p.contains('{')
}

/// The pattern of a lone plain parameter.
pub open spec fn hole() -> Seq<char> {
    seq!['{', '}']
}

/// The rank of a shape in the order of precedence: literal, mixed,
/// parameter, optional parameter, wildcard.
pub open spec fn rank(a: Shape) -> int {
    match a {
        Shape::Pattern(p) => if !has_hole(p) {
            0
        } else if p == hole() {
            2
        } else {
            1
        },
        Shape::Optional => 3,
        Shape::Wildcard => 4,
    }
}

/// Whether `a[i..]` comes before `b[i..]` in the order of a dictionary.
pub open spec fn lex_lt_from(a: Seq<char>, b: Seq<char>, i: int) -> bool
    decreases a.len() - i,
{
    if i < 0 || i >= b.len() {
        false
    } else if i >= a.len() {
        true
    } else if a[i] != b[i] {
        a[i] < b[i]
    } else {
        lex_lt_from(a, b, i + 1)
    }
}

/// Whether `a` comes before `b` in the order of a dictionary.
pub open spec fn lex_lt(a: Seq<char>, b: Seq<char>) -> bool {
    lex_lt_from(a, b, 0)
}

/// The text of a pattern; the empty text for the other shapes.
pub open spec fn text(a: Shape) -> Seq<char> {
    match a {
        Shape::Pattern(p) => p,
        _ => Seq::empty(),
    }
}

/// The order in which the matcher tries the edges of a node: by rank, and
/// two patterns of one rank by their text.
pub open spec fn shape_lt(a: Shape, b: Shape) -> bool {
    rank(a) < rank(b) || (rank(a) == rank(b) && lex_lt(text(a), text(b)))
}

/// How two shapes stand in the order of precedence.
#[derive(Clone, Copy, PartialEq, Eq, Structural, Debug)]
pub enum Place {
    Before,
    Same,
    After,
}

proof fn lemma_lex_from(a: Seq<char>, b: Seq<char>, i: int)
    requires
        0 <= i <= a.len(),
        i <= b.len(),
        a.take(i) == b.take(i),
    ensures
        !lex_lt_from(a, b, i) && !lex_lt_from(b, a, i) ==> a == b,
        !(lex_lt_from(a, b, i) && lex_lt_from(b, a, i)),
    decreases a.len() - i,
{
    if i < a.len() && i < b.len() {
        if a[i] == b[i] {
            assert(a.take(i + 1) == a.take(i).push(a[i]));
            assert(b.take(i + 1) == b.take(i).push(b[i]));
            lemma_lex_from(a, b, i + 1);
        }
    } else if i == a.len() && i == b.len() {
        assert(a == a.take(i));
        assert(b == b.take(i));
    }
}

/// Of two texts one comes before the other, or they are the same text; and
/// no text comes before itself.
pub proof fn lemma_lex_total(a: Seq<char>, b: Seq<char>)
    ensures
        !lex_lt(a, b) && !lex_lt(b, a) ==> a == b,
        !(lex_lt(a, b) && lex_lt(b, a)),
        !lex_lt(a, a),
{
    assert(a.take(0) == b.take(0));
    lemma_lex_from(a, b, 0);
    assert(a.take(0) == a.take(0));
    lemma_lex_from(a, a, 0);
}

proof fn lemma_lex_trans_from(a: Seq<char>, b: Seq<char>, c: Seq<char>, i: int)
    requires
        0 <= i,
        lex_lt_from(a, b, i),
        lex_lt_from(b, c, i),
    ensures
        lex_lt_from(a, c, i),
    decreases a.len() - i,
{
    if i < a.len() && i < b.len() && i < c.len() {
        if a[i] == b[i] && b[i] == c[i] {
            lemma_lex_trans_from(a, b, c, i + 1);
        }
    }
}

/// The order of a dictionary is transitive.
pub proof fn lemma_lex_trans(a: Seq<char>, b: Seq<char>, c: Seq<char>)
    requires
        lex_lt(a, b),
        lex_lt(b, c),
    ensures
        lex_lt(a, c),
{
    lemma_lex_trans_from(a, b, c, 0);
}

/// The order of precedence is a strict total order on shapes, where two
/// shapes count as the same if neither comes before the other.
pub proof fn lemma_shape_order(a: Shape, b: Shape)
    ensures
        !shape_lt(a, a),
        !(shape_lt(a, b) && shape_lt(b, a)),
        !shape_lt(a, b) && !shape_lt(b, a) ==> a == b,
{
    lemma_lex_total(text(a), text(b));
    lemma_lex_total(text(a), text(a));
}

/// The order of precedence is transitive.
pub proof fn lemma_shape_trans(a: Shape, b: Shape, c: Shape)
    requires
        shape_lt(a, b),
        shape_lt(b, c),
    ensures
        shape_lt(a, c),
{
    if rank(a) == rank(b) && rank(b) == rank(c) {
        lemma_lex_trans(text(a), text(b), text(c));
    }
}

/// Whether a pattern holds a parameter.
pub fn pattern_has_hole(p: &Vec<char>) -> (r: bool)
    ensures
        r == has_hole(p@),
{
    let mut i: usize = 0;
    while i < p.len()
        invariant
            i <= p.len(),
            forall|k: int| 0 <= k < i ==> p@[k] != '{',
        decreases p.len() - i,
    {
        if p[i] == '{' {
            assert(p@[i as int] == '{');
            return true;
        }
        i += 1;
    }
    false
}

/// The rank of a step in the order of precedence.
pub fn step_rank(a: &Step) -> (r: u8)
    ensures
        r == rank(a@),
{
    match a {
        Step::Pattern(p) => {
            if !pattern_has_hole(p) {
                0
            } else if p.len() == 2 && p[0] == '{' && p[1] == '}' {
                assert(p@ == hole());
                2
            } else {
                1
            }
        },
        Step::Optional => 3,
        Step::Wildcard => 4,
    }
}

/// How `a` stands to `b` in the order of a dictionary.
pub fn lex_place(a: &Vec<char>, b: &Vec<char>) -> (r: Place)
    ensures
        r == Place::Before <==> lex_lt(a@, b@),
        r == Place::After <==> lex_lt(b@, a@),
        r == Place::Same <==> a@ == b@,
{
    proof {
        lemma_lex_total(a@, b@);
    }
    let mut i: usize = 0;
    while i < a.len() && i < b.len()
        invariant
            i <= a.len(),
            i <= b.len(),
            lex_lt(a@, b@) == lex_lt_from(a@, b@, i as int),
            lex_lt(b@, a@) == lex_lt_from(b@, a@, i as int),
        decreases a.len() - i,
    {
        if a[i] < b[i] {
            return Place::Before;
        }
        if a[i] > b[i] {
            return Place::After;
        }
        i += 1;
    }
    if i < b.len() {
        Place::Before
    } else if i < a.len() {
        Place::After
    } else {
        Place::Same
    }
}

/// How `a` stands to `b` in the order of precedence.
pub fn step_place(a: &Step, b: &Step) -> (r: Place)
    ensures
        r == Place::Before <==> shape_lt(a@, b@),
        r == Place::After <==> shape_lt(b@, a@),
        r == Place::Same <==> a@ == b@,
{
    proof {
        lemma_shape_order(a@, b@);
    }
    let ra: u8 = step_rank(a);
    let rb: u8 = step_rank(b);
    if ra < rb {
        Place::Before
    } else if ra > rb {
        Place::After
    } else {
        match (a, b) {
            (Step::Pattern(p), Step::Pattern(q)) => lex_place(p, q),
            _ => Place::Same,
        }
    }
}

/// The values that the parameters of the pattern `p[start..]` take on the
/// text `s[from..]`.
pub fn match_at(p: &Vec<char>, start: usize, s: &Vec<char>, from: usize) -> (r: Option<
    Vec<Vec<char>>,
>)
    requires
        start <= p.len(),
        from <= s.len(),
    ensures
        option_texts(r) == match_from(p@, start as int, s@, from as int),
    decreases p.len() - start,
{
    let mut i: usize = start;
    let mut j: usize = from;
    while i < p.len() && p[i] != '{'
        invariant
            start <= i <= p.len(),
            from <= j <= s.len(),
            match_from(p@, start as int, s@, from as int) == match_from(p@, i as int, s@, j as int),
        decreases p.len() - i,
    {
        if j < s.len() && to_lower(s[j]) == p[i] {
            i += 1;
            j += 1;
        } else {
            return None;
        }
    }
    if i >= p.len() {
        if j == s.len() {
            let out: Vec<Vec<char>> = Vec::new();
            assert(texts_of(out@) == Seq::<Seq<char>>::empty());
            return Some(out);
        } else {
            return None;
        }
    }
    if p.len() - i < 2 {
        return None;
    }
    let mut k: usize = j;
    loop
        invariant
            start <= i,
            i + 2 <= p.len(),
            j <= k <= s.len(),
            match_from(p@, start as int, s@, from as int) == hole_from(
                p@,
                i as int,
                s@,
                j as int,
                k as int,
            ),
        decreases s.len() - k,
    {
        match match_at(p, i + 2, s, k) {
            Some(rest) => {
                let mut rest = rest;
                let mut out: Vec<Vec<char>> = Vec::new();
                out.push(copy_range(s, j, k));
                let ghost tail = texts_of(rest@);
                out.append(&mut rest);
                assert(texts_of(out@) == seq![s@.subrange(j as int, k as int)] + tail);
                return Some(out);
            },
            None => {
                if k == s.len() {
                    assert(hole_from(p@, i as int, s@, j as int, k + 1) is None);
                    return None;
                }
                k += 1;
            },
        }
    }
}

/// The values that the parameters of a pattern take on a path segment, or
/// `None` where the segment does not match the pattern.
pub fn match_pattern(p: &Vec<char>, s: &Vec<char>) -> (r: Option<Vec<Vec<char>>>)
    ensures
        option_texts(r) == pattern_match(p@, s@),
{
    match_at(p, 0, s, 0)
}

} // verus!
