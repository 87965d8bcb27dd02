//! The tokenizer: from a template to its analysis.

use vstd::prelude::*;
use crate::analysis::{
    lemma_analysis_form, analysis_for, analysis_of, count_for, fingerprint_of, names_for, names_in,
    pattern_of, shape_of, shape_text, shapes_for, Analysis, Descriptor,
};
use crate::grammar::{parse, Fault, GrammarError, Piece};
use crate::pattern::{hole, shapes_of, Shape, Step};
use crate::scanner::{pieces_of, scan, segments_of, Token};
use crate::text::{chars_of, lower, string_from_chars, to_lower};

verus! {

/// The pattern of a segment.
fn pattern_for(tokens: &Vec<Token>) -> (r: Vec<char>)
    ensures
        r@ == pattern_of(pieces_of(tokens@)),
{
    let mut out: Vec<char> = Vec::new();
    let mut k: usize = 0;
    let ghost all = pieces_of(tokens@);
    assert(all.take(0) == Seq::<Piece>::empty());
    while k < tokens.len()
        invariant
            k <= tokens.len(),
            all == pieces_of(tokens@),
            out@ == pattern_of(all.take(k as int)),
        decreases tokens.len() - k,
    {
        let ghost base = out@;
        proof {
            assert(all.take(k + 1).drop_last() == all.take(k as int));
            assert(all.take(k + 1).last() == tokens@[k as int]@);
        }
        match &tokens[k] {
            Token::Literal(t) => {
                let mut i: usize = 0;
                while i < t.len()
                    invariant
                        i <= t.len(),
                        out@ == base + lower(t@).take(i as int),
                    decreases t.len() - i,
                {
                    out.push(to_lower(t[i]));
                    assert(lower(t@).take(i + 1) == lower(t@).take(i as int).push(
                        lower(t@)[i as int],
                    ));
                    i += 1;
                }
                assert(lower(t@).take(t.len() as int) == lower(t@));
            },
            _ => {
                out.push('{');
                out.push('}');
                assert(out@ == base + hole());
            },
        }
        k += 1;
    }
    assert(all.take(k as int) == all);
    out
}

/// The shape of a segment.
fn step_for(tokens: &Vec<Token>, last: bool) -> (r: Step)
    ensures
        r@ == shape_of(pieces_of(tokens@), last),
{
    if last && tokens.len() == 1 {
        match &tokens[0] {
            Token::Optional(_) => {
                return Step::Optional;
            },
            Token::Wildcard(_, _) => {
                return Step::Wildcard;
            },
            _ => {},
        }
    }
    Step::Pattern(pattern_for(tokens))
}

/// The count of the wildcard that the last segment is, if it is one.
fn count_in(tokens: &Vec<Token>) -> (r: Option<i32>)
    ensures
        (match r {
            Some(k) => Some(k as int),
            None => None,
        }) == count_for(seq![pieces_of(tokens@)]),
{
    if tokens.len() == 1 {
        match &tokens[0] {
            Token::Wildcard(_, Some(c)) => {
                if *c >= 1 {
                    return Some(*c);
                }
            },
            _ => {},
        }
    }
    None
}

/// Adds the names of the tokens of a segment to `names`.
fn push_names(names: &mut Vec<String>, tokens: &Vec<Token>)
    ensures
        final(names)@.map_values(|n: String| n@) == old(names)@.map_values(|n: String| n@)
            + names_in(pieces_of(tokens@)),
{
    let ghost all = pieces_of(tokens@);
    let ghost start = names@.map_values(|n: String| n@);
    let mut k: usize = 0;
    assert(all.take(0) == Seq::<Piece>::empty());
    assert(start + Seq::<Seq<char>>::empty() == start);
    while k < tokens.len()
        invariant
            k <= tokens.len(),
            all == pieces_of(tokens@),
            names@.map_values(|n: String| n@) == start + names_in(all.take(k as int)),
        decreases tokens.len() - k,
    {
        let ghost before = names@.map_values(|n: String| n@);
        proof {
            assert(all.take(k + 1).drop_last() == all.take(k as int));
            assert(all.take(k + 1).last() == tokens@[k as int]@);
        }
        match &tokens[k] {
            Token::Literal(_) => {},
            Token::Required(n) => {
                names.push(string_from_chars(n));
                assert(names@.map_values(|n: String| n@) == before.push(n@));
            },
            Token::Optional(n) => {
                names.push(string_from_chars(n));
                assert(names@.map_values(|n: String| n@) == before.push(n@));
            },
            Token::Wildcard(n, _) => {
                names.push(string_from_chars(n));
                assert(names@.map_values(|n: String| n@) == before.push(n@));
            },
        }
        assert(names@.map_values(|n: String| n@) == start + names_in(all.take(k + 1)));
        k += 1;
    }
    assert(all.take(k as int) == all);
}

/// The segment that these tokens make up.
fn describe(tokens: Vec<Token>) -> (r: Descriptor)
    ensures
        r@ == pieces_of(tokens@),
{
    let mut tokens = tokens;
    let ghost all = pieces_of(tokens@);
    if tokens.len() == 0 {
        let text = String::new();
        assert(all == Seq::<Piece>::empty());
        return Descriptor::Literal(text);
    }
    if tokens.len() == 1 {
        let simple: bool = match &tokens[0] {
            Token::Literal(t) => t.len() > 0,
            _ => true,
        };
        if simple {
            let ghost piece = tokens@[0]@;
            assert(all == seq![piece]);
            match tokens.pop() {
                Some(Token::Literal(t)) => {
                    return Descriptor::Literal(string_from_chars(&t));
                },
                Some(Token::Required(n)) => {
                    return Descriptor::Parameter { name: string_from_chars(&n), optional: false };
                },
                Some(Token::Optional(n)) => {
                    return Descriptor::Parameter { name: string_from_chars(&n), optional: true };
                },
                Some(Token::Wildcard(n, c)) => {
                    return Descriptor::Wildcard { name: string_from_chars(&n), count: c };
                },
                None => {
                    return Descriptor::Mixed(tokens);
                },
            }
        }
    }
    Descriptor::Mixed(tokens)
}

/// The fingerprint of a template with these shapes.
fn fingerprint_for(steps: &Vec<Step>) -> (r: Vec<char>)
    ensures
        r@ == fingerprint_of(shapes_of(steps@)),
{
    let ghost all = shapes_of(steps@);
    let mut out: Vec<char> = Vec::new();
    let mut k: usize = 0;
    assert(all.take(0) == Seq::<Shape>::empty());
    while k < steps.len()
        invariant
            k <= steps.len(),
            all == shapes_of(steps@),
            out@ == fingerprint_of(all.take(k as int)),
        decreases steps.len() - k,
    {
        proof {
            assert(all.take(k + 1).drop_last() == all.take(k as int));
            assert(all.take(k + 1).last() == steps@[k as int]@);
        }
        out.push('/');
        let ghost base = out@;
        match &steps[k] {
            Step::Pattern(p) => {
                let mut i: usize = 0;
                while i < p.len()
                    invariant
                        i <= p.len(),
                        out@ == base + p@.take(i as int),
                    decreases p.len() - i,
                {
                    out.push(p[i]);
                    assert(p@.take(i + 1) == p@.take(i as int).push(p@[i as int]));
                    i += 1;
                }
                assert(p@.take(p.len() as int) == p@);
            },
            Step::Optional => {
                out.push('{');
                out.push('?');
                out.push('}');
                assert(out@ == base + seq!['{', '?', '}']);
            },
            Step::Wildcard => {
                out.push('{');
                out.push('*');
                out.push('}');
                assert(out@ == base + seq!['{', '*', '}']);
            },
        }
        assert(out@ == fingerprint_of(all.take(k as int)) + seq!['/'] + shape_text(
            steps@[k as int]@,
        ));
        k += 1;
    }
    assert(all.take(k as int) == all);
    out
}

/// The analysis of the text `path`, which the scanner has split into these
/// tokens.
pub fn analyze(path: String, lists: Vec<Vec<Token>>) -> (r: Analysis)
    requires
        lists.len() >= 1,
    ensures
        r@ == analysis_for(path@, segments_of(lists@)),
        r@.form().wf(),
{
    let ghost all = segments_of(lists@);
    let mut lists = lists;
    let total: usize = lists.len();
    let mut steps: Vec<Step> = Vec::new();
    let mut params: Vec<String> = Vec::new();
    let mut count: Option<i32> = None;
    let mut k: usize = 0;
    assert(all.take(0) == Seq::<Seq<Piece>>::empty());
    while k < total
        invariant
            k <= total,
            total == lists.len(),
            all == segments_of(lists@),
            steps.len() == k,
            forall|x: int| 0 <= x < k ==> (#[trigger] steps@[x])@ == shape_of(all[x], x == total - 1),
            params@.map_values(|n: String| n@) == names_for(all.take(k as int)),
            k < total ==> count is None,
            k == total ==> (match count {
                Some(c) => Some(c as int),
                None => None,
            }) == count_for(all),
        decreases total - k,
    {
        proof {
            assert(all.take(k + 1).drop_last() == all.take(k as int));
            assert(all.take(k + 1).last() == all[k as int]);
            assert(all[k as int] == pieces_of(lists@[k as int]@));
        }
        steps.push(step_for(&lists[k], k == total - 1));
        push_names(&mut params, &lists[k]);
        if k == total - 1 {
            count = count_in(&lists[k]);
            proof {
                assert(seq![all[k as int]].last() == all.last());
            }
        }
        k += 1;
    }
    proof {
        assert(all.take(k as int) == all);
        assert(shapes_of(steps@) == shapes_for(all));
    }
    let fingerprint: String = string_from_chars(&fingerprint_for(&steps));
    let mut segments: Vec<Descriptor> = Vec::new();
    let mut taken: Vec<Vec<Token>> = Vec::new();
    // the token lists leave `lists` from the back, and come back in order
    while lists.len() > 0
        invariant
            lists.len() + taken.len() == total,
            forall|x: int| 0 <= x < lists.len() ==> pieces_of((#[trigger] lists@[x])@) == all[x],
            forall|x: int|
                0 <= x < taken.len() ==> pieces_of((#[trigger] taken@[x])@) == all[total - 1 - x],
        decreases lists.len(),
    {
        match lists.pop() {
            Some(list) => {
                taken.push(list);
            },
            None => {},
        }
    }
    while taken.len() > 0
        invariant
            segments.len() + taken.len() == total,
            forall|x: int| 0 <= x < segments.len() ==> (#[trigger] segments@[x])@ == all[x],
            forall|x: int|
                0 <= x < taken.len() ==> pieces_of((#[trigger] taken@[x])@) == all[total - 1 - x],
        decreases taken.len(),
    {
        match taken.pop() {
            Some(list) => {
                segments.push(describe(list));
            },
            None => {},
        }
    }
    let r = Analysis { path, segments, params, fingerprint, steps, count };
    proof {
        assert(r@.segments == all);
        lemma_analysis_form(r@.path, all);
    }
    r
}

/// Splits a canonical template into its segments and computes its
/// fingerprint, the names of its parameters and its form. A text that is no
/// template gives its first fault.
pub fn tokenize(canonical: &str) -> (r: Result<Analysis, GrammarError>)
    ensures
        match r {
            Ok(a) => parse(canonical@) is Ok && a@ == analysis_of(canonical@) && a@.form().wf(),
            Err(e) => parse(canonical@) == Err::<Seq<Seq<Piece>>, Fault>(e@),
        },
{
    let chars: Vec<char> = chars_of(canonical);
    match scan(&chars) {
        Err(e) => Err(e),
        Ok(lists) => Ok(analyze(string_from_chars(&chars), lists)),
    }
}

} // verus!
