//! What the grammar makes sure of in every template: where optional
//! parameters and wildcards stand, that no name occurs twice, and that the
//! fingerprint tells the shapes of the segments.

use vstd::prelude::*;
use crate::analysis::{
    analysis_of, fingerprint_of, names_for, names_in, pattern_of, piece_pattern, shape_of,
    shape_text, shapes_for,
};
use crate::grammar::{
    is_template, lemma_run_chars, lemma_run_len_bound, lemma_token_end, parse, run_char, run_len,
    scan_from, token_at, Piece,
};
use crate::pattern::{Shape};
use crate::text::{lower_char};

verus! {

/// Whether a piece is a token, or a literal run of characters that can
/// stand in one.
pub open spec fn piece_ok(piece: Piece) -> bool {
    piece matches Piece::Literal(t) ==> forall|k: int| 0 <= k < t.len() ==> run_char(#[trigger] t[k])
}

/// Whether these pieces are literal runs and plain parameters.
pub open spec fn plain_pieces(pieces: Seq<Piece>) -> bool {
    forall|x: int|
        0 <= x < pieces.len() ==> piece_ok(#[trigger] pieces[x]) && !pieces[x].is_modifier()
}

/// What holds of the segments of every template: there is at least one;
/// an optional parameter or a wildcard is the only piece of the last
/// segment; and no name occurs twice.
pub open spec fn well_formed(segments: Seq<Seq<Piece>>) -> bool {
    &&& segments.len() >= 1
    &&& forall|k: int| 0 <= k < segments.len() - 1 ==> plain_pieces(#[trigger] segments[k])
    &&& plain_pieces(segments.last()) || (segments.last().len() == 1 && segments.last()[0].is_modifier())
    &&& names_for(segments).no_duplicates()
}

proof fn lemma_names_push(done: Seq<Seq<Piece>>, cur: Seq<Piece>)
    ensures
        names_for(done.push(cur)) == names_for(done) + names_in(cur),
{
    assert(done.push(cur).drop_last() == done);
}

/// The scanner keeps the segments well-formed.
proof fn lemma_scan_well_formed(
    s: Seq<char>,
    i: int,
    done: Seq<Seq<Piece>>,
    cur: Seq<Piece>,
    seen: Seq<Seq<char>>,
)
    requires
        0 <= i <= s.len(),
        scan_from(s, i, done, cur, seen) is Ok,
        forall|k: int| 0 <= k < done.len() ==> plain_pieces(#[trigger] done[k]),
        plain_pieces(cur),
        seen == names_for(done) + names_in(cur),
        seen.no_duplicates(),
    ensures
        well_formed(scan_from(s, i, done, cur, seen)->Ok_0),
    decreases s.len() - i,
{
    let none = Seq::<Piece>::empty();
    if i >= s.len() {
        lemma_names_push(done, cur);
        let out = done.push(cur);
        assert forall|k: int| 0 <= k < out.len() - 1 implies plain_pieces(#[trigger] out[k]) by {
            assert(out[k] == done[k]);
        }
    } else if s[i] == '/' {
        lemma_names_push(done, cur);
        let next = done.push(cur);
        assert(names_in(none) == Seq::<Seq<char>>::empty());
        assert(names_for(next) + names_in(none) == seen);
        assert forall|k: int| 0 <= k < next.len() implies plain_pieces(#[trigger] next[k]) by {
            if k < done.len() {
                assert(next[k] == done[k]);
            }
        }
        lemma_scan_well_formed(s, i + 1, next, none, seen);
    } else if s[i] == '{' {
        lemma_token_end(s, i);
        let piece = token_at(s, i)->Ok_0.0;
        let end = token_at(s, i)->Ok_0.1;
        let next = cur.push(piece);
        let names = seen.push(piece.name());
        assert(next.drop_last() == cur);
        assert(!(piece is Literal));
        assert(names_in(next) == names_in(cur).push(piece.name()));
        assert(names == names_for(done) + names_in(next));
        assert(names.no_duplicates()) by {
            assert forall|a: int, b: int| 0 <= a < b < names.len() implies names[a] != names[b] by {
                if b == seen.len() {
                    if names[a] == names[b] {
                        assert(seen[a] == piece.name());
                        assert(seen.contains(piece.name()));
                    }
                }
            }
        }
        if piece.is_modifier() {
            assert(end == s.len());
            assert(cur.len() == 0);
            lemma_names_push(done, next);
            let out = done.push(next);
            assert(scan_from(s, end, done, next, names)->Ok_0 == out);
            assert forall|k: int| 0 <= k < out.len() - 1 implies plain_pieces(#[trigger] out[k]) by {
                assert(out[k] == done[k]);
            }
            assert(out.last() == next);
            assert(next.len() == 1 && next[0] == piece);
        } else {
            assert(plain_pieces(next)) by {
                assert forall|x: int| 0 <= x < next.len() implies piece_ok(#[trigger] next[x])
                    && !next[x].is_modifier() by {
                    if x < cur.len() {
                        assert(next[x] == cur[x]);
                    }
                }
            }
            lemma_scan_well_formed(s, end, done, next, names);
        }
    } else {
        let r = run_len(s, i) as int;
        lemma_run_len_bound(s, i);
        let t = s.subrange(i, i + r);
        let next = cur.push(Piece::Literal(t));
        assert(next.drop_last() == cur);
        assert(names_in(next) == names_in(cur));
        assert(plain_pieces(next)) by {
            assert forall|x: int| 0 <= x < next.len() implies piece_ok(#[trigger] next[x])
                && !next[x].is_modifier() by {
                if x < cur.len() {
                    assert(next[x] == cur[x]);
                } else {
                    assert forall|k: int| 0 <= k < t.len() implies run_char(#[trigger] t[k]) by {
                        lemma_run_chars(s, i, k);
                    }
                }
            }
        }
        lemma_scan_well_formed(s, i + r, done, next, seen);
    }
}

/// The segments of a template are well-formed: an optional parameter or a
/// wildcard stands only as the last segment, and no two parameters of a
/// template have the same name.
pub proof fn lemma_template_well_formed(template: Seq<char>)
    requires
        is_template(template),
    ensures
        well_formed(parse(template)->Ok_0),
        analysis_of(template).params.no_duplicates(),
        analysis_of(template).form().wf(),
{
    let none = Seq::<Seq<Piece>>::empty();
    assert(names_for(none) + names_in(Seq::<Piece>::empty()) == Seq::<Seq<char>>::empty());
    lemma_scan_well_formed(template, 1, none, Seq::empty(), Seq::empty());
}

/// Whether a text can be the pattern of a segment: it holds no slash and
/// no question mark, and every opening brace is followed by a closing one.
pub open spec fn tidy(p: Seq<char>) -> bool {
    forall|k: int|
        0 <= k < p.len() ==> {
            &&& #[trigger] p[k] != '/'
            &&& p[k] != '?'
            &&& (p[k] == '{' ==> k + 1 < p.len() && p[k + 1] == '}')
        }
}

/// The pattern of literal runs and tokens is tidy.
proof fn lemma_pattern_tidy(pieces: Seq<Piece>)
    requires
        forall|x: int| 0 <= x < pieces.len() ==> piece_ok(#[trigger] pieces[x]),
    ensures
        tidy(pattern_of(pieces)),
    decreases pieces.len(),
{
    if pieces.len() > 0 {
        let front = pieces.drop_last();
        assert forall|x: int| 0 <= x < front.len() implies piece_ok(#[trigger] front[x]) by {
            assert(front[x] == pieces[x]);
        }
        lemma_pattern_tidy(front);
        let a = pattern_of(front);
        let b = piece_pattern(pieces.last());
        let p = pattern_of(pieces);
        assert(p == a + b);
        assert(piece_ok(pieces[pieces.len() - 1]));
        assert forall|k: int| 0 <= k < p.len() implies {
            &&& #[trigger] p[k] != '/'
            &&& p[k] != '?'
            &&& (p[k] == '{' ==> k + 1 < p.len() && p[k + 1] == '}')
        } by {
            if k < a.len() {
                assert(p[k] == a[k]);
                if a[k] == '{' {
                    assert(p[k + 1] == a[k + 1]);
                }
            } else {
                let j = k - a.len();
                assert(p[k] == b[j]);
                match pieces.last() {
                    Piece::Literal(t) => {
                        assert(b[j] == lower_char(t[j]));
                        assert(run_char(t[j]));
                    },
                    _ => {
                        if j == 0 {
                            assert(p[k + 1] == b[1]);
                        }
                    },
                }
            }
        }
    }
}

/// Whether every shape is one that a template can have: its pattern is
/// tidy.
pub open spec fn tidy_shapes(shapes: Seq<Shape>) -> bool {
    forall|k: int|
        0 <= k < shapes.len() ==> (#[trigger] shapes[k] matches Shape::Pattern(p) ==> tidy(p))
}

/// The shapes of a template are tidy.
pub proof fn lemma_template_tidy(template: Seq<char>)
    requires
        is_template(template),
    ensures
        tidy_shapes(analysis_of(template).shapes),
{
    lemma_template_well_formed(template);
    let segs = parse(template)->Ok_0;
    let shapes = shapes_for(segs);
    assert forall|k: int| 0 <= k < shapes.len() implies (#[trigger] shapes[k] matches Shape::Pattern(
        p,
    ) ==> tidy(p)) by {
        if shapes[k] is Pattern {
            let pieces = segs[k];
            assert(shapes[k] == shape_of(pieces, k == segs.len() - 1));
            if k < segs.len() - 1 {
                assert(plain_pieces(segs[k]));
            } else {
                assert(segs.last() == pieces);
            }
            assert forall|x: int| 0 <= x < pieces.len() implies piece_ok(#[trigger] pieces[x]) by {
                if !plain_pieces(pieces) {
                    assert(pieces.len() == 1 && pieces[0].is_modifier());
                }
            }
            lemma_pattern_tidy(pieces);
        }
    }
}

/// A tidy shape is told by the way it is written in a fingerprint, which
/// holds no slash.
proof fn lemma_shape_text(a: Shape, b: Shape)
    requires
        a matches Shape::Pattern(p) ==> tidy(p),
        b matches Shape::Pattern(p) ==> tidy(p),
    ensures
        shape_text(a) == shape_text(b) ==> a == b,
        forall|k: int| 0 <= k < shape_text(a).len() ==> #[trigger] shape_text(a)[k] != '/',
{
    let x = shape_text(a);
    let y = shape_text(b);
    if x == y && a != b {
        if let Shape::Pattern(p) = a {
            assert(p.len() == 3);
            assert(p[0] == '{');
            assert(p[1] == '}');
            assert(y[1] == '?' || y[1] == '*');
        } else if let Shape::Pattern(p) = b {
            assert(p.len() == 3);
            assert(p[0] == '{');
            assert(p[1] == '}');
            assert(x[1] == '?' || x[1] == '*');
        } else {
            assert(x[1] != y[1]);
        }
    }
}

/// Two fingerprints of tidy shapes that are the same text are those of the
/// same shapes.
proof fn lemma_fingerprint_tells(a: Seq<Shape>, b: Seq<Shape>)
    requires
        tidy_shapes(a),
        tidy_shapes(b),
        fingerprint_of(a) == fingerprint_of(b),
    ensures
        a == b,
    decreases a.len(),
{
    if a.len() == 0 {
        if b.len() > 0 {
            let f = fingerprint_of(b.drop_last()) + seq!['/'] + shape_text(b.last());
            assert(f.len() > 0);
        }
        assert(a =~= b);
    } else if b.len() == 0 {
        let f = fingerprint_of(a.drop_last()) + seq!['/'] + shape_text(a.last());
        assert(f.len() > 0);
    } else {
        let fa = fingerprint_of(a.drop_last());
        let fb = fingerprint_of(b.drop_last());
        let ta = shape_text(a.last());
        let tb = shape_text(b.last());
        let f = fingerprint_of(a);
        assert(f == fa + seq!['/'] + ta);
        assert(f == fb + seq!['/'] + tb);
        lemma_shape_text(a.last(), b.last());
        lemma_shape_text(b.last(), a.last());
        // the last slash of the fingerprint stands before the last shape
        assert(f[fa.len() as int] == '/');
        assert(f[fb.len() as int] == '/');
        if fa.len() < fb.len() {
            assert(f[fb.len() as int] == ta[fb.len() - fa.len() - 1]);
        } else if fb.len() < fa.len() {
            assert(f[fa.len() as int] == tb[fa.len() - fb.len() - 1]);
        }
        assert(fa == f.subrange(0, fa.len() as int));
        assert(fb == f.subrange(0, fb.len() as int));
        assert(ta == f.subrange(fa.len() as int + 1, f.len() as int));
        assert(tb == f.subrange(fb.len() as int + 1, f.len() as int));
        assert forall|k: int| 0 <= k < a.drop_last().len() implies (
        #[trigger] a.drop_last()[k] matches Shape::Pattern(p) ==> tidy(p)) by {
            assert(a.drop_last()[k] == a[k]);
        }
        assert forall|k: int| 0 <= k < b.drop_last().len() implies (
        #[trigger] b.drop_last()[k] matches Shape::Pattern(p) ==> tidy(p)) by {
            assert(b.drop_last()[k] == b[k]);
        }
        lemma_fingerprint_tells(a.drop_last(), b.drop_last());
        assert(a == a.drop_last().push(a.last()));
        assert(b == b.drop_last().push(b.last()));
    }
}

/// The fingerprint decides a collision: two templates have the same
/// fingerprint if and only if their segments have the same shapes.
pub proof fn lemma_fingerprint_decides(first: Seq<char>, second: Seq<char>)
    requires
        is_template(first),
        is_template(second),
    ensures
        analysis_of(first).fingerprint == analysis_of(second).fingerprint <==> analysis_of(
            first,
        ).shapes == analysis_of(second).shapes,
{
    lemma_template_tidy(first);
    lemma_template_tidy(second);
    if analysis_of(first).fingerprint == analysis_of(second).fingerprint {
        lemma_fingerprint_tells(analysis_of(first).shapes, analysis_of(second).shapes);
    }
}

} // verus!
