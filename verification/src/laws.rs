//! What holds of every table and of every lookup.

use vstd::prelude::*;
use crate::analysis::{analysis_of, pattern_of, shape_of};
use crate::canonical::{canonical, lemma_canonical_idempotent, lemma_canonical_is_template};
use crate::grammar::{
    is_template, lemma_run_chars, lemma_run_len_bound, lemma_run_maximal, parse, run_len,
    scan_from, Fault, Piece,
};
use crate::matching::{distinct_shapes, is_best, lemma_best_unique, precedes, precedes_from, Form};
use crate::method::Method;
use crate::path::{decoded, segments, split_from};
use crate::pattern::{has_hole, match_from, pattern_match, text, Shape};
use crate::router::{
    collides, form_of, forms_of, lemma_routes_push, registered, resolves, routes_of, Refusal,
    RouteView, Verdict,
};
use crate::structure::lemma_fingerprint_decides;
use crate::text::{lower, lower_char};

verus! {

/// What holds of the routes of every table: each template is a template in
/// canonical form, and no two routes of one method have the same shapes.
pub open spec fn table_ok(log: Seq<RouteView>) -> bool {
    &&& forall|k: int|
        0 <= k < log.len() ==> is_template((#[trigger] log[k]).template) && canonical(
            log[k].template,
        ) == log[k].template
    &&& forall|m: Method| distinct_shapes(#[trigger] forms_of(routes_of(log, m)))
}

/// The templates of the routes of a method are templates.
pub proof fn lemma_routes_are_templates(log: Seq<RouteView>, method: Method)
    requires
        table_ok(log),
    ensures
        forall|k: int|
            0 <= k < routes_of(log, method).len() ==> is_template(
                (#[trigger] routes_of(log, method)[k]).template,
            ),
    decreases log.len(),
{
    if log.len() > 0 {
        let front = log.drop_last();
        assert forall|k: int| 0 <= k < front.len() implies is_template(
            (#[trigger] front[k]).template,
        ) && canonical(front[k].template) == front[k].template by {
            assert(front[k] == log[k]);
        }
        assert forall|m: Method| distinct_shapes(#[trigger] forms_of(routes_of(front, m))) by {
            let all = forms_of(routes_of(log, m));
            let part = forms_of(routes_of(front, m));
            assert(distinct_shapes(all));
            assert forall|a: int, b: int| 0 <= a < b < part.len() implies (#[trigger] part[a]).shapes
                != (#[trigger] part[b]).shapes by {
                assert(all[a] == part[a]);
                assert(all[b] == part[b]);
            }
        }
        lemma_routes_are_templates(front, method);
        assert(is_template(log[log.len() - 1].template));
    }
}

/// A registration keeps what holds of every table.
pub proof fn lemma_registered_ok(
    log: Seq<RouteView>,
    method: Method,
    raw: Seq<char>,
    handler: u64,
    vhost: Option<Seq<char>>,
)
    requires
        table_ok(log),
    ensures
        table_ok(registered(log, method, raw, handler, vhost).0),
{
    let after = registered(log, method, raw, handler, vhost).0;
    if after != log {
        let template = canonical(raw);
        let route = RouteView { method, template, handler, vhost };
        assert(after == log.push(route));
        lemma_canonical_is_template(raw);
        lemma_canonical_idempotent(raw);
        assert forall|m: Method| distinct_shapes(#[trigger] forms_of(routes_of(after, m))) by {
            lemma_routes_push(log, route, m);
            let before = forms_of(routes_of(log, m));
            assert(distinct_shapes(before));
            if m == method {
                let forms = forms_of(routes_of(after, m));
                assert forall|a: int, b: int| 0 <= a < b < forms.len() implies (
                #[trigger] forms[a]).shapes != (#[trigger] forms[b]).shapes by {
                    if b < before.len() {
                        assert(forms[a] == before[a]);
                        assert(forms[b] == before[b]);
                    } else {
                        assert(forms[a] == form_of(routes_of(log, method)[a]));
                        assert(forms[b] == form_of(route));
                        if forms[a].shapes == forms[b].shapes {
                            assert(analysis_of(routes_of(log, method)[a].template).fingerprint
                                == analysis_of(template).fingerprint);
                        }
                    }
                }
            }
        }
    }
}

/// A registration, whether it succeeds or fails, leaves every route that
/// the table held as it was and where it was.
pub proof fn lemma_routes_stay(
    log: Seq<RouteView>,
    method: Method,
    raw: Seq<char>,
    handler: u64,
    vhost: Option<Seq<char>>,
)
    ensures
        ({
            let after = registered(log, method, raw, handler, vhost).0;
            &&& log.len() <= after.len() <= log.len() + 1
            &&& after.take(log.len() as int) == log
            &&& forall|m: Method|
                m != method ==> #[trigger] routes_of(after, m) == routes_of(log, m)
        }),
{
    let after = registered(log, method, raw, handler, vhost).0;
    if after != log {
        let route = RouteView { method, template: canonical(raw), handler, vhost };
        assert(after == log.push(route));
        assert(after.take(log.len() as int) == log);
        assert forall|m: Method| m != method implies #[trigger] routes_of(after, m) == routes_of(
            log,
            m,
        ) by {
            lemma_routes_push(log, route, m);
        }
    } else {
        assert(after.take(log.len() as int) == log);
    }
}

/// No two routes of one method have the same fingerprint.
pub proof fn lemma_fingerprints_differ(log: Seq<RouteView>, method: Method, a: int, b: int)
    requires
        table_ok(log),
        0 <= a < b < routes_of(log, method).len(),
    ensures
        analysis_of(routes_of(log, method)[a].template).fingerprint != analysis_of(
            routes_of(log, method)[b].template,
        ).fingerprint,
{
    let routes = routes_of(log, method);
    let forms = forms_of(routes);
    assert(distinct_shapes(forms));
    assert(forms[a].shapes != forms[b].shapes);
    lemma_routes_are_templates(log, method);
    lemma_fingerprint_decides(routes[a].template, routes[b].template);
}

/// Duplicate detection: a template that is registered a second time for
/// the same method fails as a duplicate, whatever handler and configuration
/// come with it, and the table stays as the first registration left it, so
/// that every lookup goes as if the template had been registered once.
pub proof fn lemma_duplicate_detection(
    log: Seq<RouteView>,
    method: Method,
    raw: Seq<char>,
    handler: u64,
    vhost: Option<Seq<char>>,
    handler2: u64,
    vhost2: Option<Seq<char>>,
)
    requires
        is_template(raw),
    ensures
        ({
            let first = registered(log, method, raw, handler, vhost);
            let second = registered(first.0, method, raw, handler2, vhost2);
            &&& second.0 == first.0
            &&& second.1 == Some(
                Refusal::DuplicateRoute(method, analysis_of(canonical(raw)).fingerprint),
            )
        }),
{
    lemma_same_canonical_collides(log, method, raw, raw, handler, vhost, handler2, vhost2);
}

/// Canonicalization collision: two templates with the same canonical form,
/// such as two that differ in the case of their literals, cannot both be
/// registered for one method; the second fails as a duplicate.
pub proof fn lemma_same_canonical_collides(
    log: Seq<RouteView>,
    method: Method,
    raw: Seq<char>,
    raw2: Seq<char>,
    handler: u64,
    vhost: Option<Seq<char>>,
    handler2: u64,
    vhost2: Option<Seq<char>>,
)
    requires
        is_template(raw),
        is_template(raw2),
        canonical(raw) == canonical(raw2),
    ensures
        ({
            let first = registered(log, method, raw, handler, vhost);
            let second = registered(first.0, method, raw2, handler2, vhost2);
            &&& second.0 == first.0
            &&& second.1 == Some(
                Refusal::DuplicateRoute(method, analysis_of(canonical(raw)).fingerprint),
            )
        }),
{
    let template = canonical(raw);
    let first = registered(log, method, raw, handler, vhost);
    if collides(log, method, template) {
        assert(first.0 == log);
    } else {
        let route = RouteView { method, template, handler, vhost };
        lemma_routes_push(log, route, method);
        let routes = routes_of(first.0, method);
        let k = routes.len() - 1;
        assert(routes[k].template == template);
    }
}

/// Whether every segment of a template is literal text.
pub open spec fn all_literal(form: Form) -> bool {
    forall|k: int|
        0 <= k < form.shapes.len() ==> match #[trigger] form.shapes[k] {
            Shape::Pattern(p) => !has_hole(p),
            _ => false,
        }
}

/// The texts of the segments of a template.
pub open spec fn texts(form: Form) -> Seq<Seq<char>> {
    form.shapes.map_values(|a: Shape| text(a))
}

/// The segments of a path in lower case.
pub open spec fn lower_all(segs: Seq<Seq<char>>) -> Seq<Seq<char>> {
    segs.map_values(|s: Seq<char>| lower(s))
}

proof fn lemma_literal_match_from(p: Seq<char>, s: Seq<char>, i: int)
    requires
        !has_hole(p),
        0 <= i <= p.len(),
        i <= s.len(),
    ensures
        match_from(p, i, s, i) is Some <==> s.len() == p.len() && forall|k: int|
            i <= k < p.len() ==> lower_char(#[trigger] s[k]) == p[k],
    decreases p.len() - i,
{
    if i < p.len() {
        assert(p.contains(p[i]));
        if i < s.len() && lower_char(s[i]) == p[i] {
            lemma_literal_match_from(p, s, i + 1);
        }
    }
}

/// A segment matches literal text if and only if it is that text but for
/// the case of its letters.
pub proof fn lemma_literal_match(p: Seq<char>, s: Seq<char>)
    requires
        !has_hole(p),
    ensures
        pattern_match(p, s) is Some <==> lower(s) == p,
{
    lemma_literal_match_from(p, s, 0);
    if lower(s) == p {
        assert forall|k: int| 0 <= k < p.len() implies lower_char(#[trigger] s[k]) == p[k] by {
            assert(lower(s)[k] == lower_char(s[k]));
        }
    }
    if pattern_match(p, s) is Some {
        assert(lower(s) =~= p);
    }
}

proof fn lemma_literal_first(a: Form, b: Form, segs: Seq<Seq<char>>, k: int)
    requires
        all_literal(a),
        a.matches(segs),
        b.matches(segs),
        a.shapes != b.shapes,
        0 <= k <= a.shapes.len(),
        k <= b.shapes.len(),
        a.shapes.take(k) == b.shapes.take(k),
    ensures
        precedes_from(a.shapes, b.shapes, k),
    decreases a.shapes.len() - k,
{
    let x = a.shapes;
    let y = b.shapes;
    if k == x.len() {
        if k == y.len() {
            assert(x.take(k) == x);
            assert(y.take(k) == y);
        }
    } else if k == y.len() {
        assert(y.take(k) == y);
        assert(x.take(k)[k - 1] == x[k - 1]);
        assert(x[k - 1] is Pattern);
    } else if x[k] == y[k] {
        assert(x.take(k + 1) == x.take(k).push(x[k]));
        assert(y.take(k + 1) == y.take(k).push(y[k]));
        lemma_literal_first(a, b, segs, k + 1);
    } else {
        assert(x[k] is Pattern);
        let p = text(x[k]);
        assert(pattern_match(p, segs[k]) is Some);
        lemma_literal_match(p, segs[k]);
        if let Shape::Pattern(q) = y[k] {
            assert(pattern_match(q, segs[k]) is Some);
            if !has_hole(q) {
                lemma_literal_match(q, segs[k]);
            }
        }
    }
}

/// Pure-literal equivalence: a route whose template is all literal text is
/// the match for a path if and only if the segments of the path, in lower
/// case, are the segments of the template.
pub proof fn lemma_literal_route(forms: Seq<Form>, segs: Seq<Seq<char>>, w: int)
    requires
        0 <= w < forms.len(),
        forms[w].shapes.len() >= 1,
        all_literal(forms[w]),
        distinct_shapes(forms),
    ensures
        is_best(forms, segs, w) <==> lower_all(segs) == texts(forms[w]),
{
    let a = forms[w];
    let n = a.shapes.len() as int;
    if lower_all(segs) == texts(a) {
        assert(lower_all(segs).len() == segs.len());
        assert(texts(a).len() == n);
        assert forall|k: int| 0 <= k < n implies match #[trigger] a.shapes[k] {
            Shape::Pattern(p) => pattern_match(p, segs[k]) is Some,
            _ => false,
        } by {
            assert(lower_all(segs)[k] == lower(segs[k]));
            assert(texts(a)[k] == text(a.shapes[k]));
            lemma_literal_match(text(a.shapes[k]), segs[k]);
        }
        assert(a.shapes[n - 1] is Pattern);
        assert(a.matches(segs));
        assert forall|r: int|
            0 <= r < forms.len() && r != w && (#[trigger] forms[r]).matches(segs) implies precedes(
            a.shapes,
            forms[r].shapes,
        ) by {
            if r < w {
                assert(forms[r].shapes != forms[w].shapes);
            } else {
                assert(forms[w].shapes != forms[r].shapes);
            }
            assert(a.shapes.take(0) == forms[r].shapes.take(0));
            lemma_literal_first(a, forms[r], segs, 0);
        }
    }
    if is_best(forms, segs, w) {
        assert(a.shapes[n - 1] is Pattern);
        assert(segs.len() == n);
        assert forall|k: int| 0 <= k < n implies lower_all(segs)[k] == texts(a)[k] by {
            assert(a.shapes[k] is Pattern);
            lemma_literal_match(text(a.shapes[k]), segs[k]);
        }
        assert(lower_all(segs) =~= texts(a));
    }
}

/// The verdict of a lookup is unique: where two verdicts are both what the
/// lookup comes to, they are the same verdict.
pub proof fn lemma_verdict_unique(
    log: Seq<RouteView>,
    method: Method,
    path: Seq<char>,
    v: Verdict,
    w: Verdict,
)
    requires
        resolves(log, method, path, v),
        resolves(log, method, path, w),
    ensures
        v == w,
{
    let forms = forms_of(routes_of(log, method));
    if let Verdict::Match(a) = v {
        if let Verdict::Match(b) = w {
            let segs = segments(decoded(path)->Some_0)->Some_0;
            lemma_best_unique(forms, segs, a, b);
        }
    }
}

/// The order of registration does not decide a lookup: the template that
/// is the match among some templates is the match among the same templates
/// in any other order.
pub proof fn lemma_order_free(
    forms: Seq<Form>,
    other: Seq<Form>,
    segs: Seq<Seq<char>>,
    w: int,
    v: int,
)
    requires
        is_best(forms, segs, w),
        0 <= v < other.len(),
        other[v] == forms[w],
        distinct_shapes(other),
        forall|r: int| 0 <= r < other.len() ==> forms.contains(#[trigger] other[r]),
    ensures
        is_best(other, segs, v),
{
    assert forall|r: int|
        0 <= r < other.len() && r != v && (#[trigger] other[r]).matches(segs) implies precedes(
        other[v].shapes,
        other[r].shapes,
    ) by {
        assert(forms.contains(other[r]));
        let q = choose|q: int| 0 <= q < forms.len() && forms[q] == other[r];
        if r < v {
            assert(other[r].shapes != other[v].shapes);
        } else {
            assert(other[v].shapes != other[r].shapes);
        }
        assert(q != w);
        assert(forms[q].matches(segs));
    }
}

/// Characters that are no slash do not end a segment.
proof fn lemma_split_skip(s: Seq<char>, i: int, j: int, start: int, done: Seq<Seq<char>>)
    requires
        0 <= i <= j <= s.len(),
        forall|k: int| i <= k < j ==> s[k] != '/',
    ensures
        split_from(s, i, start, done) == split_from(s, j, start, done),
    decreases j - i,
{
    if i < j {
        lemma_split_skip(s, i + 1, j, start, done);
    }
}

/// Whether the segments `done` of a template are the literal texts `plain`.
spec fn same_texts(done: Seq<Seq<Piece>>, plain: Seq<Seq<char>>) -> bool {
    &&& done.len() == plain.len()
    &&& forall|x: int|
        0 <= x < done.len() ==> {
            &&& pattern_of(#[trigger] done[x]) == lower(plain[x])
            &&& !has_hole(lower(plain[x]))
            &&& forall|y: int| 0 <= y < done[x].len() ==> done[x][y] is Literal
        }
}

proof fn lemma_lower_no_hole(t: Seq<char>)
    requires
        forall|k: int| 0 <= k < t.len() ==> t[k] != '{',
    ensures
        !has_hole(lower(t)),
{
    if has_hole(lower(t)) {
        let k = choose|k: int| 0 <= k < lower(t).len() && lower(t)[k] == '{';
        assert(lower_char(t[k]) == '{');
    }
}

/// From the start of a segment on, a template without braces scans into
/// the segments that its slashes split it into.
proof fn lemma_plain_from(
    s: Seq<char>,
    i: int,
    done: Seq<Seq<Piece>>,
    plain: Seq<Seq<char>>,
    seen: Seq<Seq<char>>,
)
    requires
        0 <= i <= s.len(),
        !s.contains('{'),
        scan_from(s, i, done, Seq::empty(), seen) is Ok,
        same_texts(done, plain),
    ensures
        same_texts(scan_from(s, i, done, Seq::empty(), seen)->Ok_0, split_from(s, i, i, plain)),
        scan_from(s, i, done, Seq::empty(), seen)->Ok_0.len() >= 1,
    decreases s.len() - i,
{
    let none = Seq::<Piece>::empty();
    if i >= s.len() {
        let t = s.subrange(i, s.len() as int);
        assert(t.len() == 0);
        assert(lower(t) =~= Seq::<char>::empty());
        lemma_lower_no_hole(t);
        let out = done.push(none);
        assert(pattern_of(out[out.len() - 1]) == lower(t));
    } else {
        assert(s.contains(s[i]));
        assert(s[i] != '{');
        assert(s[i] != '/');
        let r = run_len(s, i) as int;
        assert(r > 0);
        lemma_run_len_bound(s, i);
        lemma_run_maximal(s, i);
        let t = s.subrange(i, i + r);
        let cur = none.push(Piece::Literal(t));
        assert forall|k: int| i <= k < i + r implies s[k] != '/' && s[k] != '{' by {
            lemma_run_chars(s, i, k - i);
        }
        lemma_split_skip(s, i, i + r, i, plain);
        lemma_lower_no_hole(t);
        assert(cur.drop_last() == none);
        assert(pattern_of(cur) == lower(t)) by {
            assert(pattern_of(none) == Seq::<char>::empty());
            assert(Seq::<char>::empty() + lower(t) == lower(t));
        }
        let next = done.push(cur);
        let texts = plain.push(t);
        assert(same_texts(next, texts)) by {
            assert forall|x: int| 0 <= x < next.len() implies {
                &&& pattern_of(#[trigger] next[x]) == lower(texts[x])
                &&& !has_hole(lower(texts[x]))
                &&& forall|y: int| 0 <= y < next[x].len() ==> next[x][y] is Literal
            } by {
                if x < done.len() {
                    assert(next[x] == done[x]);
                    assert(texts[x] == plain[x]);
                }
            }
        }
        assert(scan_from(s, i, done, none, seen) == scan_from(s, i + r, done, cur, seen));
        if i + r >= s.len() {
            assert(t == s.subrange(i, s.len() as int));
            assert(scan_from(s, i + r, done, cur, seen) == Ok::<Seq<Seq<Piece>>, Fault>(next));
        } else {
            assert(s.contains(s[i + r]));
            assert(s[i + r] != '{');
            assert(s[i + r] == '/');
            assert(cur.len() == 1);
            assert(scan_from(s, i + r, done, cur, seen) == scan_from(
                s,
                i + r + 1,
                next,
                none,
                seen,
            ));
            lemma_plain_from(s, i + r + 1, next, texts, seen);
        }
    }
}

/// A template without braces is all literal text, and its segments are
/// what stands between its slashes, in lower case.
pub proof fn lemma_plain_template(template: Seq<char>)
    requires
        is_template(template),
        !template.contains('{'),
    ensures
        all_literal(analysis_of(template).form()),
        analysis_of(template).form().shapes.len() >= 1,
        segments(template) is Some,
        texts(analysis_of(template).form()) == lower_all(segments(template)->Some_0),
{
    let none = Seq::<Seq<Piece>>::empty();
    lemma_plain_from(template, 1, none, Seq::empty(), Seq::empty());
    let segs = parse(template)->Ok_0;
    let plain = segments(template)->Some_0;
    let form = analysis_of(template).form();
    assert forall|k: int| 0 <= k < form.shapes.len() implies form.shapes[k] == Shape::Pattern(
        lower(plain[k]),
    ) by {
        assert(form.shapes[k] == shape_of(segs[k], k == segs.len() - 1));
        if segs[k].len() == 1 {
            assert(segs[k][0] is Literal);
        }
    }
    assert(texts(form) =~= lower_all(plain));
}

/// Pure-literal equivalence, said of a table: a route whose template has
/// no parameter is the match for a path if and only if the segments of the
/// decoded path and the segments of the template are the same but for the
/// case of their letters.
pub proof fn lemma_literal_equivalence(
    log: Seq<RouteView>,
    method: Method,
    k: int,
    path: Seq<char>,
)
    requires
        table_ok(log),
        0 <= k < routes_of(log, method).len(),
        !routes_of(log, method)[k].template.contains('{'),
        decoded(path) is Some,
        segments(decoded(path)->Some_0) is Some,
    ensures
        resolves(log, method, path, Verdict::Match(k)) <==> lower_all(
            segments(decoded(path)->Some_0)->Some_0,
        ) == lower_all(segments(routes_of(log, method)[k].template)->Some_0),
{
    let routes = routes_of(log, method);
    let forms = forms_of(routes);
    let segs = segments(decoded(path)->Some_0)->Some_0;
    lemma_routes_are_templates(log, method);
    lemma_plain_template(routes[k].template);
    assert(forms[k] == analysis_of(routes[k].template).form());
    assert(distinct_shapes(forms));
    lemma_literal_route(forms, segs, k);
}

} // verus!
