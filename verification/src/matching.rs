//! Which templates match a request path, and which of them wins.
//!
//! A template is seen here as its *form*: the shapes of its segments and,
//! for a counted wildcard, the count. A path is seen as its segments.

use vstd::prelude::*;
use crate::pattern::{lemma_shape_order, pattern_match, shape_lt, Shape};

verus! {

/// The form of a template.
pub struct Form {
    /// The shape of each segment.
    pub shapes: Seq<Shape>,
    /// The number of segments that a counted wildcard takes.
    pub count: Option<int>,
}

/// The segments of a path, joined by `/`.
pub open spec fn join(parts: Seq<Seq<char>>) -> Seq<char>
    decreases parts.len(),
{
    if parts.len() == 0 {
        Seq::empty()
    } else if parts.len() == 1 {
        parts[0]
    } else {
        join(parts.drop_last()) + seq!['/'] + parts.last()
    }
}

impl Form {
    /// A form as the grammar allows it: at least one segment, an optional
    /// parameter or a wildcard only as the last one, and a count of at least
    /// one.
    pub open spec fn wf(self) -> bool {
        &&& self.shapes.len() >= 1
        &&& forall|k: int| 0 <= k < self.shapes.len() - 1 ==> #[trigger] self.shapes[k] is Pattern
        &&& self.count matches Some(c) ==> c >= 1
    }

    /// Whether the last segment of the template accepts what the path holds
    /// from its position on.
    pub open spec fn last_matches(self, segs: Seq<Seq<char>>) -> bool {
        let n = self.shapes.len() as int;
        match self.shapes[n - 1] {
            Shape::Pattern(p) => segs.len() == n && pattern_match(p, segs[n - 1]) is Some,
            Shape::Optional => segs.len() == n - 1 || segs.len() == n,
            Shape::Wildcard => match self.count {
                None => segs.len() >= n,
                Some(c) => segs.len() == n - 1 + c,
            },
        }
    }

    /// Whether the template matches the path: each segment before the last
    /// is a pattern that the path's segment at that position matches, and
    /// the last one accepts the rest.
    pub open spec fn matches(self, segs: Seq<Seq<char>>) -> bool {
        &&& self.shapes.len() >= 1
        &&& forall|k: int|
            0 <= k < self.shapes.len() - 1 ==> k < segs.len() && match #[trigger] self.shapes[k] {
                Shape::Pattern(p) => pattern_match(p, segs[k]) is Some,
                _ => false,
            }
        &&& self.last_matches(segs)
    }

    /// The values of the parameters from segment `k` on, in the order of
    /// the template. An optional parameter without a segment has none.
    pub open spec fn values_from(self, segs: Seq<Seq<char>>, k: int) -> Seq<Seq<char>>
        decreases self.shapes.len() - k,
    {
        if k < 0 || k >= self.shapes.len() {
            Seq::empty()
        } else {
            match self.shapes[k] {
                Shape::Pattern(p) => {
                    let here = if k < segs.len() && pattern_match(p, segs[k]) is Some {
                        pattern_match(p, segs[k])->Some_0
                    } else {
                        Seq::empty()
                    };
                    here + self.values_from(segs, k + 1)
                },
                Shape::Optional => if k < segs.len() {
                    seq![segs[k]]
                } else {
                    Seq::empty()
                },
                Shape::Wildcard => seq![join(segs.subrange(k, segs.len() as int))],
            }
        }
    }

    /// The values of the parameters on a path that the template matches.
    pub open spec fn values(self, segs: Seq<Seq<char>>) -> Seq<Seq<char>> {
        self.values_from(segs, 0)
    }
}

/// Whether `a[k..]` comes before `b[k..]`: a template before one that
/// continues it, and otherwise by the shapes at the first segment where the
/// two differ.
pub open spec fn precedes_from(a: Seq<Shape>, b: Seq<Shape>, k: int) -> bool
    decreases a.len() - k,
{
    if k < 0 || k >= a.len() {
        0 <= k < b.len()
    } else if k >= b.len() {
        false
    } else if a[k] == b[k] {
        precedes_from(a, b, k + 1)
    } else {
        shape_lt(a[k], b[k])
    }
}

/// The order of precedence between two templates.
pub open spec fn precedes(a: Seq<Shape>, b: Seq<Shape>) -> bool {
    precedes_from(a, b, 0)
}

/// Whether the template `w` is the match for the path: it matches, and it
/// comes before every other template that matches.
pub open spec fn is_best(forms: Seq<Form>, segs: Seq<Seq<char>>, w: int) -> bool {
    &&& 0 <= w < forms.len()
    &&& forms[w].matches(segs)
    &&& forall|r: int|
        0 <= r < forms.len() && r != w && (#[trigger] forms[r]).matches(segs) ==> precedes(
            forms[w].shapes,
            forms[r].shapes,
        )
}

/// Whether no template matches the path.
pub open spec fn none_matches(forms: Seq<Form>, segs: Seq<Seq<char>>) -> bool {
    forall|r: int| 0 <= r < forms.len() ==> !(#[trigger] forms[r]).matches(segs)
}

/// Whether no two templates have the same shapes.
pub open spec fn distinct_shapes(forms: Seq<Form>) -> bool {
    forall|a: int, b: int|
        0 <= a < b < forms.len() ==> (#[trigger] forms[a]).shapes != (#[trigger] forms[b]).shapes
}

/// Two templates that agree before segment `k`, where the first has the
/// shape that is tried earlier, stand in the order of precedence.
pub proof fn lemma_precedes_at(a: Seq<Shape>, b: Seq<Shape>, k: int, i: int)
    requires
        0 <= i <= k,
        k < a.len(),
        k < b.len(),
        a.take(k) == b.take(k),
        shape_lt(a[k], b[k]),
    ensures
        precedes_from(a, b, i),
    decreases k - i,
{
    lemma_shape_order(a[k], b[k]);
    if i < k {
        assert(a.take(k)[i] == a[i]);
        assert(b.take(k)[i] == b[i]);
        lemma_precedes_at(a, b, k, i + 1);
    }
}

/// A template comes before one that continues it.
pub proof fn lemma_precedes_prefix(a: Seq<Shape>, b: Seq<Shape>, i: int)
    requires
        0 <= i <= a.len(),
        a.len() < b.len(),
        b.take(a.len() as int) == a,
    ensures
        precedes_from(a, b, i),
    decreases a.len() - i,
{
    if i < a.len() {
        assert(b.take(a.len() as int)[i] == b[i]);
        lemma_precedes_prefix(a, b, i + 1);
    }
}

/// Of two templates at most one comes before the other.
pub proof fn lemma_precedes_one_way(a: Seq<Shape>, b: Seq<Shape>, i: int)
    requires
        0 <= i,
    ensures
        !(precedes_from(a, b, i) && precedes_from(b, a, i)),
    decreases a.len() - i,
{
    if i < a.len() && i < b.len() {
        lemma_shape_order(a[i], b[i]);
        if a[i] == b[i] {
            lemma_precedes_one_way(a, b, i + 1);
        }
    }
}

/// The match for a path is unique: of the templates of a table, at most one
/// comes before all others that match.
pub proof fn lemma_best_unique(forms: Seq<Form>, segs: Seq<Seq<char>>, v: int, w: int)
    requires
        is_best(forms, segs, v),
        is_best(forms, segs, w),
    ensures
        v == w,
{
    if v != w {
        assert(forms[w].matches(segs));
        assert(forms[v].matches(segs));
        lemma_precedes_one_way(forms[v].shapes, forms[w].shapes, 0);
    }
}

} // verus!
