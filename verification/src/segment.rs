//! The trie of one method.
//!
//! Every registered template is a path from the root: one edge per segment,
//! labelled with the segment's shape. The edges of a node stand in the order
//! of precedence, which is the order in which the matcher tries them.

use vstd::prelude::*;
use crate::analysis::{Analysis, AnalysisView};
use crate::matching::{
    is_best, join, lemma_precedes_at, lemma_precedes_prefix, none_matches, precedes, Form,
};
use crate::pattern::{
    lemma_shape_order, lemma_shape_trans, match_pattern, pattern_match, shape_lt, shapes_of,
    step_place, Place, Shape, Step,
};
use crate::text::{copy_range, texts_of};

verus! {

/// An edge of the trie.
#[derive(Debug)]
pub struct Edge {
    /// The shape of the segment that the edge stands for.
    pub step: Step,
    /// The index of the node that it leads to.
    pub child: usize,
}

/// A node of the trie: one depth of a path.
pub struct Node {
    /// The template that ends here, if one does.
    pub route: Option<usize>,
    /// The edges to the children, in the order of precedence.
    pub edges: Vec<Edge>,
    /// The shapes on the way from the root to this node.
    pub path: Ghost<Seq<Shape>>,
    /// The node that this one is a child of.
    pub parent: Ghost<int>,
}

/// The trie of the templates of one method. The nodes live in an arena and
/// name each other by index; the root is node 0.
pub struct Segment {
    nodes: Vec<Node>,
    fulls: Vec<Analysis>,
    homes: Ghost<Seq<int>>,
}

impl Segment {
    /// The templates of the trie, in the order in which they came.
    pub closed spec fn templates(&self) -> Seq<AnalysisView> {
        self.fulls@.map_values(|a: Analysis| a@)
    }

    /// The forms of the templates.
    pub open spec fn forms(&self) -> Seq<Form> {
        self.templates().map_values(|a: AnalysisView| a.form())
    }

    /// Whether a template with these shapes is in the trie.
    pub open spec fn holds(&self, shapes: Seq<Shape>) -> bool {
        exists|r: int| 0 <= r < self.forms().len() && (#[trigger] self.forms()[r]).shapes == shapes
    }

    spec fn path(&self, n: int) -> Seq<Shape> {
        self.nodes@[n].path@
    }

    spec fn child(&self, n: int, e: int) -> int {
        self.nodes@[n].edges@[e].child as int
    }

    spec fn step(&self, n: int, e: int) -> Shape {
        self.nodes@[n].edges@[e].step@
    }

    spec fn degree(&self, n: int) -> int {
        self.nodes@[n].edges@.len() as int
    }

    spec fn edges_ok(&self) -> bool {
        forall|n: int, e: int|
            0 <= n < self.nodes@.len() && 0 <= e < self.degree(n) ==> {
                let c = #[trigger] self.child(n, e);
                &&& n < c < self.nodes@.len()
                &&& self.path(c) == self.path(n).push(self.step(n, e))
                &&& self.nodes@[c].parent@ == n
                &&& (self.step(n, e) is Pattern || self.degree(c) == 0)
            }
    }

    spec fn sorted(&self) -> bool {
        forall|n: int, x: int, y: int|
            0 <= n < self.nodes@.len() && 0 <= x < y < self.degree(n) ==> shape_lt(
                #[trigger] self.step(n, x),
                #[trigger] self.step(n, y),
            )
    }

    spec fn injective(&self) -> bool {
        forall|a: int, b: int|
            0 <= a < b < self.nodes@.len() ==> #[trigger] self.path(a) != #[trigger] self.path(b)
    }

    spec fn has_child(&self, n: int, c: int) -> bool {
        exists|e: int| 0 <= e < self.degree(n) && #[trigger] self.child(n, e) == c
    }

    spec fn parent(&self, c: int) -> int {
        self.nodes@[c].parent@
    }

    spec fn parents_ok(&self) -> bool {
        forall|c: int|
            1 <= c < self.nodes@.len() ==> 0 <= #[trigger] self.parent(c) < c && self.has_child(
                self.parent(c),
                c,
            )
    }

    spec fn route(&self, n: int) -> Option<int> {
        match self.nodes@[n].route {
            Some(r) => Some(r as int),
            None => None,
        }
    }

    spec fn routes_ok(&self) -> bool {
        &&& self.homes@.len() == self.fulls@.len()
        &&& forall|n: int|
            0 <= n < self.nodes@.len() ==> (#[trigger] self.route(n) matches Some(r) ==> r
                < self.fulls@.len() && self.forms()[r].shapes == self.path(n))
        &&& forall|r: int|
            0 <= r < self.fulls@.len() ==> {
                let h = #[trigger] self.homes@[r];
                &&& 0 <= h < self.nodes@.len()
                &&& self.route(h) == Some(r)
            }
        &&& forall|r: int| 0 <= r < self.fulls@.len() ==> (#[trigger] self.forms()[r]).wf()
    }

    /// The invariant of the trie.
    pub closed spec fn wf(&self) -> bool {
        &&& self.nodes@.len() >= 1
        &&& self.path(0) == Seq::<Shape>::empty()
        &&& self.edges_ok()
        &&& self.sorted()
        &&& self.injective()
        &&& self.parents_ok()
        &&& self.routes_ok()
    }

    /// Whether template `r` lies below node `n`.
    spec fn under(&self, r: int, n: int) -> bool {
        let l = self.forms()[r].shapes;
        let p = self.path(n);
        p.len() <= l.len() && l.take(p.len() as int) == p
    }

    /// Whether the path so far matches the way to node `n`.
    spec fn prefix_ok(&self, n: int, segs: Seq<Seq<char>>) -> bool {
        forall|x: int|
            0 <= x < self.path(n).len() ==> x < segs.len() && match #[trigger] self.path(n)[x] {
                Shape::Pattern(p) => pattern_match(p, segs[x]) is Some,
                _ => false,
            }
    }

    /// The node whose path is the first `k` shapes of the path of `t`.
    proof fn lemma_ancestor(&self, t: int, k: int) -> (a: int)
        requires
            self.wf(),
            0 <= t < self.nodes@.len(),
            0 <= k <= self.path(t).len(),
        ensures
            0 <= a < self.nodes@.len(),
            self.path(a) == self.path(t).take(k),
        decreases self.path(t).len() - k,
    {
        if k == self.path(t).len() {
            assert(self.path(t).take(k) == self.path(t));
            t
        } else {
            let p = self.parent(t);
            assert(self.has_child(p, t));
            let e = choose|e: int| 0 <= e < self.degree(p) && #[trigger] self.child(p, e) == t;
            assert(self.path(t) == self.path(p).push(self.step(p, e)));
            let a = self.lemma_ancestor(p, k);
            assert(self.path(p).take(k) == self.path(t).take(k));
            a
        }
    }

    /// The edge of `n` on the way to a node `t` below it.
    proof fn lemma_edge_to(&self, n: int, t: int) -> (e: int)
        requires
            self.wf(),
            0 <= n < self.nodes@.len(),
            0 <= t < self.nodes@.len(),
            self.path(n).len() < self.path(t).len(),
            self.path(t).take(self.path(n).len() as int) == self.path(n),
        ensures
            0 <= e < self.degree(n),
            self.step(n, e) == self.path(t)[self.path(n).len() as int],
            self.path(self.child(n, e)) == self.path(t).take(self.path(n).len() as int + 1),
    {
        let j = self.path(n).len() as int;
        let a = self.lemma_ancestor(t, j + 1);
        let p = self.parent(a);
        assert(self.has_child(p, a));
        let e = choose|e: int| 0 <= e < self.degree(p) && #[trigger] self.child(p, e) == a;
        assert(self.path(a) == self.path(p).push(self.step(p, e)));
        assert(self.path(p) == self.path(a).drop_last());
        assert(self.path(t).take(j + 1).drop_last() == self.path(t).take(j));
        if p < n {
            assert(self.path(p) != self.path(n));
        } else if n < p {
            assert(self.path(n) != self.path(p));
        }
        assert(self.path(a).last() == self.step(p, e));
        e
    }

    /// A template whose shapes are the path of a node ends at that node.
    proof fn lemma_home(&self, r: int, n: int)
        requires
            self.wf(),
            0 <= r < self.fulls@.len(),
            0 <= n < self.nodes@.len(),
            self.forms()[r].shapes == self.path(n),
        ensures
            self.route(n) == Some(r),
    {
        let h = self.homes@[r];
        assert(self.route(h) == Some(r));
        if h < n {
            assert(self.path(h) != self.path(n));
        } else if n < h {
            assert(self.path(n) != self.path(h));
        }
    }

    /// The edge of `n` on the way to a template that lies below it and is
    /// longer than its path.
    proof fn lemma_descend(&self, r: int, n: int) -> (e: int)
        requires
            self.wf(),
            0 <= r < self.fulls@.len(),
            0 <= n < self.nodes@.len(),
            self.under(r, n),
            self.path(n).len() < self.forms()[r].shapes.len(),
        ensures
            0 <= e < self.degree(n),
            self.step(n, e) == self.forms()[r].shapes[self.path(n).len() as int],
            self.under(r, self.child(n, e)),
    {
        let h = self.homes@[r];
        assert(self.route(h) == Some(r));
        let e = self.lemma_edge_to(n, h);
        let k = self.path(n).len() + 1;
        assert(self.path(self.child(n, e)).len() == k);
        e
    }

    /// Whether no template below node `n` matches the path.
    spec fn none_under(&self, n: int, segs: Seq<Seq<char>>) -> bool {
        forall|q: int|
            0 <= q < self.fulls@.len() && self.under(q, n) ==> !(#[trigger] self.forms()[q]).matches(
                segs,
            )
    }

    /// Whether template `w` is the first of those below node `n` that match
    /// the path.
    spec fn best_under(&self, n: int, segs: Seq<Seq<char>>, w: int) -> bool {
        &&& 0 <= w < self.fulls@.len()
        &&& self.under(w, n)
        &&& self.forms()[w].matches(segs)
        &&& forall|q: int|
            0 <= q < self.fulls@.len() && q != w && self.under(q, n) && (
            #[trigger] self.forms()[q]).matches(segs) ==> precedes(
                self.forms()[w].shapes,
                self.forms()[q].shapes,
            )
    }

    /// Whether nothing matches below the first `e` children of node `n`.
    spec fn earlier_fail(&self, n: int, segs: Seq<Seq<char>>, e: int) -> bool {
        forall|x: int| 0 <= x < e ==> self.none_under(#[trigger] self.child(n, x), segs)
    }

    /// What the search below node `n` has to return.
    spec fn found(
        &self,
        n: int,
        segs: Seq<Seq<char>>,
        r: Option<(usize, Vec<Vec<char>>)>,
    ) -> bool {
        match r {
            None => self.none_under(n, segs),
            Some((w, vals)) => self.best_under(n, segs, w as int) && texts_of(vals@)
                == self.forms()[w as int].values_from(segs, self.path(n).len() as int),
        }
    }

    /// A template below a child of `n` lies below `n`, and its shape at the
    /// depth of `n` is that of the edge.
    proof fn lemma_under_child(&self, q: int, n: int, e: int)
        requires
            self.wf(),
            0 <= q < self.fulls@.len(),
            0 <= n < self.nodes@.len(),
            0 <= e < self.degree(n),
            self.under(q, self.child(n, e)),
        ensures
            self.under(q, n),
            self.path(n).len() < self.forms()[q].shapes.len(),
            self.forms()[q].shapes[self.path(n).len() as int] == self.step(n, e),
    {
        let c = self.child(n, e);
        let l = self.forms()[q].shapes;
        let j = self.path(n).len() as int;
        assert(self.path(c) == self.path(n).push(self.step(n, e)));
        assert(l.take(j + 1)[j] == l[j]);
        assert(l.take(j) == l.take(j + 1).take(j));
        assert(self.path(c).take(j) == self.path(n));
    }

    /// A template that matches a path longer than the way to `n` does not
    /// end at `n`.
    proof fn lemma_not_shorter(&self, q: int, n: int, segs: Seq<Seq<char>>)
        requires
            self.wf(),
            0 <= q < self.fulls@.len(),
            0 <= n < self.nodes@.len(),
            self.under(q, n),
            self.prefix_ok(n, segs),
            self.path(n).len() < segs.len(),
            self.forms()[q].matches(segs),
        ensures
            self.path(n).len() < self.forms()[q].shapes.len(),
    {
        let l = self.forms()[q].shapes;
        let j = self.path(n).len() as int;
        if l.len() == j {
            assert(l.take(j) == l);
            assert(self.path(n)[j - 1] is Pattern);
        }
    }

    /// The first child below which a template matches holds the match of
    /// the node.
    proof fn lemma_edge_wins(&self, n: int, segs: Seq<Seq<char>>, e: int, w: int)
        requires
            self.wf(),
            0 <= n < self.nodes@.len(),
            self.prefix_ok(n, segs),
            self.path(n).len() < segs.len(),
            0 <= e < self.degree(n),
            self.earlier_fail(n, segs, e),
            self.best_under(self.child(n, e), segs, w),
        ensures
            self.best_under(n, segs, w),
    {
        let j = self.path(n).len() as int;
        let lw = self.forms()[w].shapes;
        self.lemma_under_child(w, n, e);
        assert forall|q: int|
            0 <= q < self.fulls@.len() && q != w && self.under(q, n) && (
            #[trigger] self.forms()[q]).matches(segs) implies precedes(
            lw,
            self.forms()[q].shapes,
        ) by {
            let lq = self.forms()[q].shapes;
            self.lemma_not_shorter(q, n, segs);
            let x = self.lemma_descend(q, n);
            if x < e {
                assert(self.none_under(self.child(n, x), segs));
            } else if x > e {
                assert(shape_lt(self.step(n, e), self.step(n, x)));
                lemma_precedes_at(lw, lq, j, 0);
            }
        }
    }

    /// Where nothing matches below any child, nothing matches below the
    /// node, if the path goes on.
    proof fn lemma_all_fail(&self, n: int, segs: Seq<Seq<char>>)
        requires
            self.wf(),
            0 <= n < self.nodes@.len(),
            self.prefix_ok(n, segs),
            self.path(n).len() < segs.len(),
            self.earlier_fail(n, segs, self.degree(n)),
        ensures
            self.none_under(n, segs),
    {
        assert forall|q: int| 0 <= q < self.fulls@.len() && self.under(q, n) implies !(
        #[trigger] self.forms()[q]).matches(segs) by {
            if self.forms()[q].matches(segs) {
                self.lemma_not_shorter(q, n, segs);
                let x = self.lemma_descend(q, n);
                assert(self.none_under(self.child(n, x), segs));
            }
        }
    }

    /// Nothing matches below an edge whose pattern the segment does not
    /// match.
    proof fn lemma_pattern_fails(&self, n: int, segs: Seq<Seq<char>>, e: int)
        requires
            self.wf(),
            0 <= n < self.nodes@.len(),
            self.path(n).len() < segs.len(),
            0 <= e < self.degree(n),
            self.step(n, e) matches Shape::Pattern(p) && pattern_match(
                p,
                segs[self.path(n).len() as int],
            ) is None,
        ensures
            self.none_under(self.child(n, e), segs),
    {
        let j = self.path(n).len() as int;
        assert forall|q: int|
            0 <= q < self.fulls@.len() && self.under(q, self.child(n, e)) implies !(
        #[trigger] self.forms()[q]).matches(segs) by {
            self.lemma_under_child(q, n, e);
            let l = self.forms()[q].shapes;
            assert(l[j] == self.step(n, e));
        }
    }

    /// A template below the child of an edge that is no pattern ends at the
    /// child.
    proof fn lemma_leaf(&self, q: int, n: int, e: int)
        requires
            self.wf(),
            0 <= q < self.fulls@.len(),
            0 <= n < self.nodes@.len(),
            0 <= e < self.degree(n),
            !(self.step(n, e) is Pattern),
            self.under(q, self.child(n, e)),
        ensures
            self.forms()[q].shapes == self.path(self.child(n, e)),
            self.route(self.child(n, e)) == Some(q),
            self.forms()[q].shapes.len() == self.path(n).len() + 1,
    {
        let c = self.child(n, e);
        let l = self.forms()[q].shapes;
        let j = self.path(n).len() as int;
        self.lemma_under_child(q, n, e);
        assert(self.forms()[q].wf());
        assert(l[j] == self.step(n, e));
        assert(l.len() == j + 1);
        assert(l.take(j + 1) == l);
        self.lemma_home(q, c);
    }

    /// The way to a child through a pattern that the segment matches is
    /// matched by the path.
    proof fn lemma_prefix_child(&self, n: int, segs: Seq<Seq<char>>, e: int)
        requires
            self.wf(),
            0 <= n < self.nodes@.len(),
            self.prefix_ok(n, segs),
            self.path(n).len() < segs.len(),
            0 <= e < self.degree(n),
            self.step(n, e) matches Shape::Pattern(p) && pattern_match(
                p,
                segs[self.path(n).len() as int],
            ) is Some,
        ensures
            self.prefix_ok(self.child(n, e), segs),
            self.path(self.child(n, e)).len() == self.path(n).len() + 1,
    {
        let c = self.child(n, e);
        assert(self.path(c) == self.path(n).push(self.step(n, e)));
        assert forall|x: int| 0 <= x < self.path(c).len() implies x < segs.len() && match (
        #[trigger] self.path(c)[x]) {
            Shape::Pattern(p) => pattern_match(p, segs[x]) is Some,
            _ => false,
        } by {
            if x < self.path(n).len() {
                assert(self.path(c)[x] == self.path(n)[x]);
            }
        }
    }

    /// What the template at the child of an optional or wildcard edge does
    /// with the rest of the path.
    proof fn lemma_leaf_edge(&self, n: int, segs: Seq<Seq<char>>, e: int)
        requires
            self.wf(),
            0 <= n < self.nodes@.len(),
            self.prefix_ok(n, segs),
            self.path(n).len() <= segs.len(),
            0 <= e < self.degree(n),
            !(self.step(n, e) is Pattern),
        ensures
            self.route(self.child(n, e)) is None ==> self.none_under(self.child(n, e), segs),
            self.route(self.child(n, e)) matches Some(w) ==> {
                &&& 0 <= w < self.fulls@.len()
                &&& self.forms()[w].shapes == self.path(self.child(n, e))
                &&& self.forms()[w].shapes.len() == self.path(n).len() + 1
                &&& self.forms()[w].shapes.last() == self.step(n, e)
                &&& (self.forms()[w].matches(segs) <==> self.forms()[w].last_matches(segs))
                &&& (self.forms()[w].matches(segs) ==> self.best_under(self.child(n, e), segs, w))
                &&& (!self.forms()[w].matches(segs) ==> self.none_under(self.child(n, e), segs))
            },
    {
        let c = self.child(n, e);
        assert(self.path(c) == self.path(n).push(self.step(n, e)));
        assert forall|q: int| 0 <= q < self.fulls@.len() && self.under(q, c) implies self.route(c)
            == Some(q) by {
            self.lemma_leaf(q, n, e);
        }
        if let Some(w) = self.route(c) {
            let l = self.forms()[w].shapes;
            assert(l == self.path(c));
            assert(l.take(l.len() as int) == l);
            assert forall|k: int| 0 <= k < l.len() - 1 implies k < segs.len() && match (
            #[trigger] l[k]) {
                Shape::Pattern(p) => pattern_match(p, segs[k]) is Some,
                _ => false,
            } by {
                assert(l[k] == self.path(n)[k]);
            }
        }
    }

    /// The segments of a path from `from` on, joined by `/`.
    fn join_from(segs: &Vec<Vec<char>>, from: usize) -> (r: Vec<char>)
        requires
            from <= segs.len(),
        ensures
            r@ == join(texts_of(segs@).subrange(from as int, segs.len() as int)),
    {
        let mut out: Vec<char> = Vec::new();
        let mut k: usize = from;
        let ghost all = texts_of(segs@);
        assert(all.subrange(from as int, from as int) == Seq::<Seq<char>>::empty());
        while k < segs.len()
            invariant
                from <= k <= segs.len(),
                all == texts_of(segs@),
                out@ == join(all.subrange(from as int, k as int)),
            decreases segs.len() - k,
        {
            let ghost before = all.subrange(from as int, k as int);
            let ghost after = all.subrange(from as int, k + 1);
            assert(after.drop_last() == before);
            assert(after.last() == segs@[k as int]@);
            if k > from {
                out.push('/');
            }
            let seg = &segs[k];
            let mut i: usize = 0;
            let ghost base = out@;
            while i < seg.len()
                invariant
                    i <= seg.len(),
                    out@ == base + seg@.take(i as int),
                decreases seg.len() - i,
            {
                out.push(seg[i]);
                assert(seg@.take(i + 1) == seg@.take(i as int).push(seg@[i as int]));
                i += 1;
            }
            assert(seg@.take(seg.len() as int) == seg@);
            assert(out@ == join(after)) by {
                if k > from {
                    assert(base == join(before) + seq!['/']);
                } else {
                    assert(before.len() == 0);
                    assert(base == Seq::<char>::empty());
                    assert(base + seg@ == seg@);
                }
            }
            k += 1;
        }
        out
    }

    /// The search at a node that the path ends at: the template that ends
    /// here, or else one that goes on with an optional parameter.
    fn find_end(&self, n: usize, segs: &Vec<Vec<char>>) -> (r: Option<(usize, Vec<Vec<char>>)>)
        requires
            self.wf(),
            n < self.nodes@.len(),
            self.path(n as int).len() == segs.len(),
            self.prefix_ok(n as int, texts_of(segs@)),
        ensures
            self.found(n as int, texts_of(segs@), r),
    {
        let ghost all = texts_of(segs@);
        let ghost j = segs.len() as int;
        if let Some(w) = self.nodes[n].route {
            let vals: Vec<Vec<char>> = Vec::new();
            proof {
                let l = self.forms()[w as int].shapes;
                assert(self.route(n as int) == Some(w as int));
                assert(l == self.path(n as int));
                assert(l.take(j) == l);
                assert(self.forms()[w as int].wf());
                assert(self.path(n as int)[j - 1] is Pattern);
                assert forall|q: int|
                    0 <= q < self.fulls@.len() && q != w && self.under(q, n as int) && (
                    #[trigger] self.forms()[q]).matches(all) implies precedes(
                    l,
                    self.forms()[q].shapes,
                ) by {
                    let lq = self.forms()[q].shapes;
                    if lq.len() == j {
                        assert(lq.take(j) == lq);
                        self.lemma_home(q, n as int);
                    } else {
                        lemma_precedes_prefix(l, lq, 0);
                    }
                }
                assert(texts_of(vals@) == Seq::<Seq<char>>::empty());
            }
            return Some((w, vals));
        }
        let mut e: usize = 0;
        while e < self.nodes[n].edges.len()
            invariant
                self.wf(),
                n < self.nodes@.len(),
                all == texts_of(segs@),
                self.path(n as int).len() == segs.len(),
                self.prefix_ok(n as int, all),
                self.route(n as int) is None,
                e <= self.degree(n as int),
                forall|x: int| 0 <= x < e ==> !(#[trigger] self.step(n as int, x) is Optional),
            decreases self.degree(n as int) - e,
        {
            if let Step::Optional = self.nodes[n].edges[e].step {
                let c: usize = self.nodes[n].edges[e].child;
                proof {
                    assert(self.child(n as int, e as int) == c);
                    self.lemma_leaf_edge(n as int, all, e as int);
                    self.lemma_end(n as int, all, e as int);
                }
                match self.nodes[c].route {
                    Some(w) => {
                        let vals: Vec<Vec<char>> = Vec::new();
                        proof {
                            assert(self.route(c as int) == Some(w as int));
                            assert(texts_of(vals@) == Seq::<Seq<char>>::empty());
                        }
                        return Some((w, vals));
                    },
                    None => {
                        return None;
                    },
                }
            }
            e += 1;
        }
        proof {
            self.lemma_end(n as int, all, e as int);
        }
        None
    }

    /// At a node that the path ends at and that no template ends at, only a
    /// template that goes on with an optional parameter can match.
    proof fn lemma_end(&self, n: int, segs: Seq<Seq<char>>, e: int)
        requires
            self.wf(),
            0 <= n < self.nodes@.len(),
            self.path(n).len() == segs.len(),
            self.prefix_ok(n, segs),
            self.route(n) is None,
            0 <= e <= self.degree(n),
            forall|x: int| 0 <= x < e ==> !(#[trigger] self.step(n, x) is Optional),
            e < self.degree(n) ==> self.step(n, e) is Optional,
        ensures
            e == self.degree(n) ==> self.none_under(n, segs),
            e < self.degree(n) && self.route(self.child(n, e)) is None ==> self.none_under(
                n,
                segs,
            ),
            e < self.degree(n) ==> (self.route(self.child(n, e)) matches Some(w)
                ==> self.best_under(n, segs, w) && self.forms()[w].values_from(
                segs,
                self.path(n).len() as int,
            ) == Seq::<Seq<char>>::empty()),
    {
        let j = self.path(n).len() as int;
        // every template that matches goes through the optional edge
        assert forall|q: int|
            0 <= q < self.fulls@.len() && self.under(q, n) && (#[trigger] self.forms()[q]).matches(
                segs,
            ) implies e < self.degree(n) && self.route(self.child(n, e)) == Some(q) by {
            let l = self.forms()[q].shapes;
            assert(self.forms()[q].wf());
            if l.len() == j {
                assert(l.take(j) == l);
                self.lemma_home(q, n);
            } else {
                let x = self.lemma_descend(q, n);
                assert(l.len() == j + 1) by {
                    if l.len() > j + 1 {
                        assert(l[j] is Pattern);
                    }
                }
                assert(self.step(n, x) is Optional);
                if x < e {
                    assert(!(self.step(n, x) is Optional));
                } else if x > e {
                    lemma_shape_order(self.step(n, e), self.step(n, x));
                    assert(shape_lt(self.step(n, e), self.step(n, x)));
                }
                self.lemma_leaf(q, n, x);
            }
        }
        if e < self.degree(n) {
            self.lemma_leaf_edge(n, segs, e);
            if let Some(w) = self.route(self.child(n, e)) {
                self.lemma_under_child(w, n, e);
                assert(self.forms()[w].last_matches(segs));
                assert(self.forms()[w].values_from(segs, j + 1) == Seq::<Seq<char>>::empty());
            }
        }
    }

    /// The search below node `n`, which the path has led to with its first
    /// segments.
    fn find_at(&self, n: usize, segs: &Vec<Vec<char>>, j: usize) -> (r: Option<
        (usize, Vec<Vec<char>>),
    >)
        requires
            self.wf(),
            n < self.nodes@.len(),
            j == self.path(n as int).len(),
            j <= segs.len(),
            self.prefix_ok(n as int, texts_of(segs@)),
        ensures
            self.found(n as int, texts_of(segs@), r),
        decreases self.nodes@.len() - n,
    {
        let ghost all = texts_of(segs@);
        if j == segs.len() {
            return self.find_end(n, segs);
        }
        let seg: &Vec<char> = &segs[j];
        let mut e: usize = 0;
        while e < self.nodes[n].edges.len()
            invariant
                self.wf(),
                n < self.nodes@.len(),
                j == self.path(n as int).len(),
                j < segs.len(),
                all == texts_of(segs@),
                seg@ == all[j as int],
                self.prefix_ok(n as int, all),
                e <= self.degree(n as int),
                self.earlier_fail(n as int, all, e as int),
            decreases self.degree(n as int) - e,
        {
            let c: usize = self.nodes[n].edges[e].child;
            proof {
                assert(self.child(n as int, e as int) == c);
            }
            match &self.nodes[n].edges[e].step {
                Step::Pattern(p) => {
                    match match_pattern(p, seg) {
                        None => {
                            proof {
                                self.lemma_pattern_fails(n as int, all, e as int);
                            }
                        },
                        Some(vals) => {
                            proof {
                                self.lemma_prefix_child(n as int, all, e as int);
                            }
                            match self.find_at(c, segs, j + 1) {
                                None => {},
                                Some((w, rest)) => {
                                    let mut vals = vals;
                                    let mut rest = rest;
                                    let ghost head = texts_of(vals@);
                                    let ghost tail = texts_of(rest@);
                                    vals.append(&mut rest);
                                    proof {
                                        assert(texts_of(vals@) == head + tail);
                                        self.lemma_edge_wins(n as int, all, e as int, w as int);
                                        self.lemma_under_child(w as int, n as int, e as int);
                                    }
                                    return Some((w, vals));
                                },
                            }
                        },
                    }
                },
                Step::Optional => {
                    proof {
                        self.lemma_leaf_edge(n as int, all, e as int);
                    }
                    if j + 1 == segs.len() {
                        if let Some(w) = self.nodes[c].route {
                            let mut vals: Vec<Vec<char>> = Vec::new();
                            vals.push(copy_range(seg, 0, seg.len()));
                            proof {
                                assert(self.route(c as int) == Some(w as int));
                                assert(seg@.subrange(0, seg@.len() as int) == seg@);
                                assert(texts_of(vals@) == seq![seg@]);
                                self.lemma_edge_wins(n as int, all, e as int, w as int);
                                assert(self.forms()[w as int].values_from(all, j as int) == seq![
                                    seg@,
                                ]);
                            }
                            return Some((w, vals));
                        }
                    }
                },
                Step::Wildcard => {
                    // A wildcard ends its template, so its child has no
                    // edges: with fewer segments than remain, a rest would
                    // be left that nothing can take. Taking all of them is
                    // the one attempt that can reach a template.
                    proof {
                        self.lemma_leaf_edge(n as int, all, e as int);
                    }
                    if let Some(w) = self.nodes[c].route {
                        proof {
                            assert(self.route(c as int) == Some(w as int));
                        }
                        let fits: bool = match self.fulls[w].count {
                            None => true,
                            Some(k) => k >= 0 && segs.len() - j == k as usize,
                        };
                        if fits {
                            let mut vals: Vec<Vec<char>> = Vec::new();
                            vals.push(Self::join_from(segs, j));
                            proof {
                                assert(texts_of(vals@) == seq![
                                    join(all.subrange(j as int, all.len() as int)),
                                ]);
                                self.lemma_edge_wins(n as int, all, e as int, w as int);
                            }
                            return Some((w, vals));
                        }
                    }
                },
            }
            e += 1;
        }
        proof {
            self.lemma_all_fail(n as int, all);
        }
        None
    }

    /// The match for a path, given as its segments: the index of the
    /// template that comes first among those that match, and the values of
    /// its parameters in the order of the template; `None` where no
    /// template matches.
    pub fn find(&self, segs: &Vec<Vec<char>>) -> (r: Option<(usize, Vec<Vec<char>>)>)
        requires
            self.wf(),
        ensures
            match r {
                None => none_matches(self.forms(), texts_of(segs@)),
                Some((w, vals)) => is_best(self.forms(), texts_of(segs@), w as int) && texts_of(
                    vals@,
                ) == self.forms()[w as int].values(texts_of(segs@)),
            },
    {
        proof {
            assert forall|q: int| 0 <= q < self.fulls@.len() implies self.under(q, 0) by {
                assert(self.forms()[q].shapes.take(0) == Seq::<Shape>::empty());
            }
        }
        self.find_at(0, segs, 0)
    }

    /// An empty trie: the root alone.
    pub fn new() -> (r: Segment)
        ensures
            r.wf(),
            r.templates() == Seq::<AnalysisView>::empty(),
    {
        let mut nodes: Vec<Node> = Vec::new();
        nodes.push(
            Node { route: None, edges: Vec::new(), path: Ghost(Seq::empty()), parent: Ghost(0) },
        );
        let r = Segment { nodes, fulls: Vec::new(), homes: Ghost(Seq::empty()) };
        assert(r.templates() == Seq::<AnalysisView>::empty());
        r
    }

    /// The number of templates in the trie.
    pub fn len(&self) -> (r: usize)
        ensures
            r == self.templates().len(),
    {
        self.fulls.len()
    }

    /// The template with index `i`.
    pub fn get(&self, i: usize) -> (r: &Analysis)
        requires
            i < self.templates().len(),
        ensures
            r@ == self.templates()[i as int],
    {
        &self.fulls[i]
    }

    /// Where among the edges of node `n` the shape `step` stands: whether
    /// an edge has it, and the index of that edge or the one at which an
    /// edge with this shape would have to stand.
    fn edge_for(&self, n: usize, step: &Step) -> (r: (bool, usize))
        requires
            self.wf(),
            n < self.nodes@.len(),
        ensures
            r.1 <= self.degree(n as int),
            r.0 ==> r.1 < self.degree(n as int) && self.step(n as int, r.1 as int) == step@,
            !r.0 ==> forall|x: int|
                0 <= x < self.degree(n as int) ==> if x < r.1 {
                    shape_lt(#[trigger] self.step(n as int, x), step@)
                } else {
                    shape_lt(step@, self.step(n as int, x))
                },
    {
        let mut x: usize = 0;
        while x < self.nodes[n].edges.len()
            invariant
                self.wf(),
                n < self.nodes@.len(),
                x <= self.degree(n as int),
                forall|y: int| 0 <= y < x ==> shape_lt(#[trigger] self.step(n as int, y), step@),
            decreases self.degree(n as int) - x,
        {
            match step_place(&self.nodes[n].edges[x].step, step) {
                Place::Before => {},
                Place::Same => {
                    return (true, x);
                },
                Place::After => {
                    proof {
                        assert forall|y: int| x <= y < self.degree(n as int) implies shape_lt(
                            step@,
                            #[trigger] self.step(n as int, y),
                        ) by {
                            if y > x {
                                assert(shape_lt(self.step(n as int, x as int), self.step(n as int, y)));
                                lemma_shape_trans(
                                    step@,
                                    self.step(n as int, x as int),
                                    self.step(n as int, y),
                                );
                            }
                        }
                    }
                    return (false, x);
                },
            }
            x += 1;
        }
        (false, x)
    }

    /// The node whose path these shapes are, if there is one.
    fn locate(&self, steps: &Vec<Step>) -> (r: Option<usize>)
        requires
            self.wf(),
        ensures
            match r {
                Some(n) => n < self.nodes@.len() && self.path(n as int) == shapes_of(steps@),
                None => forall|t: int|
                    0 <= t < self.nodes@.len() ==> #[trigger] self.path(t) != shapes_of(steps@),
            },
    {
        let ghost all = shapes_of(steps@);
        let mut n: usize = 0;
        let mut j: usize = 0;
        assert(all.take(0) == Seq::<Shape>::empty());
        while j < steps.len()
            invariant
                self.wf(),
                all == shapes_of(steps@),
                n < self.nodes@.len(),
                j <= steps.len(),
                self.path(n as int) == all.take(j as int),
            decreases steps.len() - j,
        {
            let (found, e) = self.edge_for(n, &steps[j]);
            if !found {
                proof {
                    assert forall|t: int| 0 <= t < self.nodes@.len() implies #[trigger] self.path(t)
                        != all by {
                        if self.path(t) == all {
                            let x = self.lemma_edge_to(n as int, t);
                            lemma_shape_order(self.step(n as int, x), all[j as int]);
                        }
                    }
                }
                return None;
            }
            proof {
                assert(all.take(j + 1) == all.take(j as int).push(all[j as int]));
                assert(self.child(n as int, e as int) < self.nodes@.len());
            }
            n = self.nodes[n].edges[e].child;
            j += 1;
        }
        assert(all.take(j as int) == all);
        Some(n)
    }

    /// A copy of a step.
    fn copy_step(step: &Step) -> (r: Step)
        ensures
            r@ == step@,
    {
        match step {
            Step::Pattern(p) => {
                assert(p@.subrange(0, p@.len() as int) == p@);
                Step::Pattern(copy_range(p, 0, p.len()))
            },
            Step::Optional => Step::Optional,
            Step::Wildcard => Step::Wildcard,
        }
    }

    /// What a trie is after node `n` has got a new child for a shape that
    /// none of its edges had.
    spec fn grown(&self, old: &Segment, n: int, pos: int, shape: Shape) -> bool {
        let m = old.nodes@.len() as int;
        &&& self.nodes@.len() == m + 1
        &&& self.fulls@ == old.fulls@
        &&& self.homes@ == old.homes@
        &&& forall|k: int| 0 <= k < m && k != n ==> #[trigger] self.nodes@[k] == old.nodes@[k]
        &&& self.nodes@[n].route == old.nodes@[n].route
        &&& self.nodes@[n].path@ == old.nodes@[n].path@
        &&& self.nodes@[n].parent@ == old.nodes@[n].parent@
        &&& self.nodes@[n].edges@.len() == old.nodes@[n].edges@.len() + 1
        &&& forall|x: int|
            0 <= x < self.nodes@[n].edges@.len() ==> if x < pos {
                #[trigger] self.nodes@[n].edges@[x] == old.nodes@[n].edges@[x]
            } else if x == pos {
                self.nodes@[n].edges@[x].step@ == shape && self.nodes@[n].edges@[x].child == m
            } else {
                self.nodes@[n].edges@[x] == old.nodes@[n].edges@[x - 1]
            }
        &&& self.nodes@[m].route is None
        &&& self.nodes@[m].edges@.len() == 0
        &&& self.nodes@[m].path@ == old.nodes@[n].path@.push(shape)
        &&& self.nodes@[m].parent@ == n
    }

    /// A new child for a new shape keeps the invariant.
    proof fn lemma_grown(&self, old: &Segment, n: int, pos: int, shape: Shape)
        requires
            old.wf(),
            0 <= n < old.nodes@.len(),
            0 <= pos <= old.degree(n),
            self.grown(old, n, pos, shape),
            old.path(n).len() >= 1 ==> old.path(n).last() is Pattern,
            forall|x: int|
                0 <= x < old.degree(n) ==> if x < pos {
                    shape_lt(#[trigger] old.step(n, x), shape)
                } else {
                    shape_lt(shape, old.step(n, x))
                },
        ensures
            self.wf(),
    {
        let m = old.nodes@.len() as int;
        assert(self.forms() == old.forms());
        // the position in the old trie of an edge of the new one
        assert forall|k: int, e: int| 0 <= k < self.nodes@.len() && 0 <= e < self.degree(k) implies {
            let c = #[trigger] self.child(k, e);
            &&& k < c < self.nodes@.len()
            &&& self.path(c) == self.path(k).push(self.step(k, e))
            &&& self.nodes@[c].parent@ == k
            &&& (self.step(k, e) is Pattern || self.degree(c) == 0)
        } by {
            if k == n {
                if e < pos {
                    assert(self.nodes@[n].edges@[e] == old.nodes@[n].edges@[e]);
                    let c = old.child(n, e);
                    assert(self.child(k, e) == c);
                    assert(n < c < m);
                } else if e > pos {
                    assert(self.nodes@[n].edges@[e] == old.nodes@[n].edges@[e - 1]);
                    let c = old.child(n, e - 1);
                    assert(self.child(k, e) == c);
                    assert(n < c < m);
                }
            } else {
                assert(self.nodes@[k] == old.nodes@[k]);
                let c = old.child(k, e);
                assert(self.child(k, e) == c);
                assert(k < c < m);
                if c == n {
                    assert(old.path(n) == old.path(k).push(old.step(k, e)));
                    assert(old.path(n).last() == old.step(k, e));
                }
            }
        }
        assert(self.edges_ok());
        assert forall|k: int, x: int, y: int|
            0 <= k < self.nodes@.len() && 0 <= x < y < self.degree(k) implies shape_lt(
            #[trigger] self.step(k, x),
            #[trigger] self.step(k, y),
        ) by {
            if k == n {
                let ox = if x < pos {
                    x
                } else {
                    x - 1
                };
                let oy = if y < pos {
                    y
                } else {
                    y - 1
                };
                if x != pos {
                    assert(self.step(k, x) == old.step(n, ox));
                }
                if y != pos {
                    assert(self.step(k, y) == old.step(n, oy));
                }
                if x != pos && y != pos {
                    assert(shape_lt(old.step(n, ox), old.step(n, oy)));
                }
            } else {
                assert(self.nodes@[k] == old.nodes@[k]);
                assert(shape_lt(old.step(k, x), old.step(k, y)));
            }
        }
        assert(self.sorted());
        assert forall|a: int, b: int| 0 <= a < b < self.nodes@.len() implies #[trigger] self.path(a)
            != #[trigger] self.path(b) by {
            assert(self.path(a) == old.path(a));
            if b < m {
                assert(self.path(b) == old.path(b));
                assert(old.path(a) != old.path(b));
            } else if old.path(a) == old.path(n).push(shape) {
                assert(old.path(a).take(old.path(n).len() as int) == old.path(n));
                let x = old.lemma_edge_to(n, a);
                lemma_shape_order(old.step(n, x), shape);
            }
        }
        assert(self.injective());
        assert forall|c: int| 1 <= c < self.nodes@.len() implies 0 <= #[trigger] self.parent(c) < c
            && self.has_child(self.parent(c), c) by {
            if c == m {
                assert(self.child(n, pos) == m);
            } else {
                let p = old.parent(c);
                assert(self.parent(c) == p);
                assert(old.has_child(p, c));
                let e = choose|e: int| 0 <= e < old.degree(p) && #[trigger] old.child(p, e) == c;
                if p == n {
                    let ne = if e < pos {
                        e
                    } else {
                        e + 1
                    };
                    assert(self.nodes@[n].edges@[ne] == old.nodes@[n].edges@[e]);
                    assert(self.child(p, ne) == c);
                } else {
                    assert(self.nodes@[p] == old.nodes@[p]);
                    assert(self.child(p, e) == c);
                }
            }
        }
        assert(self.parents_ok());
        assert forall|k: int| 0 <= k < self.nodes@.len() implies (#[trigger] self.route(k) matches Some(
            r,
        ) ==> r < self.fulls@.len() && self.forms()[r].shapes == self.path(k)) by {
            if k < m {
                assert(self.route(k) == old.route(k));
                assert(self.path(k) == old.path(k));
            }
        }
        assert forall|r: int| 0 <= r < self.fulls@.len() implies {
            let h = #[trigger] self.homes@[r];
            &&& 0 <= h < self.nodes@.len()
            &&& self.route(h) == Some(r)
        } by {
            let h = old.homes@[r];
            assert(old.route(h) == Some(r));
            assert(self.route(h) == old.route(h));
        }
        assert(self.routes_ok());
    }

    /// The node for these shapes, with new nodes for the shapes that the
    /// trie has no edge for yet.
    fn grow(&mut self, steps: &Vec<Step>) -> (n: usize)
        requires
            old(self).wf(),
            steps.len() >= 1,
            forall|k: int| 0 <= k < steps.len() - 1 ==> #[trigger] shapes_of(steps@)[k] is Pattern,
        ensures
            final(self).wf(),
            final(self).fulls == old(self).fulls,
            final(self).homes@ == old(self).homes@,
            n < final(self).nodes@.len(),
            final(self).path(n as int) == shapes_of(steps@),
            old(self).nodes@.len() <= final(self).nodes@.len(),
            forall|k: int|
                0 <= k < old(self).nodes@.len() ==> #[trigger] final(self).route(k) == old(self).route(k) && final(self).path(k) == old(self).path(k),
            forall|k: int|
                old(self).nodes@.len() <= k < final(self).nodes@.len() ==> #[trigger] final(self).route(k) is None,
    {
        let ghost all = shapes_of(steps@);
        let ghost start = *self;
        let mut n: usize = 0;
        let mut j: usize = 0;
        assert(all.take(0) == Seq::<Shape>::empty());
        while j < steps.len()
            invariant
                self.wf(),
                self.fulls == start.fulls,
                self.homes@ == start.homes@,
                all == shapes_of(steps@),
                forall|k: int| 0 <= k < steps.len() - 1 ==> #[trigger] all[k] is Pattern,
                n < self.nodes@.len(),
                j <= steps.len(),
                self.path(n as int) == all.take(j as int),
                start.nodes@.len() <= self.nodes@.len(),
                forall|k: int|
                    0 <= k < start.nodes@.len() ==> #[trigger] self.route(k) == start.route(k)
                        && self.path(k) == start.path(k),
                forall|k: int|
                    start.nodes@.len() <= k < self.nodes@.len() ==> #[trigger] self.route(k) is None,
            decreases steps.len() - j,
        {
            let (found, e) = self.edge_for(n, &steps[j]);
            proof {
                assert(all.take(j + 1) == all.take(j as int).push(all[j as int]));
            }
            if found {
                proof {
                    assert(self.child(n as int, e as int) < self.nodes@.len());
                }
                n = self.nodes[n].edges[e].child;
            } else {
                let ghost before = *self;
                let m: usize = self.nodes.len();
                let step: Step = Self::copy_step(&steps[j]);
                self.nodes.push(
                    Node {
                        route: None,
                        edges: Vec::new(),
                        path: Ghost(before.path(n as int).push(all[j as int])),
                        parent: Ghost(n as int),
                    },
                );
                self.nodes[n].edges.insert(e, Edge { step, child: m });
                proof {
                    if j >= 1 {
                        assert(all.take(j as int).last() == all[j - 1]);
                    }
                    assert(self.grown(&before, n as int, e as int, all[j as int]));
                    self.lemma_grown(&before, n as int, e as int, all[j as int]);
                    assert forall|k: int| 0 <= k < start.nodes@.len() implies #[trigger] self.route(
                        k,
                    ) == start.route(k) && self.path(k) == start.path(k) by {
                        assert(before.route(k) == start.route(k));
                        if k != n {
                            assert(self.nodes@[k] == before.nodes@[k]);
                        }
                    }
                    assert forall|k: int|
                        start.nodes@.len() <= k < self.nodes@.len() implies #[trigger] self.route(
                        k,
                    ) is None by {
                        if k < m {
                            assert(before.route(k) is None);
                            if k != n {
                                assert(self.nodes@[k] == before.nodes@[k]);
                            }
                        }
                    }
                }
                n = m;
            }
            j += 1;
        }
        assert(all.take(j as int) == all);
        n
    }

    /// Adds a template to the trie. Where a template with the same shapes
    /// is there already, the trie stays as it is and `None` comes back;
    /// otherwise the template is added behind the others and its index
    /// comes back.
    pub fn add(&mut self, analysis: Analysis) -> (r: Option<usize>)
        requires
            old(self).wf(),
            analysis@.form().wf(),
        ensures
            final(self).wf(),
            match r {
                Some(index) => {
                    &&& !old(self).holds(analysis@.shapes)
                    &&& index == old(self).templates().len()
                    &&& final(self).templates() == old(self).templates().push(analysis@)
                },
                None => old(self).holds(analysis@.shapes) && *final(self) == *old(self),
            },
    {
        let ghost all = analysis@.shapes;
        let ghost start = *self;
        assert(all == shapes_of(analysis.steps@));
        match self.locate(&analysis.steps) {
            Some(n) => {
                if let Some(w) = self.nodes[n].route {
                    proof {
                        assert(self.route(n as int) == Some(w as int));
                        assert(self.forms()[w as int].shapes == all);
                    }
                    return None;
                }
                proof {
                    assert forall|q: int| 0 <= q < self.forms().len() implies (
                    #[trigger] self.forms()[q]).shapes != all by {
                        if self.forms()[q].shapes == all {
                            self.lemma_home(q, n as int);
                        }
                    }
                }
            },
            None => {
                proof {
                    assert forall|q: int| 0 <= q < self.forms().len() implies (
                    #[trigger] self.forms()[q]).shapes != all by {
                        let h = self.homes@[q];
                        assert(self.route(h) == Some(q));
                    }
                }
            },
        }
        assert(!start.holds(all));
        proof {
            assert(analysis@.form().shapes.len() >= 1);
            assert forall|k: int| 0 <= k < analysis.steps.len() - 1 implies #[trigger] shapes_of(
                analysis.steps@,
            )[k] is Pattern by {
                assert(analysis@.form().shapes[k] is Pattern);
            }
        }
        let n: usize = self.grow(&analysis.steps);
        let index: usize = self.fulls.len();
        proof {
            // no template ends at the node yet
            if let Some(w) = self.route(n as int) {
                assert(self.forms()[w].shapes == all);
                assert(self.forms() == start.forms());
                assert(start.forms()[w].shapes == all);
            }
        }
        let ghost before = *self;
        self.nodes[n].route = Some(index);
        self.fulls.push(analysis);
        self.homes = Ghost(self.homes@.push(n as int));
        proof {
            assert(self.templates() == before.templates().push(analysis@));
            assert(before.templates() == start.templates());
            assert(self.forms() == before.forms().push(analysis@.form()));
            assert forall|k: int, e: int|
                0 <= k < self.nodes@.len() && 0 <= e < self.degree(k) implies {
                let c = #[trigger] self.child(k, e);
                &&& k < c < self.nodes@.len()
                &&& self.path(c) == self.path(k).push(self.step(k, e))
                &&& self.nodes@[c].parent@ == k
                &&& (self.step(k, e) is Pattern || self.degree(c) == 0)
            } by {
                let c = before.child(k, e);
                assert(self.child(k, e) == c);
                assert(k < c < before.nodes@.len());
            }
            assert forall|k: int, x: int, y: int|
                0 <= k < self.nodes@.len() && 0 <= x < y < self.degree(k) implies shape_lt(
                #[trigger] self.step(k, x),
                #[trigger] self.step(k, y),
            ) by {
                assert(shape_lt(before.step(k, x), before.step(k, y)));
            }
            assert forall|a: int, b: int| 0 <= a < b < self.nodes@.len() implies #[trigger] self.path(
                a,
            ) != #[trigger] self.path(b) by {
                assert(before.path(a) != before.path(b));
            }
            assert forall|c: int| 1 <= c < self.nodes@.len() implies 0 <= #[trigger] self.parent(c)
                < c && self.has_child(self.parent(c), c) by {
                let p = before.parent(c);
                assert(before.has_child(p, c));
                let e = choose|e: int| 0 <= e < before.degree(p) && #[trigger] before.child(p, e) == c;
                assert(self.child(p, e) == c);
            }
            assert forall|k: int| 0 <= k < self.nodes@.len() implies (#[trigger] self.route(k) matches Some(
                r,
            ) ==> r < self.fulls@.len() && self.forms()[r].shapes == self.path(k)) by {
                if k != n {
                    assert(self.route(k) == before.route(k));
                    assert(self.path(k) == before.path(k));
                }
            }
            assert forall|r: int| 0 <= r < self.fulls@.len() implies {
                let h = #[trigger] self.homes@[r];
                &&& 0 <= h < self.nodes@.len()
                &&& self.route(h) == Some(r)
            } by {
                if r < index {
                    let h = before.homes@[r];
                    assert(before.route(h) == Some(r));
                    assert(h != n);
                }
            }
            assert forall|r: int| 0 <= r < self.fulls@.len() implies (#[trigger] self.forms()[r]).wf() by {
                if r < index {
                    assert(self.forms()[r] == before.forms()[r]);
                    assert(before.forms()[r].wf());
                }
            }
        }
        Some(index)
    }
}

} // verus!