//! The route table: registration of templates and lookup of request paths.

use vstd::prelude::*;
use crate::analysis::{analysis_of, Analysis};
use crate::canonical::{canonical, lemma_canonical_is_template, validate};
use crate::grammar::{parse, Fault, Reason};
use crate::laws::{lemma_registered_ok, lemma_routes_are_templates, table_ok};
use crate::structure::lemma_fingerprint_decides;
use crate::matching::{distinct_shapes, is_best, none_matches, Form};
use crate::method::Method;
use crate::path::{decode, decoded, segments, split};
use crate::segment::Segment;
use crate::text::{chars_of, string_from_chars, texts_of};
use crate::tokenizer::tokenize;

verus! {

/// What comes with a route and is handed through unread.
#[derive(Debug)]
pub struct RouteConfig {
    /// The virtual host that the route is meant for.
    pub vhost: String,
}

/// A registered route.
#[derive(Debug)]
pub struct Route {
    /// The method that it answers to.
    pub method: Method,
    /// The canonical template.
    pub template: String,
    /// The names of the parameters of the template, in their order.
    pub params: Vec<String>,
    /// The reference to the handler.
    pub handler: u64,
    /// What was registered with it.
    pub config: Option<RouteConfig>,
}

/// A registered route, as plain values.
pub struct RouteView {
    pub method: Method,
    pub template: Seq<char>,
    pub handler: u64,
    pub vhost: Option<Seq<char>>,
}

/// The virtual host of a configuration, if there is one.
pub open spec fn vhost_of(config: Option<RouteConfig>) -> Option<Seq<char>> {
    match config {
        Some(c) => Some(c.vhost@),
        None => None,
    }
}

impl View for Route {
    type V = RouteView;

    open spec fn view(&self) -> RouteView {
        RouteView {
            method: self.method,
            template: self.template@,
            handler: self.handler,
            vhost: vhost_of(self.config),
        }
    }
}

/// Why a registration failed.
#[derive(Debug)]
pub enum RouteError {
    /// The text is no template: the position and the reason of the first
    /// fault.
    InvalidGrammar { position: usize, reason: Reason },
    /// A route with the same method and the same structure is registered
    /// already.
    DuplicateRoute { method: Method, fingerprint: String },
}

/// Why a registration failed, as plain values.
pub enum Refusal {
    InvalidGrammar(Fault),
    DuplicateRoute(Method, Seq<char>),
}

impl View for RouteError {
    type V = Refusal;

    open spec fn view(&self) -> Refusal {
        match self {
            RouteError::InvalidGrammar { position, reason } => Refusal::InvalidGrammar(
                Fault { position: *position as int, reason: *reason },
            ),
            RouteError::DuplicateRoute { method, fingerprint } => Refusal::DuplicateRoute(
                *method,
                fingerprint@,
            ),
        }
    }
}

/// A parameter and the value that a request path gave it.
#[derive(Debug)]
pub struct Binding {
    pub name: String,
    pub value: String,
}

impl View for Binding {
    type V = (Seq<char>, Seq<char>);

    open spec fn view(&self) -> (Seq<char>, Seq<char>) {
        (self.name@, self.value@)
    }
}

/// The outcome of a lookup.
#[derive(Debug)]
pub enum Outcome<'a> {
    /// The route that matches, its index among the routes of its method,
    /// and the values of its parameters.
    Match { route: &'a Route, index: usize, params: Vec<Binding> },
    /// No route of the method matches the path.
    NoMatch,
    /// The path is not percent-encoded as it should be.
    MalformedPath,
}

/// The routes of one method among those of a table, in the order in which
/// they were registered.
pub open spec fn routes_of(log: Seq<RouteView>, method: Method) -> Seq<RouteView>
    decreases log.len(),
{
    if log.len() == 0 {
        Seq::empty()
    } else if log.last().method == method {
        routes_of(log.drop_last(), method).push(log.last())
    } else {
        routes_of(log.drop_last(), method)
    }
}

/// The form of the template of a route.
pub open spec fn form_of(route: RouteView) -> Form {
    analysis_of(route.template).form()
}

/// The forms of the templates of these routes.
pub open spec fn forms_of(routes: Seq<RouteView>) -> Seq<Form> {
    routes.map_values(|r: RouteView| form_of(r))
}

/// Whether a route of the method has a template with the same fingerprint
/// as the canonical template `template`.
pub open spec fn collides(log: Seq<RouteView>, method: Method, template: Seq<char>) -> bool {
    exists|k: int|
        0 <= k < routes_of(log, method).len() && analysis_of(
            (#[trigger] routes_of(log, method)[k]).template,
        ).fingerprint == analysis_of(template).fingerprint
}

/// What a registration does to a table, and the error that it ends with if
/// it fails: a text that is no template and a template whose fingerprint a
/// route of the method has already leave the table as it is; any other
/// template is added in its canonical form behind the routes that are there.
pub open spec fn registered(
    log: Seq<RouteView>,
    method: Method,
    raw: Seq<char>,
    handler: u64,
    vhost: Option<Seq<char>>,
) -> (Seq<RouteView>, Option<Refusal>) {
    match parse(raw) {
        Err(fault) => (log, Some(Refusal::InvalidGrammar(fault))),
        Ok(_) => {
            let template = canonical(raw);
            if collides(log, method, template) {
                (log, Some(Refusal::DuplicateRoute(method, analysis_of(template).fingerprint)))
            } else {
                (log.push(RouteView { method, template, handler, vhost }), None)
            }
        },
    }
}

/// The parameters of a template with the values that a path gave them: the
/// names and the values in pairs, as far as there are values.
pub open spec fn bindings(names: Seq<Seq<char>>, values: Seq<Seq<char>>) -> Seq<
    (Seq<char>, Seq<char>),
> {
    Seq::new(
        if names.len() <= values.len() {
            names.len()
        } else {
            values.len()
        },
        |k: int| (names[k], values[k]),
    )
}

/// What a lookup has to say of a path for a method.
pub enum Verdict {
    /// The route with this index among the routes of the method is the match.
    Match(int),
    NoMatch,
    MalformedPath,
}

/// Whether `verdict` is what the lookup of `path` for `method` comes to:
/// a path that cannot be decoded is malformed; otherwise the match is the
/// route that comes first among those of the method that match the
/// segments of the decoded path.
pub open spec fn resolves(
    log: Seq<RouteView>,
    method: Method,
    path: Seq<char>,
    verdict: Verdict,
) -> bool {
    let forms = forms_of(routes_of(log, method));
    match decoded(path) {
        None => verdict is MalformedPath,
        Some(plain) => match segments(plain) {
            None => verdict is NoMatch,
            Some(segs) => match verdict {
                Verdict::Match(w) => is_best(forms, segs, w),
                Verdict::NoMatch => none_matches(forms, segs),
                Verdict::MalformedPath => false,
            },
        },
    }
}

/// The routes of one method with their trie.
struct Entry {
    method: Method,
    routes: Vec<Route>,
    segment: Segment,
}

/// The route table.
pub struct Router {
    table: Vec<Entry>,
    log: Ghost<Seq<RouteView>>,
}

impl View for Router {
    type V = Seq<RouteView>;

    /// The routes of the table, in the order in which they were registered.
    closed spec fn view(&self) -> Seq<RouteView> {
        self.log@
    }
}

/// Adding a route to a table adds it to the routes of its method, and
/// leaves those of the other methods as they are.
pub proof fn lemma_routes_push(log: Seq<RouteView>, route: RouteView, method: Method)
    ensures
        routes_of(log.push(route), method) == if route.method == method {
            routes_of(log, method).push(route)
        } else {
            routes_of(log, method)
        },
{
    assert(log.push(route).drop_last() == log);
}

impl Entry {
    spec fn views(&self) -> Seq<RouteView> {
        self.routes@.map_values(|r: Route| r@)
    }

    spec fn wf(&self, log: Seq<RouteView>) -> bool {
        &&& self.segment.wf()
        &&& self.routes@.len() == self.segment.templates().len()
        &&& self.views() == routes_of(log, self.method)
        &&& forall|k: int|
            0 <= k < self.routes@.len() ==> {
                &&& #[trigger] self.segment.templates()[k] == analysis_of(self.routes@[k].template@)
                &&& self.routes@[k].params@.map_values(|n: String| n@) == analysis_of(
                    self.routes@[k].template@,
                ).params
            }
    }

    proof fn lemma_forms(&self, log: Seq<RouteView>)
        requires
            self.wf(log),
        ensures
            self.segment.forms() == forms_of(routes_of(log, self.method)),
    {
        let a = self.segment.forms();
        let b = forms_of(routes_of(log, self.method));
        assert(a.len() == b.len());
        assert forall|k: int| 0 <= k < a.len() implies a[k] == b[k] by {
            assert(self.segment.templates()[k] == analysis_of(self.routes@[k].template@));
            assert(self.views()[k] == self.routes@[k]@);
        }
        assert(a =~= b);
    }
}

impl Router {
    /// The invariant of the table.
    pub closed spec fn wf(&self) -> bool {
        &&& table_ok(self.log@)
        &&& forall|i: int, j: int|
            0 <= i < j < self.table@.len() ==> (#[trigger] self.table@[i]).method != (
            #[trigger] self.table@[j]).method
        &&& forall|i: int| 0 <= i < self.table@.len() ==> (#[trigger] self.table@[i]).wf(self.log@)
        &&& forall|m: Method|
            (forall|i: int| 0 <= i < self.table@.len() ==> (#[trigger] self.table@[i]).method != m)
                ==> (#[trigger] routes_of(self.log@, m)).len() == 0
    }

    /// An empty table.
    pub fn new() -> (r: Router)
        ensures
            r.wf(),
            r@ == Seq::<RouteView>::empty(),
    {
        let r = Router { table: Vec::new(), log: Ghost(Seq::empty()) };
        proof {
            assert forall|m: Method| distinct_shapes(#[trigger] forms_of(routes_of(r.log@, m))) by {
                assert(forms_of(routes_of(r.log@, m)).len() == 0);
            }
        }
        r
    }

    /// In every table, each template is a template in canonical form, and
    /// no two routes of one method have the same shapes.
    pub proof fn lemma_table_ok(&self)
        requires
            self.wf(),
        ensures
            table_ok(self@),
    {
    }

    /// The index of the entry of a method, if it has one.
    fn entry_of(&self, method: Method) -> (r: Option<usize>)
        ensures
            match r {
                Some(i) => i < self.table@.len() && self.table@[i as int].method == method,
                None => forall|i: int|
                    0 <= i < self.table@.len() ==> (#[trigger] self.table@[i]).method != method,
            },
    {
        let mut i: usize = 0;
        while i < self.table.len()
            invariant
                i <= self.table@.len(),
                forall|k: int| 0 <= k < i ==> (#[trigger] self.table@[k]).method != method,
            decreases self.table@.len() - i,
        {
            if self.table[i].method == method {
                return Some(i);
            }
            i += 1;
        }
        None
    }

    /// A copy of a list of names.
    fn copy_names(names: &Vec<String>) -> (r: Vec<String>)
        ensures
            r@.map_values(|n: String| n@) == names@.map_values(|n: String| n@),
    {
        let mut out: Vec<String> = Vec::new();
        let mut k: usize = 0;
        while k < names.len()
            invariant
                k <= names.len(),
                out@.len() == k,
                forall|x: int| 0 <= x < k ==> (#[trigger] out@[x])@ == names@[x]@,
            decreases names.len() - k,
        {
            out.push(names[k].clone());
            k += 1;
        }
        assert(out@.map_values(|n: String| n@) =~= names@.map_values(|n: String| n@));
        out
    }

    /// Registers a route: the template is validated and tokenized, and its
    /// segments are added to the trie of the method. A text that is no
    /// template fails with `InvalidGrammar`; a template whose fingerprint a
    /// route of the method has already fails with `DuplicateRoute`. Both
    /// leave the table as it was.
    pub fn register(
        &mut self,
        method: Method,
        template: &str,
        handler: u64,
        config: Option<RouteConfig>,
    ) -> (r: Result<(), RouteError>)
        requires
            old(self).wf(),
        ensures
            final(self).wf(),
            final(self)@ == registered(
                old(self)@,
                method,
                template@,
                handler,
                vhost_of(config),
            ).0,
            (match r {
                Ok(_) => None,
                Err(e) => Some(e@),
            }) == registered(old(self)@, method, template@, handler, vhost_of(config)).1,
    {
        let ghost log = self.log@;
        proof {
            lemma_registered_ok(log, method, template@, handler, vhost_of(config));
        }
        let text: String = match validate(template) {
            Err(e) => {
                return Err(RouteError::InvalidGrammar { position: e.position, reason: e.reason });
            },
            Ok(c) => c,
        };
        proof {
            lemma_canonical_is_template(template@);
        }
        let analysis: Analysis = match tokenize(text.as_str()) {
            Err(e) => {
                return Err(RouteError::InvalidGrammar { position: e.position, reason: e.reason });
            },
            Ok(a) => a,
        };
        let fingerprint: String = analysis.fingerprint.clone();
        let params: Vec<String> = Self::copy_names(&analysis.params);
        let i: usize = match self.entry_of(method) {
            Some(i) => i,
            None => {
                let ghost before = self.table@;
                self.table.push(Entry { method, routes: Vec::new(), segment: Segment::new() });
                proof {
                    let last = self.table@.len() - 1;
                    assert(self.table@[last].views() =~= routes_of(log, method));
                    assert forall|m: Method|
                        (forall|i: int|
                            0 <= i < self.table@.len() ==> (#[trigger] self.table@[i]).method != m)
                        implies (#[trigger] routes_of(self.log@, m)).len() == 0 by {
                        assert forall|i: int| 0 <= i < before.len() implies (
                        #[trigger] before[i]).method != m by {
                            assert(self.table@[i].method != m);
                        }
                    }
                    assert forall|i: int| 0 <= i < self.table@.len() implies (
                    #[trigger] self.table@[i]).wf(self.log@) by {
                        if i < last {
                            assert(self.table@[i] == before[i]);
                        }
                    }
                }
                self.table.len() - 1
            },
        };
        assert(self.wf());
        let ghost mid = self.table@;
        proof {
            mid[i as int].lemma_forms(log);
        }
        let ghost shapes = analysis@.shapes;
        match self.table[i].segment.add(analysis) {
            None => {
                proof {
                    let k = choose|k: int|
                        0 <= k < mid[i as int].segment.forms().len() && (
                        #[trigger] mid[i as int].segment.forms()[k]).shapes == shapes;
                    assert(form_of(routes_of(log, method)[k]).shapes == shapes);
                    assert(analysis_of(routes_of(log, method)[k].template).fingerprint
                        == analysis_of(text@).fingerprint);
                    assert(collides(log, method, text@));
                    assert forall|x: int| 0 <= x < self.table@.len() implies (
                    #[trigger] self.table@[x]).wf(self.log@) by {
                        assert(mid[x].wf(log));
                    }
                    assert forall|m: Method|
                        (forall|x: int|
                            0 <= x < self.table@.len() ==> (#[trigger] self.table@[x]).method != m)
                        implies (#[trigger] routes_of(self.log@, m)).len() == 0 by {
                        assert forall|x: int| 0 <= x < mid.len() implies (#[trigger] mid[x]).method
                            != m by {
                            assert(self.table@[x].method == mid[x].method);
                        }
                    }
                    assert forall|a: int, b: int| 0 <= a < b < self.table@.len() implies (
                    #[trigger] self.table@[a]).method != (#[trigger] self.table@[b]).method by {
                        assert(mid[a].method != mid[b].method);
                    }
                }
                Err(RouteError::DuplicateRoute { method, fingerprint })
            },
            Some(index) => {
                let route = Route { method, template: text, params, handler, config };
                let ghost added = route@;
                self.table[i].routes.push(route);
                self.log = Ghost(log.push(added));
                proof {
                    assert(!collides(log, method, text@)) by {
                        if collides(log, method, text@) {
                            let k = choose|k: int|
                                0 <= k < routes_of(log, method).len() && analysis_of(
                                    (#[trigger] routes_of(log, method)[k]).template,
                                ).fingerprint == analysis_of(text@).fingerprint;
                            lemma_routes_are_templates(log, method);
                            lemma_fingerprint_decides(routes_of(log, method)[k].template, text@);
                            assert(mid[i as int].segment.forms()[k].shapes == shapes);
                        }
                    }
                    assert forall|x: int| 0 <= x < self.table@.len() implies (
                    #[trigger] self.table@[x]).wf(self.log@) by {
                        lemma_routes_push(log, added, self.table@[x].method);
                        assert(mid[x].wf(log));
                        if x == i {
                            let entry = self.table@[x];
                            assert(entry.views() =~= mid[x].views().push(added));
                            assert forall|k: int| 0 <= k < entry.routes@.len() implies {
                                &&& #[trigger] entry.segment.templates()[k] == analysis_of(
                                    entry.routes@[k].template@,
                                )
                                &&& entry.routes@[k].params@.map_values(|n: String| n@)
                                    == analysis_of(entry.routes@[k].template@).params
                            } by {
                                if k < index {
                                    assert(mid[x].segment.templates()[k] == analysis_of(
                                        mid[x].routes@[k].template@,
                                    ));
                                }
                            }
                        } else {
                            assert(self.table@[x] == mid[x]);
                            assert(mid[x].method != mid[i as int].method);
                        }
                    }
                    assert forall|m: Method|
                        (forall|x: int|
                            0 <= x < self.table@.len() ==> (#[trigger] self.table@[x]).method != m)
                        implies (#[trigger] routes_of(self.log@, m)).len() == 0 by {
                        lemma_routes_push(log, added, m);
                        assert(self.table@[i as int].method != m);
                        assert forall|x: int| 0 <= x < mid.len() implies (#[trigger] mid[x]).method
                            != m by {
                            assert(self.table@[x].method == mid[x].method);
                        }
                    }
                    assert forall|a: int, b: int| 0 <= a < b < self.table@.len() implies (
                    #[trigger] self.table@[a]).method != (#[trigger] self.table@[b]).method by {
                        assert(mid[a].method != mid[b].method);
                    }
                }
                Ok(())
            },
        }
    }

    /// Registers a route for `path` with a configuration. The reference to
    /// its handler is the number of routes that the method had before.
    pub fn add_with_config(&mut self, method: Method, path: &str, config: Option<RouteConfig>) -> (r:
        Result<(), RouteError>)
        requires
            old(self).wf(),
        ensures
            final(self).wf(),
            final(self)@ == registered(
                old(self)@,
                method,
                path@,
                routes_of(old(self)@, method).len() as u64,
                vhost_of(config),
            ).0,
            (match r {
                Ok(_) => None,
                Err(e) => Some(e@),
            }) == registered(
                old(self)@,
                method,
                path@,
                routes_of(old(self)@, method).len() as u64,
                vhost_of(config),
            ).1,
    {
        let handler: u64 = self.count(method) as u64;
        self.register(method, path, handler, config)
    }

    /// Registers a route for `path`. The reference to its handler is the
    /// number of routes that the method had before.
    pub fn add(&mut self, method: Method, path: &str) -> (r: Result<(), RouteError>)
        requires
            old(self).wf(),
        ensures
            final(self).wf(),
            final(self)@ == registered(
                old(self)@,
                method,
                path@,
                routes_of(old(self)@, method).len() as u64,
                None,
            ).0,
            (match r {
                Ok(_) => None,
                Err(e) => Some(e@),
            }) == registered(
                old(self)@,
                method,
                path@,
                routes_of(old(self)@, method).len() as u64,
                None,
            ).1,
    {
        self.add_with_config(method, path, None)
    }

    /// The number of routes of a method.
    pub fn count(&self, method: Method) -> (r: usize)
        requires
            self.wf(),
        ensures
            r == routes_of(self@, method).len(),
    {
        match self.entry_of(method) {
            Some(i) => {
                assert(self.table@[i as int].wf(self.log@));
                assert(self.table@[i as int].views().len() == self.table@[i as int].routes@.len());
                self.table[i].routes.len()
            },
            None => 0,
        }
    }

    /// The parameters of a route with the values that a path gave them.
    fn bind(names: &Vec<String>, values: &Vec<Vec<char>>) -> (r: Vec<Binding>)
        ensures
            r@.map_values(|b: Binding| b@) == bindings(
                names@.map_values(|n: String| n@),
                texts_of(values@),
            ),
    {
        let mut out: Vec<Binding> = Vec::new();
        let mut k: usize = 0;
        while k < names.len() && k < values.len()
            invariant
                k <= names.len(),
                k <= values.len(),
                out@.len() == k,
                forall|x: int|
                    0 <= x < k ==> (#[trigger] out@[x])@ == (names@[x]@, values@[x]@),
            decreases names.len() - k,
        {
            out.push(Binding { name: names[k].clone(), value: string_from_chars(&values[k]) });
            k += 1;
        }
        assert(out@.map_values(|b: Binding| b@) =~= bindings(
            names@.map_values(|n: String| n@),
            texts_of(values@),
        ));
        out
    }

    /// Looks a request path up for a method. The path is percent-decoded
    /// and split at its slashes; the match is the route of the method that
    /// comes first in the order of precedence among those that match.
    pub fn route(&self, method: Method, path: &str) -> (r: Outcome<'_>)
        requires
            self.wf(),
        ensures
            resolves(
                self@,
                method,
                path@,
                match r {
                    Outcome::Match { index, .. } => Verdict::Match(index as int),
                    Outcome::NoMatch => Verdict::NoMatch,
                    Outcome::MalformedPath => Verdict::MalformedPath,
                },
            ),
            r matches Outcome::Match { route, index, params } ==> {
                let routes = routes_of(self@, method);
                let segs = segments(decoded(path@)->Some_0)->Some_0;
                &&& route@ == routes[index as int]
                &&& route.params@.map_values(|n: String| n@) == analysis_of(route@.template).params
                &&& params@.map_values(|b: Binding| b@) == bindings(
                    analysis_of(route@.template).params,
                    form_of(routes[index as int]).values(segs),
                )
            },
    {
        let plain: String = match decode(path) {
            None => {
                return Outcome::MalformedPath;
            },
            Some(p) => p,
        };
        let chars: Vec<char> = chars_of(plain.as_str());
        let segs: Vec<Vec<char>> = match split(&chars) {
            None => {
                return Outcome::NoMatch;
            },
            Some(s) => s,
        };
        let i: usize = match self.entry_of(method) {
            None => {
                assert(routes_of(self@, method).len() == 0);
                return Outcome::NoMatch;
            },
            Some(i) => i,
        };
        proof {
            assert(self.table@[i as int].wf(self.log@));
            self.table@[i as int].lemma_forms(self.log@);
        }
        match self.table[i].segment.find(&segs) {
            None => Outcome::NoMatch,
            Some((w, values)) => {
                let route: &Route = &self.table[i].routes[w];
                proof {
                    assert(self.table@[i as int].views()[w as int] == route@);
                    assert(self.table@[i as int].segment.templates()[w as int] == analysis_of(
                        route.template@,
                    ));
                }
                let params: Vec<Binding> = Self::bind(&route.params, &values);
                Outcome::Match { route, index: w, params }
            },
        }
    }
}

} // verus!