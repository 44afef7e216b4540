use vstd::prelude::*;
use vstd::string::*;

use std::rc::Rc;

use crate::chain::{lemma_piped_next, lemma_piped_respond, onion, piped, terminal_event, Event, Flow, Handler, Middleware};
use crate::context::{Context, Route};
use crate::message::{Outcome, Request, Response};
use crate::segment::{route_key, split_segments, texts, trim_path};
use crate::tree::{
    conflict, edge, empty_node, grows, is_open, lemma_edge_grows, lemma_find_child_bounds,
    answer_at, insert_route, lemma_grows_trans, path_fits, resolve, serves, tree_wf, walk, NodeView, RouteError, Tree,
};

verus! {

/// Whether `s` is a `:name` or `*` segment.
pub fn is_open_segment(s: &String) -> (r: bool)
    ensures
        r == is_open(s@),
{
    let t = s.as_str();
    t.unicode_len() > 0 && (t.get_char(0) == ':' || t.get_char(0) == '*')
}

/// The segments under which a route or request is stored or looked up: the
/// method, then the pieces of the path with one leading and one trailing `/`
/// removed.
pub fn route_segments(method: &str, path: &str) -> (r: Vec<String>)
    ensures
        texts(r@) == route_key(method@, path@),
{
    let mut key = String::from_str(method);
    let slash = "/";
    proof {
        reveal_strlit("/");
    }
    key.append(slash);
    let trimmed = trim_path(path);
    key.append(trimmed.as_str());
    assert(key@ =~= method@ + seq!['/'] + trimmed@);
    split_segments(key.as_str())
}

/// The handler that a terminal reference stands for.
pub open spec fn deref_handler<H>(t: Option<&H>) -> Option<H> {
    match t {
        Some(h) => Some(*h),
        None => None,
    }
}

/// The handler of a resolved route, if any.
pub open spec fn found_handler<H>(found: Option<(H, Map<Seq<char>, Seq<char>>)>) -> Option<H> {
    match found {
        Some(m) => Some(m.0),
        None => None,
    }
}

/// The parameters of a resolved route; none where no route matched.
pub open spec fn found_params<H>(found: Option<(H, Map<Seq<char>, Seq<char>>)>) -> Map<
    Seq<char>,
    Seq<char>,
> {
    match found {
        Some(m) => m.1,
        None => Map::empty(),
    }
}

/// The routing table and the middleware list of a server.
pub struct Router<H, M> {
    handlers: Tree<H>,
    tweens: Vec<M>,
}

impl<H, M> Router<H, M> {
    /// The trie that holds the routes.
    pub closed spec fn trie(&self) -> Seq<NodeView<H>> {
        self.handlers@
    }

    /// The middleware, in the order in which it was added.
    pub closed spec fn middlewares(&self) -> Seq<M> {
        self.tweens@.reverse()
    }

    pub closed spec fn wf(&self) -> bool {
        self.handlers.wf()
    }

    /// A well-formed router holds a well-formed trie.
    pub proof fn lemma_wf(&self)
        requires
            self.wf(),
        ensures
            tree_wf(self.trie()),
            self.middlewares().len() <= usize::MAX,
    {
        assert(self.tweens@.len() == self.tweens.len());
    }

    /// No routes and no middleware.
    pub fn new() -> (r: Router<H, M>)
        ensures
            r.wf(),
            r.trie() == seq![empty_node::<H>()],
            r.middlewares() == Seq::<M>::empty(),
    {
        let r = Router { handlers: Tree::new(), tweens: Vec::new() };
        assert(r.tweens@.reverse() =~= Seq::<M>::empty());
        r
    }

    /// Adds `tween` after all middleware added so far: it runs inside them.
    pub fn with(self, tween: M) -> (r: Router<H, M>)
        ensures
            r.wf() == self.wf(),
            r.trie() == self.trie(),
            r.middlewares() == self.middlewares().push(tween),
    {
        let mut r = self;
        r.tweens.insert(0, tween);
        assert(r.tweens@.reverse() =~= self.tweens@.reverse().push(tween));
        r
    }

    /// Registers `handler` for requests with method `GET` whose path `pattern`
    /// matches.
    pub fn get(self, pattern: &str, handler: H) -> (r: Result<Router<H, M>, RouteError>)
        requires
            self.wf(),
        ensures
            ({
                let key = route_key("GET"@, pattern@);
                &&& r is Err <==> conflict(self.trie(), 0, key) is Some
                &&& r is Err ==> r->Err_0 == conflict(self.trie(), 0, key)->0
                &&& r is Ok ==> {
                    let n = r->Ok_0;
                    &&& n.wf()
                    &&& n.trie() == insert_route(self.trie(), 0, key, handler)
                    &&& grows(self.trie(), n.trie())
                    &&& serves(n.trie(), key, handler)
                    &&& n.middlewares() == self.middlewares()
                }
            }),
    {
        self.register("GET", pattern, handler)
    }

    /// Registers `handler` for requests with `method` whose path `pattern`
    /// matches. In the pattern, a segment `:name` matches any one segment and
    /// records it under `name`; a segment `*` matches the rest of the path.
    /// Fails, with the first conflict that the pattern meets along the edges
    /// already in the trie, where the route cannot be told apart from routes
    /// already registered.
    pub fn register(self, method: &str, pattern: &str, handler: H) -> (r: Result<
        Router<H, M>,
        RouteError,
    >)
        requires
            self.wf(),
        ensures
            ({
                let key = route_key(method@, pattern@);
                &&& r is Err <==> conflict(self.trie(), 0, key) is Some
                &&& r is Err ==> r->Err_0 == conflict(self.trie(), 0, key)->0
                &&& r is Ok ==> {
                    let n = r->Ok_0;
                    &&& n.wf()
                    &&& n.trie() == insert_route(self.trie(), 0, key, handler)
                    &&& grows(self.trie(), n.trie())
                    &&& serves(n.trie(), key, handler)
                    &&& n.middlewares() == self.middlewares()
                }
            }),
    {
        let mut r = self;
        let segments = route_segments(method, pattern);
        let ghost key = route_key(method@, pattern@);
        let ghost t0 = r.handlers@;
        let mut current: usize = 0;
        let ghost mut path: Seq<usize> = seq![0usize];
        let ghost mut fresh: bool = false;
        let mut i: usize = 0;
        assert(key.skip(0) =~= key);
        while i < segments.len()
            invariant
                texts(segments@) == key,
                key == route_key(method@, pattern@),
                i <= key.len(),
                r.handlers.wf(),
                r.tweens == self.tweens,
                t0 == self.handlers@,
                grows(t0, r.handlers@),
                current < r.handlers@.len(),
                path.len() == i + 1,
                path[0] == 0,
                path.last() == current,
                forall|j: int| 0 <= j < path.len() ==> #[trigger] path[j] < r.handlers@.len(),
                forall|j: int|
                    0 <= j < i ==> edge(r.handlers@, #[trigger] path[j], key[j]) == Some(
                        path[j + 1],
                    ),
                !fresh ==> r.handlers@ == t0 && conflict(t0, 0, key) == conflict(
                    t0,
                    current,
                    key.skip(i as int),
                ),
                fresh ==> conflict(t0, 0, key) is None && r.handlers@[current as int]
                    == empty_node::<H>(),
                conflict(t0, 0, key) is None ==> insert_route(t0, 0, key, handler) == insert_route(
                    r.handlers@,
                    current,
                    key.skip(i as int),
                    handler,
                ),
            decreases key.len() - i,
        {
            let ghost before = r.handlers@;
            let ghost rest = key.skip(i as int);
            assert(key.len() == segments@.len());
            assert(rest[0] == key[i as int]);
            assert(rest.drop_first() =~= key.skip(i + 1));
            assert(segments@[i as int]@ == key[i as int]);
            let seg = segments[i].clone();
            let next = if is_open_segment(&seg) {
                r.handlers.node_set_wildcard(current, seg)
            } else {
                r.handlers.node_add_child(current, seg)
            };
            match next {
                Err(e) => {
                    return Err(e);
                },
                Ok(c) => {
                    proof {
                        assert(edge(r.handlers@, current, key[i as int]) == Some(c));
                        assert forall|j: int| 0 <= j < i + 1 implies edge(
                            r.handlers@,
                            #[trigger] path.push(c)[j],
                            key[j],
                        ) == Some(path.push(c)[j + 1]) by {
                            if j < i {
                                assert(path.push(c)[j] == path[j]);
                                lemma_edge_grows(before, r.handlers@, path[j], key[j]);
                            }
                        }
                        lemma_grows_trans(t0, before, r.handlers@);
                        if conflict(t0, 0, key) is None {
                            if c == before.len() {
                                assert(edge(before, current, key[i as int]) is None);
                            } else {
                                assert(edge(before, current, key[i as int]) == Some(c));
                            }
                            assert(insert_route(before, current, rest, handler) == insert_route(
                                r.handlers@,
                                c,
                                key.skip(i + 1),
                                handler,
                            ));
                        }
                        if c == before.len() {
                            assert(r.handlers@[c as int] == empty_node::<H>());
                            if !fresh {
                                assert(conflict(t0, current, rest) is None);
                            }
                            fresh = true;
                        } else {
                            assert(r.handlers@ == before);
                        }
                        path = path.push(c);
                    }
                    current = c;
                },
            }
            i = i + 1;
        }
        let ghost before = r.handlers@;
        let ghost h = handler;
        assert(key.skip(i as int) =~= Seq::<Seq<char>>::empty());
        match r.handlers.node_set_handler(current, handler) {
            Err(e) => {
                return Err(e);
            },
            Ok(()) => {},
        }
        proof {
            lemma_grows_trans(t0, before, r.handlers@);
            assert forall|j: int| 0 <= j < key.len() implies edge(
                r.handlers@,
                #[trigger] path[j],
                key[j],
            ) == Some(path[j + 1]) by {
                lemma_edge_grows(before, r.handlers@, path[j], key[j]);
            }
            assert(path_fits(r.handlers@, key, path));
            assert(insert_route(before, current, key.skip(i as int), h) == r.handlers@);
        }
        Ok(r)
    }

    /// The handler and the parameters that a request with `method` and `path`
    /// resolves to, if any.
    pub fn lookup(&self, method: &str, path: &str) -> (r: Option<(&H, Route)>)
        requires
            self.wf(),
        ensures
            match resolve(self.trie(), route_key(method@, path@)) {
                Some(m) => (r matches Some(f) && *f.0 == m.0 && f.1@ == m.1 && f.1.wf()),
                None => r is None,
            },
    {
        let segments = route_segments(method, path);
        let ghost key = route_key(method@, path@);
        let ghost t = self.handlers@;
        let mut current: usize = 0;
        let mut params = Route::new();
        let mut i: usize = 0;
        assert(key.skip(0) =~= key);
        while i < segments.len()
            invariant
                texts(segments@) == key,
                key == route_key(method@, path@),
                i <= key.len(),
                t == self.handlers@,
                self.handlers.wf(),
                current < t.len(),
                params.wf(),
                walk(t, 0, key, Map::empty()) == walk(t, current, key.skip(i as int), params@),
            decreases key.len() - i,
        {
            let ghost rest = key.skip(i as int);
            assert(key.len() == segments@.len());
            assert(rest[0] == key[i as int]);
            assert(rest.drop_first() =~= key.skip(i + 1));
            assert(segments@[i as int]@ == key[i as int]);
            match self.handlers.node_get_child(current, &segments[i]) {
                Some(c) => {
                    proof {
                        lemma_find_child_bounds(t[current as int].children, key[i as int]);
                    }
                    current = c;
                },
                None => match self.handlers.node_get_wildcard(current) {
                    Some(w) => {
                        let spec_seg = w.0.as_str();
                        let n = spec_seg.unicode_len();
                        if n > 0 && spec_seg.get_char(0) == ':' {
                            let name = String::from_str(spec_seg.substring_char(1, n));
                            assert(name@ =~= w.0@.drop_first());
                            params.insert(name, segments[i].clone());
                            current = w.1;
                        } else {
                            // A catch-all takes the rest of the path.
                            current = w.1;
                            return match self.answer_at(current) {
                                Some(h) => Some((h, params)),
                                None => None,
                            };
                        }
                    },
                    None => {
                        return None;
                    },
                },
            }
            i = i + 1;
        }
        assert(key.skip(i as int) =~= Seq::<Seq<char>>::empty());
        match self.answer_at(current) {
            Some(h) => Some((h, params)),
            None => None,
        }
    }

    /// The handler that answers where a walk ends at `node`: its own, else the
    /// one behind a catch-all edge leaving it.
    fn answer_at(&self, node: usize) -> (r: Option<&H>)
        requires
            self.wf(),
            node < self.trie().len(),
        ensures
            deref_handler(r) == answer_at(self.trie(), node),
    {
        match self.handlers.node_get_handler(node) {
            Some(h) => Some(h),
            None => match self.handlers.node_get_wildcard(node) {
                Some(w) => {
                    let spec_seg = w.0.as_str();
                    if spec_seg.unicode_len() > 0 && spec_seg.get_char(0) == '*' {
                        self.handlers.node_get_handler(w.1)
                    } else {
                        None
                    }
                },
                None => None,
            },
        }
    }

    /// Runs the pipeline from position `pos` inward: the middleware added
    /// `pos`-th, wrapped around the rest, down to `terminal` (the not-found
    /// responder where it is `None`). Returns the outcome and the calls made.
    fn run_chain<S>(&self, pos: usize, ctx: Context<S>, terminal: Option<&H>) -> (r: (
        Outcome,
        Ghost<Seq<Event>>,
    )) where H: Handler<S>, M: Middleware<S>
        requires
            pos <= self.middlewares().len(),
        ensures
            piped(self.middlewares(), pos as nat, ctx, deref_handler(terminal), r.0, r.1@),
            exists|k: nat|
                pos <= k <= self.middlewares().len() && r.1@ == #[trigger] onion(
                    pos as nat,
                    k,
                    self.middlewares().len(),
                    terminal_event(terminal is Some),
                ),
        decreases self.middlewares().len() - pos,
    {
        let n = self.tweens.len();
        let ghost term = terminal_event(terminal is Some);
        let ghost mws = self.middlewares();
        let ghost ctx0 = ctx;
        assert(mws.len() == n);
        if pos == n {
            let ghost t = seq![term];
            assert(t == onion(pos as nat, pos as nat, n as nat, term));
            let trace: Ghost<Seq<Event>> = Ghost(t);
            let out = match terminal {
                Some(h) => h.call(ctx),
                None => Ok(Response::not_found()),
            };
            return (out, trace);
        }
        let tween = &self.tweens[n - 1 - pos];
        assert(*tween == mws[pos as int]);
        let flow = tween.before(ctx);
        let ghost flow0 = flow;
        match flow {
            Flow::Respond(out) => {
                let ghost t = seq![Event::Before(pos)];
                let trace: Ghost<Seq<Event>> = Ghost(t);
                assert(trace@ == onion(pos as nat, pos as nat, n as nat, term));
                proof {
                    lemma_piped_respond(mws, pos as nat, ctx0, deref_handler(terminal), flow0, out);
                }
                (out, trace)
            },
            Flow::Next(next) => {
                let ghost next0 = next;
                let (inner, trace) = self.run_chain(pos + 1, next, terminal);
                let ghost k = choose|k: nat|
                    pos + 1 <= k <= n && trace@ == #[trigger] onion((pos + 1) as nat, k, n as nat, term);
                assert(seq![Event::Before(pos)] + trace@ + seq![Event::After(pos)] == onion(
                    pos as nat,
                    k,
                    n as nat,
                    term,
                ));
                let ghost t = seq![Event::Before(pos)] + trace@ + seq![Event::After(pos)];
                let outer: Ghost<Seq<Event>> = Ghost(t);
                let ghost inner0 = inner;
                let out = tween.after(inner);
                proof {
                    lemma_piped_next(
                        mws,
                        pos as nat,
                        ctx0,
                        deref_handler(terminal),
                        next0,
                        inner0,
                        trace@,
                        out,
                    );
                }
                (out, outer)
            },
        }
    }

    /// Answers a request: finds the route for its method and path, then runs
    /// every middleware, in the order added, around the matched handler, or
    /// around the not-found responder where no route matches. The pipeline
    /// starts on a context that holds the caller's state, the parameters taken
    /// from the path and the request. Returns the outcome and the calls made.
    pub fn dispatch<S>(&self, state: S, req: Rc<Request>) -> (r: (Outcome, Ghost<Seq<Event>>)) where
        H: Handler<S>,
        M: Middleware<S>,

        requires
            self.wf(),
        ensures
            ({
                let found = resolve(self.trie(), route_key(req.method@, req.path@));
                let n = self.middlewares().len();
                &&& exists|c: Context<S>|
                    c.state == state && c.req == Some(req) && c.route.wf() && c.route@
                        == found_params(found) && #[trigger] piped(
                        self.middlewares(),
                        0,
                        c,
                        found_handler(found),
                        r.0,
                        r.1@,
                    )
                &&& exists|k: nat|
                    k <= n && r.1@ == #[trigger] onion(
                        0,
                        k,
                        n,
                        terminal_event(found is Some),
                    )
            }),
    {
        let found = self.lookup(req.method.as_str(), req.path.as_str());
        match found {
            Some((handler, params)) => {
                let ctx = Context { state, route: Rc::new(params), req: Some(req) };
                let ghost c = ctx;
                let r = self.run_chain(0, ctx, Some(handler));
                assert(deref_handler(Some(handler)) == found_handler(
                    resolve(self.trie(), route_key(req.method@, req.path@)),
                ));
                assert(piped(self.middlewares(), 0, c, deref_handler(Some(handler)), r.0, r.1@));
                r
            },
            None => {
                let ctx = Context { state, route: Rc::new(Route::new()), req: Some(req) };
                let ghost c = ctx;
                let r = self.run_chain(0, ctx, None);
                assert(piped(self.middlewares(), 0, c, deref_handler::<H>(None), r.0, r.1@));
                r
            },
        }
    }
}

} // verus!
