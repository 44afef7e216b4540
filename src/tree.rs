use vstd::prelude::*;

verus! {

/// Why a route could not be registered.
#[derive(PartialEq, Eq, Structural, Clone, Copy, Debug)]
pub enum RouteError {
    /// A literal segment where a parameter or catch-all is already registered.
    LiteralConflictsWithParams,
    /// A parameter or catch-all where literal segments are already registered.
    ParamConflictsWithLiterals,
    /// A parameter or catch-all spelled differently from the one already
    /// registered at the same position.
    AmbiguousParam,
    /// A second handler for the same method and pattern.
    DuplicateHandler,
}

/// What a node holds, as plain values.
pub struct NodeView<H> {
    pub children: Seq<(Seq<char>, usize)>,
    pub wildcard: Option<(Seq<char>, usize)>,
    pub handler: Option<H>,
}

/// A segment that opens an edge matching any segment: `:name` or `*`.
pub open spec fn is_open(s: Seq<char>) -> bool {
    s.len() > 0 && (s[0] == ':' || s[0] == '*')
}

/// A named-parameter segment, `:name`.
pub open spec fn is_param(s: Seq<char>) -> bool {
    s.len() > 0 && s[0] == ':'
}

/// A catch-all segment, `*`.
pub open spec fn is_catch_all(s: Seq<char>) -> bool {
    s.len() > 0 && s[0] == '*'
}

/// The node that the first literal edge labelled `seg` leads to.
pub open spec fn find_child(kids: Seq<(Seq<char>, usize)>, seg: Seq<char>) -> Option<usize>
    decreases kids.len(),
{
    if kids.len() == 0 {
        None
    } else if kids[0].0 == seg {
        Some(kids[0].1)
    } else {
        find_child(kids.drop_first(), seg)
    }
}

/// No two literal edges of a node carry the same label.
pub open spec fn keys_unique(kids: Seq<(Seq<char>, usize)>) -> bool {
    forall|i: int, j: int| 0 <= i < j < kids.len() ==> kids[i].0 != kids[j].0
}

/// The shape that every trie keeps: a root, edges that stay inside the arena,
/// unique literal labels, and never literal edges beside an open edge.
pub open spec fn tree_wf<H>(t: Seq<NodeView<H>>) -> bool {
    &&& t.len() >= 1
    &&& forall|n: int, j: int|
        0 <= n < t.len() && 0 <= j < t[n].children.len() ==> #[trigger] t[n].children[j].1 < t.len()
    &&& forall|n: int| 0 <= n < t.len() ==> keys_unique(#[trigger] t[n].children)
    &&& forall|n: int|
        0 <= n < t.len() && (#[trigger] t[n].wildcard) is Some ==> {
            let w = t[n].wildcard->0;
            &&& w.1 < t.len()
            &&& t[n].children.len() == 0
            &&& is_open(w.0)
        }
}

/// A node with no edges and no handler.
pub open spec fn empty_node<H>() -> NodeView<H> {
    NodeView { children: Seq::empty(), wildcard: None, handler: None }
}

/// `new` keeps every edge and handler of `old`, and may add more.
pub open spec fn grows<H>(old: Seq<NodeView<H>>, new: Seq<NodeView<H>>) -> bool {
    &&& old.len() <= new.len()
    &&& forall|n: int, seg: Seq<char>|
        0 <= n < old.len() && (#[trigger] find_child(old[n].children, seg)) is Some ==> find_child(
            new[n].children,
            seg,
        ) == find_child(old[n].children, seg)
    &&& forall|n: int|
        0 <= n < old.len() && (#[trigger] old[n].wildcard) is Some ==> new[n].wildcard
            == old[n].wildcard
    &&& forall|n: int|
        0 <= n < old.len() && (#[trigger] old[n].handler) is Some ==> new[n].handler
            == old[n].handler
}

/// The edge that registering or matching segment `seg` uses from node `n`.
pub open spec fn edge<H>(t: Seq<NodeView<H>>, n: usize, seg: Seq<char>) -> Option<usize> {
    if is_open(seg) {
        match t[n as int].wildcard {
            Some(w) => if w.0 == seg {
                Some(w.1)
            } else {
                None
            },
            None => None,
        }
    } else {
        find_child(t[n as int].children, seg)
    }
}

/// `path` is the chain of nodes, from the root, along which pattern `pat` is
/// stored: a literal segment by its literal edge, a `:name` or `*` segment by
/// the open edge spelled the same.
pub open spec fn path_fits<H>(t: Seq<NodeView<H>>, pat: Seq<Seq<char>>, path: Seq<usize>) -> bool {
    &&& path.len() == pat.len() + 1
    &&& path[0] == 0
    &&& forall|i: int| 0 <= i < path.len() ==> #[trigger] path[i] < t.len()
    &&& forall|i: int| 0 <= i < pat.len() ==> edge(t, #[trigger] path[i], pat[i]) == Some(path[i + 1])
}

/// Pattern `pat` is stored in the trie with handler `h`.
pub open spec fn serves<H>(t: Seq<NodeView<H>>, pat: Seq<Seq<char>>, h: H) -> bool {
    exists|path: Seq<usize>| path_fits(t, pat, path) && t[path.last() as int].handler == Some(h)
}

/// The configuration error, if any, that storing pattern `pat` from node `n`
/// meets while it follows the edges that already exist. Where an edge is
/// missing, the rest of the pattern goes into new nodes and no error can
/// follow.
pub open spec fn conflict<H>(t: Seq<NodeView<H>>, n: usize, pat: Seq<Seq<char>>) -> Option<RouteError>
    decreases pat.len(),
{
    if pat.len() == 0 {
        if t[n as int].handler is Some {
            Some(RouteError::DuplicateHandler)
        } else {
            None
        }
    } else if is_open(pat[0]) {
        if t[n as int].children.len() > 0 {
            Some(RouteError::ParamConflictsWithLiterals)
        } else {
            match t[n as int].wildcard {
                Some(w) => if w.0 != pat[0] {
                    Some(RouteError::AmbiguousParam)
                } else {
                    conflict(t, w.1, pat.drop_first())
                },
                None => None,
            }
        }
    } else {
        if t[n as int].wildcard is Some {
            Some(RouteError::LiteralConflictsWithParams)
        } else {
            match find_child(t[n as int].children, pat[0]) {
                Some(c) => conflict(t, c, pat.drop_first()),
                None => None,
            }
        }
    }
}

/// The trie after storing pattern `pat` from node `n` with handler `h`, where
/// no conflict stands in the way: each segment follows its edge where there is
/// one, else gets a new node appended behind a new edge (a literal edge, or the
/// open edge); the last node gets the handler.
pub open spec fn insert_route<H>(t: Seq<NodeView<H>>, n: usize, pat: Seq<Seq<char>>, h: H) -> Seq<
    NodeView<H>,
>
    decreases pat.len(),
{
    if pat.len() == 0 {
        t.update(n as int, NodeView { handler: Some(h), ..t[n as int] })
    } else {
        match edge(t, n, pat[0]) {
            Some(c) => insert_route(t, c, pat.drop_first(), h),
            None => {
                let c = t.len() as usize;
                let p = t[n as int];
                let np = if is_open(pat[0]) {
                    NodeView { wildcard: Some((pat[0], c)), ..p }
                } else {
                    NodeView { children: p.children.push((pat[0], c)), ..p }
                };
                insert_route(t.push(empty_node()).update(n as int, np), c, pat.drop_first(), h)
            },
        }
    }
}

/// The walk of a request's segments from node `n`: a literal edge first, else
/// the parameter edge (recording the segment under its name), else the
/// catch-all edge, which ends the walk at once. `None` where no edge applies.
pub open spec fn walk<H>(
    t: Seq<NodeView<H>>,
    n: usize,
    segs: Seq<Seq<char>>,
    params: Map<Seq<char>, Seq<char>>,
) -> Option<(usize, Map<Seq<char>, Seq<char>>)>
    decreases segs.len(),
{
    if segs.len() == 0 {
        Some((n, params))
    } else {
        match find_child(t[n as int].children, segs[0]) {
            Some(c) => walk(t, c, segs.drop_first(), params),
            None => match t[n as int].wildcard {
                Some(w) => if is_param(w.0) {
                    walk(t, w.1, segs.drop_first(), params.insert(w.0.drop_first(), segs[0]))
                } else {
                    Some((w.1, params))
                },
                None => None,
            },
        }
    }
}

/// The handler that answers where a walk ends at node `n`: the node's own, else
/// the handler behind a catch-all edge that leaves it (a catch-all also takes
/// an empty rest of the path).
pub open spec fn answer_at<H>(t: Seq<NodeView<H>>, n: usize) -> Option<H> {
    match t[n as int].handler {
        Some(h) => Some(h),
        None => match t[n as int].wildcard {
            Some(w) => if is_catch_all(w.0) {
                t[w.1 as int].handler
            } else {
                None
            },
            None => None,
        },
    }
}

/// The handler and parameters that a request with segments `segs` resolves
/// to, if any.
pub open spec fn resolve<H>(t: Seq<NodeView<H>>, segs: Seq<Seq<char>>) -> Option<
    (H, Map<Seq<char>, Seq<char>>),
> {
    match walk(t, 0, segs, Map::empty()) {
        Some(r) => match answer_at(t, r.0) {
            Some(h) => Some((h, r.1)),
            None => None,
        },
        None => None,
    }
}

/// Request segments `req` are matched by pattern `pat`: literal segments are
/// equal, a `:name` segment takes any one segment, and a final `*` takes one or
/// more.
pub open spec fn fits(pat: Seq<Seq<char>>, req: Seq<Seq<char>>) -> bool
    decreases pat.len(),
{
    if pat.len() == 0 {
        req.len() == 0
    } else if req.len() == 0 {
        false
    } else if is_catch_all(pat[0]) {
        pat.len() == 1
    } else if is_param(pat[0]) {
        fits(pat.drop_first(), req.drop_first())
    } else {
        pat[0] == req[0] && fits(pat.drop_first(), req.drop_first())
    }
}

/// `params` with the segments of `req` that stand under the `:name` segments of
/// `pat` recorded under those names, a later one replacing an earlier one.
pub open spec fn captured(
    pat: Seq<Seq<char>>,
    req: Seq<Seq<char>>,
    params: Map<Seq<char>, Seq<char>>,
) -> Map<Seq<char>, Seq<char>>
    decreases pat.len(),
{
    if pat.len() == 0 || req.len() == 0 || is_catch_all(pat[0]) {
        params
    } else if is_param(pat[0]) {
        captured(pat.drop_first(), req.drop_first(), params.insert(pat[0].drop_first(), req[0]))
    } else {
        captured(pat.drop_first(), req.drop_first(), params)
    }
}

pub proof fn lemma_find_child_bounds(kids: Seq<(Seq<char>, usize)>, seg: Seq<char>)
    ensures
        find_child(kids, seg) is Some ==> exists|j: int|
            0 <= j < kids.len() && kids[j].0 == seg && kids[j].1 == find_child(kids, seg)->0,
        find_child(kids, seg) is None ==> forall|j: int| 0 <= j < kids.len() ==> kids[j].0 != seg,
    decreases kids.len(),
{
    if kids.len() > 0 {
        lemma_find_child_bounds(kids.drop_first(), seg);
        if kids[0].0 != seg {
            if find_child(kids, seg) is Some {
                let j = choose|j: int|
                    0 <= j < kids.len() - 1 && kids.drop_first()[j].0 == seg
                        && kids.drop_first()[j].1 == find_child(kids, seg)->0;
                assert(kids[j + 1].0 == seg);
            } else {
                assert forall|j: int| 0 <= j < kids.len() implies kids[j].0 != seg by {
                    if j > 0 {
                        assert(kids[j] == kids.drop_first()[j - 1]);
                    }
                }
            }
        }
    }
}

pub proof fn lemma_find_child_push(
    kids: Seq<(Seq<char>, usize)>,
    x: (Seq<char>, usize),
    seg: Seq<char>,
)
    ensures
        find_child(kids.push(x), seg) == if find_child(kids, seg) is Some {
            find_child(kids, seg)
        } else if x.0 == seg {
            Some(x.1)
        } else {
            None
        },
    decreases kids.len(),
{
    if kids.len() == 0 {
        assert(kids.push(x).drop_first() =~= Seq::<(Seq<char>, usize)>::empty());
    } else {
        assert(kids.push(x).drop_first() =~= kids.drop_first().push(x));
        lemma_find_child_push(kids.drop_first(), x, seg);
    }
}

pub proof fn lemma_grows_trans<H>(a: Seq<NodeView<H>>, b: Seq<NodeView<H>>, c: Seq<NodeView<H>>)
    requires
        grows(a, b),
        grows(b, c),
    ensures
        grows(a, c),
{
    assert forall|n: int, seg: Seq<char>|
        0 <= n < a.len() && (#[trigger] find_child(a[n].children, seg)) is Some implies find_child(
        c[n].children,
        seg,
    ) == find_child(a[n].children, seg) by {
        assert(find_child(b[n].children, seg) == find_child(a[n].children, seg));
    }
    assert forall|n: int| 0 <= n < a.len() && (#[trigger] a[n].wildcard) is Some implies c[n].wildcard
        == a[n].wildcard by {
        assert(b[n].wildcard == a[n].wildcard);
    }
    assert forall|n: int| 0 <= n < a.len() && (#[trigger] a[n].handler) is Some implies c[n].handler
        == a[n].handler by {
        assert(b[n].handler == a[n].handler);
    }
}

pub proof fn lemma_edge_grows<H>(a: Seq<NodeView<H>>, b: Seq<NodeView<H>>, n: usize, seg: Seq<char>)
    requires
        grows(a, b),
        n < a.len(),
        edge(a, n, seg) is Some,
    ensures
        edge(b, n, seg) == edge(a, n, seg),
{
    if is_open(seg) {
        assert(a[n as int].wildcard is Some);
    } else {
        assert(find_child(a[n as int].children, seg) is Some);
    }
}

/// A pattern stored in a trie stays stored, with the same handler, in every
/// trie that grows from it.
pub proof fn lemma_serves_grows<H>(a: Seq<NodeView<H>>, b: Seq<NodeView<H>>, pat: Seq<Seq<char>>, h: H)
    requires
        grows(a, b),
        serves(a, pat, h),
    ensures
        serves(b, pat, h),
{
    let path = choose|path: Seq<usize>| path_fits(a, pat, path) && a[path.last() as int].handler == Some(h);
    assert forall|i: int| 0 <= i < pat.len() implies edge(b, #[trigger] path[i], pat[i]) == Some(path[i + 1]) by {
        assert(path[i] < a.len());
        lemma_edge_grows(a, b, path[i], pat[i]);
    }
    assert(path[path.len() - 1] < a.len());
    assert(a[path.last() as int].handler is Some);
    assert(path_fits(b, pat, path));
}

/// The error met where a pattern leaves a stored one at a segment: `stored` is
/// the stored segment there, `new` the other.
pub open spec fn diverge_error(stored: Seq<char>, new: Seq<char>) -> RouteError {
    if is_open(stored) {
        if is_open(new) {
            RouteError::AmbiguousParam
        } else {
            RouteError::LiteralConflictsWithParams
        }
    } else {
        RouteError::ParamConflictsWithLiterals
    }
}

proof fn lemma_walk_along<H>(
    t: Seq<NodeView<H>>,
    pat: Seq<Seq<char>>,
    path: Seq<usize>,
    req: Seq<Seq<char>>,
    i: int,
    ps: Map<Seq<char>, Seq<char>>,
)
    requires
        tree_wf(t),
        path_fits(t, pat, path),
        0 <= i <= pat.len(),
        fits(pat.skip(i), req),
    ensures
        walk(t, path[i], req, ps) == Some((path.last(), captured(pat.skip(i), req, ps))),
    decreases pat.len() - i,
{
    let sp = pat.skip(i);
    if i < pat.len() {
        assert(sp[0] == pat[i]);
        assert(sp.drop_first() =~= pat.skip(i + 1));
        assert(edge(t, path[i], pat[i]) == Some(path[i + 1]));
        assert(path[i] < t.len());
        let node = t[path[i] as int];
        if is_open(pat[i]) {
            assert(node.wildcard is Some);
            assert(node.children.len() == 0);
            assert(find_child(node.children, req[0]) is None);
            if is_param(pat[i]) {
                lemma_walk_along(t, pat, path, req.drop_first(), i + 1, ps.insert(pat[i].drop_first(), req[0]));
            } else {
                assert(sp.len() == 1);
            }
        } else {
            lemma_walk_along(t, pat, path, req.drop_first(), i + 1, ps);
        }
    } else {
        assert(sp.len() == 0);
    }
}

/// A stored pattern answers every request that it matches, with its handler
/// and the parameters that its `:name` segments take from the request.
pub proof fn lemma_resolve_stored<H>(t: Seq<NodeView<H>>, pat: Seq<Seq<char>>, h: H, req: Seq<Seq<char>>)
    requires
        tree_wf(t),
        serves(t, pat, h),
        fits(pat, req),
    ensures
        resolve(t, req) == Some((h, captured(pat, req, Map::empty()))),
{
    let path = choose|path: Seq<usize>| path_fits(t, pat, path) && t[path.last() as int].handler == Some(h);
    assert(pat.skip(0) =~= pat);
    lemma_walk_along(t, pat, path, req, 0, Map::empty());
}

/// A stored pattern that ends in `*` also answers a request that matches the
/// pattern before the `*` and has nothing after it, where no route is stored
/// for that shorter pattern itself.
pub proof fn lemma_resolve_catch_all_empty<H>(
    t: Seq<NodeView<H>>,
    pat: Seq<Seq<char>>,
    h: H,
    req: Seq<Seq<char>>,
)
    requires
        tree_wf(t),
        serves(t, pat, h),
        pat.len() >= 1,
        is_catch_all(pat.last()),
        fits(pat.drop_last(), req),
        forall|h2: H| !serves(t, pat.drop_last(), h2),
    ensures
        resolve(t, req) == Some((h, captured(pat.drop_last(), req, Map::empty()))),
{
    let path = choose|path: Seq<usize>| path_fits(t, pat, path) && t[path.last() as int].handler == Some(h);
    let pre = pat.drop_last();
    let pp = path.drop_last();
    let k = pre.len() as int;
    assert(path_fits(t, pre, pp));
    assert(pre.skip(0) =~= pre);
    lemma_walk_along(t, pre, pp, req, 0, Map::empty());
    assert(pp.last() == path[k]);
    if t[path[k] as int].handler is Some {
        assert(serves(t, pre, t[path[k] as int].handler->0));
    }
    assert(edge(t, path[k], pat[k]) == Some(path[k + 1]));
    assert(pat[k] == pat.last());
}

proof fn lemma_conflict_along<H>(
    t: Seq<NodeView<H>>,
    pat: Seq<Seq<char>>,
    path: Seq<usize>,
    q: Seq<Seq<char>>,
    i: int,
    j: int,
)
    requires
        tree_wf(t),
        path_fits(t, pat, path),
        0 <= i <= j,
        j <= pat.len(),
        j <= q.len(),
        forall|x: int| 0 <= x < j ==> q[x] == pat[x],
        j == pat.len() ==> j == q.len() && t[path.last() as int].handler is Some,
        j < pat.len() ==> j < q.len() && q[j] != pat[j] && (is_open(pat[j]) || is_open(q[j])),
    ensures
        conflict(t, path[i], q.skip(i)) == Some(
            if j == pat.len() {
                RouteError::DuplicateHandler
            } else {
                diverge_error(pat[j], q[j])
            },
        ),
    decreases j - i,
{
    let sq = q.skip(i);
    assert(path[i] < t.len());
    let node = t[path[i] as int];
    if i == q.len() {
        assert(sq.len() == 0);
    } else {
        assert(sq[0] == q[i]);
        assert(sq.drop_first() =~= q.skip(i + 1));
        if i < j {
            assert(edge(t, path[i], pat[i]) == Some(path[i + 1]));
            if is_open(pat[i]) {
                assert(node.wildcard is Some);
            } else {
                lemma_find_child_bounds(node.children, pat[i]);
                assert(node.children.len() > 0);
                assert(node.wildcard is None);
            }
            lemma_conflict_along(t, pat, path, q, i + 1, j);
        } else {
            if is_open(pat[j]) {
                assert(edge(t, path[i], pat[i]) == Some(path[i + 1]));
                assert(node.wildcard is Some);
            } else {
                assert(edge(t, path[i], pat[i]) == Some(path[i + 1]));
                lemma_find_child_bounds(node.children, pat[i]);
            }
        }
    }
}

/// Storing a pattern that is already stored fails as a duplicate.
pub proof fn lemma_stored_is_duplicate<H>(t: Seq<NodeView<H>>, pat: Seq<Seq<char>>, h: H)
    requires
        tree_wf(t),
        serves(t, pat, h),
    ensures
        conflict(t, 0, pat) == Some(RouteError::DuplicateHandler),
{
    let path = choose|path: Seq<usize>| path_fits(t, pat, path) && t[path.last() as int].handler == Some(h);
    assert(pat.skip(0) =~= pat);
    lemma_conflict_along(t, pat, path, pat, 0, pat.len() as int);
}

/// Storing a pattern that agrees with a stored one up to segment `j`, and
/// differs there where either has an open segment, fails: a literal against
/// an open edge, an open segment against literal edges, or two open segments
/// spelled differently.
pub proof fn lemma_diverging_conflicts<H>(
    t: Seq<NodeView<H>>,
    pat: Seq<Seq<char>>,
    h: H,
    q: Seq<Seq<char>>,
    j: int,
)
    requires
        tree_wf(t),
        serves(t, pat, h),
        0 <= j < pat.len(),
        j < q.len(),
        forall|x: int| 0 <= x < j ==> q[x] == pat[x],
        q[j] != pat[j],
        is_open(pat[j]) || is_open(q[j]),
    ensures
        conflict(t, 0, q) == Some(diverge_error(pat[j], q[j])),
{
    let path = choose|path: Seq<usize>| path_fits(t, pat, path) && t[path.last() as int].handler == Some(h);
    assert(q.skip(0) =~= q);
    lemma_conflict_along(t, pat, path, q, 0, j);
}

/// A node of the trie.
pub struct Node<H> {
    children: Vec<(String, usize)>,
    wildcard: Option<(String, usize)>,
    handler: Option<H>,
}

impl<H> View for Node<H> {
    type V = NodeView<H>;

    closed spec fn view(&self) -> NodeView<H> {
        NodeView {
            children: self.children@.map_values(|p: (String, usize)| (p.0@, p.1)),
            wildcard: match self.wildcard {
                Some(w) => Some((w.0@, w.1)),
                None => None,
            },
            handler: self.handler,
        }
    }
}

/// The routing trie: an arena of nodes, node 0 the root, edges by index.
pub struct Tree<H> {
    nodes: Vec<Node<H>>,
}

impl<H> View for Tree<H> {
    type V = Seq<NodeView<H>>;

    closed spec fn view(&self) -> Seq<NodeView<H>> {
        self.nodes@.map_values(|n: Node<H>| n@)
    }
}

impl<H> Tree<H> {
    pub open spec fn wf(&self) -> bool {
        tree_wf(self@) && self@.len() <= usize::MAX
    }

    /// A trie that holds the root alone.
    pub fn new() -> (r: Tree<H>)
        ensures
            r.wf(),
            r@ == seq![empty_node::<H>()],
    {
        let mut tree = Tree { nodes: Vec::new() };
        tree.node_new();
        assert(tree@ =~= seq![empty_node::<H>()]);
        tree
    }

    /// Appends a node with no edges and no handler, and returns its index.
    pub fn node_new(&mut self) -> (r: usize)
        ensures
            r == old(self)@.len(),
            final(self)@ == old(self)@.push(empty_node()),
    {
        let next_index = self.nodes.len();
        let node = Node { children: Vec::new(), wildcard: None, handler: None };
        assert(node@.children =~= Seq::<(Seq<char>, usize)>::empty());
        assert(node@ == empty_node::<H>());
        self.nodes.push(node);
        assert(self@ =~= old(self)@.push(empty_node()));
        next_index
    }

    /// The node that the literal edge `segment` leads to from `node_id`.
    pub fn node_get_child(&self, node_id: usize, segment: &String) -> (r: Option<usize>)
        requires
            node_id < self@.len(),
        ensures
            r == find_child(self@[node_id as int].children, segment@),
    {
        let kids = &self.nodes[node_id].children;
        let ghost ks = self@[node_id as int].children;
        assert(ks == kids@.map_values(|p: (String, usize)| (p.0@, p.1)));
        let mut i: usize = 0;
        assert(ks.skip(0) =~= ks);
        while i < kids.len()
            invariant
                i <= kids@.len(),
                node_id < self@.len(),
                ks == self@[node_id as int].children,
                ks == kids@.map_values(|p: (String, usize)| (p.0@, p.1)),
                find_child(ks, segment@) == find_child(ks.skip(i as int), segment@),
            decreases kids@.len() - i,
        {
            assert(ks.skip(i as int).drop_first() =~= ks.skip(i + 1));
            assert(ks.skip(i as int)[0] == ks[i as int]);
            assert(ks[i as int] == (kids@[i as int].0@, kids@[i as int].1));
            if kids[i].0 == *segment {
                return Some(kids[i].1);
            }
            i = i + 1;
        }
        None
    }

    /// The literal edge `segment` from `parent_id`, made with a new node where
    /// it is missing. Refused where the node already has an open edge.
    pub fn node_add_child(&mut self, parent_id: usize, segment: String) -> (r: Result<
        usize,
        RouteError,
    >)
        requires
            old(self).wf(),
            parent_id < old(self)@.len(),
        ensures
            final(self).wf(),
            grows(old(self)@, final(self)@),
            old(self)@[parent_id as int].wildcard is Some ==> r == Err::<usize, RouteError>(
                RouteError::LiteralConflictsWithParams,
            ) && final(self)@ == old(self)@,
            old(self)@[parent_id as int].wildcard is None ==> match find_child(
                old(self)@[parent_id as int].children,
                segment@,
            ) {
                Some(c) => r == Ok::<usize, RouteError>(c) && final(self)@ == old(self)@,
                None => {
                    let p = old(self)@[parent_id as int];
                    &&& r == Ok::<usize, RouteError>(old(self)@.len() as usize)
                    &&& final(self)@ == old(self)@.push(empty_node()).update(
                        parent_id as int,
                        NodeView {
                            children: p.children.push((segment@, old(self)@.len() as usize)),
                            ..p
                        },
                    )
                },
            },
            r is Ok ==> find_child(final(self)@[parent_id as int].children, segment@) == Some(
                r->Ok_0,
            ),
            r is Ok ==> r->Ok_0 < final(self)@.len(),
    {
        if self.nodes[parent_id].wildcard.is_some() {
            return Err(RouteError::LiteralConflictsWithParams);
        }
        match self.node_get_child(parent_id, &segment) {
            Some(c) => {
                proof {
                    lemma_find_child_bounds(self@[parent_id as int].children, segment@);
                }
                Ok(c)
            },
            None => {
                let ghost t0 = self@;
                let ghost seg = segment@;
                let node_id = self.node_new();
                let ghost t1 = self@;
                assert(self.nodes@.len() == t1.len());
                assert(t1[parent_id as int] == t0[parent_id as int]);
                assert(self.nodes@[parent_id as int]@ == t1[parent_id as int]);
                let ghost kids0 = self.nodes@[parent_id as int].children@;
                self.nodes[parent_id].children.push((segment, node_id));
                proof {
                    let p = t0[parent_id as int];
                    let np = NodeView { children: p.children.push((seg, node_id)), ..p };
                    assert(self.nodes@[parent_id as int].children@ == kids0.push(
                        self.nodes@[parent_id as int].children@.last(),
                    ));
                    assert(self.nodes@.len() == t1.len());
                    assert(self@[parent_id as int] == self.nodes@[parent_id as int]@);
                    assert(self@[parent_id as int].children =~= np.children);
                    assert(self@ =~= t1.update(parent_id as int, np));
            assert(self@.len() == self.nodes.len());
                    lemma_find_child_bounds(p.children, seg);
                    lemma_find_child_push(p.children, (seg, node_id), seg);
                    assert forall|n: int, sg: Seq<char>|
                        0 <= n < t0.len() && (#[trigger] find_child(t0[n].children, sg)) is Some
                        implies find_child(self@[n].children, sg) == find_child(
                        t0[n].children,
                        sg,
                    ) by {
                        if n == parent_id {
                            lemma_find_child_push(p.children, (seg, node_id), sg);
                        }
                    }
                    assert forall|n: int, j: int|
                        0 <= n < self@.len() && 0 <= j < self@[n].children.len() implies #[trigger] self@[n].children[j].1
                        < self@.len() by {
                        if n == parent_id && j < p.children.len() {
                            assert(self@[n].children[j] == p.children[j]);
                        }
                    }
                    assert forall|n: int| 0 <= n < self@.len() implies keys_unique(
                        #[trigger] self@[n].children,
                    ) by {
                        if n == parent_id {
                            assert forall|i: int, j: int|
                                0 <= i < j < np.children.len() implies np.children[i].0
                                != np.children[j].0 by {
                                if j == p.children.len() {
                                    assert(np.children[i] == p.children[i]);
                                } else {
                                    assert(np.children[i] == p.children[i]);
                                    assert(np.children[j] == p.children[j]);
                                }
                            }
                        } else if n == t0.len() {
                            assert(self@[n] == empty_node::<H>());
                        }
                    }
                }
                Ok(node_id)
            },
        }
    }

    /// The open edge `segment` (a `:name` or `*` segment) from `parent_id`,
    /// made with a new node where the node has none. Refused where the node has
    /// literal edges, or an open edge spelled otherwise.
    pub fn node_set_wildcard(&mut self, parent_id: usize, segment: String) -> (r: Result<
        usize,
        RouteError,
    >)
        requires
            old(self).wf(),
            parent_id < old(self)@.len(),
            is_open(segment@),
        ensures
            final(self).wf(),
            grows(old(self)@, final(self)@),
            ({
                let p = old(self)@[parent_id as int];
                if p.children.len() > 0 {
                    r == Err::<usize, RouteError>(RouteError::ParamConflictsWithLiterals)
                        && final(self)@ == old(self)@
                } else {
                    match p.wildcard {
                        Some(w) => if w.0 != segment@ {
                            r == Err::<usize, RouteError>(RouteError::AmbiguousParam)
                                && final(self)@ == old(self)@
                        } else {
                            r == Ok::<usize, RouteError>(w.1) && final(self)@ == old(self)@
                        },
                        None => {
                            &&& r == Ok::<usize, RouteError>(old(self)@.len() as usize)
                            &&& final(self)@ == old(self)@.push(empty_node()).update(
                                parent_id as int,
                                NodeView {
                                    wildcard: Some((segment@, old(self)@.len() as usize)),
                                    ..p
                                },
                            )
                        },
                    }
                }
            }),
            r is Ok ==> final(self)@[parent_id as int].wildcard == Some((segment@, r->Ok_0)),
            r is Ok ==> r->Ok_0 < final(self)@.len(),
    {
        if self.nodes[parent_id].children.len() > 0 {
            return Err(RouteError::ParamConflictsWithLiterals);
        }
        assert(self@[parent_id as int].children.len() == 0);
        match &self.nodes[parent_id].wildcard {
            Some(w) => {
                if w.0 != segment {
                    return Err(RouteError::AmbiguousParam);
                }
                return Ok(w.1);
            },
            None => {},
        }
        let ghost t0 = self@;
        let ghost seg = segment@;
        let node_id = self.node_new();
        let ghost t1 = self@;
        assert(self.nodes@.len() == t1.len());
        assert(t1[parent_id as int] == t0[parent_id as int]);
        assert(self.nodes@[parent_id as int]@ == t1[parent_id as int]);
        self.nodes[parent_id].wildcard = Some((segment, node_id));
        proof {
            let p = t0[parent_id as int];
            let np = NodeView { wildcard: Some((seg, node_id)), ..p };
            assert(self.nodes@.len() == t1.len());
            assert(self@[parent_id as int] == self.nodes@[parent_id as int]@);
            assert(self@[parent_id as int] == np);
            assert(self@ =~= t1.update(parent_id as int, np));
            assert(self@.len() == self.nodes.len());
            assert forall|n: int| 0 <= n < self@.len() implies keys_unique(
                #[trigger] self@[n].children,
            ) by {
                if n == t0.len() {
                    assert(self@[n] == empty_node::<H>());
                }
            }
        }
        Ok(node_id)
    }

    /// The open edge of `node_id`, if it has one.
    pub fn node_get_wildcard(&self, node_id: usize) -> (r: Option<&(String, usize)>)
        requires
            node_id < self@.len(),
        ensures
            match r {
                Some(w) => self@[node_id as int].wildcard == Some((w.0@, w.1)),
                None => self@[node_id as int].wildcard is None,
            },
    {
        self.nodes[node_id].wildcard.as_ref()
    }

    /// Registers `handler` on `node_id`. Refused where the node has one.
    pub fn node_set_handler(&mut self, node_id: usize, handler: H) -> (r: Result<(), RouteError>)
        requires
            old(self).wf(),
            node_id < old(self)@.len(),
        ensures
            final(self).wf(),
            grows(old(self)@, final(self)@),
            old(self)@[node_id as int].handler is Some ==> r == Err::<(), RouteError>(
                RouteError::DuplicateHandler,
            ) && final(self)@ == old(self)@,
            old(self)@[node_id as int].handler is None ==> r == Ok::<(), RouteError>(())
                && final(self)@ == old(self)@.update(
                node_id as int,
                NodeView { handler: Some(handler), ..old(self)@[node_id as int] },
            ),
    {
        if self.nodes[node_id].handler.is_some() {
            return Err(RouteError::DuplicateHandler);
        }
        let ghost t0 = self@;
        assert(self.nodes@[node_id as int]@ == t0[node_id as int]);
        self.nodes[node_id].handler = Some(handler);
        proof {
            let np = NodeView { handler: Some(handler), ..t0[node_id as int] };
            assert(self@[node_id as int] == self.nodes@[node_id as int]@);
            assert(self@[node_id as int] == np);
            assert(self@ =~= t0.update(node_id as int, np));
            assert(self@.len() == self.nodes.len());
        }
        Ok(())
    }

    /// The handler registered on `node_id`, if any.
    pub fn node_get_handler(&self, node_id: usize) -> (r: Option<&H>)
        requires
            node_id < self@.len(),
        ensures
            match r {
                Some(h) => self@[node_id as int].handler == Some(*h),
                None => self@[node_id as int].handler is None,
            },
    {
        self.nodes[node_id].handler.as_ref()
    }
}

} // verus!
