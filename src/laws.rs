use vstd::prelude::*;

use crate::router::Router;
use crate::segment::{lemma_split_nonempty, route_key, trimmed};
use crate::tree::{
    captured, conflict, diverge_error, find_child, fits, is_catch_all, is_open, is_param,
    lemma_diverging_conflicts, lemma_resolve_catch_all_empty, lemma_resolve_stored, lemma_stored_is_duplicate, resolve, serves, walk,
    RouteError,
};

verus! {

proof fn lemma_literal_fits(pat: Seq<Seq<char>>, ps: Map<Seq<char>, Seq<char>>)
    requires
        forall|i: int| 0 <= i < pat.len() ==> !is_open(#[trigger] pat[i]),
    ensures
        fits(pat, pat),
        captured(pat, pat, ps) == ps,
    decreases pat.len(),
{
    if pat.len() > 0 {
        assert(!is_open(pat[0]));
        assert forall|i: int| 0 <= i < pat.drop_first().len() implies !is_open(
            #[trigger] pat.drop_first()[i],
        ) by {
            assert(pat.drop_first()[i] == pat[i + 1]);
        }
        lemma_literal_fits(pat.drop_first(), ps);
    }
}

proof fn lemma_catch_all_fits(
    pat: Seq<Seq<char>>,
    extra: Seq<Seq<char>>,
    ps: Map<Seq<char>, Seq<char>>,
)
    requires
        pat.len() >= 1,
        is_catch_all(pat.last()),
        forall|i: int| 0 <= i < pat.len() - 1 ==> !is_open(#[trigger] pat[i]),
        extra.len() >= 1,
    ensures
        fits(pat, pat.drop_last() + extra),
        captured(pat, pat.drop_last() + extra, ps) == ps,
    decreases pat.len(),
{
    let req = pat.drop_last() + extra;
    if pat.len() == 1 {
        assert(req =~= extra);
    } else {
        assert(!is_open(pat[0]));
        assert(req[0] == pat[0]);
        let rest = pat.drop_first();
        assert(rest.drop_last() + extra =~= req.drop_first());
        assert(rest.last() == pat.last());
        assert forall|i: int| 0 <= i < rest.len() - 1 implies !is_open(#[trigger] rest[i]) by {
            assert(rest[i] == pat[i + 1]);
        }
        lemma_catch_all_fits(rest, extra, ps);
    }
}

proof fn lemma_fits_len(pat: Seq<Seq<char>>, req: Seq<Seq<char>>)
    requires
        fits(pat, req),
    ensures
        req.len() >= pat.len(),
    decreases pat.len(),
{
    if pat.len() > 0 && !is_catch_all(pat[0]) {
        lemma_fits_len(pat.drop_first(), req.drop_first());
    }
}

proof fn lemma_captured_keeps(
    pat: Seq<Seq<char>>,
    req: Seq<Seq<char>>,
    ps: Map<Seq<char>, Seq<char>>,
    name: Seq<char>,
)
    requires
        forall|x: int| 0 <= x < pat.len() && is_param(#[trigger] pat[x]) ==> pat[x].drop_first() != name,
    ensures
        captured(pat, req, ps).contains_key(name) == ps.contains_key(name),
        ps.contains_key(name) ==> captured(pat, req, ps)[name] == ps[name],
    decreases pat.len(),
{
    if pat.len() > 0 && req.len() > 0 && !is_catch_all(pat[0]) {
        assert forall|x: int|
            0 <= x < pat.drop_first().len() && is_param(#[trigger] pat.drop_first()[x]) implies pat.drop_first()[x].drop_first()
            != name by {
            assert(pat.drop_first()[x] == pat[x + 1]);
        }
        if is_param(pat[0]) {
            lemma_captured_keeps(
                pat.drop_first(),
                req.drop_first(),
                ps.insert(pat[0].drop_first(), req[0]),
                name,
            );
        } else {
            lemma_captured_keeps(pat.drop_first(), req.drop_first(), ps, name);
        }
    }
}

proof fn lemma_captured_at(
    pat: Seq<Seq<char>>,
    req: Seq<Seq<char>>,
    ps: Map<Seq<char>, Seq<char>>,
    j: int,
)
    requires
        fits(pat, req),
        0 <= j < pat.len(),
        is_param(pat[j]),
        forall|x: int| j < x < pat.len() ==> #[trigger] pat[x] != pat[j],
    ensures
        captured(pat, req, ps).contains_key(pat[j].drop_first()),
        captured(pat, req, ps)[pat[j].drop_first()] == req[j],
    decreases j,
{
    let name = pat[j].drop_first();
    let rest = pat.drop_first();
    assert(!is_catch_all(pat[0])) by {
        if is_catch_all(pat[0]) {
            assert(pat.len() == 1);
        }
    }
    if j == 0 {
        assert forall|x: int| 0 <= x < rest.len() && is_param(#[trigger] rest[x]) implies rest[x].drop_first()
            != name by {
            assert(rest[x] == pat[x + 1]);
            if rest[x].drop_first() == name {
                assert(name == pat[0].drop_first());
                assert(pat[0].len() > 0);
                assert(rest[x].len() > 0);
                assert(rest[x].drop_first().len() == pat[0].drop_first().len());
                assert(rest[x].len() == pat[0].len());
                assert forall|k: int| 0 <= k < rest[x].len() implies rest[x][k] == pat[0][k] by {
                    if k > 0 {
                        assert(rest[x][k] == rest[x].drop_first()[k - 1]);
                        assert(pat[0][k] == pat[0].drop_first()[k - 1]);
                    }
                }
                assert(rest[x] =~= pat[0]);
            }
        }
        lemma_captured_keeps(rest, req.drop_first(), ps.insert(name, req[0]), name);
    } else {
        assert(rest[j - 1] == pat[j]);
        assert forall|x: int| j - 1 < x < rest.len() implies #[trigger] rest[x] != rest[j - 1] by {
            assert(rest[x] == pat[x + 1]);
        }
        lemma_fits_len(rest, req.drop_first());
        assert(req.drop_first()[j - 1] == req[j]);
        if is_param(pat[0]) {
            lemma_captured_at(rest, req.drop_first(), ps.insert(pat[0].drop_first(), req[0]), j - 1);
        } else {
            lemma_captured_at(rest, req.drop_first(), ps, j - 1);
        }
    }
}

/// A registered route answers every request that its pattern matches, with
/// its handler and the parameters that its `:name` segments take from the
/// request.
pub proof fn lemma_registered_route_answers<H, M>(
    r: Router<H, M>,
    method: Seq<char>,
    pattern: Seq<char>,
    handler: H,
    req_method: Seq<char>,
    req_path: Seq<char>,
)
    requires
        r.wf(),
        serves(r.trie(), route_key(method, pattern), handler),
        fits(route_key(method, pattern), route_key(req_method, req_path)),
    ensures
        resolve(r.trie(), route_key(req_method, req_path)) == Some(
            (
                handler,
                captured(
                    route_key(method, pattern),
                    route_key(req_method, req_path),
                    Map::empty(),
                ),
            ),
        ),
{
    r.lemma_wf();
    lemma_resolve_stored(r.trie(), route_key(method, pattern), handler, route_key(req_method, req_path));
}

/// A registered route without `:name` or `*` segments answers a request with
/// exactly its method and path, with no parameters.
pub proof fn lemma_literal_route_answers<H, M>(
    r: Router<H, M>,
    method: Seq<char>,
    pattern: Seq<char>,
    handler: H,
)
    requires
        r.wf(),
        serves(r.trie(), route_key(method, pattern), handler),
        forall|i: int|
            0 <= i < route_key(method, pattern).len() ==> !is_open(
                #[trigger] route_key(method, pattern)[i],
            ),
    ensures
        resolve(r.trie(), route_key(method, pattern)) == Some(
            (handler, Map::<Seq<char>, Seq<char>>::empty()),
        ),
{
    lemma_literal_fits(route_key(method, pattern), Map::empty());
    lemma_registered_route_answers(r, method, pattern, handler, method, pattern);
}

/// Where a registered pattern has `:name` at segment `j` (and not again
/// later), a request that it matches is answered with the request's segment
/// `j` recorded under `name`.
pub proof fn lemma_param_recorded<H, M>(
    r: Router<H, M>,
    method: Seq<char>,
    pattern: Seq<char>,
    handler: H,
    req_method: Seq<char>,
    req_path: Seq<char>,
    j: int,
)
    requires
        r.wf(),
        serves(r.trie(), route_key(method, pattern), handler),
        fits(route_key(method, pattern), route_key(req_method, req_path)),
        0 <= j < route_key(method, pattern).len(),
        is_param(route_key(method, pattern)[j]),
        forall|x: int|
            j < x < route_key(method, pattern).len() ==> #[trigger] route_key(method, pattern)[x]
                != route_key(method, pattern)[j],
    ensures
        ({
            let name = route_key(method, pattern)[j].drop_first();
            let found = resolve(r.trie(), route_key(req_method, req_path));
            found matches Some(m) && m.0 == handler && m.1.contains_key(name) && m.1[name]
                == route_key(req_method, req_path)[j]
        }),
{
    lemma_registered_route_answers(r, method, pattern, handler, req_method, req_path);
    lemma_captured_at(route_key(method, pattern), route_key(req_method, req_path), Map::empty(), j);
}

/// A registered pattern whose segments are literal but a final `*` answers
/// every request that starts with its literal segments, however many segments
/// follow, with no parameters. Where none follow, this holds as long as no
/// route is registered for the literal segments alone.
pub proof fn lemma_catch_all_answers<H, M>(
    r: Router<H, M>,
    method: Seq<char>,
    pattern: Seq<char>,
    handler: H,
    extra: Seq<Seq<char>>,
)
    requires
        r.wf(),
        serves(r.trie(), route_key(method, pattern), handler),
        is_catch_all(route_key(method, pattern).last()),
        forall|i: int|
            0 <= i < route_key(method, pattern).len() - 1 ==> !is_open(
                #[trigger] route_key(method, pattern)[i],
            ),
        extra.len() == 0 ==> forall|h2: H| !serves(r.trie(), route_key(method, pattern).drop_last(), h2),
    ensures
        resolve(r.trie(), route_key(method, pattern).drop_last() + extra) == Some(
            (handler, Map::<Seq<char>, Seq<char>>::empty()),
        ),
{
    let key = route_key(method, pattern);
    lemma_split_nonempty(method + seq!['/'] + trimmed(pattern));
    r.lemma_wf();
    if extra.len() >= 1 {
        lemma_catch_all_fits(key, extra, Map::empty());
        lemma_resolve_stored(r.trie(), key, handler, key.drop_last() + extra);
    } else {
        let pre = key.drop_last();
        assert(pre + extra =~= pre);
        assert forall|i: int| 0 <= i < pre.len() implies !is_open(#[trigger] pre[i]) by {
            assert(pre[i] == key[i]);
        }
        lemma_literal_fits(pre, Map::empty());
        lemma_resolve_catch_all_empty(r.trie(), key, handler, pre);
    }
}

/// At every node, a literal edge that matches the segment is taken before any
/// open edge.
pub proof fn lemma_literal_first<H, M>(
    r: Router<H, M>,
    node: usize,
    seg: Seq<char>,
    rest: Seq<Seq<char>>,
    params: Map<Seq<char>, Seq<char>>,
    child: usize,
)
    requires
        r.wf(),
        node < r.trie().len(),
        find_child(r.trie()[node as int].children, seg) == Some(child),
    ensures
        walk(r.trie(), node, seq![seg] + rest, params) == walk(r.trie(), child, rest, params),
{
    assert((seq![seg] + rest)[0] == seg);
    assert((seq![seg] + rest).drop_first() =~= rest);
}

/// Registering a method and pattern that are already registered fails as a
/// duplicate: the first handler is never replaced.
pub proof fn lemma_duplicate_refused<H, M>(
    r: Router<H, M>,
    method: Seq<char>,
    pattern: Seq<char>,
    handler: H,
)
    requires
        r.wf(),
        serves(r.trie(), route_key(method, pattern), handler),
    ensures
        conflict(r.trie(), 0, route_key(method, pattern)) == Some(RouteError::DuplicateHandler),
{
    r.lemma_wf();
    lemma_stored_is_duplicate(r.trie(), route_key(method, pattern), handler);
}

/// Registering a pattern that agrees with a registered one before segment `j`
/// and differs from it there, where either has `:name` or `*`, fails: two
/// open segments spelled differently are ambiguous, and a literal cannot stand
/// beside an open segment.
pub proof fn lemma_diverging_refused<H, M>(
    r: Router<H, M>,
    method: Seq<char>,
    pattern: Seq<char>,
    handler: H,
    other_method: Seq<char>,
    other_pattern: Seq<char>,
    j: int,
)
    requires
        r.wf(),
        serves(r.trie(), route_key(method, pattern), handler),
        0 <= j < route_key(method, pattern).len(),
        j < route_key(other_method, other_pattern).len(),
        forall|x: int|
            0 <= x < j ==> #[trigger] route_key(other_method, other_pattern)[x] == route_key(
                method,
                pattern,
            )[x],
        route_key(other_method, other_pattern)[j] != route_key(method, pattern)[j],
        is_open(route_key(method, pattern)[j]) || is_open(route_key(other_method, other_pattern)[j]),
    ensures
        conflict(r.trie(), 0, route_key(other_method, other_pattern)) == Some(
            diverge_error(route_key(method, pattern)[j], route_key(other_method, other_pattern)[j]),
        ),
        is_param(route_key(method, pattern)[j]) && is_param(
            route_key(other_method, other_pattern)[j],
        ) ==> conflict(r.trie(), 0, route_key(other_method, other_pattern)) == Some(
            RouteError::AmbiguousParam,
        ),
{
    r.lemma_wf();
    lemma_diverging_conflicts(
        r.trie(),
        route_key(method, pattern),
        handler,
        route_key(other_method, other_pattern),
        j,
    );
}

} // verus!
