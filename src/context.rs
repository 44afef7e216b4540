use std::rc::Rc;
use vstd::prelude::*;
use vstd::string::*;

use crate::message::Request;

verus! {

/// The map that a list of name/value pairs stands for, a later pair replacing
/// an earlier one with the same name.
pub open spec fn pairs_map(s: Seq<(Seq<char>, Seq<char>)>) -> Map<Seq<char>, Seq<char>>
    decreases s.len(),
{
    if s.len() == 0 {
        Map::empty()
    } else {
        pairs_map(s.drop_last()).insert(s.last().0, s.last().1)
    }
}

/// The text of each name and value.
pub open spec fn pair_texts(v: Seq<(String, String)>) -> Seq<(Seq<char>, Seq<char>)> {
    v.map_values(|p: (String, String)| (p.0@, p.1@))
}

/// No two pairs carry the same name.
pub open spec fn names_unique(s: Seq<(Seq<char>, Seq<char>)>) -> bool {
    forall|i: int, j: int| 0 <= i < j < s.len() ==> s[i].0 != s[j].0
}

/// Relies on `Rc::clone`: the new pointer shares the allocation, so it points
/// to the same value.
#[verifier::external_body]
pub(crate) fn share<T>(rc: &Rc<T>) -> (r: Rc<T>)
    ensures
        r == *rc,
{
    Rc::clone(rc)
}

/// Relies on `str::parse`: which text a type accepts is up to its `FromStr`
/// impl, so nothing is claimed of the result.
#[verifier::external_body]
fn parse_value<T: std::str::FromStr>(s: &str) -> Option<T> {
    s.parse::<T>().ok()
}

/// The name under which serde_urlencoded writes a list of pairs: the text
/// depends on the pairs alone.
pub uninterp spec fn urlencoded(pairs: Seq<(Seq<char>, Seq<char>)>) -> Seq<char>;

#[verifier::external_type_specification]
#[verifier::external_body]
pub struct ExSerError(serde_urlencoded::ser::Error);

/// Relies on `serde_urlencoded::to_string`: a list of string pairs is written
/// as `application/x-www-form-urlencoded` text, determined by the pairs. Its
/// pair serializer refuses only keys and values that are not strings, and a
/// tuple of other than two elements, so string pairs always succeed.
#[verifier::external_body]
fn encode_pairs(pairs: &Vec<(String, String)>) -> (r: Result<String, serde_urlencoded::ser::Error>)
    ensures
        r is Ok,
        r is Ok ==> r->Ok_0@ == urlencoded(pair_texts(pairs@)),
{
    serde_urlencoded::to_string(pairs)
}

pub proof fn lemma_pairs_map_update(s: Seq<(Seq<char>, Seq<char>)>, j: int, v: Seq<char>)
    requires
        names_unique(s),
        0 <= j < s.len(),
    ensures
        pairs_map(s.update(j, (s[j].0, v))) == pairs_map(s).insert(s[j].0, v),
    decreases s.len(),
{
    let u = s.update(j, (s[j].0, v));
    if j == s.len() - 1 {
        assert(u.drop_last() =~= s.drop_last());
        assert(pairs_map(u) =~= pairs_map(s).insert(s[j].0, v));
    } else {
        assert(u.drop_last() =~= s.drop_last().update(j, (s[j].0, v)));
        lemma_pairs_map_update(s.drop_last(), j, v);
        assert(s.last().0 != s[j].0);
        assert(pairs_map(u) =~= pairs_map(s).insert(s[j].0, v));
    }
}

/// The parameters taken from a request's path: a map from name to value.
pub struct Route {
    params: Vec<(String, String)>,
}

impl View for Route {
    type V = Map<Seq<char>, Seq<char>>;

    closed spec fn view(&self) -> Map<Seq<char>, Seq<char>> {
        pairs_map(pair_texts(self.params@))
    }
}

impl Route {
    /// The pairs, in the order in which their names were first recorded.
    pub closed spec fn pairs(&self) -> Seq<(Seq<char>, Seq<char>)> {
        pair_texts(self.params@)
    }

    /// The map is the one that the pairs stand for, and their names are unique.
    pub proof fn lemma_pairs(&self)
        requires
            self.wf(),
        ensures
            self@ == pairs_map(self.pairs()),
            names_unique(self.pairs()),
    {
    }

    /// The names are kept unique.
    pub closed spec fn wf(&self) -> bool {
        names_unique(pair_texts(self.params@))
    }

    /// No parameters.
    pub fn new() -> (r: Route)
        ensures
            r.wf(),
            r@ == Map::<Seq<char>, Seq<char>>::empty(),
    {
        let r = Route { params: Vec::new() };
        assert(pair_texts(r.params@) =~= Seq::<(Seq<char>, Seq<char>)>::empty());
        r
    }

    /// The parameters of `params`, a later pair replacing an earlier one with
    /// the same name.
    pub fn from_params(params: Vec<(String, String)>) -> (r: Route)
        ensures
            r.wf(),
            r@ == pairs_map(pair_texts(params@)),
    {
        let mut r = Route::new();
        let mut i: usize = 0;
        while i < params.len()
            invariant
                i <= params@.len(),
                r.wf(),
                r@ == pairs_map(pair_texts(params@.take(i as int))),
            decreases params@.len() - i,
        {
            let name = params[i].0.clone();
            let value = params[i].1.clone();
            r.insert(name, value);
            assert(pair_texts(params@.take(i + 1)).drop_last() =~= pair_texts(
                params@.take(i as int),
            ));
            i = i + 1;
        }
        assert(params@.take(i as int) =~= params@);
        r
    }

    /// Records `value` under `name`, replacing what was there.
    pub fn insert(&mut self, name: String, value: String)
        requires
            old(self).wf(),
        ensures
            final(self).wf(),
            final(self)@ == old(self)@.insert(name@, value@),
    {
        let ghost ps = pair_texts(self.params@);
        let mut i: usize = 0;
        while i < self.params.len()
            invariant
                i <= self.params@.len(),
                ps == pair_texts(self.params@),
                old(self)@ == pairs_map(ps),
                names_unique(ps),
                forall|j: int| 0 <= j < i ==> ps[j].0 != name@,
            decreases self.params@.len() - i,
        {
            if self.params[i].0 == name {
                assert(ps[i as int].0 == name@);
                self.params.set(i, (name, value));
                proof {
                    assert(pair_texts(self.params@) =~= ps.update(i as int, (ps[i as int].0, value@)));
                    lemma_pairs_map_update(ps, i as int, value@);
                }
                return;
            }
            i = i + 1;
        }
        let ghost nv = (name@, value@);
        self.params.push((name, value));
        assert(pair_texts(self.params@) =~= ps.push(nv));
        assert(pair_texts(self.params@).drop_last() =~= ps);
    }

    /// The value recorded under `key`, if any.
    pub fn lookup(&self, key: &str) -> (r: Option<&String>)
        ensures
            match r {
                Some(v) => self@.contains_key(key@) && self@[key@] == v@,
                None => !self@.contains_key(key@),
            },
    {
        let k = String::from_str(key);
        let ghost ps = pair_texts(self.params@);
        let mut i: usize = self.params.len();
        assert(ps.take(i as int) =~= ps);
        while i > 0
            invariant
                i <= self.params@.len(),
                ps == pair_texts(self.params@),
                k@ == key@,
                pairs_map(ps).contains_key(key@) == pairs_map(ps.take(i as int)).contains_key(
                    key@,
                ),
                pairs_map(ps).contains_key(key@) ==> pairs_map(ps)[key@] == pairs_map(
                    ps.take(i as int),
                )[key@],
            decreases i,
        {
            i = i - 1;
            assert(ps.take(i + 1).drop_last() =~= ps.take(i as int));
            assert(ps.take(i + 1).last() == ps[i as int]);
            if self.params[i].0 == k {
                return Some(&self.params[i].1);
            }
        }
        assert(ps.take(0) =~= Seq::<(Seq<char>, Seq<char>)>::empty());
        None
    }

    /// The value recorded under `key`, read as a `T`.
    pub fn get<T: std::str::FromStr>(&self, key: &str) -> (r: Result<T, &'static str>)
        ensures
            !self@.contains_key(key@) ==> (r matches Err(e) && e@ == "value does not exist"@),
            self@.contains_key(key@) ==> (r is Ok || (r matches Err(e) && e@
                == "value wrong type"@)),
    {
        match self.lookup(key) {
            Some(s) => match parse_value::<T>(s.as_str()) {
                Some(v) => Ok(v),
                None => Err("value wrong type"),
            },
            None => Err("value does not exist"),
        }
    }

    /// The parameters written as `application/x-www-form-urlencoded` text.
    pub fn encoded(&self) -> (r: String)
        ensures
            r@ == urlencoded(self.pairs()),
    {
        match encode_pairs(&self.params) {
            Ok(s) => s,
            Err(_) => String::new(),
        }
    }
}

/// What a handler and each middleware receive: the application's state, the
/// parameters taken from the path, and the inbound request where there is one.
pub struct Context<S> {
    pub state: S,
    pub route: Rc<Route>,
    pub req: Option<Rc<Request>>,
}

impl<S> Context<S> {
    /// A context with the same parameters and request as this one, and the
    /// given state.
    pub fn with(&self, state: S) -> (r: Context<S>)
        ensures
            r.state == state,
            r.route == self.route,
            r.req == self.req,
    {
        let req = match &self.req {
            Some(q) => Some(share(q)),
            None => None,
        };
        Context { state, route: share(&self.route), req }
    }

    /// A context with no parameters, no request, and the given state.
    pub fn empty(state: S) -> (r: Context<S>)
        ensures
            r.state == state,
            r.route@ == Map::<Seq<char>, Seq<char>>::empty(),
            r.route.wf(),
            r.req is None,
    {
        Context { state, route: Rc::new(Route::new()), req: None }
    }

    /// The query of the request, or the empty string where it has none;
    /// `None` where the context carries no request.
    pub fn query_string(&self) -> (r: Option<&str>)
        ensures
            match self.req {
                Some(q) => (r matches Some(s) && s@ == match q.query {
                    Some(t) => t@,
                    None => Seq::<char>::empty(),
                }),
                None => r is None,
            },
    {
        match &self.req {
            Some(q) => Some(q.query_or_empty()),
            None => None,
        }
    }
}

} // verus!
