use vstd::prelude::*;
use vstd::string::*;

use crate::context::Route;
use crate::segment::{split_segments, split_slash, texts};
use crate::tree::is_param;

verus! {

/// Pattern segments `ms` match path segments `ps` one for one: a `:name`
/// segment matches any segment, any other segment only itself.
pub open spec fn segments_match(ms: Seq<Seq<char>>, ps: Seq<Seq<char>>) -> bool {
    &&& ms.len() == ps.len()
    &&& forall|i: int| 0 <= i < ms.len() ==> is_param(#[trigger] ms[i]) || ms[i] == ps[i]
}

/// The parameters that the first `n` segments of a match record: each `:name`
/// segment records the path segment beside it, a later one replacing an earlier
/// one with the same name.
pub open spec fn linear_params(ms: Seq<Seq<char>>, ps: Seq<Seq<char>>, n: nat) -> Map<
    Seq<char>,
    Seq<char>,
>
    decreases n,
{
    if n == 0 {
        Map::empty()
    } else {
        let prev = linear_params(ms, ps, (n - 1) as nat);
        if is_param(ms[n - 1]) {
            prev.insert(ms[n - 1].drop_first(), ps[n - 1])
        } else {
            prev
        }
    }
}

/// The parameters of a path matched against a pattern segment by segment.
pub struct Path {
    params: Route,
}

impl View for Path {
    type V = Map<Seq<char>, Seq<char>>;

    closed spec fn view(&self) -> Map<Seq<char>, Seq<char>> {
        self.params@
    }
}

impl Path {
    /// Matches `path` against `pattern`, both split at every `/` with nothing
    /// trimmed: `None` where the numbers of segments differ or a segment that is
    /// not `:name` differs from the path's; else the parameters recorded.
    pub fn new(pattern: &String, path: &str) -> (r: Option<Path>)
        ensures
            ({
                let ms = split_slash(pattern@);
                let ps = split_slash(path@);
                &&& r is Some <==> segments_match(ms, ps)
                &&& r is Some ==> r->0@ == linear_params(ms, ps, ms.len())
            }),
    {
        let match_segments = split_segments(pattern.as_str());
        let path_segments = split_segments(path);
        let ghost ms = split_slash(pattern@);
        let ghost ps = split_slash(path@);
        if match_segments.len() != path_segments.len() {
            return None;
        }
        let mut params = Route::new();
        let mut i: usize = 0;
        while i < match_segments.len()
            invariant
                texts(match_segments@) == ms,
                texts(path_segments@) == ps,
                ms == split_slash(pattern@),
                ps == split_slash(path@),
                ms.len() == ps.len(),
                i <= ms.len(),
                params.wf(),
                params@ == linear_params(ms, ps, i as nat),
                forall|j: int| 0 <= j < i ==> is_param(#[trigger] ms[j]) || ms[j] == ps[j],
            decreases ms.len() - i,
        {
            let m = &match_segments[i];
            let p = &path_segments[i];
            assert(m@ == ms[i as int] && p@ == ps[i as int]);
            let t = m.as_str();
            let n = t.unicode_len();
            if n > 0 && t.get_char(0) == ':' {
                let name = String::from_str(t.substring_char(1, n));
                assert(name@ =~= ms[i as int].drop_first());
                params.insert(name, p.clone());
            } else if *m == *p {
            } else {
                assert(!is_param(ms[i as int]) && ms[i as int] != ps[i as int]);
                return None;
            }
            i = i + 1;
        }
        Some(Path { params })
    }

    /// The value recorded under `key`, read as a `T`.
    pub fn get<T: std::str::FromStr>(&self, key: &str) -> (r: Result<T, &'static str>)
        ensures
            !self@.contains_key(key@) ==> (r matches Err(e) && e@ == "value does not exist"@),
            self@.contains_key(key@) ==> (r is Ok || (r matches Err(e) && e@
                == "value wrong type"@)),
    {
        self.params.get(key)
    }
}

} // verus!
