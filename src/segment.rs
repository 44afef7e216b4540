use vstd::prelude::*;
use vstd::string::*;

verus! {

/// The text of a pattern or path with one leading and one trailing `/` removed,
/// where present.
pub open spec fn trimmed(p: Seq<char>) -> Seq<char> {
    let a = if p.len() > 0 && p[0] == '/' {
        p.drop_first()
    } else {
        p
    };
    if a.len() > 0 && a.last() == '/' {
        a.drop_last()
    } else {
        a
    }
}

/// The pieces of `s` between its `/` characters, empty ones included: always at
/// least one piece.
pub open spec fn split_slash(s: Seq<char>) -> Seq<Seq<char>>
    decreases s.len(),
{
    if s.len() == 0 {
        seq![Seq::<char>::empty()]
    } else {
        let prev = split_slash(s.drop_last());
        if s.last() == '/' {
            prev.push(Seq::<char>::empty())
        } else {
            prev.update(prev.len() - 1, prev.last().push(s.last()))
        }
    }
}

/// The segments under which a route is stored and looked up: the method, then
/// the pieces of the trimmed path.
pub open spec fn route_key(method: Seq<char>, path: Seq<char>) -> Seq<Seq<char>> {
    split_slash(method + seq!['/'] + trimmed(path))
}

/// The text of each string.
pub open spec fn texts(v: Seq<String>) -> Seq<Seq<char>> {
    v.map_values(|x: String| x@)
}

pub proof fn lemma_split_nonempty(s: Seq<char>)
    ensures
        split_slash(s).len() >= 1,
    decreases s.len(),
{
    if s.len() > 0 {
        lemma_split_nonempty(s.drop_last());
    }
}

/// Removes one leading and one trailing `/` from a pattern or path, where present.
pub fn trim_path(pattern: &str) -> (r: String)
    ensures
        r@ == trimmed(pattern@),
{
    let n = pattern.unicode_len();
    let mut from: usize = 0;
    let mut to: usize = n;
    if n > 0 && pattern.get_char(0) == '/' {
        from = 1;
    }
    if to > from && pattern.get_char(to - 1) == '/' {
        to = to - 1;
    }
    let r = String::from_str(pattern.substring_char(from, to));
    assert(r@ =~= trimmed(pattern@));
    r
}

/// Splits `s` at every `/`, as `str::split("/")` does.
pub fn split_segments(s: &str) -> (r: Vec<String>)
    ensures
        texts(r@) == split_slash(s@),
{
    let n = s.unicode_len();
    let mut segs: Vec<String> = Vec::new();
    let mut start: usize = 0;
    let mut i: usize = 0;
    assert(s@.take(0) =~= Seq::<char>::empty());
    assert(s@.subrange(0, 0) =~= Seq::<char>::empty());
    assert(texts(segs@) =~= Seq::<Seq<char>>::empty());
    assert(texts(segs@).push(s@.subrange(0, 0)) =~= split_slash(s@.take(0)));
    while i < n
        invariant
            n == s@.len(),
            start <= i <= n,
            texts(segs@).push(s@.subrange(start as int, i as int)) == split_slash(
                s@.take(i as int),
            ),
        decreases n - i,
    {
        let c = s.get_char(i);
        let ghost before = texts(segs@);
        let ghost old_start = start;
        assert(s@.take(i + 1).drop_last() == s@.take(i as int));
        assert(s@.take(i + 1).last() == c);
        if c == '/' {
            segs.push(String::from_str(s.substring_char(start, i)));
            start = i + 1;
            assert(texts(segs@) =~= before.push(s@.subrange(old_start as int, i as int)));
            assert(s@.subrange(start as int, i + 1) =~= Seq::<char>::empty());
        } else {
            assert(s@.subrange(start as int, i + 1) =~= s@.subrange(start as int, i as int).push(
                c,
            ));
        }
        i = i + 1;
        assert(texts(segs@).push(s@.subrange(start as int, i as int)) =~= split_slash(
            s@.take(i as int),
        ));
    }
    segs.push(String::from_str(s.substring_char(start, n)));
    assert(s@.take(n as int) =~= s@);
    assert(texts(segs@) =~= split_slash(s@));
    segs
}

} // verus!
