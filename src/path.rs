use vstd::prelude::*;
use vstd::string::*;

verus! {

/// The characters after the last `/` of `p` (all of `p` when it has none).
pub open spec fn trailing_run(p: Seq<char>) -> Seq<char>
    decreases p.len(),
{
    if p.len() == 0 {
        p
    } else if p.last() == '/' {
        Seq::empty()
    } else {
        trailing_run(p.drop_last()).push(p.last())
    }
}

/// The non-empty runs of characters other than `/` that are closed by a `/`
/// in `p`, in order.
pub open spec fn closed_runs(p: Seq<char>) -> Seq<Seq<char>>
    decreases p.len(),
{
    if p.len() == 0 {
        Seq::empty()
    } else if p.last() == '/' {
        let t = trailing_run(p.drop_last());
        if t.len() == 0 {
            closed_runs(p.drop_last())
        } else {
            closed_runs(p.drop_last()).push(t)
        }
    } else {
        closed_runs(p.drop_last())
    }
}

/// The segments of a path: its maximal non-empty runs of characters other
/// than `/`, in order. Leading, trailing and repeated slashes name nothing.
pub open spec fn segments(p: Seq<char>) -> Seq<Seq<char>> {
    let t = trailing_run(p);
    if t.len() == 0 {
        closed_runs(p)
    } else {
        closed_runs(p).push(t)
    }
}

/// The character values of a sequence of strings.
pub open spec fn string_views(v: Seq<String>) -> Seq<Seq<char>> {
    v.map_values(|s: String| s@)
}

/// Splits a path into its segments.
pub fn parse_path(path: &str) -> (r: Vec<String>)
    ensures
        string_views(r@) == segments(path@),
{
    let n = path.unicode_len();
    let mut out: Vec<String> = Vec::new();
    let mut start: usize = 0;
    let mut i: usize = 0;
    while i < n
        invariant
            n == path@.len(),
            start <= i <= n,
            string_views(out@) == closed_runs(path@.subrange(0, i as int)),
            path@.subrange(start as int, i as int) == trailing_run(path@.subrange(0, i as int)),
        decreases n - i,
    {
        let c = path.get_char(i);
        let ghost before = path@.subrange(0, i as int);
        let ghost after = path@.subrange(0, i + 1);
        assert(after.drop_last() == before);
        if c == '/' {
            if start < i {
                let seg = path.substring_char(start, i).to_owned();
                out.push(seg);
                assert(string_views(out@) == string_views(out@.drop_last()).push(seg@));
            }
            start = i + 1;
            assert(path@.subrange(start as int, i + 1) == Seq::<char>::empty());
        } else {
            assert(path@.subrange(start as int, i + 1) == path@.subrange(
                start as int,
                i as int,
            ).push(c));
        }
        i = i + 1;
    }
    assert(path@.subrange(0, n as int) == path@);
    if start < n {
        let seg = path.substring_char(start, n).to_owned();
        out.push(seg);
        assert(string_views(out@) == string_views(out@.drop_last()).push(seg@));
    }
    out
}

} // verus!
