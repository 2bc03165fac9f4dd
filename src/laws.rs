use vstd::prelude::*;

use crate::json::{
    lemma_key_pos, lemma_put_member, lemma_without_absent_member, lemma_without_member,
    member, put_member, JsonView,
};
use crate::path::{closed_runs, segments, trailing_run};
use crate::storage::{child_or_empty, conflict, delete_path, lookup, put_path};

verus! {

/// Only an object has anything below it.
proof fn lemma_lookup_below(j: JsonView, segs: Seq<Seq<char>>)
    requires
        segs.len() > 0,
        lookup(j, segs) is Some,
    ensures
        j is Object,
{
}

/// A node that can be read has only objects above it.
proof fn lemma_found_has_no_conflict(root: JsonView, segs: Seq<Seq<char>>)
    requires
        segs.len() > 0,
        lookup(root, segs) is Some,
    ensures
        conflict(root, segs.drop_last()) is None,
    decreases segs.len(),
{
    if segs.len() > 1 {
        assert(segs.drop_last()[0] == segs[0]);
        let es = root->Object_0;
        let c = member(es, segs[0])->Some_0;
        let rest = segs.drop_first();
        lemma_lookup_below(c, rest);
        lemma_found_has_no_conflict(c, rest);
        assert(segs.drop_last().drop_first() =~= rest.drop_last());
    }
}

/// An empty object stands in the way of nothing.
proof fn lemma_empty_has_no_conflict(segs: Seq<Seq<char>>)
    ensures
        conflict(JsonView::Object(Seq::empty()), segs) is None,
{
    if segs.len() > 0 {
        lemma_key_pos(Seq::empty(), segs[0]);
    }
}

/// Where a write can go through, reading the path back gives the value
/// written.
pub proof fn lemma_get_after_update(root: JsonView, segs: Seq<Seq<char>>, v: JsonView)
    requires
        root is Object,
        segs.len() > 0,
        conflict(root, segs.drop_last()) is None,
    ensures
        lookup(put_path(root, segs, v), segs) == Some(v),
    decreases segs.len(),
{
    let es = root->Object_0;
    let k = segs[0];
    let rest = segs.drop_first();
    let child = child_or_empty(es, k);
    lemma_put_member(es, k, put_path(child, rest, v));
    if rest.len() == 0 {
        assert(put_path(child, rest, v) == v);
    } else {
        assert(segs.drop_last()[0] == k);
        assert(segs.drop_last().drop_first() =~= rest.drop_last());
        lemma_empty_has_no_conflict(rest.drop_last());
        lemma_get_after_update(child, rest, v);
    }
}

/// A member that is there can be deleted, and after that reading its path
/// finds nothing.
pub proof fn lemma_get_after_delete(root: JsonView, segs: Seq<Seq<char>>)
    requires
        segs.len() > 0,
        lookup(root, segs) is Some,
    ensures
        conflict(root, segs.drop_last()) is None,
        lookup(delete_path(root, segs), segs) is None,
    decreases segs.len(),
{
    lemma_found_has_no_conflict(root, segs);
    let es = root->Object_0;
    let k = segs[0];
    let rest = segs.drop_first();
    if segs.len() == 1 {
        lemma_without_member(es, k);
    } else {
        let c = member(es, k)->Some_0;
        lemma_lookup_below(c, rest);
        lemma_put_member(es, k, delete_path(c, rest));
        lemma_get_after_delete(c, rest);
    }
}

/// Deleting a member that is absent from an existing object changes
/// nothing.
pub proof fn lemma_delete_absent(root: JsonView, segs: Seq<Seq<char>>)
    requires
        segs.len() > 0,
        lookup(root, segs.drop_last()) matches Some(parent) && parent is Object,
        lookup(root, segs) is None,
    ensures
        delete_path(root, segs) == root,
    decreases segs.len(),
{
    if segs.len() == 1 {
        assert(segs.drop_last().len() == 0);
        let es = root->Object_0;
        assert(segs.drop_first().len() == 0);
        if let Some(c) = member(es, segs[0]) {
            assert(lookup(c, segs.drop_first()) == Some(c));
        }
        lemma_key_pos(es, segs[0]);
        lemma_without_absent_member(es, segs[0]);
    } else {
        let es = root->Object_0;
        let k = segs[0];
        let rest = segs.drop_first();
        let c = member(es, k)->Some_0;
        assert(segs.drop_last().drop_first() =~= rest.drop_last());
        if rest.drop_last().len() > 0 {
            lemma_lookup_below(c, rest.drop_last());
        }
        lemma_delete_absent(c, rest);
        lemma_key_pos(es, k);
        assert(put_member(es, k, c) =~= es);
    }
}

proof fn lemma_leading_slash(p: Seq<char>)
    ensures
        trailing_run(seq!['/'] + p) == trailing_run(p),
        closed_runs(seq!['/'] + p) == closed_runs(p),
    decreases p.len(),
{
    let q = seq!['/'] + p;
    if p.len() == 0 {
        assert(q.drop_last() =~= Seq::<char>::empty());
    } else {
        assert(q.drop_last() =~= seq!['/'] + p.drop_last());
        lemma_leading_slash(p.drop_last());
    }
}

proof fn lemma_double_slash(a: Seq<char>, b: Seq<char>)
    ensures
        trailing_run(a + seq!['/', '/'] + b) == trailing_run(a + seq!['/'] + b),
        closed_runs(a + seq!['/', '/'] + b) == closed_runs(a + seq!['/'] + b),
    decreases b.len(),
{
    let x = a + seq!['/', '/'] + b;
    let y = a + seq!['/'] + b;
    if b.len() == 0 {
        assert(x.drop_last() =~= y);
        assert(y.drop_last() =~= a);
        assert(x =~= y.push('/'));
    } else {
        assert(x.drop_last() =~= a + seq!['/', '/'] + b.drop_last());
        assert(y.drop_last() =~= a + seq!['/'] + b.drop_last());
        lemma_double_slash(a, b.drop_last());
    }
}

/// Slashes at either end of a path, and a slash repeated inside it, do not
/// change its segments; so every operation treats such paths alike.
pub proof fn lemma_path_normalization(a: Seq<char>, b: Seq<char>)
    ensures
        segments(seq!['/'] + a) == segments(a),
        segments(a.push('/')) == segments(a),
        segments(a + seq!['/', '/'] + b) == segments(a + seq!['/'] + b),
{
    lemma_leading_slash(a);
    lemma_double_slash(a, b);
    assert(a.push('/').drop_last() =~= a);
}

} // verus!
