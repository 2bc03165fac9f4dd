use vstd::prelude::*;

verus! {

/// A JSON document node.
///
/// Numbers are kept as the text of their canonical rendering, so that no
/// floating-point value ever enters the tree. Object members keep their order.
#[derive(Debug, PartialEq, Eq)]
pub enum Json {
    Null,
    Bool(bool),
    Number(String),
    Str(String),
    Array(Vec<Json>),
    Object(Vec<(String, Json)>),
}

/// The mathematical value of a [`Json`] node.
pub enum JsonView {
    Null,
    Bool(bool),
    Number(Seq<char>),
    Str(Seq<char>),
    Array(Seq<JsonView>),
    Object(Seq<(Seq<char>, JsonView)>),
}

/// The mathematical value of one node.
pub open spec fn json_view(j: Json) -> JsonView
    decreases j,
{
    match j {
        Json::Null => JsonView::Null,
        Json::Bool(b) => JsonView::Bool(b),
        Json::Number(n) => JsonView::Number(n@),
        Json::Str(s) => JsonView::Str(s@),
        Json::Array(items) => JsonView::Array(items_view(items@)),
        Json::Object(entries) => JsonView::Object(entries_view(entries@)),
    }
}

/// The values of a sequence of array items, in order.
pub open spec fn items_view(items: Seq<Json>) -> Seq<JsonView>
    decreases items,
{
    if items.len() == 0 {
        Seq::empty()
    } else {
        items_view(items.subrange(0, items.len() - 1)).push(json_view(items[items.len() - 1]))
    }
}

/// The values of a sequence of object members, in order.
pub open spec fn entries_view(entries: Seq<(String, Json)>) -> Seq<(Seq<char>, JsonView)>
    decreases entries,
{
    if entries.len() == 0 {
        Seq::empty()
    } else {
        let last = entries[entries.len() - 1];
        entries_view(entries.subrange(0, entries.len() - 1)).push((last.0@, json_view(last.1)))
    }
}

impl View for Json {
    type V = JsonView;

    open spec fn view(&self) -> JsonView {
        json_view(*self)
    }
}

/// The position of the last member of `entries` whose key is `k`, among the
/// first `n`; -1 when there is none.
pub open spec fn key_pos_below(entries: Seq<(Seq<char>, JsonView)>, k: Seq<char>, n: int) -> int
    decreases n,
{
    if n <= 0 {
        -1
    } else if entries[n - 1].0 == k {
        n - 1
    } else {
        key_pos_below(entries, k, n - 1)
    }
}

/// The position of the member of an object with key `k`; -1 when absent.
pub open spec fn key_pos(entries: Seq<(Seq<char>, JsonView)>, k: Seq<char>) -> int {
    key_pos_below(entries, k, entries.len() as int)
}

/// The value held under key `k`, if any.
pub open spec fn member(entries: Seq<(Seq<char>, JsonView)>, k: Seq<char>) -> Option<JsonView> {
    let p = key_pos(entries, k);
    if p < 0 {
        None
    } else {
        Some(entries[p].1)
    }
}

/// The members with `k` bound to `v`: the existing member is replaced in place,
/// or a new one is added at the end.
pub open spec fn put_member(
    entries: Seq<(Seq<char>, JsonView)>,
    k: Seq<char>,
    v: JsonView,
) -> Seq<(Seq<char>, JsonView)> {
    let p = key_pos(entries, k);
    if p < 0 {
        entries.push((k, v))
    } else {
        entries.update(p, (k, v))
    }
}

/// The members without any whose key is `k`, the others in order.
pub open spec fn without_member(entries: Seq<(Seq<char>, JsonView)>, k: Seq<char>) -> Seq<
    (Seq<char>, JsonView),
>
    decreases entries.len(),
{
    if entries.len() == 0 {
        entries
    } else if entries.last().0 == k {
        without_member(entries.drop_last(), k)
    } else {
        without_member(entries.drop_last(), k).push(entries.last())
    }
}

pub proof fn lemma_entries_view(entries: Seq<(String, Json)>)
    ensures
        entries_view(entries).len() == entries.len(),
        forall|i: int|
            0 <= i < entries.len() ==> #[trigger] entries_view(entries)[i] == (
            entries[i].0@,
            json_view(entries[i].1),
        ),
    decreases entries.len(),
{
    if entries.len() > 0 {
        lemma_entries_view(entries.subrange(0, entries.len() - 1));
    }
}

pub proof fn lemma_key_pos_below(entries: Seq<(Seq<char>, JsonView)>, k: Seq<char>, n: int)
    requires
        0 <= n <= entries.len(),
    ensures
        -1 <= key_pos_below(entries, k, n) < n,
        key_pos_below(entries, k, n) >= 0 ==> entries[key_pos_below(entries, k, n)].0 == k,
        key_pos_below(entries, k, n) < 0 ==> forall|i: int| 0 <= i < n ==> entries[i].0 != k,
    decreases n,
{
    if n > 0 {
        lemma_key_pos_below(entries, k, n - 1);
    }
}

/// Where `k` stands in an object's members, if it does.
pub proof fn lemma_key_pos(entries: Seq<(Seq<char>, JsonView)>, k: Seq<char>)
    ensures
        -1 <= key_pos(entries, k) < entries.len(),
        key_pos(entries, k) >= 0 ==> entries[key_pos(entries, k)].0 == k,
        key_pos(entries, k) < 0 ==> forall|i: int| 0 <= i < entries.len() ==> entries[i].0 != k,
{
    lemma_key_pos_below(entries, k, entries.len() as int);
}

proof fn lemma_key_pos_below_same_keys(
    a: Seq<(Seq<char>, JsonView)>,
    b: Seq<(Seq<char>, JsonView)>,
    k: Seq<char>,
    n: int,
)
    requires
        0 <= n <= a.len(),
        n <= b.len(),
        forall|i: int| 0 <= i < n ==> a[i].0 == b[i].0,
    ensures
        key_pos_below(a, k, n) == key_pos_below(b, k, n),
    decreases n,
{
    if n > 0 {
        lemma_key_pos_below_same_keys(a, b, k, n - 1);
    }
}

/// Two member lists with the same keys in the same places find `k` alike.
pub proof fn lemma_key_pos_same_keys(
    a: Seq<(Seq<char>, JsonView)>,
    b: Seq<(Seq<char>, JsonView)>,
    k: Seq<char>,
)
    requires
        a.len() == b.len(),
        forall|i: int| 0 <= i < a.len() ==> a[i].0 == b[i].0,
    ensures
        key_pos(a, k) == key_pos(b, k),
{
    lemma_key_pos_below_same_keys(a, b, k, a.len() as int);
}

/// After binding `k`, the key is found holding the new value.
pub proof fn lemma_put_member(entries: Seq<(Seq<char>, JsonView)>, k: Seq<char>, v: JsonView)
    ensures
        member(put_member(entries, k, v), k) == Some(v),
{
    lemma_key_pos(entries, k);
    let p = key_pos(entries, k);
    let e = put_member(entries, k, v);
    if p < 0 {
        assert(e[entries.len() as int].0 == k);
    } else {
        lemma_key_pos_below_same_keys(entries, e, k, entries.len() as int);
    }
}

/// Once every member with key `k` is gone, `k` is absent.
pub proof fn lemma_without_member(entries: Seq<(Seq<char>, JsonView)>, k: Seq<char>)
    ensures
        key_pos(without_member(entries, k), k) < 0,
        member(without_member(entries, k), k) is None,
    decreases entries.len(),
{
    if entries.len() > 0 {
        lemma_without_member(entries.drop_last(), k);
        let w = without_member(entries.drop_last(), k);
        if entries.last().0 != k {
            let w2 = w.push(entries.last());
            lemma_key_pos(w, k);
            lemma_key_pos(w2, k);
            assert(w2.drop_last() == w);
            lemma_key_pos_below_same_keys(w, w2, k, w.len() as int);
        }
    }
}

/// Removing a key that is absent leaves the members as they are.
pub proof fn lemma_without_absent_member(entries: Seq<(Seq<char>, JsonView)>, k: Seq<char>)
    requires
        forall|i: int| 0 <= i < entries.len() ==> entries[i].0 != k,
    ensures
        without_member(entries, k) == entries,
    decreases entries.len(),
{
    if entries.len() > 0 {
        lemma_without_absent_member(entries.drop_last(), k);
        assert(entries.drop_last().push(entries.last()) == entries);
    }
}

/// Finds the position of the member with key `k`.
pub fn find_member(entries: &Vec<(String, Json)>, k: &String) -> (r: Option<usize>)
    ensures
        match r {
            Some(p) => p < entries.len() && key_pos(entries_view(entries@), k@) == p as int,
            None => key_pos(entries_view(entries@), k@) < 0,
        },
{
    let ghost ev = entries_view(entries@);
    proof {
        lemma_entries_view(entries@);
    }
    let mut i: usize = entries.len();
    while i > 0
        invariant
            i <= entries.len(),
            ev == entries_view(entries@),
            ev.len() == entries@.len(),
            forall|j: int| 0 <= j < entries.len() ==> #[trigger] ev[j] == (
            entries@[j].0@,
            json_view(entries@[j].1),
            ),
            key_pos(ev, k@) == key_pos_below(ev, k@, i as int),
        decreases i,
    {
        if entries[i - 1].0 == *k {
            return Some(i - 1);
        }
        assert(ev[i - 1] == (entries@[i - 1].0@, json_view(entries@[i - 1].1)));
        i = i - 1;
    }
    None
}

} // verus!
