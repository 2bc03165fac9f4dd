use vstd::prelude::*;

use crate::json::{
    entries_view, find_member, key_pos, lemma_entries_view, member, put_member,
    without_member, Json, JsonView,
};
use crate::path::{parse_path, segments, string_views};

verus! {

/// Why a mutation was refused.
#[derive(Debug, PartialEq, Eq)]
pub enum Error {
    /// A segment on the way to the target holds something other than an object.
    NotAnObject(String),
    /// The path names no key.
    NoKey,
}

/// The node that `segs` leads to from `j`, if every step finds an object
/// member.
pub open spec fn lookup(j: JsonView, segs: Seq<Seq<char>>) -> Option<JsonView>
    decreases segs.len(),
{
    if segs.len() == 0 {
        Some(j)
    } else {
        match j {
            JsonView::Object(es) => match member(es, segs[0]) {
                Some(c) => lookup(c, segs.drop_first()),
                None => None,
            },
            _ => None,
        }
    }
}

/// The first segment of `segs`, walking down from the object `j`, whose
/// member exists and is not an object. Missing members stop the walk without
/// a conflict: they would be created as empty objects.
pub open spec fn conflict(j: JsonView, segs: Seq<Seq<char>>) -> Option<Seq<char>>
    decreases segs.len(),
{
    if segs.len() == 0 {
        None
    } else {
        match j {
            JsonView::Object(es) => match member(es, segs[0]) {
                Some(c) => if c is Object {
                    conflict(c, segs.drop_first())
                } else {
                    Some(segs[0])
                },
                None => None,
            },
            _ => None,
        }
    }
}

/// The member under `k`, or an empty object when there is none.
pub open spec fn child_or_empty(es: Seq<(Seq<char>, JsonView)>, k: Seq<char>) -> JsonView {
    match member(es, k) {
        Some(c) => c,
        None => JsonView::Object(Seq::empty()),
    }
}

/// `j` with the node at `segs` replaced by `v`, missing objects on the way
/// created empty.
pub open spec fn put_path(j: JsonView, segs: Seq<Seq<char>>, v: JsonView) -> JsonView
    decreases segs.len(),
{
    if segs.len() == 0 {
        v
    } else {
        match j {
            JsonView::Object(es) => JsonView::Object(
                put_member(es, segs[0], put_path(child_or_empty(es, segs[0]), segs.drop_first(), v)),
            ),
            _ => j,
        }
    }
}

/// `j` with the member at `segs` removed, missing objects on the way created
/// empty.
pub open spec fn delete_path(j: JsonView, segs: Seq<Seq<char>>) -> JsonView
    decreases segs.len(),
{
    if segs.len() == 0 {
        j
    } else {
        match j {
            JsonView::Object(es) => if segs.len() == 1 {
                JsonView::Object(without_member(es, segs[0]))
            } else {
                JsonView::Object(
                    put_member(
                        es,
                        segs[0],
                        delete_path(child_or_empty(es, segs[0]), segs.drop_first()),
                    ),
                )
            },
            _ => j,
        }
    }
}

/// What a payload stands for: the value it was parsed into, else the payload
/// itself as a string.
pub open spec fn payload_value(payload: Seq<char>, parsed: Option<Json>) -> JsonView {
    match parsed {
        Some(v) => v@,
        None => JsonView::Str(payload),
    }
}

proof fn lemma_entries_push(s: Seq<(String, Json)>, e: (String, Json))
    ensures
        entries_view(s.push(e)) == entries_view(s).push((e.0@, e.1@)),
{
    lemma_entries_view(s);
    lemma_entries_view(s.push(e));
    assert(entries_view(s.push(e)) =~= entries_view(s).push((e.0@, e.1@)));
}

proof fn lemma_entries_update(s: Seq<(String, Json)>, p: int, e: (String, Json))
    requires
        0 <= p < s.len(),
    ensures
        entries_view(s.update(p, e)) == entries_view(s).update(p, (e.0@, e.1@)),
{
    lemma_entries_view(s);
    lemma_entries_view(s.update(p, e));
    assert(entries_view(s.update(p, e)) =~= entries_view(s).update(p, (e.0@, e.1@)));
}

/// Binds `key` to `value` among the members, in place of an existing member
/// with that key or at the end.
fn put_entry(entries: &mut Vec<(String, Json)>, pos: Option<usize>, key: &String, value: Json)
    requires
        match pos {
            Some(p) => key_pos(entries_view(old(entries)@), key@) == p as int,
            None => key_pos(entries_view(old(entries)@), key@) < 0,
        },
    ensures
        entries_view(final(entries)@) == put_member(entries_view(old(entries)@), key@, value@),
{
    proof {
        lemma_entries_view(entries@);
        crate::json::lemma_key_pos(entries_view(entries@), key@);
    }
    let entry = (key.clone(), value);
    match pos {
        Some(p) => {
            entries.remove(p);
            entries.insert(p, entry);
            proof {
                assert(entries@ =~= old(entries)@.update(p as int, entry));
                lemma_entries_update(old(entries)@, p as int, entry);
            }
        },
        None => {
            proof {
                lemma_entries_push(entries@, entry);
            }
            entries.push(entry);
        },
    }
}

/// Takes out the member at `pos` for rewriting, or an empty object when
/// there is none. The member's slot is kept with a null in it.
fn take_child(entries: &mut Vec<(String, Json)>, pos: Option<usize>, key: &String) -> (r: Json)
    requires
        match pos {
            Some(p) => key_pos(entries_view(old(entries)@), key@) == p as int,
            None => key_pos(entries_view(old(entries)@), key@) < 0,
        },
    ensures
        r@ == child_or_empty(entries_view(old(entries)@), key@),
        key_pos(entries_view(final(entries)@), key@) == key_pos(
            entries_view(old(entries)@),
            key@,
        ),
        forall|v: JsonView|
            put_member(entries_view(final(entries)@), key@, v) == put_member(
                entries_view(old(entries)@),
                key@,
                v,
            ),
{
    proof {
        lemma_entries_view(entries@);
        crate::json::lemma_key_pos(entries_view(entries@), key@);
    }
    match pos {
        Some(p) => {
            let (k, child) = entries.remove(p);
            entries.insert(p, (k, Json::Null));
            proof {
                let e = (k, Json::Null);
                assert(entries@ =~= old(entries)@.update(p as int, e));
                lemma_entries_update(old(entries)@, p as int, e);
                let ev0 = entries_view(old(entries)@);
                let ev1 = entries_view(entries@);
                assert(forall|i: int| 0 <= i < ev0.len() ==> ev0[i].0 == ev1[i].0);
                crate::json::lemma_key_pos_same_keys(ev0, ev1, key@);
                assert forall|v: JsonView|
                    put_member(ev1, key@, v) == put_member(ev0, key@, v) by {
                    assert(put_member(ev1, key@, v) =~= put_member(ev0, key@, v));
                }
            }
            child
        },
        None => {
            proof {
                assert(entries_view(Seq::<(String, Json)>::empty()) == Seq::<
                    (Seq<char>, JsonView),
                >::empty());
            }
            let r = Json::Object(Vec::new());
            proof {
                assert(r@ == JsonView::Object(entries_view(Seq::empty())));
            }
            r
        },
    }
}

proof fn lemma_entries_remove(s: Seq<(String, Json)>, p: int)
    requires
        0 <= p < s.len(),
    ensures
        entries_view(s.remove(p)) == entries_view(s).remove(p),
{
    lemma_entries_view(s);
    lemma_entries_view(s.remove(p));
    assert(entries_view(s.remove(p)) =~= entries_view(s).remove(p));
}

/// Removes every member whose key is `key`, keeping the others in order.
fn remove_entry(entries: &mut Vec<(String, Json)>, key: &String)
    ensures
        entries_view(final(entries)@) == without_member(entries_view(old(entries)@), key@),
{
    let ghost ev0 = entries_view(entries@);
    proof {
        lemma_entries_view(entries@);
        assert(ev0 =~= without_member(ev0.subrange(0, 0), key@) + ev0.subrange(0, ev0.len() as int));
    }
    let mut i: usize = 0;
    let ghost mut j: int = 0;
    while i < entries.len()
        invariant
            0 <= j <= ev0.len(),
            i <= entries.len(),
            entries_view(entries@) == without_member(ev0.subrange(0, j), key@) + ev0.subrange(
                j,
                ev0.len() as int,
            ),
            i == without_member(ev0.subrange(0, j), key@).len(),
        decreases entries.len() - i,
    {
        let ghost w = without_member(ev0.subrange(0, j), key@);
        let ghost cv = entries_view(entries@);
        proof {
            lemma_entries_view(entries@);
            assert(cv[i as int] == ev0[j]);
            assert(ev0.subrange(0, j + 1).drop_last() =~= ev0.subrange(0, j));
        }
        if entries[i].0 == *key {
            proof {
                lemma_entries_remove(entries@, i as int);
            }
            entries.remove(i);
            proof {
                assert(entries_view(entries@) =~= w + ev0.subrange(j + 1, ev0.len() as int));
            }
        } else {
            i = i + 1;
            proof {
                assert(cv =~= w.push(ev0[j]) + ev0.subrange(j + 1, ev0.len() as int));
            }
        }
        proof {
            j = j + 1;
        }
    }
    proof {
        lemma_entries_view(entries@);
        assert(ev0.subrange(0, j) =~= ev0);
    }
}

/// Binds the node at `segs[i..]` below `node` to `value`, creating missing
/// objects on the way.
fn put_at(node: Json, segs: &Vec<String>, i: usize, value: Json) -> (r: Json)
    requires
        i < segs.len(),
        node@ is Object,
        conflict(node@, string_views(segs@).subrange(i as int, segs.len() - 1)) is None,
    ensures
        r@ == put_path(node@, string_views(segs@).subrange(i as int, segs.len() as int), value@),
        r@ is Object,
    decreases segs.len() - i,
{
    let ghost sv = string_views(segs@);
    match node {
        Json::Object(mut entries) => {
            let ghost ev0 = entries_view(entries@);
            let key = &segs[i];
            let pos = find_member(&entries, key);
            proof {
                assert(sv.subrange(i as int, segs.len() as int)[0] == key@);
                assert(sv.subrange(i as int, segs.len() as int).drop_first() =~= sv.subrange(
                    i + 1,
                    segs.len() as int,
                ));
            }
            if i + 1 == segs.len() {
                proof {
                    let rest = sv.subrange(i + 1, segs.len() as int);
                    assert(rest.len() == 0);
                    assert(put_path(child_or_empty(ev0, key@), rest, value@) == value@);
                }
                put_entry(&mut entries, pos, key, value);
            } else {
                let child = take_child(&mut entries, pos, key);
                proof {
                    assert(sv.subrange(i as int, segs.len() - 1)[0] == key@);
                    assert(sv.subrange(i as int, segs.len() - 1).drop_first() =~= sv.subrange(
                        i + 1,
                        segs.len() - 1,
                    ));
                    crate::json::lemma_key_pos(Seq::<(Seq<char>, JsonView)>::empty(), key@);
                }
                let new_child = put_at(child, segs, i + 1, value);
                put_entry(&mut entries, pos, key, new_child);
            }
            Json::Object(entries)
        },
        _ => node,
    }
}

/// Removes the member at `segs[i..]` below `node`, creating missing objects
/// on the way.
fn delete_at(node: Json, segs: &Vec<String>, i: usize) -> (r: Json)
    requires
        i < segs.len(),
        node@ is Object,
        conflict(node@, string_views(segs@).subrange(i as int, segs.len() - 1)) is None,
    ensures
        r@ == delete_path(node@, string_views(segs@).subrange(i as int, segs.len() as int)),
        r@ is Object,
    decreases segs.len() - i,
{
    let ghost sv = string_views(segs@);
    match node {
        Json::Object(mut entries) => {
            let key = &segs[i];
            proof {
                assert(sv.subrange(i as int, segs.len() as int)[0] == key@);
                assert(sv.subrange(i as int, segs.len() as int).drop_first() =~= sv.subrange(
                    i + 1,
                    segs.len() as int,
                ));
            }
            if i + 1 == segs.len() {
                remove_entry(&mut entries, key);
            } else {
                let pos = find_member(&entries, key);
                let child = take_child(&mut entries, pos, key);
                proof {
                    assert(sv.subrange(i as int, segs.len() - 1)[0] == key@);
                    assert(sv.subrange(i as int, segs.len() - 1).drop_first() =~= sv.subrange(
                        i + 1,
                        segs.len() - 1,
                    ));
                    crate::json::lemma_key_pos(Seq::<(Seq<char>, JsonView)>::empty(), key@);
                }
                let new_child = delete_at(child, segs, i + 1);
                put_entry(&mut entries, pos, key, new_child);
            }
            Json::Object(entries)
        },
        _ => node,
    }
}

/// The first of the first `n` segments that names an existing non-object on
/// the way down from `root`.
fn find_conflict(root: &Json, segs: &Vec<String>, n: usize) -> (r: Option<String>)
    requires
        n <= segs.len(),
        root@ is Object,
    ensures
        match r {
            Some(s) => conflict(root@, string_views(segs@).subrange(0, n as int)) == Some(s@),
            None => conflict(root@, string_views(segs@).subrange(0, n as int)) is None,
        },
{
    let ghost sv = string_views(segs@);
    let mut cur: &Json = root;
    let mut i: usize = 0;
    while i < n
        invariant
            i <= n <= segs.len(),
            sv == string_views(segs@),
            cur@ is Object,
            conflict(root@, sv.subrange(0, n as int)) == conflict(
                cur@,
                sv.subrange(i as int, n as int),
            ),
        decreases n - i,
    {
        proof {
            assert(sv.subrange(i as int, n as int)[0] == segs@[i as int]@);
            assert(sv.subrange(i as int, n as int).drop_first() =~= sv.subrange(
                i + 1,
                n as int,
            ));
        }
        match cur {
            Json::Object(entries) => {
                proof {
                    lemma_entries_view(entries@);
                }
                match find_member(entries, &segs[i]) {
                    Some(p) => {
                        let c = &entries[p].1;
                        match c {
                            Json::Object(_) => {
                                cur = c;
                            },
                            _ => {
                                return Some(segs[i].clone());
                            },
                        }
                    },
                    None => {
                        return None;
                    },
                }
            },
            _ => {
                return None;
            },
        }
        i = i + 1;
    }
    None
}

/// What a mutation at `segs` owes: `NoKey` for a path without segments,
/// `NotAnObject` naming the first existing non-object on the way to the
/// target's parent, each with the tree untouched; otherwise success with the
/// tree become `changed`.
pub open spec fn mutation_outcome(
    before: JsonView,
    after: JsonView,
    segs: Seq<Seq<char>>,
    r: Result<(), Error>,
    changed: JsonView,
) -> bool {
    if segs.len() == 0 {
        &&& r matches Err(Error::NoKey)
        &&& after == before
    } else {
        match conflict(before, segs.drop_last()) {
            Some(s) => {
                &&& match r {
                    Err(Error::NotAnObject(name)) => name@ == s,
                    _ => false,
                }
                &&& after == before
            },
            None => {
                &&& r is Ok
                &&& after == changed
            },
        }
    }
}

/// The document store: one JSON tree whose root is an object, and the file
/// it is kept in, if any.
#[derive(Debug)]
pub struct Storage {
    data: Json,
    path: Option<String>,
}

impl View for Storage {
    type V = JsonView;

    closed spec fn view(&self) -> JsonView {
        self.data@
    }
}

impl Storage {
    /// The file that the tree is written to after each mutation, if any.
    pub closed spec fn file_path(&self) -> Option<Seq<char>> {
        match self.path {
            Some(p) => Some(p@),
            None => None,
        }
    }

    /// The root is an object.
    pub open spec fn wf(&self) -> bool {
        self@ is Object
    }

    /// A store over `loaded`, the object read from the file at `path`, or
    /// over an empty object when nothing was read.
    pub fn from_file(path: Option<String>, loaded: Option<Json>) -> (r: Storage)
        requires
            loaded matches Some(j) ==> j@ is Object,
        ensures
            r.wf(),
            r@ == match loaded {
                Some(j) => j@,
                None => JsonView::Object(Seq::empty()),
            },
            r.file_path() == match path {
                Some(p) => Some(p@),
                None => None::<Seq<char>>,
            },
    {
        let data = match loaded {
            Some(j) => j,
            None => Json::Object(Vec::new()),
        };
        proof {
            assert(entries_view(Seq::<(String, Json)>::empty()) == Seq::<
                (Seq<char>, JsonView),
            >::empty());
        }
        Storage { data, path }
    }

    /// The file that the tree is written to after each mutation, if any.
    pub fn file(&self) -> (r: Option<&String>)
        ensures
            match r {
                Some(p) => self.file_path() == Some(p@),
                None => self.file_path() is None,
            },
    {
        match &self.path {
            Some(p) => Some(p),
            None => None,
        }
    }

    /// Binds the node at `path` to the payload: to `parsed`, what the
    /// payload reads as JSON, or else to the payload as a string. Missing
    /// objects on the way are created.
    pub fn update(&mut self, path: &str, payload: &str, parsed: Option<Json>) -> (r: Result<
        (),
        Error,
    >)
        requires
            old(self).wf(),
        ensures
            final(self).wf(),
            final(self).file_path() == old(self).file_path(),
            mutation_outcome(
                old(self)@,
                final(self)@,
                segments(path@),
                r,
                put_path(old(self)@, segments(path@), payload_value(payload@, parsed)),
            ),
    {
        let segs = parse_path(path);
        let ghost sv = string_views(segs@);
        if segs.len() == 0 {
            return Err(Error::NoKey);
        }
        proof {
            assert(sv.subrange(0, segs.len() - 1) =~= sv.drop_last());
            assert(sv.subrange(0, segs.len() as int) =~= sv);
        }
        match find_conflict(&self.data, &segs, segs.len() - 1) {
            Some(name) => Err(Error::NotAnObject(name)),
            None => {
                let value = match parsed {
                    Some(v) => v,
                    None => Json::Str(payload.to_owned()),
                };
                let mut data = Json::Null;
                std::mem::swap(&mut data, &mut self.data);
                self.data = put_at(data, &segs, 0, value);
                Ok(())
            },
        }
    }

    /// The same as [`Storage::update`]: the member at `path` is overwritten.
    pub fn append(&mut self, path: &str, payload: &str, parsed: Option<Json>) -> (r: Result<
        (),
        Error,
    >)
        requires
            old(self).wf(),
        ensures
            final(self).wf(),
            final(self).file_path() == old(self).file_path(),
            mutation_outcome(
                old(self)@,
                final(self)@,
                segments(path@),
                r,
                put_path(old(self)@, segments(path@), payload_value(payload@, parsed)),
            ),
    {
        self.update(path, payload, parsed)
    }

    /// Removes the member at `path`; an absent member is no error. Missing
    /// objects on the way are created.
    pub fn delete(&mut self, path: &str) -> (r: Result<(), Error>)
        requires
            old(self).wf(),
        ensures
            final(self).wf(),
            final(self).file_path() == old(self).file_path(),
            mutation_outcome(
                old(self)@,
                final(self)@,
                segments(path@),
                r,
                delete_path(old(self)@, segments(path@)),
            ),
    {
        let segs = parse_path(path);
        let ghost sv = string_views(segs@);
        if segs.len() == 0 {
            return Err(Error::NoKey);
        }
        proof {
            assert(sv.subrange(0, segs.len() - 1) =~= sv.drop_last());
            assert(sv.subrange(0, segs.len() as int) =~= sv);
        }
        match find_conflict(&self.data, &segs, segs.len() - 1) {
            Some(name) => Err(Error::NotAnObject(name)),
            None => {
                let mut data = Json::Null;
                std::mem::swap(&mut data, &mut self.data);
                self.data = delete_at(data, &segs, 0);
                Ok(())
            },
        }
    }

    /// The node at `path`, if every step of it finds an object member; the
    /// whole root for a path without segments.
    pub fn get(&self, path: &str) -> (r: Option<&Json>)
        requires
            self.wf(),
        ensures
            match r {
                Some(j) => lookup(self@, segments(path@)) == Some(j@),
                None => lookup(self@, segments(path@)) is None,
            },
            segments(path@).len() == 0 ==> r is Some,
    {
        let segs = parse_path(path);
        let ghost sv = string_views(segs@);
        let mut cur: &Json = &self.data;
        let mut i: usize = 0;
        proof {
            assert(sv.subrange(0, segs.len() as int) =~= sv);
        }
        while i < segs.len()
            invariant
                i <= segs.len(),
                sv == string_views(segs@),
                sv == segments(path@),
                lookup(self@, sv) == lookup(cur@, sv.subrange(i as int, segs.len() as int)),
            decreases segs.len() - i,
        {
            proof {
                assert(sv.subrange(i as int, segs.len() as int)[0] == segs@[i as int]@);
                assert(sv.subrange(i as int, segs.len() as int).drop_first() =~= sv.subrange(
                    i + 1,
                    segs.len() as int,
                ));
            }
            match cur {
                Json::Object(entries) => {
                    proof {
                        lemma_entries_view(entries@);
                    }
                    match find_member(entries, &segs[i]) {
                        Some(p) => {
                            cur = &entries[p].1;
                        },
                        None => {
                            return None;
                        },
                    }
                },
                _ => {
                    return None;
                },
            }
            i = i + 1;
        }
        Some(cur)
    }
}

} // verus!
