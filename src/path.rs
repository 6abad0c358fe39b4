use vstd::prelude::*;

use crate::value::{
    keys_unique, model_wf, entry_models, item_models, kind_of, lemma_entry_models, lemma_item_models, Kind, Model, Value,
    ValueError,
};

verus! {

/// One navigation step of a path.
#[derive(Debug)]
pub enum Segment {
    /// Selects an object entry by key.
    Field(String),
    /// Selects an array element; a negative index counts from the end.
    Index(i64),
}

/// The position of the first entry with key `key`, if any.
pub open spec fn find_key(entries: Seq<(Seq<char>, Model)>, key: Seq<char>) -> Option<int>
    decreases entries.len(),
{
    if entries.len() == 0 {
        None
    } else {
        match find_key(entries.drop_last(), key) {
            Some(i) => Some(i),
            None => if entries.last().0 == key {
                Some(entries.len() - 1)
            } else {
                None
            },
        }
    }
}

/// The position that index `i` selects in an array of length `len`.
pub open spec fn resolve_index(len: int, i: int) -> Option<int> {
    let j = if i < 0 {
        len + i
    } else {
        i
    };
    if 0 <= j < len {
        Some(j)
    } else {
        None
    }
}

pub open spec fn mismatch(expected: Kind, m: Model) -> ValueError {
    ValueError::TypeMismatch { expected, actual: kind_of(m) }
}

/// Reading a path: `Ok(None)` where an object lacks the key.
pub open spec fn get_model(m: Model, path: Seq<Segment>) -> Result<Option<Model>, ValueError>
    decreases path.len(),
{
    if path.len() == 0 {
        Ok(Some(m))
    } else {
        let rest = path.drop_first();
        match path[0] {
            Segment::Field(k) => match m {
                Model::Object(entries) => match find_key(entries, k@) {
                    Some(i) => get_model(entries[i].1, rest),
                    None => Ok(None),
                },
                _ => Err(mismatch(Kind::Object, m)),
            },
            Segment::Index(i) => match m {
                Model::Array(items) => match resolve_index(items.len() as int, i as int) {
                    Some(j) => get_model(items[j], rest),
                    None => Err(ValueError::OutOfBounds),
                },
                _ => Err(mismatch(Kind::Array, m)),
            },
        }
    }
}

/// `len` nulls.
pub open spec fn nulls(len: int) -> Seq<Model> {
    Seq::new(len as nat, |j: int| Model::Null)
}

/// The tree that a write at `path` builds where nothing stands yet: an
/// object for a key, an array of nulls up to a non-negative index.
pub open spec fn fresh_model(path: Seq<Segment>, new: Model) -> Result<Model, ValueError>
    decreases path.len(),
{
    if path.len() == 0 {
        Ok(new)
    } else {
        match path[0] {
            Segment::Field(k) => match fresh_model(path.drop_first(), new) {
                Ok(c) => Ok(Model::Object(seq![(k@, c)])),
                Err(e) => Err(e),
            },
            Segment::Index(i) => if i < 0 {
                Err(ValueError::OutOfBounds)
            } else {
                match fresh_model(path.drop_first(), new) {
                    Ok(c) => Ok(Model::Array(nulls(i as int).push(c))),
                    Err(e) => Err(e),
                }
            },
        }
    }
}

/// Writing a path. A missing key, or an index past the end of an array,
/// gets what `fresh_model` builds, and the array grows with nulls; a step
/// that meets a node of another kind, null included, is a type mismatch.
pub open spec fn set_model(m: Model, path: Seq<Segment>, new: Model) -> Result<Model, ValueError>
    decreases path.len(),
{
    if path.len() == 0 {
        Ok(new)
    } else {
        let rest = path.drop_first();
        match path[0] {
            Segment::Field(k) => match m {
                Model::Object(entries) => match find_key(entries, k@) {
                    Some(i) => match set_model(entries[i].1, rest, new) {
                        Ok(c) => Ok(Model::Object(entries.update(i, (k@, c)))),
                        Err(e) => Err(e),
                    },
                    None => match fresh_model(rest, new) {
                        Ok(c) => Ok(Model::Object(entries.push((k@, c)))),
                        Err(e) => Err(e),
                    },
                },
                _ => Err(mismatch(Kind::Object, m)),
            },
            Segment::Index(i) => match m {
                Model::Array(items) => if i >= items.len() {
                    match fresh_model(rest, new) {
                        Ok(c) => Ok(Model::Array((items + nulls(i - items.len())).push(c))),
                        Err(e) => Err(e),
                    }
                } else {
                    match resolve_index(items.len() as int, i as int) {
                        Some(j) => match set_model(items[j], rest, new) {
                            Ok(c) => Ok(Model::Array(items.update(j, c))),
                            Err(e) => Err(e),
                        },
                        None => Err(ValueError::OutOfBounds),
                    }
                },
                _ => Err(mismatch(Kind::Array, m)),
            },
        }
    }
}

/// The entries without those whose key is `key`, in their order.
pub open spec fn without_key(entries: Seq<(Seq<char>, Model)>, key: Seq<char>) -> Seq<
    (Seq<char>, Model),
>
    decreases entries.len(),
{
    if entries.len() == 0 {
        Seq::empty()
    } else if entries.last().0 == key {
        without_key(entries.drop_last(), key)
    } else {
        without_key(entries.drop_last(), key).push(entries.last())
    }
}

/// Removing at a path: the new tree and what was removed. A path that
/// leads nowhere because a key is missing removes nothing; the empty path
/// empties the whole tree to null.
pub open spec fn remove_model(m: Model, path: Seq<Segment>) -> Result<
    (Model, Option<Model>),
    ValueError,
>
    decreases path.len(),
{
    if path.len() == 0 {
        Ok((Model::Null, Some(m)))
    } else {
        let rest = path.drop_first();
        match path[0] {
            Segment::Field(k) => match m {
                Model::Object(entries) => match find_key(entries, k@) {
                    Some(i) => if rest.len() == 0 {
                        Ok((Model::Object(without_key(entries, k@)), Some(entries[i].1)))
                    } else {
                        match remove_model(entries[i].1, rest) {
                            Ok((c, removed)) => Ok(
                                (Model::Object(entries.update(i, (k@, c))), removed),
                            ),
                            Err(e) => Err(e),
                        }
                    },
                    None => Ok((m, None)),
                },
                _ => Err(mismatch(Kind::Object, m)),
            },
            Segment::Index(i) => match m {
                Model::Array(items) => match resolve_index(items.len() as int, i as int) {
                    Some(j) => if rest.len() == 0 {
                        Ok((Model::Array(items.remove(j)), Some(items[j])))
                    } else {
                        match remove_model(items[j], rest) {
                            Ok((c, removed)) => Ok((Model::Array(items.update(j, c)), removed)),
                            Err(e) => Err(e),
                        }
                    },
                    None => Err(ValueError::OutOfBounds),
                },
                _ => Err(mismatch(Kind::Array, m)),
            },
        }
    }
}

/// No entry of `without_key` has the key.
pub proof fn lemma_without_key(entries: Seq<(Seq<char>, Model)>, key: Seq<char>)
    ensures
        forall|j: int|
            0 <= j < without_key(entries, key).len() ==> (#[trigger] without_key(
                entries,
                key,
            )[j]).0 != key,
    decreases entries.len(),
{
    if entries.len() > 0 {
        let init = entries.drop_last();
        lemma_without_key(init, key);
        let w = without_key(init, key);
        if entries.last().0 != key {
            assert forall|j: int| 0 <= j < w.push(entries.last()).len() implies (#[trigger] w.push(
                entries.last(),
            )[j]).0 != key by {
                if j < w.len() {
                    assert(w.push(entries.last())[j] == w[j]);
                }
            }
        }
    }
}

/// `find_key` finds the first entry with the key, and nothing when no entry has it.
pub proof fn lemma_find_key(entries: Seq<(Seq<char>, Model)>, key: Seq<char>)
    ensures
        find_key(entries, key) matches Some(i) ==> 0 <= i < entries.len() && entries[i].0 == key
            && forall|j: int| 0 <= j < i ==> entries[j].0 != key,
        find_key(entries, key) is None ==> forall|j: int|
            0 <= j < entries.len() ==> entries[j].0 != key,
    decreases entries.len(),
{
    if entries.len() > 0 {
        let init = entries.drop_last();
        lemma_find_key(init, key);
        assert forall|j: int| 0 <= j < init.len() implies init[j] == entries[j] by {}
    }
}

/// The first entry with the key is found, whatever follows it.
pub proof fn lemma_find_key_first(entries: Seq<(Seq<char>, Model)>, key: Seq<char>, i: int)
    requires
        0 <= i < entries.len(),
        entries[i].0 == key,
        forall|j: int| 0 <= j < i ==> entries[j].0 != key,
    ensures
        find_key(entries, key) == Some(i),
    decreases entries.len(),
{
    let init = entries.drop_last();
    lemma_find_key(init, key);
    if i < entries.len() - 1 {
        lemma_find_key_first(init, key, i);
    } else {
        assert forall|j: int| 0 <= j < init.len() implies init[j].0 != key by {
            assert(init[j] == entries[j]);
        }
        match find_key(init, key) {
            Some(x) => {
                assert(init[x] == entries[x]);
            },
            None => {},
        }
    }
}

/// Reading back what `fresh_model` built gives the written value.
pub proof fn lemma_read_fresh(path: Seq<Segment>, new: Model)
    requires
        fresh_model(path, new) is Ok,
    ensures
        get_model(fresh_model(path, new)->Ok_0, path) == Ok::<Option<Model>, ValueError>(Some(new)),
    decreases path.len(),
{
    if path.len() > 0 {
        let rest = path.drop_first();
        lemma_read_fresh(rest, new);
        let c = fresh_model(rest, new)->Ok_0;
        match path[0] {
            Segment::Field(k) => {
                lemma_find_key_first(seq![(k@, c)], k@, 0);
            },
            Segment::Index(i) => {
                assert(nulls(i as int).push(c)[i as int] == c);
            },
        }
    }
}

/// Writing a value at a path and then reading the path gives the value back.
pub proof fn lemma_read_after_write(m: Model, path: Seq<Segment>, new: Model)
    requires
        set_model(m, path, new) is Ok,
    ensures
        get_model(set_model(m, path, new)->Ok_0, path) == Ok::<Option<Model>, ValueError>(
            Some(new),
        ),
    decreases path.len(),
{
    if path.len() > 0 {
        let rest = path.drop_first();
        match path[0] {
            Segment::Field(k) => {
                let entries = m->Object_0;
                lemma_find_key(entries, k@);
                match find_key(entries, k@) {
                    Some(i) => {
                        lemma_read_after_write(entries[i].1, rest, new);
                        let c = set_model(entries[i].1, rest, new)->Ok_0;
                        lemma_find_key_first(entries.update(i, (k@, c)), k@, i);
                    },
                    None => {
                        lemma_read_fresh(rest, new);
                        let c = fresh_model(rest, new)->Ok_0;
                        lemma_find_key_first(entries.push((k@, c)), k@, entries.len() as int);
                    },
                }
            },
            Segment::Index(i) => {
                let items = m->Array_0;
                if i >= items.len() {
                    lemma_read_fresh(rest, new);
                } else {
                    let j = resolve_index(items.len() as int, i as int)->Some_0;
                    lemma_read_after_write(items[j], rest, new);
                }
            },
        }
    }
}

/// Removing a field and then reading the same path finds nothing there.
pub proof fn lemma_read_after_remove(m: Model, path: Seq<Segment>)
    requires
        path.len() > 0,
        path.last() is Field,
        remove_model(m, path) is Ok,
    ensures
        get_model(remove_model(m, path)->Ok_0.0, path) == Ok::<Option<Model>, ValueError>(None),
    decreases path.len(),
{
    let rest = path.drop_first();
    if rest.len() > 0 {
        assert(rest.last() == path.last());
    }
    match path[0] {
        Segment::Field(k) => {
            let entries = m->Object_0;
            lemma_find_key(entries, k@);
            match find_key(entries, k@) {
                Some(i) => {
                    if rest.len() == 0 {
                        let left = without_key(entries, k@);
                        lemma_without_key(entries, k@);
                        lemma_find_key(left, k@);
                        match find_key(left, k@) {
                            Some(x) => {},
                            None => {},
                        }
                    } else {
                        lemma_read_after_remove(entries[i].1, rest);
                        let c = remove_model(entries[i].1, rest)->Ok_0.0;
                        lemma_find_key_first(entries.update(i, (k@, c)), k@, i);
                    }
                },
                None => {},
            }
        },
        Segment::Index(i) => {
            assert(rest.len() > 0);
            let items = m->Array_0;
            let j = resolve_index(items.len() as int, i as int)->Some_0;
            lemma_read_after_remove(items[j], rest);
        },
    }
}

/// Dropping a key from two entry lists that differ only in values under
/// that key gives the same list.
pub proof fn lemma_same_keys_without(a: Seq<(Seq<char>, Model)>, b: Seq<(Seq<char>, Model)>, key: Seq<char>)
    requires
        a.len() == b.len(),
        forall|x: int| 0 <= x < a.len() ==> (#[trigger] a[x]).0 == b[x].0,
        forall|x: int| 0 <= x < a.len() && a[x].0 != key ==> #[trigger] a[x] == b[x],
    ensures
        without_key(a, key) == without_key(b, key),
    decreases a.len(),
{
    if a.len() > 0 {
        let (ia, ib) = (a.drop_last(), b.drop_last());
        assert forall|x: int| 0 <= x < ia.len() implies (#[trigger] ia[x]).0 == ib[x].0 by {
            assert(a[x].0 == b[x].0);
        }
        assert forall|x: int| 0 <= x < ia.len() && ia[x].0 != key implies #[trigger] ia[x]
            == ib[x] by {
            assert(a[x] == b[x]);
        }
        lemma_same_keys_without(ia, ib, key);
        assert(a[a.len() - 1].0 == b[b.len() - 1].0);
        if a.last().0 != key {
            assert(a[a.len() - 1] == b[b.len() - 1]);
        }
    }
}

/// What `fresh_model` builds from a well-formed value is well formed.
pub proof fn lemma_fresh_wf(path: Seq<Segment>, new: Model)
    requires
        model_wf(new),
        fresh_model(path, new) is Ok,
    ensures
        model_wf(fresh_model(path, new)->Ok_0),
    decreases path.len(),
{
    if path.len() > 0 {
        let rest = path.drop_first();
        lemma_fresh_wf(rest, new);
        let c = fresh_model(rest, new)->Ok_0;
        match path[0] {
            Segment::Field(k) => {
                assert(model_wf(Model::Object(seq![(k@, c)])));
            },
            Segment::Index(i) => {
                let items = nulls(i as int).push(c);
                assert forall|x: int| 0 <= x < items.len() implies model_wf(#[trigger] items[x]) by {
                    if x < i {
                        assert(items[x] == Model::Null);
                    }
                }
            },
        }
    }
}

/// Writing a well-formed value into a well-formed tree keeps it well formed.
pub proof fn lemma_set_wf(m: Model, path: Seq<Segment>, new: Model)
    requires
        model_wf(m),
        model_wf(new),
        set_model(m, path, new) is Ok,
    ensures
        model_wf(set_model(m, path, new)->Ok_0),
    decreases path.len(),
{
    if path.len() > 0 {
        let rest = path.drop_first();
        match path[0] {
            Segment::Field(k) => {
                let entries = m->Object_0;
                lemma_find_key(entries, k@);
                match find_key(entries, k@) {
                    Some(i) => {
                        lemma_set_wf(entries[i].1, rest, new);
                        let c = set_model(entries[i].1, rest, new)->Ok_0;
                        let out = entries.update(i, (k@, c));
                        assert forall|x: int| 0 <= x < out.len() implies model_wf(
                            (#[trigger] out[x]).1,
                        ) by {
                            if x != i {
                                assert(out[x] == entries[x]);
                            }
                        }
                        assert(keys_unique(out));
                    },
                    None => {
                        lemma_fresh_wf(rest, new);
                        let c = fresh_model(rest, new)->Ok_0;
                        let out = entries.push((k@, c));
                        assert forall|x: int| 0 <= x < out.len() implies model_wf(
                            (#[trigger] out[x]).1,
                        ) by {
                            if x < entries.len() {
                                assert(out[x] == entries[x]);
                            }
                        }
                        assert(keys_unique(out));
                    },
                }
            },
            Segment::Index(i) => {
                let items = m->Array_0;
                if i >= items.len() {
                    lemma_fresh_wf(rest, new);
                    let c = fresh_model(rest, new)->Ok_0;
                    let out = (items + nulls(i - items.len())).push(c);
                    assert forall|x: int| 0 <= x < out.len() implies model_wf(#[trigger] out[x]) by {
                        if x < items.len() {
                            assert(out[x] == items[x]);
                        } else if x < out.len() - 1 {
                            assert(out[x] == Model::Null);
                        }
                    }
                } else {
                    let j = resolve_index(items.len() as int, i as int)->Some_0;
                    lemma_set_wf(items[j], rest, new);
                    let c = set_model(items[j], rest, new)->Ok_0;
                    let out = items.update(j, c);
                    assert forall|x: int| 0 <= x < out.len() implies model_wf(#[trigger] out[x]) by {
                        if x != j {
                            assert(out[x] == items[x]);
                        }
                    }
                }
            },
        }
    }
}

/// Every entry that `without_key` keeps comes from the list, and keys that
/// were unique stay unique.
pub proof fn lemma_without_key_keeps(entries: Seq<(Seq<char>, Model)>, key: Seq<char>)
    ensures
        forall|x: int|
            0 <= x < without_key(entries, key).len() ==> exists|y: int|
                0 <= y < entries.len() && entries[y] == #[trigger] without_key(entries, key)[x],
        keys_unique(entries) ==> keys_unique(without_key(entries, key)),
    decreases entries.len(),
{
    if entries.len() > 0 {
        let init = entries.drop_last();
        lemma_without_key_keeps(init, key);
        let w = without_key(init, key);
        assert forall|x: int| 0 <= x < w.len() implies exists|y: int|
            0 <= y < entries.len() && entries[y] == #[trigger] w[x] by {
            let y = choose|y: int| 0 <= y < init.len() && init[y] == w[x];
            assert(entries[y] == init[y]);
        }
        if entries.last().0 != key {
            let out = w.push(entries.last());
            assert forall|x: int| 0 <= x < out.len() implies exists|y: int|
                0 <= y < entries.len() && entries[y] == #[trigger] out[x] by {
                if x < w.len() {
                    assert(out[x] == w[x]);
                } else {
                    assert(entries[entries.len() - 1] == out[x]);
                }
            }
            if keys_unique(entries) {
                assert(keys_unique(init)) by {
                    assert forall|a: int, b: int|
                        0 <= a < init.len() && 0 <= b < init.len() && a != b implies init[a].0
                        != init[b].0 by {
                        assert(init[a] == entries[a] && init[b] == entries[b]);
                    }
                }
                assert forall|a: int, b: int|
                    0 <= a < out.len() && 0 <= b < out.len() && a != b implies out[a].0
                    != out[b].0 by {
                    if a < w.len() && b < w.len() {
                        assert(out[a] == w[a] && out[b] == w[b]);
                    } else if a < w.len() {
                        let y = choose|y: int| 0 <= y < init.len() && init[y] == w[a];
                        assert(entries[y] == init[y]);
                        assert(out[b] == entries[entries.len() - 1]);
                    } else {
                        let y = choose|y: int| 0 <= y < init.len() && init[y] == w[b];
                        assert(entries[y] == init[y]);
                        assert(out[a] == entries[entries.len() - 1]);
                    }
                }
            }
        } else if keys_unique(entries) {
            assert forall|a: int, b: int|
                0 <= a < init.len() && 0 <= b < init.len() && a != b implies init[a].0
                != init[b].0 by {
                assert(init[a] == entries[a] && init[b] == entries[b]);
            }
        }
    }
}

/// Removing from a well-formed tree keeps it well formed.
pub proof fn lemma_remove_wf(m: Model, path: Seq<Segment>)
    requires
        model_wf(m),
        remove_model(m, path) is Ok,
    ensures
        model_wf(remove_model(m, path)->Ok_0.0),
    decreases path.len(),
{
    if path.len() > 0 {
        let rest = path.drop_first();
        match path[0] {
            Segment::Field(k) => {
                let entries = m->Object_0;
                lemma_find_key(entries, k@);
                match find_key(entries, k@) {
                    Some(i) => {
                        if rest.len() == 0 {
                            lemma_without_key_keeps(entries, k@);
                            let out = without_key(entries, k@);
                            assert forall|x: int| 0 <= x < out.len() implies model_wf(
                                (#[trigger] out[x]).1,
                            ) by {
                                let y = choose|y: int| 0 <= y < entries.len() && entries[y] == out[x];
                            }
                        } else {
                            lemma_remove_wf(entries[i].1, rest);
                            let c = remove_model(entries[i].1, rest)->Ok_0.0;
                            let out = entries.update(i, (k@, c));
                            assert forall|x: int| 0 <= x < out.len() implies model_wf(
                                (#[trigger] out[x]).1,
                            ) by {
                                if x != i {
                                    assert(out[x] == entries[x]);
                                }
                            }
                            assert(keys_unique(out));
                        }
                    },
                    None => {},
                }
            },
            Segment::Index(i) => {
                let items = m->Array_0;
                let j = resolve_index(items.len() as int, i as int)->Some_0;
                if rest.len() == 0 {
                    let out = items.remove(j);
                    assert forall|x: int| 0 <= x < out.len() implies model_wf(#[trigger] out[x]) by {
                        if x < j {
                            assert(out[x] == items[x]);
                        } else {
                            assert(out[x] == items[x + 1]);
                        }
                    }
                } else {
                    lemma_remove_wf(items[j], rest);
                    let c = remove_model(items[j], rest)->Ok_0.0;
                    let out = items.update(j, c);
                    assert forall|x: int| 0 <= x < out.len() implies model_wf(#[trigger] out[x]) by {
                        if x != j {
                            assert(out[x] == items[x]);
                        }
                    }
                }
            },
        }
    }
}

/// In an array of length `n`, index -1 selects what index `n - 1` selects,
/// and in an empty array it is out of bounds.
pub proof fn lemma_last_index(items: Seq<Model>, rest: Seq<Segment>)
    requires
        items.len() <= i64::MAX,
    ensures
        items.len() > 0 ==> get_model(Model::Array(items), seq![Segment::Index(-1i64)] + rest)
            == get_model(
            Model::Array(items),
            seq![Segment::Index((items.len() - 1) as i64)] + rest,
        ),
        items.len() == 0 ==> get_model(Model::Array(items), seq![Segment::Index(-1i64)] + rest)
            == Err::<Option<Model>, ValueError>(ValueError::OutOfBounds),
{
    let by_end = seq![Segment::Index(-1i64)] + rest;
    let by_len = seq![Segment::Index((items.len() - 1) as i64)] + rest;
    assert(by_end.drop_first() =~= rest);
    assert(by_len.drop_first() =~= rest);
    assert(by_end[0] == Segment::Index(-1i64));
    assert(by_len[0] == Segment::Index((items.len() - 1) as i64));
}

/// The model of what a read returned.
pub open spec fn found_model(r: Result<Option<&Value>, ValueError>) -> Result<
    Option<Model>,
    ValueError,
> {
    match r {
        Ok(Some(v)) => Ok(Some(v@)),
        Ok(None) => Ok(None),
        Err(e) => Err(e),
    }
}

/// The position of the first entry with key `key`.
pub(crate) fn find_entry(entries: &Vec<(String, Value)>, key: &String) -> (r: Option<usize>)
    ensures
        match r {
            Some(i) => find_key(entry_models(entries@), key@) == Some(i as int),
            None => find_key(entry_models(entries@), key@) is None,
        },
{
    proof {
        lemma_entry_models(entries@);
    }
    let mut i: usize = 0;
    while i < entries.len()
        invariant
            i <= entries@.len(),
            entry_models(entries@).len() == entries@.len(),
            forall|j: int|
                0 <= j < entries@.len() ==> #[trigger] entry_models(entries@)[j] == (
                    entries@[j].0@,
                    entries@[j].1@,
                ),
            forall|j: int| 0 <= j < i ==> entries@[j].0@ != key@,
        decreases entries@.len() - i,
    {
        if entries[i].0 == *key {
            proof {
                assert(entry_models(entries@)[i as int].0 == key@);
                assert forall|j: int| 0 <= j < i implies entry_models(entries@)[j].0 != key@ by {
                    assert(entry_models(entries@)[j].0 == entries@[j].0@);
                }
                lemma_find_key_first(entry_models(entries@), key@, i as int);
            }
            return Some(i);
        }
        i += 1;
    }
    proof {
        lemma_find_key(entry_models(entries@), key@);
        match find_key(entry_models(entries@), key@) {
            Some(x) => {
                assert(entry_models(entries@)[x].0 == entries@[x].0@);
            },
            None => {},
        }
    }
    None
}

/// The position that index `i` selects in an array of length `len`.
fn resolve(len: usize, i: i64) -> (r: Option<usize>)
    ensures
        match r {
            Some(j) => resolve_index(len as int, i as int) == Some(j as int),
            None => resolve_index(len as int, i as int) is None,
        },
{
    if i < 0 {
        let back: u64 = (0i64 - (i + 1)) as u64 + 1;
        if back <= len as u64 {
            Some(len - back as usize)
        } else {
            None
        }
    } else if (i as u64) < len as u64 {
        Some(i as usize)
    } else {
        None
    }
}

fn get_from<'a>(v: &'a Value, path: &[Segment], pos: usize) -> (r: Result<
    Option<&'a Value>,
    ValueError,
>)
    requires
        pos <= path@.len(),
    ensures
        found_model(r) == get_model(v@, path@.subrange(pos as int, path@.len() as int)),
    decreases path@.len() - pos,
{
    let ghost sub = path@.subrange(pos as int, path@.len() as int);
    if pos == path.len() {
        return Ok(Some(v));
    }
    proof {
        assert(sub.drop_first() =~= path@.subrange(pos + 1, path@.len() as int));
        assert(sub[0] == path@[pos as int]);
    }
    match &path[pos] {
        Segment::Field(k) => match v {
            Value::Object(entries) => {
                proof {
                    lemma_entry_models(entries@);
                    lemma_find_key(entry_models(entries@), k@);
                }
                match find_entry(entries, k) {
                    Some(i) => get_from(&entries[i].1, path, pos + 1),
                    None => Ok(None),
                }
            },
            _ => Err(ValueError::TypeMismatch { expected: Kind::Object, actual: v.value_kind() }),
        },
        Segment::Index(i) => match v {
            Value::Array(items) => {
                proof {
                    lemma_item_models(items@);
                }
                match resolve(items.len(), *i) {
                    Some(j) => get_from(&items[j], path, pos + 1),
                    None => Err(ValueError::OutOfBounds),
                }
            },
            _ => Err(ValueError::TypeMismatch { expected: Kind::Array, actual: v.value_kind() }),
        },
    }
}

/// Every non-negative index of the path can be an array length.
pub open spec fn indices_fit(path: Seq<Segment>) -> bool {
    forall|k: int| 0 <= k < path.len() ==> (#[trigger] path[k] matches Segment::Index(i) ==> i
        < usize::MAX)
}

/// Whether `fresh_model` would succeed on the rest of the path.
fn check_fresh(path: &[Segment], pos: usize, Ghost(new): Ghost<Model>) -> (r: Result<
    (),
    ValueError,
>)
    requires
        pos <= path@.len(),
    ensures
        match fresh_model(path@.subrange(pos as int, path@.len() as int), new) {
            Ok(_) => r is Ok,
            Err(e) => r == Err::<(), ValueError>(e),
        },
    decreases path@.len() - pos,
{
    let ghost sub = path@.subrange(pos as int, path@.len() as int);
    if pos == path.len() {
        return Ok(());
    }
    proof {
        assert(sub.drop_first() =~= path@.subrange(pos + 1, path@.len() as int));
        assert(sub[0] == path@[pos as int]);
    }
    match &path[pos] {
        Segment::Field(_) => check_fresh(path, pos + 1, Ghost(new)),
        Segment::Index(i) => {
            if *i < 0 {
                Err(ValueError::OutOfBounds)
            } else {
                check_fresh(path, pos + 1, Ghost(new))
            }
        },
    }
}

/// Builds what `fresh_model` describes, which is known to succeed.
fn fresh_at(path: &[Segment], pos: usize, new: Value) -> (r: Value)
    requires
        pos <= path@.len(),
        indices_fit(path@),
        fresh_model(path@.subrange(pos as int, path@.len() as int), new@) is Ok,
    ensures
        r@ == fresh_model(path@.subrange(pos as int, path@.len() as int), new@)->Ok_0,
    decreases path@.len() - pos,
{
    let ghost sub = path@.subrange(pos as int, path@.len() as int);
    if pos == path.len() {
        return new;
    }
    proof {
        assert(sub.drop_first() =~= path@.subrange(pos + 1, path@.len() as int));
        assert(sub[0] == path@[pos as int]);
    }
    match &path[pos] {
        Segment::Field(k) => {
            let c = fresh_at(path, pos + 1, new);
            let mut entries: Vec<(String, Value)> = Vec::new();
            entries.push((k.clone(), c));
            proof {
                lemma_entry_models(entries@);
                assert(entry_models(entries@) =~= seq![(k@, c@)]);
            }
            Value::Object(entries)
        },
        Segment::Index(i) => {
            proof {
                assert(path@[pos as int] matches Segment::Index(x) ==> x < usize::MAX);
            }
            let target: usize = *i as usize;
            let mut items: Vec<Value> = Vec::new();
            while items.len() < target
                invariant
                    items@.len() <= target,
                    forall|x: int| 0 <= x < items@.len() ==> items@[x] is Null,
                decreases target - items@.len(),
            {
                items.push(Value::Null);
            }
            let c = fresh_at(path, pos + 1, new);
            items.push(c);
            proof {
                lemma_item_models(items@);
                assert(item_models(items@) =~= nulls(*i as int).push(c@));
            }
            Value::Array(items)
        },
    }
}

/// Whether a write at the path would succeed, without writing.
fn check_set(v: &Value, path: &[Segment], pos: usize, Ghost(new): Ghost<Model>) -> (r: Result<
    (),
    ValueError,
>)
    requires
        pos <= path@.len(),
    ensures
        match set_model(v@, path@.subrange(pos as int, path@.len() as int), new) {
            Ok(_) => r is Ok,
            Err(e) => r == Err::<(), ValueError>(e),
        },
    decreases path@.len() - pos,
{
    let ghost sub = path@.subrange(pos as int, path@.len() as int);
    if pos == path.len() {
        return Ok(());
    }
    proof {
        assert(sub.drop_first() =~= path@.subrange(pos + 1, path@.len() as int));
        assert(sub[0] == path@[pos as int]);
    }
    match &path[pos] {
        Segment::Field(k) => match v {
            Value::Object(entries) => {
                proof {
                    lemma_entry_models(entries@);
                    lemma_find_key(entry_models(entries@), k@);
                }
                match find_entry(entries, k) {
                    Some(i) => check_set(&entries[i].1, path, pos + 1, Ghost(new)),
                    None => check_fresh(path, pos + 1, Ghost(new)),
                }
            },
            _ => Err(ValueError::TypeMismatch { expected: Kind::Object, actual: v.value_kind() }),
        },
        Segment::Index(i) => match v {
            Value::Array(items) => {
                proof {
                    lemma_item_models(items@);
                }
                if *i >= 0 && *i as u64 >= items.len() as u64 {
                    check_fresh(path, pos + 1, Ghost(new))
                } else {
                    match resolve(items.len(), *i) {
                        Some(j) => check_set(&items[j], path, pos + 1, Ghost(new)),
                        None => Err(ValueError::OutOfBounds),
                    }
                }
            },
            _ => Err(ValueError::TypeMismatch { expected: Kind::Array, actual: v.value_kind() }),
        },
    }
}

/// Writes `new` at the path, which is known to succeed.
fn set_at(v: Value, path: &[Segment], pos: usize, new: Value) -> (r: Value)
    requires
        pos <= path@.len(),
        indices_fit(path@),
        set_model(v@, path@.subrange(pos as int, path@.len() as int), new@) is Ok,
    ensures
        r@ == set_model(v@, path@.subrange(pos as int, path@.len() as int), new@)->Ok_0,
    decreases path@.len() - pos,
{
    let ghost sub = path@.subrange(pos as int, path@.len() as int);
    let ghost vm = v@;
    if pos == path.len() {
        return new;
    }
    proof {
        assert(sub.drop_first() =~= path@.subrange(pos + 1, path@.len() as int));
        assert(sub[0] == path@[pos as int]);
    }
    match &path[pos] {
        Segment::Field(k) => {
            let mut entries: Vec<(String, Value)> = match v {
                Value::Object(es) => es,
                _ => Vec::new(),
            };
            let ghost before = entries@;
            proof {
                lemma_entry_models(before);
                assert(entry_models(before) == match vm {
                    Model::Object(es) => es,
                    _ => Seq::empty(),
                });
                lemma_find_key(entry_models(before), k@);
            }
            match find_entry(&entries, k) {
                Some(j) => {
                    let (key, child) = entries.remove(j);
                    let c = set_at(child, path, pos + 1, new);
                    entries.insert(j, (key, c));
                    proof {
                        assert(entries@ =~= before.update(j as int, (key, c)));
                        lemma_entry_models(entries@);
                        assert(entry_models(entries@) =~= entry_models(before).update(
                            j as int,
                            (k@, c@),
                        ));
                    }
                },
                None => {
                    let c = fresh_at(path, pos + 1, new);
                    entries.push((k.clone(), c));
                    proof {
                        lemma_entry_models(entries@);
                        assert(entry_models(entries@) =~= entry_models(before).push((k@, c@)));
                    }
                },
            }
            Value::Object(entries)
        },
        Segment::Index(i) => {
            let mut items: Vec<Value> = match v {
                Value::Array(items) => items,
                _ => Vec::new(),
            };
            let ghost before = items@;
            proof {
                lemma_item_models(before);
                assert(item_models(before) == match vm {
                    Model::Array(items) => items,
                    _ => Seq::empty(),
                });
            }
            if *i >= 0 && *i as u64 >= items.len() as u64 {
                proof {
                    assert(path@[pos as int] matches Segment::Index(x) ==> x < usize::MAX);
                }
                let target: usize = *i as usize;
                while items.len() < target
                    invariant
                        before.len() <= items@.len() <= target,
                        items@.subrange(0, before.len() as int) == before,
                        forall|x: int| before.len() <= x < items@.len() ==> items@[x] is Null,
                    decreases target - items@.len(),
                {
                    items.push(Value::Null);
                    proof {
                        assert(items@.subrange(0, before.len() as int) =~= before);
                    }
                }
                let c = fresh_at(path, pos + 1, new);
                items.push(c);
                proof {
                    lemma_item_models(items@);
                    let expected = (item_models(before) + nulls(*i - before.len())).push(c@);
                    assert forall|x: int| 0 <= x < items@.len() implies item_models(items@)[x]
                        == expected[x] by {
                        if x < before.len() {
                            assert(items@[x] == before[x]);
                        }
                    }
                    assert(item_models(items@) =~= expected);
                }
                Value::Array(items)
            } else {
                match resolve(items.len(), *i) {
                    Some(j) => {
                        let child = items.remove(j);
                        let c = set_at(child, path, pos + 1, new);
                        items.insert(j, c);
                        proof {
                            assert(items@ =~= before.update(j as int, c));
                            lemma_item_models(items@);
                            assert(item_models(items@) =~= item_models(before).update(
                                j as int,
                                c@,
                            ));
                        }
                        Value::Array(items)
                    },
                    None => Value::Array(items),
                }
            }
        },
    }
}

/// The model of an optional value.
pub open spec fn option_model(o: Option<Value>) -> Option<Model> {
    match o {
        Some(v) => Some(v@),
        None => None,
    }
}

/// Drops, in place, every entry whose key is `key`.
fn drop_key(entries: &mut Vec<(String, Value)>, key: &String)
    ensures
        entry_models(final(entries)@) == without_key(entry_models(old(entries)@), key@),
{
    let ghost orig = entry_models(old(entries)@);
    let ghost n = old(entries)@.len();
    let ghost src = old(entries)@;
    proof {
        lemma_entry_models(src);
    }
    let mut j: usize = 0;
    let ghost mut t: int = 0;
    while j < entries.len()
        invariant
            0 <= t <= n,
            j <= entries@.len(),
            entries@.len() == j + (n - t),
            orig.len() == n,
            forall|x: int| 0 <= x < n ==> #[trigger] orig[x] == (src[x].0@, src[x].1@),
            entry_models(entries@.subrange(0, j as int)) == without_key(orig.take(t), key@),
            forall|x: int| 0 <= x < n - t ==> entries@[j + x] == #[trigger] src[t + x],
        decreases entries@.len() - j,
    {
        let ghost before = entries@;
        proof {
            assert(entries@[j + 0] == src[t + 0]);
            assert(entries@[j as int] == src[t]);
            assert(orig.take(t + 1).drop_last() =~= orig.take(t));
            assert(orig.take(t + 1).last() == orig[t]);
        }
        if entries[j].0 == *key {
            entries.remove(j);
            proof {
                assert(entries@.subrange(0, j as int) =~= before.subrange(0, j as int));
                assert forall|x: int| 0 <= x < n - (t + 1) implies entries@[j + x]
                    == #[trigger] src[(t + 1) + x] by {
                    assert(entries@[j + x] == before[j + x + 1]);
                    assert(before[j + (x + 1)] == src[t + (x + 1)]);
                }
                t = t + 1;
            }
        } else {
            j += 1;
            proof {
                let pre = entries@.subrange(0, j as int);
                assert(pre.drop_last() =~= entries@.subrange(0, j - 1));
                assert(pre.last() == src[t]);
                assert forall|x: int| 0 <= x < n - (t + 1) implies entries@[j + x]
                    == #[trigger] src[(t + 1) + x] by {
                    assert(entries@[(j - 1) + (x + 1)] == src[t + (x + 1)]);
                }
                t = t + 1;
            }
        }
    }
    proof {
        assert(entries@.subrange(0, j as int) =~= entries@);
        assert(orig.take(t) =~= orig);
    }
}

/// Removes at the path; on an error the tree comes back unchanged.
fn remove_at(v: Value, path: &[Segment], pos: usize) -> (r: (Value, Result<Option<Value>, ValueError>))
    requires
        pos <= path@.len(),
    ensures
        match remove_model(v@, path@.subrange(pos as int, path@.len() as int)) {
            Ok((m, removed)) => r.1 matches Ok(o) && r.0@ == m && option_model(o) == removed,
            Err(e) => r.1 == Err::<Option<Value>, ValueError>(e) && r.0@ == v@,
        },
    decreases path@.len() - pos,
{
    let ghost sub = path@.subrange(pos as int, path@.len() as int);
    let ghost vm = v@;
    if pos == path.len() {
        return (Value::Null, Ok(Some(v)));
    }
    proof {
        assert(sub.drop_first() =~= path@.subrange(pos + 1, path@.len() as int));
        assert(sub[0] == path@[pos as int]);
    }
    match &path[pos] {
        Segment::Field(k) => match v {
            Value::Object(mut entries) => {
                let ghost before = entries@;
                proof {
                    lemma_entry_models(before);
                    lemma_find_key(entry_models(before), k@);
                }
                match find_entry(&entries, k) {
                    None => (Value::Object(entries), Ok(None)),
                    Some(i) => {
                        if pos + 1 == path.len() {
                            let (_, removed) = entries.remove(i);
                            proof {
                                assert(before[i as int].0@ == k@);
                            }
                            entries.insert(i, (k.clone(), Value::Null));
                            proof {
                                assert forall|x: int| 0 <= x < before.len() implies (
                                    #[trigger] entries@[x]).0@ == before[x].0@ by {}
                            }
                            let ghost with_null = entries@;
                            drop_key(&mut entries, k);
                            proof {
                                lemma_entry_models(with_null);
                                let a = entry_models(with_null);
                                let b = entry_models(before);
                                lemma_same_keys_without(a, b, k@);
                            }
                            (Value::Object(entries), Ok(Some(removed)))
                        } else {
                            let (key, child) = entries.remove(i);
                            let (c, res) = remove_at(child, path, pos + 1);
                            entries.insert(i, (key, c));
                            proof {
                                assert(entries@ =~= before.update(i as int, (key, c)));
                                lemma_entry_models(entries@);
                                assert(entry_models(entries@) =~= entry_models(before).update(
                                    i as int,
                                    (k@, c@),
                                ));
                                if res is Err {
                                    assert(entry_models(entries@) =~= entry_models(before));
                                }
                            }
                            (Value::Object(entries), res)
                        }
                    },
                }
            },
            other => {
                let actual = other.value_kind();
                (other, Err(ValueError::TypeMismatch { expected: Kind::Object, actual }))
            },
        },
        Segment::Index(i) => match v {
            Value::Array(mut items) => {
                let ghost before = items@;
                proof {
                    lemma_item_models(before);
                }
                match resolve(items.len(), *i) {
                    None => (Value::Array(items), Err(ValueError::OutOfBounds)),
                    Some(j) => {
                        if pos + 1 == path.len() {
                            let removed = items.remove(j);
                            proof {
                                lemma_item_models(items@);
                                assert(item_models(items@) =~= item_models(before).remove(
                                    j as int,
                                ));
                            }
                            (Value::Array(items), Ok(Some(removed)))
                        } else {
                            let child = items.remove(j);
                            let (c, res) = remove_at(child, path, pos + 1);
                            items.insert(j, c);
                            proof {
                                assert(items@ =~= before.update(j as int, c));
                                lemma_item_models(items@);
                                assert(item_models(items@) =~= item_models(before).update(
                                    j as int,
                                    c@,
                                ));
                                if res is Err {
                                    assert(item_models(items@) =~= item_models(before));
                                }
                            }
                            (Value::Array(items), res)
                        }
                    },
                }
            },
            other => {
                let actual = other.value_kind();
                (other, Err(ValueError::TypeMismatch { expected: Kind::Array, actual }))
            },
        },
    }
}

impl Value {
    /// Reads the value at `path`: `Ok(None)` where an object lacks a key on
    /// the way, an error where a step meets the wrong variant or an index
    /// falls outside its array.
    pub fn get(&self, path: &[Segment]) -> (r: Result<Option<&Value>, ValueError>)
        ensures
            found_model(r) == get_model(self@, path@),
    {
        proof {
            assert(path@.subrange(0, path@.len() as int) =~= path@);
        }
        get_from(self, path, 0)
    }

    /// Writes `value` at `path`, creating the objects and arrays that the
    /// path asks for where a key is missing or an index lies past the end of
    /// an array. A step that meets a node of another kind, null included, is
    /// a type mismatch. On an error the tree is unchanged.
    pub fn insert(&mut self, path: &[Segment], value: Value) -> (r: Result<(), ValueError>)
        requires
            indices_fit(path@),
        ensures
            match set_model(old(self)@, path@, value@) {
                Ok(m) => r is Ok && final(self)@ == m,
                Err(e) => r == Err::<(), ValueError>(e) && final(self)@ == old(self)@,
            },
            model_wf(old(self)@) && model_wf(value@) ==> model_wf(final(self)@),
    {
        proof {
            assert(path@.subrange(0, path@.len() as int) =~= path@);
            if model_wf(self@) && model_wf(value@) && set_model(self@, path@, value@) is Ok {
                lemma_set_wf(self@, path@, value@);
            }
        }
        match check_set(self, path, 0, Ghost(value@)) {
            Err(e) => {
                return Err(e);
            },
            Ok(()) => {},
        }
        let mut current = Value::Null;
        std::mem::swap(self, &mut current);
        *self = set_at(current, path, 0, value);
        Ok(())
    }

    /// Writes `value` at `path`, as `insert` does, and returns what the path
    /// held before, if it held anything.
    pub fn set(&mut self, path: &[Segment], value: Value) -> (r: Result<Option<Value>, ValueError>)
        requires
            indices_fit(path@),
        ensures
            match set_model(old(self)@, path@, value@) {
                Ok(m) => r matches Ok(previous) && final(self)@ == m && option_model(previous)
                    == match get_model(old(self)@, path@) {
                    Ok(o) => o,
                    Err(_) => None,
                },
                Err(e) => r == Err::<Option<Value>, ValueError>(e) && final(self)@ == old(self)@,
            },
            model_wf(old(self)@) && model_wf(value@) ==> model_wf(final(self)@),
    {
        let previous = match self.get(path) {
            Ok(Some(v)) => Some(v.deep_clone()),
            _ => None,
        };
        match self.insert(path, value) {
            Ok(()) => Ok(previous),
            Err(e) => Err(e),
        }
    }

    /// Removes what `path` selects and returns it: every entry with the
    /// last key, or the element at the last index. `Ok(None)` where a key on
    /// the way is missing. On an error the tree is unchanged.
    pub fn remove(&mut self, path: &[Segment]) -> (r: Result<Option<Value>, ValueError>)
        ensures
            match remove_model(old(self)@, path@) {
                Ok((m, removed)) => r matches Ok(o) && final(self)@ == m && option_model(o)
                    == removed,
                Err(e) => r == Err::<Option<Value>, ValueError>(e) && final(self)@ == old(self)@,
            },
            model_wf(old(self)@) ==> model_wf(final(self)@),
    {
        proof {
            assert(path@.subrange(0, path@.len() as int) =~= path@);
            if model_wf(self@) && remove_model(self@, path@) is Ok {
                lemma_remove_wf(self@, path@);
            }
        }
        let mut current = Value::Null;
        std::mem::swap(self, &mut current);
        let (tree, result) = remove_at(current, path, 0);
        *self = tree;
        result
    }
}

} // verus!
