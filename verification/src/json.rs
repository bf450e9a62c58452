//! Settings as a tree, and laying one tree over another.
use vstd::prelude::*;

verus! {

/// A tree of settings.
#[derive(Debug)]
pub enum Json {
    Null,
    Bool(bool),
    /// A number, as it is written.
    Number(String),
    Text(String),
    Array(Vec<Json>),
    Object(Vec<JsonEntry>),
}

/// A value and its key.
#[derive(Debug)]
pub struct JsonEntry {
    pub key: String,
    pub value: Json,
}

/// What stands at a place of a tree, without what is below an object.
pub enum Node {
    Null,
    Bool(bool),
    Number(Seq<char>),
    Text(Seq<char>),
    Array(Vec<Json>),
    Object,
}

/// What a tree is at its top.
pub open spec fn top(json: Json) -> Node {
    match json {
        Json::Null => Node::Null,
        Json::Bool(value) => Node::Bool(value),
        Json::Number(text) => Node::Number(text@),
        Json::Text(text) => Node::Text(text@),
        Json::Array(items) => Node::Array(items),
        Json::Object(_) => Node::Object,
    }
}

/// The keys of an object's entries.
pub open spec fn keys(entries: Seq<JsonEntry>) -> Seq<Seq<char>> {
    entries.map_values(|entry: JsonEntry| entry.key@)
}

/// The value of a key, where there is one.
pub open spec fn lookup(entries: Seq<JsonEntry>, key: Seq<char>) -> Option<Json>
    decreases entries.len(),
{
    if entries.len() == 0 {
        None
    } else if entries.last().key@ == key {
        Some(entries.last().value)
    } else {
        lookup(entries.drop_last(), key)
    }
}

/// The value of a key below a tree, where there is one.
pub open spec fn child(json: Json, key: Seq<char>) -> Option<Json> {
    match json {
        Json::Object(entries) => lookup(entries@, key),
        _ => None,
    }
}

/// What stands at the end of a path of keys, where there is something.
pub open spec fn node_at(json: Json, path: Seq<Seq<char>>) -> Option<Node>
    decreases path.len(),
{
    if path.len() == 0 {
        Some(top(json))
    } else {
        match child(json, path[0]) {
            Some(value) => node_at(value, path.drop_first()),
            None => None,
        }
    }
}

/// What stands at the end of a path once `overrides` is laid over `base`: objects are
/// joined key by key, and anything else is replaced.
pub open spec fn merged_at(base: Json, overrides: Json, path: Seq<Seq<char>>) -> Option<Node>
    decreases path.len(),
{
    if !(base is Object && overrides is Object) {
        node_at(overrides, path)
    } else if path.len() == 0 {
        Some(Node::Object)
    } else {
        match (child(base, path[0]), child(overrides, path[0])) {
            (Some(below), Some(above)) => merged_at(below, above, path.drop_first()),
            (Some(below), None) => node_at(below, path.drop_first()),
            (None, Some(above)) => node_at(above, path.drop_first()),
            (None, None) => None,
        }
    }
}

/// No object of the tree has a key twice, down to the given depth.
pub open spec fn keys_differ_to(json: Json, depth: nat) -> bool
    decreases depth,
{
    json matches Json::Object(entries) ==> {
        &&& keys(entries@).no_duplicates()
        &&& depth > 0 ==> forall|i: int|
            0 <= i < entries@.len() ==> keys_differ_to(
                (#[trigger] entries@[i]).value,
                (depth - 1) as nat,
            )
    }
}

/// No object of the tree has a key twice.
pub open spec fn keys_differ(json: Json) -> bool {
    forall|depth: nat| #[trigger] keys_differ_to(json, depth)
}

proof fn lemma_children_differ(json: Json, entries: Seq<JsonEntry>, index: int)
    requires
        keys_differ(json),
        json matches Json::Object(held) && held@ == entries,
        0 <= index < entries.len(),
    ensures
        keys_differ(entries[index].value),
        keys(entries).no_duplicates(),
{
    assert(keys_differ_to(json, 0));
    assert forall|depth: nat| #[trigger] keys_differ_to(entries[index].value, depth) by {
        assert(keys_differ_to(json, depth + 1));
    }
}

/// Looking up finds the entry that has the key.
proof fn lemma_lookup_finds(entries: Seq<JsonEntry>, index: int)
    requires
        0 <= index < entries.len(),
        keys(entries).no_duplicates(),
    ensures
        lookup(entries, entries[index].key@) == Some(entries[index].value),
    decreases entries.len(),
{
    let names = keys(entries);
    let last = entries.len() - 1;
    if index < last {
        assert(names[index] != names[last]);
        let head = entries.drop_last();
        assert(keys(head) =~= names.drop_last());
        assert(keys(head).no_duplicates()) by {
            assert forall|i: int, j: int|
                0 <= i < head.len() && 0 <= j < head.len() && i != j implies keys(head)[i] != keys(
                head,
            )[j] by {
                assert(names[i] != names[j]);
            }
        }
        lemma_lookup_finds(head, index);
        assert(head[index] == entries[index]);
    }
}

/// Looking up finds nothing where no entry has the key.
proof fn lemma_lookup_misses(entries: Seq<JsonEntry>, key: Seq<char>)
    requires
        forall|i: int| 0 <= i < entries.len() ==> (#[trigger] entries[i]).key@ != key,
    ensures
        lookup(entries, key) is None,
    decreases entries.len(),
{
    if entries.len() > 0 {
        let head = entries.drop_last();
        assert forall|i: int| 0 <= i < head.len() implies (#[trigger] head[i]).key@ != key by {
            assert(entries[i].key@ != key);
        }
        assert(entries[entries.len() - 1].key@ != key);
        lemma_lookup_misses(head, key);
    }
}

/// `result` is `overrides` laid over `base`.
pub open spec fn is_merged(result: Json, base: Json, overrides: Json) -> bool {
    forall|path: Seq<Seq<char>>| #[trigger] node_at(result, path) == merged_at(base, overrides, path)
}

/// The entry at `index` of the result of laying the entries from `start` on over
/// others: merged where one of them has its key, and kept otherwise.
spec fn is_entry_merged(
    result: Seq<JsonEntry>,
    base: Seq<JsonEntry>,
    overrides: Seq<JsonEntry>,
    start: int,
    index: int,
) -> bool {
    &&& result[index].key@ == base[index].key@
    &&& forall|j: int|
        start <= j < overrides.len() && (#[trigger] overrides[j]).key@ == base[index].key@
            ==> is_merged(result[index].value, base[index].value, overrides[j].value)
    &&& (forall|j: int|
        start <= j < overrides.len() ==> (#[trigger] overrides[j]).key@ != base[index].key@)
        ==> result[index] == base[index]
}

/// The entry at `index` of the result is one of those from `start` on, whose key no
/// other had.
spec fn is_entry_added(
    result: Seq<JsonEntry>,
    base: Seq<JsonEntry>,
    overrides: Seq<JsonEntry>,
    start: int,
    index: int,
) -> bool {
    &&& exists|j: int|
        start <= j < overrides.len() && result[index] == #[trigger] overrides[j]
    &&& forall|i: int| 0 <= i < base.len() ==> (#[trigger] base[i]).key@ != result[index].key@
}

/// `result` is `base` with the entries from `start` on laid over it.
spec fn are_entries_merged(
    result: Seq<JsonEntry>,
    base: Seq<JsonEntry>,
    overrides: Seq<JsonEntry>,
    start: int,
) -> bool {
    &&& result.len() >= base.len()
    &&& keys(result).no_duplicates()
    &&& forall|i: int| 0 <= i < result.len() ==> keys_differ((#[trigger] result[i]).value)
    &&& forall|i: int|
        0 <= i < base.len() ==> #[trigger] is_entry_merged(result, base, overrides, start, i)
    &&& forall|i: int|
        base.len() <= i < result.len() ==> #[trigger] is_entry_added(
            result,
            base,
            overrides,
            start,
            i,
        )
    &&& forall|j: int|
        start <= j < overrides.len() ==> keys(result).contains((#[trigger] overrides[j]).key@)
}

proof fn lemma_object_differs(json: Json)
    requires
        json matches Json::Object(entries) && keys(entries@).no_duplicates() && forall|i: int|
            0 <= i < entries@.len() ==> keys_differ((#[trigger] entries@[i]).value),
    ensures
        keys_differ(json),
{
    let entries = json->Object_0;
    assert forall|depth: nat| #[trigger] keys_differ_to(json, depth) by {
        if depth > 0 {
            assert forall|i: int| 0 <= i < entries@.len() implies keys_differ_to(
                (#[trigger] entries@[i]).value,
                (depth - 1) as nat,
            ) by {
                assert(keys_differ(entries@[i].value));
            }
        }
    }
}

/// Entries that are merged make up a merged object.
proof fn lemma_entries_make_an_object(result: Json, base: Json, overrides: Json)
    requires
        result is Object,
        base is Object,
        overrides is Object,
        keys_differ(base),
        keys_differ(overrides),
        are_entries_merged(
            result->Object_0@,
            base->Object_0@,
            overrides->Object_0@,
            0,
        ),
    ensures
        keys_differ(result),
        is_merged(result, base, overrides),
{
    let r = result->Object_0@;
    let b = base->Object_0@;
    let o = overrides->Object_0@;
    lemma_object_differs(result);
    assert(keys_differ_to(base, 0) && keys_differ_to(overrides, 0));
    assert forall|path: Seq<Seq<char>>| #[trigger] node_at(result, path) == merged_at(
        base,
        overrides,
        path,
    ) by {
        if path.len() > 0 {
            let key = path[0];
            let rest = path.drop_first();
            if exists|i: int| 0 <= i < b.len() && (#[trigger] b[i]).key@ == key {
                let i = choose|i: int| 0 <= i < b.len() && (#[trigger] b[i]).key@ == key;
                assert(is_entry_merged(r, b, o, 0, i));
                lemma_lookup_finds(b, i);
                lemma_lookup_finds(r, i);
                if exists|j: int| 0 <= j < o.len() && (#[trigger] o[j]).key@ == key {
                    let j = choose|j: int| 0 <= j < o.len() && (#[trigger] o[j]).key@ == key;
                    lemma_lookup_finds(o, j);
                    assert(is_merged(r[i].value, b[i].value, o[j].value));
                    assert(node_at(r[i].value, rest) == merged_at(b[i].value, o[j].value, rest));
                } else {
                    lemma_lookup_misses(o, key);
                }
            } else {
                lemma_lookup_misses(b, key);
                if exists|j: int| 0 <= j < o.len() && (#[trigger] o[j]).key@ == key {
                    let j = choose|j: int| 0 <= j < o.len() && (#[trigger] o[j]).key@ == key;
                    lemma_lookup_finds(o, j);
                    assert(keys(r).contains(o[j].key@));
                    let i = choose|i: int| 0 <= i < keys(r).len() && keys(r)[i] == key;
                    if i < b.len() {
                        assert(is_entry_merged(r, b, o, 0, i));
                        assert(b[i].key@ == key);
                    }
                    assert(is_entry_added(r, b, o, 0, i));
                    let k = choose|k: int| 0 <= k < o.len() && r[i] == #[trigger] o[k];
                    assert(keys(o)[k] == keys(o)[j]);
                    assert(k == j);
                    lemma_lookup_finds(r, i);
                } else {
                    lemma_lookup_misses(o, key);
                    assert forall|i: int| 0 <= i < r.len() implies (#[trigger] r[i]).key@ != key by {
                        if i < b.len() {
                            assert(is_entry_merged(r, b, o, 0, i));
                            assert(b[i].key@ != key);
                        } else {
                            assert(is_entry_added(r, b, o, 0, i));
                            let k = choose|k: int| 0 <= k < o.len() && r[i] == #[trigger] o[k];
                            assert(o[k].key@ != key);
                        }
                    }
                    lemma_lookup_misses(r, key);
                }
            }
        }
    }
}

/// The entry whose key the next override has is one of the base: those that were
/// added have other keys.
proof fn lemma_key_is_in_base(
    now: Seq<JsonEntry>,
    below: Seq<JsonEntry>,
    all: Seq<JsonEntry>,
    count: int,
    index: int,
)
    requires
        0 < count <= all.len(),
        0 <= index < now.len(),
        keys(all).no_duplicates(),
        are_entries_merged(now, below, all, count),
        now[index].key@ == all[count - 1].key@,
    ensures
        index < below.len(),
        now[index] == below[index],
        now[index].key@ == below[index].key@,
{
    if index >= below.len() {
        assert(is_entry_added(now, below, all, count, index));
        let j = choose|j: int| count <= j < all.len() && now[index] == #[trigger] all[j];
        assert(keys(all)[j] != keys(all)[count - 1]);
    } else {
        assert(is_entry_merged(now, below, all, count, index));
        assert forall|j: int| count <= j < all.len() implies (#[trigger] all[j]).key@
            != below[index].key@ by {
            assert(keys(all)[j] != keys(all)[count - 1]);
        }
    }
}

proof fn lemma_merge_step(
    after: Seq<JsonEntry>,
    now: Seq<JsonEntry>,
    below: Seq<JsonEntry>,
    all: Seq<JsonEntry>,
    count: int,
    index: int,
)
    requires
        0 < count <= all.len(),
        0 <= index < below.len(),
        keys(all).no_duplicates(),
        keys(below).no_duplicates(),
        are_entries_merged(now, below, all, count),
        now[index] == below[index],
        now[index].key@ == all[count - 1].key@,
        after.len() == now.len(),
        forall|i: int| 0 <= i < now.len() && i != index ==> #[trigger] after[i] == now[i],
        after[index].key@ == now[index].key@,
        keys_differ(after[index].value),
        is_merged(after[index].value, below[index].value, all[count - 1].value),
    ensures
        are_entries_merged(after, below, all, count - 1),
{
    assert(keys(after) =~= keys(now));
    assert forall|i: int| 0 <= i < after.len() implies keys_differ((#[trigger] after[i]).value) by {
        assert(keys_differ(now[i].value));
    }
    assert forall|i: int| 0 <= i < below.len() implies #[trigger] is_entry_merged(
        after,
        below,
        all,
        count - 1,
        i,
    ) by {
        assert(is_entry_merged(now, below, all, count, i));
        if i != index {
            assert(keys(below)[i] != keys(below)[index]);
            assert(all[count - 1].key@ != below[i].key@);
            if forall|j: int|
                count - 1 <= j < all.len() ==> (#[trigger] all[j]).key@ != below[i].key@ {
                assert(forall|j: int|
                    count <= j < all.len() ==> (#[trigger] all[j]).key@ != below[i].key@);
            }
        } else {
            assert forall|j: int|
                count - 1 <= j < all.len() && (#[trigger] all[j]).key@ == below[i].key@ implies is_merged(
                after[i].value,
                below[i].value,
                all[j].value,
            ) by {
                if j >= count {
                    assert(keys(all)[j] != keys(all)[count - 1]);
                }
            }
            assert(all[count - 1].key@ == below[i].key@);
        }
    }
    assert forall|i: int| below.len() <= i < after.len() implies #[trigger] is_entry_added(
        after,
        below,
        all,
        count - 1,
        i,
    ) by {
        assert(is_entry_added(now, below, all, count, i));
        let j = choose|j: int| count <= j < all.len() && now[i] == #[trigger] all[j];
        assert(after[i] == all[j]);
    }
    assert forall|j: int| count - 1 <= j < all.len() implies keys(after).contains(
        (#[trigger] all[j]).key@,
    ) by {
        if j == count - 1 {
            assert(keys(after)[index] == all[j].key@);
        }
    }
}

proof fn lemma_add_step(
    after: Seq<JsonEntry>,
    now: Seq<JsonEntry>,
    below: Seq<JsonEntry>,
    all: Seq<JsonEntry>,
    count: int,
)
    requires
        0 < count <= all.len(),
        keys(all).no_duplicates(),
        are_entries_merged(now, below, all, count),
        forall|i: int| 0 <= i < now.len() ==> (#[trigger] now[i]).key@ != all[count - 1].key@,
        after == now.push(all[count - 1]),
        keys_differ(all[count - 1].value),
    ensures
        are_entries_merged(after, below, all, count - 1),
{
    let added = all[count - 1];
    assert(keys(after) =~= keys(now).push(added.key@));
    assert(keys(after).no_duplicates()) by {
        assert forall|i: int, j: int|
            0 <= i < after.len() && 0 <= j < after.len() && i != j implies keys(after)[i] != keys(
            after,
        )[j] by {
            if i < now.len() && j < now.len() {
                assert(keys(now)[i] != keys(now)[j]);
            } else if i < now.len() {
                assert(now[i].key@ != added.key@);
            } else {
                assert(now[j].key@ != added.key@);
            }
        }
    }
    assert forall|i: int| 0 <= i < after.len() implies keys_differ((#[trigger] after[i]).value) by {
        if i < now.len() {
            assert(keys_differ(now[i].value));
        }
    }
    assert forall|i: int| 0 <= i < below.len() implies #[trigger] is_entry_merged(
        after,
        below,
        all,
        count - 1,
        i,
    ) by {
        assert(is_entry_merged(now, below, all, count, i));
        assert(now[i].key@ != added.key@);
        assert(after[i] == now[i]);
        if forall|j: int|
            count - 1 <= j < all.len() ==> (#[trigger] all[j]).key@ != below[i].key@ {
            assert(forall|j: int|
                count <= j < all.len() ==> (#[trigger] all[j]).key@ != below[i].key@);
        }
    }
    assert forall|i: int| below.len() <= i < after.len() implies #[trigger] is_entry_added(
        after,
        below,
        all,
        count - 1,
        i,
    ) by {
        if i < now.len() {
            assert(is_entry_added(now, below, all, count, i));
            let j = choose|j: int| count <= j < all.len() && now[i] == #[trigger] all[j];
            assert(after[i] == all[j]);
        } else {
            assert(after[i] == all[count - 1]);
            assert forall|k: int| 0 <= k < below.len() implies (#[trigger] below[k]).key@
                != after[i].key@ by {
                assert(is_entry_merged(now, below, all, count, k));
                assert(now[k].key@ != added.key@);
            }
        }
    }
    assert forall|j: int| count - 1 <= j < all.len() implies keys(after).contains(
        (#[trigger] all[j]).key@,
    ) by {
        if j == count - 1 {
            assert(keys(after)[now.len() as int] == all[j].key@);
        } else {
            let k = choose|k: int| 0 <= k < keys(now).len() && keys(now)[k] == all[j].key@;
            assert(keys(after)[k] == all[j].key@);
        }
    }
}

/// Where an entry has the key, or the number of entries.
fn find_key(entries: &Vec<JsonEntry>, key: &String) -> (index: usize)
    ensures
        index <= entries@.len(),
        index < entries@.len() ==> entries@[index as int].key@ == key@,
        index == entries@.len() ==> forall|i: int|
            0 <= i < entries@.len() ==> (#[trigger] entries@[i]).key@ != key@,
{
    let mut index: usize = 0;
    while index < entries.len()
        invariant
            index <= entries@.len(),
            forall|i: int| 0 <= i < index ==> (#[trigger] entries@[i]).key@ != key@,
        decreases entries@.len() - index,
    {
        if entries[index].key == *key {
            return index;
        }
        index = index + 1;
    }
    index
}

/// Lays `overrides` over `base`: objects are joined key by key, and anything else is
/// replaced.
pub fn merge_json(base: &mut Json, overrides: Json)
    requires
        keys_differ(*old(base)),
        keys_differ(overrides),
    ensures
        keys_differ(*final(base)),
        is_merged(*final(base), *old(base), overrides),
    decreases overrides,
{
    let ghost before = *base;
    let ghost above = overrides;
    match overrides {
        Json::Object(entries) => {
            let ghost all = entries;
            match base {
                Json::Object(base_entries) => {
                    let ghost below = base_entries@;
                    let mut rest: Vec<JsonEntry> = entries;
                    proof {
                        assert(keys_differ_to(before, 0) && keys_differ_to(above, 0));
                        assert forall|i: int| 0 <= i < below.len() implies keys_differ(
                            (#[trigger] below[i]).value,
                        ) by {
                            lemma_children_differ(before, below, i);
                        }
                        assert forall|i: int| 0 <= i < below.len() implies #[trigger] is_entry_merged(
                            below,
                            below,
                            all@,
                            all@.len() as int,
                            i,
                        ) by {}
                        assert(rest@ =~= all@.take(all@.len() as int));
                    }
                    while rest.len() > 0
                        invariant
                            keys_differ(above),
                            keys(all@).no_duplicates(),
                            keys(below).no_duplicates(),
                            above == Json::Object(all),
                            above == overrides,
                            forall|i: int|
                                0 <= i < below.len() ==> keys_differ((#[trigger] below[i]).value),
                            rest@.len() <= all@.len(),
                            rest@ == all@.take(rest@.len() as int),
                            are_entries_merged(
                                base_entries@,
                                below,
                                all@,
                                rest@.len() as int,
                            ),
                        decreases rest@.len(),
                    {
                        let ghost count = rest@.len();
                        let ghost now = base_entries@;
                        match rest.pop() {
                            Some(entry) => {
                                proof {
                                    assert(entry == all@[count - 1]);
                                    assert(rest@ =~= all@.take(count - 1));
                                    lemma_children_differ(above, all@, count - 1);
                                    assert(decreases_to!(overrides => overrides->Object_0));
                                    assert(decreases_to!(all => all[count - 1]));
                                    assert(decreases_to!(entry => entry.value));
                                }
                                let index: usize = find_key(base_entries, &entry.key);
                                if index < base_entries.len() {
                                    proof {
                                        lemma_key_is_in_base(
                                            now,
                                            below,
                                            all@,
                                            count as int,
                                            index as int,
                                        );
                                    }
                                    merge_json(&mut base_entries[index].value, entry.value);
                                    proof {
                                        lemma_merge_step(
                                            base_entries@,
                                            now,
                                            below,
                                            all@,
                                            count as int,
                                            index as int,
                                        );
                                    }
                                } else {
                                    base_entries.push(entry);
                                    proof {
                                        lemma_add_step(
                                            base_entries@,
                                            now,
                                            below,
                                            all@,
                                            count as int,
                                        );
                                    }
                                }
                            },
                            None => {},
                        }
                    }
                },
                _ => {
                    *base = Json::Object(entries);
                },
            }
        },
        other => {
            *base = other;
        },
    }
    proof {
        if before is Object && above is Object {
            lemma_entries_make_an_object(*base, before, above);
        }
    }
}

/// What stands at the end of a path of keys in `overrides`, and is no object, stands
/// there in the result.
pub proof fn law_overrides_win(base: Json, overrides: Json, path: Seq<Seq<char>>)
    requires
        node_at(overrides, path) matches Some(node) && !(node is Object),
    ensures
        merged_at(base, overrides, path) == node_at(overrides, path),
    decreases path.len(),
{
    if base is Object && overrides is Object {
        match (child(base, path[0]), child(overrides, path[0])) {
            (Some(below), Some(above)) => {
                law_overrides_win(below, above, path.drop_first());
            },
            _ => {},
        }
    }
}

/// `overrides` says nothing about a path: it leaves the tree of `base` at a key that
/// `overrides` does not have.
pub open spec fn is_unspecified(base: Json, overrides: Json, path: Seq<Seq<char>>) -> bool
    decreases path.len(),
{
    &&& base is Object
    &&& overrides is Object
    &&& path.len() > 0
    &&& match (child(base, path[0]), child(overrides, path[0])) {
        (_, None) => true,
        (Some(below), Some(above)) => is_unspecified(below, above, path.drop_first()),
        (None, Some(_)) => false,
    }
}

/// What `overrides` says nothing about stays as it is in `base`.
pub proof fn law_unspecified_values_stay(base: Json, overrides: Json, path: Seq<Seq<char>>)
    requires
        is_unspecified(base, overrides, path),
    ensures
        merged_at(base, overrides, path) == node_at(base, path),
    decreases path.len(),
{
    match (child(base, path[0]), child(overrides, path[0])) {
        (Some(below), Some(above)) => {
            law_unspecified_values_stay(below, above, path.drop_first());
        },
        _ => {},
    }
}

/// Where both trees are objects the result has the keys of both, and where one is not the
/// override stands in place of the base, with all that is below it.
pub proof fn law_objects_are_joined_key_by_key(base: Json, overrides: Json, key: Seq<char>)
    ensures
        base is Object && overrides is Object ==> {
            &&& merged_at(base, overrides, seq![]) == Some(Node::Object)
            &&& merged_at(base, overrides, seq![key]) is Some <==> child(base, key) is Some
                || child(overrides, key) is Some
            &&& child(overrides, key) is None ==> merged_at(base, overrides, seq![key]) == node_at(
                base,
                seq![key],
            )
            &&& child(base, key) is None ==> merged_at(base, overrides, seq![key]) == node_at(
                overrides,
                seq![key],
            )
        },
        !(base is Object) || !(overrides is Object) ==> merged_at(base, overrides, seq![key])
            == node_at(overrides, seq![key]) && merged_at(base, overrides, seq![]) == Some(
            top(overrides),
        ),
{
    let path = seq![key];
    assert(path.drop_first() =~= Seq::<Seq<char>>::empty());
    reveal_with_fuel(merged_at, 2);
    reveal_with_fuel(node_at, 2);
}

/// An object without keys says nothing: laid over another, it leaves every path as it was.
pub proof fn law_an_empty_override_changes_nothing(
    base: Json,
    overrides: Json,
    path: Seq<Seq<char>>,
)
    requires
        base is Object,
        overrides matches Json::Object(entries) && entries@.len() == 0,
    ensures
        merged_at(base, overrides, path) == node_at(base, path),
{
}

} // verus!
