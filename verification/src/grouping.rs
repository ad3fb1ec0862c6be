//! Grouping of keyed entries: the values of each key are gathered under it, the keys in the
//! order in which they first appear. The index from key to group is an `IndexMap`.

use vstd::prelude::*;
use indexmap::IndexMap;

verus! {

#[verifier::external_type_specification]
#[verifier::external_body]
#[verifier::reject_recursive_types(K)]
#[verifier::reject_recursive_types(V)]
#[verifier::reject_recursive_types(S)]
pub struct ExIndexMap<K, V, S>(IndexMap<K, V, S>);

/// The entries of an index: for each key that it holds, the number stored under it.
pub uninterp spec fn slot_map(m: IndexMap<String, usize>) -> Map<Seq<char>, usize>;

/// `IndexMap::new`: the new map holds no entry.
#[verifier::external_body]
fn slots_new() -> (r: IndexMap<String, usize>)
    ensures
        slot_map(r).dom() == Set::<Seq<char>>::empty(),
{
    IndexMap::new()
}

/// `IndexMap::get`: the value stored under a key equal to `key`, if the map holds one.
#[verifier::external_body]
fn slots_get(m: &IndexMap<String, usize>, key: &str) -> (r: Option<usize>)
    ensures
        r == (if slot_map(*m).contains_key(key@) {
            Some(slot_map(*m)[key@])
        } else {
            None
        }),
{
    m.get(key).copied()
}

/// `IndexMap::insert`: afterwards `slot` is stored under `key`, and every other key is as
/// it was.
#[verifier::external_body]
fn slots_insert(m: &mut IndexMap<String, usize>, key: String, slot: usize)
    ensures
        slot_map(*final(m)) == slot_map(*old(m)).insert(key@, slot),
{
    m.insert(key, slot);
}

/// The distinct keys of `entries`, each at the place of its first appearance.
pub open spec fn keys_in_order<V>(entries: Seq<(Seq<char>, V)>) -> Seq<Seq<char>>
    decreases entries.len(),
{
    if entries.len() == 0 {
        Seq::empty()
    } else {
        let before = keys_in_order(entries.drop_last());
        if before.contains(entries.last().0) {
            before
        } else {
            before.push(entries.last().0)
        }
    }
}

/// The values that `entries` holds under `key`, in order.
pub open spec fn values_of<V>(entries: Seq<(Seq<char>, V)>, key: Seq<char>) -> Seq<V>
    decreases entries.len(),
{
    if entries.len() == 0 {
        Seq::empty()
    } else {
        let before = values_of(entries.drop_last(), key);
        if entries.last().0 == key {
            before.push(entries.last().1)
        } else {
            before
        }
    }
}

/// `entries` grouped: each distinct key, in order of first appearance, with its values.
pub open spec fn grouped<V>(entries: Seq<(Seq<char>, V)>) -> Seq<(Seq<char>, Seq<V>)> {
    keys_in_order(entries).map_values(|k: Seq<char>| (k, values_of(entries, k)))
}

/// `entries` as pairs of a key's characters and a value.
pub open spec fn keyed<V>(entries: Seq<(String, V)>) -> Seq<(Seq<char>, V)> {
    entries.map_values(|e: (String, V)| (e.0@, e.1))
}

/// `groups` as pairs of a key's characters and the values under it.
pub open spec fn group_views<V>(groups: Seq<(String, Vec<V>)>) -> Seq<(Seq<char>, Seq<V>)> {
    groups.map_values(|g: (String, Vec<V>)| (g.0@, g.1@))
}

/// A key is among `keys_in_order` exactly if some entry has it.
pub proof fn lemma_keys_complete<V>(entries: Seq<(Seq<char>, V)>, key: Seq<char>)
    ensures
        keys_in_order(entries).contains(key) <==> exists|j: int|
            0 <= j < entries.len() && (#[trigger] entries[j]).0 == key,
    decreases entries.len(),
{
    if entries.len() > 0 {
        let front = entries.drop_last();
        lemma_keys_complete(front, key);
        let before = keys_in_order(front);
        if keys_in_order(entries).contains(key) {
            if before.contains(key) {
                let j = choose|j: int| 0 <= j < front.len() && (#[trigger] front[j]).0 == key;
                assert(entries[j].0 == key);
            } else {
                let w = choose|w: int|
                    0 <= w < keys_in_order(entries).len() && keys_in_order(entries)[w] == key;
                if w < before.len() {
                    assert(before[w] == key);
                }
                assert(entries[entries.len() - 1].0 == key);
            }
        }
        if exists|j: int| 0 <= j < entries.len() && (#[trigger] entries[j]).0 == key {
            let j = choose|j: int| 0 <= j < entries.len() && (#[trigger] entries[j]).0 == key;
            if j < front.len() {
                assert(front[j].0 == key);
                let w = choose|w: int| 0 <= w < before.len() && before[w] == key;
                assert(keys_in_order(entries)[w] == key);
            } else {
                if before.contains(key) {
                } else {
                    assert(keys_in_order(entries)[before.len() as int] == key);
                }
            }
        }
    }
}

/// No key stands twice in `keys_in_order`.
pub proof fn lemma_keys_distinct<V>(entries: Seq<(Seq<char>, V)>)
    ensures
        keys_in_order(entries).no_duplicates(),
    decreases entries.len(),
{
    if entries.len() > 0 {
        lemma_keys_distinct(entries.drop_last());
    }
}

/// What one more entry does to the groups: its value joins the group of its key, or opens
/// a new group at the end.
pub proof fn lemma_grouped_push<V>(entries: Seq<(Seq<char>, V)>, key: Seq<char>, value: V)
    ensures
        keys_in_order(entries).contains(key) ==> {
            let j = keys_in_order(entries).index_of(key);
            grouped(entries.push((key, value))) == grouped(entries).update(
                j,
                (key, grouped(entries)[j].1.push(value)),
            )
        },
        !keys_in_order(entries).contains(key) ==> grouped(entries.push((key, value)))
            == grouped(entries).push((key, seq![value])),
{
    let more = entries.push((key, value));
    assert(more.drop_last() =~= entries);
    lemma_keys_distinct(entries);
    let keys = keys_in_order(entries);
    assert forall|k: Seq<char>| #[trigger]
        values_of(more, k) == (if k == key {
            values_of(entries, k).push(value)
        } else {
            values_of(entries, k)
        }) by {}
    if keys.contains(key) {
        let j = keys.index_of(key);
        assert(grouped(more) =~= grouped(entries).update(
            j,
            (key, grouped(entries)[j].1.push(value)),
        ));
    } else {
        assert(values_of(entries, key) =~= Seq::<V>::empty()) by {
            lemma_values_absent(entries, key);
        }
        assert(Seq::<V>::empty().push(value) =~= seq![value]);
        assert(grouped(more) =~= grouped(entries).push((key, seq![value])));
    }
}

/// A key that no entry has gathers no values.
pub proof fn lemma_values_absent<V>(entries: Seq<(Seq<char>, V)>, key: Seq<char>)
    requires
        !keys_in_order(entries).contains(key),
    ensures
        values_of(entries, key).len() == 0,
    decreases entries.len(),
{
    if entries.len() > 0 {
        let before = keys_in_order(entries.drop_last());
        if before.contains(key) {
            let w = choose|w: int| 0 <= w < before.len() && before[w] == key;
            assert(keys_in_order(entries)[w] == key);
        }
        if entries.last().0 == key {
            if before.contains(key) {
            } else {
                assert(keys_in_order(entries)[before.len() as int] == key);
            }
        }
        lemma_values_absent(entries.drop_last(), key);
    }
}

/// The values under a key in two lists of entries, one behind the other, are its values
/// in the first followed by its values in the second.
pub proof fn lemma_values_concat<V>(
    first: Seq<(Seq<char>, V)>,
    second: Seq<(Seq<char>, V)>,
    key: Seq<char>,
)
    ensures
        values_of(first + second, key) == values_of(first, key) + values_of(second, key),
    decreases second.len(),
{
    if second.len() == 0 {
        assert(first + second =~= first);
        assert(values_of(first, key) + values_of(second, key) =~= values_of(first, key));
    } else {
        assert((first + second).drop_last() =~= first + second.drop_last());
        lemma_values_concat(first, second.drop_last(), key);
        assert(values_of(first + second, key) =~= values_of(first, key) + values_of(
            second,
            key,
        ));
    }
}

/// `entries` with `f` applied to every value.
pub open spec fn map_entries<V, W>(entries: Seq<(Seq<char>, V)>, f: spec_fn(V) -> W) -> Seq<
    (Seq<char>, W),
> {
    entries.map_values(|e: (Seq<char>, V)| (e.0, f(e.1)))
}

/// `groups` with `f` applied to every value of every group.
pub open spec fn map_groups<V, W>(groups: Seq<(Seq<char>, Seq<V>)>, f: spec_fn(V) -> W) -> Seq<
    (Seq<char>, Seq<W>),
> {
    groups.map_values(|g: (Seq<char>, Seq<V>)| (g.0, g.1.map_values(f)))
}

/// A change of the values leaves the keys in place and changes the values under each key.
proof fn lemma_map_keys_values<V, W>(
    entries: Seq<(Seq<char>, V)>,
    f: spec_fn(V) -> W,
    key: Seq<char>,
)
    ensures
        keys_in_order(map_entries(entries, f)) == keys_in_order(entries),
        values_of(map_entries(entries, f), key) == values_of(entries, key).map_values(f),
    decreases entries.len(),
{
    let mapped = map_entries(entries, f);
    if entries.len() > 0 {
        assert(mapped.drop_last() =~= map_entries(entries.drop_last(), f));
        lemma_map_keys_values(entries.drop_last(), f, key);
        assert(values_of(mapped, key) =~= values_of(entries, key).map_values(f));
    } else {
        assert(values_of(mapped, key) =~= values_of(entries, key).map_values(f));
    }
}

/// Grouping and a change of the values can be done in either order.
pub proof fn lemma_grouped_map<V, W>(entries: Seq<(Seq<char>, V)>, f: spec_fn(V) -> W)
    ensures
        grouped(map_entries(entries, f)) == map_groups(grouped(entries), f),
{
    lemma_map_keys_values(entries, f, Seq::empty());
    assert forall|k: Seq<char>| #[trigger]
        values_of(map_entries(entries, f), k) == values_of(entries, k).map_values(f) by {
        lemma_map_keys_values(entries, f, k);
    }
    assert(grouped(map_entries(entries, f)) =~= map_groups(grouped(entries), f));
}

/// Groups `entries` by key: one group for each distinct key, in order of first appearance,
/// holding the values of that key in their order.
pub fn group_by_key<V>(entries: Vec<(String, V)>) -> (groups: Vec<(String, Vec<V>)>)
    ensures
        group_views(groups@) == grouped(keyed(entries@)),
{
    let mut groups: Vec<(String, Vec<V>)> = Vec::new();
    let mut slots = slots_new();
    let ghost all = keyed(entries@);
    assert(all.take(0) =~= Seq::<(Seq<char>, V)>::empty());
    assert(group_views(groups@) =~= grouped(all.take(0)));
    for entry in it: entries
        invariant
            all == keyed(it.seq()),
            group_views(groups@) == grouped(all.take(it.index() as int)),
            forall|j: int|
                0 <= j < groups.len() ==> slot_map(slots).contains_key(
                    (#[trigger] groups[j]).0@,
                ) && slot_map(slots)[groups[j].0@] == j,
            forall|k: Seq<char>| #[trigger]
                slot_map(slots).contains_key(k) ==> slot_map(slots)[k] < groups.len()
                    && groups[slot_map(slots)[k] as int].0@ == k,
    {
        let (key, value) = entry;
        let ghost seen = all.take(it.index() as int);
        let ghost old_groups = groups@;
        proof {
            assert(all.take(it.index() + 1) =~= seen.push((key@, value)));
            lemma_grouped_push(seen, key@, value);
            lemma_keys_distinct(seen);
            assert(group_views(groups@).len() == groups@.len());
            assert(grouped(seen).len() == keys_in_order(seen).len());
            if slot_map(slots).contains_key(key@) {
                let j = slot_map(slots)[key@] as int;
                assert(group_views(groups@)[j].0 == groups@[j].0@);
                assert(grouped(seen)[j].0 == keys_in_order(seen)[j]);
                assert(keys_in_order(seen)[j] == key@);
            } else {
                if keys_in_order(seen).contains(key@) {
                    let j = keys_in_order(seen).index_of(key@);
                    assert(group_views(groups@)[j].0 == groups@[j].0@);
                    assert(grouped(seen)[j].0 == keys_in_order(seen)[j]);
                    assert(slot_map(slots).contains_key(groups[j].0@));
                }
            }
        }
        match slots_get(&slots, key.as_str()) {
            Some(slot) => {
                groups[slot].1.push(value);
                assert(group_views(groups@) =~= group_views(old_groups).update(
                    slot as int,
                    (key@, group_views(old_groups)[slot as int].1.push(value)),
                ));
            },
            None => {
                let mut values: Vec<V> = Vec::new();
                values.push(value);
                slots_insert(&mut slots, key.clone(), groups.len());
                groups.push((key, values));
                assert(group_views(groups@) =~= group_views(old_groups).push(
                    (key@, seq![value]),
                ));
            },
        }
    }
    assert(all.take(all.len() as int) =~= all);
    groups
}

} // verus!
