//! The table of groups that an aggregation builds up: one entry per group key, kept in key order.

use crate::field::FieldValue;
use crate::order::{
    compare_keys, key_lt, lemma_key_le_antisymmetric, lemma_key_le_total, lemma_key_le_transitive,
    values, Order,
};
use vstd::prelude::*;

verus! {

/// A group: its key and the state of its aggregates.
pub struct Group<F> {
    pub key: Vec<F>,
    pub state: Vec<F>,
}

/// The groups seen so far, in strictly ascending key order.
pub struct GroupTable<F> {
    groups: Vec<Group<F>>,
}

/// The key and the state of each group of a vector of groups, by their values.
pub open spec fn group_values<F: View>(groups: Seq<Group<F>>) -> Seq<(Seq<F::V>, Seq<F::V>)> {
    groups.map_values(|g: Group<F>| (values(g.key@), values(g.state@)))
}

/// Whether the keys strictly ascend.
pub open spec fn ascending<F: FieldValue>(entries: Seq<(Seq<F::V>, Seq<F::V>)>) -> bool {
    forall|i: int, j: int| 0 <= i < j < entries.len() ==> key_lt::<F>(entries[i].0, entries[j].0)
}

/// Whether one of the entries has this key.
pub open spec fn has_key<V>(entries: Seq<(Seq<V>, Seq<V>)>, key: Seq<V>) -> bool {
    exists|i: int| 0 <= i < entries.len() && (#[trigger] entries[i]).0 == key
}

/// Whether `entries` holds exactly the entries of `m`, in ascending key order.
pub open spec fn lists<F: FieldValue>(
    entries: Seq<(Seq<F::V>, Seq<F::V>)>,
    m: Map<Seq<F::V>, Seq<F::V>>,
) -> bool {
    &&& ascending::<F>(entries)
    &&& forall|key: Seq<F::V>| #[trigger] m.contains_key(key) <==> has_key(entries, key)
    &&& forall|i: int| 0 <= i < entries.len() ==> m[(#[trigger] entries[i]).0] == entries[i].1
}

/// The entries of `m` in ascending key order. They are unique where there are any
/// (`lemma_listing_unique`).
pub open spec fn listing<F: FieldValue>(m: Map<Seq<F::V>, Seq<F::V>>) -> Seq<
    (Seq<F::V>, Seq<F::V>),
> {
    choose|entries: Seq<(Seq<F::V>, Seq<F::V>)>| lists::<F>(entries, m)
}

/// The map with these entries.
pub open spec fn entries_map<V>(entries: Seq<(Seq<V>, Seq<V>)>) -> Map<Seq<V>, Seq<V>> {
    Map::new(
        |key: Seq<V>| has_key(entries, key),
        |key: Seq<V>|
            entries[choose|i: int| 0 <= i < entries.len() && (#[trigger] entries[i]).0 == key].1,
    )
}

/// Two listings of one map are the same.
pub proof fn lemma_listing_unique<F: FieldValue>(
    a: Seq<(Seq<F::V>, Seq<F::V>)>,
    b: Seq<(Seq<F::V>, Seq<F::V>)>,
    m: Map<Seq<F::V>, Seq<F::V>>,
)
    requires
        lists::<F>(a, m),
        lists::<F>(b, m),
    ensures
        a == b,
    decreases a.len(),
{
    if a.len() == 0 {
        if b.len() > 0 {
            assert(has_key(b, b[0].0));
            assert(m.contains_key(b[0].0));
        }
        assert(a =~= b);
    } else {
        assert(has_key(a, a[0].0));
        assert(m.contains_key(a[0].0));
        assert(has_key(b, a[0].0));
        let j = choose|j: int| 0 <= j < b.len() && (#[trigger] b[j]).0 == a[0].0;
        assert(has_key(b, b[0].0));
        assert(m.contains_key(b[0].0));
        assert(has_key(a, b[0].0));
        let i = choose|i: int| 0 <= i < a.len() && (#[trigger] a[i]).0 == b[0].0;
        if a[0].0 != b[0].0 {
            lemma_key_le_antisymmetric::<F>(a[0].0, b[0].0);
            assert(key_lt::<F>(a[0].0, a[i].0));
            assert(key_lt::<F>(b[0].0, b[j].0));
        }
        let key = a[0].0;
        let rest = m.remove(key);
        lemma_lists_rest::<F>(a, m);
        lemma_lists_rest::<F>(b, m);
        lemma_listing_unique::<F>(a.drop_first(), b.drop_first(), rest);
        assert(m[a[0].0] == a[0].1);
        assert(m[b[0].0] == b[0].1);
        assert(a =~= seq![a[0]] + a.drop_first());
        assert(b =~= seq![b[0]] + b.drop_first());
    }
}

proof fn lemma_lists_rest<F: FieldValue>(
    a: Seq<(Seq<F::V>, Seq<F::V>)>,
    m: Map<Seq<F::V>, Seq<F::V>>,
)
    requires
        lists::<F>(a, m),
        a.len() > 0,
    ensures
        lists::<F>(a.drop_first(), m.remove(a[0].0)),
{
    let rest = a.drop_first();
    let m1 = m.remove(a[0].0);
    assert forall|key: Seq<F::V>| #[trigger] m1.contains_key(key) <==> has_key(rest, key) by {
        if m1.contains_key(key) {
            assert(m.contains_key(key));
            let i = choose|i: int| 0 <= i < a.len() && (#[trigger] a[i]).0 == key;
            assert(rest[i - 1] == a[i]);
        }
        if has_key(rest, key) {
            let i = choose|i: int| 0 <= i < rest.len() && (#[trigger] rest[i]).0 == key;
            assert(a[i + 1].0 == key);
            assert(has_key(a, key));
            assert(key_lt::<F>(a[0].0, a[i + 1].0));
        }
    }
    assert forall|i: int| 0 <= i < rest.len() implies m1[(#[trigger] rest[i]).0] == rest[i].1 by {
        assert(m[a[i + 1].0] == a[i + 1].1);
        assert(key_lt::<F>(a[0].0, a[i + 1].0));
    }
}

/// A listing of `m` is `listing(m)`.
pub proof fn lemma_listing<F: FieldValue>(
    entries: Seq<(Seq<F::V>, Seq<F::V>)>,
    m: Map<Seq<F::V>, Seq<F::V>>,
)
    requires
        lists::<F>(entries, m),
    ensures
        listing::<F>(m) == entries,
{
    lemma_listing_unique::<F>(entries, listing::<F>(m), m);
}

/// Without entries the listing is empty.
pub proof fn lemma_listing_empty<F: FieldValue>()
    ensures
        listing::<F>(Map::empty()) == Seq::<(Seq<F::V>, Seq<F::V>)>::empty(),
{
    lemma_listing::<F>(Seq::empty(), Map::empty());
}

/// Entries in ascending key order list the map that they make up.
pub proof fn lemma_lists_entries_map<F: FieldValue>(entries: Seq<(Seq<F::V>, Seq<F::V>)>)
    requires
        ascending::<F>(entries),
    ensures
        lists::<F>(entries, entries_map(entries)),
{
    let m = entries_map(entries);
    assert forall|i: int| 0 <= i < entries.len() implies m[(#[trigger] entries[i]).0]
        == entries[i].1 by {
        let key = entries[i].0;
        assert(has_key(entries, key));
        let j = choose|j: int| 0 <= j < entries.len() && (#[trigger] entries[j]).0 == key;
        if j < i {
            assert(key_lt::<F>(entries[j].0, entries[i].0));
        } else if i < j {
            assert(key_lt::<F>(entries[i].0, entries[j].0));
        }
    }
}

impl<F: FieldValue> View for GroupTable<F> {
    type V = Map<Seq<F::V>, Seq<F::V>>;

    closed spec fn view(&self) -> Map<Seq<F::V>, Seq<F::V>> {
        entries_map(group_values(self.groups@))
    }
}

impl<F: FieldValue> GroupTable<F> {
    /// The keys strictly ascend, so that none occurs twice.
    pub closed spec fn wf(&self) -> bool {
        ascending::<F>(group_values(self.groups@))
    }

    /// The groups of a table have a listing.
    pub proof fn lemma_listed(&self)
        requires
            self.wf(),
        ensures
            lists::<F>(listing::<F>(self@), self@),
    {
        lemma_lists_entries_map::<F>(group_values(self.groups@));
        lemma_listing::<F>(group_values(self.groups@), self@);
    }

    /// A table without groups.
    pub fn new() -> (r: Self)
        ensures
            r.wf(),
            r@ == Map::<Seq<F::V>, Seq<F::V>>::empty(),
    {
        let r = GroupTable { groups: Vec::new() };
        assert(r@ =~= Map::empty());
        r
    }

    /// Forgets every group.
    pub fn clear(&mut self)
        ensures
            final(self).wf(),
            final(self)@ == Map::<Seq<F::V>, Seq<F::V>>::empty(),
    {
        self.groups.clear();
        assert(self@ =~= Map::empty());
    }

    /// Where the group with this key is, or else where it belongs.
    fn find(&self, key: &Vec<F>) -> (r: Result<usize, usize>)
        requires
            self.wf(),
        ensures
            match r {
                Ok(i) => {
                    &&& i < self.groups.len()
                    &&& group_values(self.groups@)[i as int].0 == values(key@)
                },
                Err(i) => {
                    &&& i <= self.groups.len()
                    &&& forall|j: int|
                        0 <= j < i ==> key_lt::<F>(
                            (#[trigger] group_values(self.groups@)[j]).0,
                            values(key@),
                        )
                    &&& forall|j: int|
                        i <= j < self.groups.len() ==> key_lt::<F>(
                            values(key@),
                            (#[trigger] group_values(self.groups@)[j]).0,
                        )
                },
            },
    {
        let ghost entries = group_values(self.groups@);
        let ghost k = values(key@);
        let mut lo: usize = 0;
        let mut hi: usize = self.groups.len();
        while lo < hi
            invariant
                lo <= hi <= self.groups.len(),
                entries == group_values(self.groups@),
                entries.len() == self.groups.len(),
                k == values(key@),
                ascending::<F>(entries),
                forall|j: int| 0 <= j < lo ==> key_lt::<F>((#[trigger] entries[j]).0, k),
                forall|j: int|
                    hi <= j < entries.len() ==> key_lt::<F>(k, (#[trigger] entries[j]).0),
            decreases hi - lo,
        {
            let mid: usize = lo + (hi - lo) / 2;
            match compare_keys(self.groups[mid].key.as_slice(), key.as_slice()) {
                Order::Equal => {
                    return Ok(mid);
                },
                Order::Less => {
                    proof {
                        assert forall|j: int| 0 <= j < mid + 1 implies key_lt::<F>(
                            (#[trigger] entries[j]).0,
                            k,
                        ) by {
                            if j < mid {
                                assert(key_lt::<F>(entries[j].0, entries[mid as int].0));
                                lemma_key_lt_transitive::<F>(
                                    entries[j].0,
                                    entries[mid as int].0,
                                    k,
                                );
                            }
                        }
                    }
                    lo = mid + 1;
                },
                Order::Greater => {
                    proof {
                        assert forall|j: int| mid <= j < entries.len() implies key_lt::<F>(
                            k,
                            (#[trigger] entries[j]).0,
                        ) by {
                            if mid < j {
                                assert(key_lt::<F>(entries[mid as int].0, entries[j].0));
                                lemma_key_lt_transitive::<F>(
                                    k,
                                    entries[mid as int].0,
                                    entries[j].0,
                                );
                            }
                        }
                    }
                    hi = mid;
                },
            }
        }
        Err(lo)
    }

    /// The state of the group with this key, to be changed in place.
    pub fn get_mut(&mut self, key: &Vec<F>) -> (r: Option<&mut Vec<F>>)
        requires
            old(self).wf(),
        ensures
            final(self).wf(),
            match r {
                Some(state) => {
                    &&& old(self)@.contains_key(values(key@))
                    &&& values(state@) == old(self)@[values(key@)]
                    &&& final(self)@ == old(self)@.insert(values(key@), values(final(state)@))
                },
                None => {
                    &&& !old(self)@.contains_key(values(key@))
                    &&& final(self)@ == old(self)@
                },
            },
    {
        match self.find(key) {
            Ok(i) => {
                let ghost before = group_values(self.groups@);
                let state = &mut self.groups[i].state;
                proof {
                    let after = values(final(state)@);
                    lemma_lists_entries_map::<F>(before);
                    assert(has_key(before, before[i as int].0));
                    lemma_update_entry::<F>(before, i as int, after);
                    assert(group_values(after_borrow(self).groups@) =~= before.update(
                        i as int,
                        (before[i as int].0, after),
                    ));
                }
                Some(state)
            },
            Err(i) => {
                proof {
                    let before = group_values(self.groups@);
                    if has_key(before, values(key@)) {
                        let j = choose|j: int|
                            0 <= j < before.len() && (#[trigger] before[j]).0 == values(key@);
                        assert(j < i || i <= j);
                    }
                }
                None
            },
        }
    }

    /// Makes `state` the state of the group `key`.
    pub fn insert(&mut self, key: Vec<F>, state: Vec<F>)
        requires
            old(self).wf(),
        ensures
            final(self).wf(),
            final(self)@ == old(self)@.insert(values(key@), values(state@)),
    {
        let ghost before = group_values(self.groups@);
        let ghost k = values(key@);
        let ghost s = values(state@);
        proof {
            lemma_lists_entries_map::<F>(before);
        }
        match self.find(&key) {
            Ok(i) => {
                self.groups[i].state = state;
                proof {
                    assert(group_values(self.groups@) =~= before.update(i as int, (k, s)));
                    lemma_update_entry::<F>(before, i as int, s);
                }
            },
            Err(i) => {
                self.groups.insert(i, Group { key, state });
                proof {
                    assert(group_values(self.groups@) =~= before.insert(i as int, (k, s)));
                    lemma_insert_entry::<F>(before, i as int, k, s);
                }
            },
        }
    }

    /// Takes every group out, in ascending key order.
    pub fn drain(&mut self) -> (r: Vec<Group<F>>)
        requires
            old(self).wf(),
        ensures
            final(self).wf(),
            final(self)@ == Map::<Seq<F::V>, Seq<F::V>>::empty(),
            lists::<F>(group_values(r@), old(self)@),
            group_values(r@) == listing::<F>(old(self)@),
    {
        proof {
            lemma_lists_entries_map::<F>(group_values(self.groups@));
            lemma_listing::<F>(group_values(self.groups@), self@);
        }
        let mut r = Vec::new();
        std::mem::swap(&mut r, &mut self.groups);
        assert(self@ =~= Map::empty());
        r
    }
}

pub proof fn lemma_key_lt_transitive<F: FieldValue>(a: Seq<F::V>, b: Seq<F::V>, c: Seq<F::V>)
    requires
        key_lt::<F>(a, b),
        key_lt::<F>(b, c),
    ensures
        key_lt::<F>(a, c),
{
    lemma_key_le_transitive::<F>(a, b, c);
    lemma_key_le_antisymmetric::<F>(a, b);
}

/// Changing the state of an entry changes the map at its key.
proof fn lemma_update_entry<F: FieldValue>(
    entries: Seq<(Seq<F::V>, Seq<F::V>)>,
    i: int,
    state: Seq<F::V>,
)
    requires
        ascending::<F>(entries),
        0 <= i < entries.len(),
    ensures
        ascending::<F>(entries.update(i, (entries[i].0, state))),
        entries_map(entries.update(i, (entries[i].0, state))) == entries_map(entries).insert(
            entries[i].0,
            state,
        ),
{
    let key = entries[i].0;
    let after = entries.update(i, (key, state));
    let m = entries_map(entries);
    let m1 = entries_map(after);
    lemma_lists_entries_map::<F>(entries);
    lemma_lists_entries_map::<F>(after);
    assert forall|k: Seq<F::V>| #[trigger] m1.contains_key(k) <==> m.insert(
        key,
        state,
    ).contains_key(k) by {
        if has_key(after, k) {
            let j = choose|j: int| 0 <= j < after.len() && (#[trigger] after[j]).0 == k;
            assert(entries[j].0 == k);
        }
        if has_key(entries, k) {
            let j = choose|j: int| 0 <= j < entries.len() && (#[trigger] entries[j]).0 == k;
            assert(after[j].0 == k);
        }
        assert(after[i].0 == key);
    }
    assert forall|k: Seq<F::V>| #[trigger] m1.contains_key(k) implies m1[k] == m.insert(
        key,
        state,
    )[k] by {
        let j = choose|j: int| 0 <= j < after.len() && (#[trigger] after[j]).0 == k;
        assert(entries[j].0 == k);
        if j == i {
            assert(m1[after[i].0] == after[i].1);
        } else {
            assert(m[entries[j].0] == entries[j].1);
            if j < i {
                assert(key_lt::<F>(entries[j].0, entries[i].0));
            } else {
                assert(key_lt::<F>(entries[i].0, entries[j].0));
            }
        }
    }
    assert(m1 =~= m.insert(key, state));
}

/// Putting an entry where its key belongs inserts it into the map.
proof fn lemma_insert_entry<F: FieldValue>(
    entries: Seq<(Seq<F::V>, Seq<F::V>)>,
    i: int,
    key: Seq<F::V>,
    state: Seq<F::V>,
)
    requires
        ascending::<F>(entries),
        0 <= i <= entries.len(),
        forall|j: int| 0 <= j < i ==> key_lt::<F>((#[trigger] entries[j]).0, key),
        forall|j: int| i <= j < entries.len() ==> key_lt::<F>(key, (#[trigger] entries[j]).0),
    ensures
        ascending::<F>(entries.insert(i, (key, state))),
        entries_map(entries.insert(i, (key, state))) == entries_map(entries).insert(key, state),
{
    let after = entries.insert(i, (key, state));
    assert forall|a: int, b: int| 0 <= a < b < after.len() implies key_lt::<F>(
        after[a].0,
        after[b].0,
    ) by {
        let a0 = if a < i { a } else { a - 1 };
        let b0 = if b < i { b } else { b - 1 };
        if a != i {
            assert(after[a] == entries[a0]);
        }
        if b != i {
            assert(after[b] == entries[b0]);
        }
        if a != i && b != i {
            assert(key_lt::<F>(entries[a0].0, entries[b0].0));
        }
    }
    let m = entries_map(entries);
    let m1 = entries_map(after);
    lemma_lists_entries_map::<F>(entries);
    lemma_lists_entries_map::<F>(after);
    assert(after[i] == (key, state));
    assert forall|k: Seq<F::V>| #[trigger] m1.contains_key(k) <==> m.insert(
        key,
        state,
    ).contains_key(k) by {
        if has_key(after, k) {
            let j = choose|j: int| 0 <= j < after.len() && (#[trigger] after[j]).0 == k;
            if j < i {
                assert(entries[j].0 == k);
            } else if j > i {
                assert(entries[j - 1].0 == k);
            }
        }
        if has_key(entries, k) {
            let j = choose|j: int| 0 <= j < entries.len() && (#[trigger] entries[j]).0 == k;
            if j < i {
                assert(after[j].0 == k);
            } else {
                assert(after[j + 1].0 == k);
            }
        }
    }
    assert forall|k: Seq<F::V>| #[trigger] m1.contains_key(k) implies m1[k] == m.insert(
        key,
        state,
    )[k] by {
        let j = choose|j: int| 0 <= j < after.len() && (#[trigger] after[j]).0 == k;
        assert(m1[after[j].0] == after[j].1);
        if j < i {
            assert(m[entries[j].0] == entries[j].1);
        } else if j > i {
            assert(after[j] == entries[j - 1]);
            assert(m[entries[j - 1].0] == entries[j - 1].1);
        }
    }
    assert(m1 =~= m.insert(key, state));
}

/// A map is made up by its listing.
pub proof fn lemma_lists_is_entries_map<F: FieldValue>(
    entries: Seq<(Seq<F::V>, Seq<F::V>)>,
    m: Map<Seq<F::V>, Seq<F::V>>,
)
    requires
        lists::<F>(entries, m),
    ensures
        m == entries_map(entries),
{
    lemma_lists_entries_map::<F>(entries);
    let m1 = entries_map(entries);
    assert forall|key: Seq<F::V>| #[trigger] m.contains_key(key) implies m[key] == m1[key] by {
        let i = choose|i: int| 0 <= i < entries.len() && (#[trigger] entries[i]).0 == key;
        assert(m[entries[i].0] == entries[i].1);
        assert(m1[entries[i].0] == entries[i].1);
    }
    assert(m =~= m1);
}

/// Where a new key belongs among ascending entries.
proof fn lemma_position<F: FieldValue>(
    entries: Seq<(Seq<F::V>, Seq<F::V>)>,
    key: Seq<F::V>,
) -> (i: int)
    requires
        ascending::<F>(entries),
        !has_key(entries, key),
    ensures
        0 <= i <= entries.len(),
        forall|j: int| 0 <= j < i ==> key_lt::<F>((#[trigger] entries[j]).0, key),
        forall|j: int| i <= j < entries.len() ==> key_lt::<F>(key, (#[trigger] entries[j]).0),
    decreases entries.len(),
{
    if entries.len() == 0 {
        0
    } else {
        let rest = entries.drop_last();
        let last = entries.last();
        if has_key(rest, key) {
            let j = choose|j: int| 0 <= j < rest.len() && (#[trigger] rest[j]).0 == key;
            assert(entries[j].0 == key);
        }
        assert(last.0 != key);
        lemma_key_le_total::<F>(last.0, key);
        lemma_key_le_antisymmetric::<F>(last.0, key);
        if key_lt::<F>(last.0, key) {
            assert forall|j: int| 0 <= j < entries.len() implies key_lt::<F>(
                (#[trigger] entries[j]).0,
                key,
            ) by {
                if j < entries.len() - 1 {
                    assert(key_lt::<F>(entries[j].0, entries[entries.len() - 1].0));
                    lemma_key_lt_transitive::<F>(entries[j].0, last.0, key);
                }
            }
            entries.len() as int
        } else {
            let i = lemma_position::<F>(rest, key);
            assert forall|j: int| 0 <= j < i implies key_lt::<F>(
                (#[trigger] entries[j]).0,
                key,
            ) by {
                assert(rest[j] == entries[j]);
            }
            assert forall|j: int| i <= j < entries.len() implies key_lt::<F>(
                key,
                (#[trigger] entries[j]).0,
            ) by {
                if j < rest.len() {
                    assert(rest[j] == entries[j]);
                }
            }
            i
        }
    }
}

/// Where a map has a listing, so has the map with one entry set.
pub proof fn lemma_lists_insert<F: FieldValue>(
    entries: Seq<(Seq<F::V>, Seq<F::V>)>,
    m: Map<Seq<F::V>, Seq<F::V>>,
    key: Seq<F::V>,
    state: Seq<F::V>,
) -> (after: Seq<(Seq<F::V>, Seq<F::V>)>)
    requires
        lists::<F>(entries, m),
    ensures
        lists::<F>(after, m.insert(key, state)),
{
    lemma_lists_is_entries_map::<F>(entries, m);
    if has_key(entries, key) {
        let i = choose|i: int| 0 <= i < entries.len() && (#[trigger] entries[i]).0 == key;
        lemma_update_entry::<F>(entries, i, state);
        let after = entries.update(i, (key, state));
        lemma_lists_entries_map::<F>(after);
        after
    } else {
        let i = lemma_position::<F>(entries, key);
        lemma_insert_entry::<F>(entries, i, key, state);
        let after = entries.insert(i, (key, state));
        lemma_lists_entries_map::<F>(after);
        after
    }
}

} // verus!
