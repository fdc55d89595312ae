use vstd::prelude::*;
use crate::entity::{Entity, EntityId};

verus! {

/// The keys of `s` are strictly increasing.
pub open spec fn sorted_keys(s: Seq<(EntityId, Entity)>) -> bool {
    forall|i: int, j: int| 0 <= i < j < s.len() ==> s[i].0 < s[j].0
}

/// No two entries of `s` have the same key.
pub open spec fn unique_keys(s: Seq<(EntityId, Entity)>) -> bool {
    forall|i: int, j: int| 0 <= i < j < s.len() ==> s[i].0 != s[j].0
}

/// Some entry of `s` has key `k`.
pub open spec fn has_key(s: Seq<(EntityId, Entity)>, k: EntityId) -> bool {
    exists|i: int| 0 <= i < s.len() && s[i].0 == k
}

/// The map from key to entity that the entries of `s` spell out.
pub open spec fn entry_map(s: Seq<(EntityId, Entity)>) -> Map<EntityId, Entity> {
    Map::new(
        |k: EntityId| has_key(s, k),
        |k: EntityId| s[choose|i: int| 0 <= i < s.len() && s[i].0 == k].1,
    )
}

/// `m` after inserting each entry of `es` in order: a later entry replaces an
/// earlier one with the same key.
pub open spec fn insert_all(m: Map<EntityId, Entity>, es: Seq<(EntityId, Entity)>) -> Map<EntityId, Entity>
    decreases es.len(),
{
    if es.len() == 0 {
        m
    } else {
        insert_all(m, es.drop_last()).insert(es.last().0, es.last().1)
    }
}

/// `m` without any of the keys in `ids`.
pub open spec fn remove_all(m: Map<EntityId, Entity>, ids: Seq<EntityId>) -> Map<EntityId, Entity>
    decreases ids.len(),
{
    if ids.len() == 0 {
        m
    } else {
        remove_all(m, ids.drop_last()).remove(ids.last())
    }
}

proof fn lemma_entry_at(s: Seq<(EntityId, Entity)>, i: int)
    requires
        sorted_keys(s) || unique_keys(s),
        0 <= i < s.len(),
    ensures
        entry_map(s).contains_key(s[i].0),
        entry_map(s)[s[i].0] == s[i].1,
{
    assert(has_key(s, s[i].0));
    let j = choose|j: int| 0 <= j < s.len() && s[j].0 == s[i].0;
    if j < i {
        assert(s[j].0 != s[i].0);
    } else if i < j {
        assert(s[i].0 != s[j].0);
    }
}

/// Entities keyed by id, held as entries sorted by key.
#[derive(Clone, Debug)]
pub struct EntityTable {
    entries: Vec<(EntityId, Entity)>,
}

impl View for EntityTable {
    type V = Map<EntityId, Entity>;

    closed spec fn view(&self) -> Map<EntityId, Entity> {
        entry_map(self.entries@)
    }
}

impl EntityTable {
    pub closed spec fn wf(&self) -> bool {
        sorted_keys(self.entries@)
    }

    /// The entries, in increasing order of key.
    pub closed spec fn spec_entries(&self) -> Seq<(EntityId, Entity)> {
        self.entries@
    }

    /// The entries are sorted by key, and spell out the table's map.
    pub proof fn lemma_entries(&self)
        requires
            self.wf(),
        ensures
            sorted_keys(self.spec_entries()),
            self@ == entry_map(self.spec_entries()),
    {
    }

    pub fn new() -> (r: Self)
        ensures
            r.wf(),
            r@ == Map::<EntityId, Entity>::empty(),
    {
        let r = EntityTable { entries: Vec::new() };
        assert(r@ =~= Map::<EntityId, Entity>::empty());
        r
    }

    /// The entries, in increasing order of key.
    pub fn entries(&self) -> (r: &Vec<(EntityId, Entity)>)
        ensures
            r@ == self.spec_entries(),
    {
        &self.entries
    }

    /// The first index whose key is not below `k`.
    fn lower_bound(&self, k: EntityId) -> (r: usize)
        requires
            self.wf(),
        ensures
            r <= self.entries@.len(),
            forall|i: int| 0 <= i < r ==> self.entries@[i].0 < k,
            forall|i: int| r <= i < self.entries@.len() ==> self.entries@[i].0 >= k,
    {
        let mut i: usize = 0;
        while i < self.entries.len() && self.entries[i].0 < k
            invariant
                self.wf(),
                i <= self.entries@.len(),
                forall|j: int| 0 <= j < i ==> self.entries@[j].0 < k,
            decreases self.entries@.len() - i,
        {
            i += 1;
        }
        proof {
            if i < self.entries@.len() {
                assert forall|j: int| i <= j < self.entries@.len() implies self.entries@[j].0 >= k by {
                    if j > i {
                        assert(self.entries@[i as int].0 < self.entries@[j].0);
                    }
                }
            }
        }
        i
    }

    /// Inserts `e` under `k`, replacing any entity already there.
    pub fn insert(&mut self, k: EntityId, e: Entity)
        requires
            old(self).wf(),
        ensures
            final(self).wf(),
            final(self)@ == old(self)@.insert(k, e),
    {
        let ghost s = self.entries@;
        let i = self.lower_bound(k);
        if i < self.entries.len() && self.entries[i].0 == k {
            self.entries.set(i, (k, e));
            proof {
                let t = self.entries@;
                assert(sorted_keys(t));
                assert forall|q: EntityId| #[trigger] has_key(t, q) <==> (q == k || has_key(s, q)) by {
                    if has_key(s, q) {
                        let j = choose|j: int| 0 <= j < s.len() && s[j].0 == q;
                        assert(t[j].0 == q);
                    }
                    if has_key(t, q) {
                        let j = choose|j: int| 0 <= j < t.len() && t[j].0 == q;
                        assert(s[j].0 == q);
                    }
                }
                assert forall|q: EntityId| #[trigger] entry_map(t).contains_key(q) implies entry_map(t)[q] == entry_map(s).insert(k, e)[q] by {
                    let j = choose|j: int| 0 <= j < t.len() && t[j].0 == q;
                    lemma_entry_at(t, j);
                    if q != k {
                        lemma_entry_at(s, j);
                    }
                }
                assert(entry_map(t) =~= entry_map(s).insert(k, e));
            }
        } else {
            self.entries.insert(i, (k, e));
            proof {
                let t = self.entries@;
                assert(t[i as int] == (k, e));
                assert(forall|j: int| 0 <= j < i ==> t[j] == s[j]);
                assert(forall|j: int| i < j < t.len() ==> t[j] == s[j - 1]);
                assert(sorted_keys(t)) by {
                    assert forall|a: int, b: int| 0 <= a < b < t.len() implies t[a].0 < t[b].0 by {
                        if b < i {
                        } else if b == i {
                        } else if a < i {
                        } else if a == i {
                            assert(s[b - 1].0 >= k);
                            assert(s[b - 1].0 != k || b - 1 == i as int);
                            if b - 1 > i {
                                assert(s[i as int].0 < s[b - 1].0);
                            }
                        } else {
                        }
                    }
                }
                assert forall|q: EntityId| #[trigger] has_key(t, q) <==> (q == k || has_key(s, q)) by {
                    if has_key(s, q) {
                        let j = choose|j: int| 0 <= j < s.len() && s[j].0 == q;
                        if j < i {
                            assert(t[j].0 == q);
                        } else {
                            assert(t[j + 1].0 == q);
                        }
                    }
                    if q == k {
                        assert(t[i as int].0 == q);
                    }
                    if has_key(t, q) && q != k {
                        let j = choose|j: int| 0 <= j < t.len() && t[j].0 == q;
                        if j < i {
                            assert(s[j].0 == q);
                        } else {
                            assert(s[j - 1].0 == q);
                        }
                    }
                }
                assert forall|q: EntityId| #[trigger] entry_map(t).contains_key(q) implies entry_map(t)[q] == entry_map(s).insert(k, e)[q] by {
                    let j = choose|j: int| 0 <= j < t.len() && t[j].0 == q;
                    lemma_entry_at(t, j);
                    if j < i {
                        lemma_entry_at(s, j);
                    } else if j > i {
                        lemma_entry_at(s, j - 1);
                    }
                }
                assert(entry_map(t) =~= entry_map(s).insert(k, e));
            }
        }
    }

    /// Removes the entity under `k`, if any.
    pub fn remove(&mut self, k: EntityId)
        requires
            old(self).wf(),
        ensures
            final(self).wf(),
            final(self)@ == old(self)@.remove(k),
    {
        let ghost s = self.entries@;
        let i = self.lower_bound(k);
        if i < self.entries.len() && self.entries[i].0 == k {
            self.entries.remove(i);
            proof {
                let t = self.entries@;
                assert(forall|j: int| 0 <= j < i ==> t[j] == s[j]);
                assert(forall|j: int| i <= j < t.len() ==> t[j] == s[j + 1]);
                assert(sorted_keys(t)) by {
                    assert forall|a: int, b: int| 0 <= a < b < t.len() implies t[a].0 < t[b].0 by {
                        if a < i && b >= i {
                            assert(s[a].0 < s[b + 1].0);
                        } else if a >= i {
                            assert(s[a + 1].0 < s[b + 1].0);
                        }
                    }
                }
                assert forall|q: EntityId| #[trigger] has_key(t, q) <==> (q != k && has_key(s, q)) by {
                    if has_key(s, q) && q != k {
                        let j = choose|j: int| 0 <= j < s.len() && s[j].0 == q;
                        if j < i {
                            assert(t[j].0 == q);
                        } else {
                            assert(j != i);
                            assert(t[j - 1].0 == q);
                        }
                    }
                    if has_key(t, q) {
                        let j = choose|j: int| 0 <= j < t.len() && t[j].0 == q;
                        if j < i {
                            assert(s[j].0 == q);
                            assert(s[j].0 < s[i as int].0);
                        } else {
                            assert(s[j + 1].0 == q);
                            assert(s[i as int].0 < s[j + 1].0);
                        }
                    }
                }
                assert forall|q: EntityId| #[trigger] entry_map(t).contains_key(q) implies entry_map(t)[q] == entry_map(s).remove(k)[q] by {
                    let j = choose|j: int| 0 <= j < t.len() && t[j].0 == q;
                    lemma_entry_at(t, j);
                    if j < i {
                        lemma_entry_at(s, j);
                    } else {
                        lemma_entry_at(s, j + 1);
                    }
                }
                assert(entry_map(t) =~= entry_map(s).remove(k));
            }
        } else {
            proof {
                assert(!has_key(s, k)) by {
                    if has_key(s, k) {
                        let j = choose|j: int| 0 <= j < s.len() && s[j].0 == k;
                        if j < i {
                        } else if j == i {
                        } else {
                            assert(s[i as int].0 < s[j].0);
                        }
                    }
                }
                assert(entry_map(s) =~= entry_map(s).remove(k));
            }
        }
    }
}

/// Inserting entries with distinct keys one after another into an empty map
/// gives the map they spell out.
pub proof fn lemma_insert_all_unique(s: Seq<(EntityId, Entity)>)
    requires
        unique_keys(s),
    ensures
        insert_all(Map::empty(), s) == entry_map(s),
    decreases s.len(),
{
    if s.len() > 0 {
        let init = s.drop_last();
        assert(unique_keys(init));
        lemma_insert_all_unique(init);
        let (k, e) = s.last();
        let n = s.len() - 1;
        assert forall|q: EntityId| #[trigger] has_key(s, q) <==> (q == k || has_key(init, q)) by {
            if has_key(s, q) && q != k {
                let j = choose|j: int| 0 <= j < s.len() && s[j].0 == q;
                assert(init[j].0 == q);
            }
            if has_key(init, q) {
                let j = choose|j: int| 0 <= j < init.len() && init[j].0 == q;
                assert(s[j].0 == q);
            }
            if q == k {
                assert(s[n].0 == q);
            }
        }
        assert forall|q: EntityId| #[trigger] entry_map(s).contains_key(q) implies entry_map(s)[q] == entry_map(init).insert(k, e)[q] by {
            let j = choose|j: int| 0 <= j < s.len() && s[j].0 == q;
            lemma_entry_at(s, j);
            if j < n {
                assert(s[j].0 != s[n].0);
                lemma_entry_at(init, j);
            }
        }
        assert(entry_map(s) =~= entry_map(init).insert(k, e));
    }
}

/// Sorted entries have distinct keys.
pub proof fn lemma_sorted_unique(s: Seq<(EntityId, Entity)>)
    requires
        sorted_keys(s),
    ensures
        unique_keys(s),
{
}

proof fn lemma_entry_map_drop_last(s: Seq<(EntityId, Entity)>)
    requires
        sorted_keys(s),
        s.len() > 0,
    ensures
        entry_map(s.drop_last()) == entry_map(s).remove(s.last().0),
        forall|k: EntityId| #[trigger] entry_map(s).contains_key(k) ==> k <= s.last().0,
{
    let init = s.drop_last();
    let n = s.len() - 1;
    assert forall|q: EntityId| #[trigger] has_key(init, q) <==> (q != s[n].0 && has_key(s, q)) by {
        if has_key(init, q) {
            let j = choose|j: int| 0 <= j < init.len() && init[j].0 == q;
            assert(s[j].0 == q && s[j].0 < s[n].0);
        }
        if q != s[n].0 && has_key(s, q) {
            let j = choose|j: int| 0 <= j < s.len() && s[j].0 == q;
            assert(init[j].0 == q);
        }
    }
    assert forall|q: EntityId| #[trigger] entry_map(init).contains_key(q) implies entry_map(init)[q] == entry_map(s).remove(s[n].0)[q] by {
        let j = choose|j: int| 0 <= j < init.len() && init[j].0 == q;
        lemma_entry_at(init, j);
        lemma_entry_at(s, j);
    }
    assert(entry_map(init) =~= entry_map(s).remove(s[n].0));
    assert forall|k: EntityId| #[trigger] entry_map(s).contains_key(k) implies k <= s.last().0 by {
        let j = choose|j: int| 0 <= j < s.len() && s[j].0 == k;
        if j < n {
            assert(s[j].0 < s[n].0);
        }
    }
}

/// Two sorted entry lists that spell out the same map are the same list.
pub proof fn lemma_sorted_same_map(s1: Seq<(EntityId, Entity)>, s2: Seq<(EntityId, Entity)>)
    requires
        sorted_keys(s1),
        sorted_keys(s2),
        entry_map(s1) == entry_map(s2),
    ensures
        s1 == s2,
    decreases s1.len() + s2.len(),
{
    if s1.len() == 0 && s2.len() == 0 {
        assert(s1 =~= s2);
    } else if s1.len() == 0 {
        lemma_entry_at(s2, 0);
        assert(!has_key(s1, s2[0].0));
    } else if s2.len() == 0 {
        lemma_entry_at(s1, 0);
        assert(!has_key(s2, s1[0].0));
    } else {
        lemma_entry_map_drop_last(s1);
        lemma_entry_map_drop_last(s2);
        lemma_entry_at(s1, s1.len() - 1);
        lemma_entry_at(s2, s2.len() - 1);
        let k1 = s1.last().0;
        let k2 = s2.last().0;
        assert(k1 <= k2 && k2 <= k1);
        lemma_sorted_same_map(s1.drop_last(), s2.drop_last());
        assert(s1 =~= s1.drop_last().push(s1.last()));
        assert(s2 =~= s2.drop_last().push(s2.last()));
    }
}

impl EntityTable {
    /// Whether an entity is held under `k`.
    pub fn contains(&self, k: EntityId) -> (r: bool)
        requires
            self.wf(),
        ensures
            r == self@.contains_key(k),
    {
        let i = self.lower_bound(k);
        let found = i < self.entries.len() && self.entries[i].0 == k;
        proof {
            if found {
                lemma_entry_at(self.entries@, i as int);
            } else if has_key(self.entries@, k) {
                let j = choose|j: int| 0 <= j < self.entries@.len() && self.entries@[j].0 == k;
                if j > i {
                    assert(self.entries@[i as int].0 < self.entries@[j].0);
                }
            }
        }
        found
    }
}

impl EntityTable {
    /// A copy with the same entries.
    pub fn duplicate(&self) -> (r: Self)
        requires
            self.wf(),
        ensures
            r.wf(),
            r.spec_entries() == self.spec_entries(),
            r@ == self@,
    {
        let mut entries: Vec<(EntityId, Entity)> = Vec::new();
        let mut i: usize = 0;
        while i < self.entries.len()
            invariant
                i <= self.entries@.len(),
                entries@ == self.entries@.take(i as int),
            decreases self.entries@.len() - i,
        {
            entries.push(self.entries[i]);
            proof {
                assert(self.entries@.take(i + 1) =~= self.entries@.take(i as int).push(self.entries@[i as int]));
            }
            i += 1;
        }
        assert(self.entries@.take(self.entries@.len() as int) =~= self.entries@);
        EntityTable { entries }
    }
}

} // verus!
