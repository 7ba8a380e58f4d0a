//! The per-trait registry: an ordered table of adapters, at most one per
//! storage identity.

use vstd::prelude::*;

verus! {

/// Stable identity token that the store assigns to a concrete resource type.
/// Registration is keyed by it, so two concrete types registered under one
/// trait never collide, and re-registering one type replaces its entry.
#[derive(Clone, Copy, PartialEq, Eq, Structural, Debug)]
pub struct ResourceId(pub usize);

/// One registration: the storage identity of the resource it covers, paired
/// with the adapter payload that turns the stored value into the trait view.
/// The pairing is established once, at registration, and never re-validated;
/// keeping it consistent with the store is the registry's invariant.
#[derive(Clone, Copy, Debug)]
pub struct TraitData<A> {
    pub resource_id: ResourceId,
    pub adapter: A,
}

/// True when some entry of `s` covers the identity `id`.
pub open spec fn has_entry_for<A>(s: Seq<TraitData<A>>, id: ResourceId) -> bool {
    exists|i: int| 0 <= i < s.len() && (#[trigger] s[i]).resource_id == id
}

/// The position of the entry covering `id`; meaningful when the identities
/// of `s` are distinct and one of them is `id`.
pub open spec fn entry_index<A>(s: Seq<TraitData<A>>, id: ResourceId) -> int {
    choose|i: int| 0 <= i < s.len() && (#[trigger] s[i]).resource_id == id
}

/// No two entries cover the same storage identity.
pub open spec fn distinct_ids<A>(s: Seq<TraitData<A>>) -> bool {
    forall|i: int, j: int|
        0 <= i < j < s.len() ==> (#[trigger] s[i]).resource_id != (#[trigger] s[j]).resource_id
}

/// What registering `d` does to an entry table: replace in place, keeping
/// the original position, when `d`'s identity is already covered; append
/// otherwise.
pub open spec fn seq_register<A>(s: Seq<TraitData<A>>, d: TraitData<A>) -> Seq<TraitData<A>> {
    if has_entry_for(s, d.resource_id) {
        s.update(entry_index(s, d.resource_id), d)
    } else {
        s.push(d)
    }
}

/// What unregistering `id` does to an entry table: drop its entry (at most
/// one, when identities are distinct), keeping the order of the rest.
pub open spec fn seq_unregister<A>(s: Seq<TraitData<A>>, id: ResourceId) -> Seq<TraitData<A>> {
    if has_entry_for(s, id) {
        s.remove(entry_index(s, id))
    } else {
        s
    }
}

/// The per-trait-marker table of adapters, in insertion order except that a
/// replace-in-place keeps the original position.  A table with distinct
/// identities stays that way under `register` and `unregister`.
pub struct TraitResourceRegistry<A> {
    trait_data: Vec<TraitData<A>>,
}

impl<A> TraitResourceRegistry<A> {
    /// The entries, oldest registration first.
    pub closed spec fn entries(self) -> Seq<TraitData<A>> {
        self.trait_data@
    }

    /// The covered identities, in entry order.
    pub open spec fn ids(self) -> Seq<ResourceId> {
        self.entries().map_values(|d: TraitData<A>| d.resource_id)
    }

    /// The registry invariant: one entry per distinct storage identity.
    pub open spec fn wf(self) -> bool {
        distinct_ids(self.entries())
    }

    /// A registry with no entries; the store never keeps one.
    pub fn empty() -> (r: Self)
        ensures
            r.entries() == Seq::<TraitData<A>>::empty(),
            r.wf(),
    {
        let r = TraitResourceRegistry { trait_data: Vec::new() };
        proof {
            assert(r.entries() =~= Seq::<TraitData<A>>::empty());
        }
        r
    }

    /// How many identities are currently registered.
    pub fn len(&self) -> (n: usize)
        ensures
            n == self.entries().len(),
    {
        self.trait_data.len()
    }

    /// The entry at position `i` of the traversal order.
    pub fn get(&self, i: usize) -> (d: &TraitData<A>)
        requires
            i < self.entries().len(),
        ensures
            *d == self.entries()[i as int],
    {
        &self.trait_data[i]
    }

    /// Registers `trait_data`: overwrites the entry with the same storage
    /// identity in place, preserving its position, or appends when that
    /// identity is new.  No failure modes.
    pub fn register(&mut self, trait_data: TraitData<A>)
        requires
            old(self).wf(),
        ensures
            final(self).entries() == seq_register(old(self).entries(), trait_data),
            final(self).wf(),
    {
        let ghost orig = self.trait_data@;
        let id = trait_data.resource_id;
        let mut i: usize = 0;
        while i < self.trait_data.len()
            invariant
                self.trait_data@ == orig,
                old(self).trait_data@ == orig,
                distinct_ids(orig),
                i <= orig.len(),
                id == trait_data.resource_id,
                forall|k: int| 0 <= k < i ==> (#[trigger] orig[k]).resource_id != id,
            decreases orig.len() - i,
        {
            if self.trait_data[i].resource_id == id {
                proof {
                    assert(has_entry_for(orig, id));
                    let j = entry_index(orig, id);
                    assert(0 <= j < orig.len() && orig[j].resource_id == id);
                    assert(j == i as int);
                }
                self.trait_data[i] = trait_data;
                proof {
                    assert(self.trait_data@ =~= seq_register(orig, trait_data));
                }
                return;
            }
            i += 1;
        }
        proof {
            assert(!has_entry_for(orig, id));
        }
        self.trait_data.push(trait_data);
        proof {
            assert(self.trait_data@ =~= seq_register(orig, trait_data));
            assert forall|p: int, q: int|
                0 <= p < q < self.trait_data@.len() implies (#[trigger] self.trait_data@[p]).resource_id
                != (#[trigger] self.trait_data@[q]).resource_id by {
                if q == orig.len() as int {
                    assert(orig[p].resource_id != id);
                }
            }
        }
    }

    /// Unregisters the storage identity `resource_id`: drops its entry when
    /// present, keeping the order of the rest, and returns the new entry
    /// count so the caller can destroy an emptied registry.  Unregistering
    /// an identity that was never registered changes nothing.
    pub fn unregister(&mut self, resource_id: ResourceId) -> (n: usize)
        requires
            old(self).wf(),
        ensures
            final(self).entries() == seq_unregister(old(self).entries(), resource_id),
            final(self).wf(),
            n == final(self).entries().len(),
    {
        let ghost orig = self.trait_data@;
        let mut i: usize = 0;
        while i < self.trait_data.len()
            invariant
                self.trait_data@ == orig,
                old(self).trait_data@ == orig,
                distinct_ids(orig),
                i <= orig.len(),
                forall|k: int| 0 <= k < i ==> (#[trigger] orig[k]).resource_id != resource_id,
            decreases orig.len() - i,
        {
            if self.trait_data[i].resource_id == resource_id {
                proof {
                    assert(has_entry_for(orig, resource_id));
                    let j = entry_index(orig, resource_id);
                    assert(0 <= j < orig.len() && orig[j].resource_id == resource_id);
                    assert(j == i as int);
                }
                self.trait_data.remove(i);
                proof {
                    assert(self.trait_data@ =~= seq_unregister(orig, resource_id));
                    lemma_remove_preserves_distinct(orig, i as int);
                }
                return self.trait_data.len();
            }
            i += 1;
        }
        proof {
            assert(!has_entry_for(orig, resource_id));
        }
        self.trait_data.len()
    }
}

impl<A> Default for TraitResourceRegistry<A> {
    /// Same as `empty`: the lazily created registry starts with no entries.
    fn default() -> (r: Self)
        ensures
            r.entries() == Seq::<TraitData<A>>::empty(),
            r.wf(),
    {
        Self::empty()
    }
}

/// When identities are distinct, the entry covering `s[i]`'s identity sits
/// exactly at position `i`.
pub proof fn lemma_entry_index_unique<A>(s: Seq<TraitData<A>>, i: int)
    requires
        distinct_ids(s),
        0 <= i < s.len(),
    ensures
        has_entry_for(s, s[i].resource_id),
        entry_index(s, s[i].resource_id) == i,
{
    let id = s[i].resource_id;
    assert(has_entry_for(s, id));
    let j = entry_index(s, id);
    assert(0 <= j < s.len() && s[j].resource_id == id);
    if i < j {
        assert(s[i].resource_id != s[j].resource_id);
    } else if j < i {
        assert(s[j].resource_id != s[i].resource_id);
    }
}

/// Law: registering keeps identities distinct and changes the covered set
/// by at most adding the new identity; a covered identity is replaced, not
/// duplicated, so the table grows only for a new one.
pub proof fn lemma_register_covered_set<A>(s: Seq<TraitData<A>>, d: TraitData<A>)
    requires
        distinct_ids(s),
    ensures
        distinct_ids(seq_register(s, d)),
        forall|id: ResourceId|
            #[trigger] has_entry_for(seq_register(s, d), id) <==> has_entry_for(s, id) || id
                == d.resource_id,
        has_entry_for(s, d.resource_id) ==> seq_register(s, d).len() == s.len(),
        !has_entry_for(s, d.resource_id) ==> seq_register(s, d).len() == s.len() + 1,
{
    let t = seq_register(s, d);
    if has_entry_for(s, d.resource_id) {
        let j = entry_index(s, d.resource_id);
        assert(0 <= j < s.len() && s[j].resource_id == d.resource_id);
        assert forall|p: int, q: int|
            0 <= p < q < t.len() implies (#[trigger] t[p]).resource_id
            != (#[trigger] t[q]).resource_id by {
            assert(s[p].resource_id != s[q].resource_id);
        }
        assert forall|id: ResourceId| #[trigger]
            has_entry_for(t, id) implies has_entry_for(s, id) || id == d.resource_id by {
            let k = choose|k: int| 0 <= k < t.len() && (#[trigger] t[k]).resource_id == id;
            if k != j {
                assert(s[k].resource_id == id);
            }
        }
        assert forall|id: ResourceId|
            has_entry_for(s, id) || id == d.resource_id implies #[trigger] has_entry_for(
            t,
            id,
        ) by {
            if id == d.resource_id {
                assert(t[j].resource_id == id);
            } else {
                let k = choose|k: int| 0 <= k < s.len() && (#[trigger] s[k]).resource_id == id;
                assert(t[k].resource_id == id);
            }
        }
    } else {
        assert forall|p: int, q: int|
            0 <= p < q < t.len() implies (#[trigger] t[p]).resource_id
            != (#[trigger] t[q]).resource_id by {
            if q == s.len() as int {
                assert(s[p].resource_id != d.resource_id);
            } else {
                assert(s[p].resource_id != s[q].resource_id);
            }
        }
        assert forall|id: ResourceId| #[trigger]
            has_entry_for(t, id) implies has_entry_for(s, id) || id == d.resource_id by {
            let k = choose|k: int| 0 <= k < t.len() && (#[trigger] t[k]).resource_id == id;
            if k != s.len() as int {
                assert(s[k].resource_id == id);
            }
        }
        assert forall|id: ResourceId|
            has_entry_for(s, id) || id == d.resource_id implies #[trigger] has_entry_for(
            t,
            id,
        ) by {
            if id == d.resource_id {
                assert(t[s.len() as int].resource_id == id);
            } else {
                let k = choose|k: int| 0 <= k < s.len() && (#[trigger] s[k]).resource_id == id;
                assert(t[k].resource_id == id);
            }
        }
    }
}

/// Law: registering the same entry twice leaves the table exactly as one
/// registration left it — never two entries for one concrete type.
pub proof fn lemma_register_idempotent<A>(s: Seq<TraitData<A>>, d: TraitData<A>)
    requires
        distinct_ids(s),
    ensures
        seq_register(seq_register(s, d), d) == seq_register(s, d),
{
    let t = seq_register(s, d);
    lemma_register_covered_set(s, d);
    if has_entry_for(s, d.resource_id) {
        let j = entry_index(s, d.resource_id);
        assert(0 <= j < s.len() && s[j].resource_id == d.resource_id);
        assert(t[j] == d);
        lemma_entry_index_unique(t, j);
        assert(seq_register(t, d) =~= t);
    } else {
        let n = s.len() as int;
        assert(t[n] == d);
        lemma_entry_index_unique(t, n);
        assert(seq_register(t, d) =~= t);
    }
}

/// Law: with one entry per distinct identity, the traversal length equals
/// the number of distinct registered identities, not the number of
/// registration calls that built the table.  `ids` is the table's identity
/// column, position by position.
pub proof fn lemma_length_counts_distinct_ids<A>(s: Seq<TraitData<A>>, ids: Seq<ResourceId>)
    requires
        distinct_ids(s),
        ids.len() == s.len(),
        forall|k: int| 0 <= k < s.len() ==> ids[k] == (#[trigger] s[k]).resource_id,
    ensures
        ids.no_duplicates(),
        ids.to_set().len() == s.len(),
{
    assert forall|i: int, j: int|
        0 <= i < ids.len() && 0 <= j < ids.len() && i != j implies ids[i] != ids[j] by {
        assert(ids[i] == s[i].resource_id);
        assert(ids[j] == s[j].resource_id);
        if i < j {
            assert(s[i].resource_id != s[j].resource_id);
        } else {
            assert(s[j].resource_id != s[i].resource_id);
        }
    }
    assert(ids.no_duplicates());
    ids.unique_seq_to_set();
}

/// Law: unregistering keeps identities distinct and removes exactly the
/// one identity from the covered set, shrinking the table by one entry
/// when the identity was covered and not at all otherwise.
pub proof fn lemma_unregister_covered_set<A>(s: Seq<TraitData<A>>, id: ResourceId)
    requires
        distinct_ids(s),
    ensures
        distinct_ids(seq_unregister(s, id)),
        forall|id2: ResourceId|
            #[trigger] has_entry_for(seq_unregister(s, id), id2) <==> has_entry_for(s, id2) && id2
                != id,
        has_entry_for(s, id) ==> seq_unregister(s, id).len() == s.len() - 1,
        !has_entry_for(s, id) ==> seq_unregister(s, id).len() == s.len(),
{
    let t = seq_unregister(s, id);
    if has_entry_for(s, id) {
        let j = entry_index(s, id);
        assert(0 <= j < s.len() && s[j].resource_id == id);
        lemma_remove_preserves_distinct(s, j);
        assert forall|id2: ResourceId| #[trigger]
            has_entry_for(t, id2) implies has_entry_for(s, id2) && id2 != id by {
            let k = choose|k: int| 0 <= k < t.len() && (#[trigger] t[k]).resource_id == id2;
            let k0 = if k < j {
                k
            } else {
                k + 1
            };
            assert(t[k] == s[k0]);
            assert(s[k0].resource_id == id2);
            if id2 == id {
                lemma_entry_index_unique(s, k0);
            }
        }
        assert forall|id2: ResourceId|
            has_entry_for(s, id2) && id2 != id implies #[trigger] has_entry_for(t, id2) by {
            let k = choose|k: int| 0 <= k < s.len() && (#[trigger] s[k]).resource_id == id2;
            if k < j {
                assert(t[k] == s[k]);
            } else if k > j {
                assert(t[k - 1] == s[k]);
            }
        }
    }
}

/// Dropping one entry keeps the remaining identities distinct.
proof fn lemma_remove_preserves_distinct<A>(s: Seq<TraitData<A>>, i: int)
    requires
        distinct_ids(s),
        0 <= i < s.len(),
    ensures
        distinct_ids(s.remove(i)),
{
    let t = s.remove(i);
    assert forall|p: int, q: int|
        0 <= p < q < t.len() implies (#[trigger] t[p]).resource_id != (#[trigger] t[q]).resource_id by {
        let p0 = if p < i { p } else { p + 1 };
        let q0 = if q < i { q } else { q + 1 };
        assert(t[p] == s[p0]);
        assert(t[q] == s[q0]);
    }
}

} // verus!
