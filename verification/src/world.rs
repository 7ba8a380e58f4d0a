//! A model of the host store: singleton values keyed by concrete type,
//! addressable through stable storage identities, extended with the
//! per-trait registries and the registration operations.
//!
//! Concrete resource types and trait markers are represented by plain key
//! values (`TypeKey`, `TraitKey`): the store keeps at most one value per
//! type key, assigns each type key a stable `ResourceId` on first insertion,
//! and keeps that identity even after the value is removed.  The adapter a
//! registry entry carries is the type key the entry was generated for; the
//! store invariant ties it to the identity's type, which is what makes
//! resolving an entry against the store sound.

use vstd::prelude::*;
use vstd::pervasive::unreached;

use crate::registry::{
    ResourceId, TraitData, TraitResourceRegistry, distinct_ids, entry_index, has_entry_for,
    seq_register, seq_unregister,
};

verus! {

/// Tag standing for one trait marker: the capability interface a
/// registration targets.  Many type keys may be registered under one.
#[derive(Clone, Copy, PartialEq, Eq, Structural, Debug)]
pub struct TraitKey(pub u64);

/// Tag standing for one concrete resource type.  The store keeps at most
/// one value per type key.
#[derive(Clone, Copy, PartialEq, Eq, Structural, Debug)]
pub struct TypeKey(pub u64);

struct RegistryEntry {
    trait_key: TraitKey,
    registry: TraitResourceRegistry<TypeKey>,
}

spec fn seq_has_key(keys: Seq<TypeKey>, type_key: TypeKey) -> bool {
    exists|i: int| 0 <= i < keys.len() && keys[i] == type_key
}

spec fn key_index(keys: Seq<TypeKey>, type_key: TypeKey) -> int {
    choose|i: int| 0 <= i < keys.len() && keys[i] == type_key
}

spec fn seq_has_stored<V>(keys: Seq<TypeKey>, values: Seq<Option<V>>, type_key: TypeKey) -> bool {
    exists|i: int| 0 <= i < keys.len() && keys[i] == type_key && values[i] is Some
}

spec fn stored_index<V>(keys: Seq<TypeKey>, values: Seq<Option<V>>, type_key: TypeKey) -> int {
    choose|i: int| 0 <= i < keys.len() && keys[i] == type_key && values[i] is Some
}

spec fn seq_has_reg(rs: Seq<RegistryEntry>, trait_key: TraitKey) -> bool {
    exists|j: int| 0 <= j < rs.len() && (#[trigger] rs[j]).trait_key == trait_key
}

spec fn reg_pos(rs: Seq<RegistryEntry>, trait_key: TraitKey) -> int {
    choose|j: int| 0 <= j < rs.len() && (#[trigger] rs[j]).trait_key == trait_key
}

spec fn distinct_trait_keys(rs: Seq<RegistryEntry>) -> bool {
    forall|p: int, q: int|
        0 <= p < q < rs.len() ==> (#[trigger] rs[p]).trait_key != (#[trigger] rs[q]).trait_key
}

/// With distinct trait keys, the registry for `rs[j]`'s trait sits exactly
/// at position `j`.
proof fn lemma_reg_pos_unique(rs: Seq<RegistryEntry>, j: int)
    requires
        distinct_trait_keys(rs),
        0 <= j < rs.len(),
    ensures
        seq_has_reg(rs, rs[j].trait_key),
        reg_pos(rs, rs[j].trait_key) == j,
{
    let t = rs[j].trait_key;
    assert(seq_has_reg(rs, t));
    let c = reg_pos(rs, t);
    assert(0 <= c < rs.len() && rs[c].trait_key == t);
    if c < j {
        assert(rs[c].trait_key != rs[j].trait_key);
    } else if j < c {
        assert(rs[j].trait_key != rs[c].trait_key);
    }
}

/// Replacing the table entry at `j` without changing its trait key leaves
/// every other trait's registry untouched.
proof fn lemma_reg_update_agree(a: Seq<RegistryEntry>, b: Seq<RegistryEntry>, j: int)
    requires
        distinct_trait_keys(a),
        0 <= j < a.len(),
        b == a.update(j, b[j]),
        b[j].trait_key == a[j].trait_key,
    ensures
        distinct_trait_keys(b),
        seq_has_reg(b, a[j].trait_key),
        reg_pos(b, a[j].trait_key) == j,
        reg_pos(a, a[j].trait_key) == j,
        forall|t2: TraitKey| #![trigger seq_has_reg(a, t2)] #![trigger seq_has_reg(b, t2)]
            t2 != a[j].trait_key ==> (seq_has_reg(b, t2) <==> seq_has_reg(a, t2)),
        forall|t2: TraitKey| #![trigger reg_pos(a, t2)] #![trigger reg_pos(b, t2)]
            t2 != a[j].trait_key && seq_has_reg(a, t2) ==> b[reg_pos(b, t2)] == a[reg_pos(a, t2)],
{
    assert forall|p: int, q: int|
        0 <= p < q < b.len() implies (#[trigger] b[p]).trait_key
        != (#[trigger] b[q]).trait_key by {
        assert(a[p].trait_key != a[q].trait_key);
        if p != j && q != j {
            assert(b[p] == a[p] && b[q] == a[q]);
        }
    }
    lemma_reg_pos_unique(b, j);
    lemma_reg_pos_unique(a, j);
    assert forall|t2: TraitKey|
        t2 != a[j].trait_key implies ((#[trigger] seq_has_reg(b, t2)) <==> (#[trigger] seq_has_reg(
        a,
        t2,
    ))) by {
        if seq_has_reg(a, t2) {
            let c = reg_pos(a, t2);
            assert(0 <= c < a.len() && a[c].trait_key == t2);
            assert(c != j);
            assert(b[c].trait_key == t2);
        }
        if seq_has_reg(b, t2) {
            let c = choose|c: int| 0 <= c < b.len() && (#[trigger] b[c]).trait_key == t2;
            assert(c != j);
            assert(a[c].trait_key == t2);
        }
    }
    assert forall|t2: TraitKey|
        t2 != a[j].trait_key && seq_has_reg(a, t2) implies b[#[trigger] reg_pos(b, t2)] == a[
        #[trigger] reg_pos(a, t2)] by {
        let ca = reg_pos(a, t2);
        assert(0 <= ca < a.len() && a[ca].trait_key == t2);
        assert(ca != j);
        assert(b[ca].trait_key == t2);
        lemma_reg_pos_unique(a, ca);
        lemma_reg_pos_unique(b, ca);
    }
}

/// Appending a table entry for a trait that had no registry leaves every
/// other trait's registry untouched.
proof fn lemma_reg_push_agree(a: Seq<RegistryEntry>, b: Seq<RegistryEntry>)
    requires
        distinct_trait_keys(a),
        b.len() == a.len() + 1,
        b == a.push(b[a.len() as int]),
        !seq_has_reg(a, b[a.len() as int].trait_key),
    ensures
        distinct_trait_keys(b),
        seq_has_reg(b, b[a.len() as int].trait_key),
        reg_pos(b, b[a.len() as int].trait_key) == a.len(),
        forall|t2: TraitKey| #![trigger seq_has_reg(a, t2)] #![trigger seq_has_reg(b, t2)]
            t2 != b[a.len() as int].trait_key ==> (seq_has_reg(b, t2) <==> seq_has_reg(a, t2)),
        forall|t2: TraitKey| #![trigger reg_pos(a, t2)] #![trigger reg_pos(b, t2)]
            t2 != b[a.len() as int].trait_key && seq_has_reg(a, t2) ==> b[reg_pos(b, t2)] == a[
                reg_pos(a, t2)],
{
    let n = a.len() as int;
    let t = b[n].trait_key;
    assert forall|p: int, q: int|
        0 <= p < q < b.len() implies (#[trigger] b[p]).trait_key
        != (#[trigger] b[q]).trait_key by {
        if q == n {
            if b[p].trait_key == t {
                assert(a[p].trait_key == t);
                assert(seq_has_reg(a, t));
            }
        } else {
            assert(a[p].trait_key != a[q].trait_key);
        }
    }
    lemma_reg_pos_unique(b, n);
    assert forall|t2: TraitKey|
        t2 != t implies ((#[trigger] seq_has_reg(b, t2)) <==> (#[trigger] seq_has_reg(
        a,
        t2,
    ))) by {
        if seq_has_reg(a, t2) {
            let c = reg_pos(a, t2);
            assert(0 <= c < a.len() && a[c].trait_key == t2);
            assert(b[c].trait_key == t2);
        }
        if seq_has_reg(b, t2) {
            let c = choose|c: int| 0 <= c < b.len() && (#[trigger] b[c]).trait_key == t2;
            assert(c != n);
            assert(a[c].trait_key == t2);
        }
    }
    assert forall|t2: TraitKey|
        t2 != t && seq_has_reg(a, t2) implies b[#[trigger] reg_pos(b, t2)] == a[#[trigger] reg_pos(
        a,
        t2,
    )] by {
        let ca = reg_pos(a, t2);
        assert(0 <= ca < a.len() && a[ca].trait_key == t2);
        assert(b[ca].trait_key == t2);
        lemma_reg_pos_unique(a, ca);
        lemma_reg_pos_unique(b, ca);
    }
}

/// Dropping the table entry at `j` destroys exactly that trait's registry
/// and leaves every other trait's registry untouched.
proof fn lemma_reg_remove_agree(a: Seq<RegistryEntry>, b: Seq<RegistryEntry>, j: int)
    requires
        distinct_trait_keys(a),
        0 <= j < a.len(),
        b == a.remove(j),
    ensures
        distinct_trait_keys(b),
        !seq_has_reg(b, a[j].trait_key),
        forall|t2: TraitKey| #![trigger seq_has_reg(a, t2)] #![trigger seq_has_reg(b, t2)]
            t2 != a[j].trait_key ==> (seq_has_reg(b, t2) <==> seq_has_reg(a, t2)),
        forall|t2: TraitKey| #![trigger reg_pos(a, t2)] #![trigger reg_pos(b, t2)]
            t2 != a[j].trait_key && seq_has_reg(a, t2) ==> b[reg_pos(b, t2)] == a[reg_pos(a, t2)],
{
    let t = a[j].trait_key;
    assert forall|p: int, q: int|
        0 <= p < q < b.len() implies (#[trigger] b[p]).trait_key
        != (#[trigger] b[q]).trait_key by {
        let p0 = if p < j {
            p
        } else {
            p + 1
        };
        let q0 = if q < j {
            q
        } else {
            q + 1
        };
        assert(b[p] == a[p0] && b[q] == a[q0]);
        assert(a[p0].trait_key != a[q0].trait_key);
    }
    assert forall|k: int| 0 <= k < b.len() implies (#[trigger] b[k]).trait_key != t by {
        let k0 = if k < j {
            k
        } else {
            k + 1
        };
        assert(b[k] == a[k0]);
        if k0 < j {
            assert(a[k0].trait_key != a[j].trait_key);
        } else {
            assert(a[j].trait_key != a[k0].trait_key);
        }
    }
    assert forall|t2: TraitKey|
        t2 != t implies ((#[trigger] seq_has_reg(b, t2)) <==> (#[trigger] seq_has_reg(
        a,
        t2,
    ))) by {
        if seq_has_reg(a, t2) {
            let c = reg_pos(a, t2);
            assert(0 <= c < a.len() && a[c].trait_key == t2);
            assert(c != j);
            if c < j {
                assert(b[c] == a[c]);
            } else {
                assert(b[c - 1] == a[c]);
            }
        }
        if seq_has_reg(b, t2) {
            let c = choose|c: int| 0 <= c < b.len() && (#[trigger] b[c]).trait_key == t2;
            let c0 = if c < j {
                c
            } else {
                c + 1
            };
            assert(b[c] == a[c0]);
        }
    }
    assert forall|t2: TraitKey|
        t2 != t && seq_has_reg(a, t2) implies b[#[trigger] reg_pos(b, t2)] == a[#[trigger] reg_pos(
        a,
        t2,
    )] by {
        let ca = reg_pos(a, t2);
        assert(0 <= ca < a.len() && a[ca].trait_key == t2);
        assert(ca != j);
        let cb = if ca < j {
            ca
        } else {
            ca - 1
        };
        assert(b[cb] == a[ca]);
        lemma_reg_pos_unique(a, ca);
        lemma_reg_pos_unique(b, cb);
    }
}

/// The store model: one slot per assigned storage identity, holding the
/// identity's type key forever and its singleton value while stored, plus
/// the per-trait registries.
pub struct World<V> {
    /// `type_keys[i]` is the concrete type that identity `i` was assigned to.
    type_keys: Vec<TypeKey>,
    /// `values[i]` is identity `i`'s singleton, `None` once removed.
    values: Vec<Option<V>>,
    /// One registry per trait marker with at least one registration.
    registries: Vec<RegistryEntry>,
}

impl<V> World<V> {
    /// Whether `type_key` has ever been stored, and so owns an identity.
    pub closed spec fn has_type(self, type_key: TypeKey) -> bool {
        seq_has_key(self.type_keys@, type_key)
    }

    /// The stable identity assigned to `type_key`.
    pub closed spec fn id_of(self, type_key: TypeKey) -> ResourceId {
        ResourceId(key_index(self.type_keys@, type_key) as usize)
    }

    /// Whether `id` is an assigned identity.
    pub closed spec fn valid_id(self, id: ResourceId) -> bool {
        id.0 < self.type_keys@.len()
    }

    /// The concrete type that `id` addresses.
    pub closed spec fn type_of_id(self, id: ResourceId) -> TypeKey {
        self.type_keys@[id.0 as int]
    }

    /// Whether the resource at identity `id` is currently stored.
    pub closed spec fn present(self, id: ResourceId) -> bool {
        id.0 < self.values@.len() && self.values@[id.0 as int] is Some
    }

    /// The stored value at identity `id`.
    pub closed spec fn value_at(self, id: ResourceId) -> V {
        self.values@[id.0 as int]->0
    }

    /// Whether a value of `type_key` is currently stored.
    pub open spec fn is_stored(self, type_key: TypeKey) -> bool {
        self.has_type(type_key) && self.present(self.id_of(type_key))
    }

    /// What a typed fetch of `type_key` sees, read directly off the slots.
    pub closed spec fn stored_value(self, type_key: TypeKey) -> Option<V> {
        if seq_has_stored(self.type_keys@, self.values@, type_key) {
            Some(self.values@[stored_index(self.type_keys@, self.values@, type_key)]->0)
        } else {
            None
        }
    }

    /// Whether a registry exists for the trait marker `trait_key`.
    pub closed spec fn has_registry(self, trait_key: TraitKey) -> bool {
        seq_has_reg(self.registries@, trait_key)
    }

    /// The entries of `trait_key`'s registry, in traversal order.
    pub closed spec fn reg_entries(self, trait_key: TraitKey) -> Seq<TraitData<TypeKey>> {
        self.registries@[reg_pos(self.registries@, trait_key)].registry.entries()
    }

    /// The identities registered under `trait_key`, in traversal order;
    /// empty when the registry is absent.
    pub open spec fn reg_ids(self, trait_key: TraitKey) -> Seq<ResourceId> {
        if self.has_registry(trait_key) {
            self.reg_entries(trait_key).map_values(|d: TraitData<TypeKey>| d.resource_id)
        } else {
            Seq::<ResourceId>::empty()
        }
    }

    /// Whether identity `id` is registered under `trait_key`.
    pub open spec fn is_registered(self, trait_key: TraitKey, id: ResourceId) -> bool {
        self.has_registry(trait_key) && has_entry_for(self.reg_entries(trait_key), id)
    }

    /// One entry is consistent with the store when its identity is assigned
    /// and its adapter is the type that identity truly addresses — the
    /// adapter invariant that makes resolving the entry sound.
    pub closed spec fn entry_consistent(self, d: TraitData<TypeKey>) -> bool {
        d.resource_id.0 < self.type_keys@.len() && self.type_keys@[d.resource_id.0 as int]
            == d.adapter
    }

    /// The store invariant.
    pub closed spec fn wf(self) -> bool {
        &&& self.type_keys@.len() == self.values@.len()
        &&& forall|i: int, j: int|
            0 <= i < j < self.type_keys@.len() ==> self.type_keys@[i] != self.type_keys@[j]
        &&& distinct_trait_keys(self.registries@)
        &&& forall|j: int|
            0 <= j < self.registries@.len() ==> (#[trigger] self.registries@[j]).registry.wf()
        &&& forall|j: int|
            0 <= j < self.registries@.len()
                ==> (#[trigger] self.registries@[j]).registry.entries().len() > 0
        &&& forall|j: int, k: int|
            0 <= j < self.registries@.len() && 0 <= k
                < self.registries@[j].registry.entries().len() ==> self.entry_consistent(
                #[trigger] self.registries@[j].registry.entries()[k],
            )
    }
}

/// The two stores assign the same identities to the same types.
pub open spec fn same_identities<V>(a: World<V>, b: World<V>) -> bool {
    &&& forall|tk: TypeKey| #![trigger a.has_type(tk)] #![trigger b.has_type(tk)]
        a.has_type(tk) <==> b.has_type(tk)
    &&& forall|tk: TypeKey| #![trigger a.id_of(tk)] #![trigger b.id_of(tk)]
        a.has_type(tk) ==> a.id_of(tk) == b.id_of(tk)
    &&& forall|id: ResourceId| #![trigger a.valid_id(id)] #![trigger b.valid_id(id)]
        a.valid_id(id) <==> b.valid_id(id)
    &&& forall|id: ResourceId| #![trigger a.type_of_id(id)] #![trigger b.type_of_id(id)]
        a.valid_id(id) ==> a.type_of_id(id) == b.type_of_id(id)
}

/// The two stores hold the same singletons.
pub open spec fn same_values<V>(a: World<V>, b: World<V>) -> bool {
    &&& forall|id: ResourceId| #![trigger a.present(id)] #![trigger b.present(id)]
        a.present(id) <==> b.present(id)
    &&& forall|id: ResourceId| #![trigger a.value_at(id)] #![trigger b.value_at(id)]
        a.present(id) ==> a.value_at(id) == b.value_at(id)
}

/// The two stores hold the same registries.
pub open spec fn same_registries<V>(a: World<V>, b: World<V>) -> bool {
    &&& forall|t: TraitKey| #![trigger a.has_registry(t)] #![trigger b.has_registry(t)]
        a.has_registry(t) <==> b.has_registry(t)
    &&& forall|t: TraitKey| #![trigger a.reg_entries(t)] #![trigger b.reg_entries(t)]
        a.has_registry(t) ==> a.reg_entries(t) == b.reg_entries(t)
}

/// The two stores hold the same registries for every trait marker but `t`.
pub open spec fn registries_same_except<V>(a: World<V>, b: World<V>, t: TraitKey) -> bool {
    &&& forall|t2: TraitKey| #![trigger a.has_registry(t2)] #![trigger b.has_registry(t2)]
        t2 != t ==> (a.has_registry(t2) <==> b.has_registry(t2))
    &&& forall|t2: TraitKey| #![trigger a.reg_entries(t2)] #![trigger b.reg_entries(t2)]
        t2 != t && a.has_registry(t2) ==> a.reg_entries(t2) == b.reg_entries(t2)
}

impl<V> World<V> {
    /// A store with nothing stored, no identities assigned and no
    /// registries.
    pub fn new() -> (w: Self)
        ensures
            w.wf(),
            forall|tk: TypeKey| !(#[trigger] w.has_type(tk)),
            forall|id: ResourceId| !(#[trigger] w.present(id)),
            forall|t: TraitKey| !(#[trigger] w.has_registry(t)),
    {
        World { type_keys: Vec::new(), values: Vec::new(), registries: Vec::new() }
    }

    /// The index of `type_key`'s slot, when it has one.
    fn find_slot(&self, type_key: TypeKey) -> (r: Option<usize>)
        requires
            self.wf(),
        ensures
            r is Some <==> self.has_type(type_key),
            r matches Some(i) ==> self.id_of(type_key) == (ResourceId(i)) && self.valid_id(
                ResourceId(i),
            ) && self.type_of_id(ResourceId(i)) == type_key,
    {
        let mut i: usize = 0;
        while i < self.type_keys.len()
            invariant
                self.wf(),
                i <= self.type_keys@.len(),
                forall|k: int| 0 <= k < i ==> self.type_keys@[k] != type_key,
            decreases self.type_keys@.len() - i,
        {
            if self.type_keys[i] == type_key {
                proof {
                    assert(self.has_type(type_key));
                    let j = key_index(self.type_keys@, type_key);
                    assert(0 <= j < self.type_keys@.len() && self.type_keys@[j] == type_key);
                    if j < i as int {
                        assert(self.type_keys@[j] != type_key);
                    } else if j > i as int {
                        assert(self.type_keys@[i as int] != self.type_keys@[j]);
                    }
                }
                return Some(i);
            }
            i += 1;
        }
        None
    }

    /// The index of `trait_key`'s registry, when one exists.
    fn find_registry(&self, trait_key: TraitKey) -> (r: Option<usize>)
        requires
            self.wf(),
        ensures
            r is Some <==> self.has_registry(trait_key),
            r matches Some(j) ==> j < self.registries@.len() && self.registries@[j as int].trait_key
                == trait_key && self.registries@[j as int].registry.entries() == self.reg_entries(
                trait_key,
            ),
    {
        let mut j: usize = 0;
        while j < self.registries.len()
            invariant
                self.wf(),
                j <= self.registries@.len(),
                forall|k: int|
                    0 <= k < j ==> (#[trigger] self.registries@[k]).trait_key != trait_key,
            decreases self.registries@.len() - j,
        {
            if self.registries[j].trait_key == trait_key {
                proof {
                    assert(self.has_registry(trait_key));
                    let c = reg_pos(self.registries@, trait_key);
                    assert(0 <= c < self.registries@.len() && self.registries@[c].trait_key
                        == trait_key);
                    if c < j as int {
                        assert(self.registries@[c].trait_key != trait_key);
                    } else if c > j as int {
                        assert(self.registries@[j as int].trait_key
                            != self.registries@[c].trait_key);
                    }
                }
                return Some(j);
            }
            j += 1;
        }
        None
    }

    /// Stores `value` as `type_key`'s singleton, overwriting any prior one
    /// and assigning a fresh identity if `type_key` never had one.  The
    /// registries are untouched.
    pub fn insert_resource(&mut self, type_key: TypeKey, value: V)
        requires
            old(self).wf(),
        ensures
            final(self).wf(),
            final(self).has_type(type_key),
            old(self).has_type(type_key) ==> final(self).id_of(type_key) == old(self).id_of(
                type_key,
            ),
            final(self).present(final(self).id_of(type_key)),
            final(self).value_at(final(self).id_of(type_key)) == value,
            forall|tk2: TypeKey|
                tk2 != type_key ==> (#[trigger] final(self).has_type(tk2) <==> old(self).has_type(
                    tk2,
                )),
            forall|tk2: TypeKey|
                tk2 != type_key && old(self).has_type(tk2) ==> #[trigger] final(self).id_of(tk2)
                    == old(self).id_of(tk2),
            forall|id: ResourceId|
                id != final(self).id_of(type_key)
                    ==> (#[trigger] final(self).present(id) <==> old(self).present(id)),
            forall|id: ResourceId|
                id != final(self).id_of(type_key) && old(self).present(id)
                    ==> #[trigger] final(self).value_at(id) == old(self).value_at(id),
            same_registries(*old(self), *final(self)),
    {
        let slot = self.find_slot(type_key);
        match slot {
            Some(i) => {
                self.values[i] = Some(value);
            },
            None => {
                let n = self.type_keys.len();
                self.type_keys.push(type_key);
                self.values.push(Some(value));
                proof {
                    assert(self.type_keys@[n as int] == type_key);
                    assert(self.has_type(type_key));
                    let j = key_index(self.type_keys@, type_key);
                    assert(0 <= j < self.type_keys@.len() && self.type_keys@[j] == type_key);
                    if j < n as int {
                        assert(old(self).type_keys@[j] == type_key);
                        assert(old(self).has_type(type_key));
                    }
                    assert(self.id_of(type_key) == (ResourceId(n)));
                    assert forall|tk2: TypeKey|
                        tk2 != type_key implies (#[trigger] self.has_type(tk2)
                        <==> old(self).has_type(tk2)) by {
                        if self.has_type(tk2) {
                            let j2 = key_index(self.type_keys@, tk2);
                            assert(0 <= j2 < self.type_keys@.len() && self.type_keys@[j2] == tk2);
                            if j2 == n as int {
                                assert(self.type_keys@[j2] == type_key);
                            } else {
                                assert(old(self).type_keys@[j2] == tk2);
                            }
                        }
                        if old(self).has_type(tk2) {
                            let j2 = key_index(old(self).type_keys@, tk2);
                            assert(self.type_keys@[j2] == tk2);
                        }
                    }
                    assert forall|tk2: TypeKey|
                        tk2 != type_key && old(self).has_type(tk2) implies #[trigger] self.id_of(
                        tk2,
                    ) == old(self).id_of(tk2) by {
                        let j0 = key_index(old(self).type_keys@, tk2);
                        assert(0 <= j0 < old(self).type_keys@.len() && old(self).type_keys@[j0]
                            == tk2);
                        assert(self.type_keys@[j0] == tk2);
                        assert(self.has_type(tk2));
                        let j1 = key_index(self.type_keys@, tk2);
                        assert(0 <= j1 < self.type_keys@.len() && self.type_keys@[j1] == tk2);
                        if j1 == n as int {
                            assert(self.type_keys@[j1] == type_key);
                        } else {
                            if j0 < j1 {
                                assert(self.type_keys@[j0] != self.type_keys@[j1]);
                            } else if j1 < j0 {
                                assert(self.type_keys@[j1] != self.type_keys@[j0]);
                            }
                        }
                    }
                }
            },
        }
    }

    /// Stores `default_value` as `type_key`'s singleton only when none is
    /// currently stored; a stored one is kept.  The registries are
    /// untouched.
    pub fn init_resource(&mut self, type_key: TypeKey, default_value: V)
        requires
            old(self).wf(),
        ensures
            final(self).wf(),
            old(self).is_stored(type_key) ==> *final(self) == *old(self),
            !old(self).is_stored(type_key) ==> {
                &&& final(self).is_stored(type_key)
                &&& final(self).value_at(final(self).id_of(type_key)) == default_value
                &&& old(self).has_type(type_key) ==> final(self).id_of(type_key) == old(self).id_of(type_key)
                &&& forall|tk2: TypeKey|
                    tk2 != type_key ==> (#[trigger] final(self).has_type(tk2) <==> old(self).has_type(tk2))
                &&& forall|tk2: TypeKey|
                    tk2 != type_key && old(self).has_type(tk2) ==> #[trigger] final(self).id_of(
                        tk2,
                    ) == old(self).id_of(tk2)
                &&& forall|id: ResourceId|
                    id != final(self).id_of(type_key) ==> (#[trigger] final(self).present(id)
                        <==> old(self).present(id))
                &&& forall|id: ResourceId|
                    id != final(self).id_of(type_key) && old(self).present(id)
                        ==> #[trigger] final(self).value_at(id) == old(self).value_at(id)
            },
            same_registries(*old(self), *final(self)),
    {
        let stored = match self.find_slot(type_key) {
            Some(i) => self.values[i].is_some(),
            None => false,
        };
        if !stored {
            self.insert_resource(type_key, default_value);
        }
    }

    /// Removes and returns `type_key`'s singleton.  The identity stays
    /// assigned and every registry keeps its entries: a registration left
    /// in place simply goes stale (the traversals yield an absent marker
    /// for it).
    pub fn remove_resource(&mut self, type_key: TypeKey) -> (r: Option<V>)
        requires
            old(self).wf(),
        ensures
            final(self).wf(),
            r is Some <==> old(self).is_stored(type_key),
            r matches Some(v) ==> v == old(self).value_at(old(self).id_of(type_key)),
            same_identities(*old(self), *final(self)),
            same_registries(*old(self), *final(self)),
            old(self).has_type(type_key) ==> !final(self).present(old(self).id_of(type_key)),
            !old(self).has_type(type_key) ==> *final(self) == *old(self),
            forall|id: ResourceId|
                old(self).has_type(type_key) && id != old(self).id_of(type_key) ==> (
                #[trigger] final(self).present(id) <==> old(self).present(id)),
            forall|id: ResourceId|
                old(self).has_type(type_key) && id != old(self).id_of(type_key)
                    && old(self).present(id) ==> #[trigger] final(self).value_at(id) == old(self).value_at(id),
    {
        let slot = self.find_slot(type_key);
        match slot {
            Some(i) => self.values[i].take(),
            None => None,
        }
    }

    /// The identity assigned to `type_key`, if it ever was stored.
    pub fn resource_id(&self, type_key: TypeKey) -> (r: Option<ResourceId>)
        requires
            self.wf(),
        ensures
            r is Some <==> self.has_type(type_key),
            r matches Some(id) ==> id == self.id_of(type_key),
    {
        match self.find_slot(type_key) {
            Some(i) => Some(ResourceId(i)),
            None => None,
        }
    }

    /// A typed fetch: the currently stored singleton of `type_key`.
    pub fn get_resource(&self, type_key: TypeKey) -> (r: Option<&V>)
        requires
            self.wf(),
        ensures
            r is Some <==> self.is_stored(type_key),
            r matches Some(v) ==> *v == self.value_at(self.id_of(type_key)),
    {
        match self.find_slot(type_key) {
            Some(i) => self.values[i].as_ref(),
            None => None,
        }
    }

    /// A typed fetch of a singleton known to be stored.
    pub fn resource(&self, type_key: TypeKey) -> (r: &V)
        requires
            self.wf(),
            self.is_stored(type_key),
        ensures
            *r == self.value_at(self.id_of(type_key)),
    {
        let i = match self.find_slot(type_key) {
            Some(i) => i,
            None => unreached(),
        };
        match self.values[i].as_ref() {
            Some(v) => v,
            None => unreached(),
        }
    }

    /// An identity-keyed fetch: the singleton at `id`, if still stored.
    pub fn get_by_id(&self, id: ResourceId) -> (r: Option<&V>)
        requires
            self.wf(),
        ensures
            r is Some <==> self.present(id),
            r matches Some(v) ==> *v == self.value_at(id),
    {
        if id.0 < self.values.len() {
            self.values[id.0].as_ref()
        } else {
            None
        }
    }

    /// An identity-keyed mutable fetch of a singleton known to be stored:
    /// the view a mutable traversal step hands out.  Writes through the
    /// returned reference land in the store, so a later typed fetch of the
    /// same concrete type sees them.
    pub fn get_mut_by_id(&mut self, id: ResourceId) -> (r: &mut V)
        requires
            old(self).wf(),
            old(self).present(id),
        ensures
            *r == old(self).value_at(id),
            final(self).wf(),
            final(self).present(id),
            final(self).value_at(id) == *final(r),
            same_identities(*old(self), *final(self)),
            same_registries(*old(self), *final(self)),
            forall|id2: ResourceId|
                id2 != id ==> (#[trigger] final(self).present(id2) <==> old(self).present(id2)),
            forall|id2: ResourceId|
                id2 != id && old(self).present(id2) ==> #[trigger] final(self).value_at(id2)
                    == old(self).value_at(id2),
    {
        match &mut self.values[id.0] {
            Some(v) => v,
            None => unreached(),
        }
    }

    /// The registry kept for `trait_key`, when one exists.
    pub fn get_registry(&self, trait_key: TraitKey) -> (r: Option<&TraitResourceRegistry<TypeKey>>)
        requires
            self.wf(),
        ensures
            r is Some <==> self.has_registry(trait_key),
            r matches Some(reg) ==> reg.entries() == self.reg_entries(trait_key) && reg.wf(),
    {
        match self.find_registry(trait_key) {
            Some(j) => Some(&self.registries[j].registry),
            None => None,
        }
    }

    /// Registers the already-stored singleton of `type_key` under
    /// `trait_key`, creating the registry lazily on its first registration:
    /// the identity's entry is appended, or replaced in place when the pair
    /// was already registered (a no-op in effect).  Returns whether a value
    /// of `type_key` was stored; when none is, this refuses to register and
    /// leaves the store untouched — the condition the fatal variant treats
    /// as a caller logic error.
    pub fn try_register_resource_as(&mut self, trait_key: TraitKey, type_key: TypeKey) -> (r: bool)
        requires
            old(self).wf(),
        ensures
            final(self).wf(),
            r == old(self).is_stored(type_key),
            !r ==> *final(self) == *old(self),
            r ==> same_identities(*old(self), *final(self)),
            r ==> same_values(*old(self), *final(self)),
            r ==> registries_same_except(*old(self), *final(self), trait_key),
            r ==> final(self).has_registry(trait_key),
            r ==> final(self).reg_entries(trait_key) == (if old(self).has_registry(trait_key) {
                seq_register(
                    old(self).reg_entries(trait_key),
                    (TraitData { resource_id: old(self).id_of(type_key), adapter: type_key }),
                )
            } else {
                seq![(TraitData { resource_id: old(self).id_of(type_key), adapter: type_key })]
            }),
    {
        let i = match self.find_slot(type_key) {
            Some(i) => i,
            None => {
                return false;
            },
        };
        let stored = self.values[i].is_some();
        if !stored {
            return false;
        }
        let d = TraitData { resource_id: ResourceId(i), adapter: type_key };
        let ghost a = self.registries@;
        match self.find_registry(trait_key) {
            Some(j) => {
                self.registries[j].registry.register(d);
                proof {
                    let b = self.registries@;
                    assert(b =~= a.update(j as int, b[j as int]));
                    lemma_reg_update_agree(a, b, j as int);
                    assert(self.reg_entries(trait_key) == b[j as int].registry.entries());
                    assert(old(self).reg_entries(trait_key) == a[j as int].registry.entries());
                    assert(old(self).type_of_id(ResourceId(i)) == type_key);
                    assert(self.entry_consistent(d));
                    assert forall|j2: int, k: int|
                        0 <= j2 < b.len() && 0 <= k
                            < b[j2].registry.entries().len() implies self.entry_consistent(
                        #[trigger] b[j2].registry.entries()[k],
                    ) by {
                        if j2 == j as int {
                            let s0 = a[j2].registry.entries();
                            let s1 = b[j2].registry.entries();
                            assert(s1 == seq_register(s0, d));
                            if has_entry_for(s0, d.resource_id) {
                                if k != entry_index(s0, d.resource_id) {
                                    assert(s1[k] == s0[k]);
                                    assert(old(self).entry_consistent(s0[k]));
                                }
                            } else {
                                if k < s0.len() {
                                    assert(s1[k] == s0[k]);
                                    assert(old(self).entry_consistent(s0[k]));
                                }
                            }
                        } else {
                            assert(b[j2] == a[j2]);
                            assert(old(self).entry_consistent(a[j2].registry.entries()[k]));
                        }
                    }
                }
            },
            None => {
                let mut reg = TraitResourceRegistry::<TypeKey>::empty();
                reg.register(d);
                proof {
                    assert(reg.entries() =~= seq![d]);
                }
                self.registries.push(RegistryEntry { trait_key, registry: reg });
                proof {
                    let b = self.registries@;
                    assert(b =~= a.push(b[a.len() as int]));
                    lemma_reg_push_agree(a, b);
                    assert(self.reg_entries(trait_key) == b[a.len() as int].registry.entries());
                    assert(old(self).type_of_id(ResourceId(i)) == type_key);
                    assert(self.entry_consistent(d));
                    assert forall|j2: int, k: int|
                        0 <= j2 < b.len() && 0 <= k
                            < b[j2].registry.entries().len() implies self.entry_consistent(
                        #[trigger] b[j2].registry.entries()[k],
                    ) by {
                        if j2 == a.len() as int {
                            assert(b[j2].registry.entries() =~= seq![d]);
                        } else {
                            assert(b[j2] == a[j2]);
                            assert(old(self).entry_consistent(a[j2].registry.entries()[k]));
                        }
                    }
                }
            },
        }
        true
    }

    /// Registers the already-stored singleton of `type_key` under
    /// `trait_key`; re-registering an already-registered pair replaces its
    /// entry with an identical one, a no-op in effect.  A caller without a
    /// stored value of `type_key` breaks this function's contract — the
    /// fallible twin reports that case instead of demanding it away.
    pub fn register_resource_as(&mut self, trait_key: TraitKey, type_key: TypeKey)
        requires
            old(self).wf(),
            old(self).is_stored(type_key),
        ensures
            final(self).wf(),
            same_identities(*old(self), *final(self)),
            same_values(*old(self), *final(self)),
            registries_same_except(*old(self), *final(self), trait_key),
            final(self).has_registry(trait_key),
            final(self).reg_entries(trait_key) == (if old(self).has_registry(trait_key) {
                seq_register(
                    old(self).reg_entries(trait_key),
                    (TraitData { resource_id: old(self).id_of(type_key), adapter: type_key }),
                )
            } else {
                seq![(TraitData { resource_id: old(self).id_of(type_key), adapter: type_key })]
            }),
            final(self).is_registered(trait_key, old(self).id_of(type_key)),
    {
        let registered = self.try_register_resource_as(trait_key, type_key);
        proof {
            assert(registered);
            let d = (TraitData {
                resource_id: old(self).id_of(type_key),
                adapter: type_key,
            });
            let s1 = self.reg_entries(trait_key);
            if old(self).has_registry(trait_key) {
                let s0 = old(self).reg_entries(trait_key);
                if has_entry_for(s0, d.resource_id) {
                    let k = entry_index(s0, d.resource_id);
                    assert(s1[k] == d);
                } else {
                    assert(s1[s0.len() as int] == d);
                }
            } else {
                assert(s1[0] == d);
            }
            assert(has_entry_for(s1, d.resource_id));
        }
    }

    /// Stores `value` as `type_key`'s singleton (overwriting any prior
    /// one) and registers it under `trait_key`, in one step.  No failure
    /// modes: the insertion guarantees the registration's precondition.
    pub fn insert_resource_as(&mut self, trait_key: TraitKey, type_key: TypeKey, value: V)
        requires
            old(self).wf(),
        ensures
            final(self).wf(),
            final(self).is_stored(type_key),
            final(self).value_at(final(self).id_of(type_key)) == value,
            old(self).has_type(type_key) ==> final(self).id_of(type_key) == old(self).id_of(
                type_key,
            ),
            forall|tk2: TypeKey|
                tk2 != type_key ==> (#[trigger] final(self).has_type(tk2) <==> old(self).has_type(
                    tk2,
                )),
            forall|tk2: TypeKey|
                tk2 != type_key && old(self).has_type(tk2) ==> #[trigger] final(self).id_of(tk2)
                    == old(self).id_of(tk2),
            forall|id: ResourceId|
                id != final(self).id_of(type_key)
                    ==> (#[trigger] final(self).present(id) <==> old(self).present(id)),
            forall|id: ResourceId|
                id != final(self).id_of(type_key) && old(self).present(id)
                    ==> #[trigger] final(self).value_at(id) == old(self).value_at(id),
            registries_same_except(*old(self), *final(self), trait_key),
            final(self).has_registry(trait_key),
            final(self).reg_entries(trait_key) == (if old(self).has_registry(trait_key) {
                seq_register(
                    old(self).reg_entries(trait_key),
                    (TraitData { resource_id: final(self).id_of(type_key), adapter: type_key }),
                )
            } else {
                seq![
                    (TraitData { resource_id: final(self).id_of(type_key), adapter: type_key })
                ]
            }),
            final(self).is_registered(trait_key, final(self).id_of(type_key)),
    {
        self.insert_resource(type_key, value);
        self.register_resource_as(trait_key, type_key);
    }

    /// Stores the caller-supplied default value of `type_key` and registers
    /// it under `trait_key`: the one-step initialising registration.  The
    /// default is passed in because concrete types are represented by keys
    /// here; the contract is that of `insert_resource_as` with it.
    pub fn init_resource_as(&mut self, trait_key: TraitKey, type_key: TypeKey, default_value: V)
        requires
            old(self).wf(),
        ensures
            final(self).wf(),
            final(self).is_stored(type_key),
            final(self).value_at(final(self).id_of(type_key)) == default_value,
            old(self).has_type(type_key) ==> final(self).id_of(type_key) == old(self).id_of(
                type_key,
            ),
            forall|tk2: TypeKey|
                tk2 != type_key ==> (#[trigger] final(self).has_type(tk2) <==> old(self).has_type(
                    tk2,
                )),
            forall|tk2: TypeKey|
                tk2 != type_key && old(self).has_type(tk2) ==> #[trigger] final(self).id_of(tk2)
                    == old(self).id_of(tk2),
            forall|id: ResourceId|
                id != final(self).id_of(type_key)
                    ==> (#[trigger] final(self).present(id) <==> old(self).present(id)),
            forall|id: ResourceId|
                id != final(self).id_of(type_key) && old(self).present(id)
                    ==> #[trigger] final(self).value_at(id) == old(self).value_at(id),
            registries_same_except(*old(self), *final(self), trait_key),
            final(self).has_registry(trait_key),
            final(self).reg_entries(trait_key) == (if old(self).has_registry(trait_key) {
                seq_register(
                    old(self).reg_entries(trait_key),
                    (TraitData { resource_id: final(self).id_of(type_key), adapter: type_key }),
                )
            } else {
                seq![
                    (TraitData { resource_id: final(self).id_of(type_key), adapter: type_key })
                ]
            }),
            final(self).is_registered(trait_key, final(self).id_of(type_key)),
    {
        self.insert_resource_as(trait_key, type_key, default_value);
    }

    /// Removes `type_key`'s entry from `trait_key`'s registry, if both the
    /// identity and the registry exist, and destroys the registry when that
    /// empties it.  Idempotent and identity-keyed: unregistering a pair
    /// that was never registered, or a type the store never saw, is a
    /// silent no-op, and the stored value itself is never touched.
    pub fn unregister_resource_from_trait(&mut self, trait_key: TraitKey, type_key: TypeKey)
        requires
            old(self).wf(),
        ensures
            final(self).wf(),
            same_identities(*old(self), *final(self)),
            same_values(*old(self), *final(self)),
            registries_same_except(*old(self), *final(self), trait_key),
            !(old(self).has_type(type_key) && old(self).has_registry(trait_key)) ==> *final(self)
                == *old(self),
            old(self).has_type(type_key) && old(self).has_registry(trait_key) ==> ({
                let remaining = seq_unregister(
                    old(self).reg_entries(trait_key),
                    old(self).id_of(type_key),
                );
                &&& remaining.len() == 0 ==> !final(self).has_registry(trait_key)
                &&& remaining.len() > 0 ==> final(self).has_registry(trait_key)
                    && final(self).reg_entries(trait_key) == remaining
            }),
    {
        let i = match self.find_slot(type_key) {
            Some(i) => i,
            None => {
                return;
            },
        };
        let j = match self.find_registry(trait_key) {
            Some(j) => j,
            None => {
                return;
            },
        };
        let ghost a = self.registries@;
        let remaining = self.registries[j].registry.unregister(ResourceId(i));
        proof {
            let b = self.registries@;
            assert(b =~= a.update(j as int, b[j as int]));
            lemma_reg_update_agree(a, b, j as int);
        }
        if remaining == 0 {
            let ghost m = self.registries@;
            self.registries.remove(j);
            proof {
                let b = self.registries@;
                assert(b == m.remove(j as int));
                lemma_reg_remove_agree(m, b, j as int);
                assert forall|j2: int, k: int|
                    0 <= j2 < b.len() && 0 <= k
                        < b[j2].registry.entries().len() implies self.entry_consistent(
                    #[trigger] b[j2].registry.entries()[k],
                ) by {
                    let j0 = if j2 < j as int {
                        j2
                    } else {
                        j2 + 1
                    };
                    assert(b[j2] == m[j0]);
                    if j0 != j as int {
                        assert(b[j2] == a[j0]);
                        assert(old(self).entry_consistent(a[j0].registry.entries()[k]));
                    }
                }
                assert forall|t2: TraitKey|
                    t2 != trait_key implies ((#[trigger] old(self).has_registry(t2))
                    <==> (#[trigger] self.has_registry(t2))) by {
                    assert(seq_has_reg(a, t2) <==> seq_has_reg(m, t2));
                    assert(seq_has_reg(m, t2) <==> seq_has_reg(b, t2));
                }
                assert forall|t2: TraitKey|
                    t2 != trait_key && old(self).has_registry(t2) implies (
                #[trigger] old(self).reg_entries(t2)) == (#[trigger] self.reg_entries(t2)) by {
                    assert(a[reg_pos(a, t2)] == m[reg_pos(m, t2)]);
                    assert(m[reg_pos(m, t2)] == b[reg_pos(b, t2)]);
                }
            }
        } else {
            proof {
                let b = self.registries@;
                let s0 = a[j as int].registry.entries();
                let s1 = b[j as int].registry.entries();
                assert(s1 == seq_unregister(s0, old(self).id_of(type_key)));
                assert forall|j2: int, k: int|
                    0 <= j2 < b.len() && 0 <= k
                        < b[j2].registry.entries().len() implies self.entry_consistent(
                    #[trigger] b[j2].registry.entries()[k],
                ) by {
                    if j2 == j as int {
                        if has_entry_for(s0, old(self).id_of(type_key)) {
                            let e = entry_index(s0, old(self).id_of(type_key));
                            let k0 = if k < e {
                                k
                            } else {
                                k + 1
                            };
                            assert(s1[k] == s0[k0]);
                            assert(old(self).entry_consistent(s0[k0]));
                        } else {
                            assert(s1[k] == s0[k]);
                            assert(old(self).entry_consistent(s0[k]));
                        }
                    } else {
                        assert(b[j2] == a[j2]);
                        assert(old(self).entry_consistent(a[j2].registry.entries()[k]));
                    }
                }
            }
        }
    }
}

/// Law: a registry that exists is never empty (absence is the canonical
/// "nothing registered" state), holds exactly one entry per distinct
/// storage identity, and each entry's identity is assigned and addresses
/// exactly the concrete type its adapter was generated for — the adapter
/// invariant that makes resolving an entry sound.
pub proof fn lemma_registry_state<V>(w: World<V>, trait_key: TraitKey)
    requires
        w.wf(),
        w.has_registry(trait_key),
    ensures
        w.reg_entries(trait_key).len() > 0,
        distinct_ids(w.reg_entries(trait_key)),
        forall|k: int|
            0 <= k < w.reg_entries(trait_key).len() ==> {
                let d = #[trigger] w.reg_entries(trait_key)[k];
                &&& w.valid_id(d.resource_id)
                &&& w.type_of_id(d.resource_id) == d.adapter
                &&& w.is_registered(trait_key, d.resource_id)
            },
{
    let rs = w.registries@;
    let j = reg_pos(rs, trait_key);
    assert(0 <= j < rs.len() && rs[j].trait_key == trait_key);
    assert(rs[j].registry.wf());
    assert forall|k: int| 0 <= k < w.reg_entries(trait_key).len() implies {
        let d = #[trigger] w.reg_entries(trait_key)[k];
        &&& w.valid_id(d.resource_id)
        &&& w.type_of_id(d.resource_id) == d.adapter
        &&& w.is_registered(trait_key, d.resource_id)
    } by {
        assert(w.entry_consistent(rs[j].registry.entries()[k]));
        assert(has_entry_for(w.reg_entries(trait_key), w.reg_entries(trait_key)[k].resource_id));
    }
}

/// Law: a traversal over a trait marker takes exactly one step per
/// distinct registered identity — its length counts registered types, not
/// the registration calls that were made.
pub proof fn lemma_traversal_counts_distinct<V>(w: World<V>, trait_key: TraitKey)
    requires
        w.wf(),
        w.has_registry(trait_key),
    ensures
        w.reg_ids(trait_key).no_duplicates(),
        w.reg_ids(trait_key).to_set().len() == w.reg_entries(trait_key).len(),
{
    lemma_registry_state(w, trait_key);
    crate::registry::lemma_length_counts_distinct_ids(
        w.reg_entries(trait_key),
        w.reg_ids(trait_key),
    );
}

/// Law: the registry for a trait marker is present in the store exactly
/// when some identity is registered under it — an emptied registry is
/// destroyed, never left behind.
pub proof fn lemma_registry_absent_iff_none<V>(w: World<V>, trait_key: TraitKey)
    requires
        w.wf(),
    ensures
        w.has_registry(trait_key) <==> exists|id: ResourceId|
            #[trigger] w.is_registered(trait_key, id),
{
    if w.has_registry(trait_key) {
        lemma_registry_state(w, trait_key);
        let d = w.reg_entries(trait_key)[0];
        assert(w.is_registered(trait_key, d.resource_id));
    }
}

/// Law: the typed view and the identity-keyed view alias the same storage.
/// What a typed fetch of a concrete type sees is exactly the value at that
/// type's storage identity, so a mutation through either view is
/// observable through the other.
pub proof fn lemma_views_alias<V>(w: World<V>, type_key: TypeKey)
    requires
        w.wf(),
    ensures
        w.stored_value(type_key) == (if w.is_stored(type_key) {
            Some(w.value_at(w.id_of(type_key)))
        } else {
            None::<V>
        }),
{
    let keys = w.type_keys@;
    let vals = w.values@;
    assert(w.type_keys.len() == keys.len());
    if seq_has_stored(keys, vals, type_key) {
        let si = stored_index(keys, vals, type_key);
        assert(0 <= si < keys.len() && keys[si] == type_key && vals[si] is Some);
        assert(w.has_type(type_key));
        let ki = key_index(keys, type_key);
        assert(0 <= ki < keys.len() && keys[ki] == type_key);
        if ki < si {
            assert(keys[ki] != keys[si]);
        } else if si < ki {
            assert(keys[si] != keys[ki]);
        }
        assert(w.id_of(type_key) == (ResourceId(si as usize)));
        assert(w.present(w.id_of(type_key)));
    } else {
        if w.is_stored(type_key) {
            let ki = key_index(keys, type_key);
            assert(0 <= ki < keys.len() && keys[ki] == type_key);
            assert(w.id_of(type_key) == (ResourceId(ki as usize)));
            assert(vals[ki] is Some);
            assert(seq_has_stored(keys, vals, type_key));
        }
    }
}

} // verus!
