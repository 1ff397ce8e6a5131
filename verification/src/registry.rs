//! The key registry: a concurrent map from key name to the slot holding
//! that key's coordination state.
//!
//! Entries are created on first use, exactly once per key, and never
//! removed. The mapping itself lives in `scc::HashMap`, whose insert
//! refuses an existing key, which is what makes first-use creation
//! race-free; its behaviour is taken on trust through the wrappers below.

use vstd::prelude::*;

use crate::state::KeyState;

verus! {

#[verifier::external_type_specification]
#[verifier::external_body]
#[verifier::reject_recursive_types(K)]
#[verifier::reject_recursive_types(V)]
#[verifier::reject_recursive_types(H)]
pub struct ExSccHashMap<K, V, H>(scc::HashMap<K, V, H>)
    where H: std::hash::BuildHasher;

/// The concrete map type the registry keys live in.
pub type SlotMap = scc::HashMap<String, usize>;

/// The key-to-slot mapping a `scc::HashMap` currently holds.
pub uninterp spec fn slot_map_of(m: SlotMap) -> Map<Seq<char>, usize>;

/// The mapping with no keys.
pub open spec fn empty_slot_map() -> Map<Seq<char>, usize> {
    Map::empty()
}

/// Relies on `scc::HashMap::new`: creates an empty map.
#[verifier::external_body]
fn slot_map_new() -> (m: SlotMap)
    ensures
        slot_map_of(m) == empty_slot_map(),
{
    scc::HashMap::new()
}

/// Relies on `scc::HashMap::contains_sync`: reports whether the key is
/// present, without taking a writer lock.
#[verifier::external_body]
fn slot_map_contains(m: &SlotMap, key: &str) -> (r: bool)
    ensures
        r == slot_map_of(*m).contains_key(key@),
{
    m.contains_sync(key)
}

/// Relies on `scc::HashMap::read_sync`: hands the value under the key to a
/// reader closure, here copied out unchanged.
#[verifier::external_body]
fn slot_map_read(m: &SlotMap, key: &str) -> (r: Option<usize>)
    ensures
        r == if slot_map_of(*m).contains_key(key@) {
            Some(slot_map_of(*m)[key@])
        } else {
            None::<usize>
        },
{
    m.read_sync(key, |_, v| *v)
}

/// Relies on `scc::HashMap::insert_sync`: inserts the pair only when the
/// key is absent, and reports an error (here `false`) when it exists.
#[verifier::external_body]
fn slot_map_insert(m: &mut SlotMap, key: &str, slot: usize) -> (r: bool)
    ensures
        r == !slot_map_of(*old(m)).contains_key(key@),
        slot_map_of(*final(m)) == if slot_map_of(*old(m)).contains_key(key@) {
            slot_map_of(*old(m))
        } else {
            slot_map_of(*old(m)).insert(key@, slot)
        },
{
    m.insert_sync(key.to_string(), slot).is_ok()
}

/// The registry: key names mapped to slots, and the per-slot key states.
pub struct Registry {
    slots: SlotMap,
    states: Vec<KeyState>,
}

impl Registry {
    /// The key-to-slot mapping.
    pub closed spec fn key_slots(self) -> Map<Seq<char>, usize> {
        slot_map_of(self.slots)
    }

    /// The per-slot key states.
    pub closed spec fn states_view(self) -> Seq<KeyState> {
        self.states@
    }

    /// Whether `k` has an entry.
    pub open spec fn registered(self, k: Seq<char>) -> bool {
        self.key_slots().contains_key(k)
    }

    /// The slot of a registered key.
    pub open spec fn slot_of(self, k: Seq<char>) -> usize {
        self.key_slots()[k]
    }

    /// The state of a registered key.
    pub open spec fn state_of(self, k: Seq<char>) -> KeyState {
        self.states_view()[self.slot_of(k) as int]
    }

    /// Well-formedness: every slot is in range, distinct keys have
    /// distinct slots, and every state is well-formed.
    pub open spec fn wf(self) -> bool {
        &&& forall|k: Seq<char>|
            #[trigger] self.registered(k) ==> self.slot_of(k) < self.states_view().len()
        &&& forall|k1: Seq<char>, k2: Seq<char>|
            #[trigger] self.registered(k1) && #[trigger] self.registered(k2) && k1 != k2
                ==> self.slot_of(k1) != self.slot_of(k2)
        &&& forall|i: int|
            0 <= i < self.states_view().len() ==> (#[trigger] self.states_view()[i]).wf()
    }

    /// An empty registry.
    pub fn new() -> (r: Registry)
        ensures
            r.wf(),
            r.key_slots() == Map::<Seq<char>, usize>::empty(),
            r.states_view().len() == 0,
    {
        Registry { slots: slot_map_new(), states: Vec::new() }
    }

    /// Make sure an entry for `name` exists, creating it at most once: a
    /// second call for the same key leaves the registry exactly as it was.
    pub fn ensure(&mut self, name: &str)
        requires
            old(self).wf(),
        ensures
            final(self).wf(),
            final(self).registered(name@),
            old(self).registered(name@) ==> *final(self) == *old(self),
            !old(self).registered(name@) ==> {
                &&& old(self).states_view().len() <= usize::MAX
                &&& final(self).slot_of(name@) == old(self).states_view().len()
                &&& final(self).key_slots() == old(self).key_slots().insert(
                    name@,
                    final(self).slot_of(name@),
                )
                &&& final(self).states_view() == old(self).states_view().push(
                    KeyState::spec_idle(),
                )
            },
    {
        if slot_map_contains(&self.slots, name) {
            return;
        }
        let slot = self.states.len();
        let _ = slot_map_insert(&mut self.slots, name, slot);
        self.states.push(KeyState::new());
        proof {
            let olds = *old(self);
            assert forall|k: Seq<char>| #[trigger] self.registered(k)
                implies self.slot_of(k) < self.states_view().len() by {
                if k != name@ {
                    assert(olds.registered(k));
                }
            }
            assert forall|k1: Seq<char>, k2: Seq<char>|
                #[trigger] self.registered(k1) && #[trigger] self.registered(k2) && k1 != k2
                    implies self.slot_of(k1) != self.slot_of(k2) by {
                if k1 != name@ {
                    assert(olds.registered(k1));
                }
                if k2 != name@ {
                    assert(olds.registered(k2));
                }
            }
            assert forall|i: int| 0 <= i < self.states_view().len()
                implies (#[trigger] self.states_view()[i]).wf() by {
                if i < olds.states_view().len() {
                    assert(olds.states_view()[i].wf());
                }
            }
        }
    }

    /// The slot of `name`, if it is registered.
    pub fn lookup(&self, name: &str) -> (r: Option<usize>)
        ensures
            r == if self.registered(name@) {
                Some(self.slot_of(name@))
            } else {
                None::<usize>
            },
    {
        slot_map_read(&self.slots, name)
    }

    /// The state in a slot.
    pub fn state_at(&self, slot: usize) -> (s: KeyState)
        requires
            slot < self.states_view().len(),
        ensures
            s == self.states_view()[slot as int],
    {
        self.states[slot]
    }

    /// Replace the state in a slot, leaving the key mapping untouched.
    pub(crate) fn set_state_at(&mut self, slot: usize, st: KeyState)
        requires
            slot < old(self).states_view().len(),
        ensures
            final(self).key_slots() == old(self).key_slots(),
            final(self).states_view() == old(self).states_view().update(slot as int, st),
    {
        self.states[slot] = st;
    }

    /// The number of registered keys' slots.
    pub fn slot_count(&self) -> (n: usize)
        ensures
            n == self.states_view().len(),
    {
        self.states.len()
    }
}

/// Replacing one slot's state with a well-formed one keeps the registry
/// well-formed.
pub proof fn lemma_wf_after_state_update(pre: Registry, post: Registry, slot: usize, st: KeyState)
    requires
        pre.wf(),
        slot < pre.states_view().len(),
        st.wf(),
        post.key_slots() == pre.key_slots(),
        post.states_view() == pre.states_view().update(slot as int, st),
    ensures
        post.wf(),
{
    assert forall|k: Seq<char>| #[trigger] post.registered(k)
        implies post.slot_of(k) < post.states_view().len() by {
        assert(pre.registered(k));
    }
    assert forall|k1: Seq<char>, k2: Seq<char>|
        #[trigger] post.registered(k1) && #[trigger] post.registered(k2) && k1 != k2
            implies post.slot_of(k1) != post.slot_of(k2) by {
        assert(pre.registered(k1));
        assert(pre.registered(k2));
    }
    assert forall|i: int| 0 <= i < post.states_view().len()
        implies (#[trigger] post.states_view()[i]).wf() by {
        if i != slot {
            assert(post.states_view()[i] == pre.states_view()[i]);
            assert(pre.states_view()[i].wf());
        }
    }
}

/// The key an introspection query refers to: the named key, or the unnamed
/// (empty-string) key.
pub open spec fn query_key(name: Option<&str>) -> Seq<char> {
    match name {
        Some(n) => n@,
        None => ""@,
    }
}

/// Whether the caller identified by `me` currently holds the queried key
/// serially: the entry exists and `me` is its serial owner right now, not
/// merely "somebody holds some lock".
pub fn is_locked_serially(reg: &Registry, me: u64, name: Option<&str>) -> (r: bool)
    requires
        reg.wf(),
    ensures
        r == (reg.registered(query_key(name)) && reg.state_of(query_key(name)).serial_depth > 0
            && reg.state_of(query_key(name)).owner == Some(me)),
{
    let key: &str = match name {
        Some(n) => n,
        None => "",
    };
    match reg.lookup(key) {
        None => false,
        Some(slot) => {
            let st = reg.state_at(slot);
            st.is_held_by(me)
        },
    }
}

} // verus!
