//! Acquisition of one or more keys, the guard that owns the release
//! obligation, and the core entry points that run a unit of work under
//! the acquired keys.

use vstd::prelude::*;

use crate::order::{canonical_slots, strictly_sorted};
use crate::registry::Registry;
use crate::state::KeyState;

verus! {

/// The two ways of holding a key.
#[derive(Clone, Copy)]
pub enum LockMode {
    Serial,
    Parallel,
}

/// Whether `k` occurs among the requested names.
pub open spec fn contains_name(names: Seq<&str>, k: Seq<char>) -> bool {
    exists|i: int| 0 <= i < names.len() && (#[trigger] names[i])@ == k
}

/// State-level admission: a serial acquisition by `me` needs no parallel
/// participants and a key that is free or already `me`'s (with headroom
/// for one more reentrant level); a parallel acquisition needs a key
/// nobody holds serially (with headroom for one more participant).
pub open spec fn free_state(st: KeyState, me: u64, mode: LockMode) -> bool {
    match mode {
        LockMode::Serial => st.spec_can_serial(me) && st.serial_depth < u32::MAX,
        LockMode::Parallel => st.spec_can_parallel() && st.parallels < u32::MAX,
    }
}

/// Key-level admission: an unregistered key is always free; a registered
/// one is free when its state admits the requested mode.
pub open spec fn key_free(reg: Registry, k: Seq<char>, me: u64, mode: LockMode) -> bool {
    reg.registered(k) ==> free_state(reg.state_of(k), me, mode)
}

/// The state a key has just before acquisition: its registered state, or
/// idle for a key seen for the first time.
pub open spec fn pre_state(reg: Registry, k: Seq<char>) -> KeyState {
    if reg.registered(k) {
        reg.state_of(k)
    } else {
        KeyState::spec_idle()
    }
}

/// The state transition of one acquisition.
pub open spec fn spec_acquire_one(st: KeyState, mode: LockMode, me: u64) -> KeyState {
    match mode {
        LockMode::Serial => st.spec_after_serial(me),
        LockMode::Parallel => st.spec_after_parallel(),
    }
}

/// The state transition of one release.
pub open spec fn spec_release_one(st: KeyState, mode: LockMode) -> KeyState {
    match mode {
        LockMode::Serial => st.spec_after_serial_exit(),
        LockMode::Parallel => st.spec_after_parallel_exit(),
    }
}

/// What an unreleased guard certifies of one key state.
pub open spec fn guard_holds(st: KeyState, mode: LockMode, me: u64) -> bool {
    match mode {
        LockMode::Serial => st.serial_depth > 0 && st.owner == Some(me),
        LockMode::Parallel => st.parallels > 0,
    }
}

/// Parallel admission does not depend on who asks: only serial holding
/// is tied to an identity.
pub proof fn lemma_parallel_free_any_identity(reg: Registry, k: Seq<char>, a: u64, b: u64)
    ensures
        key_free(reg, k, a, LockMode::Parallel) == key_free(reg, k, b, LockMode::Parallel),
{
}

/// At any instant at most one identity holds a key serially: two serial
/// certificates on one key state belong to the same owner.
pub proof fn lemma_serial_owner_unique(st: KeyState, a: u64, b: u64)
    requires
        guard_holds(st, LockMode::Serial, a),
        guard_holds(st, LockMode::Serial, b),
    ensures
        a == b,
{
}

/// An acquisition and the matching release return the key to exactly its
/// previous state.
pub proof fn lemma_acquire_release_round_trip(st: KeyState, mode: LockMode, me: u64)
    requires
        st.wf(),
        free_state(st, me, mode),
    ensures
        spec_release_one(spec_acquire_one(st, mode, me), mode) == st,
{
    match mode {
        LockMode::Serial => crate::state::lemma_serial_round_trip(st, me),
        LockMode::Parallel => crate::state::lemma_parallel_round_trip(st),
    }
}

/// Make sure every requested name is registered and return the canonical
/// acquisition order of their slots: ascending, each slot once.
pub fn get_locks(reg: &mut Registry, names: &Vec<&str>) -> (r: Vec<usize>)
    requires
        old(reg).wf(),
    ensures
        final(reg).wf(),
        forall|k: Seq<char>| #[trigger] old(reg).registered(k) ==> final(reg).registered(k)
            && final(reg).slot_of(k) == old(reg).slot_of(k)
            && final(reg).state_of(k) == old(reg).state_of(k),
        forall|i: int| 0 <= i < names@.len() ==> final(reg).registered((#[trigger] names@[i])@),
        forall|k: Seq<char>| #[trigger] final(reg).registered(k)
            ==> old(reg).registered(k) || contains_name(names@, k),
        forall|k: Seq<char>| #[trigger] final(reg).registered(k) && !old(reg).registered(k)
            ==> final(reg).state_of(k) == KeyState::spec_idle(),
        final(reg).states_view().len() >= old(reg).states_view().len(),
        strictly_sorted(r@),
        forall|s: usize| r@.contains(s)
            <==> (exists|i: int|
            0 <= i < names@.len() && final(reg).slot_of((#[trigger] names@[i])@) == s),
        forall|j: int| 0 <= j < r@.len() ==> #[trigger] r@[j] < final(reg).states_view().len(),
        r@.len() <= names@.len(),
{
    let mut i: usize = 0;
    while i < names.len()
        invariant
            i <= names@.len(),
            reg.wf(),
            forall|k: Seq<char>| #[trigger] old(reg).registered(k) ==> reg.registered(k)
                && reg.slot_of(k) == old(reg).slot_of(k)
                && reg.state_of(k) == old(reg).state_of(k),
            forall|j: int| 0 <= j < i ==> reg.registered((#[trigger] names@[j])@),
            forall|k: Seq<char>| #[trigger] reg.registered(k)
                ==> old(reg).registered(k) || (exists|j: int|
                0 <= j < i && (#[trigger] names@[j])@ == k),
            forall|k: Seq<char>| #[trigger] reg.registered(k) && !old(reg).registered(k)
                ==> reg.state_of(k) == KeyState::spec_idle(),
            reg.states_view().len() >= old(reg).states_view().len(),
        decreases names@.len() - i,
    {
        let ghost pre = *reg;
        reg.ensure(names[i]);
        proof {
            let nk = (names@[i as int])@;
            assert forall|k: Seq<char>| #[trigger] old(reg).registered(k)
                implies reg.registered(k) && reg.slot_of(k) == old(reg).slot_of(k)
                    && reg.state_of(k) == old(reg).state_of(k) by {
                assert(pre.registered(k));
                assert(pre.slot_of(k) < pre.states_view().len());
                if !pre.registered(nk) {
                    assert(k != nk);
                }
            }
            assert forall|k: Seq<char>| #[trigger] reg.registered(k)
                implies old(reg).registered(k) || (exists|j: int|
                0 <= j < i + 1 && (#[trigger] names@[j])@ == k) by {
                if pre.registered(k) {
                    if !old(reg).registered(k) {
                        let wj = choose|j: int| 0 <= j < i && (#[trigger] names@[j])@ == k;
                        assert(0 <= wj < i + 1 && (names@[wj])@ == k);
                    }
                } else {
                    assert(k == nk);
                    assert(0 <= i < i + 1 && (names@[i as int])@ == k);
                }
            }
            assert forall|k: Seq<char>| #[trigger] reg.registered(k) && !old(reg).registered(k)
                implies reg.state_of(k) == KeyState::spec_idle() by {
                if pre.registered(k) {
                    assert(pre.slot_of(k) < pre.states_view().len());
                    assert(pre.state_of(k) == KeyState::spec_idle());
                    if pre.registered(nk) {
                        assert(*reg == pre);
                    } else {
                        assert(k != nk);
                        assert(reg.slot_of(k) == pre.slot_of(k));
                        assert(reg.state_of(k) == pre.state_of(k));
                    }
                } else {
                    assert(k == nk);
                    assert(reg.slot_of(k) == pre.states_view().len());
                    assert(reg.state_of(k) == KeyState::spec_idle());
                }
            }
        }
        i = i + 1;
    }
    let mut raw: Vec<usize> = Vec::new();
    let mut j: usize = 0;
    while j < names.len()
        invariant
            j <= names@.len(),
            raw@.len() == j,
            reg.wf(),
            forall|i2: int| 0 <= i2 < names@.len() ==> reg.registered((#[trigger] names@[i2])@),
            forall|i2: int| 0 <= i2 < j ==> #[trigger] raw@[i2] == reg.slot_of(names@[i2]@),
        decreases names@.len() - j,
    {
        let s = reg.lookup(names[j]).unwrap();
        raw.push(s);
        j = j + 1;
    }
    let r = canonical_slots(&raw);
    proof {
        assert forall|s: usize| r@.contains(s)
            implies (exists|i: int|
            0 <= i < names@.len() && reg.slot_of((#[trigger] names@[i])@) == s) by {
            assert(raw@.contains(s));
            let wi = choose|wi: int| 0 <= wi < raw@.len() && raw@[wi] == s;
            assert(reg.slot_of(names@[wi]@) == s);
        }
        assert forall|s: usize| (exists|i: int|
            0 <= i < names@.len() && reg.slot_of((#[trigger] names@[i])@) == s)
            implies r@.contains(s) by {
            let wi = choose|wi: int|
                0 <= wi < names@.len() && reg.slot_of((names@[wi])@) == s;
            assert(raw@[wi] == s);
            assert(raw@.contains(s));
        }
        assert forall|j2: int| 0 <= j2 < r@.len()
            implies #[trigger] r@[j2] < reg.states_view().len() by {
            assert(r@.contains(r@[j2]));
            let wi = choose|wi: int|
                0 <= wi < names@.len() && reg.slot_of((names@[wi])@) == r@[j2];
            assert(reg.registered(names@[wi]@));
        }
    }
    r
}

/// An acquisition receipt: which slots are held, in which mode, by whom,
/// and whether the obligation to release has already been discharged.
pub struct Guard {
    mode: LockMode,
    owner: u64,
    slots: Vec<usize>,
    released: bool,
}

impl Guard {
    /// The mode this guard was acquired in.
    pub closed spec fn spec_mode(self) -> LockMode {
        self.mode
    }

    /// The identity the guard was acquired under.
    pub closed spec fn spec_owner(self) -> u64 {
        self.owner
    }

    /// The held slots, in canonical (ascending) order.
    pub closed spec fn spec_slots(self) -> Seq<usize> {
        self.slots@
    }

    /// Whether the guard has already released.
    pub closed spec fn spec_released(self) -> bool {
        self.released
    }

    /// The guard is consistent with a registry: its slots are in range and
    /// canonically ordered, and while it is unreleased each held slot's
    /// state shows the holding it certifies.
    pub open spec fn valid_for(self, reg: Registry) -> bool {
        &&& strictly_sorted(self.spec_slots())
        &&& forall|i: int| 0 <= i < self.spec_slots().len()
            ==> #[trigger] self.spec_slots()[i] < reg.states_view().len()
        &&& !self.spec_released() ==> forall|i: int| 0 <= i < self.spec_slots().len()
            ==> guard_holds(
                reg.states_view()[#[trigger] self.spec_slots()[i] as int],
                self.spec_mode(),
                self.spec_owner(),
            )
    }

    /// Release every held slot, in reverse acquisition order, exactly
    /// once: a second call observes the discharged obligation and leaves
    /// the registry untouched, so release is idempotent, and callers may
    /// invoke it on every exit path, normal or not.
    pub fn release(&mut self, reg: &mut Registry)
        requires
            old(reg).wf(),
            old(self).valid_for(*old(reg)),
        ensures
            final(reg).wf(),
            final(self).spec_released(),
            final(self).spec_mode() == old(self).spec_mode(),
            final(self).spec_owner() == old(self).spec_owner(),
            final(self).spec_slots() == old(self).spec_slots(),
            final(self).valid_for(*final(reg)),
            final(reg).key_slots() == old(reg).key_slots(),
            final(reg).states_view().len() == old(reg).states_view().len(),
            old(self).spec_released() ==> *final(reg) == *old(reg),
            !old(self).spec_released() ==> forall|s: int|
                0 <= s < final(reg).states_view().len() ==> #[trigger] final(reg).states_view()[s]
                    == if exists|j: int|
                    0 <= j < old(self).spec_slots().len() && #[trigger] old(self).spec_slots()[j]
                        == s {
                    spec_release_one(old(reg).states_view()[s], old(self).spec_mode())
                } else {
                    old(reg).states_view()[s]
                },
    {
        if self.released {
            return;
        }
        let ghost g0 = *self;
        let ghost reg0 = *reg;
        let mut idx: usize = self.slots.len();
        while idx > 0
            invariant
                idx <= g0.spec_slots().len(),
                *self == g0,
                !g0.spec_released(),
                g0.valid_for(reg0),
                reg0.wf(),
                reg.wf(),
                reg.key_slots() == reg0.key_slots(),
                reg.states_view().len() == reg0.states_view().len(),
                forall|s: int| 0 <= s < reg.states_view().len()
                    ==> #[trigger] reg.states_view()[s] == if exists|j: int|
                    idx <= j < g0.spec_slots().len() && #[trigger] g0.spec_slots()[j] == s {
                    spec_release_one(reg0.states_view()[s], g0.spec_mode())
                } else {
                    reg0.states_view()[s]
                },
            decreases idx,
        {
            idx = idx - 1;
            let slot = self.slots[idx];
            proof {
                assert(g0.spec_slots()[idx as int] == slot);
                assert(slot < reg.states_view().len());
                assert(!(exists|j: int|
                    idx + 1 <= j < g0.spec_slots().len() && #[trigger] g0.spec_slots()[j]
                        == slot)) by {
                    assert forall|j: int| idx + 1 <= j < g0.spec_slots().len()
                        implies #[trigger] g0.spec_slots()[j] != slot by {
                        assert(g0.spec_slots()[idx as int] < g0.spec_slots()[j]);
                    }
                }
                assert(reg.states_view()[slot as int] == reg0.states_view()[slot as int]);
                assert(guard_holds(
                    reg0.states_view()[slot as int],
                    g0.spec_mode(),
                    g0.spec_owner(),
                ));
            }
            let mut st = reg.state_at(slot);
            match self.mode {
                LockMode::Serial => st.exit_serial(self.owner),
                LockMode::Parallel => st.exit_parallel(),
            }
            let ghost regmid = *reg;
            reg.set_state_at(slot, st);
            proof {
                crate::registry::lemma_wf_after_state_update(regmid, *reg, slot, st);
                assert forall|s: int| 0 <= s < reg.states_view().len()
                    implies #[trigger] reg.states_view()[s] == if exists|j: int|
                    idx <= j < g0.spec_slots().len() && #[trigger] g0.spec_slots()[j] == s {
                    spec_release_one(reg0.states_view()[s], g0.spec_mode())
                } else {
                    reg0.states_view()[s]
                } by {
                    if s == slot {
                        assert(idx <= idx < g0.spec_slots().len()
                            && g0.spec_slots()[idx as int] == s);
                    } else {
                        assert(reg.states_view()[s] == regmid.states_view()[s]);
                        if exists|j: int|
                            idx <= j < g0.spec_slots().len() && #[trigger] g0.spec_slots()[j]
                                == s {
                            let wj = choose|j: int|
                                idx <= j < g0.spec_slots().len() && #[trigger] g0.spec_slots()[j]
                                    == s;
                            assert(idx + 1 <= wj < g0.spec_slots().len()
                                && g0.spec_slots()[wj] == s);
                        }
                    }
                }
            }
        }
        self.released = true;
    }
}

impl Registry {
    /// Acquire every requested key in `mode`: register unseen keys, put
    /// the keys into the canonical order, and apply one acquisition
    /// transition per distinct key. Requires every requested key to be
    /// free for the caller; the returned guard owns the release.
    fn enter(&mut self, me: u64, names: &Vec<&str>, mode: LockMode) -> (g: Guard)
        requires
            old(self).wf(),
            names@.len() > 0,
            forall|i: int| 0 <= i < names@.len()
                ==> key_free(*old(self), (#[trigger] names@[i])@, me, mode),
        ensures
            final(self).wf(),
            g.spec_mode() == mode,
            g.spec_owner() == me,
            !g.spec_released(),
            g.valid_for(*final(self)),
            forall|k: Seq<char>| #[trigger] old(self).registered(k) ==> final(self).registered(k)
                && final(self).slot_of(k) == old(self).slot_of(k),
            forall|i: int| 0 <= i < names@.len()
                ==> final(self).registered((#[trigger] names@[i])@),
            forall|k: Seq<char>| #[trigger] final(self).registered(k)
                ==> old(self).registered(k) || contains_name(names@, k),
            forall|k: Seq<char>| #[trigger] final(self).registered(k) ==> final(self).state_of(k)
                == if contains_name(names@, k) {
                spec_acquire_one(pre_state(*old(self), k), mode, me)
            } else {
                old(self).state_of(k)
            },
            forall|s: usize| g.spec_slots().contains(s)
                <==> (exists|i: int|
                0 <= i < names@.len() && final(self).slot_of((#[trigger] names@[i])@) == s),
    {
        let ghost pre = *self;
        let slots = get_locks(self, names);
        let ghost mid = *self;
        proof {
            assert forall|j: int| 0 <= j < slots@.len()
                implies free_state(
                mid.states_view()[#[trigger] slots@[j] as int],
                me,
                mode,
            ) by {
                assert(slots@.contains(slots@[j]));
                let wi = choose|wi: int|
                    0 <= wi < names@.len() && mid.slot_of((names@[wi])@) == slots@[j];
                let k = (names@[wi])@;
                assert(mid.registered(k));
                assert(key_free(pre, k, me, mode));
                if pre.registered(k) {
                    assert(mid.state_of(k) == pre.state_of(k));
                } else {
                    assert(mid.state_of(k) == KeyState::spec_idle());
                }
            }
        }
        let mut idx: usize = 0;
        while idx < slots.len()
            invariant
                idx <= slots@.len(),
                mid.wf(),
                strictly_sorted(slots@),
                forall|j: int| 0 <= j < slots@.len()
                    ==> #[trigger] slots@[j] < mid.states_view().len(),
                forall|j: int| 0 <= j < slots@.len()
                    ==> free_state(mid.states_view()[#[trigger] slots@[j] as int], me, mode),
                self.key_slots() == mid.key_slots(),
                self.states_view().len() == mid.states_view().len(),
                forall|s: int| 0 <= s < self.states_view().len()
                    ==> #[trigger] self.states_view()[s] == if exists|j: int|
                    0 <= j < idx && #[trigger] slots@[j] == s {
                    spec_acquire_one(mid.states_view()[s], mode, me)
                } else {
                    mid.states_view()[s]
                },
            decreases slots@.len() - idx,
        {
            let slot = slots[idx];
            proof {
                assert(slots@[idx as int] == slot);
                assert(!(exists|j: int| 0 <= j < idx && #[trigger] slots@[j] == slot)) by {
                    assert forall|j: int| 0 <= j < idx
                        implies #[trigger] slots@[j] != slot by {
                        assert(slots@[j] < slots@[idx as int]);
                    }
                }
                assert(self.states_view()[slot as int] == mid.states_view()[slot as int]);
                assert(free_state(mid.states_view()[slot as int], me, mode));
                assert(mid.states_view()[slot as int].wf());
            }
            let mut st = self.state_at(slot);
            let ok = match mode {
                LockMode::Serial => st.try_serial(me),
                LockMode::Parallel => st.try_parallel(),
            };
            proof {
                assert(ok);
            }
            self.set_state_at(slot, st);
            idx = idx + 1;
            proof {
                assert forall|s: int| 0 <= s < self.states_view().len()
                    implies #[trigger] self.states_view()[s] == if exists|j: int|
                    0 <= j < idx && #[trigger] slots@[j] == s {
                    spec_acquire_one(mid.states_view()[s], mode, me)
                } else {
                    mid.states_view()[s]
                } by {
                    if s == slot {
                        assert(0 <= idx - 1 < idx && slots@[idx - 1] == s);
                    } else {
                        if exists|j: int| 0 <= j < idx && #[trigger] slots@[j] == s {
                            let wj = choose|j: int| 0 <= j < idx && #[trigger] slots@[j] == s;
                            assert(0 <= wj < idx - 1 && slots@[wj] == s);
                        }
                    }
                }
            }
        }
        proof {
            assert forall|k: Seq<char>| #[trigger] self.registered(k)
                implies mid.registered(k) && self.slot_of(k) == mid.slot_of(k) by {}
            assert forall|k: Seq<char>| #[trigger] mid.registered(k)
                implies self.registered(k) && self.slot_of(k) == mid.slot_of(k) by {}
            assert forall|k: Seq<char>| #[trigger] pre.registered(k)
                implies self.registered(k) && self.slot_of(k) == pre.slot_of(k) by {
                assert(mid.registered(k));
            }
            assert forall|i: int| 0 <= i < self.states_view().len()
                implies (#[trigger] self.states_view()[i]).wf() by {
                assert(mid.states_view()[i].wf());
                if exists|j: int| 0 <= j < slots@.len() && #[trigger] slots@[j] == i {
                    let wj = choose|j: int| 0 <= j < slots@.len() && #[trigger] slots@[j] == i;
                    assert(free_state(mid.states_view()[slots@[wj] as int], me, mode));
                    assert(self.states_view()[i]
                        == spec_acquire_one(mid.states_view()[i], mode, me));
                } else {
                    assert(self.states_view()[i] == mid.states_view()[i]);
                }
            }
            assert forall|k1: Seq<char>, k2: Seq<char>|
                #[trigger] self.registered(k1) && #[trigger] self.registered(k2) && k1 != k2
                    implies self.slot_of(k1) != self.slot_of(k2) by {
                assert(mid.registered(k1));
                assert(mid.registered(k2));
            }
            assert forall|k: Seq<char>| #[trigger] self.registered(k)
                implies self.state_of(k) == if contains_name(names@, k) {
                spec_acquire_one(pre_state(pre, k), mode, me)
            } else {
                pre.state_of(k)
            } by {
                let s = self.slot_of(k);
                assert(mid.registered(k));
                if contains_name(names@, k) {
                    let wi = choose|i: int|
                        0 <= i < names@.len() && (#[trigger] names@[i])@ == k;
                    assert(mid.slot_of((names@[wi])@) == s);
                    assert(slots@.contains(s));
                    let wj = choose|j: int| 0 <= j < slots@.len() && slots@[j] == s;
                    assert(self.states_view()[s as int]
                        == spec_acquire_one(mid.states_view()[s as int], mode, me));
                    if pre.registered(k) {
                        assert(mid.state_of(k) == pre.state_of(k));
                    } else {
                        assert(mid.state_of(k) == KeyState::spec_idle());
                    }
                } else {
                    assert(!slots@.contains(s)) by {
                        if slots@.contains(s) {
                            let wi = choose|i: int|
                                0 <= i < names@.len() && mid.slot_of((names@[i])@) == s;
                            assert(mid.registered((names@[wi])@));
                            assert((names@[wi])@ == k);
                        }
                    }
                    assert(self.states_view()[s as int] == mid.states_view()[s as int]) by {
                        if exists|j: int| 0 <= j < slots@.len() && #[trigger] slots@[j] == s {
                            let wj = choose|j: int|
                                0 <= j < slots@.len() && #[trigger] slots@[j] == s;
                            assert(slots@.contains(s));
                        }
                    }
                    assert(pre.registered(k));
                    assert(mid.state_of(k) == pre.state_of(k));
                }
            }
        }
        let g = Guard { mode, owner: me, slots, released: false };
        proof {
            assert forall|i: int| 0 <= i < g.spec_slots().len()
                implies guard_holds(
                self.states_view()[#[trigger] g.spec_slots()[i] as int],
                g.spec_mode(),
                g.spec_owner(),
            ) by {
                let s = g.spec_slots()[i];
                assert(g.spec_slots().contains(s));
                assert(self.states_view()[s as int]
                    == spec_acquire_one(mid.states_view()[s as int], mode, me)) by {
                    assert(0 <= i < g.spec_slots().len() && slots@[i] == s);
                }
            }
        }
        g
    }
}

impl Registry {
    /// Acquire every requested key serially for `me`, registering unseen
    /// keys first. Blocks nobody: callers must only invoke it when every
    /// requested key admits `me` (see `can_enter_serial_all`).
    pub fn enter_serial(&mut self, me: u64, names: &Vec<&str>) -> (g: Guard)
        requires
            old(self).wf(),
            names@.len() > 0,
            forall|i: int| 0 <= i < names@.len()
                ==> key_free(*old(self), (#[trigger] names@[i])@, me, LockMode::Serial),
        ensures
            final(self).wf(),
            g.spec_mode() == LockMode::Serial,
            g.spec_owner() == me,
            !g.spec_released(),
            g.valid_for(*final(self)),
            forall|k: Seq<char>| #[trigger] old(self).registered(k) ==> final(self).registered(k)
                && final(self).slot_of(k) == old(self).slot_of(k),
            forall|i: int| 0 <= i < names@.len()
                ==> final(self).registered((#[trigger] names@[i])@),
            forall|k: Seq<char>| #[trigger] final(self).registered(k)
                ==> old(self).registered(k) || contains_name(names@, k),
            forall|k: Seq<char>| #[trigger] final(self).registered(k) ==> final(self).state_of(k)
                == if contains_name(names@, k) {
                spec_acquire_one(pre_state(*old(self), k), LockMode::Serial, me)
            } else {
                old(self).state_of(k)
            },
            forall|s: usize| g.spec_slots().contains(s)
                <==> (exists|i: int|
                0 <= i < names@.len() && final(self).slot_of((#[trigger] names@[i])@) == s),
    {
        self.enter(me, names, LockMode::Serial)
    }

    /// Join the parallel participants of every requested key, registering
    /// unseen keys first. Callers must only invoke it when no requested
    /// key is held serially (see `can_enter_parallel_all`).
    pub fn enter_parallel(&mut self, me: u64, names: &Vec<&str>) -> (g: Guard)
        requires
            old(self).wf(),
            names@.len() > 0,
            forall|i: int| 0 <= i < names@.len()
                ==> key_free(*old(self), (#[trigger] names@[i])@, me, LockMode::Parallel),
        ensures
            final(self).wf(),
            g.spec_mode() == LockMode::Parallel,
            g.spec_owner() == me,
            !g.spec_released(),
            g.valid_for(*final(self)),
            forall|k: Seq<char>| #[trigger] old(self).registered(k) ==> final(self).registered(k)
                && final(self).slot_of(k) == old(self).slot_of(k),
            forall|i: int| 0 <= i < names@.len()
                ==> final(self).registered((#[trigger] names@[i])@),
            forall|k: Seq<char>| #[trigger] final(self).registered(k)
                ==> old(self).registered(k) || contains_name(names@, k),
            forall|k: Seq<char>| #[trigger] final(self).registered(k) ==> final(self).state_of(k)
                == if contains_name(names@, k) {
                spec_acquire_one(pre_state(*old(self), k), LockMode::Parallel, me)
            } else {
                old(self).state_of(k)
            },
            forall|s: usize| g.spec_slots().contains(s)
                <==> (exists|i: int|
                0 <= i < names@.len() && final(self).slot_of((#[trigger] names@[i])@) == s),
    {
        self.enter(me, names, LockMode::Parallel)
    }

    /// Whether a serial acquisition of `name` by `me` could proceed now.
    pub fn can_enter_serial(&self, me: u64, name: &str) -> (r: bool)
        requires
            self.wf(),
        ensures
            r == key_free(*self, name@, me, LockMode::Serial),
    {
        match self.lookup(name) {
            None => true,
            Some(slot) => {
                let st = self.state_at(slot);
                st.parallels == 0 && (st.serial_depth == 0 || match st.owner {
                    Some(o) => o == me,
                    None => false,
                }) && st.serial_depth < u32::MAX
            },
        }
    }

    /// Whether a parallel acquisition of `name` could proceed now.
    pub fn can_enter_parallel(&self, name: &str) -> (r: bool)
        requires
            self.wf(),
        ensures
            r == key_free(*self, name@, 0, LockMode::Parallel),
    {
        match self.lookup(name) {
            None => true,
            Some(slot) => {
                let st = self.state_at(slot);
                st.serial_depth == 0 && st.parallels < u32::MAX
            },
        }
    }

    /// Whether serial acquisition of all the requested keys by `me` could
    /// proceed now.
    pub fn can_enter_serial_all(&self, me: u64, names: &Vec<&str>) -> (r: bool)
        requires
            self.wf(),
        ensures
            r == (forall|i: int| 0 <= i < names@.len()
                ==> key_free(*self, (#[trigger] names@[i])@, me, LockMode::Serial)),
    {
        let mut i: usize = 0;
        while i < names.len()
            invariant
                i <= names@.len(),
                self.wf(),
                forall|j: int| 0 <= j < i
                    ==> key_free(*self, (#[trigger] names@[j])@, me, LockMode::Serial),
            decreases names@.len() - i,
        {
            if !self.can_enter_serial(me, names[i]) {
                return false;
            }
            i = i + 1;
        }
        true
    }

    /// Whether parallel acquisition of all the requested keys could
    /// proceed now.
    pub fn can_enter_parallel_all(&self, names: &Vec<&str>) -> (r: bool)
        requires
            self.wf(),
        ensures
            r == (forall|i: int| 0 <= i < names@.len()
                ==> key_free(*self, (#[trigger] names@[i])@, 0, LockMode::Parallel)),
    {
        let mut i: usize = 0;
        while i < names.len()
            invariant
                i <= names@.len(),
                self.wf(),
                forall|j: int| 0 <= j < i
                    ==> key_free(*self, (#[trigger] names@[j])@, 0, LockMode::Parallel),
            decreases names@.len() - i,
        {
            if !self.can_enter_parallel(names[i]) {
                return false;
            }
            i = i + 1;
        }
        true
    }

    /// The number of parallel participants currently holding `name`.
    pub fn parallel_count(&self, name: &str) -> (c: u32)
        requires
            self.wf(),
        ensures
            c == if self.registered(name@) {
                self.state_of(name@).parallels
            } else {
                0
            },
    {
        match self.lookup(name) {
            None => 0,
            Some(slot) => self.state_at(slot).parallel_count(),
        }
    }

    /// Whether anyone currently holds `name` serially.
    pub fn is_locked(&self, name: &str) -> (r: bool)
        requires
            self.wf(),
        ensures
            r == (self.registered(name@) && self.state_of(name@).serial_depth > 0),
    {
        match self.lookup(name) {
            None => false,
            Some(slot) => self.state_at(slot).is_locked(),
        }
    }
}

/// The net effect of acquiring a set of keys and then releasing the
/// guard: every key registered beforehand is back in exactly its previous
/// state, and every key first registered by the request is left idle.
/// This holds however the protected work ended, since the release alone
/// restores the states.
pub proof fn lemma_round_trip_net_effect(
    reg0: Registry,
    reg1: Registry,
    reg2: Registry,
    g: Guard,
    names: Seq<&str>,
    me: u64,
    mode: LockMode,
)
    requires
        reg0.wf(),
        reg1.wf(),
        reg2.wf(),
        forall|i: int| 0 <= i < names.len()
            ==> key_free(reg0, (#[trigger] names[i])@, me, mode),
        g.spec_mode() == mode,
        g.spec_owner() == me,
        forall|k: Seq<char>| #[trigger] reg0.registered(k) ==> reg1.registered(k)
            && reg1.slot_of(k) == reg0.slot_of(k),
        forall|i: int| 0 <= i < names.len() ==> reg1.registered((#[trigger] names[i])@),
        forall|k: Seq<char>| #[trigger] reg1.registered(k)
            ==> reg0.registered(k) || contains_name(names, k),
        forall|k: Seq<char>| #[trigger] reg1.registered(k) ==> reg1.state_of(k)
            == if contains_name(names, k) {
            spec_acquire_one(pre_state(reg0, k), mode, me)
        } else {
            reg0.state_of(k)
        },
        forall|s: usize| g.spec_slots().contains(s)
            <==> (exists|i: int|
            0 <= i < names.len() && reg1.slot_of((#[trigger] names[i])@) == s),
        reg2.key_slots() == reg1.key_slots(),
        reg2.states_view().len() == reg1.states_view().len(),
        forall|s: int| 0 <= s < reg2.states_view().len() ==> #[trigger] reg2.states_view()[s]
            == if exists|j: int|
            0 <= j < g.spec_slots().len() && #[trigger] g.spec_slots()[j] == s {
            spec_release_one(reg1.states_view()[s], mode)
        } else {
            reg1.states_view()[s]
        },
    ensures
        forall|k: Seq<char>| #[trigger] reg0.registered(k) ==> reg2.registered(k)
            && reg2.slot_of(k) == reg0.slot_of(k) && reg2.state_of(k) == reg0.state_of(k),
        forall|i: int| 0 <= i < names.len() ==> reg2.registered((#[trigger] names[i])@),
        forall|k: Seq<char>| #[trigger] reg2.registered(k)
            ==> reg0.registered(k) || contains_name(names, k),
        forall|k: Seq<char>| #[trigger] reg2.registered(k) && !reg0.registered(k)
            ==> reg2.state_of(k) == KeyState::spec_idle(),
{
    assert forall|k: Seq<char>| #[trigger] reg2.registered(k)
        implies reg1.registered(k) && reg2.slot_of(k) == reg1.slot_of(k) by {}
    assert forall|k: Seq<char>| #[trigger] reg1.registered(k)
        implies reg2.registered(k) && reg2.slot_of(k) == reg1.slot_of(k) by {}
    assert forall|k: Seq<char>| #[trigger] reg1.registered(k)
        implies reg2.state_of(k) == if contains_name(names, k) {
        spec_release_one(reg1.state_of(k), mode)
    } else {
        reg1.state_of(k)
    } by {
        let s = reg1.slot_of(k);
        assert(s < reg1.states_view().len());
        if contains_name(names, k) {
            let wi = choose|i: int| 0 <= i < names.len() && (#[trigger] names[i])@ == k;
            assert(reg1.slot_of((names[wi])@) == s);
            assert(g.spec_slots().contains(s));
            let wj = choose|j: int| 0 <= j < g.spec_slots().len() && g.spec_slots()[j] == s;
            assert(0 <= wj < g.spec_slots().len() && g.spec_slots()[wj] == s as int);
            assert(reg2.states_view()[s as int]
                == spec_release_one(reg1.states_view()[s as int], mode));
        } else {
            assert(!g.spec_slots().contains(s)) by {
                if g.spec_slots().contains(s) {
                    let wi = choose|i: int|
                        0 <= i < names.len() && reg1.slot_of((#[trigger] names[i])@) == s;
                    assert(reg1.registered((names[wi])@));
                    assert((names[wi])@ == k);
                }
            }
            assert(reg2.states_view()[s as int] == reg1.states_view()[s as int]) by {
                if exists|j: int|
                    0 <= j < g.spec_slots().len() && #[trigger] g.spec_slots()[j] == s {
                    let wj = choose|j: int|
                        0 <= j < g.spec_slots().len() && #[trigger] g.spec_slots()[j] == s;
                    assert(g.spec_slots().contains(s));
                }
            }
        }
    }
    assert forall|k: Seq<char>| #[trigger] reg0.registered(k)
        implies reg2.registered(k) && reg2.slot_of(k) == reg0.slot_of(k)
            && reg2.state_of(k) == reg0.state_of(k) by {
        assert(reg1.registered(k));
        if contains_name(names, k) {
            assert(reg1.state_of(k) == spec_acquire_one(reg0.state_of(k), mode, me));
            let wi = choose|i: int| 0 <= i < names.len() && (#[trigger] names[i])@ == k;
            assert(key_free(reg0, k, me, mode));
            assert(free_state(reg0.state_of(k), me, mode));
            assert(reg0.slot_of(k) < reg0.states_view().len());
            assert(reg0.state_of(k).wf());
            lemma_acquire_release_round_trip(reg0.state_of(k), mode, me);
        }
    }
    assert forall|k: Seq<char>| #[trigger] reg2.registered(k) && !reg0.registered(k)
        implies reg2.state_of(k) == KeyState::spec_idle() by {
        assert(reg1.registered(k));
        assert(contains_name(names, k));
        assert(reg1.state_of(k) == spec_acquire_one(KeyState::spec_idle(), mode, me));
        lemma_acquire_release_round_trip(KeyState::spec_idle(), mode, me);
    }
    assert forall|i: int| 0 <= i < names.len()
        implies reg2.registered((#[trigger] names[i])@) by {
        assert(reg1.registered((names[i])@));
    }
    assert forall|k: Seq<char>| #[trigger] reg2.registered(k)
        implies reg0.registered(k) || contains_name(names, k) by {
        assert(reg1.registered(k));
    }
}

/// Run `function` with every requested key held serially for `me`:
/// acquire all keys in canonical order, run the work, release in reverse.
/// Afterwards every previously known key is back in its prior state and
/// keys first seen here are registered and idle.
pub fn local_serial_core<F: FnOnce() -> ()>(
    reg: &mut Registry,
    me: u64,
    names: Vec<&str>,
    _path: Option<&str>,
    function: F,
)
    requires
        old(reg).wf(),
        names@.len() > 0,
        forall|i: int| 0 <= i < names@.len()
            ==> key_free(*old(reg), (#[trigger] names@[i])@, me, LockMode::Serial),
        call_requires(function, ()),
    ensures
        final(reg).wf(),
        call_ensures(function, (), ()),
        forall|k: Seq<char>| #[trigger] old(reg).registered(k) ==> final(reg).registered(k)
            && final(reg).slot_of(k) == old(reg).slot_of(k)
            && final(reg).state_of(k) == old(reg).state_of(k),
        forall|i: int| 0 <= i < names@.len() ==> final(reg).registered((#[trigger] names@[i])@),
        forall|k: Seq<char>| #[trigger] final(reg).registered(k)
            ==> old(reg).registered(k) || contains_name(names@, k),
        forall|k: Seq<char>| #[trigger] final(reg).registered(k) && !old(reg).registered(k)
            ==> final(reg).state_of(k) == KeyState::spec_idle(),
{
    let mut g = reg.enter_serial(me, &names);
    let ghost reg1 = *reg;
    let ghost g1 = g;
    function();
    g.release(reg);
    proof {
        lemma_round_trip_net_effect(*old(reg), reg1, *reg, g1, names@, me, LockMode::Serial);
    }
}

/// As `local_serial_core`, returning what the work returned.
pub fn local_serial_core_with_return<E, F: FnOnce() -> Result<(), E>>(
    reg: &mut Registry,
    me: u64,
    names: Vec<&str>,
    _path: Option<String>,
    function: F,
) -> (r: Result<(), E>)
    requires
        old(reg).wf(),
        names@.len() > 0,
        forall|i: int| 0 <= i < names@.len()
            ==> key_free(*old(reg), (#[trigger] names@[i])@, me, LockMode::Serial),
        call_requires(function, ()),
    ensures
        final(reg).wf(),
        call_ensures(function, (), r),
        forall|k: Seq<char>| #[trigger] old(reg).registered(k) ==> final(reg).registered(k)
            && final(reg).slot_of(k) == old(reg).slot_of(k)
            && final(reg).state_of(k) == old(reg).state_of(k),
        forall|i: int| 0 <= i < names@.len() ==> final(reg).registered((#[trigger] names@[i])@),
        forall|k: Seq<char>| #[trigger] final(reg).registered(k)
            ==> old(reg).registered(k) || contains_name(names@, k),
        forall|k: Seq<char>| #[trigger] final(reg).registered(k) && !old(reg).registered(k)
            ==> final(reg).state_of(k) == KeyState::spec_idle(),
{
    let mut g = reg.enter_serial(me, &names);
    let ghost reg1 = *reg;
    let ghost g1 = g;
    let r = function();
    g.release(reg);
    proof {
        lemma_round_trip_net_effect(*old(reg), reg1, *reg, g1, names@, me, LockMode::Serial);
    }
    r
}

/// Run `function` with every requested key held in parallel mode: the
/// participant counts go up, the work runs, the counts come back down.
pub fn local_parallel_core<F: FnOnce() -> ()>(
    reg: &mut Registry,
    me: u64,
    names: Vec<&str>,
    _path: Option<&str>,
    function: F,
)
    requires
        old(reg).wf(),
        names@.len() > 0,
        forall|i: int| 0 <= i < names@.len()
            ==> key_free(*old(reg), (#[trigger] names@[i])@, me, LockMode::Parallel),
        call_requires(function, ()),
    ensures
        final(reg).wf(),
        call_ensures(function, (), ()),
        forall|k: Seq<char>| #[trigger] old(reg).registered(k) ==> final(reg).registered(k)
            && final(reg).slot_of(k) == old(reg).slot_of(k)
            && final(reg).state_of(k) == old(reg).state_of(k),
        forall|i: int| 0 <= i < names@.len() ==> final(reg).registered((#[trigger] names@[i])@),
        forall|k: Seq<char>| #[trigger] final(reg).registered(k)
            ==> old(reg).registered(k) || contains_name(names@, k),
        forall|k: Seq<char>| #[trigger] final(reg).registered(k) && !old(reg).registered(k)
            ==> final(reg).state_of(k) == KeyState::spec_idle(),
{
    let mut g = reg.enter_parallel(me, &names);
    let ghost reg1 = *reg;
    let ghost g1 = g;
    function();
    g.release(reg);
    proof {
        lemma_round_trip_net_effect(*old(reg), reg1, *reg, g1, names@, me, LockMode::Parallel);
    }
}

/// As `local_parallel_core`, returning what the work returned.
pub fn local_parallel_core_with_return<E, F: FnOnce() -> Result<(), E>>(
    reg: &mut Registry,
    me: u64,
    names: Vec<&str>,
    _path: Option<&str>,
    function: F,
) -> (r: Result<(), E>)
    requires
        old(reg).wf(),
        names@.len() > 0,
        forall|i: int| 0 <= i < names@.len()
            ==> key_free(*old(reg), (#[trigger] names@[i])@, me, LockMode::Parallel),
        call_requires(function, ()),
    ensures
        final(reg).wf(),
        call_ensures(function, (), r),
        forall|k: Seq<char>| #[trigger] old(reg).registered(k) ==> final(reg).registered(k)
            && final(reg).slot_of(k) == old(reg).slot_of(k)
            && final(reg).state_of(k) == old(reg).state_of(k),
        forall|i: int| 0 <= i < names@.len() ==> final(reg).registered((#[trigger] names@[i])@),
        forall|k: Seq<char>| #[trigger] final(reg).registered(k)
            ==> old(reg).registered(k) || contains_name(names@, k),
        forall|k: Seq<char>| #[trigger] final(reg).registered(k) && !old(reg).registered(k)
            ==> final(reg).state_of(k) == KeyState::spec_idle(),
{
    let mut g = reg.enter_parallel(me, &names);
    let ghost reg1 = *reg;
    let ghost g1 = g;
    let r = function();
    g.release(reg);
    proof {
        lemma_round_trip_net_effect(*old(reg), reg1, *reg, g1, names@, me, LockMode::Parallel);
    }
    r
}

} // verus!
