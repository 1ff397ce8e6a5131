//! The per-key coordination state machine.
//!
//! Each key is either idle, held serially by one owner (reentrantly, with a
//! depth), or held by some number of parallel participants. Serial and
//! parallel holding are mutually exclusive; parallel participants only
//! count each other.

use vstd::prelude::*;

verus! {

/// Coordination state of a single key.
///
/// `owner` is the identity token of the serial holder and is present if and
/// only if `serial_depth > 0`; `serial_depth` counts reentrant serial
/// acquisitions by that owner; `parallels` counts the parallel participants.
#[derive(Clone, Copy)]
pub struct KeyState {
    pub parallels: u32,
    pub serial_depth: u32,
    pub owner: Option<u64>,
}

impl KeyState {
    /// Well-formedness: an owner exists exactly while a serial acquisition
    /// is outstanding, and serial holding excludes parallel participants.
    pub open spec fn wf(self) -> bool {
        &&& self.owner is Some <==> self.serial_depth > 0
        &&& self.serial_depth > 0 ==> self.parallels == 0
    }

    /// The state of a key nobody holds.
    pub open spec fn spec_idle() -> KeyState {
        KeyState { parallels: 0, serial_depth: 0, owner: None }
    }

    /// Serial acquisition by `me` can proceed: no parallel participants,
    /// and the key is either free or already held serially by `me`.
    pub open spec fn spec_can_serial(self, me: u64) -> bool {
        self.parallels == 0 && (self.serial_depth == 0 || self.owner == Some(me))
    }

    /// The state after `me` acquires serially.
    pub open spec fn spec_after_serial(self, me: u64) -> KeyState {
        KeyState {
            parallels: self.parallels,
            serial_depth: (self.serial_depth + 1) as u32,
            owner: Some(me),
        }
    }

    /// The state after the serial holder releases once.
    pub open spec fn spec_after_serial_exit(self) -> KeyState {
        KeyState {
            parallels: self.parallels,
            serial_depth: (self.serial_depth - 1) as u32,
            owner: if self.serial_depth == 1 {
                None
            } else {
                self.owner
            },
        }
    }

    /// Parallel acquisition can proceed: nobody holds the key serially.
    pub open spec fn spec_can_parallel(self) -> bool {
        self.serial_depth == 0
    }

    /// The state after one more parallel participant enters.
    pub open spec fn spec_after_parallel(self) -> KeyState {
        KeyState {
            parallels: (self.parallels + 1) as u32,
            serial_depth: self.serial_depth,
            owner: self.owner,
        }
    }

    /// The state after one parallel participant leaves.
    pub open spec fn spec_after_parallel_exit(self) -> KeyState {
        KeyState {
            parallels: (self.parallels - 1) as u32,
            serial_depth: self.serial_depth,
            owner: self.owner,
        }
    }

    /// A fresh, idle key state.
    pub fn new() -> (s: KeyState)
        ensures
            s == KeyState::spec_idle(),
            s.wf(),
    {
        KeyState { parallels: 0, serial_depth: 0, owner: None }
    }

    /// Attempt a serial acquisition by `me`; succeeds exactly when no
    /// parallel participant is active and the key is free or already `me`'s.
    pub fn try_serial(&mut self, me: u64) -> (ok: bool)
        requires
            old(self).wf(),
            old(self).serial_depth < u32::MAX,
        ensures
            ok == old(self).spec_can_serial(me),
            ok ==> *final(self) == old(self).spec_after_serial(me),
            !ok ==> *final(self) == *old(self),
            final(self).wf(),
    {
        if self.parallels != 0 {
            return false;
        }
        if self.serial_depth == 0 {
            self.serial_depth = 1;
            self.owner = Some(me);
            true
        } else {
            let held_by_me = match self.owner {
                Some(o) => o == me,
                None => false,
            };
            if held_by_me {
                self.serial_depth = self.serial_depth + 1;
                true
            } else {
                false
            }
        }
    }

    /// Release one serial acquisition held by `me`.
    pub fn exit_serial(&mut self, me: u64)
        requires
            old(self).wf(),
            old(self).serial_depth > 0,
            old(self).owner == Some(me),
        ensures
            *final(self) == old(self).spec_after_serial_exit(),
            final(self).wf(),
    {
        self.serial_depth = self.serial_depth - 1;
        if self.serial_depth == 0 {
            self.owner = None;
        }
    }

    /// Attempt to join the parallel participants; succeeds exactly when the
    /// key is not held serially.
    pub fn try_parallel(&mut self) -> (ok: bool)
        requires
            old(self).wf(),
            old(self).parallels < u32::MAX,
        ensures
            ok == old(self).spec_can_parallel(),
            ok ==> *final(self) == old(self).spec_after_parallel(),
            !ok ==> *final(self) == *old(self),
            final(self).wf(),
    {
        if self.serial_depth == 0 {
            self.parallels = self.parallels + 1;
            true
        } else {
            false
        }
    }

    /// One parallel participant leaves. Leaving with no participant active
    /// is an unpaired release, which callers must rule out.
    pub fn exit_parallel(&mut self)
        requires
            old(self).wf(),
            old(self).parallels > 0,
        ensures
            *final(self) == old(self).spec_after_parallel_exit(),
            final(self).wf(),
    {
        self.parallels = self.parallels - 1;
    }

    /// The number of parallel participants.
    pub fn parallel_count(&self) -> (c: u32)
        ensures
            c == self.parallels,
    {
        self.parallels
    }

    /// Whether the key is held serially by anyone.
    pub fn is_locked(&self) -> (r: bool)
        ensures
            r == (self.serial_depth > 0),
    {
        self.serial_depth > 0
    }

    /// Whether the key is held serially by `me`.
    pub fn is_held_by(&self, me: u64) -> (r: bool)
        ensures
            r == (self.serial_depth > 0 && self.owner == Some(me)),
    {
        if self.serial_depth == 0 {
            false
        } else {
            match self.owner {
                Some(o) => o == me,
                None => false,
            }
        }
    }
}

/// At most one owner can hold a key serially (the state has a single owner
/// slot), and while it is held serially there are no parallel participants.
pub proof fn lemma_serial_excludes_parallel(s: KeyState)
    requires
        s.wf(),
        s.serial_depth > 0,
    ensures
        s.parallels == 0,
{
}

/// While parallel participants are active, nobody holds the key serially.
pub proof fn lemma_parallel_excludes_serial(s: KeyState)
    requires
        s.wf(),
        s.parallels > 0,
    ensures
        s.serial_depth == 0,
        s.owner is None,
{
}

/// A serial acquire-release pair returns the key to exactly its previous
/// state.
pub proof fn lemma_serial_round_trip(s: KeyState, me: u64)
    requires
        s.wf(),
        s.spec_can_serial(me),
        s.serial_depth < u32::MAX,
    ensures
        s.spec_after_serial(me).spec_after_serial_exit() == s,
{
}

/// A parallel acquire-release pair returns the key to exactly its previous
/// state.
pub proof fn lemma_parallel_round_trip(s: KeyState)
    requires
        s.wf(),
        s.parallels < u32::MAX,
    ensures
        s.spec_after_parallel().spec_after_parallel_exit() == s,
{
}

/// The parallel count after a sequence of enters (`true`) and exits
/// (`false`), starting from count `c`.
pub open spec fn count_after(c: int, ops: Seq<bool>) -> int
    decreases ops.len(),
{
    if ops.len() == 0 {
        c
    } else {
        count_after(if ops[0] { c + 1 } else { c - 1 }, ops.drop_first())
    }
}

/// The number of `true` entries of `ops`.
pub open spec fn enter_count(ops: Seq<bool>) -> int
    decreases ops.len(),
{
    if ops.len() == 0 {
        0
    } else {
        (if ops[0] { 1int } else { 0int }) + enter_count(ops.drop_first())
    }
}

/// The count after any sequence of enters and exits is the starting count
/// plus the enters minus the exits.
pub proof fn lemma_count_after(c: int, ops: Seq<bool>)
    ensures
        count_after(c, ops) == c + enter_count(ops) - (ops.len() - enter_count(ops)),
    decreases ops.len(),
{
    if ops.len() > 0 {
        lemma_count_after(if ops[0] { c + 1 } else { c - 1 }, ops.drop_first());
    }
}

/// Net drain: after any sequence of matched acquire/release pairs on one
/// key, in any order, the parallel count returns to exactly 0.
pub proof fn lemma_balanced_ops_drain_to_zero(ops: Seq<bool>)
    requires
        2 * enter_count(ops) == ops.len(),
    ensures
        count_after(0, ops) == 0,
{
    lemma_count_after(0, ops);
}

/// The state after a sequence of parallel enters (`true`) and exits
/// (`false`).
pub open spec fn apply_parallel_ops(s: KeyState, ops: Seq<bool>) -> KeyState
    decreases ops.len(),
{
    if ops.len() == 0 {
        s
    } else {
        apply_parallel_ops(
            if ops[0] {
                s.spec_after_parallel()
            } else {
                s.spec_after_parallel_exit()
            },
            ops.drop_first(),
        )
    }
}

/// A sequence of parallel operations is feasible from count `c` when no
/// exit meets an empty count and no enter meets a full one.
pub open spec fn parallel_ops_feasible(c: int, ops: Seq<bool>) -> bool
    decreases ops.len(),
{
    if ops.len() == 0 {
        true
    } else if ops[0] {
        c < u32::MAX && parallel_ops_feasible(c + 1, ops.drop_first())
    } else {
        c > 0 && parallel_ops_feasible(c - 1, ops.drop_first())
    }
}

/// Parallel operations touch only the participant count, which follows
/// the enter/exit tally exactly.
pub proof fn lemma_apply_parallel_ops(s: KeyState, ops: Seq<bool>)
    requires
        parallel_ops_feasible(s.parallels as int, ops),
    ensures
        apply_parallel_ops(s, ops).parallels == count_after(s.parallels as int, ops),
        apply_parallel_ops(s, ops).serial_depth == s.serial_depth,
        apply_parallel_ops(s, ops).owner == s.owner,
    decreases ops.len(),
{
    if ops.len() > 0 {
        if ops[0] {
            lemma_apply_parallel_ops(s.spec_after_parallel(), ops.drop_first());
        } else {
            lemma_apply_parallel_ops(s.spec_after_parallel_exit(), ops.drop_first());
        }
    }
}

/// Any feasible sequence of matched parallel acquire/release pairs on
/// one key returns its state, count included, to exactly what it was.
pub proof fn lemma_balanced_parallel_ops_restore(s: KeyState, ops: Seq<bool>)
    requires
        parallel_ops_feasible(s.parallels as int, ops),
        2 * enter_count(ops) == ops.len(),
    ensures
        apply_parallel_ops(s, ops) == s,
{
    lemma_apply_parallel_ops(s, ops);
    lemma_count_after(s.parallels as int, ops);
}

} // verus!
