//! The cross-process coordination model.
//!
//! Across processes the per-key mutex becomes an advisory lock on a
//! key-derived file, and the in-memory participant count becomes a
//! four-byte counter persisted in a sidecar file beside it. The counter
//! is only meaningful while the advisory lock is held, so every
//! transition here demands the lock. The blocking calls themselves (take
//! or drop the advisory lock, read or write the files, sleep between
//! polls) are the surrounding program's job; this module decides what
//! each observation means and what bytes to persist.

use vstd::bytes::{
    lemma_auto_spec_u32_to_from_le_bytes, spec_u32_from_le_bytes, spec_u32_to_le_bytes,
    u32_from_le_bytes, u32_to_le_bytes,
};
use vstd::prelude::*;
use vstd::slice::slice_subrange;
use vstd::string::StringExecFns;

verus! {

/// The bytes the sidecar counter file holds for count `c`: exactly four
/// bytes, least significant first.
pub open spec fn spec_count_bytes(c: u32) -> Seq<u8> {
    spec_u32_to_le_bytes(c)
}

/// The sidecar file's contents as read, `None` when the file could not
/// be opened or read.
pub open spec fn contents_view(contents: Option<Vec<u8>>) -> Option<Seq<u8>> {
    match contents {
        Some(b) => Some(b@),
        None => None,
    }
}

/// What a read of the sidecar file means: an absent, unreadable or short
/// file counts as zero participants (tolerating a crashed writer), and
/// otherwise the first four bytes hold the count.
pub open spec fn spec_interpret_count(contents: Option<Seq<u8>>) -> u32 {
    match contents {
        None => 0u32,
        Some(b) => if b.len() < 4 {
            0u32
        } else {
            spec_u32_from_le_bytes(b.subrange(0, 4))
        },
    }
}

/// The participant count a sidecar read denotes.
pub fn interpret_count(contents: &Option<Vec<u8>>) -> (c: u32)
    ensures
        c == spec_interpret_count(contents_view(*contents)),
{
    match contents {
        None => 0,
        Some(b) => {
            if b.len() < 4 {
                0
            } else {
                let first: &[u8] = slice_subrange(b.as_slice(), 0, 4);
                u32_from_le_bytes(first)
            }
        },
    }
}

/// The bytes to persist for count `c`.
pub fn encode_count(c: u32) -> (b: Vec<u8>)
    ensures
        b@ == spec_count_bytes(c),
        b@.len() == 4,
{
    u32_to_le_bytes(c)
}

/// Persisting a count and reading it back yields exactly that count.
pub proof fn lemma_count_round_trip(c: u32)
    ensures
        spec_interpret_count(Some(spec_count_bytes(c))) == c,
{
    lemma_auto_spec_u32_to_from_le_bytes();
    assert(spec_count_bytes(c).subrange(0, 4) =~= spec_count_bytes(c));
}

/// A missing sidecar file reads back as zero participants.
pub proof fn lemma_absent_counts_zero()
    ensures
        spec_interpret_count(None::<Seq<u8>>) == 0,
{
}

/// The model of one cross-process lock: whether this process holds the
/// advisory lock right now, and the participant count it last read while
/// holding it. The count is only trusted while the lock is held, which
/// is why every transition demands it.
pub struct FileLockState {
    pub holds_lock: bool,
    pub count: u32,
}

impl FileLockState {
    /// The state after taking the advisory lock and reading the sidecar
    /// file.
    pub fn on_lock_acquired(contents: &Option<Vec<u8>>) -> (m: FileLockState)
        ensures
            m.holds_lock,
            m.count == spec_interpret_count(contents_view(*contents)),
    {
        FileLockState { holds_lock: true, count: interpret_count(contents) }
    }

    /// Whether a serial section may begin: the lock is held and no
    /// parallel participant remains. When this is false the caller must
    /// drop the lock, wait briefly, retake it, and observe again.
    pub fn start_serial_poll(&self) -> (ready: bool)
        requires
            self.holds_lock,
        ensures
            ready == (self.count == 0),
    {
        self.count == 0
    }

    /// Record a fresh read of the sidecar file, made while holding the
    /// lock again after a poll round.
    pub fn observe_count(&mut self, contents: &Option<Vec<u8>>)
        requires
            old(self).holds_lock,
        ensures
            final(self).holds_lock,
            final(self).count == spec_interpret_count(contents_view(*contents)),
    {
        self.count = interpret_count(contents);
    }

    /// The advisory lock was dropped (to let others make progress while
    /// waiting); the remembered count is stale from here on.
    pub fn on_lock_released(&mut self)
        requires
            old(self).holds_lock,
        ensures
            !final(self).holds_lock,
            final(self).count == old(self).count,
    {
        self.holds_lock = false;
    }

    /// Join the parallel participants: one more participant, and the
    /// returned bytes must be persisted to the sidecar file before the
    /// advisory lock is dropped (which this transition records).
    pub fn start_parallel(&mut self) -> (b: Vec<u8>)
        requires
            old(self).holds_lock,
            old(self).count < u32::MAX,
        ensures
            !final(self).holds_lock,
            final(self).count == old(self).count + 1,
            b@ == spec_count_bytes(final(self).count),
    {
        self.count = self.count + 1;
        self.holds_lock = false;
        encode_count(self.count)
    }

    /// Leave the parallel participants. Leaving with a zero count is an
    /// unpaired release, which callers must rule out.
    pub fn end_parallel(&mut self) -> (b: Vec<u8>)
        requires
            old(self).holds_lock,
            old(self).count > 0,
        ensures
            !final(self).holds_lock,
            final(self).count == old(self).count - 1,
            b@ == spec_count_bytes(final(self).count),
    {
        self.count = self.count - 1;
        self.holds_lock = false;
        encode_count(self.count)
    }

    /// End a serial section: the advisory lock is simply dropped.
    pub fn end_serial(&mut self)
        requires
            old(self).holds_lock,
        ensures
            !final(self).holds_lock,
            final(self).count == old(self).count,
    {
        self.holds_lock = false;
    }
}

/// The sidecar counter file's path: the lock file's path with a fixed
/// suffix, since the lock file itself cannot carry contents.
pub fn count_path_for(path: &str) -> (r: String)
    ensures
        r@ == path@ + "-count"@,
{
    let mut s = path.to_owned();
    s.append("-count");
    s
}

/// The lock file path a key name derives to inside the shared directory,
/// so that unrelated processes naming the same key converge on one file.
pub fn derived_lock_path(dir: &str, name: &str) -> (r: String)
    ensures
        r@ == dir@ + "/serial-test-"@ + name@,
{
    let mut s = dir.to_owned();
    s.append("/serial-test-");
    s.append(name);
    s
}

/// The path one name resolves to: the explicit path when one was given,
/// otherwise the derived default.
pub open spec fn spec_resolved_path(dir: Seq<char>, name: Seq<char>, path: Option<&str>) -> Seq<
    char,
> {
    match path {
        Some(p) => p@,
        None => dir + "/serial-test-"@ + name,
    }
}

/// Resolve one name against an optional explicit path.
pub fn resolve_path(dir: &str, name: &str, path: Option<&str>) -> (r: String)
    ensures
        r@ == spec_resolved_path(dir@, name@, path),
{
    match path {
        Some(p) => p.to_owned(),
        None => derived_lock_path(dir, name),
    }
}

/// Why a cross-process request is rejected at the call boundary.
#[derive(Debug, PartialEq, Eq)]
pub enum FileLockError {
    /// Several names were combined with one explicit path: the target
    /// file would be ambiguous.
    MultipleNamesWithPath,
}

impl FileLockError {
    /// A description of the rejection.
    pub fn message(&self) -> (r: String)
        ensures
            r@ == "can't combine more than one name with an explicit path"@,
    {
        "can't combine more than one name with an explicit path".to_owned()
    }
}

/// Resolve every requested name to its lock file path. A request naming
/// several keys together with one explicit path is rejected eagerly,
/// before anything is locked: the explicit path would be one ambiguous
/// target for several keys.
pub fn get_locks(dir: &str, names: &Vec<&str>, path: Option<&str>) -> (r: Result<
    Vec<String>,
    FileLockError,
>)
    ensures
        r is Err <==> (names@.len() > 1 && path is Some),
        r is Err ==> r->Err_0 == FileLockError::MultipleNamesWithPath,
        r is Ok ==> r->Ok_0@.len() == names@.len(),
        r is Ok ==> forall|i: int| 0 <= i < names@.len()
            ==> (#[trigger] r->Ok_0@[i])@ == spec_resolved_path(dir@, (names@[i])@, path),
{
    if names.len() > 1 && path.is_some() {
        return Err(FileLockError::MultipleNamesWithPath);
    }
    let mut paths: Vec<String> = Vec::new();
    let mut i: usize = 0;
    while i < names.len()
        invariant
            i <= names@.len(),
            paths@.len() == i,
            forall|j: int| 0 <= j < i
                ==> (#[trigger] paths@[j])@ == spec_resolved_path(dir@, (names@[j])@, path),
        decreases names@.len() - i,
    {
        paths.push(resolve_path(dir, names[i], path));
        i = i + 1;
    }
    Ok(paths)
}

} // verus!
