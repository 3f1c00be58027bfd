use vstd::prelude::*;
use crate::codec::node_id_bytes;
use crate::memory::{InMemorySubstateStore, stored};
use crate::track::{
    base, bytes_eq, current, is_new, lock_of, lock_released, lock_taken, reverted_from, same_state,
    spec_database_update, written, DatabaseUpdate, LockFlags, ModuleId, ReadOnly, RuntimeSubstate,
    SubstateLockState, TrackedKey, Write,
};
use crate::types::NodeId;

verus! {

/// One substate key tracked by the overlay, with its address.
pub struct TrackEntry {
    pub node_id: NodeId,
    pub module_id: ModuleId,
    pub substate_key: Vec<u8>,
    pub key_state: TrackedKey,
}

/// An open lock: its handle, the substate it is on, and its flags.
pub struct LockRecord {
    pub handle: u32,
    pub node_id: NodeId,
    pub module_id: ModuleId,
    pub substate_key: Vec<u8>,
    pub flags: LockFlags,
}

#[derive(Clone, Copy, Debug, PartialEq, Eq, Structural)]
pub enum AcquireLockError {
    NotFound,
    SubstateLocked,
    LockUnmodifiedBaseOnNewSubstate,
    LockUnmodifiedBaseOnUpdatedSubstate,
    LockHandlesExhausted,
}

/// The substate is locked: it cannot be set or taken without a lock.
#[derive(Clone, Copy, Debug, PartialEq, Eq, Structural)]
pub enum SubstateAccessError {
    SubstateLocked,
}

pub open spec fn module_byte(m: ModuleId) -> u8 {
    match m {
        ModuleId::TypeInfo => 0,
        ModuleId::Object => 1,
        ModuleId::Metadata => 2,
        ModuleId::Royalty => 3,
        ModuleId::AccessRules => 4,
        ModuleId::Virtualized => 5,
    }
}

/// The key under which the backing store holds a substate.
pub open spec fn db_key(n: NodeId, m: ModuleId, k: Seq<u8>) -> Seq<u8> {
    node_id_bytes(n) + seq![module_byte(m)] + k
}

pub open spec fn is_at(e: TrackEntry, n: NodeId, m: ModuleId, k: Seq<u8>) -> bool {
    e.node_id == n && e.module_id == m && e.substate_key@ == k
}

/// Position of the entry for an address; -1 where it is not tracked.
pub open spec fn find(s: Seq<TrackEntry>, n: NodeId, m: ModuleId, k: Seq<u8>) -> int
    decreases s.len(),
{
    if s.len() == 0 {
        -1
    } else if is_at(s.last(), n, m, k) {
        s.len() - 1
    } else {
        find(s.drop_last(), n, m, k)
    }
}

/// No address is tracked twice.
pub open spec fn addresses_unique(s: Seq<TrackEntry>) -> bool {
    forall|i: int, j: int|
        0 <= i < j < s.len() ==> !is_at(s[i], s[j].node_id, s[j].module_id, s[j].substate_key@)
}

/// A key's observable state: current value, base read, whether written, whether new.
pub open spec fn view_of(t: TrackedKey) -> (Option<Seq<u8>>, Option<Option<Seq<u8>>>, bool, bool) {
    (current(t), base(t), written(t), is_new(t))
}

/// The state a key gets when first read: the store's value, else the
/// virtualized default (a write), else absent.
pub open spec fn loaded_view(db: InMemorySubstateStore, n: NodeId, m: ModuleId, k: Seq<u8>, virt: Option<Seq<u8>>) -> (
    Option<Seq<u8>>,
    Option<Option<Seq<u8>>>,
    bool,
    bool,
) {
    match stored(db.substates@, db_key(n, m, k)) {
        Some(v) => (Some(v), Some(Some(v)), false, false),
        None => match virt {
            Some(v) => (Some(v), Some(None), true, false),
            None => (None, Some(None), false, false),
        },
    }
}

proof fn lemma_find(s: Seq<TrackEntry>, n: NodeId, m: ModuleId, k: Seq<u8>)
    ensures
        -1 <= find(s, n, m, k) < s.len(),
        find(s, n, m, k) >= 0 ==> is_at(s[find(s, n, m, k)], n, m, k),
        find(s, n, m, k) == -1 ==> forall|i: int| 0 <= i < s.len() ==> !is_at(#[trigger] s[i], n, m, k),
    decreases s.len(),
{
    if s.len() > 0 {
        lemma_find(s.drop_last(), n, m, k);
        assert forall|i: int| 0 <= i < s.len() - 1 implies s.drop_last()[i] == s[i] by {}
    }
}

proof fn lemma_find_unique(s: Seq<TrackEntry>, i: int)
    requires
        addresses_unique(s),
        0 <= i < s.len(),
    ensures
        find(s, s[i].node_id, s[i].module_id, s[i].substate_key@) == i,
    decreases s.len(),
{
    if i < s.len() - 1 {
        assert(!is_at(s[i], s.last().node_id, s.last().module_id, s.last().substate_key@));
        assert(s.drop_last()[i] == s[i]);
        lemma_find_unique(s.drop_last(), i);
    }
}

pub proof fn lemma_find_pub(s: Seq<TrackEntry>, n: NodeId, m: ModuleId, k: Seq<u8>)
    ensures
        -1 <= find(s, n, m, k) < s.len(),
        find(s, n, m, k) >= 0 ==> is_at(s[find(s, n, m, k)], n, m, k),
{
    lemma_find(s, n, m, k);
}

/// Whether the module ids are the same.
fn same_module(a: ModuleId, b: ModuleId) -> (r: bool)
    ensures
        r == (a == b),
{
    a == b
}

/// Position of the entry for an address, if it is tracked.
fn position(entries: &Vec<TrackEntry>, n: NodeId, m: ModuleId, k: &Vec<u8>) -> (r: Option<usize>)
    ensures
        r matches Some(i) ==> i == find(entries@, n, m, k@) && i < entries@.len(),
        r is None ==> find(entries@, n, m, k@) == -1,
{
    let mut i: usize = entries.len();
    proof {
        assert(entries@.take(i as int) =~= entries@);
    }
    while i > 0
        invariant
            i <= entries@.len(),
            find(entries@.take(i as int), n, m, k@) == find(entries@, n, m, k@),
        decreases i,
    {
        proof {
            assert(entries@.take(i as int).drop_last() =~= entries@.take(i - 1));
            assert(entries@.take(i as int).last() == entries@[i - 1]);
        }
        let e = &entries[i - 1];
        if e.node_id == n && same_module(e.module_id, m) && bytes_eq(&e.substate_key, k) {
            return Some(i - 1);
        }
        i = i - 1;
    }
    proof {
        assert(entries@.take(0) =~= Seq::<TrackEntry>::empty());
    }
    None
}

/// The key under which the backing store holds a substate.
pub fn db_key_bytes(n: &NodeId, m: ModuleId, k: &Vec<u8>) -> (r: Vec<u8>)
    ensures
        r@ == db_key(*n, m, k@),
{
    let mut r = n.to_bytes();
    let b: u8 = match m {
        ModuleId::TypeInfo => 0,
        ModuleId::Object => 1,
        ModuleId::Metadata => 2,
        ModuleId::Royalty => 3,
        ModuleId::AccessRules => 4,
        ModuleId::Virtualized => 5,
    };
    r.push(b);
    let mut tail = k.clone();
    r.append(&mut tail);
    proof {
        assert(r@ =~= db_key(*n, m, k@));
    }
    r
}

/// The transactional overlay over a backing store: reads go through it, writes
/// are buffered in it, and locks are taken on its keys.
pub struct Track {
    pub substate_db: InMemorySubstateStore,
    pub entries: Vec<TrackEntry>,
    /// Copies of keys released from force-write locks, as they were at release.
    pub force_writes: Vec<TrackEntry>,
    pub locks: Vec<LockRecord>,
    pub next_lock_id: u32,
    /// Range-read watermarks: how far scans of a module read into the store. The
    /// last entry for a node and module is the one that counts.
    pub range_reads: Vec<(NodeId, ModuleId, usize)>,
}

impl Track {
    pub open spec fn wf(&self) -> bool {
        &&& addresses_unique(self.entries@)
        &&& addresses_unique(self.force_writes@)
        &&& forall|i: int, j: int| 0 <= i < j < self.locks@.len() ==> (#[trigger] self.locks@[i]).handle != (#[trigger] self.locks@[j]).handle
        &&& forall|i: int| 0 <= i < self.locks@.len() ==> (#[trigger] self.locks@[i]).handle < self.next_lock_id
    }

    /// The state of a key before a lock is taken on it: as tracked, or as loaded.
    pub open spec fn prior_view(&self, n: NodeId, m: ModuleId, k: Seq<u8>, virt: Option<Seq<u8>>) -> (
        Option<Seq<u8>>,
        Option<Option<Seq<u8>>>,
        bool,
        bool,
    ) {
        let j = find(self.entries@, n, m, k);
        if j >= 0 {
            view_of(self.entries@[j].key_state)
        } else {
            loaded_view(self.substate_db, n, m, k, virt)
        }
    }

    pub open spec fn prior_lock(&self, n: NodeId, m: ModuleId, k: Seq<u8>, virt: Option<Seq<u8>>) -> Option<
        SubstateLockState,
    > {
        let j = find(self.entries@, n, m, k);
        if j >= 0 {
            lock_of(self.entries@[j].key_state)
        } else if self.prior_view(n, m, k, virt).0 is Some {
            Some(SubstateLockState::Read(0))
        } else {
            None
        }
    }

    /// Position of the tracked key at an address, if it is tracked.
    pub fn position_of(&self, n: NodeId, m: ModuleId, k: &Vec<u8>) -> (r: Option<usize>)
        ensures
            r matches Some(i) ==> i == find(self.entries@, n, m, k@) && i < self.entries@.len(),
            r is None ==> find(self.entries@, n, m, k@) == -1,
    {
        position(&self.entries, n, m, k)
    }

    pub fn new(substate_db: InMemorySubstateStore) -> (r: Track)
        ensures
            r.wf(),
            r.substate_db == substate_db,
            r.entries@.len() == 0,
            r.force_writes@.len() == 0,
            r.locks@.len() == 0,
            r.next_lock_id == 0,
    {
        Track {
            substate_db,
            entries: Vec::new(),
            force_writes: Vec::new(),
            locks: Vec::new(),
            next_lock_id: 0,
            range_reads: Vec::new(),
        }
    }

    /// Tracks the key at an address, reading it from the store (or taking the
    /// virtualized default) when it is not tracked yet. Returns its position.
    fn load(&mut self, n: NodeId, m: ModuleId, k: &Vec<u8>, virtualize: Option<Vec<u8>>) -> (r: usize)
        requires
            old(self).wf(),
        ensures
            final(self).wf(),
            r == find(final(self).entries@, n, m, k@),
            r < final(self).entries@.len(),
            view_of(final(self).entries@[r as int].key_state) == old(self).prior_view(n, m, k@, match virtualize {
                Some(v) => Some(v@),
                None => None,
            }),
            lock_of(final(self).entries@[r as int].key_state) == old(self).prior_lock(n, m, k@, match virtualize {
                Some(v) => Some(v@),
                None => None,
            }),
            find(old(self).entries@, n, m, k@) >= 0 ==> final(self).entries@ == old(self).entries@,
            find(old(self).entries@, n, m, k@) < 0 ==> final(self).entries@.drop_last() == old(self).entries@,
            final(self).substate_db == old(self).substate_db,
            final(self).force_writes@ == old(self).force_writes@,
            final(self).locks@ == old(self).locks@,
            final(self).next_lock_id == old(self).next_lock_id,
    {
        match position(&self.entries, n, m, k) {
            Some(i) => {
                proof {
                    lemma_find(self.entries@, n, m, k@);
                }
                i
            },
            None => {
                let key = db_key_bytes(&n, m, k);
                let key_state = match self.substate_db.get_substate(&key) {
                    Some(v) => TrackedKey::ReadOnly(ReadOnly::Existent(RuntimeSubstate::new(v.clone()))),
                    None => match virtualize {
                        Some(v) => TrackedKey::ReadNonExistAndWrite(RuntimeSubstate::new(v)),
                        None => TrackedKey::ReadOnly(ReadOnly::NonExistent),
                    },
                };
                let ghost e0 = self.entries@;
                proof {
                    lemma_find(e0, n, m, k@);
                }
                self.entries.push(TrackEntry { node_id: n, module_id: m, substate_key: k.clone(), key_state });
                proof {
                    assert(self.entries@.drop_last() =~= e0);
                    assert forall|i: int, j: int| 0 <= i < j < self.entries@.len() implies !is_at(
                        self.entries@[i],
                        self.entries@[j].node_id,
                        self.entries@[j].module_id,
                        self.entries@[j].substate_key@,
                    ) by {
                        if j == e0.len() {
                            assert(self.entries@[i] == e0[i]);
                            assert(!is_at(e0[i], n, m, k@));
                        } else {
                            assert(self.entries@[i] == e0[i]);
                            assert(self.entries@[j] == e0[j]);
                        }
                    }
                }
                self.entries.len() - 1
            },
        }
    }
}

/// The error that locking a key in state `v` with `flags` meets on its base, if any.
pub open spec fn base_error(
    v: (Option<Seq<u8>>, Option<Option<Seq<u8>>>, bool, bool),
    flags: LockFlags,
) -> Option<AcquireLockError> {
    if !flags.unmodified_base {
        None
    } else if v.3 || (v.0 is None && v.1 is None && !v.2) {
        Some(AcquireLockError::LockUnmodifiedBaseOnNewSubstate)
    } else if v.2 {
        Some(AcquireLockError::LockUnmodifiedBaseOnUpdatedSubstate)
    } else {
        None
    }
}

pub open spec fn opt_view(v: Option<Vec<u8>>) -> Option<Seq<u8>> {
    match v {
        Some(x) => Some(x@),
        None => None,
    }
}

/// Index of the open lock with `handle`; -1 where there is none.
pub open spec fn lock_index(locks: Seq<LockRecord>, handle: u32) -> int
    decreases locks.len(),
{
    if locks.len() == 0 {
        -1
    } else if locks.last().handle == handle {
        locks.len() - 1
    } else {
        lock_index(locks.drop_last(), handle)
    }
}

proof fn lemma_lock_index(locks: Seq<LockRecord>, handle: u32)
    ensures
        -1 <= lock_index(locks, handle) < locks.len(),
        lock_index(locks, handle) >= 0 ==> locks[lock_index(locks, handle)].handle == handle,
    decreases locks.len(),
{
    if locks.len() > 0 {
        lemma_lock_index(locks.drop_last(), handle);
    }
}

proof fn lemma_lock_index_absent(locks: Seq<LockRecord>, handle: u32)
    requires
        forall|x: int| 0 <= x < locks.len() ==> (#[trigger] locks[x]).handle != handle,
    ensures
        lock_index(locks, handle) == -1,
    decreases locks.len(),
{
    if locks.len() > 0 {
        assert(locks.last() == locks[locks.len() - 1]);
        assert forall|x: int| 0 <= x < locks.len() - 1 implies (#[trigger] locks.drop_last()[x]).handle != handle by {
            assert(locks.drop_last()[x] == locks[x]);
        }
        lemma_lock_index_absent(locks.drop_last(), handle);
    }
}

impl Track {
    /// The tracked key that the open lock `handle` is on; -1 where there is none.
    pub open spec fn locked_entry(&self, handle: u32) -> int {
        let l = lock_index(self.locks@, handle);
        if l < 0 {
            -1
        } else {
            find(self.entries@, self.locks@[l].node_id, self.locks@[l].module_id, self.locks@[l].substate_key@)
        }
    }

    /// Locks the substate at an address, loading it first (with `virtualize` as
    /// the default of an absent key). Returns the new lock's handle.
    pub fn acquire_lock_virtualize(
        &mut self,
        node_id: NodeId,
        module_id: ModuleId,
        substate_key: &Vec<u8>,
        flags: LockFlags,
        virtualize: Option<Vec<u8>>,
    ) -> (r: Result<u32, AcquireLockError>)
        requires
            old(self).wf(),
        ensures
            final(self).wf(),
            ({
                let virt = opt_view(virtualize);
                let v = old(self).prior_view(node_id, module_id, substate_key@, virt);
                let l = old(self).prior_lock(node_id, module_id, substate_key@, virt);
                let j = find(final(self).entries@, node_id, module_id, substate_key@);
                &&& 0 <= j < final(self).entries@.len()
                &&& view_of(final(self).entries@[j].key_state) == v
                &&& forall|i: int| 0 <= i < old(self).entries@.len() && i != j ==> #[trigger] final(self).entries@[i] == old(self).entries@[i]
                &&& final(self).entries@.len() == old(self).entries@.len() + if find(old(self).entries@, node_id, module_id, substate_key@) >= 0 { 0int } else { 1 }
                &&& if base_error(v, flags) is Some {
                    r == Err::<u32, AcquireLockError>(base_error(v, flags)->0) && lock_of(final(self).entries@[j].key_state) == l
                } else if l is None {
                    r == Err::<u32, AcquireLockError>(AcquireLockError::NotFound) && lock_of(final(self).entries@[j].key_state) == l
                } else if old(self).next_lock_id == u32::MAX {
                    r == Err::<u32, AcquireLockError>(AcquireLockError::LockHandlesExhausted) && lock_of(final(self).entries@[j].key_state) == l
                } else {
                    &&& lock_taken(l->0, flags, lock_of(final(self).entries@[j].key_state), match r {
                        Ok(_) => Ok::<(), crate::track::SubstateLockError>(()),
                        Err(_) => Err(crate::track::SubstateLockError {  }),
                    })
                    &&& r is Err ==> r == Err::<u32, AcquireLockError>(AcquireLockError::SubstateLocked)
                }
            }),
            r matches Ok(h) ==> {
                &&& h == old(self).next_lock_id
                &&& final(self).next_lock_id == old(self).next_lock_id + 1
                &&& final(self).locks@.drop_last() == old(self).locks@
                &&& final(self).locks@.last().handle == h
                &&& final(self).locks@.last().node_id == node_id
                &&& final(self).locks@.last().module_id == module_id
                &&& final(self).locks@.last().substate_key@ == substate_key@
                &&& final(self).locks@.last().flags == flags
            },
            r is Err ==> final(self).locks@ == old(self).locks@ && final(self).next_lock_id == old(self).next_lock_id,
            final(self).substate_db == old(self).substate_db,
            final(self).force_writes@ == old(self).force_writes@,
    {
        let ghost virt = opt_view(virtualize);
        let ghost e0 = self.entries@;
        let i = self.load(node_id, module_id, substate_key, virtualize);
        proof {
            assert forall|x: int| 0 <= x < e0.len() && x != i implies #[trigger] self.entries@[x] == e0[x] by {
                if find(e0, node_id, module_id, substate_key@) < 0 {
                    assert(self.entries@.drop_last()[x] == self.entries@[x]);
                }
            }
        }
        if flags.unmodified_base {
            match &self.entries[i].key_state {
                TrackedKey::New(..) | TrackedKey::Garbage => {
                    return Err(AcquireLockError::LockUnmodifiedBaseOnNewSubstate);
                },
                TrackedKey::WriteOnly(..) | TrackedKey::ReadExistAndWrite(..) | TrackedKey::ReadNonExistAndWrite(..) => {
                    return Err(AcquireLockError::LockUnmodifiedBaseOnUpdatedSubstate);
                },
                TrackedKey::ReadOnly(..) => {},
            }
        }
        if self.entries[i].key_state.lock_state().is_none() {
            return Err(AcquireLockError::NotFound);
        }
        if self.next_lock_id == u32::MAX {
            return Err(AcquireLockError::LockHandlesExhausted);
        }
        let ghost before = self.entries@;
        let locked = self.entries[i].key_state.lock(flags);
        proof {
            assert forall|x: int| 0 <= x < before.len() && x != i implies #[trigger] self.entries@[x] == before[x] by {}
            assert(self.entries@[i as int].node_id == before[i as int].node_id);
            assert(self.entries@[i as int].module_id == before[i as int].module_id);
            assert(self.entries@[i as int].substate_key@ == before[i as int].substate_key@);
            lemma_find(before, node_id, module_id, substate_key@);
            assert forall|a: int, b: int| 0 <= a < b < self.entries@.len() implies !is_at(
                self.entries@[a],
                self.entries@[b].node_id,
                self.entries@[b].module_id,
                self.entries@[b].substate_key@,
            ) by {
                assert(!is_at(before[a], before[b].node_id, before[b].module_id, before[b].substate_key@));
            }
            lemma_find_unique(self.entries@, i as int);
        }
        proof {
            let l = old(self).prior_lock(node_id, module_id, substate_key@, virt);
            let v = old(self).prior_view(node_id, module_id, substate_key@, virt);
            assert(self.entries@.len() == before.len());
            assert(view_of(self.entries@[i as int].key_state) == v);
            assert(l is Some);
            assert(base_error(v, flags) is None);
            assert(lock_taken(l->0, flags, lock_of(self.entries@[i as int].key_state), locked));
            assert(find(self.entries@, node_id, module_id, substate_key@) == i);
        }
        match locked {
            Err(_) => Err(AcquireLockError::SubstateLocked),
            Ok(()) => {
                let handle = self.next_lock_id;
                self.locks.push(LockRecord { handle, node_id, module_id, substate_key: substate_key.clone(), flags });
                self.next_lock_id = handle + 1;
                Ok(handle)
            },
        }
    }

    /// Locks the substate at an address, loading it first.
    pub fn acquire_lock(&mut self, node_id: NodeId, module_id: ModuleId, substate_key: &Vec<u8>, flags: LockFlags) -> (r: Result<u32, AcquireLockError>)
        requires
            old(self).wf(),
        ensures
            final(self).wf(),
            ({
                let v = old(self).prior_view(node_id, module_id, substate_key@, None);
                let l = old(self).prior_lock(node_id, module_id, substate_key@, None);
                &&& base_error(v, flags) is Some ==> r == Err::<u32, AcquireLockError>(base_error(v, flags)->0)
                &&& base_error(v, flags) is None && l is None ==> r == Err::<u32, AcquireLockError>(AcquireLockError::NotFound)
            }),
            r matches Ok(h) ==> h == old(self).next_lock_id && final(self).locks@.drop_last() == old(self).locks@,
            r is Err ==> final(self).locks@ == old(self).locks@,
    {
        self.acquire_lock_virtualize(node_id, module_id, substate_key, flags, None)
    }

    /// The value under the open lock `handle`.
    pub fn read_substate(&self, handle: u32) -> (r: &Vec<u8>)
        requires
            self.locked_entry(handle) >= 0,
            current(self.entries@[self.locked_entry(handle)].key_state) is Some,
        ensures
            current(self.entries@[self.locked_entry(handle)].key_state) == Some(r@),
    {
        let l = self.lock_position(handle);
        let rec = &self.locks[l];
        let i = match position(&self.entries, rec.node_id, rec.module_id, &rec.substate_key) {
            Some(i) => i,
            None => { proof { assert(false); } 0 },
        };
        match self.entries[i].key_state.get() {
            Some(v) => v,
            None => { proof { assert(false); } &self.locks[l].substate_key },
        }
    }

    /// Position of the open lock `handle`.
    fn lock_position(&self, handle: u32) -> (r: usize)
        requires
            lock_index(self.locks@, handle) >= 0,
        ensures
            r == lock_index(self.locks@, handle),
            r < self.locks@.len(),
    {
        let mut i: usize = self.locks.len();
        proof {
            assert(self.locks@.take(i as int) =~= self.locks@);
            lemma_lock_index(self.locks@, handle);
        }
        while i > 0
            invariant
                i <= self.locks@.len(),
                lock_index(self.locks@.take(i as int), handle) == lock_index(self.locks@, handle),
                lock_index(self.locks@, handle) >= 0,
            decreases i,
        {
            proof {
                assert(self.locks@.take(i as int).drop_last() =~= self.locks@.take(i - 1));
                assert(self.locks@.take(i as int).last() == self.locks@[i - 1]);
            }
            if self.locks[i - 1].handle == handle {
                return i - 1;
            }
            i = i - 1;
        }
        proof {
            assert(self.locks@.take(0) =~= Seq::<LockRecord>::empty());
        }
        0
    }
}

/// The update each tracked key asks the store for, in order, with its store key.
pub open spec fn updates(s: Seq<TrackEntry>) -> Seq<(Seq<u8>, Option<Seq<u8>>)>
    decreases s.len(),
{
    if s.len() == 0 {
        Seq::empty()
    } else {
        let e = s.last();
        match spec_database_update(e.key_state) {
            Some(u) => updates(s.drop_last()).push((db_key(e.node_id, e.module_id, e.substate_key@), u)),
            None => updates(s.drop_last()),
        }
    }
}

pub open spec fn update_view(x: (Vec<u8>, DatabaseUpdate)) -> (Seq<u8>, Option<Seq<u8>>) {
    (x.0@, match x.1 {
        DatabaseUpdate::Put(v) => Some(v@),
        DatabaseUpdate::Delete => None,
    })
}

/// Whether `s` holds the same entries as `o` but at position `j`.
pub open spec fn same_but(s: Seq<TrackEntry>, o: Seq<TrackEntry>, j: int) -> bool {
    &&& s.len() == o.len()
    &&& forall|i: int| 0 <= i < o.len() && i != j ==> #[trigger] s[i] == o[i]
    &&& s[j].node_id == o[j].node_id
    &&& s[j].module_id == o[j].module_id
    &&& s[j].substate_key@ == o[j].substate_key@
}

proof fn lemma_same_but_unique(s: Seq<TrackEntry>, o: Seq<TrackEntry>, j: int)
    requires
        addresses_unique(o),
        0 <= j < o.len(),
        same_but(s, o, j),
    ensures
        addresses_unique(s),
        find(s, o[j].node_id, o[j].module_id, o[j].substate_key@) == j,
{
    assert forall|a: int, b: int| 0 <= a < b < s.len() implies !is_at(s[a], s[b].node_id, s[b].module_id, s[b].substate_key@) by {
        assert(!is_at(o[a], o[b].node_id, o[b].module_id, o[b].substate_key@));
    }
    lemma_find_unique(s, j);
}

impl Track {
    /// Releases the open lock `handle`. A key released from a force-write lock is
    /// copied, as it now is, into the force-write record.
    pub fn release_lock(&mut self, handle: u32)
        requires
            old(self).wf(),
            old(self).locked_entry(handle) >= 0,
            lock_of(old(self).entries@[old(self).locked_entry(handle)].key_state) matches Some(l)
                && l != SubstateLockState::Read(0),
        ensures
            final(self).wf(),
            ({
                let li = lock_index(old(self).locks@, handle);
                let rec = old(self).locks@[li];
                let j = old(self).locked_entry(handle);
                let e = final(self).entries@[j];
                &&& final(self).locks@ == old(self).locks@.remove(li)
                &&& lock_index(final(self).locks@, handle) == -1
                &&& same_but(final(self).entries@, old(self).entries@, j)
                &&& view_of(e.key_state) == view_of(old(self).entries@[j].key_state)
                &&& lock_of(e.key_state) == Some(lock_released(lock_of(old(self).entries@[j].key_state)->0))
                &&& rec.flags.force_write ==> {
                    let f = find(final(self).force_writes@, rec.node_id, rec.module_id, rec.substate_key@);
                    &&& f >= 0
                    &&& same_state(final(self).force_writes@[f].key_state, e.key_state)
                }
                &&& !rec.flags.force_write ==> final(self).force_writes@ == old(self).force_writes@
            }),
            final(self).substate_db == old(self).substate_db,
            final(self).next_lock_id == old(self).next_lock_id,
    {
        proof {
            lemma_lock_index(self.locks@, handle);
        }
        let l = self.lock_position(handle);
        let node_id = self.locks[l].node_id;
        let module_id = self.locks[l].module_id;
        let flags = self.locks[l].flags;
        let key = self.locks[l].substate_key.clone();
        let ghost rec = self.locks@[l as int];
        let ghost l0 = self.locks@;
        let _ = self.locks.remove(l);
        proof {
            assert forall|x: int| 0 <= x < self.locks@.len() implies (#[trigger] self.locks@[x]).handle != handle by {
                if x < l {
                    assert(self.locks@[x] == l0[x]);
                } else {
                    assert(self.locks@[x] == l0[x + 1]);
                }
            }
            lemma_lock_index_absent(self.locks@, handle);
            assert forall|a: int, b: int| 0 <= a < b < self.locks@.len() implies (#[trigger] self.locks@[a]).handle != (#[trigger] self.locks@[b]).handle by {
                let a0 = if a < l { a } else { a + 1 };
                let b0 = if b < l { b } else { b + 1 };
                assert(self.locks@[a] == l0[a0]);
                assert(self.locks@[b] == l0[b0]);
            }
            assert forall|a: int| 0 <= a < self.locks@.len() implies (#[trigger] self.locks@[a]).handle < self.next_lock_id by {
                let a0 = if a < l { a } else { a + 1 };
                assert(self.locks@[a] == l0[a0]);
            }
        }
        let i = match position(&self.entries, node_id, module_id, &key) {
            Some(i) => i,
            None => { proof { assert(false); } return; },
        };
        let ghost before = self.entries@;
        self.entries[i].key_state.unlock();
        proof {
            assert forall|x: int| 0 <= x < before.len() && x != i implies #[trigger] self.entries@[x] == before[x] by {}
            assert(same_but(self.entries@, before, i as int));
            lemma_same_but_unique(self.entries@, before, i as int);
        }
        if flags.force_write {
            let copy = self.entries[i].key_state.duplicate();
            let ghost fw0 = self.force_writes@;
            match position(&self.force_writes, node_id, module_id, &key) {
                Some(f) => {
                    self.force_writes[f].key_state = copy;
                    proof {
                        assert forall|x: int| 0 <= x < fw0.len() && x != f implies #[trigger] self.force_writes@[x] == fw0[x] by {}
                        assert(same_but(self.force_writes@, fw0, f as int));
                        lemma_find(fw0, node_id, module_id, key@);
                        lemma_same_but_unique(self.force_writes@, fw0, f as int);
                    }
                },
                None => {
                    proof {
                        lemma_find(fw0, node_id, module_id, key@);
                    }
                    self.force_writes.push(TrackEntry { node_id, module_id, substate_key: key, key_state: copy });
                    proof {
                        let fw = self.force_writes@;
                        assert(fw.drop_last() =~= fw0);
                        assert forall|a: int, b: int| 0 <= a < b < fw.len() implies !is_at(fw[a], fw[b].node_id, fw[b].module_id, fw[b].substate_key@) by {
                            assert(fw[a] == fw0[a]);
                            if b < fw0.len() {
                                assert(fw[b] == fw0[b]);
                            }
                        }
                        assert(is_at(fw.last(), node_id, module_id, key@));
                    }
                },
            }
        }
    }

    /// Writes `value` under the open mutable lock `handle`.
    pub fn update_substate(&mut self, handle: u32, value: Vec<u8>)
        requires
            old(self).wf(),
            old(self).locked_entry(handle) >= 0,
            old(self).locks@[lock_index(old(self).locks@, handle)].flags.mutable,
            current(old(self).entries@[old(self).locked_entry(handle)].key_state) is Some,
        ensures
            final(self).wf(),
            ({
                let j = old(self).locked_entry(handle);
                let o = old(self).entries@[j].key_state;
                let t = final(self).entries@[j].key_state;
                &&& same_but(final(self).entries@, old(self).entries@, j)
                &&& current(t) == Some(value@)
                &&& base(t) == base(o)
                &&& is_new(t) == is_new(o)
                &&& written(t) == !is_new(o)
                &&& lock_of(t) == lock_of(o)
            }),
            final(self).locks@ == old(self).locks@,
            final(self).force_writes@ == old(self).force_writes@,
            final(self).substate_db == old(self).substate_db,
            final(self).next_lock_id == old(self).next_lock_id,
    {
        proof {
            lemma_lock_index(self.locks@, handle);
        }
        let l = self.lock_position(handle);
        let i = match position(&self.entries, self.locks[l].node_id, self.locks[l].module_id, &self.locks[l].substate_key) {
            Some(i) => i,
            None => { proof { assert(false); } return; },
        };
        let ghost before = self.entries@;
        self.entries[i].key_state.set(value);
        proof {
            assert forall|x: int| 0 <= x < before.len() && x != i implies #[trigger] self.entries@[x] == before[x] by {}
            assert(same_but(self.entries@, before, i as int));
            lemma_same_but_unique(self.entries@, before, i as int);
        }
    }

    /// Sets the substate at an address without a lock; fails, changing nothing,
    /// where a lock is held on it.
    pub fn set_substate(&mut self, node_id: NodeId, module_id: ModuleId, substate_key: Vec<u8>, value: Vec<u8>) -> (r: Result<(), SubstateAccessError>)
        requires
            old(self).wf(),
        ensures
            final(self).wf(),
            ({
                let j0 = find(old(self).entries@, node_id, module_id, substate_key@);
                let j = find(final(self).entries@, node_id, module_id, substate_key@);
                if j0 >= 0 && (lock_of(old(self).entries@[j0].key_state) matches Some(l) && l != SubstateLockState::Read(0)) {
                    r is Err && final(self).entries@ == old(self).entries@
                } else {
                    &&& r is Ok
                    &&& j >= 0
                    &&& current(final(self).entries@[j].key_state) == Some(value@)
                    &&& j0 >= 0 ==> same_but(final(self).entries@, old(self).entries@, j0) && base(final(self).entries@[j].key_state)
                        == base(old(self).entries@[j0].key_state)
                    &&& j0 < 0 ==> final(self).entries@.drop_last() == old(self).entries@ && base(final(self).entries@[j].key_state) is None
                        && written(final(self).entries@[j].key_state)
                }
            }),
            final(self).locks@ == old(self).locks@,
            final(self).force_writes@ == old(self).force_writes@,
            final(self).substate_db == old(self).substate_db,
    {
        match position(&self.entries, node_id, module_id, &substate_key) {
            None => {
                let ghost e0 = self.entries@;
                proof {
                    lemma_find(e0, node_id, module_id, substate_key@);
                }
                self.entries.push(TrackEntry {
                    node_id,
                    module_id,
                    substate_key,
                    key_state: TrackedKey::WriteOnly(Write::Update(RuntimeSubstate::new(value))),
                });
                proof {
                    let es = self.entries@;
                    assert(es.drop_last() =~= e0);
                    assert forall|a: int, b: int| 0 <= a < b < es.len() implies !is_at(es[a], es[b].node_id, es[b].module_id, es[b].substate_key@) by {
                        assert(es[a] == e0[a]);
                        if b < e0.len() {
                            assert(es[b] == e0[b]);
                        }
                    }
                    assert(is_at(es.last(), node_id, module_id, substate_key@));
                }
                Ok(())
            },
            Some(i) => {
                proof {
                    lemma_find(self.entries@, node_id, module_id, substate_key@);
                }
                match self.entries[i].key_state.lock_state() {
                    Some(l) => {
                        if l.is_locked() {
                            return Err(SubstateAccessError::SubstateLocked);
                        }
                    },
                    None => {},
                }
                let ghost before = self.entries@;
                self.entries[i].key_state.set(value);
                proof {
                    assert forall|x: int| 0 <= x < before.len() && x != i implies #[trigger] self.entries@[x] == before[x] by {}
                    assert(same_but(self.entries@, before, i as int));
                    lemma_same_but_unique(self.entries@, before, i as int);
                }
                Ok(())
            },
        }
    }

    /// Removes the substate at an address without a lock, loading it first, and
    /// returns its value; fails where a lock is held on it.
    pub fn take_substate(&mut self, node_id: NodeId, module_id: ModuleId, substate_key: &Vec<u8>) -> (r: Result<Option<Vec<u8>>, SubstateAccessError>)
        requires
            old(self).wf(),
        ensures
            final(self).wf(),
            ({
                let v = old(self).prior_view(node_id, module_id, substate_key@, None);
                let l = old(self).prior_lock(node_id, module_id, substate_key@, None);
                let j = find(final(self).entries@, node_id, module_id, substate_key@);
                &&& 0 <= j < final(self).entries@.len()
                &&& if l matches Some(x) && x != SubstateLockState::Read(0) {
                    r is Err && view_of(final(self).entries@[j].key_state) == v
                } else {
                    &&& r matches Ok(o) && opt_view(o) == v.0
                    &&& current(final(self).entries@[j].key_state) is None
                    &&& base(final(self).entries@[j].key_state) == v.1
                }
            }),
            final(self).locks@ == old(self).locks@,
            final(self).force_writes@ == old(self).force_writes@,
            final(self).substate_db == old(self).substate_db,
    {
        let i = self.load(node_id, module_id, substate_key, None);
        match self.entries[i].key_state.lock_state() {
            Some(l) => {
                if l.is_locked() {
                    return Err(SubstateAccessError::SubstateLocked);
                }
            },
            None => {},
        }
        let ghost before = self.entries@;
        let taken = self.entries[i].key_state.take();
        proof {
            assert forall|x: int| 0 <= x < before.len() && x != i implies #[trigger] self.entries@[x] == before[x] by {}
            assert(same_but(self.entries@, before, i as int));
            lemma_find(before, node_id, module_id, substate_key@);
            lemma_same_but_unique(self.entries@, before, i as int);
        }
        Ok(taken)
    }

    /// Drops every write of the transaction, then puts back the keys recorded at
    /// the release of force-write locks. Afterwards only those keys ask the store
    /// for an update.
    pub fn revert_non_force_write_changes(&mut self)
        requires
            old(self).wf(),
        ensures
            final(self).wf(),
            final(self).entries@.len() == old(self).entries@.len(),
            forall|i: int| 0 <= i < old(self).entries@.len() ==> {
                let e = old(self).entries@[i];
                let f = find(old(self).force_writes@, e.node_id, e.module_id, e.substate_key@);
                &&& is_at(#[trigger] final(self).entries@[i], e.node_id, e.module_id, e.substate_key@)
                &&& f >= 0 ==> same_state(final(self).entries@[i].key_state, old(self).force_writes@[f].key_state)
                &&& f < 0 ==> reverted_from(final(self).entries@[i].key_state, e.key_state)
            },
            forall|i: int| 0 <= i < final(self).entries@.len() && (#[trigger] spec_database_update(
                final(self).entries@[i].key_state)) is Some ==> find(
                old(self).force_writes@,
                old(self).entries@[i].node_id,
                old(self).entries@[i].module_id,
                old(self).entries@[i].substate_key@,
            ) >= 0,
            final(self).force_writes@.len() == 0,
            final(self).locks@ == old(self).locks@,
            final(self).substate_db == old(self).substate_db,
    {
        let ghost e0 = self.entries@;
        let mut i: usize = 0;
        while i < self.entries.len()
            invariant
                self.entries@.len() == e0.len(),
                e0 == old(self).entries@,
                self.force_writes@ == old(self).force_writes@,
                self.locks@ == old(self).locks@,
                self.next_lock_id == old(self).next_lock_id,
                old(self).wf(),
                self.substate_db == old(self).substate_db,
                addresses_unique(e0),
                addresses_unique(self.force_writes@),
                i <= e0.len(),
                forall|x: int| 0 <= x < e0.len() ==> is_at(#[trigger] self.entries@[x], e0[x].node_id, e0[x].module_id, e0[x].substate_key@),
                forall|x: int| 0 <= x < i ==> {
                    let f = find(self.force_writes@, e0[x].node_id, e0[x].module_id, e0[x].substate_key@);
                    &&& f >= 0 ==> same_state((#[trigger] self.entries@[x]).key_state, self.force_writes@[f].key_state)
                    &&& f < 0 ==> reverted_from(self.entries@[x].key_state, e0[x].key_state)
                },
                forall|x: int| i <= x < e0.len() ==> #[trigger] self.entries@[x] == e0[x],
            decreases e0.len() - i,
        {
            let ghost before = self.entries@;
            let found = position(&self.force_writes, self.entries[i].node_id, self.entries[i].module_id, &self.entries[i].substate_key);
            proof {
                lemma_find(self.force_writes@, e0[i as int].node_id, e0[i as int].module_id, e0[i as int].substate_key@);
            }
            match found {
                Some(f) => {
                    let copy = self.force_writes[f].key_state.duplicate();
                    self.entries[i].key_state = copy;
                },
                None => {
                    self.entries[i].key_state.revert_writes();
                },
            }
            proof {
                assert forall|x: int| 0 <= x < before.len() && x != i implies #[trigger] self.entries@[x] == before[x] by {}
                assert(self.entries@[i as int].node_id == before[i as int].node_id);
                assert(self.entries@[i as int].module_id == before[i as int].module_id);
                assert(self.entries@[i as int].substate_key@ == before[i as int].substate_key@);
            }
            i = i + 1;
        }
        proof {
            assert forall|a: int, b: int| 0 <= a < b < self.entries@.len() implies !is_at(
                self.entries@[a],
                self.entries@[b].node_id,
                self.entries@[b].module_id,
                self.entries@[b].substate_key@,
            ) by {
                assert(!is_at(e0[a], e0[b].node_id, e0[b].module_id, e0[b].substate_key@));
            }
        }
        self.force_writes = Vec::new();
    }

    /// The updates that persisting the transaction asks the store for, in order,
    /// each with its store key.
    pub fn state_updates(&self) -> (r: Vec<(Vec<u8>, DatabaseUpdate)>)
        ensures
            r@.map_values(|x: (Vec<u8>, DatabaseUpdate)| update_view(x)) == updates(self.entries@),
    {
        let mut r: Vec<(Vec<u8>, DatabaseUpdate)> = Vec::new();
        let mut i: usize = 0;
        while i < self.entries.len()
            invariant
                i <= self.entries@.len(),
                r@.map_values(|x: (Vec<u8>, DatabaseUpdate)| update_view(x)) == updates(self.entries@.take(i as int)),
            decreases self.entries@.len() - i,
        {
            proof {
                assert(self.entries@.take(i + 1).drop_last() =~= self.entries@.take(i as int));
                assert(self.entries@.take(i + 1).last() == self.entries@[i as int]);
            }
            let e = &self.entries[i];
            match e.key_state.database_update() {
                Some(u) => {
                    let key = db_key_bytes(&e.node_id, e.module_id, &e.substate_key);
                    let ghost r0 = r@;
                    r.push((key, u));
                    proof {
                        assert(r@.map_values(|x: (Vec<u8>, DatabaseUpdate)| update_view(x)) =~= r0.map_values(
                            |x: (Vec<u8>, DatabaseUpdate)| update_view(x),
                        ).push(update_view(r@.last())));
                    }
                },
                None => {},
            }
            i = i + 1;
        }
        proof {
            assert(self.entries@.take(i as int) =~= self.entries@);
        }
        r
    }
}

impl Track {
    /// Tracks a freshly created node: each of its substates becomes a new key.
    pub fn create_node(&mut self, node_id: NodeId, substates: Vec<(ModuleId, Vec<u8>, Vec<u8>)>)
        requires
            old(self).wf(),
            forall|i: int| 0 <= i < old(self).entries@.len() ==> (#[trigger] old(self).entries@[i]).node_id != node_id,
            forall|a: int, b: int| 0 <= a < b < substates@.len() ==> !((#[trigger] substates@[a]).0 == (#[trigger] substates@[b]).0
                && substates@[a].1@ == substates@[b].1@),
        ensures
            final(self).wf(),
            final(self).entries@.len() == old(self).entries@.len() + substates@.len(),
            final(self).entries@.take(old(self).entries@.len() as int) == old(self).entries@,
            forall|i: int| 0 <= i < substates@.len() ==> {
                let e = #[trigger] final(self).entries@[old(self).entries@.len() + i];
                &&& is_at(e, node_id, substates@[i].0, substates@[i].1@)
                &&& view_of(e.key_state) == (Some(substates@[i].2@), None::<Option<Seq<u8>>>, false, true)
                &&& lock_of(e.key_state) == Some(SubstateLockState::Read(0))
            },
            final(self).locks@ == old(self).locks@,
            final(self).force_writes@ == old(self).force_writes@,
            final(self).substate_db == old(self).substate_db,
    {
        let ghost e0 = self.entries@;
        let ghost s0 = substates@;
        let mut rest = substates;
        let mut n: usize = 0;
        let total = rest.len();
        proof {
            assert(rest@ =~= s0.skip(0));
            assert(self.entries@.take(e0.len() as int) =~= e0);
        }
        while rest.len() > 0
            invariant
                n <= s0.len(),
                s0.len() == total,
                rest@ == s0.skip(n as int),
                self.entries@.len() == e0.len() + n,
                self.entries@.take(e0.len() as int) == e0,
                addresses_unique(self.entries@),
                forall|i: int| 0 <= i < e0.len() ==> (#[trigger] e0[i]).node_id != node_id,
                forall|a: int, b: int| 0 <= a < b < s0.len() ==> !((#[trigger] s0[a]).0 == (#[trigger] s0[b]).0
                    && s0[a].1@ == s0[b].1@),
                forall|i: int| 0 <= i < n ==> {
                    let e = #[trigger] self.entries@[e0.len() + i];
                    &&& is_at(e, node_id, s0[i].0, s0[i].1@)
                    &&& view_of(e.key_state) == (Some(s0[i].2@), None::<Option<Seq<u8>>>, false, true)
                    &&& lock_of(e.key_state) == Some(SubstateLockState::Read(0))
                },
                self.locks@ == old(self).locks@,
                self.next_lock_id == old(self).next_lock_id,
                old(self).wf(),
                self.force_writes@ == old(self).force_writes@,
                self.substate_db == old(self).substate_db,
            decreases rest@.len(),
        {
            let (module_id, key, value) = rest.remove(0);
            proof {
                assert(rest@ =~= s0.skip(n + 1));
                assert(s0[n as int] == (module_id, key, value));
            }
            let ghost before = self.entries@;
            self.entries.push(TrackEntry {
                node_id,
                module_id,
                substate_key: key,
                key_state: TrackedKey::New(RuntimeSubstate::new(value)),
            });
            proof {
                let es = self.entries@;
                assert(es.drop_last() =~= before);
                assert(es.take(e0.len() as int) =~= before.take(e0.len() as int));
                assert forall|a: int, b: int| 0 <= a < b < es.len() implies !is_at(es[a], es[b].node_id, es[b].module_id, es[b].substate_key@) by {
                    assert(es[a] == before[a]);
                    if b < before.len() {
                        assert(es[b] == before[b]);
                    } else if a < e0.len() {
                        assert(before.take(e0.len() as int)[a] == e0[a]);
                    } else {
                        let ia = a - e0.len();
                        assert(before[e0.len() + ia] == es[a]);
                        assert(ia < n);
                        assert(!(s0[ia].0 == s0[n as int].0 && s0[ia].1@ == s0[n as int].1@));
                    }
                }
                assert forall|i: int| 0 <= i < n + 1 implies {
                    let e = #[trigger] es[e0.len() + i];
                    &&& is_at(e, node_id, s0[i].0, s0[i].1@)
                    &&& view_of(e.key_state) == (Some(s0[i].2@), None::<Option<Seq<u8>>>, false, true)
                    &&& lock_of(e.key_state) == Some(SubstateLockState::Read(0))
                } by {
                    if i < n {
                        assert(es[e0.len() + i] == before[e0.len() + i]);
                    }
                }
            }
            n = n + 1;
        }
    }
}

/// The current values of the tracked keys of module `m` of node `n`, in order.
pub open spec fn tracked_values(s: Seq<TrackEntry>, n: NodeId, m: ModuleId) -> Seq<Seq<u8>>
    decreases s.len(),
{
    if s.len() == 0 {
        Seq::empty()
    } else {
        let e = s.last();
        if e.node_id == n && e.module_id == m && current(e.key_state) is Some {
            tracked_values(s.drop_last(), n, m).push(current(e.key_state)->0)
        } else {
            tracked_values(s.drop_last(), n, m)
        }
    }
}

/// The store key prefix of module `m` of node `n`.
pub open spec fn module_prefix(n: NodeId, m: ModuleId) -> Seq<u8> {
    node_id_bytes(n) + seq![module_byte(m)]
}

/// The values that the store holds under module `m` of node `n`, in store order,
/// leaving out the keys that the overlay tracks.
pub open spec fn untracked_values(
    db: Seq<(Vec<u8>, Vec<u8>)>,
    entries: Seq<TrackEntry>,
    n: NodeId,
    m: ModuleId,
) -> Seq<Seq<u8>>
    decreases db.len(),
{
    if db.len() == 0 {
        Seq::empty()
    } else {
        let (k, v) = db.last();
        let p = module_prefix(n, m);
        let rest = untracked_values(db.drop_last(), entries, n, m);
        if k@.len() >= p.len() && k@.subrange(0, p.len() as int) == p
            && find(entries, n, m, k@.subrange(p.len() as int, k@.len() as int)) < 0 {
            rest.push(v@)
        } else {
            rest
        }
    }
}

proof fn lemma_same_addresses(s: Seq<TrackEntry>, o: Seq<TrackEntry>, n: NodeId, m: ModuleId, k: Seq<u8>)
    requires
        s.len() == o.len(),
        forall|x: int| 0 <= x < o.len() ==> is_at(#[trigger] s[x], o[x].node_id, o[x].module_id, o[x].substate_key@),
    ensures
        find(s, n, m, k) == find(o, n, m, k),
        addresses_unique(o) ==> addresses_unique(s),
    decreases s.len(),
{
    if s.len() > 0 {
        assert forall|x: int| 0 <= x < o.len() - 1 implies is_at(#[trigger] s.drop_last()[x], o.drop_last()[x].node_id, o.drop_last()[x].module_id, o.drop_last()[x].substate_key@) by {
            assert(s.drop_last()[x] == s[x]);
            assert(o.drop_last()[x] == o[x]);
        }
        lemma_same_addresses(s.drop_last(), o.drop_last(), n, m, k);
        assert(is_at(s[s.len() - 1], o[o.len() - 1].node_id, o[o.len() - 1].module_id, o[o.len() - 1].substate_key@));
    }
    if addresses_unique(o) {
        assert forall|a: int, b: int| 0 <= a < b < s.len() implies !is_at(s[a], s[b].node_id, s[b].module_id, s[b].substate_key@) by {
            assert(is_at(s[a], o[a].node_id, o[a].module_id, o[a].substate_key@));
            assert(is_at(s[b], o[b].node_id, o[b].module_id, o[b].substate_key@));
            assert(!is_at(o[a], o[b].node_id, o[b].module_id, o[b].substate_key@));
        }
    }
}

/// Whether one of the first `j` store entries holds key `k` of module `m` of node `n`.
pub open spec fn stored_before(db: Seq<(Vec<u8>, Vec<u8>)>, j: int, n: NodeId, m: ModuleId, k: Seq<u8>) -> bool {
    exists|d: int| 0 <= d < j && (#[trigger] db[d]).0@ == module_prefix(n, m) + k
}

/// Whether the store entry `x` holds a key of module `m` of node `n` that the
/// overlay does not track.
pub open spec fn untracked_hit(x: (Vec<u8>, Vec<u8>), entries: Seq<TrackEntry>, n: NodeId, m: ModuleId) -> bool {
    let p = module_prefix(n, m);
    x.0@.len() >= p.len() && x.0@.subrange(0, p.len() as int) == p
        && find(entries, n, m, x.0@.subrange(p.len() as int, x.0@.len() as int)) < 0
}

/// How many store entries, from position `j` on, a scan reads to find `need`
/// more untracked values of module `m` of node `n`, counted from the start.
pub open spec fn store_reads(db: Seq<(Vec<u8>, Vec<u8>)>, entries: Seq<TrackEntry>, n: NodeId, m: ModuleId, need: int, j: int) -> int
    decreases db.len() - j,
{
    if j < 0 || j >= db.len() || need <= 0 {
        j
    } else {
        store_reads(db, entries, n, m, need - if untracked_hit(db[j], entries, n, m) { 1int } else { 0 }, j + 1)
    }
}

/// The range-read watermark of module `m` of node `n`; 0 where none is recorded.
pub open spec fn range_read(s: Seq<(NodeId, ModuleId, usize)>, n: NodeId, m: ModuleId) -> int
    decreases s.len(),
{
    if s.len() == 0 {
        0
    } else if s.last().0 == n && s.last().1 == m {
        s.last().2 as int
    } else {
        range_read(s.drop_last(), n, m)
    }
}

proof fn lemma_range_read_nonneg(s: Seq<(NodeId, ModuleId, usize)>, n: NodeId, m: ModuleId)
    ensures
        range_read(s, n, m) >= 0,
    decreases s.len(),
{
    if s.len() > 0 {
        lemma_range_read_nonneg(s.drop_last(), n, m);
    }
}

/// Whether `p` is a prefix of `k`.
fn starts_with(k: &Vec<u8>, p: &Vec<u8>) -> (r: bool)
    ensures
        r == (k@.len() >= p@.len() && k@.subrange(0, p@.len() as int) == p@),
{
    if k.len() < p.len() {
        return false;
    }
    let mut i: usize = 0;
    while i < p.len()
        invariant
            p@.len() <= k@.len(),
            i <= p@.len(),
            forall|j: int| 0 <= j < i ==> k@[j] == p@[j],
        decreases p@.len() - i,
    {
        if k[i] != p[i] {
            assert(k@.subrange(0, p@.len() as int)[i as int] != p@[i as int]);
            return false;
        }
        i = i + 1;
    }
    assert(k@.subrange(0, p@.len() as int) =~= p@);
    true
}

/// Bytes `from..` of `k`.
fn suffix(k: &Vec<u8>, from: usize) -> (r: Vec<u8>)
    requires
        from <= k@.len(),
    ensures
        r@ == k@.subrange(from as int, k@.len() as int),
{
    let mut r: Vec<u8> = Vec::new();
    let mut i: usize = from;
    while i < k.len()
        invariant
            from <= i <= k@.len(),
            r@ == k@.subrange(from as int, i as int),
        decreases k@.len() - i,
    {
        r.push(k[i]);
        proof {
            assert(r@ =~= k@.subrange(from as int, i + 1));
        }
        i = i + 1;
    }
    r
}

impl Track {
    /// Up to `count` values of module `module_id` of `node_id`: first those of its
    /// tracked keys, in order, then those the store holds for keys the overlay
    /// does not track, in store order.
    fn scan_values(&self, node_id: NodeId, module_id: ModuleId, count: usize) -> (r: (Vec<Vec<u8>>, usize))
        ensures
            r.1 == store_reads(self.substate_db.substates@, self.entries@, node_id, module_id,
                count - tracked_values(self.entries@, node_id, module_id).len(), 0),
            ({
                let all = tracked_values(self.entries@, node_id, module_id) + untracked_values(
                    self.substate_db.substates@,
                    self.entries@,
                    node_id,
                    module_id,
                );
                r.0@.map_values(|v: Vec<u8>| v@) == all.take(if count <= all.len() { count as int } else { all.len() as int })
            }),
    {
        let ghost tv = tracked_values(self.entries@, node_id, module_id);
        let ghost uv = untracked_values(self.substate_db.substates@, self.entries@, node_id, module_id);
        let mut items: Vec<Vec<u8>> = Vec::new();
        let mut i: usize = 0;
        while i < self.entries.len()
            invariant
                i <= self.entries@.len(),
                tv == tracked_values(self.entries@, node_id, module_id),
                uv == untracked_values(self.substate_db.substates@, self.entries@, node_id, module_id),
                items@.map_values(|v: Vec<u8>| v@) == tracked_values(self.entries@.take(i as int), node_id, module_id),
                items@.len() <= count,
            decreases self.entries@.len() - i,
        {
            if items.len() == count {
                proof {
                    lemma_take_prefix(tracked_values(self.entries@.take(i as int), node_id, module_id), tv, uv,
                        self.entries@, i as int, node_id, module_id);
                    lemma_tracked_prefix(self.entries@, node_id, module_id, i as int, self.entries@.len() as int);
                    assert(self.entries@.take(self.entries@.len() as int) =~= self.entries@);
                }
                return (items, 0);
            }
            proof {
                assert(self.entries@.take(i + 1).drop_last() =~= self.entries@.take(i as int));
                assert(self.entries@.take(i + 1).last() == self.entries@[i as int]);
            }
            let e = &self.entries[i];
            if e.node_id == node_id && same_module(e.module_id, module_id) {
                match e.key_state.get() {
                    Some(v) => {
                        let ghost before = items@;
                        items.push(v.clone());
                        proof {
                            assert(items@.map_values(|v: Vec<u8>| v@) =~= before.map_values(|v: Vec<u8>| v@).push(v@));
                        }
                    },
                    None => {},
                }
            }
            i = i + 1;
        }
        proof {
            assert(self.entries@.take(i as int) =~= self.entries@);
        }
        let prefix = db_key_bytes(&node_id, module_id, &Vec::new());
        proof {
            assert(prefix@ =~= module_prefix(node_id, module_id));
        }
        let db = &self.substate_db.substates;
        let mut j: usize = 0;
        while j < db.len()
            invariant
                j <= db@.len(),
                prefix@ == module_prefix(node_id, module_id),
                tv == tracked_values(self.entries@, node_id, module_id),
                uv == untracked_values(db@, self.entries@, node_id, module_id),
                *db == self.substate_db.substates,
                items@.map_values(|v: Vec<u8>| v@) == tv + untracked_values(db@.take(j as int), self.entries@, node_id, module_id),
                items@.len() <= count,
                store_reads(db@, self.entries@, node_id, module_id, count - tv.len(), 0) == store_reads(
                    db@, self.entries@, node_id, module_id, count - items@.len(), j as int),
            decreases db@.len() - j,
        {
            if items.len() == count {
                proof {
                    lemma_untracked_prefix(db@, self.entries@, node_id, module_id, j as int, db@.len() as int);
                    assert(db@.take(db@.len() as int) =~= db@);
                    let a1 = untracked_values(db@.take(j as int), self.entries@, node_id, module_id);
                    assert(uv.take(a1.len() as int) == a1);
                    let all = tv + uv;
                    assert forall|x: int| 0 <= x < tv.len() + a1.len() implies all[x] == (tv + a1)[x] by {
                        if x >= tv.len() {
                            assert(uv.take(a1.len() as int)[x - tv.len()] == a1[x - tv.len()]);
                        }
                    }
                    assert(items@.map_values(|v: Vec<u8>| v@).len() == items@.len());
                    assert((tv + a1).len() == count);
                    assert(all.len() >= count);
                    assert(all.take(count as int) =~= tv + a1);
                }
                return (items, j);
            }
            proof {
                assert(db@.take(j + 1).drop_last() =~= db@.take(j as int));
                assert(db@.take(j + 1).last() == db@[j as int]);
            }
            let k = &db[j].0;
            if starts_with(k, &prefix) {
                let sk = suffix(k, prefix.len());
                if position(&self.entries, node_id, module_id, &sk).is_none() {
                    let ghost before = items@;
                    items.push(db[j].1.clone());
                    proof {
                        assert(items@.map_values(|v: Vec<u8>| v@) =~= before.map_values(|v: Vec<u8>| v@).push(db@[j as int].1@));
                    }
                }
            }
            j = j + 1;
        }
        proof {
            assert(db@.take(j as int) =~= db@);
            let all = tv + uv;
            assert(all.take(all.len() as int) =~= all);
        }
        (items, j)
    }

    /// Up to `count` values of module `module_id` of `node_id`, as `scan_values`
    /// gives them. Raises the module's range-read watermark to the number of store
    /// entries the scan read.
    pub fn scan_substates(&mut self, node_id: NodeId, module_id: ModuleId, count: usize) -> (r: Vec<Vec<u8>>)
        ensures
            ({
                let tv = tracked_values(old(self).entries@, node_id, module_id);
                let all = tv + untracked_values(old(self).substate_db.substates@, old(self).entries@, node_id, module_id);
                let reads = store_reads(old(self).substate_db.substates@, old(self).entries@, node_id, module_id,
                    count - tv.len(), 0);
                let before = range_read(old(self).range_reads@, node_id, module_id);
                &&& r@.map_values(|v: Vec<u8>| v@) == all.take(if count <= all.len() { count as int } else { all.len() as int })
                &&& range_read(final(self).range_reads@, node_id, module_id) == if reads > before { reads } else { before }
            }),
            forall|n: NodeId, m: ModuleId| !(n == node_id && m == module_id) ==> #[trigger] range_read(final(self).range_reads@, n, m)
                == range_read(old(self).range_reads@, n, m),
            final(self).entries@ == old(self).entries@,
            final(self).substate_db == old(self).substate_db,
            final(self).locks@ == old(self).locks@,
            final(self).force_writes@ == old(self).force_writes@,
            final(self).next_lock_id == old(self).next_lock_id,
    {
        let (items, reads) = self.scan_values(node_id, module_id, count);
        self.record_range_read(node_id, module_id, reads);
        items
    }

    /// Raises the range-read watermark of a module to `reads`.
    fn record_range_read(&mut self, node_id: NodeId, module_id: ModuleId, reads: usize)
        ensures
            range_read(final(self).range_reads@, node_id, module_id) == if reads > range_read(old(self).range_reads@, node_id, module_id) {
                reads as int
            } else {
                range_read(old(self).range_reads@, node_id, module_id)
            },
            forall|n: NodeId, m: ModuleId| !(n == node_id && m == module_id) ==> #[trigger] range_read(final(self).range_reads@, n, m)
                == range_read(old(self).range_reads@, n, m),
            final(self).entries@ == old(self).entries@,
            final(self).substate_db == old(self).substate_db,
            final(self).locks@ == old(self).locks@,
            final(self).force_writes@ == old(self).force_writes@,
            final(self).next_lock_id == old(self).next_lock_id,
    {
        let mut i: usize = self.range_reads.len();
        let mut current: usize = 0;
        let mut found = false;
        proof {
            assert(self.range_reads@.take(i as int) =~= self.range_reads@);
        }
        while i > 0 && !found
            invariant
                i <= self.range_reads@.len(),
                found ==> current == range_read(self.range_reads@, node_id, module_id),
                !found ==> current == 0 && range_read(self.range_reads@.take(i as int), node_id, module_id)
                    == range_read(self.range_reads@, node_id, module_id),
            decreases i + if found { 0int } else { 1int },
        {
            proof {
                assert(self.range_reads@.take(i as int).drop_last() =~= self.range_reads@.take(i - 1));
                assert(self.range_reads@.take(i as int).last() == self.range_reads@[i - 1]);
            }
            if self.range_reads[i - 1].0 == node_id && self.range_reads[i - 1].1 == module_id {
                current = self.range_reads[i - 1].2;
                found = true;
            } else {
                i = i - 1;
            }
        }
        proof {
            if !found {
                assert(self.range_reads@.take(0) =~= Seq::<(NodeId, ModuleId, usize)>::empty());
            }
        }
        let ghost r0 = self.range_reads@;
        let next = if reads > current { reads } else { current };
        self.range_reads.push((node_id, module_id, next));
        proof {
            assert(self.range_reads@.drop_last() =~= r0);
        }
    }
}

proof fn lemma_take_prefix(
    t: Seq<Seq<u8>>,
    tv: Seq<Seq<u8>>,
    uv: Seq<Seq<u8>>,
    entries: Seq<TrackEntry>,
    i: int,
    n: NodeId,
    m: ModuleId,
)
    requires
        0 <= i <= entries.len(),
        t == tracked_values(entries.take(i), n, m),
        tv == tracked_values(entries, n, m),
    ensures
        (tv + uv).take(t.len() as int) == t,
        t.len() <= (tv + uv).len(),
{
    lemma_tracked_prefix(entries, n, m, i, entries.len() as int);
    assert(entries.take(entries.len() as int) =~= entries);
    assert((tv + uv).take(t.len() as int) =~= t);
}

/// The tracked values of a shorter prefix of the entries are a prefix of those of a longer one.
proof fn lemma_tracked_prefix(entries: Seq<TrackEntry>, n: NodeId, m: ModuleId, i: int, j: int)
    requires
        0 <= i <= j <= entries.len(),
    ensures
        ({
            let a = tracked_values(entries.take(i), n, m);
            let b = tracked_values(entries.take(j), n, m);
            a.len() <= b.len() && b.take(a.len() as int) == a
        }),
    decreases j - i,
{
    if i < j {
        lemma_tracked_prefix(entries, n, m, i, j - 1);
        assert(entries.take(j).drop_last() =~= entries.take(j - 1));
        let a = tracked_values(entries.take(i), n, m);
        let b1 = tracked_values(entries.take(j - 1), n, m);
        let b = tracked_values(entries.take(j), n, m);
        assert(b.take(a.len() as int) =~= b1.take(a.len() as int));
    } else {
        let a = tracked_values(entries.take(i), n, m);
        assert(a.take(a.len() as int) =~= a);
    }
}

/// The untracked values of a shorter prefix of the store are a prefix of those of a longer one.
proof fn lemma_untracked_prefix(db: Seq<(Vec<u8>, Vec<u8>)>, entries: Seq<TrackEntry>, n: NodeId, m: ModuleId, i: int, j: int)
    requires
        0 <= i <= j <= db.len(),
    ensures
        ({
            let a = untracked_values(db.take(i), entries, n, m);
            let b = untracked_values(db.take(j), entries, n, m);
            a.len() <= b.len() && b.take(a.len() as int) == a
        }),
    decreases j - i,
{
    if i < j {
        lemma_untracked_prefix(db, entries, n, m, i, j - 1);
        assert(db.take(j).drop_last() =~= db.take(j - 1));
        let a = untracked_values(db.take(i), entries, n, m);
        let b1 = untracked_values(db.take(j - 1), entries, n, m);
        let b = untracked_values(db.take(j), entries, n, m);
        assert(b.take(a.len() as int) =~= b1.take(a.len() as int));
    } else {
        let a = untracked_values(db.take(i), entries, n, m);
        assert(a.take(a.len() as int) =~= a);
    }
}

impl Track {
    /// Removes up to `count` values of module `module_id` of `node_id` and returns
    /// them, in the order `scan_substates` gives: tracked keys first, then keys
    /// that only the store holds, which become tracked as deleted.
    pub fn take_substates(&mut self, node_id: NodeId, module_id: ModuleId, count: usize) -> (r: Vec<Vec<u8>>)
        requires
            old(self).wf(),
            old(self).substate_db.wf(),
        ensures
            final(self).wf(),
            ({
                let tv = tracked_values(old(self).entries@, node_id, module_id);
                let all = tv + untracked_values(old(self).substate_db.substates@, old(self).entries@, node_id, module_id);
                let n = if count <= all.len() { count as int } else { all.len() as int };
                let old_len = old(self).entries@.len();
                &&& r@.map_values(|v: Vec<u8>| v@) == all.take(n)
                &&& final(self).entries@.len() == old_len + if n > tv.len() { n - tv.len() } else { 0 }
                &&& forall|i: int| 0 <= i < old_len ==> {
                    let e = old(self).entries@[i];
                    let taken = e.node_id == node_id && e.module_id == module_id && current(e.key_state) is Some
                        && tracked_values(old(self).entries@.take(i), node_id, module_id).len() < count;
                    &&& is_at(#[trigger] final(self).entries@[i], e.node_id, e.module_id, e.substate_key@)
                    &&& taken ==> current(final(self).entries@[i].key_state) is None
                        && base(final(self).entries@[i].key_state) == base(e.key_state)
                    &&& !taken ==> final(self).entries@[i].key_state == e.key_state
                }
                &&& forall|i: int| old_len <= i < final(self).entries@.len() ==> {
                    let e = #[trigger] final(self).entries@[i];
                    &&& e.node_id == node_id && e.module_id == module_id
                    &&& current(e.key_state) is None
                    &&& base(e.key_state) == Some(Some(all[tv.len() + i - old_len]))
                    &&& written(e.key_state)
                }
            }),
            ({
                let tv = tracked_values(old(self).entries@, node_id, module_id);
                let reads = store_reads(old(self).substate_db.substates@, old(self).entries@, node_id, module_id,
                    count - tv.len(), 0);
                let before = range_read(old(self).range_reads@, node_id, module_id);
                range_read(final(self).range_reads@, node_id, module_id) == if reads > before { reads } else { before }
            }),
            forall|n: NodeId, m: ModuleId| !(n == node_id && m == module_id) ==> #[trigger] range_read(final(self).range_reads@, n, m)
                == range_read(old(self).range_reads@, n, m),
            final(self).substate_db == old(self).substate_db,
            final(self).locks@ == old(self).locks@,
            final(self).force_writes@ == old(self).force_writes@,
    {
        let ghost e0 = self.entries@;
        let ghost tv = tracked_values(e0, node_id, module_id);
        let ghost uv = untracked_values(self.substate_db.substates@, e0, node_id, module_id);
        let mut items: Vec<Vec<u8>> = Vec::new();
        let mut i: usize = 0;
        while i < self.entries.len()
            invariant
                old(self).wf(),
                i <= e0.len(),
                self.entries@.len() == e0.len(),
                tv == tracked_values(e0, node_id, module_id),
                uv == untracked_values(self.substate_db.substates@, e0, node_id, module_id),
                self.substate_db == old(self).substate_db,
                self.locks@ == old(self).locks@,
                self.next_lock_id == old(self).next_lock_id,
                self.range_reads@ == old(self).range_reads@,
                self.force_writes@ == old(self).force_writes@,
                e0 == old(self).entries@,
                addresses_unique(e0),
                items@.map_values(|v: Vec<u8>| v@) == tracked_values(e0.take(i as int), node_id, module_id),
                items@.len() <= count,
                forall|x: int| 0 <= x < e0.len() ==> is_at(#[trigger] self.entries@[x], e0[x].node_id, e0[x].module_id, e0[x].substate_key@),
                forall|x: int| 0 <= x < i ==> {
                    let e = e0[x];
                    let taken = e.node_id == node_id && e.module_id == module_id && current(e.key_state) is Some
                        && tracked_values(e0.take(x), node_id, module_id).len() < count;
                    &&& taken ==> current((#[trigger] self.entries@[x]).key_state) is None
                        && base(self.entries@[x].key_state) == base(e.key_state)
                    &&& !taken ==> self.entries@[x].key_state == e.key_state
                },
                forall|x: int| i <= x < e0.len() ==> #[trigger] self.entries@[x] == e0[x],
            decreases e0.len() - i,
        {
            if items.len() == count {
                proof {
                    lemma_tracked_prefix(e0, node_id, module_id, i as int, e0.len() as int);
                    assert(e0.take(e0.len() as int) =~= e0);
                    assert forall|x: int| i <= x < e0.len() implies tracked_values(e0.take(x), node_id, module_id).len() >= count by {
                        lemma_tracked_prefix(e0, node_id, module_id, i as int, x);
                    }
                    let t = tracked_values(e0.take(i as int), node_id, module_id);
                    assert((tv + uv).take(count as int) =~= t) by {
                        assert(tv.take(t.len() as int) == t);
                    }
                    lemma_same_addresses(self.entries@, e0, node_id, module_id, Seq::empty());
                    lemma_range_read_nonneg(self.range_reads@, node_id, module_id);
                    assert(items@.map_values(|v: Vec<u8>| v@).len() == items@.len());
                    assert(tracked_values(e0.take(i as int), node_id, module_id).len() <= tv.len());
                    assert(addresses_unique(self.entries@));
                    assert(addresses_unique(self.force_writes@));
                    assert(self.wf());
                }
                return items;
            }
            proof {
                assert(e0.take(i + 1).drop_last() =~= e0.take(i as int));
                assert(e0.take(i + 1).last() == e0[i as int]);
            }
            let ghost before = self.entries@;
            if self.entries[i].node_id == node_id && same_module(self.entries[i].module_id, module_id)
                && self.entries[i].key_state.get().is_some() {
                let taken = self.entries[i].key_state.take();
                match taken {
                    Some(v) => {
                        let ghost b = items@;
                        items.push(v);
                        proof {
                            assert(items@.map_values(|v: Vec<u8>| v@) =~= b.map_values(|v: Vec<u8>| v@).push(current(e0[i as int].key_state)->0));
                        }
                    },
                    None => {},
                }
                proof {
                    assert forall|x: int| 0 <= x < before.len() && x != i implies #[trigger] self.entries@[x] == before[x] by {}
                    assert(self.entries@[i as int].node_id == before[i as int].node_id);
                    assert(self.entries@[i as int].module_id == before[i as int].module_id);
                    assert(self.entries@[i as int].substate_key@ == before[i as int].substate_key@);
                }
            }
            i = i + 1;
        }
        proof {
            assert(e0.take(i as int) =~= e0);
        }
        let prefix = db_key_bytes(&node_id, module_id, &Vec::new());
        proof {
            assert(prefix@ =~= module_prefix(node_id, module_id));
        }
        let ghost db = self.substate_db.substates@;
        let mut added: Vec<TrackEntry> = Vec::new();
        let mut j: usize = 0;
        while j < self.substate_db.substates.len() && items.len() < count
            invariant
                old(self).wf(),
                forall|x: int| 0 <= x < e0.len() ==> {
                    let e = e0[x];
                    let taken = e.node_id == node_id && e.module_id == module_id && current(e.key_state) is Some
                        && tracked_values(e0.take(x), node_id, module_id).len() < count;
                    &&& taken ==> current((#[trigger] self.entries@[x]).key_state) is None
                        && base(self.entries@[x].key_state) == base(e.key_state)
                    &&& !taken ==> self.entries@[x].key_state == e.key_state
                },
                j <= db.len(),
                forall|x: int| 0 <= x < e0.len() ==> is_at(#[trigger] self.entries@[x], e0[x].node_id, e0[x].module_id, e0[x].substate_key@),
                self.locks@ == old(self).locks@,
                self.next_lock_id == old(self).next_lock_id,
                self.range_reads@ == old(self).range_reads@,
                self.force_writes@ == old(self).force_writes@,
                e0 == old(self).entries@,
                db == self.substate_db.substates@,
                store_reads(db, e0, node_id, module_id, count - tv.len(), 0) == store_reads(
                    db, e0, node_id, module_id, count - items@.len(), j as int),
                self.substate_db == old(self).substate_db,
                old(self).substate_db.wf(),
                prefix@ == module_prefix(node_id, module_id),
                tv == tracked_values(e0, node_id, module_id),
                uv == untracked_values(db, e0, node_id, module_id),
                addresses_unique(e0),
                self.entries@.len() == e0.len(),
                items@.map_values(|v: Vec<u8>| v@) == tv + untracked_values(db.take(j as int), e0, node_id, module_id),
                items@.len() <= count,
                added@.len() == items@.len() - tv.len(),
                forall|x: int| 0 <= x < added@.len() ==> {
                    let e = #[trigger] added@[x];
                    &&& e.node_id == node_id && e.module_id == module_id
                    &&& find(e0, node_id, module_id, e.substate_key@) < 0
                    &&& current(e.key_state) is None
                    &&& base(e.key_state) == Some(Some(items@[tv.len() + x]@))
                    &&& written(e.key_state)
                    &&& stored_before(db, j as int, node_id, module_id, e.substate_key@)
                },
                forall|a: int, b: int| 0 <= a < b < added@.len() ==> added@[a].substate_key@ != added@[b].substate_key@,
            decreases db.len() - j,
        {
            proof {
                assert(db.take(j + 1).drop_last() =~= db.take(j as int));
                assert(db.take(j + 1).last() == db[j as int]);
            }
            let k = &self.substate_db.substates[j].0;
            if starts_with(k, &prefix) {
                let sk = suffix(k, prefix.len());
                proof {
                    lemma_same_addresses(self.entries@, e0, node_id, module_id, sk@);
                }
                if position(&self.entries, node_id, module_id, &sk).is_none() {
                    let v = self.substate_db.substates[j].1.clone();
                    let ghost b = items@;
                    let ghost a0 = added@;
                    proof {
                        assert(db[j as int].0@ =~= module_prefix(node_id, module_id) + sk@);
                        assert forall|x: int| 0 <= x < a0.len() implies (#[trigger] a0[x]).substate_key@ != sk@ by {
                            assert(stored_before(db, j as int, node_id, module_id, a0[x].substate_key@));
                            let d = choose|d: int| 0 <= d < j && (#[trigger] db[d]).0@ == module_prefix(node_id, module_id) + a0[x].substate_key@;
                            if a0[x].substate_key@ == sk@ {
                                assert(db[d].0@ == db[j as int].0@);
                            }
                        }
                    }
                    added.push(TrackEntry {
                        node_id,
                        module_id,
                        substate_key: sk,
                        key_state: TrackedKey::ReadExistAndWrite(v.clone(), Write::Delete),
                    });
                    items.push(v);
                    proof {
                        assert(items@.map_values(|v: Vec<u8>| v@) =~= b.map_values(|v: Vec<u8>| v@).push(db[j as int].1@));
                        assert forall|x: int| 0 <= x < added@.len() implies stored_before(db, j + 1, node_id, module_id, (#[trigger] added@[x]).substate_key@) by {
                            if x < a0.len() {
                                assert(added@[x] == a0[x]);
                                assert(stored_before(db, j as int, node_id, module_id, a0[x].substate_key@));
                                let d = choose|d: int| 0 <= d < j && (#[trigger] db[d]).0@ == module_prefix(node_id, module_id) + a0[x].substate_key@;
                                assert(0 <= d < j + 1 && db[d].0@ == module_prefix(node_id, module_id) + added@[x].substate_key@);
                            } else {
                                assert(db[j as int].0@ == module_prefix(node_id, module_id) + added@[x].substate_key@);
                            }
                        }
                        assert forall|x: int| 0 <= x < added@.len() implies {
                            let e = #[trigger] added@[x];
                            &&& e.node_id == node_id && e.module_id == module_id
                            &&& find(e0, node_id, module_id, e.substate_key@) < 0
                            &&& current(e.key_state) is None
                            &&& base(e.key_state) == Some(Some(items@[tv.len() + x]@))
                            &&& written(e.key_state)
                        } by {
                            assert(b.len() == tv.len() + a0.len());
                            if x < a0.len() {
                                assert(added@[x] == a0[x]);
                                assert(items@[tv.len() + x] == b[tv.len() + x]);
                            } else {
                                assert(items@[tv.len() + x] == v);
                            }
                        }
                    }
                }
            }
            j = j + 1;
        }
        proof {
            let a1 = untracked_values(db.take(j as int), e0, node_id, module_id);
            lemma_untracked_prefix(db, e0, node_id, module_id, j as int, db.len() as int);
            assert(db.take(db.len() as int) =~= db);
            let all = tv + uv;
            assert forall|x: int| 0 <= x < tv.len() + a1.len() implies all[x] == (tv + a1)[x] by {
                if x >= tv.len() {
                    assert(uv.take(a1.len() as int)[x - tv.len()] == a1[x - tv.len()]);
                }
            }
            if items@.len() < count {
                assert(j == db.len());
                assert(a1 == uv);
                assert(all.take(all.len() as int) =~= all);
            } else {
                assert(all.take(count as int) =~= tv + a1);
            }
        }
        let ghost mid = self.entries@;
        proof {
            lemma_same_addresses(mid, e0, node_id, module_id, Seq::empty());
        }
        let ghost ad = added@;
        let mut added = added;
        self.entries.append(&mut added);
        let ghost es_after = self.entries@;
        self.record_range_read(node_id, module_id, j);
        proof {
            assert(self.entries@ == es_after);
        }
        proof {
            let es = self.entries@;
            assert forall|a: int, b: int| 0 <= a < b < es.len() implies !is_at(es[a], es[b].node_id, es[b].module_id, es[b].substate_key@) by {
                if b < mid.len() {
                    assert(es[a] == mid[a]);
                    assert(es[b] == mid[b]);
                } else if a < mid.len() {
                    lemma_find(e0, node_id, module_id, es[b].substate_key@);
                    assert(es[a] == mid[a]);
                    assert(is_at(mid[a], e0[a].node_id, e0[a].module_id, e0[a].substate_key@));
                } else {
                    assert(es[a].substate_key@ != es[b].substate_key@);
                }
            }
        }
        proof {
            let tvv = tracked_values(old(self).entries@, node_id, module_id);
            let all = tvv + untracked_values(old(self).substate_db.substates@, old(self).entries@, node_id, module_id);
            let n = if count <= all.len() { count as int } else { all.len() as int };
            assert(items@.map_values(|v: Vec<u8>| v@) == all.take(n));
            assert(self.entries@.len() == old(self).entries@.len() + if n > tvv.len() { n - tvv.len() } else { 0 });
            assert forall|x: int| 0 <= x < mid.len() implies #[trigger] self.entries@[x] == mid[x] by {}
            assert forall|x: int| mid.len() <= x < self.entries@.len() implies {
                let e = #[trigger] self.entries@[x];
                &&& e.node_id == node_id && e.module_id == module_id
                &&& current(e.key_state) is None
                &&& base(e.key_state) == Some(Some(all[tvv.len() + x - mid.len()]))
                &&& written(e.key_state)
            } by {
                let y = x - mid.len();
                assert(self.entries@[x] == ad[y]);
                assert(items@.map_values(|v: Vec<u8>| v@)[tvv.len() + y] == items@[tvv.len() + y]@);
            }
        }
        items
    }
}

/// The update each tracked key asks the store for, in order, by node, module and
/// substate key.
pub open spec fn system_updates_of(s: Seq<TrackEntry>) -> Seq<(NodeId, ModuleId, Seq<u8>, Option<Seq<u8>>)>
    decreases s.len(),
{
    if s.len() == 0 {
        Seq::empty()
    } else {
        let e = s.last();
        match spec_database_update(e.key_state) {
            Some(u) => system_updates_of(s.drop_last()).push((e.node_id, e.module_id, e.substate_key@, u)),
            None => system_updates_of(s.drop_last()),
        }
    }
}

pub open spec fn system_update_view(x: (NodeId, ModuleId, Vec<u8>, DatabaseUpdate)) -> (NodeId, ModuleId, Seq<u8>, Option<Seq<u8>>) {
    (x.0, x.1, x.2@, match x.3 {
        DatabaseUpdate::Put(v) => Some(v@),
        DatabaseUpdate::Delete => None,
    })
}

impl Track {
    /// The updates that persisting the transaction asks for, in the same order as
    /// `state_updates`, each by node, module and substate key.
    pub fn system_updates(&self) -> (r: Vec<(NodeId, ModuleId, Vec<u8>, DatabaseUpdate)>)
        ensures
            r@.map_values(|x: (NodeId, ModuleId, Vec<u8>, DatabaseUpdate)| system_update_view(x)) == system_updates_of(self.entries@),
    {
        let mut r: Vec<(NodeId, ModuleId, Vec<u8>, DatabaseUpdate)> = Vec::new();
        let mut i: usize = 0;
        while i < self.entries.len()
            invariant
                i <= self.entries@.len(),
                r@.map_values(|x: (NodeId, ModuleId, Vec<u8>, DatabaseUpdate)| system_update_view(x)) == system_updates_of(self.entries@.take(i as int)),
            decreases self.entries@.len() - i,
        {
            proof {
                assert(self.entries@.take(i + 1).drop_last() =~= self.entries@.take(i as int));
                assert(self.entries@.take(i + 1).last() == self.entries@[i as int]);
            }
            let e = &self.entries[i];
            match e.key_state.database_update() {
                Some(u) => {
                    let ghost r0 = r@;
                    r.push((e.node_id, e.module_id, e.substate_key.clone(), u));
                    proof {
                        assert(r@.map_values(|x: (NodeId, ModuleId, Vec<u8>, DatabaseUpdate)| system_update_view(x)) =~= r0.map_values(
                            |x: (NodeId, ModuleId, Vec<u8>, DatabaseUpdate)| system_update_view(x),
                        ).push(system_update_view(r@.last())));
                    }
                },
                None => {},
            }
            i = i + 1;
        }
        proof {
            assert(self.entries@.take(i as int) =~= self.entries@);
        }
        r
    }
}

} // verus!
