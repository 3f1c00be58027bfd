use vstd::prelude::*;

verus! {

/// A lock could not be taken on a substate.
#[derive(Clone, Copy, Debug, PartialEq, Eq, Structural)]
pub struct SubstateLockError {}

/// The flags a substate lock is asked for with.
#[derive(Clone, Copy, Debug, PartialEq, Eq, Structural)]
pub struct LockFlags {
    pub mutable: bool,
    /// Fails where the substate has been changed in this transaction.
    pub unmodified_base: bool,
    /// The value at release survives a revert (used to charge fees).
    pub force_write: bool,
}

impl LockFlags {
    pub fn read_only() -> (r: LockFlags)
        ensures
            !r.mutable && !r.unmodified_base && !r.force_write,
    {
        LockFlags { mutable: false, unmodified_base: false, force_write: false }
    }

    pub fn mutable() -> (r: LockFlags)
        ensures
            r.mutable && !r.unmodified_base && !r.force_write,
    {
        LockFlags { mutable: true, unmodified_base: false, force_write: false }
    }
}

/// Any number of readers, or one writer.
#[derive(Clone, Copy, Debug, PartialEq, Eq, Structural)]
pub enum SubstateLockState {
    Read(usize),
    Write,
}

impl SubstateLockState {
    pub fn no_lock() -> (r: SubstateLockState)
        ensures
            r == SubstateLockState::Read(0),
    {
        SubstateLockState::Read(0)
    }

    pub fn is_locked(&self) -> (r: bool)
        ensures
            r == (*self != SubstateLockState::Read(0)),
    {
        match self {
            SubstateLockState::Read(n) => *n != 0,
            SubstateLockState::Write => true,
        }
    }

    /// Takes a read lock, or the write lock where `flags` asks for a mutable one.
    pub fn try_lock(&mut self, flags: LockFlags) -> (r: Result<(), SubstateLockError>)
        ensures
            match *old(self) {
                SubstateLockState::Write => r is Err && *final(self) == *old(self),
                SubstateLockState::Read(n) => if flags.mutable {
                    if n == 0 {
                        r is Ok && *final(self) == SubstateLockState::Write
                    } else {
                        r is Err && *final(self) == *old(self)
                    }
                } else if n < usize::MAX {
                    r is Ok && *final(self) == SubstateLockState::Read((n + 1) as usize)
                } else {
                    r is Err && *final(self) == *old(self)
                },
            },
    {
        match *self {
            SubstateLockState::Read(n) => {
                if flags.mutable {
                    if n != 0 {
                        return Err(SubstateLockError {  });
                    }
                    *self = SubstateLockState::Write;
                } else {
                    if n == usize::MAX {
                        return Err(SubstateLockError {  });
                    }
                    *self = SubstateLockState::Read(n + 1);
                }
            },
            SubstateLockState::Write => {
                return Err(SubstateLockError {  });
            },
        }
        Ok(())
    }

    /// Releases one lock.
    pub fn unlock(&mut self)
        requires
            *old(self) != SubstateLockState::Read(0),
        ensures
            match *old(self) {
                SubstateLockState::Write => *final(self) == SubstateLockState::Read(0),
                SubstateLockState::Read(n) => *final(self) == SubstateLockState::Read((n - 1) as usize),
            },
    {
        match *self {
            SubstateLockState::Read(n) => {
                *self = SubstateLockState::Read(n - 1);
            },
            SubstateLockState::Write => {
                *self = SubstateLockState::Read(0);
            },
        }
    }
}

/// A substate value held in the overlay, with its lock.
#[derive(Clone, Debug)]
pub struct RuntimeSubstate {
    pub value: Vec<u8>,
    pub lock_state: SubstateLockState,
}

impl RuntimeSubstate {
    pub fn new(value: Vec<u8>) -> (r: RuntimeSubstate)
        ensures
            r.value@ == value@,
            r.lock_state == SubstateLockState::Read(0),
    {
        RuntimeSubstate { value, lock_state: SubstateLockState::Read(0) }
    }
}

/// What a read of the backing store found.
#[derive(Clone, Debug)]
pub enum ReadOnly {
    NonExistent,
    Existent(RuntimeSubstate),
}

/// A write buffered in the overlay.
#[derive(Clone, Debug)]
pub enum Write {
    Update(RuntimeSubstate),
    Delete,
}

impl Write {
    pub fn into_value(self) -> (r: Option<Vec<u8>>)
        ensures
            match self {
                Write::Update(s) => r matches Some(v) && v@ == s.value@,
                Write::Delete => r is None,
            },
    {
        match self {
            Write::Update(substate) => Some(substate.value),
            Write::Delete => None,
        }
    }
}

/// The overlay's state of one substate key.
#[derive(Clone, Debug)]
pub enum TrackedKey {
    /// Created in this transaction.
    New(RuntimeSubstate),
    /// Read from the store and not written.
    ReadOnly(ReadOnly),
    /// Read as existing (the first field), then written.
    ReadExistAndWrite(Vec<u8>, Write),
    /// Read as absent, then set.
    ReadNonExistAndWrite(RuntimeSubstate),
    /// Written without a read.
    WriteOnly(Write),
    /// Created and removed again in this transaction: nothing to persist.
    Garbage,
}

/// A database update for one key.
#[derive(Clone, Debug)]
pub enum DatabaseUpdate {
    Put(Vec<u8>),
    Delete,
}

/// Whether taking a lock with `flags` on a value locked as `l` gives `after` and `r`.
pub open spec fn lock_taken(
    l: SubstateLockState,
    flags: LockFlags,
    after: Option<SubstateLockState>,
    r: Result<(), SubstateLockError>,
) -> bool {
    match l {
        SubstateLockState::Write => r is Err && after == Some(l),
        SubstateLockState::Read(n) => if flags.mutable {
            if n == 0 {
                r is Ok && after == Some(SubstateLockState::Write)
            } else {
                r is Err && after == Some(l)
            }
        } else if n < usize::MAX {
            r is Ok && after == Some(SubstateLockState::Read((n + 1) as usize))
        } else {
            r is Err && after == Some(l)
        },
    }
}

/// The lock left after releasing one lock of `l`.
pub open spec fn lock_released(l: SubstateLockState) -> SubstateLockState {
    match l {
        SubstateLockState::Write => SubstateLockState::Read(0),
        SubstateLockState::Read(n) => SubstateLockState::Read((n - 1) as usize),
    }
}

/// The value that a key currently has in the overlay, if any.
pub open spec fn current(t: TrackedKey) -> Option<Seq<u8>> {
    match t {
        TrackedKey::New(s) => Some(s.value@),
        TrackedKey::ReadOnly(ReadOnly::Existent(s)) => Some(s.value@),
        TrackedKey::ReadExistAndWrite(_, Write::Update(s)) => Some(s.value@),
        TrackedKey::ReadNonExistAndWrite(s) => Some(s.value@),
        TrackedKey::WriteOnly(Write::Update(s)) => Some(s.value@),
        _ => None,
    }
}

/// What the backing store held for the key when it was read: `None` where it was
/// never read, `Some(None)` where it was read as absent.
pub open spec fn base(t: TrackedKey) -> Option<Option<Seq<u8>>> {
    match t {
        TrackedKey::ReadOnly(ReadOnly::Existent(s)) => Some(Some(s.value@)),
        TrackedKey::ReadOnly(ReadOnly::NonExistent) => Some(None),
        TrackedKey::ReadExistAndWrite(b, _) => Some(Some(b@)),
        TrackedKey::ReadNonExistAndWrite(_) => Some(None),
        _ => None,
    }
}

/// Whether the key carries a write of this transaction to an existing key space.
pub open spec fn written(t: TrackedKey) -> bool {
    match t {
        TrackedKey::ReadExistAndWrite(..) | TrackedKey::ReadNonExistAndWrite(_)
        | TrackedKey::WriteOnly(_) => true,
        _ => false,
    }
}

pub open spec fn is_new(t: TrackedKey) -> bool {
    t is New
}

/// The lock on the key's current value, where it has one.
pub open spec fn lock_of(t: TrackedKey) -> Option<SubstateLockState> {
    match t {
        TrackedKey::New(s) => Some(s.lock_state),
        TrackedKey::ReadOnly(ReadOnly::Existent(s)) => Some(s.lock_state),
        TrackedKey::ReadExistAndWrite(_, Write::Update(s)) => Some(s.lock_state),
        TrackedKey::ReadNonExistAndWrite(s) => Some(s.lock_state),
        TrackedKey::WriteOnly(Write::Update(s)) => Some(s.lock_state),
        _ => None,
    }
}

/// The update that persisting the key requires, if any.
pub open spec fn spec_database_update(t: TrackedKey) -> Option<Option<Seq<u8>>> {
    if written(t) || is_new(t) {
        Some(current(t))
    } else {
        None
    }
}

impl TrackedKey {
    /// The key's current value, if it has one.
    pub fn get(&self) -> (r: Option<&Vec<u8>>)
        ensures
            r is Some == current(*self) is Some,
            r matches Some(v) ==> current(*self) == Some(v@),
    {
        match self {
            TrackedKey::New(substate) => Some(&substate.value),
            TrackedKey::WriteOnly(Write::Update(substate)) => Some(&substate.value),
            TrackedKey::ReadOnly(ReadOnly::Existent(substate)) => Some(&substate.value),
            TrackedKey::ReadExistAndWrite(_, Write::Update(substate)) => Some(&substate.value),
            TrackedKey::ReadNonExistAndWrite(substate) => Some(&substate.value),
            _ => None,
        }
    }

    /// The lock on the key's current value, where it has one.
    pub fn lock_state(&self) -> (r: Option<SubstateLockState>)
        ensures
            r == lock_of(*self),
    {
        match self {
            TrackedKey::New(substate) => Some(substate.lock_state),
            TrackedKey::WriteOnly(Write::Update(substate)) => Some(substate.lock_state),
            TrackedKey::ReadOnly(ReadOnly::Existent(substate)) => Some(substate.lock_state),
            TrackedKey::ReadExistAndWrite(_, Write::Update(substate)) => Some(substate.lock_state),
            TrackedKey::ReadNonExistAndWrite(substate) => Some(substate.lock_state),
            _ => None,
        }
    }

    /// Gives the key the value `value`; a key that had a value keeps its lock.
    pub fn set(&mut self, value: Vec<u8>)
        ensures
            current(*final(self)) == Some(value@),
            base(*final(self)) == base(*old(self)),
            is_new(*final(self)) == is_new(*old(self)),
            written(*final(self)) == !is_new(*old(self)),
            lock_of(*final(self)) == if lock_of(*old(self)) is Some {
                lock_of(*old(self))
            } else {
                Some(SubstateLockState::Read(0))
            },
    {
        let next = match self {
            TrackedKey::Garbage => TrackedKey::WriteOnly(Write::Update(RuntimeSubstate::new(value))),
            TrackedKey::New(substate) => TrackedKey::New(
                RuntimeSubstate { value, lock_state: substate.lock_state },
            ),
            TrackedKey::WriteOnly(Write::Update(substate)) => TrackedKey::WriteOnly(
                Write::Update(RuntimeSubstate { value, lock_state: substate.lock_state }),
            ),
            TrackedKey::ReadExistAndWrite(b, Write::Update(substate)) => TrackedKey::ReadExistAndWrite(
                b.clone(),
                Write::Update(RuntimeSubstate { value, lock_state: substate.lock_state }),
            ),
            TrackedKey::ReadNonExistAndWrite(substate) => TrackedKey::ReadNonExistAndWrite(
                RuntimeSubstate { value, lock_state: substate.lock_state },
            ),
            TrackedKey::ReadOnly(ReadOnly::NonExistent) => TrackedKey::ReadNonExistAndWrite(
                RuntimeSubstate::new(value),
            ),
            TrackedKey::ReadOnly(ReadOnly::Existent(old)) => TrackedKey::ReadExistAndWrite(
                old.value.clone(),
                Write::Update(RuntimeSubstate { value, lock_state: old.lock_state }),
            ),
            TrackedKey::ReadExistAndWrite(b, Write::Delete) => TrackedKey::ReadExistAndWrite(
                b.clone(),
                Write::Update(RuntimeSubstate::new(value)),
            ),
            TrackedKey::WriteOnly(Write::Delete) => TrackedKey::WriteOnly(
                Write::Update(RuntimeSubstate::new(value)),
            ),
        };
        *self = next;
    }

    /// Removes the key's value and returns it.
    pub fn take(&mut self) -> (r: Option<Vec<u8>>)
        ensures
            r is Some == current(*old(self)) is Some,
            r matches Some(v) ==> current(*old(self)) == Some(v@),
            current(*final(self)) is None,
            base(*final(self)) == base(*old(self)),
            !is_new(*final(self)),
            written(*final(self)) == (base(*old(self)) matches Some(Some(_)) || (base(*old(self)) is None
                && written(*old(self)))),
    {
        let (next, r) = match self {
            TrackedKey::Garbage => (TrackedKey::Garbage, None),
            TrackedKey::New(substate) => (TrackedKey::Garbage, Some(substate.value.clone())),
            TrackedKey::WriteOnly(Write::Update(substate)) => (
                TrackedKey::WriteOnly(Write::Delete),
                Some(substate.value.clone()),
            ),
            TrackedKey::WriteOnly(Write::Delete) => (TrackedKey::WriteOnly(Write::Delete), None),
            TrackedKey::ReadExistAndWrite(b, Write::Update(substate)) => (
                TrackedKey::ReadExistAndWrite(b.clone(), Write::Delete),
                Some(substate.value.clone()),
            ),
            TrackedKey::ReadExistAndWrite(b, Write::Delete) => (
                TrackedKey::ReadExistAndWrite(b.clone(), Write::Delete),
                None,
            ),
            TrackedKey::ReadNonExistAndWrite(substate) => (
                TrackedKey::ReadOnly(ReadOnly::NonExistent),
                Some(substate.value.clone()),
            ),
            TrackedKey::ReadOnly(ReadOnly::Existent(v)) => (
                TrackedKey::ReadExistAndWrite(v.value.clone(), Write::Delete),
                Some(v.value.clone()),
            ),
            TrackedKey::ReadOnly(ReadOnly::NonExistent) => (
                TrackedKey::ReadOnly(ReadOnly::NonExistent),
                None,
            ),
        };
        *self = next;
        r
    }

    /// Drops the writes of this transaction, keeping what was read from the store.
    pub fn revert_writes(&mut self)
        ensures
            current(*final(self)) == match base(*old(self)) {
                Some(Some(b)) => Some(b),
                _ => None,
            },
            base(*final(self)) == base(*old(self)),
            !written(*final(self)),
            !is_new(*final(self)),
            lock_of(*final(self)) == if !written(*old(self)) && !is_new(*old(self)) {
                lock_of(*old(self))
            } else if base(*old(self)) matches Some(Some(_)) {
                Some(SubstateLockState::Read(0))
            } else {
                None
            },
    {
        let next = match self {
            TrackedKey::ReadOnly(ReadOnly::Existent(s)) => TrackedKey::ReadOnly(
                ReadOnly::Existent(RuntimeSubstate { value: s.value.clone(), lock_state: s.lock_state }),
            ),
            TrackedKey::ReadOnly(ReadOnly::NonExistent) => TrackedKey::ReadOnly(ReadOnly::NonExistent),
            TrackedKey::Garbage | TrackedKey::New(..) | TrackedKey::WriteOnly(_) => TrackedKey::Garbage,
            TrackedKey::ReadExistAndWrite(read, _) => TrackedKey::ReadOnly(
                ReadOnly::Existent(RuntimeSubstate::new(read.clone())),
            ),
            TrackedKey::ReadNonExistAndWrite(..) => TrackedKey::ReadOnly(ReadOnly::NonExistent),
        };
        *self = next;
    }

    /// Takes a lock on the key's current value; fails where it has none or the
    /// lock conflicts.
    pub fn lock(&mut self, flags: LockFlags) -> (r: Result<(), SubstateLockError>)
        ensures
            current(*final(self)) == current(*old(self)),
            base(*final(self)) == base(*old(self)),
            written(*final(self)) == written(*old(self)),
            is_new(*final(self)) == is_new(*old(self)),
            lock_of(*old(self)) is None ==> r is Err && lock_of(*final(self)) is None,
            lock_of(*old(self)) matches Some(l) ==> lock_taken(l, flags, lock_of(*final(self)), r),
    {
        match self {
            TrackedKey::New(s) => s.lock_state.try_lock(flags),
            TrackedKey::WriteOnly(Write::Update(s)) => s.lock_state.try_lock(flags),
            TrackedKey::ReadOnly(ReadOnly::Existent(s)) => s.lock_state.try_lock(flags),
            TrackedKey::ReadExistAndWrite(_, Write::Update(s)) => s.lock_state.try_lock(flags),
            TrackedKey::ReadNonExistAndWrite(s) => s.lock_state.try_lock(flags),
            _ => Err(SubstateLockError {  }),
        }
    }

    /// Releases one lock on the key's current value.
    pub fn unlock(&mut self)
        requires
            lock_of(*old(self)) matches Some(l) && l != SubstateLockState::Read(0),
        ensures
            current(*final(self)) == current(*old(self)),
            base(*final(self)) == base(*old(self)),
            written(*final(self)) == written(*old(self)),
            is_new(*final(self)) == is_new(*old(self)),
            lock_of(*final(self)) == Some(lock_released(lock_of(*old(self))->0)),
    {
        match self {
            TrackedKey::New(s) => s.lock_state.unlock(),
            TrackedKey::WriteOnly(Write::Update(s)) => s.lock_state.unlock(),
            TrackedKey::ReadOnly(ReadOnly::Existent(s)) => s.lock_state.unlock(),
            TrackedKey::ReadExistAndWrite(_, Write::Update(s)) => s.lock_state.unlock(),
            TrackedKey::ReadNonExistAndWrite(s) => s.lock_state.unlock(),
            _ => {},
        }
    }

    /// The key's value, consuming the tracked state.
    pub fn into_value(self) -> (r: Option<Vec<u8>>)
        ensures
            r is Some == current(self) is Some,
            r matches Some(v) ==> current(self) == Some(v@),
    {
        match self {
            TrackedKey::New(substate) => Some(substate.value),
            TrackedKey::WriteOnly(Write::Update(substate)) => Some(substate.value),
            TrackedKey::ReadOnly(ReadOnly::Existent(substate)) => Some(substate.value),
            TrackedKey::ReadNonExistAndWrite(substate) => Some(substate.value),
            TrackedKey::ReadExistAndWrite(_, Write::Update(substate)) => Some(substate.value),
            _ => None,
        }
    }

    /// The update persisting this key needs: nothing for a key only read or
    /// created and removed again; otherwise a set of its value or a delete.
    pub fn database_update(&self) -> (r: Option<DatabaseUpdate>)
        ensures
            r is None == spec_database_update(*self) is None,
            r matches Some(DatabaseUpdate::Put(v)) ==> spec_database_update(*self) == Some(Some(v@)),
            r matches Some(DatabaseUpdate::Delete) ==> spec_database_update(*self) == Some(None::<Seq<u8>>),
    {
        match self {
            TrackedKey::ReadOnly(..) | TrackedKey::Garbage => None,
            TrackedKey::ReadNonExistAndWrite(substate) | TrackedKey::New(substate) => Some(
                DatabaseUpdate::Put(substate.value.clone()),
            ),
            TrackedKey::ReadExistAndWrite(_, Write::Update(substate))
            | TrackedKey::WriteOnly(Write::Update(substate)) => Some(DatabaseUpdate::Put(substate.value.clone())),
            TrackedKey::ReadExistAndWrite(_, Write::Delete) | TrackedKey::WriteOnly(Write::Delete) => Some(
                DatabaseUpdate::Delete,
            ),
        }
    }
}


/// The module of a node that a substate belongs to.
#[derive(Clone, Copy, Debug, PartialEq, Eq, Structural)]
pub enum ModuleId {
    TypeInfo,
    Object,
    Metadata,
    Royalty,
    AccessRules,
    Virtualized,
}

/// Whether `t` is what reverting the writes of `old_t` gives.
pub open spec fn reverted_from(t: TrackedKey, old_t: TrackedKey) -> bool {
    &&& current(t) == match base(old_t) {
        Some(Some(b)) => Some(b),
        _ => None,
    }
    &&& base(t) == base(old_t)
    &&& !written(t)
    &&& !is_new(t)
    &&& lock_of(t) == if !written(old_t) && !is_new(old_t) {
        lock_of(old_t)
    } else if base(old_t) matches Some(Some(_)) {
        Some(SubstateLockState::Read(0))
    } else {
        None
    }
}

/// Whether two tracked keys are in the same state.
pub open spec fn same_state(a: TrackedKey, b: TrackedKey) -> bool {
    &&& current(a) == current(b)
    &&& base(a) == base(b)
    &&& written(a) == written(b)
    &&& is_new(a) == is_new(b)
    &&& lock_of(a) == lock_of(b)
}

/// Whether two byte strings are equal.
pub fn bytes_eq(a: &Vec<u8>, b: &Vec<u8>) -> (r: bool)
    ensures
        r == (a@ == b@),
{
    if a.len() != b.len() {
        return false;
    }
    let mut i: usize = 0;
    while i < a.len()
        invariant
            a@.len() == b@.len(),
            i <= a@.len(),
            forall|j: int| 0 <= j < i ==> a@[j] == b@[j],
        decreases a@.len() - i,
    {
        if a[i] != b[i] {
            return false;
        }
        i = i + 1;
    }
    assert(a@ =~= b@);
    true
}

impl TrackedKey {
    /// A copy of this tracked key in the same state.
    pub fn duplicate(&self) -> (r: TrackedKey)
        ensures
            same_state(r, *self),
    {
        match self {
            TrackedKey::New(s) => TrackedKey::New(
                RuntimeSubstate { value: s.value.clone(), lock_state: s.lock_state },
            ),
            TrackedKey::ReadOnly(ReadOnly::NonExistent) => TrackedKey::ReadOnly(ReadOnly::NonExistent),
            TrackedKey::ReadOnly(ReadOnly::Existent(s)) => TrackedKey::ReadOnly(
                ReadOnly::Existent(RuntimeSubstate { value: s.value.clone(), lock_state: s.lock_state }),
            ),
            TrackedKey::ReadExistAndWrite(b, Write::Update(s)) => TrackedKey::ReadExistAndWrite(
                b.clone(),
                Write::Update(RuntimeSubstate { value: s.value.clone(), lock_state: s.lock_state }),
            ),
            TrackedKey::ReadExistAndWrite(b, Write::Delete) => TrackedKey::ReadExistAndWrite(
                b.clone(),
                Write::Delete,
            ),
            TrackedKey::ReadNonExistAndWrite(s) => TrackedKey::ReadNonExistAndWrite(
                RuntimeSubstate { value: s.value.clone(), lock_state: s.lock_state },
            ),
            TrackedKey::WriteOnly(Write::Update(s)) => TrackedKey::WriteOnly(
                Write::Update(RuntimeSubstate { value: s.value.clone(), lock_state: s.lock_state }),
            ),
            TrackedKey::WriteOnly(Write::Delete) => TrackedKey::WriteOnly(Write::Delete),
            TrackedKey::Garbage => TrackedKey::Garbage,
        }
    }
}

} // verus!
