//! The registry of resource stores: which stores exist and how each of them
//! is borrowed at the moment.
//!
//! Every resource type has one store. A store comes into being the first time
//! it is asked for. Any number of readers may hold a store at once, or a
//! single writer; stores of different types never stand in each other's way.
use vstd::prelude::*;

verus! {

/// The resource types that have a store.
#[derive(Clone, Copy, Debug, PartialEq, Eq, Structural)]
pub enum ResourceKind {
    Node,
    Geometry,
    Material,
    Texture,
    Camera,
    Mesh,
    Scene,
    Attribute,
    Index,
    Sampler,
    MaterialNode,
}

/// Number of resource types.
pub const KINDS: usize = 11;

impl ResourceKind {
    /// Position of the store of this type in the registry.
    pub open spec fn slot(self) -> int {
        match self {
            ResourceKind::Node => 0,
            ResourceKind::Geometry => 1,
            ResourceKind::Material => 2,
            ResourceKind::Texture => 3,
            ResourceKind::Camera => 4,
            ResourceKind::Mesh => 5,
            ResourceKind::Scene => 6,
            ResourceKind::Attribute => 7,
            ResourceKind::Index => 8,
            ResourceKind::Sampler => 9,
            ResourceKind::MaterialNode => 10,
        }
    }

    /// Position of the store of this type in the registry.
    pub fn index(self) -> (r: usize)
        ensures
            r == self.slot(),
            r < KINDS,
    {
        match self {
            ResourceKind::Node => 0,
            ResourceKind::Geometry => 1,
            ResourceKind::Material => 2,
            ResourceKind::Texture => 3,
            ResourceKind::Camera => 4,
            ResourceKind::Mesh => 5,
            ResourceKind::Scene => 6,
            ResourceKind::Attribute => 7,
            ResourceKind::Index => 8,
            ResourceKind::Sampler => 9,
            ResourceKind::MaterialNode => 10,
        }
    }
}

/// Different types have different positions.
pub proof fn lemma_slots_distinct(a: ResourceKind, b: ResourceKind)
    ensures
        0 <= a.slot() < KINDS,
        a.slot() == b.slot() <==> a == b,
{
}

/// How a store stands: not created yet, free, held by a number of readers,
/// or held by one writer.
#[derive(Clone, Copy, Debug, PartialEq, Eq, Structural)]
pub enum StoreState {
    Absent,
    Idle,
    Shared(usize),
    Exclusive,
}

/// Why a borrow or a release was refused.
#[derive(Clone, Copy, Debug, PartialEq, Eq, Structural)]
pub enum BorrowError {
    /// A writer holds the store, or a writer asked while anyone holds it.
    Conflict,
    /// The count of readers cannot grow any more.
    TooManyReaders,
    /// There is no borrow of the asked sort to give back.
    NotBorrowed,
}

impl StoreState {
    /// A state the registry can be in: a reader count is never zero.
    pub open spec fn valid(self) -> bool {
        match self {
            StoreState::Shared(readers) => readers >= 1,
            _ => true,
        }
    }

    /// What a request for shared access answers, and the state it leaves.
    pub open spec fn share(self) -> (Result<(), BorrowError>, StoreState) {
        match self {
            StoreState::Absent | StoreState::Idle => (Ok(()), StoreState::Shared(1)),
            StoreState::Shared(readers) => if readers < usize::MAX {
                (Ok(()), StoreState::Shared((readers + 1) as usize))
            } else {
                (Err(BorrowError::TooManyReaders), self)
            },
            StoreState::Exclusive => (Err(BorrowError::Conflict), self),
        }
    }

    /// What a request for exclusive access answers, and the state it leaves.
    /// A store that was not there is created by the request even where the
    /// request itself cannot fail on it.
    pub open spec fn lock(self) -> (Result<(), BorrowError>, StoreState) {
        match self {
            StoreState::Absent | StoreState::Idle => (Ok(()), StoreState::Exclusive),
            _ => (Err(BorrowError::Conflict), self),
        }
    }

    /// What giving back one shared access answers, and the state it leaves.
    pub open spec fn unshare(self) -> (Result<(), BorrowError>, StoreState) {
        match self {
            StoreState::Shared(readers) => if readers <= 1 {
                (Ok(()), StoreState::Idle)
            } else {
                (Ok(()), StoreState::Shared((readers - 1) as usize))
            },
            _ => (Err(BorrowError::NotBorrowed), self),
        }
    }

    /// What giving back the exclusive access answers, and the state it
    /// leaves.
    pub open spec fn unlock(self) -> (Result<(), BorrowError>, StoreState) {
        match self {
            StoreState::Exclusive => (Ok(()), StoreState::Idle),
            _ => (Err(BorrowError::NotBorrowed), self),
        }
    }

    /// The state after the store was asked for: created if it was not there.
    pub open spec fn touch(self) -> StoreState {
        match self {
            StoreState::Absent => StoreState::Idle,
            _ => self,
        }
    }
}

/// The registry: the state of the store of every resource type.
pub struct ResourcePools {
    stores: Vec<StoreState>,
}

impl View for ResourcePools {
    type V = Seq<StoreState>;

    closed spec fn view(&self) -> Seq<StoreState> {
        self.stores@
    }
}

impl ResourcePools {
    /// There is one valid state per resource type.
    pub open spec fn wf(&self) -> bool {
        &&& self@.len() == KINDS
        &&& forall|i: int| 0 <= i < KINDS ==> (#[trigger] self@[i]).valid()
    }

    /// The state of the store of type `kind`.
    pub open spec fn state_of(&self, kind: ResourceKind) -> StoreState {
        self@[kind.slot()]
    }

    /// Creates a registry in which no store exists yet.
    pub fn new() -> (pools: Self)
        ensures
            pools.wf(),
            pools@ == Seq::new(KINDS as nat, |i: int| StoreState::Absent),
    {
        let mut stores: Vec<StoreState> = Vec::new();
        let mut i: usize = 0;
        while i < KINDS
            invariant
                i <= KINDS,
                stores.len() == i,
                forall|j: int| 0 <= j < i ==> stores@[j] == StoreState::Absent,
            decreases KINDS - i,
        {
            stores.push(StoreState::Absent);
            i = i + 1;
        }
        assert(stores@ =~= Seq::new(KINDS as nat, |i: int| StoreState::Absent));
        ResourcePools { stores }
    }

    /// How the store of type `kind` stands.
    pub fn state(&self, kind: ResourceKind) -> (r: StoreState)
        requires
            self.wf(),
        ensures
            r == self.state_of(kind),
    {
        self.stores[kind.index()]
    }

    /// Writes the state of one store and leaves all others alone.
    fn put(&mut self, kind: ResourceKind, state: StoreState)
        requires
            old(self).wf(),
            state.valid(),
        ensures
            final(self).wf(),
            final(self)@ == old(self)@.update(kind.slot(), state),
    {
        let index = kind.index();
        self.stores[index] = state;
    }

    /// Makes sure the store of type `kind` exists: it is created, free, the
    /// first time it is asked for, and left as it is afterwards.
    pub fn store_for(&mut self, kind: ResourceKind) -> (created: bool)
        requires
            old(self).wf(),
        ensures
            final(self).wf(),
            final(self)@ == old(self)@.update(kind.slot(), old(self).state_of(kind).touch()),
            created == (old(self).state_of(kind) == StoreState::Absent),
    {
        match self.state(kind) {
            StoreState::Absent => {
                self.put(kind, StoreState::Idle);
                true
            },
            _ => {
                assert(self@ =~= old(self)@.update(kind.slot(), old(self).state_of(kind).touch()));
                false
            },
        }
    }

    /// Asks for shared access to the store of type `kind`. Granted unless a
    /// writer holds the store; readers already there do not matter.
    pub fn borrow(&mut self, kind: ResourceKind) -> (r: Result<(), BorrowError>)
        requires
            old(self).wf(),
        ensures
            final(self).wf(),
            r == old(self).state_of(kind).share().0,
            final(self)@ == old(self)@.update(kind.slot(), old(self).state_of(kind).share().1),
    {
        match self.state(kind) {
            StoreState::Absent | StoreState::Idle => {
                self.put(kind, StoreState::Shared(1));
                Ok(())
            },
            StoreState::Shared(readers) => {
                if readers < usize::MAX {
                    self.put(kind, StoreState::Shared(readers + 1));
                    Ok(())
                } else {
                    assert(self@ =~= old(self)@.update(kind.slot(), old(self).state_of(kind)));
                    Err(BorrowError::TooManyReaders)
                }
            },
            StoreState::Exclusive => {
                assert(self@ =~= old(self)@.update(kind.slot(), old(self).state_of(kind)));
                Err(BorrowError::Conflict)
            },
        }
    }

    /// Asks for exclusive access to the store of type `kind`. Granted only
    /// while nobody holds the store.
    pub fn borrow_mut(&mut self, kind: ResourceKind) -> (r: Result<(), BorrowError>)
        requires
            old(self).wf(),
        ensures
            final(self).wf(),
            r == old(self).state_of(kind).lock().0,
            final(self)@ == old(self)@.update(kind.slot(), old(self).state_of(kind).lock().1),
    {
        match self.state(kind) {
            StoreState::Absent | StoreState::Idle => {
                self.put(kind, StoreState::Exclusive);
                Ok(())
            },
            _ => {
                assert(self@ =~= old(self)@.update(kind.slot(), old(self).state_of(kind)));
                Err(BorrowError::Conflict)
            },
        }
    }

    /// Gives back one shared access to the store of type `kind`.
    pub fn release(&mut self, kind: ResourceKind) -> (r: Result<(), BorrowError>)
        requires
            old(self).wf(),
        ensures
            final(self).wf(),
            r == old(self).state_of(kind).unshare().0,
            final(self)@ == old(self)@.update(kind.slot(), old(self).state_of(kind).unshare().1),
    {
        match self.state(kind) {
            StoreState::Shared(readers) => {
                if readers <= 1 {
                    self.put(kind, StoreState::Idle);
                } else {
                    self.put(kind, StoreState::Shared(readers - 1));
                }
                Ok(())
            },
            _ => {
                assert(self@ =~= old(self)@.update(kind.slot(), old(self).state_of(kind)));
                Err(BorrowError::NotBorrowed)
            },
        }
    }

    /// Gives back the exclusive access to the store of type `kind`.
    pub fn release_mut(&mut self, kind: ResourceKind) -> (r: Result<(), BorrowError>)
        requires
            old(self).wf(),
        ensures
            final(self).wf(),
            r == old(self).state_of(kind).unlock().0,
            final(self)@ == old(self)@.update(kind.slot(), old(self).state_of(kind).unlock().1),
    {
        match self.state(kind) {
            StoreState::Exclusive => {
                self.put(kind, StoreState::Idle);
                Ok(())
            },
            _ => {
                assert(self@ =~= old(self)@.update(kind.slot(), old(self).state_of(kind)));
                Err(BorrowError::NotBorrowed)
            },
        }
    }
}

/// A request on the store of one type leaves the stores of all other types
/// as they are: borrows of different types never conflict.
pub proof fn lemma_other_stores_untouched(
    before: Seq<StoreState>,
    kind: ResourceKind,
    state: StoreState,
    other: ResourceKind,
)
    requires
        before.len() == KINDS,
        other != kind,
    ensures
        before.update(kind.slot(), state)[other.slot()] == before[other.slot()],
        before.update(kind.slot(), state)[kind.slot()] == state,
{
}

/// Readers do not exclude each other, and a writer excludes and is excluded
/// by everyone: after a granted shared access a further shared access is
/// granted and an exclusive one refused; after a granted exclusive access
/// both are refused.
pub proof fn lemma_shared_xor_exclusive(state: StoreState)
    requires
        state.valid(),
    ensures
        state.share().0.is_ok() ==> state.share().1.lock().0 == Err::<(), BorrowError>(
            BorrowError::Conflict,
        ),
        state.share().0.is_ok() ==> state.share().1.share().0 != Err::<(), BorrowError>(
            BorrowError::Conflict,
        ),
        state.lock().0.is_ok() ==> state.lock().1.lock().0 == Err::<(), BorrowError>(
            BorrowError::Conflict,
        ),
        state.lock().0.is_ok() ==> state.lock().1.share().0 == Err::<(), BorrowError>(
            BorrowError::Conflict,
        ),
        state.share().0.is_ok() ==> state.share().1.unshare() == (Ok::<(), BorrowError>(()), state.touch()),
        state.lock().0.is_ok() ==> state.lock().1.unlock() == (Ok::<(), BorrowError>(()), state.touch()),
{
}

} // verus!
