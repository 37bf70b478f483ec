//! A cell whose value is lent out under a runtime-checked borrow state.
//!
//! The state is a tagged value: unshared, shared by `n >= 1` readers, or
//! held by one writer. A reader and a writer never coexist. Each successful
//! borrow hands out a guard; giving the guard back ends the borrow.
use vstd::pervasive::arbitrary;
use vstd::prelude::*;

verus! {

/// Who currently holds the value of a cell.
#[derive(Clone, Copy, Debug, PartialEq, Eq, Structural)]
pub enum BorrowState {
    Unshared,
    Shared(u64),
    Exclusive,
}

/// A shared borrow was refused: the value is held by a writer (or the
/// reader count is exhausted).
#[derive(Debug, PartialEq, Eq)]
pub struct BorrowError {
    state: BorrowState,
}

/// An exclusive borrow was refused: the value is lent out already.
#[derive(Debug, PartialEq, Eq)]
pub struct BorrowMutError {
    state: BorrowState,
}

/// Proof of an ongoing shared borrow of one cell.
pub struct BorrowGuard {
    cell: Ghost<int>,
}

/// Proof of an ongoing exclusive borrow of one cell.
pub struct MutGuard {
    cell: Ghost<int>,
}

impl BorrowGuard {
    /// The identity of the cell that lent this guard.
    pub closed spec fn cell_id(&self) -> int {
        self.cell@
    }
}

impl MutGuard {
    /// The identity of the cell that lent this guard.
    pub closed spec fn cell_id(&self) -> int {
        self.cell@
    }
}

/// A state is consistent when a shared state counts at least one reader.
pub open spec fn state_wf(s: BorrowState) -> bool {
    match s {
        BorrowState::Shared(n) => n >= 1,
        _ => true,
    }
}

/// The state after one more shared borrow, or `None` where it is refused.
pub open spec fn borrow_next(s: BorrowState) -> Option<BorrowState> {
    match s {
        BorrowState::Unshared => Some(BorrowState::Shared(1)),
        BorrowState::Shared(n) => if n < u64::MAX {
            Some(BorrowState::Shared((n + 1) as u64))
        } else {
            None
        },
        BorrowState::Exclusive => None,
    }
}

/// The state after an exclusive borrow, or `None` where it is refused.
pub open spec fn borrow_mut_next(s: BorrowState) -> Option<BorrowState> {
    match s {
        BorrowState::Unshared => Some(BorrowState::Exclusive),
        _ => None,
    }
}

/// The state after one shared borrow ends.
pub open spec fn release_next(s: BorrowState) -> BorrowState {
    match s {
        BorrowState::Shared(n) => if n <= 1 {
            BorrowState::Unshared
        } else {
            BorrowState::Shared((n - 1) as u64)
        },
        _ => s,
    }
}

/// The state after `k` shared borrows in a row, or `None` once one of them
/// is refused.
pub open spec fn after_borrows(s: BorrowState, k: nat) -> Option<BorrowState>
    decreases k,
{
    if k == 0 {
        Some(s)
    } else {
        match after_borrows(s, (k - 1) as nat) {
            Some(t) => borrow_next(t),
            None => None,
        }
    }
}

/// The state after `k` shared borrows end.
pub open spec fn after_releases(s: BorrowState, k: nat) -> BorrowState
    decreases k,
{
    if k == 0 {
        s
    } else {
        release_next(after_releases(s, (k - 1) as nat))
    }
}

proof fn lemma_after_borrows(k: nat)
    requires
        1 <= k <= u64::MAX,
    ensures
        after_borrows(BorrowState::Unshared, k) == Some(BorrowState::Shared(k as u64)),
    decreases k,
{
    if k > 1 {
        lemma_after_borrows((k - 1) as nat);
    } else {
        assert(after_borrows(BorrowState::Unshared, 0) == Some(BorrowState::Unshared));
    }
}

proof fn lemma_after_releases(k: nat, j: nat)
    requires
        1 <= k <= u64::MAX,
        j <= k,
    ensures
        j < k ==> after_releases(BorrowState::Shared(k as u64), j) == BorrowState::Shared((k - j) as u64),
        j == k ==> after_releases(BorrowState::Shared(k as u64), j) == BorrowState::Unshared,
    decreases j,
{
    if j > 0 {
        lemma_after_releases(k, (j - 1) as nat);
    }
}

/// Readers exclude a writer. From an unshared cell, `k >= 1` shared borrows
/// in a row all succeed and leave `k` readers; as long as any of them is
/// still held an exclusive borrow is refused; once all `k` have ended the
/// cell is unshared again and an exclusive borrow succeeds.
pub proof fn law_readers_exclude_writer(k: nat)
    requires
        1 <= k <= u64::MAX,
    ensures
        after_borrows(BorrowState::Unshared, k) == Some(BorrowState::Shared(k as u64)),
        forall|j: nat| j < k ==> borrow_mut_next(#[trigger] after_releases(BorrowState::Shared(k as u64), j)) is None,
        after_releases(BorrowState::Shared(k as u64), k) == BorrowState::Unshared,
        borrow_mut_next(after_releases(BorrowState::Shared(k as u64), k)) == Some(BorrowState::Exclusive),
{
    lemma_after_borrows(k);
    lemma_after_releases(k, k);
    assert forall|j: nat| j < k implies borrow_mut_next(#[trigger] after_releases(BorrowState::Shared(k as u64), j)) is None by {
        lemma_after_releases(k, j);
    }
}

/// A value lent out under a borrow state. Each cell has a ghost identity
/// that its guards carry, and the operations that take a guard require the
/// guard's identity to be the cell's. The identity exists only in proofs
/// and is the same abstract value for every cell, which callers cannot see:
/// a verified caller can only meet that requirement with the cell's own
/// guard, while unverified code is not held to it.
pub struct Cell<T> {
    value: T,
    state: BorrowState,
    id: Ghost<int>,
}

impl<T> Cell<T> {
    pub closed spec fn state(&self) -> BorrowState {
        self.state
    }

    pub closed spec fn value(&self) -> T {
        self.value
    }

    pub closed spec fn id(&self) -> int {
        self.id@
    }

    pub open spec fn wf(&self) -> bool {
        state_wf(self.state())
    }

    /// A cell holding `value`, lent to nobody.
    pub fn new(value: T) -> (c: Cell<T>)
        ensures
            c.wf(),
            c.state() == BorrowState::Unshared,
            c.value() == value,
    {
        Cell { value, state: BorrowState::Unshared, id: Ghost(arbitrary()) }
    }

    /// The current borrow state.
    pub fn borrow_state(&self) -> (r: BorrowState)
        ensures
            r == self.state(),
    {
        self.state
    }

    /// Starts a shared borrow, unless a writer holds the value.
    pub fn try_borrow(&mut self) -> (r: Result<BorrowGuard, BorrowError>)
        requires
            old(self).wf(),
        ensures
            final(self).wf(),
            final(self).value() == old(self).value(),
            final(self).id() == old(self).id(),
            r matches Ok(g) ==> g.cell_id() == old(self).id(),
            r is Ok <==> borrow_next(old(self).state()) is Some,
            r is Ok ==> final(self).state() == borrow_next(old(self).state()).unwrap(),
            r is Err ==> final(self).state() == old(self).state(),
    {
        match self.state {
            BorrowState::Unshared => {
                self.state = BorrowState::Shared(1);
                Ok(BorrowGuard { cell: Ghost(self.id@) })
            },
            BorrowState::Shared(n) => {
                if n < u64::MAX {
                    self.state = BorrowState::Shared(n + 1);
                    Ok(BorrowGuard { cell: Ghost(self.id@) })
                } else {
                    Err(BorrowError { state: self.state })
                }
            },
            BorrowState::Exclusive => Err(BorrowError { state: self.state }),
        }
    }

    /// Starts a shared borrow; the caller must know that no writer holds
    /// the value.
    pub fn borrow(&mut self) -> (g: BorrowGuard)
        requires
            old(self).wf(),
            borrow_next(old(self).state()) is Some,
        ensures
            final(self).wf(),
            final(self).value() == old(self).value(),
            final(self).id() == old(self).id(),
            g.cell_id() == old(self).id(),
            final(self).state() == borrow_next(old(self).state()).unwrap(),
    {
        match self.try_borrow() {
            Ok(g) => g,
            Err(_) => {
                assert(false);
                BorrowGuard { cell: Ghost(self.id@) }
            },
        }
    }

    /// Starts an exclusive borrow, unless the value is lent out already.
    pub fn try_borrow_mut(&mut self) -> (r: Result<MutGuard, BorrowMutError>)
        requires
            old(self).wf(),
        ensures
            final(self).wf(),
            final(self).value() == old(self).value(),
            final(self).id() == old(self).id(),
            r matches Ok(g) ==> g.cell_id() == old(self).id(),
            r is Ok <==> borrow_mut_next(old(self).state()) is Some,
            r is Ok ==> final(self).state() == borrow_mut_next(old(self).state()).unwrap(),
            r is Err ==> final(self).state() == old(self).state(),
    {
        match self.state {
            BorrowState::Unshared => {
                self.state = BorrowState::Exclusive;
                Ok(MutGuard { cell: Ghost(self.id@) })
            },
            _ => Err(BorrowMutError { state: self.state }),
        }
    }

    /// Starts an exclusive borrow; the caller must know that the value is
    /// lent to nobody.
    pub fn borrow_mut(&mut self) -> (g: MutGuard)
        requires
            old(self).wf(),
            borrow_mut_next(old(self).state()) is Some,
        ensures
            final(self).wf(),
            final(self).value() == old(self).value(),
            final(self).id() == old(self).id(),
            g.cell_id() == old(self).id(),
            final(self).state() == BorrowState::Exclusive,
    {
        match self.try_borrow_mut() {
            Ok(g) => g,
            Err(_) => {
                assert(false);
                MutGuard { cell: Ghost(self.id@) }
            },
        }
    }

    /// Read access during a shared borrow.
    pub fn get(&self, guard: &BorrowGuard) -> (r: &T)
        requires
            guard.cell_id() == self.id(),
            self.state() is Shared,
        ensures
            *r == self.value(),
    {
        &self.value
    }

    /// Replaces the value during an exclusive borrow and returns the old one.
    pub fn replace(&mut self, guard: &MutGuard, value: T) -> (r: T)
        requires
            guard.cell_id() == old(self).id(),
            old(self).state() is Exclusive,
        ensures
            final(self).id() == old(self).id(),
            r == old(self).value(),
            final(self).value() == value,
            final(self).state() == old(self).state(),
    {
        let mut v = value;
        core::mem::swap(&mut self.value, &mut v);
        v
    }

    /// Ends a shared borrow.
    pub fn release(&mut self, guard: BorrowGuard)
        requires
            guard.cell_id() == old(self).id(),
            old(self).wf(),
            old(self).state() is Shared,
        ensures
            final(self).wf(),
            final(self).value() == old(self).value(),
            final(self).id() == old(self).id(),
            final(self).state() == release_next(old(self).state()),
    {
        match self.state {
            BorrowState::Shared(n) => {
                if n <= 1 {
                    self.state = BorrowState::Unshared;
                } else {
                    self.state = BorrowState::Shared(n - 1);
                }
            },
            _ => {},
        }
    }

    /// Ends an exclusive borrow.
    pub fn release_mut(&mut self, guard: MutGuard)
        requires
            guard.cell_id() == old(self).id(),
            old(self).state() is Exclusive,
        ensures
            final(self).id() == old(self).id(),
            final(self).wf(),
            final(self).value() == old(self).value(),
            final(self).state() == BorrowState::Unshared,
    {
        self.state = BorrowState::Unshared;
    }

    /// Takes the value out of a cell that nobody borrows.
    pub fn into_inner(self) -> (r: T)
        requires
            self.state() is Unshared,
        ensures
            r == self.value(),
    {
        self.value
    }
}

} // verus!
