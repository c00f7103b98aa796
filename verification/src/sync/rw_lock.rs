//! A basic read-write lock using spin locking.
//!
//! The lock word holds the writer bit in its lowest bit and the number of readers above
//! it.
use vstd::prelude::*;

use std::sync::atomic::AtomicUsize;

verus! {

/// The bit of the lock word that a writer holds.
pub const WRITE_BIT: usize = 0b1;

/// What an entering reader adds to the lock word.
pub const ADD_READER: usize = 0b10;

/// How often a lock operation tries before it gives up.
pub const SPIN_LIMIT: u64 = 0xFFFF_FFFF_FFFF_FFFF;

/// A writer holds the lock word `state`.
pub open spec fn writer_held(state: usize) -> bool {
    state % 2 == 1
}

/// The number of readers that hold the lock word `state`.
pub open spec fn readers(state: usize) -> nat {
    (state / 2) as nat
}

/// The lock word after a reader enters, where one may: no writer holds it and the count
/// of readers has room.
pub open spec fn enter_read(state: usize) -> Option<usize> {
    if !writer_held(state) && state + ADD_READER <= usize::MAX {
        Some((state + ADD_READER) as usize)
    } else {
        None
    }
}

/// The lock word after a reader leaves.
pub open spec fn leave_read(state: usize) -> usize {
    vstd::wrapping::usize_specs::wrapping_sub(state, ADD_READER)
}

/// The lock word after a writer claims the writer bit, where it may: no writer holds it.
pub open spec fn claim_write(state: usize) -> Option<usize> {
    if !writer_held(state) {
        Some((state + WRITE_BIT) as usize)
    } else {
        None
    }
}

/// What entering as a reader makes of the lock word `state`.
///
/// A reader enters only where no writer holds the lock, and adds one reader.
pub fn reader_entered(state: usize) -> (next: Option<usize>)
    ensures
        next == enter_read(state),
        writer_held(state) ==> next is None,
        next matches Some(n) ==> !writer_held(n) && readers(n) == readers(state) + 1,
{
    assert(state & WRITE_BIT == 0 <==> state % 2 == 0) by (bit_vector);
    if state & WRITE_BIT == 0 && state <= usize::MAX - ADD_READER {
        Some(state + ADD_READER)
    } else {
        None
    }
}

/// What leaving as a reader makes of the lock word `state`: it takes one reader away,
/// wrapping around.
///
/// Where a reader holds the lock, one reader fewer holds it, and the writer bit stays.
pub fn reader_left(state: usize) -> (next: usize)
    ensures
        next == leave_read(state),
        readers(state) >= 1 ==> readers(next) + 1 == readers(state) && writer_held(next)
            == writer_held(state),
{
    state.wrapping_sub(ADD_READER)
}

/// What claiming the writer bit makes of the lock word `state`.
///
/// The writer bit is claimed only where no writer holds it, and the readers stay.
pub fn writer_claimed(state: usize) -> (next: Option<usize>)
    ensures
        next == claim_write(state),
        writer_held(state) ==> next is None,
        next matches Some(n) ==> writer_held(n) && readers(n) == readers(state),
{
    assert(state & WRITE_BIT == 0 <==> state % 2 == 0) by (bit_vector);
    assert(state & WRITE_BIT == 0 ==> state | WRITE_BIT == state + 1) by (bit_vector);
    if state & WRITE_BIT == 0 {
        Some(state | WRITE_BIT)
    } else {
        None
    }
}

/// Whether a writer that holds the writer bit may go on: no reader is left.
pub fn writer_admitted(state: usize) -> (admitted: bool)
    ensures
        admitted == (writer_held(state) && readers(state) == 0),
{
    state == WRITE_BIT
}

/// A reader that enters and then leaves gives the lock word back as it was.
pub proof fn lemma_read_round_trip(state: usize)
    requires
        enter_read(state) is Some,
    ensures
        leave_read(enter_read(state)->0) == state,
{
}

/// Calls `std::hint::spin_loop`, which tells the processor that the caller is spinning; it
/// has no effect that a caller can observe.
#[verifier::external_body]
fn spin_hint() {
    std::hint::spin_loop()
}

/// A basic read-write lock using spin locking.
pub struct RwLock<T> {
    value: T,
    state: AtomicUsize,
}

/// A read lock on a [`RwLock`].
pub struct ReadGuard<'lock, T> {
    lock: &'lock RwLock<T>,
    /// The lock word this reader swapped out, and the one it swapped in.
    entered: Ghost<(usize, usize)>,
}

/// A write lock on a [`RwLock`].
pub struct WriteGuard<'lock, T> {
    lock: &'lock RwLock<T>,
    /// The lock word the writer swapped out to claim the writer bit, and the one it
    /// swapped in.
    claimed: Ghost<(usize, usize)>,
    /// The lock word the writer last read before it went on.
    admitted: Ghost<usize>,
}

impl<T> RwLock<T> {
    /// The value the lock guards.
    pub closed spec fn value(&self) -> T {
        self.value
    }

    /// Creates a new `RwLock`, held by nobody.
    pub fn new(value: T) -> (lock: Self)
        ensures
            lock.value() == value,
    {
        RwLock { value, state: AtomicUsize::new(0) }
    }

    /// Acquires a read lock: waits until no writer holds the lock word, then adds a reader
    /// to it.
    ///
    /// Gives `None` only after `SPIN_LIMIT` tries.  A thread that already holds a write
    /// lock spins there.
    pub fn read(&self) -> (guard: Option<ReadGuard<'_, T>>)
        ensures
            guard matches Some(g) ==> g.value() == self.value() && enter_read(g.entered().0)
                == Some(g.entered().1),
    {
        let mut tries: u64 = 0;
        while tries < SPIN_LIMIT
            invariant
                tries <= SPIN_LIMIT,
            decreases SPIN_LIMIT - tries,
        {
            let state = self.state.load(std::sync::atomic::Ordering::Acquire);
            if let Some(next) = reader_entered(state) {
                let swapped = self.state.compare_exchange(
                    state,
                    next,
                    std::sync::atomic::Ordering::Release,
                    std::sync::atomic::Ordering::Relaxed,
                );
                if swapped.is_ok() {
                    return Some(ReadGuard { lock: self, entered: Ghost((state, next)) });
                }
            }
            spin_hint();
            tries += 1;
        }
        None
    }

    /// Acquires a write lock: claims the writer bit once no writer holds it, then waits
    /// until every reader has left.
    ///
    /// Gives `None` only after `SPIN_LIMIT` tries in all, and then leaves the writer bit
    /// free.  A thread that already holds a lock spins there.
    pub fn write(&self) -> (guard: Option<WriteGuard<'_, T>>)
        ensures
            guard matches Some(g) ==> {
                &&& g.value() == self.value()
                &&& claim_write(g.claimed().0) == Some(g.claimed().1)
                &&& writer_held(g.admitted()) && readers(g.admitted()) == 0
            },
    {
        let mut tries: u64 = 0;
        let ghost mut claimed: (usize, usize) = (0, 1);
        //Get ownership of the write bit.
        loop
            invariant
                tries <= SPIN_LIMIT,
                claim_write(claimed.0) == Some(claimed.1),
            decreases SPIN_LIMIT - tries,
        {
            if tries == SPIN_LIMIT {
                return None;
            }
            let state = self.state.load(std::sync::atomic::Ordering::Acquire);
            if let Some(next) = writer_claimed(state) {
                let swapped = self.state.compare_exchange(
                    state,
                    next,
                    std::sync::atomic::Ordering::Release,
                    std::sync::atomic::Ordering::Relaxed,
                );
                if swapped.is_ok() {
                    proof {
                        claimed = (state, next);
                    }
                    break ;
                }
            }
            spin_hint();
            tries += 1;
        }
        //Wait for the readers to release their locks.
        loop
            invariant
                tries <= SPIN_LIMIT,
                claim_write(claimed.0) == Some(claimed.1),
            decreases SPIN_LIMIT - tries,
        {
            if tries == SPIN_LIMIT {
                self.state.fetch_and(!WRITE_BIT, std::sync::atomic::Ordering::Release);
                return None;
            }
            spin_hint();
            let state = self.state.load(std::sync::atomic::Ordering::Acquire);
            if writer_admitted(state) {
                return Some(WriteGuard { lock: self, claimed: Ghost(claimed), admitted: Ghost(state) });
            }
            tries += 1;
        }
    }
}

impl<'lock, T> ReadGuard<'lock, T> {
    /// The value the lock guards.
    pub closed spec fn value(&self) -> T {
        self.lock.value
    }

    /// The lock word this reader swapped out on entering, and the one it swapped in.
    pub closed spec fn entered(&self) -> (usize, usize) {
        self.entered@
    }

    /// Releases the read lock: takes this reader out of the lock word.
    ///
    /// Gives whether the reader left, with the lock word it swapped out and the one it
    /// swapped in; it gives `false` only after `SPIN_LIMIT` tries, with the reader still
    /// counted.
    pub fn release(self) -> (r: (bool, Ghost<(usize, usize)>))
        ensures
            r.0 ==> r.1@.1 == leave_read(r.1@.0),
            r.0 && readers(r.1@.0) >= 1 ==> readers(r.1@.1) + 1 == readers(r.1@.0) && writer_held(
                r.1@.1,
            ) == writer_held(r.1@.0),
    {
        let mut tries: u64 = 0;
        while tries < SPIN_LIMIT
            invariant
                tries <= SPIN_LIMIT,
            decreases SPIN_LIMIT - tries,
        {
            spin_hint();
            let state = self.lock.state.load(std::sync::atomic::Ordering::Acquire);
            let next = reader_left(state);
            let swapped = self.lock.state.compare_exchange(
                state,
                next,
                std::sync::atomic::Ordering::Release,
                std::sync::atomic::Ordering::Relaxed,
            );
            if swapped.is_ok() {
                return (true, Ghost((state, next)));
            }
            tries += 1;
        }
        (false, Ghost((0, 0)))
    }
}

impl<'lock, T> core::ops::Deref for ReadGuard<'lock, T> {
    type Target = T;

    /// The value the lock guards.
    fn deref(&self) -> (r: &T)
        ensures
            *r == self.value(),
    {
        &self.lock.value
    }
}

impl<'lock, T> WriteGuard<'lock, T> {
    /// The value the lock guards.
    pub closed spec fn value(&self) -> T {
        self.lock.value
    }

    /// The lock word the writer swapped out to claim the writer bit, and the one it
    /// swapped in.
    pub closed spec fn claimed(&self) -> (usize, usize) {
        self.claimed@
    }

    /// The lock word the writer last read before it went on.
    pub closed spec fn admitted(&self) -> usize {
        self.admitted@
    }

    /// Releases the write lock: leaves the lock word free, and gives the word it stored.
    pub fn release(self) -> (stored: Ghost<usize>)
        ensures
            stored@ == 0,
            !writer_held(stored@) && readers(stored@) == 0,
    {
        let free: usize = 0;
        self.lock.state.store(free, std::sync::atomic::Ordering::Release);
        Ghost(free)
    }
}

impl<'lock, T> core::ops::Deref for WriteGuard<'lock, T> {
    type Target = T;

    /// The value the lock guards.
    fn deref(&self) -> (r: &T)
        ensures
            *r == self.value(),
    {
        &self.lock.value
    }
}

} // verus!
