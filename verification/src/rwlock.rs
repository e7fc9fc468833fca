//! The bookkeeping of a writer-preferring reader-writer lock: the protected
//! value, the number of readers holding it, the number of writers waiting for
//! it and whether a writer holds it.
//!
//! A reader is let in only while no writer holds the lock or waits for it; a
//! writer is let in once no reader and no other writer holds it. Whoever is
//! not let in waits to be woken and asks again; each release says whom to
//! wake.

use vstd::prelude::*;

verus! {

/// Whom a release wakes.
#[derive(Debug, Clone, Copy, PartialEq, Eq, Structural)]
pub enum Wake {
    /// One waiting writer.
    OneWriter,
    /// Every waiting reader.
    AllReaders,
    /// Nobody.
    Nobody,
}

/// The counters of a lock.
pub struct LockView {
    pub readers: nat,
    pub writers_waiting: nat,
    pub writer_working: bool,
}

impl LockView {
    /// Readers and a writer never hold the lock together.
    pub open spec fn wf(self) -> bool {
        self.writer_working ==> self.readers == 0
    }
}

/// Asking for read access: the counters after it and whether it was granted.
pub open spec fn read_lock_spec(v: LockView) -> (LockView, bool) {
    if !v.writer_working && v.writers_waiting == 0 {
        (LockView { readers: v.readers + 1, ..v }, true)
    } else {
        (v, false)
    }
}

/// Asking for write access once registered as a waiting writer.
pub open spec fn retry_write_spec(v: LockView) -> (LockView, bool) {
    if !v.writer_working && v.readers == 0 {
        (LockView { writers_waiting: (v.writers_waiting - 1) as nat, writer_working: true, ..v }, true)
    } else {
        (v, false)
    }
}

/// Asking for write access: the writer registers as waiting, then asks.
pub open spec fn write_lock_spec(v: LockView) -> (LockView, bool) {
    retry_write_spec(LockView { writers_waiting: v.writers_waiting + 1, ..v })
}

/// Giving up write access: the counters after it and whom to wake.
pub open spec fn write_unlock_spec(v: LockView) -> (LockView, Wake) {
    (LockView { writer_working: false, ..v }, if v.writers_waiting > 0 { Wake::OneWriter } else { Wake::AllReaders })
}

/// Giving up read access: the counters after it and whom to wake.
pub open spec fn read_unlock_spec(v: LockView) -> (LockView, Wake) {
    let readers = (v.readers - 1) as nat;
    (LockView { readers: readers, ..v }, if readers == 0 { Wake::OneWriter } else { Wake::Nobody })
}

/// Proof that read access to one lock was granted; given back to release it.
pub struct ReadGuard {
    lock: Ghost<int>,
}

impl ReadGuard {
    /// The identity of the lock that granted this access.
    pub closed spec fn lock_id(&self) -> int {
        self.lock@
    }
}

/// Proof that write access to one lock was granted; given back to release
/// it.
pub struct WriteGuard {
    lock: Ghost<int>,
}

impl WriteGuard {
    /// The identity of the lock that granted this access.
    pub closed spec fn lock_id(&self) -> int {
        self.lock@
    }
}

/// A value together with the counters of the lock that protects it.
pub struct RWLock<T> {
    data: T,
    num_readers: usize,
    writers_waiting: usize,
    writer_working: bool,
    id: Ghost<int>,
}

impl<T> RWLock<T> {
    /// The counters of the lock.
    pub closed spec fn counters(&self) -> LockView {
        LockView {
            readers: self.num_readers as nat,
            writers_waiting: self.writers_waiting as nat,
            writer_working: self.writer_working,
        }
    }

    /// The protected value.
    pub closed spec fn value(&self) -> T {
        self.data
    }

    /// The identity of the lock, which its guards carry; nothing is known of
    /// it beyond that, so a guard is accepted only by the lock that granted
    /// it.
    pub closed spec fn id(&self) -> int {
        self.id@
    }

    /// A lock around `data` that nobody holds or waits for.
    pub fn new(data: T) -> (l: RWLock<T>)
        ensures
            l.value() == data,
            l.counters() == (LockView { readers: 0, writers_waiting: 0, writer_working: false }),
            l.counters().wf(),
    {
        RWLock { data, num_readers: 0, writers_waiting: 0, writer_working: false, id: Ghost(arbitrary()) }
    }

    /// Asks for read access: granted while no writer holds the lock or waits
    /// for it, and the caller is then counted as a reader.
    pub fn read_lock(&mut self) -> (g: Option<ReadGuard>)
        requires
            old(self).counters().wf(),
            old(self).counters().readers < usize::MAX,
        ensures
            (final(self).counters(), g is Some) == read_lock_spec(old(self).counters()),
            g matches Some(guard) ==> guard.lock_id() == old(self).id(),
            final(self).value() == old(self).value(),
            final(self).id() == old(self).id(),
            final(self).counters().wf(),
    {
        if !self.writer_working && self.writers_waiting == 0 {
            self.num_readers = self.num_readers + 1;
            Some(ReadGuard { lock: Ghost(self.id@) })
        } else {
            None
        }
    }

    /// Asks for write access: the caller registers as a waiting writer and is
    /// let in at once where no reader and no writer holds the lock; otherwise
    /// it stays registered and asks again with `retry_write_lock`.
    pub fn write_lock(&mut self) -> (g: Option<WriteGuard>)
        requires
            old(self).counters().wf(),
            old(self).counters().writers_waiting < usize::MAX,
        ensures
            (final(self).counters(), g is Some) == write_lock_spec(old(self).counters()),
            g matches Some(guard) ==> guard.lock_id() == old(self).id(),
            final(self).value() == old(self).value(),
            final(self).id() == old(self).id(),
            final(self).counters().wf(),
    {
        self.writers_waiting = self.writers_waiting + 1;
        self.retry_write_lock()
    }

    /// Asks again for write access, as a registered waiting writer.
    pub fn retry_write_lock(&mut self) -> (g: Option<WriteGuard>)
        requires
            old(self).counters().wf(),
            old(self).counters().writers_waiting > 0,
        ensures
            (final(self).counters(), g is Some) == retry_write_spec(old(self).counters()),
            g matches Some(guard) ==> guard.lock_id() == old(self).id(),
            final(self).value() == old(self).value(),
            final(self).id() == old(self).id(),
            final(self).counters().wf(),
    {
        if !self.writer_working && self.num_readers == 0 {
            self.writers_waiting = self.writers_waiting - 1;
            self.writer_working = true;
            Some(WriteGuard { lock: Ghost(self.id@) })
        } else {
            None
        }
    }

    /// Gives up write access; wakes one waiting writer if there is one, else
    /// every waiting reader.
    pub fn write_unlock(&mut self) -> (w: Wake)
        requires
            old(self).counters().wf(),
        ensures
            (final(self).counters(), w) == write_unlock_spec(old(self).counters()),
            final(self).value() == old(self).value(),
            final(self).id() == old(self).id(),
            final(self).counters().wf(),
    {
        self.writer_working = false;
        if self.writers_waiting > 0 {
            Wake::OneWriter
        } else {
            Wake::AllReaders
        }
    }

    /// Gives back the write access of this lock that `guard` proves (as
    /// `write_unlock`).
    pub fn release_write(&mut self, guard: WriteGuard) -> (w: Wake)
        requires
            old(self).counters().wf(),
            old(self).counters().writer_working,
            guard.lock_id() == old(self).id(),
        ensures
            (final(self).counters(), w) == write_unlock_spec(old(self).counters()),
            final(self).value() == old(self).value(),
            final(self).id() == old(self).id(),
            final(self).counters().wf(),
    {
        self.write_unlock()
    }

    /// Gives back the read access of this lock that `guard` proves; the last
    /// reader to leave wakes one waiting writer.
    pub fn release_read(&mut self, guard: ReadGuard) -> (w: Wake)
        requires
            old(self).counters().wf(),
            old(self).counters().readers > 0,
            guard.lock_id() == old(self).id(),
        ensures
            (final(self).counters(), w) == read_unlock_spec(old(self).counters()),
            final(self).value() == old(self).value(),
            final(self).id() == old(self).id(),
            final(self).counters().wf(),
    {
        self.num_readers = self.num_readers - 1;
        if self.num_readers == 0 {
            Wake::OneWriter
        } else {
            Wake::Nobody
        }
    }

    /// The protected value, read under the read access of this lock that
    /// `guard` proves; no writer holds the lock then.
    pub fn read(&self, guard: &ReadGuard) -> (r: &T)
        requires
            self.counters().wf(),
            self.counters().readers > 0,
            guard.lock_id() == self.id(),
        ensures
            *r == self.value(),
            !self.counters().writer_working,
    {
        &self.data
    }

    /// The protected value, for change under the write access of this lock
    /// that `guard` proves; no reader holds the lock then.
    pub fn write(&mut self, guard: &WriteGuard) -> (r: &mut T)
        requires
            old(self).counters().wf(),
            old(self).counters().writer_working,
            guard.lock_id() == old(self).id(),
        ensures
            *r == old(self).value(),
            old(self).counters().readers == 0,
            final(self).value() == *final(r),
            final(self).counters() == old(self).counters(),
            final(self).id() == old(self).id(),
    {
        &mut self.data
    }

    /// The number of readers holding the lock.
    pub fn readers(&self) -> (n: usize)
        ensures
            n == self.counters().readers,
    {
        self.num_readers
    }

    /// The number of writers waiting for the lock.
    pub fn waiting_writers(&self) -> (n: usize)
        ensures
            n == self.counters().writers_waiting,
    {
        self.writers_waiting
    }

    /// Whether a writer holds the lock.
    pub fn writer_active(&self) -> (b: bool)
        ensures
            b == self.counters().writer_working,
    {
        self.writer_working
    }
}

/// A reader that is let in and then leaves puts the lock back as it was.
pub proof fn law_read_unlock_undoes_read_lock(v: LockView)
    requires
        v.wf(),
        read_lock_spec(v).1,
    ensures
        read_unlock_spec(read_lock_spec(v).0).0 == v,
{
}

/// A writer that is let in at once and then leaves puts the lock back as it
/// was, apart from the writer flag, which is then down.
pub proof fn law_write_unlock_undoes_write_lock(v: LockView)
    requires
        v.wf(),
        write_lock_spec(v).1,
    ensures
        write_unlock_spec(write_lock_spec(v).0).0 == v,
{
}

/// Writers take precedence: no reader is let in while a writer waits.
pub proof fn law_writers_take_precedence(v: LockView)
    requires
        v.writers_waiting > 0,
    ensures
        !read_lock_spec(v).1,
        read_lock_spec(v).0 == v,
{
}

/// Nobody waits on a free lock: a registered writer is let in whenever no
/// reader and no writer holds the lock, a new writer likewise, and a reader
/// whenever no writer holds the lock or waits for it; otherwise the one
/// asking is turned away and nothing changes.
pub proof fn law_free_lock_lets_in(v: LockView)
    ensures
        !v.writer_working && v.readers == 0 && v.writers_waiting > 0 ==> {
            &&& retry_write_spec(v).1
            &&& retry_write_spec(v).0 == (LockView {
                readers: 0,
                writers_waiting: (v.writers_waiting - 1) as nat,
                writer_working: true,
            })
        },
        (v.writer_working || v.readers > 0) ==> !retry_write_spec(v).1 && retry_write_spec(v).0 == v,
        !v.writer_working && v.readers == 0 ==> {
            &&& write_lock_spec(v).1
            &&& write_lock_spec(v).0 == (LockView {
                readers: 0,
                writers_waiting: v.writers_waiting,
                writer_working: true,
            })
        },
        !v.writer_working && v.writers_waiting == 0 ==> {
            &&& read_lock_spec(v).1
            &&& read_lock_spec(v).0 == (LockView {
                readers: v.readers + 1,
                writers_waiting: 0,
                writer_working: false,
            })
        },
{
}

/// Exclusion: a writer is let in only when no reader holds the lock, and a
/// reader only when no writer holds it.
pub proof fn law_exclusive_access(v: LockView)
    requires
        v.wf(),
    ensures
        write_lock_spec(v).1 ==> v.readers == 0 && !v.writer_working,
        retry_write_spec(v).1 ==> v.readers == 0 && !v.writer_working,
        read_lock_spec(v).1 ==> !v.writer_working,
        read_lock_spec(v).0.wf(),
        write_lock_spec(v).0.wf(),
        retry_write_spec(v).0.wf(),
        write_unlock_spec(v).0.wf(),
        v.readers > 0 ==> read_unlock_spec(v).0.wf(),
{
}

} // verus!
