//! A sequence lock for one writer: a counter that is odd while a write is
//! under way, and a value that readers copy and keep only if the counter was
//! even and has not moved meanwhile.
use vstd::prelude::*;

verus! {

/// A value guarded by a sequence counter.
pub struct SeqLock<T> {
    /// The counter: odd while a write is under way.
    pub iteration: usize,
    /// The value.
    pub item: T,
}

/// The counter after one more step; it wraps around at the end of its
/// range, which keeps odd and even apart.
pub open spec fn next_iteration(iteration: usize) -> usize {
    if iteration == usize::MAX {
        0
    } else {
        (iteration + 1) as usize
    }
}

/// The next value of the counter.
fn bump(iteration: usize) -> (r: usize)
    ensures
        r == next_iteration(iteration),
        r % 2 != iteration % 2,
{
    if iteration == usize::MAX {
        0
    } else {
        iteration + 1
    }
}

impl<T: Copy> SeqLock<T> {
    /// A write is under way.
    pub open spec fn is_writing(&self) -> bool {
        self.iteration % 2 == 1
    }

    /// A lock around `val`, with no write under way.
    pub fn new(val: T) -> (lock: SeqLock<T>)
        ensures
            lock.item == val,
            lock.iteration == 0,
            !lock.is_writing(),
    {
        SeqLock { item: val, iteration: 0 }
    }

    /// Begins a write. There is one writer at a time: no write may be under
    /// way. The write lasts until the writer has written.
    pub fn get_writer<'a>(&'a mut self) -> (writer: SeqLockWriter<'a, T>)
        requires
            !old(self).is_writing(),
        ensures
            writer.lock.is_writing(),
            writer.lock.iteration == next_iteration(old(self).iteration),
            writer.lock.item == old(self).item,
            *final(self) == *final(writer.lock),
    {
        let writer = SeqLockWriter { lock: self };
        writer._start_write()
    }

    /// A reader of this lock.
    pub fn get_reader<'a>(&'a self) -> (reader: SeqLockReader<'a, T>)
        ensures
            *reader.lock == *self,
    {
        SeqLockReader { lock: self }
    }
}

/// The right to write once. The write that `get_writer` has begun lasts
/// until the writer is used up by `write`, `write_with` or `finish`.
pub struct SeqLockWriter<'a, T: Copy> {
    /// The lock written to.
    pub lock: &'a mut SeqLock<T>,
}

impl<'a, T: Copy> SeqLockWriter<'a, T> {
    /// Stores `val` and ends the write.
    pub fn write(self, val: T)
        requires
            old(self.lock).is_writing(),
        ensures
            final(self.lock).item == val,
            final(self.lock).iteration == next_iteration(old(self.lock).iteration),
            !final(self.lock).is_writing(),
    {
        let SeqLockWriter { lock } = self;
        lock.item = val;
        SeqLockWriter { lock }._end_write();
    }

    /// Stores what `closure` makes of the value and ends the write.
    pub fn write_with(self, closure: impl Fn(T) -> T)
        requires
            old(self.lock).is_writing(),
            call_requires(closure, (old(self.lock).item,)),
        ensures
            call_ensures(closure, (old(self.lock).item,), final(self.lock).item),
            final(self.lock).iteration == next_iteration(old(self.lock).iteration),
            !final(self.lock).is_writing(),
    {
        let SeqLockWriter { lock } = self;
        lock.item = closure(lock.item);
        SeqLockWriter { lock }._end_write();
    }

    /// Ends the write without storing anything.
    pub fn finish(self)
        requires
            old(self.lock).is_writing(),
        ensures
            final(self.lock).item == old(self.lock).item,
            final(self.lock).iteration == next_iteration(old(self.lock).iteration),
            !final(self.lock).is_writing(),
    {
        self._end_write();
    }

    /// Makes the counter odd.
    fn _start_write(self) -> (writer: SeqLockWriter<'a, T>)
        requires
            !old(self.lock).is_writing(),
        ensures
            writer.lock.is_writing(),
            writer.lock.iteration == next_iteration(old(self.lock).iteration),
            writer.lock.item == old(self.lock).item,
            *final(self.lock) == *final(writer.lock),
    {
        let SeqLockWriter { lock } = self;
        lock.iteration = bump(lock.iteration);
        SeqLockWriter { lock }
    }

    /// Makes the counter even.
    fn _end_write(self)
        requires
            old(self.lock).is_writing(),
        ensures
            final(self.lock).item == old(self.lock).item,
            final(self.lock).iteration == next_iteration(old(self.lock).iteration),
            !final(self.lock).is_writing(),
    {
        let SeqLockWriter { lock } = self;
        lock.iteration = bump(lock.iteration);
    }
}

/// The right to read.
pub struct SeqLockReader<'a, T> {
    /// The lock read from.
    pub lock: &'a SeqLock<T>,
}

impl<'a, T: Copy> SeqLockReader<'a, T> {
    /// The value, read while no write is under way.
    pub fn read(&self) -> (val: T)
        requires
            !self.lock.is_writing(),
        ensures
            val == self.lock.item,
    {
        let mut val: T = self.lock.item;
        while !self._try_read(&mut val)
            invariant
                !self.lock.is_writing(),
            ensures
                val == self.lock.item,
            decreases 0int,
        {
        }
        val
    }

    /// Copies the value into `val`, while no write is under way.
    pub fn read_into(&self, val: &mut T)
        requires
            !self.lock.is_writing(),
        ensures
            *final(val) == self.lock.item,
    {
        while !self._try_read(val)
            invariant
                !self.lock.is_writing(),
            ensures
                *val == self.lock.item,
            decreases 0int,
        {
        }
    }

    /// Puts the value into `val` if no write is under way, and nothing if
    /// one is.
    pub fn try_read_into(&self, val: &mut Option<T>)
        ensures
            *final(val) == if self.lock.is_writing() {
                None
            } else {
                Some(self.lock.item)
            },
    {
        let mut buff: T = self.lock.item;
        let success = self._try_read(&mut buff);
        if success {
            *val = Some(buff);
        } else {
            *val = None;
        }
    }

    /// Copies the value into `val` and tells whether the copy is good: the
    /// counter was even before the copy and the same after it.
    fn _try_read(&self, val: &mut T) -> (good: bool)
        ensures
            good == !self.lock.is_writing(),
            good ==> *final(val) == self.lock.item,
            !good ==> *final(val) == *old(val),
    {
        let prev = self.lock.iteration;
        if prev % 2 == 0 {
            *val = self.lock.item;
            return prev == self.lock.iteration;
        }
        return false;
    }
}

} // verus!
