//! A ring buffer of samples between one writer and one reader. One slot is
//! always kept free, so a buffer of capacity `c` holds at most `c - 1`
//! samples; writes take what fits and reads take what is there, oldest first.
use vstd::prelude::*;

verus! {

/// `p` is a power of two.
pub open spec fn is_power_of_two(p: nat) -> bool
    decreases p,
{
    if p <= 1 {
        p == 1
    } else {
        p % 2 == 0 && is_power_of_two(p / 2)
    }
}

/// The smallest power of two that is at least `n` (1 for 0).
pub fn next_power_of_two(n: usize) -> (p: usize)
    requires
        n <= usize::MAX / 2 + 1,
    ensures
        is_power_of_two(p as nat),
        n <= p,
        p == 1 || p / 2 < n,
{
    let mut p: usize = 1;
    while p < n
        invariant
            is_power_of_two(p as nat),
            p >= 1,
            n <= usize::MAX / 2 + 1,
            p == 1 || p / 2 < n,
        decreases usize::MAX - p,
    {
        assert(is_power_of_two((p * 2) as nat)) by {
            assert((p * 2) as nat / 2 == p as nat);
        }
        p = p * 2;
    }
    p
}

/// The slot `i` places after slot `start` in a ring of `cap` slots.
pub open spec fn slot(start: int, i: int, cap: int) -> int {
    if start + i < cap {
        start + i
    } else {
        start + i - cap
    }
}

/// How many samples a write of `offered` samples stores when `held` are
/// already held in a ring of `cap` slots.
pub open spec fn accepted(held: nat, offered: nat, cap: nat) -> nat {
    let free = cap - 1 - held;
    if offered < free {
        offered
    } else {
        free as nat
    }
}

/// How many samples a read into `room` places takes when `held` are held.
pub open spec fn delivered(held: nat, room: nat) -> nat {
    if room < held {
        room
    } else {
        held
    }
}

/// A ring buffer with a power-of-two number of slots.
pub struct RingBuffer<T> {
    buf: Vec<Option<T>>,
    capacity: usize,
    head: usize,
    tail: usize,
}

impl<T> RingBuffer<T> {
    /// The number of samples held.
    pub closed spec fn held(&self) -> nat {
        if self.tail >= self.head {
            (self.tail - self.head) as nat
        } else {
            (self.tail + self.capacity - self.head) as nat
        }
    }

    /// The samples held, oldest first.
    pub closed spec fn contents(&self) -> Seq<T> {
        Seq::new(self.held(), |i: int| self.buf@[slot(self.head as int, i, self.capacity as int)]->Some_0)
    }

    /// The number of slots.
    pub closed spec fn slots(&self) -> nat {
        self.capacity as nat
    }

    /// The slots agree with the indices, and every held slot holds a sample.
    pub closed spec fn wf(&self) -> bool {
        &&& self.buf@.len() == self.capacity
        &&& self.capacity >= 1
        &&& self.head < self.capacity
        &&& self.tail < self.capacity
        &&& forall|i: int|
            0 <= i < self.held() ==> (#[trigger] self.buf@[slot(self.head as int, i, self.capacity as int)]) is Some
    }

}

impl<T: Copy> RingBuffer<T> {
    /// An empty buffer whose number of slots is `capacity` rounded up to a
    /// power of two (one slot for 0).
    pub fn with_capacity(capacity: usize) -> (rb: Self)
        requires
            capacity <= usize::MAX / 2 + 1,
        ensures
            rb.wf(),
            rb.contents() == Seq::<T>::empty(),
            is_power_of_two(rb.slots()),
            capacity <= rb.slots(),
            rb.slots() == 1 || rb.slots() / 2 < capacity,
    {
        let cap = next_power_of_two(capacity);
        let mut buf: Vec<Option<T>> = Vec::new();
        let mut i: usize = 0;
        while i < cap
            invariant
                i <= cap,
                buf@.len() == i,
            decreases cap - i,
        {
            buf.push(None);
            i = i + 1;
        }
        let rb = RingBuffer { buf, capacity: cap, head: 0, tail: 0 };
        assert(rb.contents() =~= Seq::<T>::empty());
        rb
    }

    /// Append as many samples of `src` as there are free slots, in order;
    /// returns how many were taken.
    pub fn push(&mut self, src: &[T]) -> (n: usize)
        requires
            old(self).wf(),
        ensures
            final(self).wf(),
            n == accepted(old(self).contents().len(), src@.len(), old(self).slots()),
            final(self).contents() == old(self).contents() + src@.take(n as int),
            final(self).slots() == old(self).slots(),
            final(self).contents().len() < final(self).slots(),
    {
        let cap = self.capacity;
        let used = if self.tail >= self.head {
            self.tail - self.head
        } else {
            cap - self.head + self.tail
        };
        let free = cap - used - 1;
        let to_write = if src.len() < free {
            src.len()
        } else {
            free
        };
        let ghost old_contents = self.contents();
        let ghost head = self.head as int;
        let mut idx = self.tail;
        let mut i: usize = 0;
        while i < to_write
            invariant
                self.buf@.len() == cap,
                cap == self.capacity,
                cap >= 1,
                head == self.head,
                self.head < cap,
                self.tail < cap,
                used == old(self).held(),
                used == old_contents.len(),
                used + to_write < cap,
                to_write <= src@.len(),
                i <= to_write,
                idx < cap,
                idx == slot(head, used + i, cap as int),
                forall|k: int|
                    0 <= k < used + i ==> (#[trigger] self.buf@[slot(head, k, cap as int)]) is Some,
                forall|k: int|
                    0 <= k < used ==> self.buf@[slot(head, k, cap as int)]->Some_0 == #[trigger] old_contents[k],
                forall|k: int|
                    0 <= k < i ==> self.buf@[slot(head, used + k, cap as int)]->Some_0 == #[trigger] src@[k],
            decreases to_write - i,
        {
            let x = src[i];
            let ghost before = self.buf@;
            self.buf.set(idx, Some(x));
            assert forall|k: int| 0 <= k < used + i implies slot(head, k, cap as int) != idx by {}
            idx = if idx + 1 == cap {
                0
            } else {
                idx + 1
            };
            i = i + 1;
        }
        self.tail = idx;
        assert(self.held() == used + to_write);
        assert(self.contents() =~= old_contents + src@.take(to_write as int)) by {
            assert forall|k: int| 0 <= k < used + to_write implies #[trigger] self.contents()[k] == (old_contents
                + src@.take(to_write as int))[k] by {
                if k >= used {
                    assert(self.buf@[slot(head, used + (k - used), cap as int)]->Some_0 == src@[k - used]);
                }
            }
        }
        to_write
    }

    /// Move the oldest samples into the front of `dst`, as many as fit and
    /// are held; returns how many were moved. The rest of `dst` is untouched.
    pub fn pop(&mut self, dst: &mut [T]) -> (n: usize)
        requires
            old(self).wf(),
        ensures
            final(self).wf(),
            n == delivered(old(self).contents().len(), old(dst)@.len()),
            final(dst)@ == old(self).contents().take(n as int) + old(dst)@.skip(n as int),
            final(self).contents() == old(self).contents().skip(n as int),
            final(self).slots() == old(self).slots(),
    {
        let cap = self.capacity;
        let available = if self.tail >= self.head {
            self.tail - self.head
        } else {
            cap - self.head + self.tail
        };
        let to_read = if dst.len() < available {
            dst.len()
        } else {
            available
        };
        let ghost old_contents = self.contents();
        let ghost old_dst = dst@;
        let ghost head = self.head as int;
        let mut idx = self.head;
        let mut i: usize = 0;
        while i < to_read
            invariant
                self.buf@ == old(self).buf@,
                self.head == old(self).head,
                self.tail == old(self).tail,
                cap == self.capacity,
                old(self).wf(),
                head == self.head,
                available == old(self).held(),
                available == old_contents.len(),
                old_contents == old(self).contents(),
                to_read <= available,
                to_read <= old_dst.len(),
                dst@.len() == old_dst.len(),
                i <= to_read,
                idx < cap,
                idx == slot(head, i as int, cap as int),
                forall|k: int| 0 <= k < i ==> #[trigger] dst@[k] == old_contents[k],
                forall|k: int| i <= k < dst@.len() ==> #[trigger] dst@[k] == old_dst[k],
            decreases to_read - i,
        {
            assert(self.buf@[slot(head, i as int, cap as int)] is Some);
            let x = match self.buf[idx] {
                Some(v) => v,
                None => {
                    assert(false);
                    dst[i]
                },
            };
            assert(x == old_contents[i as int]);
            dst[i] = x;
            idx = if idx + 1 == cap {
                0
            } else {
                idx + 1
            };
            i = i + 1;
        }
        self.head = idx;
        assert(self.held() == available - to_read);
        assert(self.contents() =~= old_contents.skip(to_read as int)) by {
            assert forall|k: int| 0 <= k < available - to_read implies #[trigger] self.contents()[k]
                == old_contents.skip(to_read as int)[k] by {
                assert(slot(self.head as int, k, cap as int) == slot(head, to_read + k, cap as int));
            }
        }
        assert(self.wf()) by {
            assert forall|k: int| 0 <= k < self.held() implies (#[trigger] self.buf@[slot(
                self.head as int,
                k,
                cap as int,
            )]) is Some by {
                assert(slot(self.head as int, k, cap as int) == slot(head, to_read + k, cap as int));
                assert(old(self).buf@[slot(head, to_read + k, cap as int)] is Some);
            }
        }
        assert(dst@ =~= old_contents.take(to_read as int) + old_dst.skip(to_read as int));
        to_read
    }
}

/// Samples written into an empty buffer with room for all of them come back
/// whole and in order from one read with room for all of them, leaving the
/// buffer empty.
pub proof fn lemma_round_trip<T>(samples: Seq<T>, slots: nat, room: Seq<T>)
    requires
        samples.len() < slots,
        room.len() == samples.len(),
    ensures
        accepted(0, samples.len(), slots) == samples.len(),
        ({
            let held = Seq::<T>::empty() + samples.take(samples.len() as int);
            let n = delivered(held.len(), room.len());
            &&& n == samples.len()
            &&& held.take(n as int) + room.skip(n as int) == samples
            &&& held.skip(n as int) == Seq::<T>::empty()
        }),
{
    let held = Seq::<T>::empty() + samples.take(samples.len() as int);
    assert(held =~= samples);
    assert(held.take(samples.len() as int) + room.skip(samples.len() as int) =~= samples);
    assert(held.skip(samples.len() as int) =~= Seq::<T>::empty());
}

/// Reads never reorder: two reads in a row give the same samples, in the
/// same order, as one read of their combined size.
pub proof fn lemma_reads_keep_order<T>(held: Seq<T>, a: nat, b: nat)
    ensures
        ({
            let n1 = delivered(held.len(), a);
            let rest = held.skip(n1 as int);
            let n2 = delivered(rest.len(), b);
            let n = delivered(held.len(), a + b);
            &&& n1 + n2 == n
            &&& held.take(n1 as int) + rest.take(n2 as int) == held.take(n as int)
            &&& rest.skip(n2 as int) == held.skip(n as int)
        }),
{
    let n1 = delivered(held.len(), a);
    let rest = held.skip(n1 as int);
    let n2 = delivered(rest.len(), b);
    let n = delivered(held.len(), a + b);
    assert(n1 + n2 == n);
    assert(held.take(n1 as int) + rest.take(n2 as int) =~= held.take(n as int));
    assert(rest.skip(n2 as int) =~= held.skip(n as int));
}

/// One call on a ring buffer: `Write(src)` is `push(&src)`, `Read(room)` is
/// `pop` into a buffer with `room` places.
pub enum RingCall<T> {
    Write(Seq<T>),
    Read(nat),
}

/// What a buffer with `slots` slots holds after `calls`, made on it in order
/// from `with_capacity` on, together with every sample the writes put in and
/// every sample the reads took out, in order. Each step is what the
/// contracts of `push` and `pop` say the call does.
pub open spec fn after_calls<T>(slots: nat, calls: Seq<RingCall<T>>) -> (Seq<T>, Seq<T>, Seq<T>)
    decreases calls.len(),
{
    if calls.len() == 0 {
        (Seq::empty(), Seq::empty(), Seq::empty())
    } else {
        let (held, written, read) = after_calls(slots, calls.drop_last());
        match calls.last() {
            RingCall::Write(src) => {
                let n = accepted(held.len(), src.len(), slots);
                (held + src.take(n as int), written + src.take(n as int), read)
            },
            RingCall::Read(room) => {
                let n = delivered(held.len(), room);
                (held.skip(n as int), written, read + held.take(n as int))
            },
        }
    }
}

/// Over any run of calls, the samples read so far followed by the samples
/// still held are exactly the samples written so far: nothing is lost,
/// duplicated, reordered or read before it was written, so what has been
/// read is always a prefix of what has been written. The buffer never holds
/// as many samples as it has slots.
pub proof fn lemma_fifo<T>(slots: nat, calls: Seq<RingCall<T>>)
    requires
        slots >= 1,
    ensures
        ({
            let (held, written, read) = after_calls(slots, calls);
            &&& written == read + held
            &&& read.is_prefix_of(written)
            &&& held.len() < slots
        }),
    decreases calls.len(),
{
    if calls.len() > 0 {
        lemma_fifo(slots, calls.drop_last());
        let (held, written, read) = after_calls(slots, calls.drop_last());
        match calls.last() {
            RingCall::Write(src) => {
                let n = accepted(held.len(), src.len(), slots);
                assert(written + src.take(n as int) =~= read + (held + src.take(n as int)));
            },
            RingCall::Read(room) => {
                let n = delivered(held.len(), room);
                assert(written =~= (read + held.take(n as int)) + held.skip(n as int));
            },
        }
        let (h2, w2, r2) = after_calls(slots, calls);
        assert(w2.take(r2.len() as int) =~= r2);
    } else {
        assert(Seq::<T>::empty() + Seq::<T>::empty() =~= Seq::<T>::empty());
    }
}

} // verus!
