//! A bounded single-producer, single-consumer queue.
//!
//! One `Core` owns the ring storage and the two cursors; a `Sender` and a
//! `Receiver` each keep a private cached copy of the cursors and reconcile
//! that cache from the shared cursors only when it shows no room (or no
//! data).  One slot of the ring is permanently reserved so that a full ring
//! and an empty ring have distinct cursor states: with an allocated
//! capacity `len`, at most `len - 1` elements are ever live.

use vstd::arithmetic::div_mod::{lemma_mod_sub_multiples_vanish, lemma_small_mod};
use vstd::arithmetic::power2::{lemma2_to64, lemma_pow2_strictly_increases, lemma_pow2_unfold, pow2};
use vstd::bits::lemma_usize_low_bits_mask_is_mod;
use vstd::layout::unsigned_int_max_values;
use vstd::prelude::*;

verus! {

/// The error of a blocking send: the peer is gone; the value comes back.
#[derive(Debug, PartialEq, Eq, Clone, Copy)]
pub struct SendError<T>(pub T);

/// The error of a blocking receive: the peer is gone and nothing is left to drain.
#[derive(Debug, PartialEq, Eq, Clone, Copy)]
pub struct ReceiveError;

/// The errors of a non-blocking send; either way the value comes back.
#[derive(Debug, PartialEq, Eq, Clone, Copy)]
pub enum TrySendError<T> {
    Full(T),
    Disconnected(T),
}

/// The errors of a non-blocking receive.
#[derive(Debug, PartialEq, Eq, Clone, Copy)]
pub enum TryReceiveError {
    Empty,
    Disconnected,
}

/// Namespace for the factory operation that makes a connected channel.
pub struct BoundedSpscQueue;

/// True of the allocated slot counts this queue uses: the powers of two.
pub open spec fn is_ring_capacity(n: int) -> bool {
    exists|k: nat| pow2(k) == n
}

/// The distance walked forward around a ring of `n` slots from `a` to `b`,
/// for `a` and `b` both in `[0, n)`.
pub open spec fn dist(a: int, b: int, n: int) -> int {
    if b >= a {
        b - a
    } else {
        b - a + n
    }
}

/// The slot reached from `start` after `offset` forward steps around a ring
/// of `n` slots, for `start` in `[0, n)` and `offset` in `[0, n]`.
pub open spec fn ring_index(start: int, offset: int, n: int) -> int {
    if start + offset < n {
        start + offset
    } else {
        start + offset - n
    }
}

/// The least power of two that is at least `n` (and at least 1).
pub open spec fn next_pow2(n: int) -> int
    decreases n,
{
    if n <= 1 {
        1
    } else {
        2 * next_pow2((n + 1) / 2)
    }
}

/// The slot count allocated for a requested bound: the next power of two at
/// or above `bound + 1`, and never below 2.  The extra slot is the one the
/// ring keeps reserved.
pub open spec fn effective_capacity(bound: int) -> int {
    next_pow2(if bound + 1 < 2 {
        2
    } else {
        bound + 1
    })
}

/// `next_pow2(n)` is a power of two in `[n, 2n - 2]` whenever `n >= 2`.
pub proof fn lemma_next_pow2_bounds(n: int)
    requires
        n >= 2,
    ensures
        n <= next_pow2(n) <= 2 * n - 2,
        is_ring_capacity(next_pow2(n)),
    decreases n,
{
    if n == 2 {
        assert(next_pow2(1) == 1);
        assert(next_pow2(2) == 2);
        lemma2_to64();
        assert(pow2(1) == 2);
        assert(is_ring_capacity(2));
    } else {
        let m = (n + 1) / 2;
        lemma_next_pow2_bounds(m);
        let k = choose|k: nat| pow2(k) == next_pow2(m);
        lemma_pow2_unfold(k + 1);
        assert(pow2(k + 1) == 2 * pow2(k));
        assert(is_ring_capacity(next_pow2(n)));
    }
}

/// Two powers of two in the half-open window `[n, 2n)` are equal.
pub proof fn lemma_pow2_unique_in_window(c1: int, c2: int, n: int)
    requires
        n >= 1,
        is_ring_capacity(c1),
        is_ring_capacity(c2),
        n <= c1 < 2 * n,
        n <= c2 < 2 * n,
    ensures
        c1 == c2,
{
    let a = choose|k: nat| pow2(k) == c1;
    let b = choose|k: nat| pow2(k) == c2;
    if a < b {
        lemma_pow2_unfold(a + 1);
        if a + 1 < b {
            lemma_pow2_strictly_increases(a + 1, b);
        }
        assert(c2 >= 2 * c1);
    } else if b < a {
        lemma_pow2_unfold(b + 1);
        if b + 1 < a {
            lemma_pow2_strictly_increases(b + 1, a);
        }
        assert(c1 >= 2 * c2);
    }
}

/// Reduces `index` into `[0, size)` with a bitmask, which agrees with the
/// remainder because `size` is a power of two.
pub fn wrap_index(index: usize, size: usize) -> (r: usize)
    requires
        size >= 2,
        is_ring_capacity(size as int),
    ensures
        r == index as int % size as int,
{
    proof {
        let k = choose|k: nat| pow2(k) == size as int;
        unsigned_int_max_values();
        if k >= usize::BITS as nat {
            if k > usize::BITS as nat {
                lemma_pow2_strictly_increases(usize::BITS as nat, k);
            }
            assert(pow2(k) >= pow2(usize::BITS as nat));
            assert(false);
        }
        lemma_usize_low_bits_mask_is_mod(index, k);
    }
    index & (size - 1)
}

/// The shared middle of the channel: the ring storage, the two published
/// cursors, and the disconnect flag.  A slot holds `Some` exactly while an
/// element is live in it.
pub struct Core<T> {
    buf: Vec<Option<T>>,
    len: usize,
    head: usize,
    tail: usize,
    dropped: bool,
}

impl<T> View for Core<T> {
    type V = Seq<T>;

    /// The live elements, oldest first: the slots from the published tail
    /// (inclusive) forward to the published head (exclusive).
    closed spec fn view(&self) -> Seq<T> {
        Seq::new(
            self.live_len() as nat,
            |i: int| self.buf@[ring_index(self.tail as int, i, self.len as int)].unwrap(),
        )
    }
}

impl<T> Core<T> {
    /// The allocated slot count; one slot of it stays reserved.
    pub closed spec fn capacity(self) -> int {
        self.len as int
    }

    /// How many elements the queue can hold before a send finds it full.
    pub open spec fn usable_capacity(self) -> int {
        self.capacity() - 1
    }

    /// Whether either side has announced its departure.
    pub closed spec fn is_dropped(self) -> bool {
        self.dropped
    }

    /// The published producer cursor: the next slot a send will fill.
    pub closed spec fn head_pos(self) -> int {
        self.head as int
    }

    /// The published consumer cursor: the next slot a receive will empty.
    pub closed spec fn tail_pos(self) -> int {
        self.tail as int
    }

    /// The number of live elements, read off the two published cursors.
    pub closed spec fn live_len(self) -> int {
        dist(self.tail as int, self.head as int, self.len as int)
    }

    /// The structural invariant: the storage matches the allocated count,
    /// the count is a power of two of at least 2 (and small enough that
    /// cursor arithmetic cannot overflow), the cursors are in range, and
    /// every live slot actually holds an element.
    pub closed spec fn wf(self) -> bool {
        &&& self.buf@.len() == self.len
        &&& self.len >= 2
        &&& self.len <= usize::MAX / 2
        &&& is_ring_capacity(self.len as int)
        &&& self.head < self.len
        &&& self.tail < self.len
        &&& forall|i: int|
            0 <= i < self.live_len() ==> (#[trigger] self.buf@[ring_index(
                self.tail as int,
                i,
                self.len as int,
            )]) is Some
    }

    /// Builds an empty, connected core for the requested bound.  The bound
    /// is capped only by what the cursor arithmetic can address.
    pub fn new(bound: usize) -> (c: Core<T>)
        requires
            bound <= usize::MAX / 4 - 1,
        ensures
            c.wf(),
            c@ =~= Seq::<T>::empty(),
            !c.is_dropped(),
            c.head_pos() == 0,
            c.tail_pos() == 0,
            c.capacity() == effective_capacity(bound as int),
            c.usable_capacity() >= 1,
            c.usable_capacity() >= bound,
            bound >= 1 ==> c.usable_capacity() == next_pow2(bound as int + 1) - 1,
    {
        let need: usize = if bound >= 1 {
            bound + 1
        } else {
            2
        };
        proof {
            lemma_next_pow2_bounds(need as int);
            lemma2_to64();
            assert(pow2(1) == 2);
            assert(is_ring_capacity(2));
        }
        let mut cap: usize = 2;
        while cap < need
            invariant
                2 <= cap,
                need <= usize::MAX / 4,
                cap <= 2 * need - 2,
                is_ring_capacity(cap as int),
            decreases 2 * need - cap,
        {
            proof {
                let k = choose|k: nat| pow2(k) == cap as int;
                lemma_pow2_unfold(k + 1);
                assert(is_ring_capacity(2 * cap as int));
            }
            cap = cap * 2;
        }
        proof {
            lemma_pow2_unique_in_window(cap as int, next_pow2(need as int), need as int);
            assert(cap as int == effective_capacity(bound as int));
        }
        let mut buf: Vec<Option<T>> = Vec::new();
        let mut i: usize = 0;
        while i < cap
            invariant
                i <= cap,
                buf@.len() == i,
            decreases cap - i,
        {
            buf.push(None);
            i = i + 1;
        }
        let c = Core { buf, len: cap, head: 0, tail: 0, dropped: false };
        proof {
            assert(c.live_len() == 0);
            assert(c@ =~= Seq::<T>::empty());
        }
        c
    }

    /// Publishes the disconnect flag; each handle announces its own
    /// departure through this, and doing so twice changes nothing more.
    /// Already-published elements stay drainable.
    pub fn set_dropped(&mut self)
        requires
            old(self).wf(),
        ensures
            final(self).wf(),
            final(self).is_dropped(),
            final(self)@ == old(self)@,
            final(self).capacity() == old(self).capacity(),
            final(self).head_pos() == old(self).head_pos(),
            final(self).tail_pos() == old(self).tail_pos(),
    {
        self.dropped = true;
    }

    /// Steps `idx` forward by `addend` slots around the ring.
    pub fn wrap_add(&self, idx: usize, addend: usize) -> (r: usize)
        requires
            self.wf(),
            idx < self.capacity(),
            addend <= self.capacity(),
        ensures
            r == ring_index(idx as int, addend as int, self.capacity()),
            0 <= r < self.capacity(),
    {
        let r = wrap_index(idx + addend, self.len);
        proof {
            let n = self.len as int;
            let s = idx as int + addend as int;
            if s < n {
                lemma_small_mod(s as nat, n as nat);
            } else {
                lemma_mod_sub_multiples_vanish(s, n);
                assert((-n + s) % n == s % n);
                lemma_small_mod((s - n) as nat, n as nat);
            }
        }
        r
    }
}

/// The producer handle.  It owns the writing side of the protocol: its
/// cached head is always the published head, and its cached tail is a
/// present-or-earlier value of the published tail.
pub struct Sender<T> {
    head: usize,
    tail: usize,
    _t: core::marker::PhantomData<T>,
}

/// The consumer handle, symmetric to `Sender`: its cached tail is always
/// the published tail, and its cached head is a present-or-earlier value of
/// the published head.
pub struct Receiver<T> {
    head: usize,
    tail: usize,
    _t: core::marker::PhantomData<T>,
}

impl<T> Sender<T> {
    /// The producer's private copy of the head cursor.
    pub closed spec fn cached_head(self) -> int {
        self.head as int
    }

    /// The producer's private, possibly stale copy of the tail cursor.
    pub closed spec fn cached_tail(self) -> int {
        self.tail as int
    }

    /// The producer's cache is sound for `core`: its head is the published
    /// head (the producer is that cursor's only writer), and the room its
    /// stale tail promises never exceeds the room there is.
    pub closed spec fn wf_for(self, core: Core<T>) -> bool {
        &&& self.head == core.head
        &&& self.tail < core.len
        &&& core.live_len() <= dist(self.tail as int, core.head as int, core.len as int)
    }

    /// Binds a fresh producer handle to a newly made core.
    pub fn new(core: &Core<T>) -> (s: Sender<T>)
        requires
            core.wf(),
            core.head_pos() == 0,
            core.tail_pos() == 0,
        ensures
            s.wf_for(*core),
            s.cached_head() == 0,
            s.cached_tail() == 0,
    {
        Sender { head: 0, tail: 0, _t: core::marker::PhantomData }
    }

    /// Blocking enqueue.  Fails only when the peer is gone, handing the
    /// value back; otherwise it appends the value at the head slot and
    /// publishes the new head.  When the cache shows no room it spins,
    /// reloading the published tail until room appears or the disconnect
    /// flag is set; the spin never suspends the thread.  While the core is
    /// borrowed here no peer can make room, so a call that would spin
    /// forever — a full ring whose peer is still connected — is excluded
    /// by precondition; a stale cache that merely *believes* the ring full
    /// still takes the spin path and is released by its first reconcile.
    pub fn send(&mut self, core: &mut Core<T>, el: T) -> (r: Result<(), SendError<T>>)
        requires
            old(core).wf(),
            old(self).wf_for(*old(core)),
            old(core)@.len() < old(core).usable_capacity() || old(core).is_dropped(),
        ensures
            final(core).wf(),
            final(self).wf_for(*final(core)),
            final(core).capacity() == old(core).capacity(),
            final(core).is_dropped() == old(core).is_dropped(),
            final(core).tail_pos() == old(core).tail_pos(),
            forall|rx: Receiver<T>|
                (#[trigger] rx.wf_for(*old(core))) ==> rx.wf_for(*final(core)),
            match r {
                Ok(()) => !old(core).is_dropped() && old(core)@.len() < old(core).usable_capacity()
                    && final(core)@ == old(core)@.push(el),
                Err(e) => e == SendError(el) && old(core).is_dropped() && *final(core) == *old(core) && *final(self) == *old(self),
            },
    {
        if core.dropped {
            return Err(SendError(el));
        }
        let next_head = core.wrap_add(self.head, 1);
        if next_head == self.tail {
            loop
                invariant
                    core.wf(),
                    !core.dropped,
                    core.live_len() < core.usable_capacity(),
                    *core == *old(core),
                    self.head == old(self).head,
                    self.head == core.head,
                    self.tail < core.len,
                    next_head == ring_index(core.head as int, 1, core.len as int),
                ensures
                    *core == *old(core),
                    self.head == old(self).head,
                    self.tail == core.tail,
                    next_head != self.tail,
                decreases 0int,
            {
                self.tail = core.tail;
                if next_head != self.tail {
                    break;
                } else {
                    if core.dropped {
                        return Err(SendError(el));
                    }
                }
                proof {
                    // the ring has room, so the reconciled tail cannot sit
                    // one past the head: this point is never reached
                    assert(false);
                }
            }
        }
        proof {
            lemma_send_room(*core, *self, next_head as int);
        }
        let idx = self.head;
        let slot: &mut Option<T> = &mut core.buf[idx];
        *slot = Some(el);
        self.head = next_head;
        core.head = next_head;
        proof {
            lemma_send_publish(*old(core), *core, el);
        }
        Ok(())
    }

    /// Non-blocking enqueue: where `send` would spin, it reconciles the
    /// cached tail once and reports `Full`, leaving every cursor as it was.
    pub fn try_send(&mut self, core: &mut Core<T>, el: T) -> (r: Result<(), TrySendError<T>>)
        requires
            old(core).wf(),
            old(self).wf_for(*old(core)),
        ensures
            final(core).wf(),
            final(self).wf_for(*final(core)),
            final(core).capacity() == old(core).capacity(),
            final(core).is_dropped() == old(core).is_dropped(),
            final(core).tail_pos() == old(core).tail_pos(),
            forall|rx: Receiver<T>|
                (#[trigger] rx.wf_for(*old(core))) ==> rx.wf_for(*final(core)),
            match r {
                Ok(()) => !old(core).is_dropped() && old(core)@.len() < old(core).usable_capacity()
                    && final(core)@ == old(core)@.push(el),
                Err(TrySendError::Disconnected(e)) => e == el && old(core).is_dropped() && *final(core) == *old(core) && *final(self) == *old(self),
                Err(TrySendError::Full(e)) => e == el && !old(core).is_dropped() && old(core)@.len()
                    == old(core).usable_capacity() && *final(core) == *old(core) && final(self).cached_head() == old(self).cached_head() && final(self).cached_tail()
                    == old(core).tail_pos(),
            },
    {
        if core.dropped {
            return Err(TrySendError::Disconnected(el));
        }
        let next_head = core.wrap_add(self.head, 1);
        if next_head == self.tail {
            self.tail = core.tail;
            if next_head == self.tail {
                return Err(TrySendError::Full(el));
            }
        }
        proof {
            lemma_send_room(*core, *self, next_head as int);
        }
        let idx = self.head;
        let slot: &mut Option<T> = &mut core.buf[idx];
        *slot = Some(el);
        self.head = next_head;
        core.head = next_head;
        proof {
            lemma_send_publish(*old(core), *core, el);
        }
        Ok(())
    }

    /// The producer's departure: publishes the disconnect flag and gives
    /// the handle up.  Whatever was already sent stays drainable.
    pub fn disconnect(self, core: &mut Core<T>)
        requires
            old(core).wf(),
        ensures
            final(core).wf(),
            final(core).is_dropped(),
            final(core)@ == old(core)@,
            final(core).capacity() == old(core).capacity(),
            final(core).head_pos() == old(core).head_pos(),
            final(core).tail_pos() == old(core).tail_pos(),
            forall|rx: Receiver<T>|
                (#[trigger] rx.wf_for(*old(core))) ==> rx.wf_for(*final(core)),
            forall|tx: Sender<T>| (#[trigger] tx.wf_for(*old(core))) ==> tx.wf_for(*final(core)),
    {
        core.set_dropped();
    }
}

impl<T> Receiver<T> {
    /// The consumer's private, possibly stale copy of the head cursor.
    pub closed spec fn cached_head(self) -> int {
        self.head as int
    }

    /// The consumer's private copy of the tail cursor.
    pub closed spec fn cached_tail(self) -> int {
        self.tail as int
    }

    /// The consumer's cache is sound for `core`: its tail is the published
    /// tail (the consumer is that cursor's only writer), and the data its
    /// stale head promises never exceeds the data there is.
    pub closed spec fn wf_for(self, core: Core<T>) -> bool {
        &&& self.tail == core.tail
        &&& self.head < core.len
        &&& dist(core.tail as int, self.head as int, core.len as int) <= core.live_len()
    }

    /// Binds a fresh consumer handle to a newly made core.
    pub fn new(core: &Core<T>) -> (r: Receiver<T>)
        requires
            core.wf(),
            core.head_pos() == 0,
            core.tail_pos() == 0,
        ensures
            r.wf_for(*core),
            r.cached_head() == 0,
            r.cached_tail() == 0,
    {
        Receiver { head: 0, tail: 0, _t: core::marker::PhantomData }
    }

    /// Blocking dequeue.  Takes the oldest element out of the tail slot and
    /// publishes the new tail; it fails only when the queue is empty and
    /// the peer is gone, so everything sent before a disconnect is drained
    /// first.  When the cache shows no data it spins, reloading the
    /// published head until data appears or the disconnect flag is set.
    /// While the core is borrowed here no peer can publish data, so a call
    /// that would spin forever — an empty ring whose peer is still
    /// connected — is excluded by precondition; a stale cache that merely
    /// *believes* the ring empty still takes the spin path and is released
    /// by its first reconcile.
    pub fn recv(&mut self, core: &mut Core<T>) -> (r: Result<T, ReceiveError>)
        requires
            old(core).wf(),
            old(self).wf_for(*old(core)),
            old(core)@.len() > 0 || old(core).is_dropped(),
        ensures
            final(core).wf(),
            final(self).wf_for(*final(core)),
            final(core).capacity() == old(core).capacity(),
            final(core).is_dropped() == old(core).is_dropped(),
            final(core).head_pos() == old(core).head_pos(),
            forall|tx: Sender<T>| (#[trigger] tx.wf_for(*old(core))) ==> tx.wf_for(*final(core)),
            match r {
                Ok(v) => old(core)@.len() > 0 && v == old(core)@[0] && final(core)@ == old(core)@.drop_first(),
                Err(e) => e == ReceiveError && old(core)@.len() == 0 && old(core).is_dropped()
                    && *final(core) == *old(core),
            },
    {
        if self.head == self.tail {
            loop
                invariant
                    core.wf(),
                    core.live_len() >= 1 || core.dropped,
                    *core == *old(core),
                    self.tail == old(self).tail,
                    self.tail == core.tail,
                    self.head < core.len,
                ensures
                    *core == *old(core),
                    self.tail == old(self).tail,
                    self.head == core.head,
                    self.head != self.tail,
                decreases 0int,
            {
                self.head = core.head;
                if self.head != self.tail {
                    break;
                } else {
                    if core.dropped {
                        proof {
                            assert(core.live_len() == 0);
                            assert(core@ =~= Seq::<T>::empty());
                        }
                        return Err(ReceiveError);
                    }
                }
                proof {
                    // data is live, so the reconciled head cannot equal the
                    // tail: this point is never reached
                    assert(false);
                }
            }
        }
        proof {
            lemma_recv_data(*core, *self);
        }
        let next_tail = core.wrap_add(self.tail, 1);
        let idx = self.tail;
        let slot: &mut Option<T> = &mut core.buf[idx];
        let data = slot.take();
        let v = data.unwrap();
        self.tail = next_tail;
        core.tail = self.tail;
        proof {
            lemma_recv_publish(*old(core), *core, v);
        }
        Ok(v)
    }

    /// Non-blocking dequeue: where `recv` would spin, it reconciles the
    /// cached head once and reports `Empty` (or `Disconnected` when the
    /// peer is also gone), leaving every cursor as it was.
    pub fn try_recv(&mut self, core: &mut Core<T>) -> (r: Result<T, TryReceiveError>)
        requires
            old(core).wf(),
            old(self).wf_for(*old(core)),
        ensures
            final(core).wf(),
            final(self).wf_for(*final(core)),
            final(core).capacity() == old(core).capacity(),
            final(core).is_dropped() == old(core).is_dropped(),
            final(core).head_pos() == old(core).head_pos(),
            forall|tx: Sender<T>| (#[trigger] tx.wf_for(*old(core))) ==> tx.wf_for(*final(core)),
            match r {
                Ok(v) => old(core)@.len() > 0 && v == old(core)@[0] && final(core)@ == old(core)@.drop_first(),
                Err(TryReceiveError::Empty) => !old(core).is_dropped() && old(core)@.len() == 0
                    && *final(core) == *old(core) && final(self).cached_tail() == old(self).cached_tail() && final(self).cached_head()
                    == old(core).head_pos(),
                Err(TryReceiveError::Disconnected) => old(core).is_dropped() && old(core)@.len()
                    == 0 && *final(core) == *old(core) && final(self).cached_tail() == old(self).cached_tail() && final(self).cached_head()
                    == old(core).head_pos(),
            },
    {
        if self.head == self.tail {
            self.head = core.head;
            if self.head == self.tail {
                proof {
                    assert(core.live_len() == 0);
                    assert(core@ =~= Seq::<T>::empty());
                }
                if core.dropped {
                    return Err(TryReceiveError::Disconnected);
                }
                return Err(TryReceiveError::Empty);
            }
        }
        proof {
            lemma_recv_data(*core, *self);
        }
        let next_tail = core.wrap_add(self.tail, 1);
        let idx = self.tail;
        let slot: &mut Option<T> = &mut core.buf[idx];
        let data = slot.take();
        let v = data.unwrap();
        self.tail = next_tail;
        core.tail = self.tail;
        proof {
            lemma_recv_publish(*old(core), *core, v);
        }
        Ok(v)
    }

    /// The consumer's departure: publishes the disconnect flag and gives
    /// the handle up, so a blocked producer stops spinning on its next poll.
    pub fn disconnect(self, core: &mut Core<T>)
        requires
            old(core).wf(),
        ensures
            final(core).wf(),
            final(core).is_dropped(),
            final(core)@ == old(core)@,
            final(core).capacity() == old(core).capacity(),
            final(core).head_pos() == old(core).head_pos(),
            final(core).tail_pos() == old(core).tail_pos(),
            forall|rx: Receiver<T>|
                (#[trigger] rx.wf_for(*old(core))) ==> rx.wf_for(*final(core)),
            forall|tx: Sender<T>| (#[trigger] tx.wf_for(*old(core))) ==> tx.wf_for(*final(core)),
    {
        core.set_dropped();
    }
}

impl BoundedSpscQueue {
    /// Makes a connected channel: the shared core and the two handles,
    /// every cursor at its initial agreement and nothing yet live.
    pub fn new<T>(bound: usize) -> (r: (Sender<T>, Receiver<T>, Core<T>))
        requires
            bound <= usize::MAX / 4 - 1,
        ensures
            r.2.wf(),
            r.0.wf_for(r.2),
            r.1.wf_for(r.2),
            r.2@ =~= Seq::<T>::empty(),
            !r.2.is_dropped(),
            r.2.capacity() == effective_capacity(bound as int),
            r.2.usable_capacity() >= 1,
            r.2.usable_capacity() >= bound,
            bound >= 1 ==> r.2.usable_capacity() == next_pow2(bound as int + 1) - 1,
    {
        let core = Core::new(bound);
        let sender = Sender::new(&core);
        let receiver = Receiver::new(&core);
        (sender, receiver, core)
    }
}

/// In a well-formed core whose producer cache shows room (`next_head`, the
/// slot after the cached head, differs from the cached tail), the ring is
/// truly not full and the head slot is outside the live region.
proof fn lemma_send_room<T>(core: Core<T>, s: Sender<T>, next_head: int)
    requires
        core.wf(),
        s.wf_for(core),
        next_head == ring_index(s.cached_head(), 1, core.capacity()),
        next_head != s.cached_tail(),
    ensures
        core.live_len() < core.usable_capacity(),
        forall|i: int|
            0 <= i < core.live_len() ==> ring_index(core.tail_pos(), i, core.capacity())
                != core.head_pos(),
{
    let n = core.capacity();
    assert(dist(s.cached_tail(), core.head_pos(), n) < n - 1);
}

/// What a publish after a write does to the model: with the head slot
/// filled and the head cursor stepped once, the live sequence is the old
/// one with the element appended.
proof fn lemma_send_publish<T>(pre: Core<T>, post: Core<T>, el: T)
    requires
        pre.wf(),
        pre.live_len() < pre.usable_capacity(),
        post.len == pre.len,
        post.tail == pre.tail,
        post.dropped == pre.dropped,
        post.head as int == ring_index(pre.head as int, 1, pre.len as int),
        post.buf@ == pre.buf@.update(pre.head as int, Some(el)),
    ensures
        post.wf(),
        post@ == pre@.push(el),
{
    let n = pre.len as int;
    let t = pre.tail as int;
    let w = pre.head as int;
    assert(post.live_len() == pre.live_len() + 1);
    assert(ring_index(t, pre.live_len(), n) == w);
    assert forall|i: int| 0 <= i < post.live_len() implies (#[trigger] post.buf@[ring_index(
        t,
        i,
        n,
    )]) is Some by {
        if i < pre.live_len() {
            assert(ring_index(t, i, n) != w);
            assert(pre.buf@[ring_index(t, i, n)] is Some);
        }
    }
    assert(post.wf());
    assert forall|i: int| 0 <= i < post.live_len() implies post@[i] == pre@.push(el)[i] by {
        if i < pre.live_len() {
            assert(ring_index(t, i, n) != w);
        }
    }
    assert(post@ =~= pre@.push(el));
}

/// In a well-formed core whose consumer cache shows data, the ring is
/// truly not empty, so the tail slot holds an element.
proof fn lemma_recv_data<T>(core: Core<T>, r: Receiver<T>)
    requires
        core.wf(),
        r.wf_for(core),
        r.cached_head() != r.cached_tail(),
    ensures
        core.live_len() >= 1,
        core@.len() >= 1,
        core.buf@[core.tail_pos()] is Some,
        core@[0] == core.buf@[core.tail_pos()].unwrap(),
{
    let n = core.capacity();
    let t = core.tail_pos();
    assert(dist(t, r.cached_head(), n) >= 1);
    assert(ring_index(t, 0, n) == t);
    assert(core.buf@[ring_index(t, 0, n)] is Some);
}

/// What a publish after a read does to the model: with the tail slot
/// emptied and the tail cursor stepped once, the live sequence is the old
/// one with its first element gone, and that element was `v`.
proof fn lemma_recv_publish<T>(pre: Core<T>, post: Core<T>, v: T)
    requires
        pre.wf(),
        pre.live_len() >= 1,
        post.len == pre.len,
        post.head == pre.head,
        post.dropped == pre.dropped,
        post.tail as int == ring_index(pre.tail as int, 1, pre.len as int),
        post.buf@ == pre.buf@.update(pre.tail as int, None::<T>),
        pre.buf@[pre.tail as int] == Some(v),
    ensures
        post.wf(),
        post@ == pre@.drop_first(),
        v == pre@[0],
{
    let n = pre.len as int;
    let t = pre.tail as int;
    let t2 = post.tail as int;
    assert(post.live_len() == pre.live_len() - 1);
    assert forall|i: int| 0 <= i < post.live_len() implies (#[trigger] post.buf@[ring_index(
        t2,
        i,
        n,
    )]) is Some by {
        assert(ring_index(t2, i, n) == ring_index(t, i + 1, n));
        assert(ring_index(t, i + 1, n) != t);
        assert(pre.buf@[ring_index(t, i + 1, n)] is Some);
    }
    assert(post.wf());
    assert(ring_index(t, 0, n) == t);
    assert forall|i: int| 0 <= i < post.live_len() implies post@[i] == pre@.drop_first()[i] by {
        assert(ring_index(t2, i, n) == ring_index(t, i + 1, n));
        assert(ring_index(t, i + 1, n) != t);
        assert(post@[i] == post.buf@[ring_index(t2, i, n)].unwrap());
        assert(pre@[i + 1] == pre.buf@[ring_index(t, i + 1, n)].unwrap());
    }
    assert(post@ =~= pre@.drop_first());
}

/// The queue contents after sending each element of `vs` in order onto a
/// queue holding `s`: the fold of the append that each successful send's
/// contract states.
pub open spec fn send_all<T>(s: Seq<T>, vs: Seq<T>) -> Seq<T>
    decreases vs.len(),
{
    if vs.len() == 0 {
        s
    } else {
        send_all(s.push(vs[0]), vs.drop_first())
    }
}

proof fn lemma_send_all_appends<T>(s: Seq<T>, vs: Seq<T>)
    ensures
        send_all(s, vs) == s + vs,
    decreases vs.len(),
{
    if vs.len() == 0 {
        assert(s + vs =~= s);
    } else {
        lemma_send_all_appends(s.push(vs[0]), vs.drop_first());
        assert(s.push(vs[0]) + vs.drop_first() =~= s + vs);
    }
}

/// Capacity rounding: for any requested bound of at least 1, the usable
/// capacity — one less than the allocated slot count, since one slot stays
/// reserved — is `next_pow2(bound + 1) - 1`, at least 1, and at least the
/// bound itself.
pub proof fn lemma_capacity_rounding(bound: int)
    requires
        bound >= 1,
    ensures
        effective_capacity(bound) == next_pow2(bound + 1),
        effective_capacity(bound) - 1 >= 1,
        effective_capacity(bound) - 1 >= bound,
{
    lemma_next_pow2_bounds(bound + 1);
}

/// First-in, first-out ordering: sending `vs` in order onto an empty queue
/// leaves exactly `vs`, and after `i` receives — each of which, by `recv`'s
/// contract, returns the front and keeps the rest in order — the next
/// receive returns `vs[i]` and leaves the elements from `i + 1` on.
pub proof fn lemma_fifo_ordering<T>(vs: Seq<T>, i: int)
    requires
        0 <= i < vs.len(),
    ensures
        send_all(Seq::empty(), vs) == vs,
        vs.skip(i)[0] == vs[i],
        vs.skip(i).drop_first() == vs.skip(i + 1),
{
    lemma_send_all_appends(Seq::empty(), vs);
    assert(Seq::empty() + vs =~= vs);
    assert(vs.skip(i).drop_first() =~= vs.skip(i + 1));
}

/// No loss under full utilization: filling an empty queue with `vs` (up to
/// the usable capacity), receiving one element, sending one more, and then
/// draining the rest hands back exactly `vs` followed by the late element,
/// in order — the wraparound of the cursors loses and reorders nothing.
pub proof fn lemma_no_loss_under_full_utilization<T>(vs: Seq<T>, w: T)
    requires
        vs.len() >= 1,
    ensures
        seq![vs[0]] + send_all(send_all(Seq::empty(), vs).drop_first(), seq![w]) == vs.push(w),
{
    lemma_send_all_appends(Seq::empty(), vs);
    assert(Seq::empty() + vs =~= vs);
    lemma_send_all_appends(vs.drop_first(), seq![w]);
    assert(seq![vs[0]] + (vs.drop_first() + seq![w]) =~= vs.push(w));
}

/// The live sequence never exceeds the usable capacity: one slot of the
/// ring is permanently reserved, so a well-formed core always has room for
/// `usable_capacity()` elements and no more.
pub proof fn lemma_contents_bounded<T>(core: Core<T>)
    requires
        core.wf(),
    ensures
        0 <= core@.len() <= core.usable_capacity(),
{
}

} // verus!
