use vstd::prelude::*;
use crossbeam_queue::ArrayQueue;
use futures_util::task::AtomicWaker;

verus! {

/// Capacity of the process-wide scancode queue.
pub const SCANCODE_QUEUE_CAPACITY: usize = 100;

#[verifier::external_type_specification]
#[verifier::external_body]
#[verifier::reject_recursive_types(T)]
pub struct ExArrayQueue<T>(ArrayQueue<T>);

#[verifier::external_type_specification]
#[verifier::external_body]
pub struct ExAtomicWaker(AtomicWaker);

#[verifier::external_type_specification]
#[verifier::external_body]
pub struct ExWaker(core::task::Waker);

/// The bytes a scancode queue currently buffers, oldest first.
pub uninterp spec fn queue_bytes(q: ArrayQueue<u8>) -> Seq<u8>;

/// The fixed capacity a scancode queue was created with.
pub uninterp spec fn queue_capacity(q: ArrayQueue<u8>) -> nat;

/// Whether a waker is currently registered with the wake handle.
pub uninterp spec fn waker_registered(w: AtomicWaker) -> bool;

/// Relies on crossbeam_queue::ArrayQueue::new: an empty queue with the given
/// capacity.  It panics only on a zero or absurdly large capacity, which the
/// precondition excludes.
#[verifier::external_body]
fn queue_new(cap: usize) -> (q: ArrayQueue<u8>)
    requires
        0 < cap <= 0x0400_0000,
    ensures
        queue_bytes(q) == Seq::<u8>::empty(),
        queue_capacity(q) == cap,
{
    ArrayQueue::new(cap)
}

/// Relies on crossbeam_queue::ArrayQueue::push: appends the element at the
/// tail, or hands it back untouched when the queue is full.  Lock-free:
/// never blocks, never allocates, never panics.
#[verifier::external_body]
fn queue_push(q: &mut ArrayQueue<u8>, b: u8) -> (r: Result<(), u8>)
    ensures
        queue_capacity(*final(q)) == queue_capacity(*old(q)),
        queue_bytes(*old(q)).len() < queue_capacity(*old(q)) ==> (r == Result::<(), u8>::Ok(())
            && queue_bytes(*final(q)) == queue_bytes(*old(q)).push(b)),
        queue_bytes(*old(q)).len() >= queue_capacity(*old(q)) ==> (r == Result::<(), u8>::Err(b)
            && queue_bytes(*final(q)) == queue_bytes(*old(q))),
{
    q.push(b)
}

/// Relies on crossbeam_queue::ArrayQueue::pop: removes and returns the
/// oldest element, or `None` when the queue is empty.
#[verifier::external_body]
fn queue_pop(q: &mut ArrayQueue<u8>) -> (r: Option<u8>)
    ensures
        queue_capacity(*final(q)) == queue_capacity(*old(q)),
        queue_bytes(*old(q)).len() == 0 ==> (r is None && queue_bytes(*final(q)) == queue_bytes(
            *old(q),
        )),
        queue_bytes(*old(q)).len() > 0 ==> (r == Some(queue_bytes(*old(q))[0]) && queue_bytes(
            *final(q),
        ) == queue_bytes(*old(q)).skip(1)),
{
    q.pop()
}

/// Relies on crossbeam_queue::ArrayQueue::len: the number of elements the
/// queue currently holds.
#[verifier::external_body]
fn queue_len(q: &ArrayQueue<u8>) -> (r: usize)
    ensures
        r == queue_bytes(*q).len(),
{
    q.len()
}

/// Relies on futures_util::task::AtomicWaker::new: starts with no waker
/// registered.
#[verifier::external_body]
fn waker_new() -> (w: AtomicWaker)
    ensures
        !waker_registered(w),
{
    AtomicWaker::new()
}

/// Relies on futures_util::task::AtomicWaker::register: stores the given
/// waker to be woken by the next wake call.
#[verifier::external_body]
fn waker_register(w: &mut AtomicWaker, waker: &core::task::Waker)
    ensures
        waker_registered(*final(w)),
{
    w.register(waker)
}

/// Relies on futures_util::task::AtomicWaker::wake: takes the registered
/// waker, if any, and wakes it.
#[verifier::external_body]
fn waker_wake(w: &mut AtomicWaker)
    ensures
        !waker_registered(*final(w)),
{
    w.wake()
}

/// Relies on futures_util::task::AtomicWaker::take: removes and returns the
/// registered waker without waking it.
#[verifier::external_body]
fn waker_take(w: &mut AtomicWaker) -> (r: Option<core::task::Waker>)
    ensures
        !waker_registered(*final(w)),
{
    w.take()
}

/// What one delivery does to the buffered bytes: appends the byte when there
/// is room, drops the newest byte when the queue is full.
pub open spec fn deliver_model(s: Seq<u8>, cap: nat, b: u8) -> Seq<u8> {
    if s.len() < cap {
        s.push(b)
    } else {
        s
    }
}

/// What one queue check does: takes the oldest byte, if any.
pub open spec fn pop_model(s: Seq<u8>) -> (Option<u8>, Seq<u8>) {
    if s.len() == 0 {
        (None::<u8>, s)
    } else {
        (Some(s[0]), s.skip(1))
    }
}

/// Outcome of delivering one scancode from interrupt context.
#[derive(Clone, Copy, PartialEq, Eq, Structural, Debug)]
pub enum DeliverOutcome {
    /// The byte was buffered and the registered consumer, if any, was woken.
    Delivered,
    /// The queue was full: the newest byte was dropped, never the interrupt
    /// blocked.
    DroppedFull,
    /// The process-wide bridge was not initialized yet: the byte was
    /// dropped because the consumer has not started.
    DroppedUninitialized,
}

/// Result of one consumer poll.
#[derive(Clone, Copy, PartialEq, Eq, Structural, Debug)]
pub enum PollByte {
    /// A byte was buffered and is handed out.
    Ready(u8),
    /// Nothing is buffered; the consumer's waker is registered and the
    /// consumer should suspend until woken.
    Pending,
}

/// The process-wide interrupt-to-task bridge: a bounded lock-free byte queue
/// plus the single consumer's wake handle.  Interrupt context reaches it
/// only through `add_scancode`; the asynchronous consumer only through
/// `ScancodeStream::poll_next`.
pub struct ScancodeQueue {
    queue: ArrayQueue<u8>,
    waker: AtomicWaker,
}

impl ScancodeQueue {
    /// The buffered bytes, oldest first.
    pub closed spec fn contents(self) -> Seq<u8> {
        queue_bytes(self.queue)
    }

    /// The fixed capacity of the queue.
    pub closed spec fn capacity(self) -> nat {
        queue_capacity(self.queue)
    }

    /// Whether the consumer's waker is currently registered.
    pub closed spec fn consumer_registered(self) -> bool {
        waker_registered(self.waker)
    }

    /// An empty bridge with the fixed capacity and no registered consumer.
    ///
    /// The process-wide instance is created exactly once, by the consumer:
    /// the cell that stores it enforces the initialize-once discipline, and
    /// a second initialization there is a fatal programmer error.
    pub fn new() -> (r: ScancodeQueue)
        ensures
            r.contents() == Seq::<u8>::empty(),
            r.capacity() == SCANCODE_QUEUE_CAPACITY,
            !r.consumer_registered(),
    {
        ScancodeQueue { queue: queue_new(SCANCODE_QUEUE_CAPACITY), waker: waker_new() }
    }

    /// How many bytes are buffered right now.
    pub fn buffered(&self) -> (r: usize)
        ensures
            r == self.contents().len(),
    {
        queue_len(&self.queue)
    }
}

/// Delivers one scancode from interrupt context: constant-time, never
/// blocks, never allocates, never panics.  On success the registered
/// consumer, if any, is woken; when the queue is full the newest byte is
/// dropped — backpressure never blocks the interrupt.
pub fn add_scancode(bridge: &mut ScancodeQueue, scancode: u8) -> (r: DeliverOutcome)
    ensures
        final(bridge).capacity() == old(bridge).capacity(),
        final(bridge).contents() == deliver_model(
            old(bridge).contents(),
            old(bridge).capacity(),
            scancode,
        ),
        old(bridge).contents().len() < old(bridge).capacity() ==> (r == DeliverOutcome::Delivered
            && final(bridge).contents() == old(bridge).contents().push(scancode)
            && !final(bridge).consumer_registered()),
        old(bridge).contents().len() >= old(bridge).capacity() ==> (r
            == DeliverOutcome::DroppedFull && final(bridge).contents() == old(bridge).contents()
            && final(bridge).consumer_registered() == old(bridge).consumer_registered()),
{
    match queue_push(&mut bridge.queue, scancode) {
        Ok(_) => {
            waker_wake(&mut bridge.waker);
            DeliverOutcome::Delivered
        },
        Err(_) => DeliverOutcome::DroppedFull,
    }
}

/// The delivery edge's policy while the process-wide bridge is not yet
/// initialized: the byte is dropped with a diagnostic, never an error
/// propagated into the interrupt handler.
pub fn deliver_uninitialized(scancode: u8) -> (r: DeliverOutcome)
    ensures
        r == DeliverOutcome::DroppedUninitialized,
{
    let _ = scancode;
    DeliverOutcome::DroppedUninitialized
}

/// The single consumer's handle onto the bridge.
pub struct ScancodeStream {
    _private: (),
}

impl ScancodeStream {
    /// A handle for the one consumer task.
    pub fn new() -> (r: ScancodeStream) {
        ScancodeStream { _private: () }
    }

    /// One poll of the bridge: hand out the oldest byte if one is buffered;
    /// otherwise register the consumer's waker and check the queue exactly
    /// once more before yielding.  The second check closes the race with a
    /// delivery that lands between the first check and registration (see
    /// `lemma_no_lost_wakeup`); a delivery after registration finds the
    /// waker registered and wakes the consumer.
    pub fn poll_next(&mut self, bridge: &mut ScancodeQueue, waker: &core::task::Waker) -> (r:
        PollByte)
        ensures
            final(bridge).capacity() == old(bridge).capacity(),
            final(bridge).contents() == pop_model(old(bridge).contents()).1,
            old(bridge).contents().len() > 0 ==> r == PollByte::Ready(old(bridge).contents()[0]),
            old(bridge).contents().len() == 0 ==> (r == PollByte::Pending
                && final(bridge).consumer_registered()),
            (r == PollByte::Pending) <==> pop_model(old(bridge).contents()).0 is None,
    {
        match queue_pop(&mut bridge.queue) {
            Some(b) => PollByte::Ready(b),
            None => {
                waker_register(&mut bridge.waker, waker);
                match queue_pop(&mut bridge.queue) {
                    Some(b) => {
                        let _ = waker_take(&mut bridge.waker);
                        PollByte::Ready(b)
                    },
                    None => PollByte::Pending,
                }
            },
        }
    }
}

/// The buffered bytes after delivering each byte of `bs` in order.
pub open spec fn deliver_all(s: Seq<u8>, cap: nat, bs: Seq<u8>) -> Seq<u8>
    decreases bs.len(),
{
    if bs.len() == 0 {
        s
    } else {
        deliver_model(deliver_all(s, cap, bs.drop_last()), cap, bs.last())
    }
}

proof fn lemma_fill_to_capacity(bs: Seq<u8>, cap: nat)
    requires
        bs.len() <= cap,
    ensures
        deliver_all(Seq::empty(), cap, bs) == bs,
    decreases bs.len(),
{
    if bs.len() > 0 {
        lemma_fill_to_capacity(bs.drop_last(), cap);
        assert(bs.drop_last().push(bs.last()) =~= bs);
    }
}

/// Overflow policy: delivering `cap` bytes into an empty bridge buffers all
/// of them; one more delivery is dropped and the buffered bytes stay exactly
/// the first `cap` — never a panic, never a block.
pub proof fn lemma_overflow_drops_newest(bs: Seq<u8>, cap: nat, extra: u8)
    requires
        bs.len() == cap,
    ensures
        deliver_all(Seq::empty(), cap, bs) == bs,
        deliver_model(bs, cap, extra) == bs,
{
    lemma_fill_to_capacity(bs, cap);
}

/// Lost-wakeup freedom: a delivery that lands after the consumer's first
/// empty check is returned by the re-check that follows registration, so no
/// byte is stranded while the consumer suspends.  (A delivery that lands
/// after registration instead finds the waker registered — see
/// `add_scancode` — and wakes the consumer, whose next poll returns the
/// byte by `poll_next`'s contract.)
pub proof fn lemma_no_lost_wakeup(s: Seq<u8>, cap: nat, b: u8)
    requires
        s.len() == 0,
        cap > 0,
    ensures
        pop_model(s).0 is None,
        pop_model(deliver_model(s, cap, b)).0 == Some(b),
        pop_model(deliver_model(s, cap, b)).1 == s,
{
    assert(deliver_model(s, cap, b) == s.push(b));
    assert(s.push(b)[0] == b);
    assert(s.push(b).skip(1) =~= s);
}

} // verus!
