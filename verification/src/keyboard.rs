//! The queue of keyboard scancodes between the keyboard interrupt and the
//! input task, kept in a `heapless` single-producer single-consumer queue.
use vstd::prelude::*;
use heapless::spsc::Queue;

verus! {

/// Slots of the scancode queue; it holds one scancode less than this.
pub const KEY_BUFFER_SIZE: usize = 64;

/// Scancodes the queue holds at most.
pub const KEY_QUEUE_CAPACITY: usize = 63;

#[verifier::external_type_specification]
#[verifier::external_body]
#[verifier::reject_recursive_types(T)]
pub struct ExHeaplessQueue<T, const N: usize>(Queue<T, N>);

/// The scancodes a queue holds, front first.
pub uninterp spec fn key_queue_contents(q: Queue<u8, 64>) -> Seq<u8>;

/// `heapless::spsc::Queue::new`: an empty queue.
#[verifier::external_body]
fn queue_new() -> (q: Queue<u8, 64>)
    ensures
        key_queue_contents(q) == Seq::<u8>::empty(),
{
    Queue::new()
}

/// `heapless::spsc::Queue::is_empty`: the queue holds nothing.
#[verifier::external_body]
fn queue_is_empty(q: &Queue<u8, 64>) -> (b: bool)
    ensures
        b == (key_queue_contents(*q).len() == 0),
{
    q.is_empty()
}

/// `heapless::spsc::Queue::enqueue`: appends `v` unless the queue already
/// holds its capacity of `N - 1` items, in which case `v` comes back.
#[verifier::external_body]
fn queue_enqueue(q: &mut Queue<u8, 64>, v: u8) -> (r: Result<(), u8>)
    ensures
        key_queue_contents(*old(q)).len() < 63 ==> r is Ok,
        key_queue_contents(*old(q)).len() < 63 ==> key_queue_contents(*final(q))
            == key_queue_contents(*old(q)).push(v),
        key_queue_contents(*old(q)).len() >= 63 ==> r is Err && r->Err_0 == v,
        key_queue_contents(*old(q)).len() >= 63 ==> key_queue_contents(*final(q))
            == key_queue_contents(*old(q)),
{
    q.enqueue(v)
}

/// `heapless::spsc::Queue::dequeue`: takes the front item, if any. A
/// queue never holds more than its capacity of `N - 1` items.
#[verifier::external_body]
fn queue_dequeue(q: &mut Queue<u8, 64>) -> (r: Option<u8>)
    ensures
        key_queue_contents(*old(q)).len() <= 63,
        key_queue_contents(*old(q)).len() == 0 ==> r is None,
        key_queue_contents(*old(q)).len() == 0 ==> key_queue_contents(*final(q))
            == key_queue_contents(*old(q)),
        key_queue_contents(*old(q)).len() > 0 ==> r == Some(key_queue_contents(*old(q))[0]),
        key_queue_contents(*old(q)).len() > 0 ==> key_queue_contents(*final(q))
            == key_queue_contents(*old(q)).drop_first(),
{
    q.dequeue()
}

/// Scancodes received from the keyboard and not yet consumed.
pub struct KeyQueue {
    queue: Queue<u8, 64>,
}

impl View for KeyQueue {
    type V = Seq<u8>;

    closed spec fn view(&self) -> Seq<u8> {
        key_queue_contents(self.queue)
    }
}

impl KeyQueue {
    /// An empty queue.
    pub fn new() -> (q: Self)
        ensures
            q@ == Seq::<u8>::empty(),
    {
        KeyQueue { queue: queue_new() }
    }
}

/// Stores a scancode from the keyboard; when the queue is full the
/// scancode is dropped.
pub fn enqueue_scancode(keys: &mut KeyQueue, scancode: u8)
    ensures
        old(keys)@.len() < KEY_QUEUE_CAPACITY ==> final(keys)@ == old(keys)@.push(scancode),
        old(keys)@.len() >= KEY_QUEUE_CAPACITY ==> final(keys)@ == old(keys)@,
{
    let _ = queue_enqueue(&mut keys.queue, scancode);
}

/// A scancode is waiting.
pub fn has_scancode(keys: &KeyQueue) -> (b: bool)
    ensures
        b == (keys@.len() > 0),
{
    !queue_is_empty(&keys.queue)
}

/// Takes the oldest waiting scancode.
pub fn pop_scancode(keys: &mut KeyQueue) -> (r: Option<u8>)
    ensures
        old(keys)@.len() <= KEY_QUEUE_CAPACITY,
        old(keys)@.len() == 0 ==> r is None && final(keys)@ == old(keys)@,
        old(keys)@.len() > 0 ==> r == Some(old(keys)@[0]) && final(keys)@ == old(keys)@.drop_first(),
{
    queue_dequeue(&mut keys.queue)
}

/// Drops every waiting scancode.
pub fn flush_scancode_queue(keys: &mut KeyQueue)
    ensures
        final(keys)@ == Seq::<u8>::empty(),
{
    loop
        invariant_except_break
            true,
        ensures
            keys@ == Seq::<u8>::empty(),
        decreases keys@.len(),
    {
        match pop_scancode(keys) {
            Some(_) => {},
            None => {
                break;
            },
        }
    }
}

} // verus!
