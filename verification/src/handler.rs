use vstd::prelude::*;
use crate::address::Address;
use crate::registry::Event;

verus! {

/// What one blocking read on a connection came back with: a clean
/// close (zero bytes), the first `count` bytes of the read buffer
/// filled, or a read error.
#[derive(Clone, Copy, PartialEq, Eq, Debug)]
pub enum ReadOutcome {
    Closed,
    Received { count: usize },
    Failed,
}

/// One turn of a connection handler: the event to emit for the
/// registry, and whether the handler's read loop is over.
#[derive(Debug, PartialEq, Eq)]
pub struct HandlerStep {
    pub event: Event,
    pub done: bool,
}

/// The first `count` bytes of `buffer`, copied out as an owned message
/// body: one read's worth of bytes, delivered as an opaque chunk.
pub fn copy_prefix(buffer: &[u8], count: usize) -> (r: Vec<u8>)
    requires
        count <= buffer@.len(),
    ensures
        r@ == buffer@.subrange(0, count as int),
{
    let piece = vstd::slice::slice_subrange(buffer, 0, count);
    vstd::slice::slice_to_vec(piece)
}

/// The handler protocol after one read on the connection at `addr`:
/// a clean close or a read error both end the loop with exactly one
/// `Disconnected` event; a read of `count > 0` bytes emits those bytes
/// verbatim as a `Message` event and reads on. (A read of zero bytes
/// is a clean close, so `Received` is only ever built with a positive
/// count; the protocol here does not depend on that.)
pub fn handler_step(addr: Address, buffer: &[u8], outcome: ReadOutcome) -> (r: HandlerStep)
    requires
        outcome matches ReadOutcome::Received { count } ==> count <= buffer@.len(),
    ensures
        match outcome {
            ReadOutcome::Closed => r.event == (Event::Disconnected { addr }) && r.done,
            ReadOutcome::Received { count } => {
                &&& r.event matches Event::Message { addr: author, bytes } && author == addr
                    && bytes@ == buffer@.subrange(0, count as int)
                &&& !r.done
            },
            ReadOutcome::Failed => r.event == (Event::Disconnected { addr }) && r.done,
        },
{
    match outcome {
        ReadOutcome::Closed => HandlerStep { event: Event::Disconnected { addr }, done: true },
        ReadOutcome::Received { count } => HandlerStep {
            event: Event::Message { addr, bytes: copy_prefix(buffer, count) },
            done: false,
        },
        ReadOutcome::Failed => HandlerStep { event: Event::Disconnected { addr }, done: true },
    }
}

} // verus!
