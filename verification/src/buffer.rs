//! Per-device frame buffering.
//!
//! Each device session owns an append-only buffer of captured frames. The
//! capture worker appends; the `get` command reads the whole buffer and
//! removes nothing, so an undrained buffer only grows. That protocol is
//! stated as a law here: over any series of captures and polls, the
//! length a poll reports never decreases.

use vstd::prelude::*;

use crate::frame::Frame;

verus! {

/// The append-only frame buffer of one device session.
pub struct FrameBuffer {
    pub frames: Vec<Frame>,
}

impl FrameBuffer {
    /// The buffered frames, oldest first.
    pub open spec fn spec_frames(&self) -> Seq<Frame> {
        self.frames@
    }

    /// An empty buffer, as a fresh session starts with.
    pub fn new() -> (r: FrameBuffer)
        ensures
            r.spec_frames() == Seq::<Frame>::empty(),
    {
        FrameBuffer { frames: Vec::new() }
    }

    /// Appends one captured frame; every buffered frame keeps its place.
    pub fn push_frame(&mut self, frame: Frame)
        ensures
            final(self).spec_frames() == old(self).spec_frames().push(frame),
    {
        self.frames.push(frame);
    }

    /// The number of buffered frames, as the `get` command reports it.
    pub fn len(&self) -> (n: usize)
        ensures
            n == self.spec_frames().len(),
    {
        self.frames.len()
    }

    /// Read-only access for retrieval: reporting the buffer removes
    /// nothing.
    pub fn get_frames(&self) -> (r: &Vec<Frame>)
        ensures
            r@ == self.spec_frames(),
    {
        &self.frames
    }
}

/// Backoff before the next capture attempt after repeated failures: the
/// first few consecutive failures retry at once, every further failure
/// adds a tenth of a second, capped at one second, so a persistently
/// failing device cannot peg a core.
pub fn retry_delay_ms(consecutive_failures: u32) -> (r: u32)
    ensures
        consecutive_failures <= 3 ==> r == 0,
        consecutive_failures > 3 ==> r == (if 100 * (consecutive_failures - 3) < 1000 {
            100 * (consecutive_failures - 3)
        } else {
            1000
        }),
{
    if consecutive_failures <= 3 {
        0
    } else {
        let over = consecutive_failures - 3;
        if over >= 10 {
            1000
        } else {
            100 * over
        }
    }
}

/// One step of a session's life as the buffer sees it.
pub enum BufferEvent {
    /// The capture worker appended a frame.
    Captured(Frame),
    /// A `get` command read the buffer.
    Polled,
}

/// The buffer contents after a series of events: a capture appends its
/// frame, a poll changes nothing.
pub open spec fn buffer_after(init: Seq<Frame>, events: Seq<BufferEvent>) -> Seq<Frame>
    decreases events.len(),
{
    if events.len() == 0 {
        init
    } else {
        let rest = buffer_after(init, events.drop_last());
        match events.last() {
            BufferEvent::Captured(f) => rest.push(f),
            BufferEvent::Polled => rest,
        }
    }
}

/// Retrieval never shrinks a session's buffer: whatever captures and polls
/// happen in between, a later poll reports at least the length an earlier
/// one reported.
pub proof fn lemma_buffer_len_monotonic(
    init: Seq<Frame>,
    events: Seq<BufferEvent>,
    n1: int,
    n2: int,
)
    requires
        0 <= n1 <= n2 <= events.len(),
    ensures
        buffer_after(init, events.take(n1)).len() <= buffer_after(init, events.take(n2)).len(),
    decreases n2 - n1,
{
    if n1 < n2 {
        lemma_buffer_len_monotonic(init, events, n1, n2 - 1);
        assert(events.take(n2).drop_last() =~= events.take(n2 - 1));
        assert(events.take(n2).last() == events[n2 - 1]);
    }
}

} // verus!
