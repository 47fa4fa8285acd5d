//! Buffering of frame-ready notifications.
//!
//! The rendering pipeline signals "a frame is ready" from its own side;
//! delivery is fire and forget.  The core buffers these events in
//! arrival order until the paint loop drains them all at once.

use vstd::prelude::*;

use crate::ids::DocumentId;

verus! {

/// The queue between the rendering pipeline's frame-ready callback and
/// the paint loop's drain step.
pub struct MyRenderNotifier {
    frame_ready_msg: Vec<(DocumentId, bool)>,
}

impl MyRenderNotifier {
    /// The buffered events, in arrival order.  Each pairs the document
    /// whose frame was composited with whether a repaint is wanted.
    pub closed spec fn events(self) -> Seq<(DocumentId, bool)> {
        self.frame_ready_msg@
    }

    /// Creates an empty buffer.
    pub fn new() -> (r: Self)
        ensures
            r.events() == Seq::<(DocumentId, bool)>::empty(),
    {
        let r = MyRenderNotifier { frame_ready_msg: Vec::new() };
        proof {
            assert(r.events() =~= Seq::<(DocumentId, bool)>::empty());
        }
        r
    }

    /// Records that a frame of one document has been composited: the
    /// event queues behind those already buffered.
    pub fn new_frame_ready(&mut self, document_id: DocumentId, render: bool)
        ensures
            final(self).events() == old(self).events().push((document_id, render)),
    {
        self.frame_ready_msg.push((document_id, render));
    }

    /// Drains the buffer: hands back every buffered event, in arrival
    /// order, and leaves the buffer empty.
    pub fn get(&mut self) -> (r: Vec<(DocumentId, bool)>)
        ensures
            r@ == old(self).events(),
            final(self).events() == Seq::<(DocumentId, bool)>::empty(),
    {
        let mut out: Vec<(DocumentId, bool)> = Vec::new();
        let mut i: usize = 0;
        while i < self.frame_ready_msg.len()
            invariant
                0 <= i <= self.frame_ready_msg@.len(),
                self.frame_ready_msg@ == old(self).frame_ready_msg@,
                out@ == old(self).frame_ready_msg@.take(i as int),
            decreases self.frame_ready_msg@.len() - i,
        {
            out.push(self.frame_ready_msg[i]);
            proof {
                assert(out@ =~= old(self).frame_ready_msg@.take(i + 1));
            }
            i += 1;
        }
        self.frame_ready_msg.clear();
        proof {
            assert(out@ =~= old(self).frame_ready_msg@);
            assert(final(self).events() =~= Seq::<(DocumentId, bool)>::empty());
        }
        out
    }
}

} // verus!
