//! The queue of frames waiting for the transport. Control frames (SETTINGS
//! acknowledgements, PING acknowledgements, WINDOW_UPDATE, RST_STREAM,
//! GOAWAY) go out before response frames; response frames of one stream keep
//! their order, and a header block is queued whole, so it is never
//! interleaved with another stream's.
use std::collections::VecDeque;
use vstd::prelude::*;

verus! {

/// Frame bytes bound for the transport, and the stream they belong to
/// (0 for the connection).
pub struct OutFrame {
    pub stream_id: u32,
    pub bytes: Vec<u8>,
}

impl View for OutFrame {
    type V = (u32, Seq<u8>);

    open spec fn view(&self) -> (u32, Seq<u8>) {
        (self.stream_id, self.bytes@)
    }
}

pub open spec fn frames_view(s: Seq<OutFrame>) -> Seq<(u32, Seq<u8>)> {
    s.map_values(|f: OutFrame| f@)
}

/// `s` without the frames of stream `id`, in the same order.
pub open spec fn without_stream(s: Seq<(u32, Seq<u8>)>, id: u32) -> Seq<(u32, Seq<u8>)>
    decreases s.len(),
{
    if s.len() == 0 {
        s
    } else if s[0].0 == id {
        without_stream(s.drop_first(), id)
    } else {
        seq![s[0]] + without_stream(s.drop_first(), id)
    }
}

/// The two classes of queued frames, each oldest first.
pub struct QueueView {
    pub control: Seq<(u32, Seq<u8>)>,
    pub data: Seq<(u32, Seq<u8>)>,
}

pub struct WriteQueue {
    control: VecDeque<OutFrame>,
    data: VecDeque<OutFrame>,
}

impl View for WriteQueue {
    type V = QueueView;

    closed spec fn view(&self) -> QueueView {
        QueueView { control: frames_view(self.control@), data: frames_view(self.data@) }
    }
}

impl WriteQueue {
    pub fn new() -> (r: WriteQueue)
        ensures
            r@.control.len() == 0,
            r@.data.len() == 0,
    {
        WriteQueue { control: VecDeque::new(), data: VecDeque::new() }
    }

    /// Queues a control frame.
    pub fn push_control(&mut self, f: OutFrame)
        ensures
            final(self)@ == (QueueView { control: old(self)@.control.push(f@), ..old(self)@ }),
    {
        let ghost fv = f@;
        self.control.push_back(f);
        assert(self@.control =~= old(self)@.control.push(fv));
    }

    /// Queues response frames (a whole header block, or DATA).
    pub fn push_data(&mut self, f: OutFrame)
        ensures
            final(self)@ == (QueueView { data: old(self)@.data.push(f@), ..old(self)@ }),
    {
        let ghost fv = f@;
        self.data.push_back(f);
        assert(self@.data =~= old(self)@.data.push(fv));
    }

    /// The next frame to write: the oldest control frame, or else the oldest
    /// response frame.
    pub fn pop(&mut self) -> (r: Option<OutFrame>)
        ensures
            old(self)@.control.len() > 0 ==> (r matches Some(f) && f@ == old(self)@.control[0]
                && final(self)@ == (QueueView { control: old(self)@.control.drop_first(), ..old(self)@ })),
            old(self)@.control.len() == 0 && old(self)@.data.len() > 0 ==> (r matches Some(f) && f@
                == old(self)@.data[0] && final(self)@ == (QueueView {
                data: old(self)@.data.drop_first(),
                ..old(self)@
            })),
            old(self)@.control.len() == 0 && old(self)@.data.len() == 0 ==> r is None && final(self)@
                == old(self)@,
    {
        match self.control.pop_front() {
            Some(f) => {
                assert(self@.control =~= old(self)@.control.drop_first());
                Some(f)
            },
            None => {
                let r = self.data.pop_front();
                assert(self@.data =~= old(self)@.data.drop_first() || r is None);
                r
            },
        }
    }

    /// Drops the queued response frames of stream `id`, as a reset of that
    /// stream does; control frames stay.
    pub fn drop_stream(&mut self, id: u32)
        ensures
            final(self)@ == (QueueView { data: without_stream(old(self)@.data, id), ..old(self)@ }),
    {
        let mut kept: VecDeque<OutFrame> = VecDeque::new();
        let ghost all = self@.data;
        assert(frames_view(kept@) =~= Seq::<(u32, Seq<u8>)>::empty());
        loop
            invariant
                self@.control == old(self)@.control,
                frames_view(kept@) + without_stream(frames_view(self.data@), id) == without_stream(all, id),
                all == old(self)@.data,
            ensures
                self@.control == old(self)@.control,
                frames_view(kept@) == without_stream(all, id),
            decreases self.data@.len(),
        {
            let ghost rest = frames_view(self.data@);
            match self.data.pop_front() {
                Some(f) => {
                    assert(frames_view(self.data@) =~= rest.drop_first());
                    if f.stream_id != id {
                        let ghost before = frames_view(kept@);
                        let ghost fv = f@;
                        kept.push_back(f);
                        assert(frames_view(kept@) =~= before.push(fv));
                        assert(before.push(fv) + without_stream(rest.drop_first(), id) =~= before + (seq![fv] + without_stream(rest.drop_first(), id)));
                    }
                },
                None => {
                    assert(rest.len() == 0);
                    assert(frames_view(kept@) + without_stream(rest, id) =~= frames_view(kept@));
                    break;
                },
            }
        }
        self.data = kept;
    }
}

} // verus!
