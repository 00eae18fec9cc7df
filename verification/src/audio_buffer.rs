use vstd::prelude::*;
use std::collections::VecDeque;

verus! {

/// The frames kept after `frame` arrives in a buffer holding `frames` with room
/// for `capacity` frames: nothing is kept without room, otherwise the oldest
/// frame makes way when the buffer is full.
pub open spec fn after_push(frames: Seq<Seq<u8>>, frame: Seq<u8>, capacity: nat) -> Seq<Seq<u8>> {
    if capacity == 0 {
        frames
    } else if frames.len() >= capacity {
        frames.drop_first().push(frame)
    } else {
        frames.push(frame)
    }
}

/// The frames a buffer of `capacity` frames holds after receiving `pushed`
/// in order, starting empty.
pub open spec fn after_pushes(pushed: Seq<Seq<u8>>, capacity: nat) -> Seq<Seq<u8>>
    decreases pushed.len(),
{
    if pushed.len() == 0 {
        Seq::empty()
    } else {
        after_push(after_pushes(pushed.drop_last(), capacity), pushed.last(), capacity)
    }
}

/// Number of frames of `frame_ms` milliseconds that fit in `max_duration_ms`.
pub open spec fn frame_capacity(max_duration_ms: u32, frame_ms: u32) -> nat {
    if frame_ms > 0 { (max_duration_ms / frame_ms) as nat } else { 0 }
}

/// A ring buffer for PCM audio frames to prevent first-word truncation.
/// Pre-captures audio during the hotkey decision window so that audio
/// recorded before the session officially starts is not lost.
pub struct AudioBuffer {
    frames: VecDeque<Vec<u8>>,
    max_frames: usize,
}

impl AudioBuffer {
    /// The buffered frames, oldest first.
    pub closed spec fn frames(&self) -> Seq<Seq<u8>> {
        self.frames@.map_values(|f: Vec<u8>| f@)
    }

    /// How many frames the buffer keeps.
    pub closed spec fn capacity(&self) -> nat {
        self.max_frames as nat
    }

    #[verifier::type_invariant]
    spec fn within_capacity(&self) -> bool {
        self.frames@.len() <= self.max_frames
    }

    /// Creates a buffer for `max_duration_ms` milliseconds of frames of
    /// `frame_ms` milliseconds each.
    pub fn new(max_duration_ms: u32, frame_ms: u32) -> (b: AudioBuffer)
        ensures
            b.frames() == Seq::<Seq<u8>>::empty(),
            b.capacity() == frame_capacity(max_duration_ms, frame_ms),
    {
        let max_frames = if frame_ms > 0 {
            (max_duration_ms / frame_ms) as usize
        } else {
            0
        };
        let b = AudioBuffer { frames: VecDeque::with_capacity(max_frames), max_frames };
        assert(b.frames() =~= Seq::<Seq<u8>>::empty());
        b
    }

    /// Pushes a new frame into the buffer, evicting the oldest if full.
    pub fn push(&mut self, frame: Vec<u8>)
        ensures
            final(self).frames() == after_push(old(self).frames(), frame@, old(self).capacity()),
            final(self).capacity() == old(self).capacity(),
            final(self).frames().len() <= final(self).capacity(),
    {
        proof {
            use_type_invariant(&*self);
        }
        if self.max_frames == 0 {
            return;
        }
        let ghost f = frame@;
        let ghost before = self.frames();
        let mut frames: VecDeque<Vec<u8>> = VecDeque::new();
        std::mem::swap(&mut frames, &mut self.frames);
        if frames.len() >= self.max_frames {
            frames.pop_front();
        }
        frames.push_back(frame);
        self.frames = frames;
        assert(self.frames() =~= after_push(before, f, self.max_frames as nat));
    }

    /// Drains all buffered frames in order (oldest first).
    pub fn drain(&mut self) -> (out: Vec<Vec<u8>>)
        ensures
            out@.map_values(|f: Vec<u8>| f@) == old(self).frames(),
            final(self).frames() == Seq::<Seq<u8>>::empty(),
            final(self).capacity() == old(self).capacity(),
    {
        let ghost before = self.frames();
        let mut frames: VecDeque<Vec<u8>> = VecDeque::new();
        std::mem::swap(&mut frames, &mut self.frames);
        let mut out: Vec<Vec<u8>> = Vec::new();
        assert(out@.map_values(|f: Vec<u8>| f@) + frames@.map_values(|f: Vec<u8>| f@) =~= before);
        while frames.len() > 0
            invariant
                out@.map_values(|f: Vec<u8>| f@) + frames@.map_values(|f: Vec<u8>| f@) == before,
            decreases frames@.len(),
        {
            let ghost rest = frames@.map_values(|f: Vec<u8>| f@);
            let f = frames.pop_front().unwrap();
            out.push(f);
            assert(out@.map_values(|f: Vec<u8>| f@) + frames@.map_values(|f: Vec<u8>| f@) =~= before) by {
                assert(rest =~= seq![f@] + frames@.map_values(|f: Vec<u8>| f@));
            }
        }
        assert(self.frames() =~= Seq::<Seq<u8>>::empty());
        assert(out@.map_values(|f: Vec<u8>| f@) =~= before);
        out
    }

    /// Clears all buffered frames without returning them.
    pub fn clear(&mut self)
        ensures
            final(self).frames() == Seq::<Seq<u8>>::empty(),
            final(self).capacity() == old(self).capacity(),
    {
        self.frames = VecDeque::new();
        assert(self.frames() =~= Seq::<Seq<u8>>::empty());
    }

    /// Number of buffered frames.
    pub fn len(&self) -> (n: usize)
        ensures
            n == self.frames().len(),
            n <= self.capacity(),
    {
        proof {
            use_type_invariant(self);
        }
        self.frames.len()
    }

    /// Whether no frame is buffered.
    pub fn is_empty(&self) -> (r: bool)
        ensures
            r == (self.frames().len() == 0),
    {
        self.frames.len() == 0
    }
}

/// Pushing keeps at most `capacity` frames, and the frames kept are the most
/// recent ones pushed, oldest first.
pub proof fn law_buffer_keeps_newest_frames(pushed: Seq<Seq<u8>>, capacity: nat)
    ensures
        after_pushes(pushed, capacity) == if capacity == 0 {
            Seq::<Seq<u8>>::empty()
        } else if pushed.len() <= capacity {
            pushed
        } else {
            pushed.skip(pushed.len() - capacity)
        },
    decreases pushed.len(),
{
    if pushed.len() > 0 {
        let init = pushed.drop_last();
        law_buffer_keeps_newest_frames(init, capacity);
        if capacity > 0 {
            if pushed.len() <= capacity {
                assert(init.push(pushed.last()) =~= pushed);
            } else if init.len() <= capacity {
                assert(init.drop_first().push(pushed.last()) =~= pushed.skip(pushed.len() - capacity));
            } else {
                assert(init.skip(init.len() - capacity).drop_first().push(pushed.last()) =~= pushed.skip(
                    pushed.len() - capacity,
                ));
            }
        }
    }
}

} // verus!
