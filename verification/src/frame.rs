use vstd::prelude::*;

verus! {

/// Number of frames between `target` and `current` on a clock that wraps
/// around at `2^32`.
pub open spec fn frame_age(current: u32, target: u32) -> int {
    if current >= target {
        current - target
    } else {
        current - target + 0x1_0000_0000
    }
}

/// What `Frame::update` leaves in `frame` when the clock reads `current`:
/// a frame older than `Frame::MAX_AGE` is moved to its age plus
/// `Frame::AGE_REFRESH_RATE`, any other frame is kept.
pub open spec fn refreshed(frame: Frame, current: Frame) -> Frame {
    if frame_age(current.0, frame.0) > Frame::MAX_AGE {
        Frame((frame_age(current.0, frame.0) + Frame::AGE_REFRESH_RATE) as u32)
    } else {
        frame
    }
}

/// A frame counter. Frames live on a wrapping 32-bit clock.
#[derive(Debug, Clone, Copy, PartialEq, Eq, Structural, Hash, PartialOrd, Ord)]
pub struct Frame(pub u32);

impl Frame {
    pub const AGE_REFRESH_RATE: u32 = 518_400_000;

    pub const MAX_AGE: u32 = 3_258_167_296;

    pub fn get(self) -> (r: u32)
        ensures
            r == self.0,
    {
        self.0
    }

    pub fn set(&mut self, value: u32)
        ensures
            final(self).0 == value,
    {
        self.0 = value;
    }

    /// Checks if the current frame is newer than the target frame using the
    /// global frame as a reference.
    pub fn is_newer(self, current: Frame, last: Frame) -> (r: bool)
        ensures
            r <==> frame_age(current.0, self.0) < frame_age(current.0, last.0),
    {
        let last_diff = current.0.wrapping_sub(last.0);
        let target_diff = current.0.wrapping_sub(self.0);

        target_diff < last_diff
    }

    pub fn previous(self) -> (r: Frame)
        ensures
            r.0 == (if self.0 == 0 { u32::MAX } else { (self.0 - 1) as u32 }),
    {
        Frame(self.0.wrapping_sub(1))
    }

    pub fn update(&mut self, current: Frame)
        requires
            frame_age(current.0, old(self).0) > Frame::MAX_AGE ==> frame_age(current.0, old(self).0)
                + Frame::AGE_REFRESH_RATE <= u32::MAX,
        ensures
            *final(self) == refreshed(*old(self), current),
    {
        let age = current.0.wrapping_sub(self.0);

        if age > Frame::MAX_AGE {
            self.0 = age + Frame::AGE_REFRESH_RATE;
        }
    }
}

/// A frame stamped at the current frame is newer than any other last-run
/// frame, and not newer than the current frame itself.
pub proof fn law_current_is_newer(current: Frame, last: Frame)
    ensures
        frame_age(current.0, current.0) < frame_age(current.0, last.0) <==> last != current,
{
}

/// The frame before a frame is one frame older than it.
pub proof fn law_previous_age(frame: Frame)
    ensures
        frame_age(frame.0, (if frame.0 == 0 { u32::MAX } else { (frame.0 - 1) as u32 })) == 1,
{
}

/// When an object was added and when it was last modified.
#[derive(Debug, Clone, Copy, PartialEq, Eq, Structural, PartialOrd, Ord, Hash)]
pub struct ObjectStatus {
    pub added: Frame,
    pub modified: Frame,
}

impl ObjectStatus {
    pub fn new() -> (r: ObjectStatus)
        ensures
            r.added.0 == 0,
            r.modified.0 == 0,
    {
        ObjectStatus { added: Frame(0), modified: Frame(0) }
    }

    pub fn update(&mut self, current: Frame)
        requires
            frame_age(current.0, old(self).added.0) > Frame::MAX_AGE ==> frame_age(
                current.0,
                old(self).added.0,
            ) + Frame::AGE_REFRESH_RATE <= u32::MAX,
            frame_age(current.0, old(self).modified.0) > Frame::MAX_AGE ==> frame_age(
                current.0,
                old(self).modified.0,
            ) + Frame::AGE_REFRESH_RATE <= u32::MAX,
        ensures
            final(self).added == refreshed(old(self).added, current),
            final(self).modified == refreshed(old(self).modified, current),
    {
        self.added.update(current);
        self.modified.update(current);
    }
}

impl From<u32> for Frame {
    fn from(value: u32) -> (r: Frame) {
        Frame(value)
    }
}

impl vstd::std_specs::convert::FromSpecImpl<u32> for Frame {
    open spec fn obeys_from_spec() -> bool {
        true
    }

    open spec fn from_spec(v: u32) -> Frame {
        Frame(v)
    }
}

impl From<&u32> for Frame {
    fn from(value: &u32) -> (r: Frame) {
        Frame(*value)
    }
}

impl vstd::std_specs::convert::FromSpecImpl<&u32> for Frame {
    open spec fn obeys_from_spec() -> bool {
        true
    }

    open spec fn from_spec(v: &u32) -> Frame {
        Frame(*v)
    }
}

} // verus!
