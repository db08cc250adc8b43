//! The admission limiter: how many images that were not on screen in the
//! previous frame one frame may introduce.
use vstd::prelude::*;
use std::collections::HashSet;

verus! {

broadcast use vstd::std_specs::hash::group_hash_axioms;

/// Admits at most `max_new` images per frame that the previous frame did not
/// show, and always admits those that it did.
pub struct ImgLimiter {
    current: HashSet<u64>,
    previous: HashSet<u64>,
    new_count: u64,
    limited: bool,
    max_new: u64,
}

impl ImgLimiter {
    /// The images admitted in the frame being drawn.
    pub closed spec fn current_frame(&self) -> Set<u64> {
        self.current@
    }

    /// The images shown in the previous frame.
    pub closed spec fn previous_frame(&self) -> Set<u64> {
        self.previous@
    }

    /// How many images this frame has admitted that the previous one did
    /// not show.
    pub closed spec fn new_count(&self) -> u64 {
        self.new_count
    }

    /// Whether this frame has refused an image.
    pub closed spec fn limited(&self) -> bool {
        self.limited
    }

    /// The most new images per frame.
    pub closed spec fn max_new(&self) -> u64 {
        self.max_new
    }

    /// The count of new images never passes the bound.
    pub open spec fn wf(&self) -> bool {
        self.new_count() <= self.max_new()
    }

    /// A limiter that admits at most `max_new` new images per frame, before
    /// its first frame.
    pub fn new(max_new: u64) -> (r: ImgLimiter)
        ensures
            r.wf(),
            r.max_new() == max_new,
            r.current_frame() == Set::<u64>::empty(),
            r.previous_frame() == Set::<u64>::empty(),
            r.new_count() == 0,
            !r.limited(),
    {
        ImgLimiter {
            current: HashSet::new(),
            previous: HashSet::new(),
            new_count: 0,
            limited: false,
            max_new,
        }
    }

    /// Decides whether the image `id` may be shown in the frame being drawn.
    /// One that the previous frame showed, or that this frame has already
    /// admitted, is admitted; a new one is admitted while fewer than
    /// `max_new` new ones have been; any other is refused, and the frame is
    /// marked as limited.
    pub fn limit(&mut self, id: u64) -> (r: bool)
        requires
            old(self).wf(),
        ensures
            final(self).wf(),
            final(self).max_new() == old(self).max_new(),
            final(self).previous_frame() == old(self).previous_frame(),
            if old(self).previous_frame().contains(id) {
                &&& r
                &&& final(self).current_frame() == old(self).current_frame().insert(id)
                &&& final(self).new_count() == old(self).new_count()
                &&& final(self).limited() == old(self).limited()
            } else if old(self).current_frame().contains(id) {
                &&& r
                &&& final(self).current_frame() == old(self).current_frame()
                &&& final(self).new_count() == old(self).new_count()
                &&& final(self).limited() == old(self).limited()
            } else if old(self).new_count() < old(self).max_new() {
                &&& r
                &&& final(self).current_frame() == old(self).current_frame().insert(id)
                &&& final(self).new_count() == old(self).new_count() + 1
                &&& final(self).limited() == old(self).limited()
            } else {
                &&& !r
                &&& final(self).current_frame() == old(self).current_frame()
                &&& final(self).new_count() == old(self).new_count()
                &&& final(self).limited()
            },
    {
        if self.previous.contains(&id) {
            self.current.insert(id);
            return true;
        }
        if self.current.contains(&id) {
            return true;
        }
        if self.new_count < self.max_new {
            self.current.insert(id);
            self.new_count = self.new_count + 1;
            return true;
        }
        self.limited = true;
        false
    }

    /// Ends the frame: its images become the previous frame's, the count of
    /// new images starts again at zero, and the limited mark is cleared.
    /// Returns whether the frame refused an image, in which case the host
    /// should draw another frame so that the refused images get their turn.
    pub fn view_finish(&mut self) -> (r: bool)
        requires
            old(self).wf(),
        ensures
            final(self).wf(),
            final(self).max_new() == old(self).max_new(),
            final(self).previous_frame() == old(self).current_frame(),
            final(self).current_frame() == Set::<u64>::empty(),
            final(self).new_count() == 0,
            !final(self).limited(),
            r == old(self).limited(),
    {
        std::mem::swap(&mut self.previous, &mut self.current);
        self.current.clear();
        self.new_count = 0;
        let r = self.limited;
        self.limited = false;
        r
    }
}

} // verus!
