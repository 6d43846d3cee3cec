use vstd::prelude::*;

verus! {

/// The poses of all objects, frame after frame. `D` is what is kept of one
/// object in one frame.
#[derive(Debug)]
pub struct Recording<D> {
    object_count: usize,
    data: Vec<D>,
    frame_count: usize,
}

impl<D: Copy> Default for Recording<D> {
    /// An empty recording.
    fn default() -> (recording: Self)
        ensures
            recording.wf(),
            recording@ == Seq::<D>::empty(),
            recording.frames() == 0,
            recording.objects_per_frame() == 0,
    {
        Self::new()
    }
}

impl<D: Copy> Recording<D> {
    /// Everything recorded: the data of the first frame, object by object,
    /// then that of the second, and so on.
    pub closed spec fn view(&self) -> Seq<D> {
        self.data@
    }

    /// How many objects each frame holds.
    pub closed spec fn objects_per_frame(&self) -> nat {
        self.object_count as nat
    }

    /// How many frames are held.
    pub closed spec fn frames(&self) -> nat {
        self.frame_count as nat
    }

    /// The frames are complete: each holds one entry for each object.
    pub open spec fn wf(&self) -> bool {
        self@.len() == self.frames() * self.objects_per_frame()
    }

    /// The index of the frame that a request for `frame_index` is served
    /// from: the index itself, or that of the last frame if it lies beyond.
    pub open spec fn served_frame(&self, frame_index: usize) -> int {
        if frame_index < self.frames() {
            frame_index as int
        } else {
            self.frames() - 1
        }
    }

    /// Creates an empty recording.
    pub fn new() -> (recording: Self)
        ensures
            recording.wf(),
            recording@ == Seq::<D>::empty(),
            recording.frames() == 0,
            recording.objects_per_frame() == 0,
    {
        Self { object_count: 0, data: Vec::new(), frame_count: 0 }
    }

    /// Appends a frame, with one entry for each object. A frame of another
    /// size than the frames held starts the recording anew.
    pub fn save_frame_from(&mut self, objects: &Vec<D>)
        requires
            old(self).wf(),
            old(self).frames() < usize::MAX,
        ensures
            final(self).wf(),
            final(self).objects_per_frame() == objects@.len(),
            objects@.len() == old(self).objects_per_frame() ==> final(self)@ == old(self)@
                + objects@ && final(self).frames() == old(self).frames() + 1,
            objects@.len() != old(self).objects_per_frame() ==> final(self)@ == objects@
                && final(self).frames() == 1,
    {
        if objects.len() != self.object_count {
            self.data.clear();
            self.frame_count = 0;
            self.object_count = objects.len();
        }
        let ghost kept = self.data@;
        let mut i: usize = 0;
        while i < objects.len()
            invariant
                0 <= i <= objects@.len(),
                self.data@ == kept + objects@.take(i as int),
                self.object_count == old(self).object_count || self.object_count
                    == objects@.len(),
                self.object_count == objects@.len(),
                self.frame_count < usize::MAX,
                kept.len() == self.frame_count * self.object_count,
                objects@.len() == old(self).objects_per_frame() ==> kept == old(self)@
                    && self.frame_count == old(self).frame_count,
                objects@.len() != old(self).objects_per_frame() ==> kept == Seq::<D>::empty()
                    && self.frame_count == 0,
            decreases objects@.len() - i,
        {
            self.data.push(objects[i]);
            proof {
                assert(objects@.take(i + 1) =~= objects@.take(i as int).push(objects@[i as int]));
                assert(self.data@ =~= kept + objects@.take(i + 1));
            }
            i += 1;
        }
        proof {
            assert(objects@.take(objects@.len() as int) =~= objects@);
            assert(Seq::<D>::empty() + objects@ =~= objects@);
            let f = self.frame_count as int;
            let n = self.object_count as int;
            assert((f + 1) * n == f * n + n) by (nonlinear_arith);
        }
        self.frame_count += 1;
    }

    /// The data from the start of the requested frame on, for at most
    /// `count` objects. A request beyond the last frame is served from the
    /// last frame; an empty recording gives nothing.
    pub fn load_frame_to(&self, frame_index: usize, count: usize) -> (loaded: Vec<D>)
        requires
            self.wf(),
        ensures
            self.frames() == 0 ==> loaded@ == Seq::<D>::empty(),
            self.frames() > 0 ==> {
                let start = self.served_frame(frame_index) * self.objects_per_frame();
                &&& 0 <= start <= self@.len()
                &&& loaded@ == self@.subrange(
                    start,
                    if start + count <= self@.len() {
                        start + count
                    } else {
                        self@.len() as int
                    },
                )
            },
    {
        let mut loaded: Vec<D> = Vec::new();
        if self.frame_count == 0 {
            return loaded;
        }
        let held = self.data.len();
        let last = self.last_frame_index();
        let frame_index = if frame_index > last {
            last
        } else {
            frame_index
        };
        proof {
            let f = frame_index as int;
            let n = self.object_count as int;
            let all = self.frame_count as int;
            assert(0 <= f * n <= all * n) by (nonlinear_arith)
                requires
                    0 <= f < all,
                    0 <= n,
            ;
            assert(all * n == held);
        }
        let frame_start = frame_index * self.object_count;
        let available = held - frame_start;
        let wanted = if count < available {
            count
        } else {
            available
        };
        let mut i: usize = 0;
        while i < wanted
            invariant
                0 <= i <= wanted,
                frame_start + wanted <= self.data@.len(),
                self.data@.len() == held,
                loaded@ == self.data@.subrange(frame_start as int, frame_start + i),
            decreases wanted - i,
        {
            loaded.push(self.data[frame_start + i]);
            proof {
                assert(loaded@ =~= self.data@.subrange(frame_start as int, frame_start + i + 1));
            }
            i += 1;
        }
        loaded
    }

    /// How many frames are held.
    pub fn frame_count(&self) -> (count: usize)
        ensures
            count == self.frames(),
    {
        self.frame_count
    }

    /// The index of the last frame; `0` when there is none.
    pub fn last_frame_index(&self) -> (index: usize)
        ensures
            self.frames() > 0 ==> index == self.frames() - 1,
            self.frames() == 0 ==> index == 0,
    {
        if self.frame_count >= 1 {
            self.frame_count - 1
        } else {
            0
        }
    }

    /// Forgets every frame.
    pub fn clear(&mut self)
        ensures
            final(self).wf(),
            final(self)@ == Seq::<D>::empty(),
            final(self).frames() == 0,
            final(self).objects_per_frame() == 0,
    {
        self.object_count = 0;
        self.data.clear();
        self.frame_count = 0;
    }
}

} // verus!
