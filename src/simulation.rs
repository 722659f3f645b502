use vstd::prelude::*;
use crate::blob::{Blob, Config, is_step};
use crate::render::RenderFrame;

verus! {

/// A fixed population of particles, all pulled toward one shared target.
#[derive(Debug)]
pub struct Simulation {
    pub blobs: Vec<Blob>,
}

impl Simulation {
    pub open spec fn wf(&self) -> bool {
        forall|i: int| 0 <= i < self.blobs@.len() ==> (#[trigger] self.blobs@[i]).wf()
    }

    /// `n` particles with the given parameters, each placed at random.
    pub fn new(config: Config, n: usize) -> (r: Simulation)
        ensures
            r.wf(),
            r.blobs@.len() == n,
            forall|i: int| 0 <= i < n ==> (#[trigger] r.blobs@[i]).config == config,
    {
        let mut blobs: Vec<Blob> = Vec::new();
        let mut i: usize = 0;
        while i < n
            invariant
                i <= n,
                blobs@.len() == i,
                forall|j: int| 0 <= j < i ==> (#[trigger] blobs@[j]).wf() && blobs@[j].config == config,
            decreases n - i,
        {
            blobs.push(Blob::new(config));
            i = i + 1;
        }
        Simulation { blobs }
    }

    /// Advances every particle, in population order, by one step toward
    /// the target `(target_x, target_y)`.
    pub fn step(&mut self, target_x: i32, target_y: i32)
        requires
            old(self).wf(),
        ensures
            final(self).wf(),
            final(self).blobs@.len() == old(self).blobs@.len(),
            forall|i: int|
                0 <= i < old(self).blobs@.len() ==> is_step(
                    #[trigger] old(self).blobs@[i],
                    final(self).blobs@[i],
                    target_x as int,
                    target_y as int,
                ),
            forall|i: int|
                0 <= i < old(self).blobs@.len() ==> {
                    let b = #[trigger] final(self).blobs@[i];
                    b.velocity.x * b.velocity.x + b.velocity.y * b.velocity.y <= b.config.max_speed
                        * b.config.max_speed
                },
    {
        let n = self.blobs.len();
        let mut i: usize = 0;
        while i < n
            invariant
                i <= n,
                n == old(self).blobs@.len(),
                self.blobs@.len() == n,
                forall|j: int| 0 <= j < n ==> (#[trigger] old(self).blobs@[j]).wf(),
                forall|j: int| 0 <= j < n ==> (#[trigger] self.blobs@[j]).wf(),
                forall|j: int|
                    0 <= j < i ==> is_step(
                        #[trigger] old(self).blobs@[j],
                        self.blobs@[j],
                        target_x as int,
                        target_y as int,
                    ),
                forall|j: int| i <= j < n ==> #[trigger] self.blobs@[j] == old(self).blobs@[j],
                forall|j: int|
                    0 <= j < i ==> {
                        let b = #[trigger] self.blobs@[j];
                        b.velocity.x * b.velocity.x + b.velocity.y * b.velocity.y
                            <= b.config.max_speed * b.config.max_speed
                    },
            decreases n - i,
        {
            let mut b = self.blobs[i];
            b.update(target_x, target_y);
            self.blobs[i] = b;
            i = i + 1;
        }
    }

    /// The frame that the compositor draws for the current population.
    pub fn frame(&self, width: u32, height: u32) -> (r: RenderFrame)
        requires
            self.wf(),
        ensures
            r.wf(),
            r.active() == crate::render::frame_centers(self.blobs@),
            r.width == width,
            r.height == height,
    {
        RenderFrame::new(self.blobs.as_slice(), width, height)
    }
}

} // verus!
