//! The terrain simulator's synchronous core: the last published grid, the
//! pending paint batch, and the simulation step a background worker runs
//! between publishes. The worker loop itself lives outside the library; it
//! hands finished buffers back through `swap_if_ready`-style calls to
//! `publish`.

use vstd::prelude::*;
use crate::grid::{GridBuffer, Shape, shape_on_grid, disk_average, filled, all_clean};
use crate::dilate::dilated;

verus! {

/// Whether the batch holds a command for shape `s`.
pub open spec fn batch_has(b: Seq<(Shape, u8)>, s: Shape) -> bool {
    exists|i: int| 0 <= i < b.len() && (#[trigger] b[i]).0 == s
}

/// The position of the command for shape `s`.
pub open spec fn batch_index(b: Seq<(Shape, u8)>, s: Shape) -> int {
    choose|i: int| 0 <= i < b.len() && (#[trigger] b[i]).0 == s
}

/// Each shape appears at most once in the batch.
pub open spec fn batch_unique(b: Seq<(Shape, u8)>) -> bool {
    forall|i: int, j: int| 0 <= i < j < b.len() ==> (#[trigger] b[i]).0 != (#[trigger] b[j]).0
}

/// The grid after applying the first `n` paint commands in order.
pub open spec fn applied(cells: Seq<u8>, b: Seq<(Shape, u8)>, n: int) -> Seq<u8>
    decreases n,
{
    if n <= 0 {
        cells
    } else {
        filled(applied(cells, b, n - 1), b[n - 1].0, b[n - 1].1)
    }
}

/// One background cycle: paint every pending command onto the grid in batch
/// order, then spread the blight one dilation step.
pub fn simulate_step(grid: &mut GridBuffer, batch: &Vec<(Shape, u8)>)
    requires
        old(grid).wf(),
    ensures
        final(grid).wf(),
        final(grid).cells() == dilated(applied(old(grid).cells(), batch@, batch@.len() as int)),
{
    let ghost orig = grid.cells();
    let mut k: usize = 0;
    while k < batch.len()
        invariant
            grid.wf(),
            k <= batch@.len(),
            grid.cells() == applied(orig, batch@, k as int),
        decreases batch@.len() - k,
    {
        let (shape, v) = batch[k];
        grid.fill_shape(&shape, v);
        k += 1;
    }
    grid.dilate();
}

/// The caller-facing simulator state: the last published read buffer and the
/// paint commands accumulated since, coalesced by shape with the last value
/// winning.
pub struct TerrainSim {
    pub read: GridBuffer,
    pub pending: Vec<(Shape, u8)>,
}

impl TerrainSim {
    /// The read buffer is a well-formed grid and the batch holds each shape
    /// at most once.
    pub open spec fn wf(self) -> bool {
        self.read.wf() && batch_unique(self.pending@)
    }

    /// The cells of the last published buffer.
    pub open spec fn read_cells(self) -> Seq<u8> {
        self.read.cells()
    }

    /// A simulator over a clean grid with nothing pending.
    pub fn new() -> (t: TerrainSim)
        ensures
            t.wf(),
            all_clean(t.read_cells()),
            t.pending@.len() == 0,
    {
        TerrainSim { read: GridBuffer::new(), pending: Vec::new() }
    }

    /// Records a paint command for the next background cycle: a command for
    /// the same shape is overwritten (the last value wins), any other shape
    /// is appended. Readers do not see the command until a buffer painted
    /// with it is published.
    pub fn fill_shape(&mut self, shape: Shape, fill: u8)
        requires
            old(self).wf(),
        ensures
            final(self).wf(),
            final(self).read == old(self).read,
            final(self).pending@ == if batch_has(old(self).pending@, shape) {
                old(self).pending@.update(
                    batch_index(old(self).pending@, shape),
                    (shape, fill),
                )
            } else {
                old(self).pending@.push((shape, fill))
            },
    {
        let ghost orig = self.pending@;
        let mut k: usize = 0;
        while k < self.pending.len()
            invariant
                self.wf(),
                self.pending@ == orig,
                orig == old(self).pending@,
                self.read == old(self).read,
                k <= orig.len(),
                forall|m: int| 0 <= m < k ==> (#[trigger] orig[m]).0 != shape,
            decreases orig.len() - k,
        {
            if self.pending[k].0 == shape {
                proof {
                    assert(orig[k as int].0 == shape);
                    assert(batch_has(orig, shape));
                }
                self.pending[k] = (shape, fill);
                proof {
                    let w = batch_index(orig, shape);
                    assert(0 <= w < orig.len() && orig[w].0 == shape);
                    assert(w == k as int);
                    assert(self.pending@ == orig.update(w, (shape, fill)));
                    assert(batch_unique(self.pending@)) by {
                        assert forall|i: int, j: int|
                            0 <= i < j < self.pending@.len() implies (#[trigger] self.pending@[i]).0
                                != (#[trigger] self.pending@[j]).0 by {
                            assert(self.pending@[i].0 == orig[i].0);
                            assert(self.pending@[j].0 == orig[j].0);
                        }
                    }
                }
                return ;
            }
            k += 1;
        }
        self.pending.push((shape, fill));
        proof {
            assert(!batch_has(orig, shape));
            assert(batch_unique(self.pending@)) by {
                assert forall|i: int, j: int|
                    0 <= i < j < self.pending@.len() implies (#[trigger] self.pending@[i]).0 != (
                #[trigger] self.pending@[j]).0 by {
                    if j < orig.len() {
                        assert(self.pending@[i].0 == orig[i].0);
                        assert(self.pending@[j].0 == orig[j].0);
                    } else {
                        assert(self.pending@[i].0 == orig[i].0);
                        assert(self.pending@[j] == (shape, fill));
                    }
                }
            }
        }
    }

    /// The truncated mean blight over the shape's disk, read synchronously
    /// from the last published buffer.
    pub fn query_shape_avg(&self, shape: &Shape) -> (avg: u8)
        requires
            self.wf(),
            shape_on_grid(*shape),
        ensures
            avg == disk_average(self.read_cells(), *shape),
    {
        self.read.query_average(shape)
    }

    /// The raw cells of the last published buffer, row-major, one byte per
    /// cell.
    pub fn data(&self) -> (v: Vec<u8>)
        requires
            self.wf(),
        ensures
            v@ == self.read_cells(),
    {
        self.read.to_bytes()
    }

    /// Installs a buffer freshly produced by the background worker as the
    /// new read buffer and hands the pending batch over for the worker's
    /// next cycle.
    pub fn publish(&mut self, produced: GridBuffer) -> (batch: Vec<(Shape, u8)>)
        requires
            old(self).wf(),
            produced.wf(),
        ensures
            final(self).wf(),
            final(self).read_cells() == produced.cells(),
            final(self).pending@.len() == 0,
            batch@ == old(self).pending@,
    {
        self.read = produced;
        let mut batch: Vec<(Shape, u8)> = Vec::new();
        std::mem::swap(&mut batch, &mut self.pending);
        batch
    }
}

} // verus!
