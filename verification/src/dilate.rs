//! One blight-spreading step: every interior cell takes the maximum of its
//! own value and a kernel-weighted maximum over the 5 x 5 window around it.
//! The kernel is one of four fixed patterns, picked per cell by a spatially
//! coherent noise function; the two-cell border is never rewritten.

use vstd::prelude::*;
use vstd::arithmetic::div_mod::{
    lemma_div_is_ordered, lemma_fundamental_div_mod, lemma_div_pos_is_pos,
};
use crate::grid::{GridBuffer, lemma_cell_index};

verus! {

/// Whether slot `(a, b)` of the 5 x 5 spreading kernel `sel` is set. The four
/// patterns are arrows spreading up, right, left and down; every pattern has
/// its centre `(2, 2)` set. A selector outside `0..4` reads as the last
/// pattern, matching how the selector is clamped.
pub open spec fn kernel_has(sel: int, a: int, b: int) -> bool {
    if sel == 0 {
        ||| (a == 0 && b == 2)
        ||| (a == 1 && b == 2)
        ||| (a == 2 && b == 1)
        ||| (a == 2 && b == 2)
        ||| (a == 2 && b == 3)
    } else if sel == 1 {
        ||| (a == 1 && b == 2)
        ||| (a == 2 && b == 2)
        ||| (a == 2 && b == 3)
        ||| (a == 2 && b == 4)
        ||| (a == 3 && b == 2)
    } else if sel == 2 {
        ||| (a == 1 && b == 2)
        ||| (a == 2 && b == 0)
        ||| (a == 2 && b == 1)
        ||| (a == 2 && b == 2)
        ||| (a == 3 && b == 2)
    } else {
        ||| (a == 2 && b == 1)
        ||| (a == 2 && b == 2)
        ||| (a == 2 && b == 3)
        ||| (a == 3 && b == 2)
        ||| (a == 4 && b == 2)
    }
}

/// The noise table's hash of grid position `(i, j)`: a fixed function of the
/// coordinates alone, since the table is built from a fixed seed.
pub uninterp spec fn perm_hash(i: int, j: int) -> int;

/// The kernel pattern the noise hash picks for cell `(i, j)`.
pub open spec fn kernel_pick(i: int, j: int) -> int {
    perm_hash(i, j) % 4
}

/// Relies on `noise::permutationtable::PermutationTable::new`, which builds
/// the table deterministically from its seed, and on `NoiseHasher::hash`,
/// which looks the point up in the table and so returns one of its 256 byte
/// values.
#[verifier::external_body]
fn sample_noise(i: usize, j: usize) -> (h: usize)
    ensures
        h == perm_hash(i as int, j as int),
        h < 256,
{
    let table = noise::permutationtable::PermutationTable::new(0);
    noise::permutationtable::NoiseHasher::hash(&table, &[i as isize, j as isize])
}

/// Whether cell `(i, j)` is an interior cell, more than two cells away from
/// every edge.
pub open spec fn interior(i: int, j: int) -> bool {
    2 <= i < 254 && 2 <= j < 254
}

/// Maximum of the first `t` kernel-selected slots of the 5 x 5 window centred
/// at `(i, j)`; slots the kernel leaves out contribute nothing.
pub open spec fn window_max(cells: Seq<u8>, i: int, j: int, sel: int, t: int) -> u8
    decreases t,
{
    if t <= 0 {
        0u8
    } else {
        let a = (t - 1) / 5;
        let b = (t - 1) % 5;
        let prev = window_max(cells, i, j, sel, t - 1);
        let val: u8 = if kernel_has(sel, a, b) {
            cells[(i - 2 + a) * 256 + (j - 2 + b)]
        } else {
            0u8
        };
        if val > prev {
            val
        } else {
            prev
        }
    }
}

/// The new value of interior cell `(i, j)` under kernel `sel`: the maximum of
/// the cell's own value and the kernel-weighted window maximum.
pub open spec fn dilated_cell(cells: Seq<u8>, i: int, j: int, sel: int) -> u8 {
    let src = cells[i * 256 + j];
    let wmax = window_max(cells, i, j, sel, 25);
    if src > wmax {
        src
    } else {
        wmax
    }
}

/// The new value of the cell with row-major index `k` after one dilation
/// step: interior cells spread, border cells keep their value.
pub open spec fn dilated_at(cells: Seq<u8>, k: int) -> u8 {
    let i = k / 256;
    let j = k % 256;
    if interior(i, j) {
        dilated_cell(cells, i, j, kernel_pick(i, j))
    } else {
        cells[k]
    }
}

/// The whole grid after one dilation step.
pub open spec fn dilated(cells: Seq<u8>) -> Seq<u8> {
    Seq::new(cells.len(), |k: int| dilated_at(cells, k))
}

/// For a slot index `t` of the 5 x 5 window, its row, column, and the
/// identity joining them back.
proof fn lemma_window_index(t: int)
    requires
        0 <= t < 25,
    ensures
        0 <= t / 5 < 5,
        0 <= t % 5 < 5,
        (t / 5) * 5 + t % 5 == t,
    {
    lemma_fundamental_div_mod(t, 5);
    lemma_div_is_ordered(t, 24, 5);
    lemma_div_pos_is_pos(t, 5);
    assert(24int / 5 == 4);
}

/// The window maximum over all 25 slots is at least the centre cell itself,
/// whatever kernel is selected.
proof fn lemma_window_max_center(cells: Seq<u8>, i: int, j: int, sel: int, t: int)
    requires
        13 <= t <= 25,
    ensures
        window_max(cells, i, j, sel, t) >= cells[i * 256 + j],
    decreases t,
{
    if t == 13 {
        assert((12int) / 5 == 2 && (12int) % 5 == 2);
        assert(kernel_has(sel, 2, 2));
        assert((i - 2 + 2) * 256 + (j - 2 + 2) == i * 256 + j);
    } else {
        lemma_window_max_center(cells, i, j, sel, t - 1);
    }
}

/// Dilation is monotone at every cell: the new value is at least the old
/// one, and a cell already at the maximum intensity stays there.
pub proof fn lemma_dilate_monotonic(cells: Seq<u8>, k: int)
    requires
        cells.len() == 65536,
        0 <= k < 65536,
    ensures
        dilated(cells)[k] >= cells[k],
        cells[k] == 255 ==> dilated(cells)[k] == 255,
{
    lemma_cell_index(k);
    let i = k / 256;
    let j = k % 256;
    if interior(i, j) {
        lemma_window_max_center(cells, i, j, kernel_pick(i, j), 25);
    }
}

/// Dilation never writes the two-cell border: a border cell keeps its value,
/// and in particular a clean border cell stays clean.
pub proof fn lemma_dilate_border(cells: Seq<u8>, k: int)
    requires
        cells.len() == 65536,
        0 <= k < 65536,
        !interior(k / 256, k % 256),
    ensures
        dilated(cells)[k] == cells[k],
        cells[k] == 0 ==> dilated(cells)[k] == 0,
{
}

/// Decides whether slot `(a, b)` of kernel `sel` is set.
fn kernel_has_exec(sel: usize, a: usize, b: usize) -> (r: bool)
    ensures
        r == kernel_has(sel as int, a as int, b as int),
{
    if sel == 0 {
        (a == 0 && b == 2) || (a == 1 && b == 2) || (a == 2 && b == 1) || (a == 2 && b == 2)
            || (a == 2 && b == 3)
    } else if sel == 1 {
        (a == 1 && b == 2) || (a == 2 && b == 2) || (a == 2 && b == 3) || (a == 2 && b == 4)
            || (a == 3 && b == 2)
    } else if sel == 2 {
        (a == 1 && b == 2) || (a == 2 && b == 0) || (a == 2 && b == 1) || (a == 2 && b == 2)
            || (a == 3 && b == 2)
    } else {
        (a == 2 && b == 1) || (a == 2 && b == 2) || (a == 2 && b == 3) || (a == 3 && b == 2)
            || (a == 4 && b == 2)
    }
}

impl GridBuffer {
    /// Advances the grid one dilation step: every interior cell becomes the
    /// maximum of its own value and the kernel-weighted maximum of its 5 x 5
    /// window, the kernel being picked per cell by the noise function; the
    /// two-cell border keeps its previous contents. No cell ever decreases.
    pub fn dilate(&mut self)
        requires
            old(self).wf(),
        ensures
            final(self).wf(),
            final(self).cells() == dilated(old(self).cells()),
            forall|k: int|
                0 <= k < 65536 ==> final(self).cells()[k] >= old(self).cells()[k],
    {
        let ghost orig = self.cells();
        let mut out = GridBuffer::new();
        let mut k: usize = 0;
        while k < 65536
            invariant
                self.wf(),
                out.wf(),
                self.cells() == orig,
                orig.len() == 65536,
                k <= 65536,
                forall|m: int| 0 <= m < k ==> out.cells()[m] == dilated_at(orig, m),
            decreases 65536 - k,
        {
            proof {
                lemma_cell_index(k as int);
            }
            let i = k / 256;
            let j = k % 256;
            if 2 <= i && i < 254 && 2 <= j && j < 254 {
                let sel = sample_noise(i, j) % 4;
                proof {
                    assert(sel == kernel_pick(i as int, j as int));
                }
                let src = self.get(i, j);
                let mut cur: u8 = 0;
                let mut t: usize = 0;
                while t < 25
                    invariant
                        self.wf(),
                        self.cells() == orig,
                        orig.len() == 65536,
                        t <= 25,
                        2 <= i < 254,
                        2 <= j < 254,
                        sel < 4,
                        cur == window_max(orig, i as int, j as int, sel as int, t as int),
                    decreases 25 - t,
                {
                    proof {
                        lemma_window_index(t as int);
                    }
                    let a = t / 5;
                    let b = t % 5;
                    if kernel_has_exec(sel, a, b) {
                        let val = self.get(i - 2 + a, j - 2 + b);
                        if val > cur {
                            cur = val;
                        }
                    }
                    t += 1;
                }
                let v = if src > cur {
                    src
                } else {
                    cur
                };
                out.set(i, j, v);
                proof {
                    assert(out.cells()[k as int] == dilated_at(orig, k as int));
                }
            } else {
                let v = self.get(i, j);
                out.set(i, j, v);
            }
            k += 1;
        }
        proof {
            assert(out.cells() =~= dilated(orig));
            assert forall|m: int| 0 <= m < 65536 implies dilated(orig)[m] >= orig[m] by {
                lemma_dilate_monotonic(orig, m);
            }
        }
        *self = out;
    }
}

} // verus!
