//! Module measurement, calibration and occlusion localization.
//!
//! 1. [`ModuleStats`] arrive from the sampler, one measurement per module.
//! 2. [`confidence`] sorts the function-pattern modules into the healthy reference and certain damage.
//! 3. [`occlusion`] turns low-confidence scatter into a blob mask, because logos are blobs and noise
//!    is not.
use vstd::prelude::*;

pub mod confidence;
pub mod geometry;
pub mod morphology;
pub mod occlusion;
pub mod regions;

verus! {

/// What the pixels said about one module cell.
#[derive(Clone, Copy, Debug, PartialEq, Eq, Structural)]
pub struct ModuleStats {
    /// Mean luminance over the cell interior.
    pub mean_luma: u8,
    /// Luminance variance within the cell, capped at `u16::MAX`.
    pub var_luma: u16,
    /// Mean chroma magnitude over the cell: distance from the neutral axis.
    pub chroma: u8,
    /// The binarization threshold in force at this cell's location.
    pub threshold: u8,
    /// The bit the binarizer settled on. `true` is dark.
    pub value: bool,
}

impl ModuleStats {
    /// Signed distance from the threshold, in luma units. Positive means comfortably dark, negative
    /// comfortably light; near zero means the binarizer guessed.
    pub fn signed_margin(self) -> (r: i32)
        ensures
            r == self.threshold - self.mean_luma,
    {
        self.threshold as i32 - self.mean_luma as i32
    }

    /// Unsigned distance from the threshold, in luma units.
    pub fn margin(self) -> (r: u8)
        ensures
            r == self.spec_margin(),
            self.threshold == self.mean_luma + r || self.mean_luma == self.threshold + r,
    {
        if self.threshold >= self.mean_luma {
            self.threshold - self.mean_luma
        } else {
            self.mean_luma - self.threshold
        }
    }

    /// The absolute value of the distance between threshold and mean.
    pub open spec fn spec_margin(self) -> int {
        if self.threshold >= self.mean_luma {
            self.threshold - self.mean_luma
        } else {
            self.mean_luma - self.threshold
        }
    }
}

/// A symbol-sized grid of module measurements, row-major.
#[derive(Clone, Debug)]
pub struct StatsGrid {
    pub width: usize,
    pub height: usize,
    pub cells: Vec<ModuleStats>,
}

impl View for StatsGrid {
    type V = Seq<ModuleStats>;

    open spec fn view(&self) -> Seq<ModuleStats> {
        self.cells@
    }
}

impl StatsGrid {
    /// One cell for every module.
    pub open spec fn wf(self) -> bool {
        self@.len() == self.width * self.height
    }

    /// Wrap a row-major measurement vector.
    pub fn new(width: usize, height: usize, cells: Vec<ModuleStats>) -> (r: Self)
        requires
            cells@.len() == width * height,
        ensures
            r.wf(),
            r.width == width,
            r.height == height,
            r@ == cells@,
    {
        Self { width, height, cells }
    }

    pub fn len(&self) -> (r: usize)
        ensures
            r == self@.len(),
    {
        self.cells.len()
    }

    pub fn is_empty(&self) -> (r: bool)
        ensures
            r <==> self@.len() == 0,
    {
        self.cells.len() == 0
    }

    /// The cell in column `x` of row `y`.
    pub fn get(&self, x: usize, y: usize) -> (r: ModuleStats)
        requires
            y * self.width + x < self@.len(),
        ensures
            r == self@[y * self.width + x],
    {
        proof {
            assert(0 <= y * self.width) by (nonlinear_arith);
            assert(self@.len() == self.cells.len());
        }
        self.cells[y * self.width + x]
    }

    pub fn at(&self, index: usize) -> (r: ModuleStats)
        requires
            index < self@.len(),
        ensures
            r == self@[index as int],
    {
        self.cells[index]
    }

    pub fn cells(&self) -> (r: &[ModuleStats])
        ensures
            r@ == self@,
    {
        self.cells.as_slice()
    }

    /// The decided bit values, in the layout a decoder expects.
    pub fn values(&self) -> (r: Vec<bool>)
        ensures
            r@ == self@.map_values(|c: ModuleStats| c.value),
    {
        let mut out: Vec<bool> = Vec::with_capacity(self.cells.len());
        for i in 0..self.cells.len()
            invariant
                out@.len() == i,
                forall|k: int| 0 <= k < i ==> out@[k] == self.cells@[k].value,
        {
            out.push(self.cells[i].value);
        }
        assert(out@ =~= self@.map_values(|c: ModuleStats| c.value));
        out
    }
}

/// A module whose value is fixed by the specification, and therefore known before any decoding
/// happens.
#[derive(Clone, Copy, Debug, PartialEq, Eq, Structural)]
pub struct KnownModule {
    /// Row-major index into the [`StatsGrid`].
    pub index: usize,
    /// The value the specification requires here.
    pub expected: bool,
}

impl KnownModule {
    pub fn new(index: usize, expected: bool) -> (r: Self)
        ensures
            r.index == index,
            r.expected == expected,
    {
        Self { index, expected }
    }
}

} // verus!
