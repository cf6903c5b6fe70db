//! The user-edited grid of discrete codec codes.
//!
//! A [`Codes`] value is a rectangular, row-major matrix: one row per layer
//! (codebook) and one column per fragment (time step). The grid always has at
//! least one layer and one fragment, and every layer has the same number of
//! fragments.

use vstd::prelude::*;

verus! {

use crate::MAX_CODE;

/// Rectangular grid of codes: `layers` rows, each of `width` fragments,
/// stored row-major in `codes`.
pub struct Codes {
    codes: Vec<u32>,
    width: usize,
}

impl View for Codes {
    type V = Seq<u32>;

    /// The flat row-major contents of the grid.
    closed spec fn view(&self) -> Seq<u32> {
        self.codes@
    }
}

impl Codes {
    /// Number of fragments (columns) in each layer.
    pub closed spec fn spec_width(&self) -> int {
        self.width as int
    }

    /// Number of layers (rows).
    pub open spec fn spec_height(&self) -> int {
        self@.len() as int / self.spec_width()
    }

    /// The grid is rectangular and has at least one layer and one fragment.
    pub open spec fn well_formed(&self) -> bool {
        &&& self.spec_width() >= 1
        &&& self.spec_height() >= 1
        &&& self@.len() >= 1
        &&& self@.len() as int % self.spec_width() == 0
    }

    /// The cell in column `x` (fragment) of row `y` (layer).
    pub open spec fn cell(&self, x: int, y: int) -> u32 {
        self@[y * self.spec_width() + x]
    }

    /// Every cell holds a code no greater than `MAX_CODE`.
    pub open spec fn codes_in_range(&self) -> bool {
        forall|i: int| 0 <= i < self@.len() ==> #[trigger] self@[i] <= MAX_CODE
    }

    /// Two grids hold the same codes in the same shape.
    pub open spec fn same_grid(&self, other: &Codes) -> bool {
        self@ == other@ && self.spec_width() == other.spec_width()
    }

    /// The default grid: a single layer with a single fragment, code 0.
    pub fn new() -> (r: Codes)
        ensures
            r.well_formed(),
            r.codes_in_range(),
            r.spec_width() == 1,
            r.spec_height() == 1,
            r@ == seq![0u32],
    {
        let r = Codes { codes: vec![0u32], width: 1 };
        proof {
            assert(r@ =~= seq![0u32]);
        }
        r
    }

    /// Number of layers in the grid.
    pub fn height(&self) -> (h: usize)
        requires
            self.well_formed(),
        ensures
            h == self.spec_height(),
    {
        self.codes.len() / self.width
    }

    /// Number of fragments in each layer.
    pub fn width(&self) -> (w: usize)
        ensures
            w == self.spec_width(),
    {
        self.width
    }

    /// The code at fragment `x` of layer `y`, or `None` when out of range.
    pub fn get(&self, x: usize, y: usize) -> (r: Option<u32>)
        requires
            self.well_formed(),
        ensures
            x < self.spec_width() && y < self.spec_height() ==> r == Some(self.cell(x as int, y as int)),
            !(x < self.spec_width() && y < self.spec_height()) ==> r is None,
    {
        let n = self.codes.len();
        if x < self.width && y < self.height() {
            proof {
                self.lemma_cell_index_in_bounds(x as int, y as int);
                assert(y * self.spec_width() + x < n);
            }
            Some(self.codes[y * self.width + x])
        } else {
            None
        }
    }

    /// A mutable borrow of the code at fragment `x` of layer `y`, or `None`
    /// when out of range. Writing through the borrow changes that one cell and
    /// nothing else; the grid keeps its shape.
    pub fn get_mut(&mut self, x: usize, y: usize) -> (r: Option<&mut u32>)
        requires
            old(self).well_formed(),
        ensures
            final(self).well_formed(),
            final(self).spec_width() == old(self).spec_width(),
            final(self)@.len() == old(self)@.len(),
            x < old(self).spec_width() && y < old(self).spec_height() ==> (
                r matches Some(p)
                && *p == old(self).cell(x as int, y as int)
                && final(self)@ == old(self)@.update(y * old(self).spec_width() + x, *final(p))
            ),
            !(x < old(self).spec_width() && y < old(self).spec_height()) ==> (
                r is None && final(self)@ == old(self)@
            ),
    {
        let n = self.codes.len();
        if x < self.width && y < self.height() {
            proof {
                self.lemma_cell_index_in_bounds(x as int, y as int);
                assert(y * self.spec_width() + x < n);
            }
            Some(&mut self.codes[y * self.width + x])
        } else {
            None
        }
    }

    /// The cell a reshaped grid holds at fragment `x` of layer `y`: the old
    /// cell where one exists, code 0 where the grid grew.
    pub open spec fn reshaped_cell(&self, x: int, y: int) -> u32 {
        if x < self.spec_width() && y < self.spec_height() {
            self.cell(x, y)
        } else {
            0u32
        }
    }

    /// Change the grid to `width` fragments and `height` layers, keeping every
    /// cell that both shapes have and filling new cells with code 0.
    pub fn reshape(&mut self, width: usize, height: usize)
        requires
            old(self).well_formed(),
            width >= 1,
            height >= 1,
            width * height <= usize::MAX,
        ensures
            final(self).well_formed(),
            final(self).spec_width() == width,
            final(self).spec_height() == height,
            forall|x: int, y: int| 0 <= x < width && 0 <= y < height ==>
                #[trigger] final(self).cell(x, y) == old(self).reshaped_cell(x, y),
    {
        let mut new_codes: Vec<u32> = Vec::new();
        let mut y: usize = 0;
        while y < height
            invariant
                self == old(self),
                old(self).well_formed(),
                width >= 1,
                height >= 1,
                width * height <= usize::MAX,
                y <= height,
                new_codes@.len() == y * width,
                forall|xx: int, yy: int| 0 <= xx < width && 0 <= yy < y ==>
                    #[trigger] new_codes@[yy * width + xx] == old(self).reshaped_cell(xx, yy),
            decreases height - y,
        {
            let mut x: usize = 0;
            while x < width
                invariant
                    self == old(self),
                    old(self).well_formed(),
                    width >= 1,
                    height >= 1,
                    width * height <= usize::MAX,
                    y < height,
                    x <= width,
                    new_codes@.len() == y * width + x,
                    forall|xx: int, yy: int| 0 <= xx < width && 0 <= yy < y ==>
                        #[trigger] new_codes@[yy * width + xx] == old(self).reshaped_cell(xx, yy),
                    forall|xx: int| 0 <= xx < x ==>
                        #[trigger] new_codes@[y * width + xx] == old(self).reshaped_cell(xx, y as int),
                decreases width - x,
            {
                proof {
                    assert(y * width + x < height * width) by (nonlinear_arith)
                        requires y < height && x < width && width >= 1 && height >= 1;
                    assert(height * width == width * height) by (nonlinear_arith);
                }
                let value = match self.get(x, y) {
                    Some(v) => v,
                    None => 0u32,
                };
                new_codes.push(value);
                x = x + 1;
                proof {
                    assert forall|xx: int, yy: int| 0 <= xx < width && 0 <= yy < y implies
                        #[trigger] new_codes@[yy * width + xx] == old(self).reshaped_cell(xx, yy) by {
                        assert(yy * width + xx < y * width) by (nonlinear_arith)
                            requires 0 <= xx < width && 0 <= yy && yy + 1 <= y;
                    }
                }
            }
            y = y + 1;
            proof {
                assert(y * width == (y - 1) * width + width) by (nonlinear_arith);
                assert forall|xx: int, yy: int| 0 <= xx < width && 0 <= yy < y implies
                    #[trigger] new_codes@[yy * width + xx] == old(self).reshaped_cell(xx, yy) by {
                    assert(yy * width + xx < y * width) by (nonlinear_arith)
                        requires 0 <= xx < width && 0 <= yy && yy + 1 <= y;
                }
            }
        }
        self.codes = new_codes;
        self.width = width;
        proof {
            assert(self@.len() as int % width as int == 0 && self@.len() as int / width as int == height)
                by (nonlinear_arith)
                requires self@.len() == height * width && width >= 1 && height >= 1;
        }
    }

    /// An exact copy of the grid.
    pub fn duplicate(&self) -> (r: Codes)
        ensures
            r.same_grid(self),
            r.spec_width() == self.spec_width(),
            r@ == self@,
    {
        let mut copy: Vec<u32> = Vec::new();
        let mut i: usize = 0;
        while i < self.codes.len()
            invariant
                i <= self.codes@.len(),
                copy@ == self.codes@.take(i as int),
            decreases self.codes@.len() - i,
        {
            copy.push(self.codes[i]);
            proof {
                assert(copy@ =~= self.codes@.take(i + 1));
            }
            i = i + 1;
        }
        proof {
            assert(copy@ =~= self.codes@);
        }
        Codes { codes: copy, width: self.width }
    }

    /// A grid whose every layer is this grid's layer repeated `times` times in
    /// a row. Decoding such a tiling lets the decoder's receptive field settle
    /// before the windows of interest are cut out.
    pub fn repeated(&self, times: usize) -> (r: Codes)
        requires
            self.well_formed(),
            times >= 1,
            self.spec_width() * times <= usize::MAX,
            self@.len() * times <= usize::MAX,
        ensures
            r.well_formed(),
            r.spec_width() == self.spec_width() * times,
            r.spec_height() == self.spec_height(),
            forall|x: int, y: int|
                0 <= x < r.spec_width() && 0 <= y < r.spec_height() ==>
                    #[trigger] r.cell(x, y) == self.cell(x % self.spec_width(), y),
    {
        let width = self.width;
        let height = self.height();
        proof {
            assert(width * times * height == self@.len() * times) by (nonlinear_arith)
                requires
                    self@.len() as int % width as int == 0,
                    self@.len() as int / width as int == height as int,
                    width >= 1;
        }
        let new_width = width * times;
        let mut new_codes: Vec<u32> = Vec::new();
        let mut y: usize = 0;
        while y < height
            invariant
                self.well_formed(),
                width == self.spec_width(),
                height == self.spec_height(),
                new_width == width * times,
                times >= 1,
                new_width * height <= usize::MAX,
                y <= height,
                new_codes@.len() == y * new_width,
                forall|jj: int, yy: int| 0 <= jj < new_width && 0 <= yy < y ==>
                    #[trigger] new_codes@[yy * new_width + jj] == self.cell(jj % width as int, yy),
            decreases height - y,
        {
            let mut j: usize = 0;
            while j < new_width
                invariant
                    self.well_formed(),
                    width == self.spec_width(),
                    height == self.spec_height(),
                    new_width == width * times,
                    times >= 1,
                    new_width * height <= usize::MAX,
                    y < height,
                    j <= new_width,
                    new_codes@.len() == y * new_width + j,
                    forall|jj: int, yy: int| 0 <= jj < new_width && 0 <= yy < y ==>
                        #[trigger] new_codes@[yy * new_width + jj] == self.cell(jj % width as int, yy),
                    forall|jj: int| 0 <= jj < j ==>
                        #[trigger] new_codes@[y * new_width + jj] == self.cell(jj % width as int, y as int),
                decreases new_width - j,
            {
                proof {
                    assert(y * new_width + j < height * new_width) by (nonlinear_arith)
                        requires y < height && j < new_width;
                    assert(height * new_width == new_width * height) by (nonlinear_arith);
                    assert(0 <= (j as int) % (width as int) < width) by {
                        vstd::arithmetic::div_mod::lemma_mod_bound(j as int, width as int);
                    }
                }
                let value = match self.get(j % width, y) {
                    Some(v) => v,
                    None => 0u32,
                };
                new_codes.push(value);
                j = j + 1;
                proof {
                    assert forall|jj: int, yy: int| 0 <= jj < new_width && 0 <= yy < y implies
                        #[trigger] new_codes@[yy * new_width + jj] == self.cell(jj % width as int, yy) by {
                        assert(yy * new_width + jj < y * new_width) by (nonlinear_arith)
                            requires 0 <= jj < new_width && 0 <= yy && yy + 1 <= y;
                    }
                }
            }
            y = y + 1;
            proof {
                assert(y * new_width == (y - 1) * new_width + new_width) by (nonlinear_arith);
                assert forall|jj: int, yy: int| 0 <= jj < new_width && 0 <= yy < y implies
                    #[trigger] new_codes@[yy * new_width + jj] == self.cell(jj % width as int, yy) by {
                    assert(yy * new_width + jj < y * new_width) by (nonlinear_arith)
                        requires 0 <= jj < new_width && 0 <= yy && yy + 1 <= y;
                }
            }
        }
        let r = Codes { codes: new_codes, width: new_width };
        proof {
            assert(width * times >= 1) by (nonlinear_arith)
                requires width >= 1 && times >= 1;
            assert(r@.len() >= 1) by (nonlinear_arith)
                requires r@.len() == height * new_width && height >= 1 && new_width >= 1;
            assert(r@.len() as int % new_width as int == 0 && r@.len() as int / new_width as int == height)
                by (nonlinear_arith)
                requires r@.len() == height * new_width && new_width >= 1 && height >= 1;
            assert forall|x: int, y2: int|
                0 <= x < r.spec_width() && 0 <= y2 < r.spec_height() implies
                #[trigger] r.cell(x, y2) == self.cell(x % width as int, y2) by {
                r.lemma_cell_index_in_bounds(x, y2);
            }
        }
        r
    }

    /// Whether the first `i` flat entries of the two grids agree.
    spec fn prefix_eq(&self, other: &Codes, i: int) -> bool {
        forall|j: int| 0 <= j < i ==> self@[j] == other@[j]
    }

    /// In a well-formed grid, an in-range cell's flat index is in bounds.
    proof fn lemma_cell_index_in_bounds(&self, x: int, y: int)
        requires
            self.well_formed(),
            0 <= x < self.spec_width(),
            0 <= y < self.spec_height(),
        ensures
            0 <= y * self.spec_width() + x < self@.len(),
    {
        let w = self.spec_width();
        let n = self@.len() as int;
        vstd::arithmetic::div_mod::lemma_fundamental_div_mod(n, w);
        assert(n == w * (n / w));
        assert(y * w + x < (y + 1) * w) by (nonlinear_arith)
            requires 0 <= x < w;
        assert((y + 1) * w <= (n / w) * w) by (nonlinear_arith)
            requires y + 1 <= n / w && w >= 1;
        assert((n / w) * w == w * (n / w)) by (nonlinear_arith);
        assert(y * w + x >= 0) by (nonlinear_arith)
            requires 0 <= x && 0 <= y && w >= 1;
    }
}

impl PartialEq for Codes {
    /// Two grids are equal when they have the same shape and the same codes.
    fn eq(&self, other: &Codes) -> (r: bool) {
        if self.width != other.width || self.codes.len() != other.codes.len() {
            proof {
                if self.codes@.len() != other.codes@.len() {
                    assert(self@ !~= other@);
                }
            }
            return false;
        }
        let n = self.codes.len();
        let mut i: usize = 0;
        while i < n
            invariant
                n == self.codes@.len(),
                n == other.codes@.len(),
                i <= n,
                self.prefix_eq(other, i as int),
            decreases n - i,
        {
            if self.codes[i] != other.codes[i] {
                return false;
            }
            i = i + 1;
        }
        proof {
            assert(self@ =~= other@);
        }
        true
    }
}

impl vstd::std_specs::cmp::PartialEqSpecImpl for Codes {
    open spec fn obeys_eq_spec() -> bool {
        true
    }

    open spec fn eq_spec(&self, other: &Codes) -> bool {
        self.same_grid(other)
    }
}

impl Default for Codes {
    /// The default grid is the one `Codes::new` builds.
    fn default() -> (r: Codes)
        ensures
            r.well_formed(),
            r.codes_in_range(),
            r.spec_width() == 1,
            r.spec_height() == 1,
            r@ == seq![0u32],
    {
        Codes::new()
    }
}

} // verus!
