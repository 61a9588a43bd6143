//! Colour pictures as plain values.
use vstd::prelude::*;
use crate::sample::geometry::lemma_cell;

verus! {

/// Red, green and blue.
pub type Colour = (u8, u8, u8);

/// A picture: one colour for every pixel, row-major.
#[derive(Clone, Debug, PartialEq, Eq)]
pub struct Picture {
    pub width: u32,
    pub height: u32,
    pub pixels: Vec<Colour>,
}

impl View for Picture {
    type V = Seq<Colour>;

    open spec fn view(&self) -> Seq<Colour> {
        self.pixels@
    }
}

impl Picture {
    pub open spec fn wf(self) -> bool {
        self@.len() == self.width * self.height
    }

    /// Whether two pictures are equally wide and equally high.
    pub open spec fn same_size(self, other: Picture) -> bool {
        self.width == other.width && self.height == other.height
    }

    /// The colour in column `x` of row `y`.
    pub open spec fn at(self, x: int, y: int) -> Colour {
        self@[y * self.width + x]
    }

    /// A picture of one colour.
    pub fn filled(width: u32, height: u32, colour: Colour) -> (r: Self)
        requires
            width * height <= usize::MAX,
        ensures
            r.wf(),
            r.width == width,
            r.height == height,
            r@ == Seq::new((width * height) as nat, |i: int| colour),
    {
        let ghost n = (width * height) as nat;
        proof {
            assert(0 <= width * height) by (nonlinear_arith)
                requires
                    width >= 0,
                    height >= 0,
            ;
        }
        let count: usize = width as usize * height as usize;
        let mut pixels: Vec<Colour> = Vec::with_capacity(count);
        for i in 0..count
            invariant
                pixels@.len() == i,
                forall|k: int| 0 <= k < i ==> #[trigger] pixels@[k] == colour,
        {
            pixels.push(colour);
        }
        assert(pixels@ =~= Seq::new(n, |i: int| colour));
        Self { width, height, pixels }
    }

    pub fn get_pixel(&self, x: u32, y: u32) -> (r: Colour)
        requires
            self.wf(),
            x < self.width,
            y < self.height,
        ensures
            r == self.at(x as int, y as int),
    {
        proof {
            lemma_cell(x as int, y as int, self.width as int, self.height as int);
            assert(self@.len() == self.pixels.len());
        }
        self.pixels[y as usize * self.width as usize + x as usize]
    }

    pub fn put_pixel(&mut self, x: u32, y: u32, colour: Colour)
        requires
            old(self).wf(),
            x < old(self).width,
            y < old(self).height,
        ensures
            final(self).wf(),
            final(self).same_size(*old(self)),
            final(self)@ == old(self)@.update(y * old(self).width + x, colour),
    {
        proof {
            lemma_cell(x as int, y as int, self.width as int, self.height as int);
            assert(self@.len() == self.pixels.len());
        }
        let i: usize = y as usize * self.width as usize + x as usize;
        self.pixels.set(i, colour);
    }
}

} // verus!
