use vstd::prelude::*;

verus! {

/// An RGB image with three 8-bit channels per pixel, stored row by row.
#[derive(Clone, Debug, PartialEq, Eq)]
pub struct CoverImage {
    pub width: u32,
    pub height: u32,
    /// Channel values: pixel `p` holds `data[3p]`, `data[3p+1]`, `data[3p+2]`.
    pub data: Vec<u8>,
}

impl CoverImage {
    pub open spec fn pixel_count(&self) -> nat {
        (self.width as nat) * (self.height as nat)
    }

    pub open spec fn wf(&self) -> bool {
        self.data@.len() == 3 * self.pixel_count()
    }

    /// A black image of the given size.
    pub fn new(width: u32, height: u32) -> (r: CoverImage)
        requires
            3 * ((width as nat) * (height as nat)) <= usize::MAX,
        ensures
            r.wf(),
            r.width == width,
            r.height == height,
            forall|i: int| 0 <= i < r.data@.len() ==> r.data@[i] == 0,
    {
        proof {
            assert((width as nat) * (height as nat) <= 3 * ((width as nat) * (height as nat)));
        }
        let p: usize = (width as usize) * (height as usize);
        let n: usize = 3 * p;
        let mut data: Vec<u8> = Vec::with_capacity(n);
        let mut i: usize = 0;
        while i < n
            invariant
                i <= n,
                data@.len() == i,
                forall|k: int| 0 <= k < i ==> data@[k] == 0,
            decreases n - i,
        {
            data.push(0);
            i = i + 1;
        }
        CoverImage { width, height, data }
    }

    /// The channel values of pixel (x, y).
    pub fn get_pixel(&self, x: u32, y: u32) -> (r: [u8; 3])
        requires
            self.wf(),
            x < self.width,
            y < self.height,
        ensures
            r@ == self.data@.subrange(3 * self.index_of(x, y), 3 * self.index_of(x, y) + 3),
    {
        proof {
            self.lemma_index_in_range(x, y);
        }
        let _total = self.data.len();
        let p: usize = (y as usize) * (self.width as usize) + (x as usize);
        let r = [self.data[3 * p], self.data[3 * p + 1], self.data[3 * p + 2]];
        assert(r@ =~= self.data@.subrange(3 * self.index_of(x, y), 3 * self.index_of(x, y) + 3));
        r
    }

    /// Sets the channel values of pixel (x, y).
    pub fn put_pixel(&mut self, x: u32, y: u32, rgb: [u8; 3])
        requires
            old(self).wf(),
            x < old(self).width,
            y < old(self).height,
        ensures
            final(self).wf(),
            final(self).width == old(self).width,
            final(self).height == old(self).height,
            final(self).data@ == old(self).data@.update(3 * old(self).index_of(x, y), rgb@[0]).update(
                3 * old(self).index_of(x, y) + 1,
                rgb@[1],
            ).update(3 * old(self).index_of(x, y) + 2, rgb@[2]),
    {
        proof {
            self.lemma_index_in_range(x, y);
        }
        let _total = self.data.len();
        let p: usize = (y as usize) * (self.width as usize) + (x as usize);
        self.data.set(3 * p, rgb[0]);
        self.data.set(3 * p + 1, rgb[1]);
        self.data.set(3 * p + 2, rgb[2]);
    }

    /// Row-major index of pixel (x, y).
    pub open spec fn index_of(&self, x: u32, y: u32) -> int {
        (y as int) * (self.width as int) + (x as int)
    }

    proof fn lemma_index_in_range(&self, x: u32, y: u32)
        requires
            self.wf(),
            x < self.width,
            y < self.height,
        ensures
            0 <= self.index_of(x, y) < self.pixel_count(),
            0 <= (y as int) * (self.width as int) <= self.index_of(x, y),
            3 * self.index_of(x, y) + 3 <= self.data@.len(),
    {
        let w = self.width as int;
        let h = self.height as int;
        assert((y as int) * w + (x as int) < h * w) by (nonlinear_arith)
            requires
                0 <= x < w,
                0 <= y < h,
        ;
        assert(0 <= (y as int) * w) by (nonlinear_arith)
            requires
                0 <= y,
                0 <= w,
        ;
        assert(h * w == (self.width as nat) * (self.height as nat)) by (nonlinear_arith)
            requires
                w == self.width as int,
                h == self.height as int,
        ;
    }
}

} // verus!
