//! A linear framebuffer of 32-bit pixels, row after row.
use vstd::prelude::*;

verus! {

/// Errors of the linear framebuffer.
#[derive(Clone, Copy, Debug, PartialEq, Eq, Structural)]
pub enum LinearFramebufferError {
    UnsupportedPixelDepth,
    OutOfBounds,
}

/// `a` if it is positive, and 1 otherwise.
pub open spec fn at_least_one(a: int) -> int {
    if a > 0 {
        a
    } else {
        1
    }
}

/// The number of pixels that `plot_glyph` draws: one per bit of the glyph, up to a full
/// cell of `width` by `height` pixels, where a zero width or height counts as one.
pub open spec fn glyph_pixel_count(width: int, height: int, glyph_len: int) -> int {
    let cell = at_least_one(width) * at_least_one(height);
    if 8 * glyph_len < cell {
        8 * glyph_len
    } else {
        cell
    }
}

/// The column of pixel `k` of a glyph within its cell.
pub open spec fn glyph_column(width: int, k: int) -> int {
    k % at_least_one(width)
}

/// The row of pixel `k` of a glyph within its cell.
pub open spec fn glyph_row(width: int, k: int) -> int {
    k / at_least_one(width)
}

/// The buffer index of pixel `k` of a glyph drawn at `(x, y)` on a screen `screen_width`
/// pixels wide.
pub open spec fn glyph_offset(x: int, y: int, width: int, screen_width: int, k: int) -> int {
    (x + glyph_column(width, k)) + (y + glyph_row(width, k)) * screen_width
}

/// The color of pixel `k` of a glyph: bit `7 - k % 8` of byte `k / 8` selects `color`
/// when set and `background` when clear.
pub open spec fn glyph_color(glyph: Seq<u8>, k: int, color: u32, background: u32) -> u32 {
    if (glyph[k / 8] >> ((7 - k % 8) as u8)) & 1u8 == 0u8 {
        background
    } else {
        color
    }
}

/// A linear framebuffer: its dimensions as (width, height) and its pixels.
pub struct LinearFramebuffer {
    /// Interpret as (Width, Height)
    pub dimensions: (usize, usize),
    buffer: Vec<u32>,
}

impl LinearFramebuffer {
    /// The pixels, row after row.
    pub closed spec fn pixels(&self) -> Seq<u32> {
        self.buffer@
    }

    /// The dimensions as (width, height).
    pub closed spec fn dims(&self) -> (usize, usize) {
        self.dimensions
    }

    /// The buffer holds one pixel for each point of the screen.
    pub open spec fn wf(&self) -> bool {
        self.pixels().len() == self.dims().0 * self.dims().1
    }

    /// Builds a framebuffer of `width` by `height` pixels of depth `bpp` over the pixels
    /// `pixels`. Only a depth of 32 bits is supported.
    pub fn new(width: u64, height: u64, bpp: u16, pixels: Vec<u32>) -> (r: Result<
        Self,
        LinearFramebufferError,
    >)
        requires
            bpp == 32 ==> (width as usize) * (height as usize) <= usize::MAX,
            bpp == 32 ==> pixels@.len() == (width as usize) * (height as usize),
        ensures
            bpp != 32 ==> r == Err::<Self, LinearFramebufferError>(
                LinearFramebufferError::UnsupportedPixelDepth,
            ),
            bpp == 32 ==> (r matches Ok(fb) && fb.wf() && fb.dims() == (
                width as usize,
                height as usize,
            ) && fb.pixels() == pixels@),
    {
        if bpp != 32 {
            return Err(LinearFramebufferError::UnsupportedPixelDepth);
        }
        Ok(Self { dimensions: (width as usize, height as usize), buffer: pixels })
    }

    /// The pixels, row after row.
    pub fn buffer(&self) -> (r: &Vec<u32>)
        ensures
            r@ == self.pixels(),
    {
        &self.buffer
    }

    /// Sets the pixel at column `x` of row `y` to `color`. A point past the buffer
    /// panics; `requires` leaves it out.
    pub fn plot(&mut self, x: usize, y: usize, color: u32)
        requires
            x + y * old(self).dims().0 < old(self).pixels().len(),
        ensures
            final(self).dims() == old(self).dims(),
            final(self).pixels() == old(self).pixels().update(
                x + y * old(self).dims().0,
                color,
            ),
    {
        proof {
            assert(0 <= y * self.dimensions.0) by (nonlinear_arith);
            assert(self.buffer@.len() == self.buffer.len());
        }
        let offset = x + y * self.dimensions.0;
        self.buffer.set(offset, color);
    }

    /// Whether `plot_glyph` draws every pixel of its glyph within the buffer.
    pub open spec fn glyph_fits(
        &self,
        x: usize,
        y: usize,
        width: usize,
        height: usize,
        glyph_len: int,
    ) -> bool {
        forall|k: int|
            0 <= k < glyph_pixel_count(width as int, height as int, glyph_len) ==> #[trigger] glyph_offset(
                x as int,
                y as int,
                width as int,
                self.dims().0 as int,
                k,
            ) < self.pixels().len()
    }

    /// Draws the glyph `glyph_bitmap`, one bit per pixel with the most significant bit
    /// first, into the cell of `width` by `height` pixels at `(x, y)`: set bits in
    /// `color` and clear bits in `background`. A cell that does not fit the screen is an
    /// error.
    pub fn plot_glyph(
        &mut self,
        x: usize,
        y: usize,
        width: usize,
        height: usize,
        glyph_bitmap: &[u8],
        color: u32,
        background: u32,
    ) -> (r: Result<(), LinearFramebufferError>)
        requires
            old(self).wf(),
            x + width <= usize::MAX,
            y + height <= usize::MAX,
            !(x + width > old(self).dims().0 || y + height > old(self).dims().1) ==> old(
                self,
            ).glyph_fits(x, y, width, height, glyph_bitmap@.len() as int),
        ensures
            final(self).dims() == old(self).dims(),
            final(self).wf(),
            x + width > old(self).dims().0 || y + height > old(self).dims().1 ==> r
                == Err::<(), LinearFramebufferError>(LinearFramebufferError::OutOfBounds)
                && final(self).pixels() == old(self).pixels(),
            !(x + width > old(self).dims().0 || y + height > old(self).dims().1) ==> {
                let n = glyph_pixel_count(width as int, height as int, glyph_bitmap@.len() as int);
                let sw = old(self).dims().0 as int;
                &&& r == Ok::<(), LinearFramebufferError>(())
                &&& forall|k: int|
                    0 <= k < n ==> final(self).pixels()[#[trigger] glyph_offset(
                        x as int,
                        y as int,
                        width as int,
                        sw,
                        k,
                    )] == glyph_color(glyph_bitmap@, k, color, background)
                &&& forall|j: int|
                    0 <= j < old(self).pixels().len() && (forall|k: int|
                        0 <= k < n ==> glyph_offset(x as int, y as int, width as int, sw, k) != j)
                        ==> #[trigger] final(self).pixels()[j] == old(self).pixels()[j]
            },
    {
        if x + width > self.dimensions.0 || y + height > self.dimensions.1 {
            return Err(LinearFramebufferError::OutOfBounds);
        }
        let ghost w1 = at_least_one(width as int);
        let ghost h1 = at_least_one(height as int);
        let ghost n = glyph_pixel_count(width as int, height as int, glyph_bitmap@.len() as int);
        let ghost sw = self.dimensions.0 as int;
        let mut current_x: usize = 0;
        let mut current_y: usize = 0;
        let mut done = false;
        proof {
            assert(0 < w1 * h1) by (nonlinear_arith)
                requires
                    w1 >= 1,
                    h1 >= 1,
            ;
            assert(0 * w1 == 0);
        }
        let mut i: usize = 0;
        while i < glyph_bitmap.len() && !done
            invariant
                self.wf(),
                old(self).wf(),
                self.dimensions == old(self).dims(),
                old(self).glyph_fits(x, y, width, height, glyph_bitmap@.len() as int),
                x + width <= self.dimensions.0,
                y + height <= self.dimensions.1,
                w1 == at_least_one(width as int),
                h1 == at_least_one(height as int),
                n == glyph_pixel_count(width as int, height as int, glyph_bitmap@.len() as int),
                sw == self.dimensions.0,
                i <= glyph_bitmap@.len(),
                !done ==> 8 * i < w1 * h1,
                !done ==> 8 * i == current_y * w1 + current_x,
                !done ==> current_x < w1 && current_y < h1,
                done ==> n == w1 * h1 && 8 * i >= n,
                forall|k: int|
                    0 <= k < (if done {
                        n
                    } else {
                        8 * i
                    }) ==> self.pixels()[#[trigger] glyph_offset(x as int, y as int, width as int, sw, k)]
                        == glyph_color(glyph_bitmap@, k, color, background),
                forall|j: int|
                    0 <= j < old(self).pixels().len() && (forall|k: int|
                        0 <= k < (if done {
                            n
                        } else {
                            8 * i
                        }) ==> glyph_offset(x as int, y as int, width as int, sw, k) != j)
                        ==> #[trigger] self.pixels()[j] == old(self).pixels()[j],
            decreases glyph_bitmap@.len() - i,
        {
            let glyph_byte = glyph_bitmap[i];
            let mut bit: u8 = 0;
            while bit < 8 && !done
                invariant
                    self.wf(),
                    old(self).wf(),
                    self.dimensions == old(self).dims(),
                    old(self).glyph_fits(x, y, width, height, glyph_bitmap@.len() as int),
                    x + width <= self.dimensions.0,
                    y + height <= self.dimensions.1,
                    w1 == at_least_one(width as int),
                    h1 == at_least_one(height as int),
                    n == glyph_pixel_count(width as int, height as int, glyph_bitmap@.len() as int),
                    sw == self.dimensions.0,
                    i < glyph_bitmap@.len(),
                    glyph_byte == glyph_bitmap@[i as int],
                    bit <= 8,
                    !done ==> 8 * i + bit < w1 * h1,
                    !done ==> 8 * i + bit == current_y * w1 + current_x,
                    !done ==> current_x < w1 && current_y < h1,
                    done ==> n == w1 * h1 && 8 * i + bit >= n,
                    forall|k: int|
                        0 <= k < (if done {
                            n
                        } else {
                            8 * i + bit
                        }) ==> self.pixels()[#[trigger] glyph_offset(
                            x as int,
                            y as int,
                            width as int,
                            sw,
                            k,
                        )] == glyph_color(glyph_bitmap@, k, color, background),
                    forall|j: int|
                        0 <= j < old(self).pixels().len() && (forall|k: int|
                            0 <= k < (if done {
                                n
                            } else {
                                8 * i + bit
                            }) ==> glyph_offset(x as int, y as int, width as int, sw, k) != j)
                            ==> #[trigger] self.pixels()[j] == old(self).pixels()[j],
                decreases 8 - bit,
            {
                let ghost k = 8 * i + bit;
                let mut used_color = color;
                if (glyph_byte >> (7 - bit)) & 1u8 == 0u8 {
                    used_color = background;
                }
                proof {
                    lemma_glyph_position(width as int, k, current_x as int, current_y as int);
                    assert(k / 8 == i as int && k % 8 == bit as int) by (nonlinear_arith)
                        requires
                            k == 8 * i + bit,
                            bit < 8,
                    ;
                    assert(used_color == glyph_color(glyph_bitmap@, k, color, background));
                    assert(k < n) by (nonlinear_arith)
                        requires
                            k < w1 * h1,
                            k < 8 * glyph_bitmap@.len(),
                            n == glyph_pixel_count(width as int, height as int, glyph_bitmap@.len() as int),
                            w1 == at_least_one(width as int),
                            h1 == at_least_one(height as int),
                    ;
                    assert(glyph_offset(x as int, y as int, width as int, old(self).dims().0 as int, k)
                        < old(self).pixels().len());
                    assert(glyph_offset(x as int, y as int, width as int, sw, k) < self.pixels().len());
                }
                let ghost before = self.pixels();
                let ghost o = glyph_offset(x as int, y as int, width as int, sw, k);
                self.plot(current_x + x, current_y + y, used_color);
                proof {
                    assert(o == (current_x + x) + (current_y + y) * sw);
                    if sw == 0 {
                        assert(self.pixels().len() == 0) by (nonlinear_arith)
                            requires
                                self.pixels().len() == sw * self.dimensions.1,
                                sw == 0,
                        ;
                    }
                    assert forall|m: int| 0 <= m < k implies glyph_offset(
                        x as int,
                        y as int,
                        width as int,
                        sw,
                        m,
                    ) != o by {
                        lemma_glyph_offsets_differ(x as int, y as int, width as int, sw, m, k);
                    }
                    lemma_next_cell(width as int, w1, current_x as int, current_y as int);
                }
                let ghost cy = current_y;
                current_x += 1;
                if current_x >= width {
                    current_x = 0;
                    current_y += 1;
                    if current_y >= height {
                        done = true;
                    }
                }
                proof {
                    if done {
                        assert(k + 1 == w1 * h1) by (nonlinear_arith)
                            requires
                                k + 1 == (cy + 1) * w1,
                                cy + 1 >= h1,
                                cy < h1,
                        ;
                    } else {
                        assert(k + 1 < w1 * h1) by (nonlinear_arith)
                            requires
                                k + 1 == current_y * w1 + current_x,
                                current_x < w1,
                                current_y < h1,
                                0 <= current_x,
                                0 <= current_y,
                        ;
                    }
                    assert forall|m: int| 0 <= m < k + 1 implies self.pixels()[glyph_offset(
                        x as int,
                        y as int,
                        width as int,
                        sw,
                        m,
                    )] == glyph_color(glyph_bitmap@, m, color, background) by {
                        if m < k {
                            assert(glyph_offset(x as int, y as int, width as int, sw, m) != o);
                            assert(before[glyph_offset(x as int, y as int, width as int, sw, m)]
                                == glyph_color(glyph_bitmap@, m, color, background));
                        }
                    }
                    assert forall|j: int|
                        0 <= j < old(self).pixels().len() && (forall|m: int|
                            0 <= m < k + 1 ==> glyph_offset(x as int, y as int, width as int, sw, m)
                                != j) implies #[trigger] self.pixels()[j] == old(self).pixels()[j] by {
                        assert(glyph_offset(x as int, y as int, width as int, sw, k) != j);
                        assert(before[j] == old(self).pixels()[j]);
                    }
                }
                bit += 1;
            }
            i += 1;
        }
        proof {
            if !done {
                assert(8 * i >= n) by (nonlinear_arith)
                    requires
                        i == glyph_bitmap@.len(),
                        n == glyph_pixel_count(width as int, height as int, glyph_bitmap@.len() as int),
                ;
            }
        }
        Ok(())
    }

    /// Sets every pixel to `color`.
    pub fn clear(&mut self, color: u32)
        ensures
            final(self).dims() == old(self).dims(),
            final(self).pixels() == Seq::new(old(self).pixels().len(), |i: int| color),
    {
        let mut i: usize = 0;
        while i < self.buffer.len()
            invariant
                self.dimensions == old(self).dims(),
                self.pixels().len() == old(self).pixels().len(),
                i <= self.pixels().len(),
                forall|j: int| 0 <= j < i ==> self.pixels()[j] == color,
            decreases self.pixels().len() - i,
        {
            self.buffer.set(i, color);
            i += 1;
        }
        assert(self.pixels() =~= Seq::new(old(self).pixels().len(), |i: int| color));
    }

    /// Moves the screen up by `layers` rows and fills the rows that come free at the
    /// bottom with `color`. More rows than the screen has panic; `requires` leaves them
    /// out.
    pub fn scroll(&mut self, layers: usize, color: u32)
        requires
            old(self).wf(),
            layers <= old(self).dims().1,
        ensures
            final(self).dims() == old(self).dims(),
            final(self).wf(),
            final(self).pixels() == scrolled(
                old(self).pixels(),
                old(self).dims().0 as int,
                old(self).dims().1 as int,
                layers as int,
                color,
            ),
    {
        let w = self.dimensions.0;
        let h = self.dimensions.1;
        proof {
            assert(self.buffer@.len() == self.buffer.len());
            assert(layers * w <= w * h) by (nonlinear_arith)
                requires
                    layers <= h,
            ;
            assert(w * (h - layers) + layers * w == w * h) by (nonlinear_arith);
        }
        let shift = layers * w;
        let kept = w * (h - layers);
        let ghost old_pixels = self.pixels();
        let mut i: usize = 0;
        while i < kept
            invariant
                self.dimensions == old(self).dims(),
                self.pixels().len() == old_pixels.len(),
                old_pixels == old(self).pixels(),
                kept + shift == old_pixels.len(),
                old_pixels.len() <= usize::MAX,
                i <= kept,
                forall|j: int| 0 <= j < i ==> self.pixels()[j] == old_pixels[j + shift],
                forall|j: int| i <= j < old_pixels.len() ==> self.pixels()[j] == old_pixels[j],
            decreases kept - i,
        {
            let v = self.buffer[i + shift];
            self.buffer.set(i, v);
            i += 1;
        }
        let mut j: usize = 0;
        while j < shift
            invariant
                self.dimensions == old(self).dims(),
                self.pixels().len() == old_pixels.len(),
                kept + shift == old_pixels.len(),
                old_pixels.len() <= usize::MAX,
                j <= shift,
                forall|m: int| 0 <= m < kept ==> self.pixels()[m] == old_pixels[m + shift],
                forall|m: int| kept <= m < kept + j ==> self.pixels()[m] == color,
            decreases shift - j,
        {
            self.buffer.set(kept + j, color);
            j += 1;
        }
        proof {
            let w = old(self).dims().0 as int;
            let h = old(self).dims().1 as int;
            assert(kept == w * (h - layers));
            assert(shift == layers * w);
            assert(self.pixels() =~= scrolled(old(self).pixels(), w, h, layers as int, color));
        }
    }
}

/// Pixel `k` of a glyph sits at `(k % w, k / w)` of its cell, for `w` the width counted
/// as at least one.
proof fn lemma_glyph_position(width: int, k: int, cx: int, cy: int)
    requires
        0 <= cx < at_least_one(width),
        0 <= cy,
        k == cy * at_least_one(width) + cx,
    ensures
        glyph_column(width, k) == cx,
        glyph_row(width, k) == cy,
{
    let w = at_least_one(width);
    vstd::arithmetic::div_mod::lemma_fundamental_div_mod_converse(k, w, cy, cx);
}

/// The cell after `(cx, cy)`: the next column, or the start of the next row once the
/// column reaches `width`.
proof fn lemma_next_cell(width: int, w1: int, cx: int, cy: int)
    requires
        w1 == at_least_one(width),
        0 <= cx < w1,
        0 <= cy,
    ensures
        cx + 1 >= width ==> cy * w1 + cx + 1 == (cy + 1) * w1 + 0,
        cx + 1 < width ==> cx + 1 < w1,
{
    vstd::arithmetic::mul::lemma_mul_is_distributive_add_other_way(w1, cy, 1);
}

/// Two pixels of a glyph that fits its screen row never share a buffer index.
proof fn lemma_glyph_offsets_differ(x: int, y: int, width: int, sw: int, m: int, k: int)
    requires
        0 <= m < k,
        0 <= x,
        0 <= y,
        x + width <= sw,
        0 <= width,
        1 <= sw,
    ensures
        glyph_offset(x, y, width, sw, m) != glyph_offset(x, y, width, sw, k),
{
    let w = at_least_one(width);
    let cm = m % w;
    let rm = m / w;
    let ck = k % w;
    let rk = k / w;
    vstd::arithmetic::div_mod::lemma_fundamental_div_mod(m, w);
    vstd::arithmetic::div_mod::lemma_fundamental_div_mod(k, w);
    vstd::arithmetic::div_mod::lemma_mod_bound(m, w);
    vstd::arithmetic::div_mod::lemma_mod_bound(k, w);
    if rm == rk {
        assert(cm != ck);
    } else if rm < rk {
        vstd::arithmetic::mul::lemma_mul_inequality(y + rm + 1, y + rk, sw);
        vstd::arithmetic::mul::lemma_mul_is_distributive_add_other_way(sw, y + rm, 1);
    } else {
        vstd::arithmetic::mul::lemma_mul_inequality(y + rk + 1, y + rm, sw);
        vstd::arithmetic::mul::lemma_mul_is_distributive_add_other_way(sw, y + rk, 1);
    }
}


/// The pixels that `scroll(layers, color)` leaves on a screen `w` pixels wide and `h`
/// high: each row moves up by `layers`, and the rows that come free hold `color`.
pub open spec fn scrolled(pixels: Seq<u32>, w: int, h: int, layers: int, color: u32) -> Seq<u32> {
    Seq::new(
        pixels.len(),
        |i: int|
            if i < w * (h - layers) {
                pixels[i + layers * w]
            } else {
                color
            },
    )
}

/// Scrolling by no row leaves the screen as it was.
pub proof fn lemma_scroll_by_zero_keeps_screen(pixels: Seq<u32>, w: int, h: int, color: u32)
    requires
        pixels.len() == w * h,
    ensures
        scrolled(pixels, w, h, 0, color) == pixels,
{
    assert(scrolled(pixels, w, h, 0, color) =~= pixels);
}

/// Scrolling by every row fills the screen with the background, as clearing does.
pub proof fn lemma_scroll_by_height_clears(pixels: Seq<u32>, w: int, h: int, color: u32)
    requires
        pixels.len() == w * h,
    ensures
        scrolled(pixels, w, h, h, color) == Seq::new(pixels.len(), |i: int| color),
{
    assert(w * (h - h) == 0) by (nonlinear_arith);
    assert(scrolled(pixels, w, h, h, color) =~= Seq::new(pixels.len(), |i: int| color));
}

} // verus!
