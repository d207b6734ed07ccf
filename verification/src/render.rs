//! Band compositor and frame renderer: lays four gamma-corrected gradient
//! bars out across a caller-owned RGB byte buffer.
//!
//! The buffer is `width x height` pixels, three bytes per pixel, row major.
//! The height is split into four equal bands (gray, red, green, blue); each
//! row of a band is a gradient over the 256 table entries, every entry
//! `bar_width` pixels wide, written through the band's channel mask.  A
//! configured spacing strip at the top of each band stays black.  When the
//! marker is on, a pixel whose row equals the inverse-mapped row of its
//! corrected value is inverted in place, tracing the shape of the gamma
//! curve.  The renderer's contract pins every byte of the buffer to the
//! spec-level image `byte_at`.

use vstd::prelude::*;
use vstd::arithmetic::div_mod::lemma_div_is_ordered;
use vstd::arithmetic::div_mod::lemma_div_pos_is_pos;
use vstd::arithmetic::div_mod::lemma_fundamental_div_mod;
use vstd::arithmetic::div_mod::lemma_fundamental_div_mod_converse_div;
use vstd::arithmetic::div_mod::lemma_fundamental_div_mod_converse_mod;
use vstd::arithmetic::div_mod::lemma_mod_division_less_than_divisor;
use vstd::arithmetic::div_mod::lemma_multiply_divide_lt;
use crate::lookup::LookupTable;

verus! {

/// Startup-time rendering parameters.  The tiling invariant `wf` is the
/// caller's obligation: the 256 gradient blocks exactly fill a row, and the
/// four bands exactly fill the height.
pub struct RenderConfig {
    /// Buffer width in pixels.
    pub width: usize,
    /// Buffer height in pixels.
    pub height: usize,
    /// How many consecutive columns share one table entry.
    pub bar_width: usize,
    /// Height of each of the four bands.
    pub band_height: usize,
    /// Rows at the top of each band left black as a separator.
    pub spacing: usize,
    /// Whether the curve marker overlay is drawn.
    pub marker: bool,
}

impl RenderConfig {
    /// The hard configuration invariant: exact tiling in both directions,
    /// and a separator strictly thinner than its band.
    pub open spec fn wf(self) -> bool {
        &&& self.bar_width >= 1
        &&& self.width == self.bar_width * 256
        &&& self.band_height >= 1
        &&& self.height == self.band_height * 4
        &&& self.spacing < self.band_height
    }

    /// Size in bytes of a frame buffer for this configuration.
    pub open spec fn buffer_len(self) -> int {
        self.width * self.height * 3
    }

    /// The band a row belongs to: the height is divided into four equal
    /// partitions, in order gray, red, green, blue.
    pub open spec fn band_of(self, row: int) -> int {
        row / self.band_height as int
    }

    /// Whether a row falls in the black separator strip at the top of its
    /// band.
    pub open spec fn in_spacing(self, row: int) -> bool {
        (row % self.band_height as int) < self.spacing
    }

    /// The marker row of a corrected value: the inverse-mapped vertical
    /// position of `c` across the full stacked-band height,
    /// `(255 - c) * height / 255` rounded to the nearest row.  Adding 127
    /// before the division is exact rounding here: the remainder of a
    /// division by 255 can never be exactly half.  Full intensity maps to
    /// row zero; a corrected value of zero maps past the bottom row, where
    /// no marker is drawn.
    pub open spec fn marker_row(self, c: u8) -> int {
        ((255 - c) * self.height + 127) / 255
    }
}

/// A corrected value seen through a band's channel mask: the gray band
/// carries it on all three channels, the red, green and blue bands on
/// exactly one, forcing the other two to zero.
pub open spec fn channel_triple(band: int, c: u8) -> (u8, u8, u8) {
    if band == 0 {
        (c, c, c)
    } else if band == 1 {
        (c, 0u8, 0u8)
    } else if band == 2 {
        (0u8, c, 0u8)
    } else {
        (0u8, 0u8, c)
    }
}

/// A pixel with every channel inverted.
pub open spec fn inverted(t: (u8, u8, u8)) -> (u8, u8, u8) {
    ((255 - t.0) as u8, (255 - t.1) as u8, (255 - t.2) as u8)
}

/// The pixel the renderer owes position `(row, x)`: black in a separator
/// strip; otherwise the table entry of the column's gradient block, masked
/// by the row's band, and inverted where the marker traces the curve.
pub open spec fn pixel_at(cfg: RenderConfig, lut: Seq<u8>, row: int, x: int) -> (u8, u8, u8) {
    if cfg.in_spacing(row) {
        (0u8, 0u8, 0u8)
    } else {
        let c: u8 = lut[x / cfg.bar_width as int];
        let base: (u8, u8, u8) = channel_triple(cfg.band_of(row), c);
        if cfg.marker && row == cfg.marker_row(c) {
            inverted(base)
        } else {
            base
        }
    }
}

/// The byte the renderer owes flat buffer position `n`: channel `n % 3` of
/// the pixel at index `n / 3`.
pub open spec fn byte_at(cfg: RenderConfig, lut: Seq<u8>, n: int) -> u8 {
    let pix: int = n / 3;
    let chan: int = n % 3;
    let t: (u8, u8, u8) = pixel_at(cfg, lut, pix / cfg.width as int, pix % cfg.width as int);
    if chan == 0 {
        t.0
    } else if chan == 1 {
        t.1
    } else {
        t.2
    }
}

/// `a * d` exceeds `m` whenever `a` exceeds `m / d`.
proof fn lemma_mul_exceeds(a: int, d: int, m: int)
    requires
        d > 0,
        0 <= m,
        a > m / d,
    ensures
        a * d > m,
{
    lemma_fundamental_div_mod(m, d);
    lemma_mod_division_less_than_divisor(m, d);
    assert(a * d >= (m / d + 1) * d) by (nonlinear_arith)
        requires
            a >= m / d + 1,
            d > 0,
    ;
    assert((m / d + 1) * d == d * (m / d) + d) by (nonlinear_arith);
}

/// Check the configuration invariant at startup: a configuration comes
/// back exactly when the tiling invariant holds, and it is the one asked
/// for; otherwise the caller must abort before rendering anything.
pub fn checked_config(
    width: usize,
    height: usize,
    bar_width: usize,
    band_height: usize,
    spacing: usize,
    marker: bool,
) -> (r: Option<RenderConfig>)
    ensures
        r is Some <==> (RenderConfig { width, height, bar_width, band_height, spacing, marker }).wf(),
        r matches Some(c) ==> c == (RenderConfig {
            width,
            height,
            bar_width,
            band_height,
            spacing,
            marker,
        }),
{
    let ok: bool = bar_width >= 1 && band_height >= 1 && spacing < band_height && bar_width
        <= usize::MAX / 256 && width == bar_width * 256 && band_height <= usize::MAX / 4 && height
        == band_height * 4;
    if ok {
        Some(RenderConfig { width, height, bar_width, band_height, spacing, marker })
    } else {
        proof {
            let c = (RenderConfig { width, height, bar_width, band_height, spacing, marker });
            if c.wf() {
                if bar_width > usize::MAX / 256 {
                    lemma_mul_exceeds(bar_width as int, 256, usize::MAX as int);
                }
                if band_height > usize::MAX / 4 {
                    lemma_mul_exceeds(band_height as int, 4, usize::MAX as int);
                }
            }
        }
        None
    }
}

/// The band of a row: rows of the first partition answer 0, and so on up
/// to 3.
pub fn band_of_row(cfg: &RenderConfig, row: usize) -> (b: usize)
    requires
        cfg.wf(),
        row < cfg.height,
    ensures
        b as int == cfg.band_of(row as int),
        b < 4,
{
    proof {
        lemma_multiply_divide_lt(row as int, cfg.band_height as int, 4);
        lemma_div_pos_is_pos(row as int, cfg.band_height as int);
    }
    row / cfg.band_height
}

/// Band partitioning: every in-range row lands in one of the four bands,
/// and the bands tile the height in order with no overlap: row `r` is in
/// band `b` exactly when `b * band_height <= r < (b + 1) * band_height`.
pub proof fn lemma_band_partition(cfg: RenderConfig, row: int)
    requires
        cfg.wf(),
        0 <= row < cfg.height,
    ensures
        0 <= cfg.band_of(row) < 4,
        cfg.band_of(row) * cfg.band_height <= row,
        row < (cfg.band_of(row) + 1) * cfg.band_height,
{
    let bh: int = cfg.band_height as int;
    lemma_multiply_divide_lt(row, bh, 4);
    lemma_div_pos_is_pos(row, bh);
    lemma_fundamental_div_mod(row, bh);
    lemma_mod_division_less_than_divisor(row, bh);
    assert((row / bh) * bh == bh * (row / bh)) by (nonlinear_arith);
    assert((row / bh + 1) * bh == bh * (row / bh) + bh) by (nonlinear_arith);
}

/// The marker trace is antitone in the corrected value: a brighter pixel
/// marks a higher (smaller-index) row, which is what makes the trace a
/// single monotone curve across the image.
pub proof fn lemma_marker_row_antitone(cfg: RenderConfig, c1: u8, c2: u8)
    requires
        c1 <= c2,
    ensures
        cfg.marker_row(c2) <= cfg.marker_row(c1),
{
    assert((255 - c2 as int) * cfg.height as int <= (255 - c1 as int) * cfg.height as int)
        by (nonlinear_arith)
        requires
            c1 as int <= c2 as int <= 255,
            cfg.height as int >= 0,
    ;
    lemma_div_is_ordered(
        (255 - c2 as int) * cfg.height as int + 127,
        (255 - c1 as int) * cfg.height as int + 127,
        255,
    );
}

/// The three bytes of pixel `(row, x)` in the flat image are the three
/// channels of `pixel_at`.
pub proof fn lemma_byte_triple(cfg: RenderConfig, lut: Seq<u8>, row: int, x: int)
    requires
        cfg.wf(),
        0 <= row < cfg.height,
        0 <= x < cfg.width,
    ensures
        byte_at(cfg, lut, 3 * (row * cfg.width + x)) == pixel_at(cfg, lut, row, x).0,
        byte_at(cfg, lut, 3 * (row * cfg.width + x) + 1) == pixel_at(cfg, lut, row, x).1,
        byte_at(cfg, lut, 3 * (row * cfg.width + x) + 2) == pixel_at(cfg, lut, row, x).2,
{
    let p: int = row * cfg.width + x;
    assert(3 * p == p * 3 + 0);
    assert(3 * p + 1 == p * 3 + 1);
    assert(3 * p + 2 == p * 3 + 2);
    lemma_fundamental_div_mod_converse_div(3 * p, 3, p, 0);
    lemma_fundamental_div_mod_converse_mod(3 * p, 3, p, 0);
    lemma_fundamental_div_mod_converse_div(3 * p + 1, 3, p, 1);
    lemma_fundamental_div_mod_converse_mod(3 * p + 1, 3, p, 1);
    lemma_fundamental_div_mod_converse_div(3 * p + 2, 3, p, 2);
    lemma_fundamental_div_mod_converse_mod(3 * p + 2, 3, p, 2);
    assert(p == row * cfg.width + x);
    lemma_fundamental_div_mod_converse_div(p, cfg.width as int, row, x);
    lemma_fundamental_div_mod_converse_mod(p, cfg.width as int, row, x);
}

/// Repaint one frame: overwrite every pixel of the buffer with the four
/// banded gradient bars for this lookup table, and nothing else.  Every
/// byte of the result is pinned to the spec-level image.
#[verifier::loop_isolation(false)]
pub fn render_frame(buf: &mut Vec<u8>, cfg: &RenderConfig, table: &LookupTable)
    requires
        cfg.wf(),
        table.wf(),
        old(buf).len() == cfg.buffer_len(),
    ensures
        final(buf).len() == old(buf).len(),
        forall|n: int|
            0 <= n < cfg.buffer_len() ==> #[trigger] final(buf)@[n] == byte_at(
                *cfg,
                table.entries@,
                n,
            ),
{
    let width: usize = cfg.width;
    let height: usize = cfg.height;
    let mut row: usize = 0;
    while row < height
        invariant
            row <= height,
            buf.len() == cfg.buffer_len(),
            forall|n: int|
                0 <= n < 3 * (row as int * width as int) ==> #[trigger] buf@[n] == byte_at(
                    *cfg,
                    table.entries@,
                    n,
                ),
        decreases height - row,
    {
        let band: usize = band_of_row(cfg, row);
        let in_space: bool = row % cfg.band_height < cfg.spacing;
        let mut x: usize = 0;
        while x < width
            invariant
                x <= width,
                row < height,
                band as int == cfg.band_of(row as int),
                band < 4,
                in_space == cfg.in_spacing(row as int),
                buf.len() == cfg.buffer_len(),
                forall|n: int|
                    0 <= n < 3 * (row as int * width as int + x as int) ==> #[trigger] buf@[n]
                        == byte_at(*cfg, table.entries@, n),
            decreases width - x,
        {
            proof {
                assert(row as int * width as int + (x as int) < height as int * width as int)
                    by (nonlinear_arith)
                    requires
                        (row as int) < height as int,
                        0 <= x as int && (x as int) < width as int,
                        0 <= row as int,
                ;
                assert(height as int * width as int * 3 == cfg.buffer_len()) by (nonlinear_arith)
                    requires
                        width as int == cfg.width as int,
                        height as int == cfg.height as int,
                        cfg.buffer_len() == cfg.width as int * cfg.height as int * 3,
                ;
            }
            let base: usize = 3 * (row * width + x);
            let mut rr: u8 = 0;
            let mut gg: u8 = 0;
            let mut bb: u8 = 0;
            if !in_space {
                proof {
                    lemma_multiply_divide_lt(x as int, cfg.bar_width as int, 256);
                    lemma_div_pos_is_pos(x as int, cfg.bar_width as int);
                    assert(cfg.width as int >= 256) by (nonlinear_arith)
                        requires
                            cfg.width as int == cfg.bar_width as int * 256,
                            cfg.bar_width as int >= 1,
                    ;
                }
                let idx: usize = x / cfg.bar_width;
                let c: u8 = table.entries[idx];
                proof {
                    assert(cfg.height as int >= 4) by (nonlinear_arith)
                        requires
                            cfg.height as int == cfg.band_height as int * 4,
                            cfg.band_height as int >= 1,
                    ;
                    assert((255 - c as int) * (cfg.height as int) + 127 <= cfg.width as int
                        * cfg.height as int * 3) by (nonlinear_arith)
                        requires
                            0 <= c as int,
                            cfg.width as int >= 256,
                            cfg.height as int >= 4,
                    ;
                }
                if band == 0 {
                    rr = c;
                    gg = c;
                    bb = c;
                } else if band == 1 {
                    rr = c;
                } else if band == 2 {
                    gg = c;
                } else {
                    bb = c;
                }
                if cfg.marker {
                    let mrow: usize = ((255 - c as usize) * height + 127) / 255;
                    if row == mrow {
                        rr = 255 - rr;
                        gg = 255 - gg;
                        bb = 255 - bb;
                    }
                }
            }
            proof {
                assert((rr, gg, bb) == pixel_at(*cfg, table.entries@, row as int, x as int));
            }
            buf.set(base, rr);
            buf.set(base + 1, gg);
            buf.set(base + 2, bb);
            proof {
                let p: int = row as int * width as int + x as int;
                lemma_byte_triple(*cfg, table.entries@, row as int, x as int);
                assert forall|n: int| 0 <= n < 3 * (p + 1) implies #[trigger] buf@[n] == byte_at(
                    *cfg,
                    table.entries@,
                    n,
                ) by {
                    if n < 3 * p {
                    } else if n == 3 * p {
                    } else if n == 3 * p + 1 {
                    }
                }
            }
            x = x + 1;
        }
        proof {
            assert(3 * (row as int * width as int + width as int) == 3 * ((row as int + 1)
                * width as int)) by (nonlinear_arith);
        }
        row = row + 1;
    }
    proof {
        assert(3 * (height as int * width as int) == cfg.buffer_len()) by (nonlinear_arith)
            requires
                cfg.buffer_len() == cfg.width as int * cfg.height as int * 3,
                width as int == cfg.width as int,
                height as int == cfg.height as int,
        ;
    }
}

/// One whole frame from the gamma value alone: rebuild the lookup table
/// and repaint every pixel.  The resulting image is a function of the
/// configuration and the gamma and of nothing else, so rendering the same
/// gamma twice is byte-identical.
pub fn render_with_gamma(buf: &mut Vec<u8>, cfg: &RenderConfig, twentieths: u32)
    requires
        cfg.wf(),
        old(buf).len() == cfg.buffer_len(),
    ensures
        final(buf).len() == old(buf).len(),
        forall|n: int|
            0 <= n < cfg.buffer_len() ==> #[trigger] final(buf)@[n] == byte_at(
                *cfg,
                crate::lookup::corrected_table(twentieths as int),
                n,
            ),
{
    let table: LookupTable = crate::lookup::build_lookup(twentieths);
    render_frame(buf, cfg, &table);
}

/// Idempotence of the repaint: two buffers that both carry the spec-level
/// image for the same configuration and table are byte-identical, so
/// rendering the same gamma twice produces the same frame.
pub proof fn lemma_frames_identical(cfg: RenderConfig, lut: Seq<u8>, b1: Seq<u8>, b2: Seq<u8>)
    requires
        b1.len() == cfg.buffer_len(),
        b2.len() == cfg.buffer_len(),
        forall|n: int| 0 <= n < cfg.buffer_len() ==> #[trigger] b1[n] == byte_at(cfg, lut, n),
        forall|n: int| 0 <= n < cfg.buffer_len() ==> #[trigger] b2[n] == byte_at(cfg, lut, n),
    ensures
        b1 == b2,
{
    assert(b1 =~= b2);
}

} // verus!
