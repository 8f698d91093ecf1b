//! Rasterization of a regular grid into a square RGBA plan-position image.
use vstd::prelude::*;
use crate::text::MAX_MILLI;
use crate::ingest::{PpiError, Strictness};
use crate::grid::RegularGrid;

verus! {

/// Largest image side, in pixels.
pub const MAX_IMAGE_SIZE: u32 = 32768;

/// Largest bin count that the rasterizer takes.
pub const MAX_RENDER_BINS: usize = 4294967295;

/// Bearings are given in units of 2^-32 of a turn.
pub const BEARING_UNITS: u64 = 4294967296;

/// The supported color maps: three perceptual gradients and a linear gray
/// ramp from black at 0 to white at 1.
#[derive(Clone, Copy, Debug, PartialEq, Eq, Structural)]
pub enum Colormap {
    Viridis,
    Turbo,
    Magma,
    Gray,
}

/// Viridis sampled at `i / (n - 1)`.
pub uninterp spec fn viridis_rgb(i: nat, n: nat) -> (u8, u8, u8);

/// Turbo sampled at `i / (n - 1)`.
pub uninterp spec fn turbo_rgb(i: nat, n: nat) -> (u8, u8, u8);

/// Magma sampled at `i / (n - 1)`.
pub uninterp spec fn magma_rgb(i: nat, n: nat) -> (u8, u8, u8);

/// Relies on colorous::VIRIDIS.eval_rational, which samples the gradient at
/// `i / (n - 1)` and panics only when `n` is 0.
#[verifier::external_body]
fn sample_viridis(i: u64, n: u64) -> (r: (u8, u8, u8))
    requires
        n >= 1,
    ensures
        r == viridis_rgb(i as nat, n as nat),
{
    let c = colorous::VIRIDIS.eval_rational(i as usize, n as usize);
    (c.r, c.g, c.b)
}

/// Relies on colorous::TURBO.eval_rational, which samples the gradient at
/// `i / (n - 1)` and panics only when `n` is 0.
#[verifier::external_body]
fn sample_turbo(i: u64, n: u64) -> (r: (u8, u8, u8))
    requires
        n >= 1,
    ensures
        r == turbo_rgb(i as nat, n as nat),
{
    let c = colorous::TURBO.eval_rational(i as usize, n as usize);
    (c.r, c.g, c.b)
}

/// Relies on colorous::MAGMA.eval_rational, which samples the gradient at
/// `i / (n - 1)` and panics only when `n` is 0.
#[verifier::external_body]
fn sample_magma(i: u64, n: u64) -> (r: (u8, u8, u8))
    requires
        n >= 1,
    ensures
        r == magma_rgb(i as nat, n as nat),
{
    let c = colorous::MAGMA.eval_rational(i as usize, n as usize);
    (c.r, c.g, c.b)
}

/// `v / mx` on a 0..255 gray ramp, rounded to nearest.
pub open spec fn gray_level(v: nat, mx: nat) -> nat {
    (510 * v + mx) / (2 * mx)
}

/// The color of intensity `v` (at most `mx`) normalized by the maximum `mx`.
pub open spec fn color_of(c: Colormap, v: nat, mx: nat) -> (u8, u8, u8) {
    match c {
        Colormap::Viridis => viridis_rgb(v, mx + 1),
        Colormap::Turbo => turbo_rgb(v, mx + 1),
        Colormap::Magma => magma_rgb(v, mx + 1),
        Colormap::Gray => {
            let g = gray_level(v, mx) as u8;
            (g, g, g)
        },
    }
}

/// Evaluates the color map at `v / mx`.
pub fn eval_color(c: Colormap, v: u64, mx: u64) -> (r: (u8, u8, u8))
    requires
        0 < mx <= MAX_MILLI,
        v <= mx,
    ensures
        r == color_of(c, v as nat, mx as nat),
{
    match c {
        Colormap::Viridis => sample_viridis(v, mx + 1),
        Colormap::Turbo => sample_turbo(v, mx + 1),
        Colormap::Magma => sample_magma(v, mx + 1),
        Colormap::Gray => {
            let num = 510 * (v as u128) + (mx as u128);
            let g128 = num / (2 * (mx as u128));
            assert(g128 <= 255) by (nonlinear_arith)
                requires
                    g128 == (510 * v + mx) / (2 * mx),
                    v <= mx,
                    mx > 0,
            ;
            let g = g128 as u8;
            (g, g, g)
        },
    }
}

pub open spec fn lower(c: u8) -> u8 {
    if 65 <= c <= 90 {
        (c + 32) as u8
    } else {
        c
    }
}

/// `s` equals the lower-case ASCII word `w`, ignoring ASCII case.
pub open spec fn same_word(s: Seq<u8>, w: Seq<u8>) -> bool {
    s.len() == w.len() && forall|i: int| 0 <= i < s.len() ==> lower(#[trigger] s[i]) == w[i]
}

fn word_is(s: &Vec<u8>, w: &[u8]) -> (r: bool)
    ensures
        r == same_word(s@, w@),
{
    if s.len() != w.len() {
        return false;
    }
    let mut i: usize = 0;
    while i < s.len()
        invariant
            s@.len() == w@.len(),
            i <= s@.len(),
            forall|q: int| 0 <= q < i ==> lower(#[trigger] s@[q]) == w@[q],
        decreases s@.len() - i,
    {
        let c = s[i];
        let l: u8 = if c >= 65 && c <= 90 {
            c + 32
        } else {
            c
        };
        if l != w[i] {
            return false;
        }
        i = i + 1;
    }
    true
}

pub open spec fn word_viridis() -> Seq<u8> {
    seq![118u8, 105, 114, 105, 100, 105, 115]
}

pub open spec fn word_turbo() -> Seq<u8> {
    seq![116u8, 117, 114, 98, 111]
}

pub open spec fn word_magma() -> Seq<u8> {
    seq![109u8, 97, 103, 109, 97]
}

pub open spec fn word_gray() -> Seq<u8> {
    seq![103u8, 114, 97, 121]
}

pub open spec fn word_grey() -> Seq<u8> {
    seq![103u8, 114, 101, 121]
}

pub open spec fn word_grayscale() -> Seq<u8> {
    seq![103u8, 114, 97, 121, 115, 99, 97, 108, 101]
}

/// The color map a name selects, ignoring ASCII case.
pub open spec fn colormap_named(s: Seq<u8>) -> Option<Colormap> {
    if same_word(s, word_viridis()) {
        Some(Colormap::Viridis)
    } else if same_word(s, word_turbo()) {
        Some(Colormap::Turbo)
    } else if same_word(s, word_magma()) {
        Some(Colormap::Magma)
    } else if same_word(s, word_gray()) || same_word(s, word_grey()) || same_word(
        s,
        word_grayscale(),
    ) {
        Some(Colormap::Gray)
    } else {
        None
    }
}

impl Colormap {
    /// Selects a color map by name (`viridis`, `turbo`, `magma`, `gray`,
    /// `grey`, `grayscale`, in any ASCII case). An unknown name is an error
    /// under `Strict` and selects viridis under `Lenient`.
    pub fn from_name(name: &Vec<u8>, mode: Strictness) -> (r: Result<Colormap, PpiError>)
        ensures
            match colormap_named(name@) {
                Some(c) => r == Ok::<Colormap, PpiError>(c),
                None => r == if mode == Strictness::Strict {
                    Err::<Colormap, PpiError>(PpiError::UnknownColormap)
                } else {
                    Ok::<Colormap, PpiError>(Colormap::Viridis)
                },
            },
    {
        let v: [u8; 7] = [118, 105, 114, 105, 100, 105, 115];
        let t: [u8; 5] = [116, 117, 114, 98, 111];
        let m: [u8; 5] = [109, 97, 103, 109, 97];
        let g1: [u8; 4] = [103, 114, 97, 121];
        let g2: [u8; 4] = [103, 114, 101, 121];
        let g3: [u8; 9] = [103, 114, 97, 121, 115, 99, 97, 108, 101];
        assert(v@ =~= word_viridis());
        assert(t@ =~= word_turbo());
        assert(m@ =~= word_magma());
        assert(g1@ =~= word_gray());
        assert(g2@ =~= word_grey());
        assert(g3@ =~= word_grayscale());
        if word_is(name, v.as_slice()) {
            Ok(Colormap::Viridis)
        } else if word_is(name, t.as_slice()) {
            Ok(Colormap::Turbo)
        } else if word_is(name, m.as_slice()) {
            Ok(Colormap::Magma)
        } else if word_is(name, g1.as_slice()) || word_is(name, g2.as_slice()) || word_is(
            name,
            g3.as_slice(),
        ) {
            Ok(Colormap::Gray)
        } else {
            match mode {
                Strictness::Strict => Err(PpiError::UnknownColormap),
                Strictness::Lenient => Ok(Colormap::Viridis),
            }
        }
    }
}

/// Largest bin value of a row.
pub open spec fn row_max(r: Seq<u64>) -> nat
    decreases r.len(),
{
    if r.len() == 0 {
        0
    } else {
        let m = row_max(r.drop_last());
        if r.last() > m {
            r.last() as nat
        } else {
            m
        }
    }
}

/// Largest bin value over the present slots of a grid.
pub open spec fn grid_max(g: Seq<Option<Seq<u64>>>) -> nat
    decreases g.len(),
{
    if g.len() == 0 {
        0
    } else {
        let m = grid_max(g.drop_last());
        let l = match g.last() {
            Some(r) => row_max(r),
            None => 0,
        };
        if l > m {
            l
        } else {
            m
        }
    }
}

/// Squared distance of the centre of pixel `(x, y)` from the centre of an
/// `s`-pixel canvas, in units of half a pixel.
pub open spec fn pixel_d2(x: int, y: int, s: int) -> int {
    let dx = 2 * x + 1 - s;
    let dy = s - 2 * y - 1;
    dx * dx + dy * dy
}

/// Bin `b` lies within the normalized radius: `b <= sqrt(d2) * n / s`.
pub open spec fn reaches(d2: int, n: int, s: int, b: int) -> bool {
    (b * s) * (b * s) <= d2 * (n * n)
}

/// `b` is the bin at normalized radius `sqrt(d2) / s`, `floor(sqrt(d2) * n / s)`.
pub open spec fn is_bin(d2: int, n: int, s: int, b: int) -> bool {
    0 <= b && reaches(d2, n, s, b) && !reaches(d2, n, s, b + 1)
}

/// The slot of `pulses` that a bearing (in units of 2^-32 of a turn) falls in.
pub open spec fn slot_of_bearing(bearing: nat, pulses: nat) -> nat {
    bearing * pulses / (BEARING_UNITS as nat)
}

pub open spec fn transparent() -> (u8, u8, u8, u8) {
    (0, 0, 0, 0)
}

/// The RGBA value of pixel `(x, y)` of an `s`-pixel image of grid `g` with
/// `n` bins, whose centre lies at `bearing` clockwise from up. Pixels outside
/// the sweep circle, in absent slots, or on a zero bin are transparent; the
/// others are opaque and colored by their bin normalized by the grid's maximum.
pub open spec fn pixel_rgba(
    g: Seq<Option<Seq<u64>>>,
    n: int,
    c: Colormap,
    s: int,
    x: int,
    y: int,
    bearing: nat,
) -> (u8, u8, u8, u8) {
    let d2 = pixel_d2(x, y, s);
    let mx = grid_max(g);
    if d2 >= s * s || n == 0 || mx == 0 || g.len() == 0 {
        transparent()
    } else {
        let b = choose|b: int| is_bin(d2, n, s, b);
        match g[slot_of_bearing(bearing, g.len() as nat) as int] {
            None => transparent(),
            Some(row) => if row[b] == 0 {
                transparent()
            } else {
                let rgb = color_of(c, row[b] as nat, mx);
                (rgb.0, rgb.1, rgb.2, 255)
            },
        }
    }
}

proof fn lemma_square_mono(a: int, b: int)
    requires
        0 <= a <= b,
    ensures
        a * a <= b * b,
{
    assert(a * a <= b * b) by (nonlinear_arith)
        requires
            0 <= a <= b,
    ;
}

proof fn lemma_bin_unique(d2: int, n: int, s: int, b: int, b2: int)
    requires
        s > 0,
        is_bin(d2, n, s, b),
        is_bin(d2, n, s, b2),
    ensures
        b == b2,
{
    if b < b2 {
        assert((b + 1) * s <= b2 * s) by (nonlinear_arith)
            requires
                b + 1 <= b2,
                s > 0,
        ;
        assert(0 <= (b + 1) * s) by (nonlinear_arith)
            requires
                b >= 0,
                s > 0,
        ;
        lemma_square_mono((b + 1) * s, b2 * s);
    } else if b2 < b {
        assert((b2 + 1) * s <= b * s) by (nonlinear_arith)
            requires
                b2 + 1 <= b,
                s > 0,
        ;
        assert(0 <= (b2 + 1) * s) by (nonlinear_arith)
            requires
                b2 >= 0,
                s > 0,
        ;
        lemma_square_mono((b2 + 1) * s, b * s);
    }
}

/// Largest value of a grid.
fn max_value(g: &RegularGrid) -> (r: u64)
    requires
        g.wf(),
    ensures
        r as nat == grid_max(g.view()),
        r <= MAX_MILLI,
{
    let ghost v = g.view();
    let mut m: u64 = 0;
    let mut i: usize = 0;
    while i < g.slots.len()
        invariant
            g.wf(),
            v == g.view(),
            i <= g.slots@.len(),
            m as nat == grid_max(v.take(i as int)),
            m <= MAX_MILLI,
        decreases g.slots@.len() - i,
    {
        assert(v.take(i + 1).drop_last() =~= v.take(i as int));
        match &g.slots[i] {
            Some(row) => {
                assert(v[i as int] == Some(row@));
                let mut rm: u64 = 0;
                let mut j: usize = 0;
                while j < row.len()
                    invariant
                        j <= row@.len(),
                        rm as nat == row_max(row@.take(j as int)),
                        row@.len() == g.n_bins,
                        forall|q: int| 0 <= q < g.n_bins ==> row@[q] <= MAX_MILLI,
                        rm <= MAX_MILLI,
                    decreases row@.len() - j,
                {
                    assert(row@.take(j + 1).drop_last() =~= row@.take(j as int));
                    if row[j] > rm {
                        rm = row[j];
                    }
                    j = j + 1;
                }
                assert(row@.take(row@.len() as int) =~= row@);
                if rm > m {
                    m = rm;
                }
            },
            None => {
                assert(v[i as int].is_none());
            },
        }
        i = i + 1;
    }
    assert(v.take(g.slots@.len() as int) =~= v);
    m
}

/// The bin at normalized radius `sqrt(d2) / s`, for a pixel inside the circle.
fn bin_at(d2: u64, n: usize, s: u64) -> (b: usize)
    requires
        0 < s <= MAX_IMAGE_SIZE,
        d2 < s * s,
        0 < n <= MAX_RENDER_BINS,
    ensures
        is_bin(d2 as int, n as int, s as int, b as int),
        b < n,
{
    assert(s * s <= 32768 * 32768) by (nonlinear_arith)
        requires
            s <= 32768,
    ;
    assert((d2 as int) * (n as int) <= 1073741824 * 4294967295) by (nonlinear_arith)
        requires
            d2 <= 1073741824,
            n <= 4294967295,
    ;
    assert((d2 as int) * (n as int) * (n as int) <= 1073741824 * 4294967295 * 4294967295)
        by (nonlinear_arith)
        requires
            (d2 as int) * (n as int) <= 1073741824 * 4294967295,
            n <= 4294967295,
            d2 >= 0,
    ;
    let d2n = (d2 as u128) * (n as u128) * (n as u128);
    assert(d2n == d2 as int * (n as int * n as int)) by (nonlinear_arith)
        requires
            d2n == (d2 as int) * (n as int) * (n as int),
    ;
    let mut lo: usize = 0;
    let mut hi: usize = n;
    assert(!reaches(d2 as int, n as int, s as int, n as int)) by (nonlinear_arith)
        requires
            d2 < s * s,
            n > 0,
            s > 0,
    ;
    assert(reaches(d2 as int, n as int, s as int, 0)) by (nonlinear_arith)
        requires
            d2 >= 0,
    ;
    while lo + 1 < hi
        invariant
            0 <= lo < hi <= n,
            0 < s <= MAX_IMAGE_SIZE,
            n <= MAX_RENDER_BINS,
            d2n == d2 as int * (n as int * n as int),
            reaches(d2 as int, n as int, s as int, lo as int),
            !reaches(d2 as int, n as int, s as int, hi as int),
        decreases hi - lo,
    {
        let mid = lo + (hi - lo) / 2;
        assert((mid as int) * (s as int) <= 4294967295 * 32768) by (nonlinear_arith)
            requires
                mid <= 4294967295,
                s <= 32768,
                mid >= 0,
        ;
        let bs = (mid as u128) * (s as u128);
        assert(bs * bs <= (4294967295 * 32768) * (4294967295 * 32768)) by (nonlinear_arith)
            requires
                bs <= 4294967295 * 32768,
        ;
        if bs * bs <= d2n {
            lo = mid;
        } else {
            hi = mid;
        }
    }
    proof {
        assert(hi == lo + 1);
    }
    lo
}

/// Renders grid `g` as an `size` by `size` RGBA image, row by row, four bytes
/// a pixel. `bearings[y * size + x]` is the bearing of the centre of pixel
/// `(x, y)`, clockwise from up, in units of 2^-32 of a turn.
pub fn render(g: &RegularGrid, size: u32, c: Colormap, bearings: &Vec<u32>) -> (img: Vec<u8>)
    requires
        g.wf(),
        g.n_bins <= MAX_RENDER_BINS,
        size <= MAX_IMAGE_SIZE,
        bearings@.len() == size * size,
    ensures
        img@.len() == 4 * size * size,
        forall|y: int, x: int|
            0 <= y < size && 0 <= x < size ==> {
                let p = #[trigger] (y * size + x);
                let px = pixel_rgba(
                    g.view(),
                    g.n_bins as int,
                    c,
                    size as int,
                    x,
                    y,
                    bearings@[p] as nat,
                );
                &&& img@[4 * p] == px.0
                &&& img@[4 * p + 1] == px.1
                &&& img@[4 * p + 2] == px.2
                &&& img@[4 * p + 3] == px.3
            },
{
    let ghost v = g.view();
    let mx = max_value(g);
    let s = size as u64;
    let n = g.n_bins;
    let pulses = g.slots.len();
    let mut img: Vec<u8> = Vec::new();
    let mut y: u64 = 0;
    while y < s
        invariant
            g.wf(),
            v == g.view(),
            n == g.n_bins,
            pulses == g.slots@.len(),
            n <= MAX_RENDER_BINS,
            s == size,
            s <= MAX_IMAGE_SIZE,
            mx as nat == grid_max(v),
            mx <= MAX_MILLI,
            bearings@.len() == s * s,
            y <= s,
            img@.len() == 4 * y * s,
            forall|yy: int, x: int|
                0 <= yy < y && 0 <= x < s ==> {
                    let p = #[trigger] (yy * s + x);
                    let px = pixel_rgba(v, n as int, c, s as int, x, yy, bearings@[p] as nat);
                    &&& img@[4 * p] == px.0
                    &&& img@[4 * p + 1] == px.1
                    &&& img@[4 * p + 2] == px.2
                    &&& img@[4 * p + 3] == px.3
                },
        decreases s - y,
    {
        let mut x: u64 = 0;
        assert(4 * (y * s + 0) == 4 * y * s) by (nonlinear_arith);
        while x < s
            invariant
                g.wf(),
                v == g.view(),
                n == g.n_bins,
                pulses == g.slots@.len(),
                n <= MAX_RENDER_BINS,
                s == size,
                s <= MAX_IMAGE_SIZE,
                mx as nat == grid_max(v),
                mx <= MAX_MILLI,
                bearings@.len() == s * s,
                y < s,
                x <= s,
                img@.len() == 4 * (y * s + x),
                forall|yy: int, xx: int|
                    (0 <= yy < y && 0 <= xx < s) || (yy == y && 0 <= xx < x) ==> {
                        let p = #[trigger] (yy * s + xx);
                        let px = pixel_rgba(v, n as int, c, s as int, xx, yy, bearings@[p] as nat);
                        &&& img@[4 * p] == px.0
                        &&& img@[4 * p + 1] == px.1
                        &&& img@[4 * p + 2] == px.2
                        &&& img@[4 * p + 3] == px.3
                    },
            decreases s - x,
        {
            assert(y * s + x < s * s) by (nonlinear_arith)
                requires
                    y < s,
                    x < s,
            ;
            assert(s * s <= 32768 * 32768) by (nonlinear_arith)
                requires
                    s <= 32768,
            ;
            assert(4 * (y * s + x) == 4 * y * s + 4 * x) by (nonlinear_arith);
            let p = (y * s + x) as usize;
            let px = pixel(g, n, c, s, x, y, bearings[p], mx);
            let ghost before = img@;
            img.push(px.0);
            img.push(px.1);
            img.push(px.2);
            img.push(px.3);
            assert forall|yy: int, xx: int|
                (0 <= yy < y && 0 <= xx < s) || (yy == y && 0 <= xx < x + 1) implies {
                    let p = #[trigger] (yy * s + xx);
                    let px = pixel_rgba(v, n as int, c, s as int, xx, yy, bearings@[p] as nat);
                    &&& img@[4 * p] == px.0
                    &&& img@[4 * p + 1] == px.1
                    &&& img@[4 * p + 2] == px.2
                    &&& img@[4 * p + 3] == px.3
                } by {
                if yy < y || xx < x {
                    assert(yy * s + xx < y * s + x) by (nonlinear_arith)
                        requires
                            (0 <= yy < y && 0 <= xx < s) || (yy == y && 0 <= xx < x),
                    ;
                    let q = yy * s + xx;
                    assert(img@[4 * q] == before[4 * q]);
                    assert(img@[4 * q + 1] == before[4 * q + 1]);
                    assert(img@[4 * q + 2] == before[4 * q + 2]);
                    assert(img@[4 * q + 3] == before[4 * q + 3]);
                }
            }
            x = x + 1;
        }
        assert(4 * (y * s + s) == 4 * (y + 1) * s) by (nonlinear_arith);
        y = y + 1;
    }
    img
}

/// The RGBA value of one pixel.
fn pixel(g: &RegularGrid, n: usize, c: Colormap, s: u64, x: u64, y: u64, bearing: u32, mx: u64) -> (r: (
    u8,
    u8,
    u8,
    u8,
))
    requires
        g.wf(),
        n == g.n_bins,
        n <= MAX_RENDER_BINS,
        s <= MAX_IMAGE_SIZE,
        x < s,
        y < s,
        mx as nat == grid_max(g.view()),
        mx <= MAX_MILLI,
    ensures
        r == pixel_rgba(g.view(), n as int, c, s as int, x as int, y as int, bearing as nat),
{
    let ghost v = g.view();
    assert(s * s <= 32768 * 32768) by (nonlinear_arith)
        requires
            s <= 32768,
    ;
    let dx: i64 = 2 * (x as i64) + 1 - (s as i64);
    let dy: i64 = (s as i64) - 2 * (y as i64) - 1;
    assert(dx * dx <= s * s && dy * dy <= s * s) by (nonlinear_arith)
        requires
            dx == 2 * x + 1 - s,
            dy == s - 2 * y - 1,
            x < s,
            y < s,
    ;
    assert(dx * dx <= 1073741824 && dy * dy <= 1073741824);
    assert(0 <= dx * dx && 0 <= dy * dy) by (nonlinear_arith);
    let d2 = (dx * dx + dy * dy) as u64;
    assert(d2 as int == pixel_d2(x as int, y as int, s as int));
    if d2 >= s * s || n == 0 || mx == 0 || g.slots.len() == 0 {
        return (0, 0, 0, 0);
    }
    let pulses = g.slots.len();
    assert((bearing as int) * (pulses as int) <= 4294967296 * (usize::MAX as int)) by (nonlinear_arith)
        requires
            bearing < 4294967296,
            pulses <= usize::MAX,
    ;
    let slot128 = (bearing as u128) * (pulses as u128) / (BEARING_UNITS as u128);
    assert(slot128 < pulses) by (nonlinear_arith)
        requires
            slot128 == (bearing as int) * (pulses as int) / 4294967296,
            bearing < 4294967296,
            pulses >= 1,
    ;
    let slot = slot128 as usize;
    let b = bin_at(d2, n, s);
    proof {
        let bc = choose|b: int| is_bin(d2 as int, n as int, s as int, b);
        lemma_bin_unique(d2 as int, n as int, s as int, b as int, bc);
    }
    match &g.slots[slot] {
        None => {
            assert(v[slot as int].is_none());
            (0, 0, 0, 0)
        },
        Some(row) => {
            assert(v[slot as int] == Some(row@));
            let val = row[b];
            if val == 0 {
                (0, 0, 0, 0)
            } else {
                proof {
                    lemma_row_below_max(v, slot as int, b as int);
                }
                let rgb = eval_color(c, val, mx);
                (rgb.0, rgb.1, rgb.2, 255)
            }
        },
    }
}

proof fn lemma_row_max_bound(r: Seq<u64>, j: int)
    requires
        0 <= j < r.len(),
    ensures
        r[j] <= row_max(r),
    decreases r.len(),
{
    if j < r.len() - 1 {
        lemma_row_max_bound(r.drop_last(), j);
    }
}

proof fn lemma_row_below_max(g: Seq<Option<Seq<u64>>>, i: int, j: int)
    requires
        0 <= i < g.len(),
        g[i].is_some(),
        0 <= j < g[i].unwrap().len(),
    ensures
        g[i].unwrap()[j] <= grid_max(g),
    decreases g.len(),
{
    if i < g.len() - 1 {
        lemma_row_below_max(g.drop_last(), i, j);
    } else {
        lemma_row_max_bound(g[i].unwrap(), j);
    }
}

/// A pixel whose bearing falls in an absent slot is fully transparent.
pub proof fn lemma_absent_slot_transparent(
    g: Seq<Option<Seq<u64>>>,
    n: int,
    c: Colormap,
    s: int,
    x: int,
    y: int,
    bearing: nat,
)
    requires
        g.len() >= 1,
        g[slot_of_bearing(bearing, g.len() as nat) as int].is_none(),
    ensures
        pixel_rgba(g, n, c, s, x, y, bearing).3 == 0,
{
}

proof fn lemma_row_max_zero(r: Seq<u64>)
    requires
        forall|j: int| 0 <= j < r.len() ==> r[j] == 0,
    ensures
        row_max(r) == 0,
    decreases r.len(),
{
    if r.len() > 0 {
        lemma_row_max_zero(r.drop_last());
    }
}

proof fn lemma_grid_max_zero(g: Seq<Option<Seq<u64>>>)
    requires
        forall|i: int, j: int|
            0 <= i < g.len() && g[i].is_some() && 0 <= j < g[i].unwrap().len() ==> (#[trigger] g[i].unwrap()[j]) == 0,
    ensures
        grid_max(g) == 0,
    decreases g.len(),
{
    if g.len() > 0 {
        assert forall|i: int, j: int|
            0 <= i < g.drop_last().len() && g.drop_last()[i].is_some() && 0 <= j
                < g.drop_last()[i].unwrap().len() implies (#[trigger] g.drop_last()[i].unwrap()[j]) == 0 by {
            assert(g.drop_last()[i] == g[i]);
        }
        lemma_grid_max_zero(g.drop_last());
        if let Some(r) = g.last() {
            assert(g[g.len() - 1].is_some());
            assert forall|j: int| 0 <= j < r.len() implies r[j] == 0 by {
                assert(g[g.len() - 1].unwrap()[j] == 0);
            }
            lemma_row_max_zero(r);
        }
    }
}

/// A grid whose present slots hold only zero intensities renders fully
/// transparent, whatever its absent slots.
pub proof fn lemma_zero_grid_transparent(
    g: Seq<Option<Seq<u64>>>,
    n: int,
    c: Colormap,
    s: int,
    x: int,
    y: int,
    bearing: nat,
)
    requires
        forall|i: int, j: int|
            0 <= i < g.len() && g[i].is_some() && 0 <= j < g[i].unwrap().len() ==> (#[trigger] g[i].unwrap()[j]) == 0,
    ensures
        pixel_rgba(g, n, c, s, x, y, bearing) == transparent(),
{
    lemma_grid_max_zero(g);
}

} // verus!
