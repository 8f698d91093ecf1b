//! One recording from text to image, and the name of its output file.
use vstd::prelude::*;
use crate::ingest::{
    AngleBinMatrix, PpiError, Strictness, ingest, records_of, first_nonzero_range,
    first_nonzero_gain,
};
use crate::grid::{RegularGrid, regularize, regular};
use crate::render::{Colormap, MAX_IMAGE_SIZE, MAX_RENDER_BINS, render, pixel_rgba};

verus! {

/// How each recording of a run is processed.
#[derive(Clone, Copy, Debug, PartialEq, Eq, Structural)]
pub struct ProcessingSettings {
    /// Slots of the angular grid.
    pub pulses: usize,
    /// Widest angular gap that is interpolated, in thousandths of a degree.
    pub gap_mdeg: u64,
    /// Side of the square image, in pixels.
    pub size: u32,
    pub colormap: Colormap,
    /// Worker count; 0 derives it from the processors available.
    pub concurrency: usize,
    pub strictness: Strictness,
}

impl ProcessingSettings {
    pub open spec fn valid(&self) -> bool {
        self.pulses >= 1 && self.size <= MAX_IMAGE_SIZE
    }
}

/// A processed recording: the merged matrix, the regular grid, the RGBA
/// image, and the recording's range setting and gain code.
#[derive(Clone, Debug)]
pub struct Processed {
    pub matrix: AngleBinMatrix,
    pub grid: RegularGrid,
    pub rgba: Vec<u8>,
    pub range_setting: i32,
    pub gain_code: i32,
}

/// The image of `grid` is `rgba`, pixel by pixel.
pub open spec fn image_of(
    grid: Seq<Option<Seq<u64>>>,
    n_bins: int,
    c: Colormap,
    size: int,
    bearings: Seq<u32>,
    rgba: Seq<u8>,
) -> bool {
    &&& rgba.len() == 4 * size * size
    &&& forall|y: int, x: int|
        0 <= y < size && 0 <= x < size ==> {
            let p = #[trigger] (y * size + x);
            let px = pixel_rgba(grid, n_bins, c, size, x, y, bearings[p] as nat);
            &&& rgba[4 * p] == px.0
            &&& rgba[4 * p + 1] == px.1
            &&& rgba[4 * p + 2] == px.2
            &&& rgba[4 * p + 3] == px.3
        }
}

/// Turns the text of one recording into its image: ingestion, regularization
/// and rasterization. `bearings` gives the bearing of each pixel centre as
/// `render` takes it.
pub fn process_text(text: &Vec<u8>, settings: &ProcessingSettings, bearings: &Vec<u32>) -> (r:
    Result<Processed, PpiError>)
    requires
        settings.valid(),
        text@.len() <= MAX_RENDER_BINS,
        bearings@.len() == settings.size * settings.size,
    ensures
        match records_of(text@, settings.strictness) {
            Err(l) => r == Err::<Processed, PpiError>(PpiError::MalformedRow { line: l }),
            Ok(rs) => if rs.len() == 0 {
                r == Err::<Processed, PpiError>(PpiError::EmptyInput)
            } else {
                &&& r.is_ok()
                &&& r->Ok_0.matrix.merges(rs)
                &&& r->Ok_0.matrix.n_bins == rs[0].bins.len()
                &&& r->Ok_0.range_setting as int == first_nonzero_range(rs)
                &&& r->Ok_0.gain_code as int == first_nonzero_gain(rs)
                &&& r->Ok_0.grid.wf()
                &&& r->Ok_0.grid.n_bins == rs[0].bins.len()
                &&& r->Ok_0.grid.view() == regular(
                    r->Ok_0.matrix,
                    settings.pulses as nat,
                    settings.gap_mdeg as int,
                )
                &&& image_of(
                    r->Ok_0.grid.view(),
                    rs[0].bins.len() as int,
                    settings.colormap,
                    settings.size as int,
                    bearings@,
                    r->Ok_0.rgba@,
                )
            },
        },
{
    let ing = match ingest(text, settings.strictness) {
        Ok(v) => v,
        Err(e) => {
            return Err(e);
        },
    };
    let grid = regularize(&ing.matrix, settings.pulses, settings.gap_mdeg);
    let rgba = render(&grid, settings.size, settings.colormap, bearings);
    Ok(
        Processed {
            matrix: ing.matrix,
            grid,
            rgba,
            range_setting: ing.range_setting,
            gain_code: ing.gain_code,
        },
    )
}

/// Decimal digits of `n`.
pub open spec fn dec_nat(n: nat) -> Seq<u8>
    decreases n,
{
    if n < 10 {
        seq![(48 + n) as u8]
    } else {
        dec_nat(n / 10).push((48 + n % 10) as u8)
    }
}

/// Decimal text of `v`, with a leading `-` when negative.
pub open spec fn dec_int(v: int) -> Seq<u8> {
    if v < 0 {
        seq![45u8] + dec_nat((-v) as nat)
    } else {
        dec_nat(v as nat)
    }
}

/// The output file name: `<label>_<gain>_<range>.png`.
pub open spec fn output_name(label: Seq<u8>, gain: int, range: int) -> Seq<u8> {
    label + seq![95u8] + dec_int(gain) + seq![95u8] + dec_int(range) + seq![46u8, 112, 110, 103]
}

fn push_decimal(out: &mut Vec<u8>, n: u64)
    ensures
        final(out)@ == old(out)@ + dec_nat(n as nat),
    decreases n,
{
    if n >= 10 {
        push_decimal(out, n / 10);
    }
    let ghost mid = out@;
    out.push(48 + (n % 10) as u8);
    proof {
        if n >= 10 {
            assert(old(out)@ + dec_nat(n as nat) =~= old(out)@ + dec_nat((n / 10) as nat) + seq![
                (48 + n % 10) as u8,
            ]);
        } else {
            assert(n % 10 == n);
        }
    }
    assert(out@ =~= old(out)@ + dec_nat(n as nat));
}

fn push_int(out: &mut Vec<u8>, v: i32)
    ensures
        final(out)@ == old(out)@ + dec_int(v as int),
{
    if v < 0 {
        out.push(45);
        let m = (0 - (v as i64)) as u64;
        push_decimal(out, m);
        assert(out@ =~= old(out)@ + dec_int(v as int));
    } else {
        push_decimal(out, v as u64);
    }
}

/// The name of the image file of a recording labelled `label`.
pub fn output_file_name(label: &Vec<u8>, gain_code: i32, range_setting: i32) -> (r: Vec<u8>)
    ensures
        r@ == output_name(label@, gain_code as int, range_setting as int),
{
    let mut out: Vec<u8> = Vec::new();
    let mut i: usize = 0;
    while i < label.len()
        invariant
            i <= label@.len(),
            out@ == label@.take(i as int),
        decreases label@.len() - i,
    {
        out.push(label[i]);
        i = i + 1;
        assert(out@ =~= label@.take(i as int));
    }
    assert(label@.take(label@.len() as int) =~= label@);
    out.push(95);
    push_int(&mut out, gain_code);
    out.push(95);
    push_int(&mut out, range_setting);
    out.push(46);
    out.push(112);
    out.push(110);
    out.push(103);
    assert(out@ =~= output_name(label@, gain_code as int, range_setting as int));
    out
}

} // verus!
