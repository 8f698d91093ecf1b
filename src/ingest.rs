//! Record ingestion: pulse records from text, and the merge of records that
//! share an angle tick into an angle-sorted matrix.
use vstd::prelude::*;
use crate::text::{
    MAX_MILLI, split_seq, i32_text, intensity_text, split_at_byte, parse_i32, parse_intensity,
    is_split,
};

verus! {

/// Angle ticks per full revolution.
pub const TICKS_PER_TURN: u32 = 8192;

/// Fields a record row must have: three metadata fields before the range,
/// the range setting, the gain code, the angle tick, and at least one bin.
pub const MIN_FIELDS: usize = 6;

/// How rows that cannot be read and unknown color map names are handled.
#[derive(Clone, Copy, Debug, PartialEq, Eq, Structural)]
pub enum Strictness {
    /// A malformed row fails the whole input; an unknown color map name is an error.
    Strict,
    /// Malformed rows are skipped; an unknown color map name falls back to the default.
    Lenient,
}

/// Errors of the processing pipeline.
#[derive(Clone, Copy, Debug, PartialEq, Eq, Structural)]
pub enum PpiError {
    /// No data row survived parsing.
    EmptyInput,
    /// A row (numbered from 0, the header being row 0) has too few fields, or
    /// a bin count that differs from the first data row.
    MalformedRow { line: usize },
    /// The color map name is not one of the supported maps.
    UnknownColormap,
}

/// One input row: an angle tick in `0..8192`, the range setting, the gain
/// code, and the bin intensities in thousandths of a unit.
#[derive(Clone, Debug)]
pub struct PulseRecord {
    pub angle_tick: u32,
    pub range_setting: i32,
    pub gain_code: i32,
    pub bins: Vec<u64>,
}

/// Records with a distinct angle tick each, ascending by tick, each row of
/// bins `n_bins` long.
#[derive(Clone, Debug)]
pub struct AngleBinMatrix {
    pub ticks: Vec<u32>,
    pub rows: Vec<Vec<u64>>,
    pub n_bins: usize,
}

/// What ingestion yields: the matrix and the first nonzero range setting and
/// gain code (zero when no row gives one).
#[derive(Clone, Debug)]
pub struct Ingested {
    pub matrix: AngleBinMatrix,
    pub range_setting: i32,
    pub gain_code: i32,
}

/// A parsed row, as a mathematical value.
pub struct RecordModel {
    pub tick: nat,
    pub range: int,
    pub gain: int,
    pub bins: Seq<u64>,
}

impl PulseRecord {
    pub open spec fn model(&self) -> RecordModel {
        RecordModel {
            tick: self.angle_tick as nat,
            range: self.range_setting as int,
            gain: self.gain_code as int,
            bins: self.bins@,
        }
    }
}

/// A tick read from text, put on the circle: negative values count as 0,
/// others are taken modulo one revolution.
pub open spec fn tick_on_circle(v: int) -> nat {
    if v < 0 {
        0
    } else {
        (v % (TICKS_PER_TURN as int)) as nat
    }
}

pub open spec fn int_or_zero(s: Seq<u8>) -> int {
    match i32_text(s) {
        Some(v) => v as int,
        None => 0,
    }
}

/// The record that the fields of a row (at least `MIN_FIELDS` of them) hold.
pub open spec fn record_of_fields(f: Seq<Seq<u8>>) -> RecordModel {
    RecordModel {
        tick: tick_on_circle(int_or_zero(f[4])),
        range: int_or_zero(f[2]),
        gain: int_or_zero(f[3]),
        bins: f.skip(5).map_values(|x: Seq<u8>| intensity_text(x) as u64),
    }
}

/// A line without its trailing carriage return.
pub open spec fn strip_cr(l: Seq<u8>) -> Seq<u8> {
    if l.len() > 0 && l.last() == 13 {
        l.drop_last()
    } else {
        l
    }
}

/// The records of lines `1..k` of `lines` (line 0 is the header). Blank lines
/// are ignored. A row with fewer than `MIN_FIELDS` fields, or whose bin count
/// differs from the first record's, is malformed: an error under `Strict`
/// (giving its line number), skipped under `Lenient`.
pub open spec fn records_upto(lines: Seq<Seq<u8>>, k: int, mode: Strictness) -> Result<
    Seq<RecordModel>,
    usize,
>
    decreases k,
{
    if k <= 1 {
        Ok(Seq::empty())
    } else {
        match records_upto(lines, k - 1, mode) {
            Err(e) => Err(e),
            Ok(rs) => {
                let l = strip_cr(lines[k - 1]);
                let f = split_seq(l, 44);
                if l.len() == 0 {
                    Ok(rs)
                } else if f.len() < MIN_FIELDS || (rs.len() > 0 && f.len() - 5 != rs[0].bins.len()) {
                    if mode == Strictness::Strict {
                        Err((k - 1) as usize)
                    } else {
                        Ok(rs)
                    }
                } else {
                    Ok(rs.push(record_of_fields(f)))
                }
            },
        }
    }
}

/// The records of a whole text.
pub open spec fn records_of(text: Seq<u8>, mode: Strictness) -> Result<Seq<RecordModel>, usize> {
    let lines = split_seq(text, 10);
    records_upto(lines, lines.len() as int, mode)
}

/// The range setting of the first record that gives a nonzero one, or 0.
pub open spec fn first_nonzero_range(rs: Seq<RecordModel>) -> int
    decreases rs.len(),
{
    if rs.len() == 0 {
        0
    } else if rs[0].range != 0 {
        rs[0].range
    } else {
        first_nonzero_range(rs.skip(1))
    }
}

/// The gain code of the first record that gives a nonzero one, or 0.
pub open spec fn first_nonzero_gain(rs: Seq<RecordModel>) -> int
    decreases rs.len(),
{
    if rs.len() == 0 {
        0
    } else if rs[0].gain != 0 {
        rs[0].gain
    } else {
        first_nonzero_gain(rs.skip(1))
    }
}

/// How many records carry tick `t`.
pub open spec fn tick_count(rs: Seq<RecordModel>, t: nat) -> nat
    decreases rs.len(),
{
    if rs.len() == 0 {
        0
    } else {
        tick_count(rs.drop_last(), t) + if rs.last().tick == t {
            1nat
        } else {
            0nat
        }
    }
}

/// Sum of bin `j` over the records that carry tick `t`.
pub open spec fn tick_sum(rs: Seq<RecordModel>, t: nat, j: int) -> nat
    decreases rs.len(),
{
    if rs.len() == 0 {
        0
    } else {
        tick_sum(rs.drop_last(), t, j) + if rs.last().tick == t {
            rs.last().bins[j] as nat
        } else {
            0nat
        }
    }
}

/// All records have `n` bins, each at most `MAX_MILLI`.
pub open spec fn uniform(rs: Seq<RecordModel>, n: nat) -> bool {
    forall|i: int|
        0 <= i < rs.len() ==> (#[trigger] rs[i]).bins.len() == n && rs[i].tick
            < TICKS_PER_TURN && forall|j: int| 0 <= j < n ==> rs[i].bins[j] <= MAX_MILLI
}

impl AngleBinMatrix {
    /// Ticks strictly ascending and below one revolution, one row of
    /// `n_bins` bins per tick.
    pub open spec fn wf(&self) -> bool {
        &&& self.ticks@.len() == self.rows@.len()
        &&& forall|k: int|
            0 <= k < self.ticks@.len() ==> (#[trigger] self.ticks@[k]) < TICKS_PER_TURN
                && self.rows@[k]@.len() == self.n_bins && forall|j: int|
                0 <= j < self.n_bins ==> self.rows@[k]@[j] <= MAX_MILLI
        &&& forall|a: int, b: int|
            0 <= a < b < self.ticks@.len() ==> self.ticks@[a] < self.ticks@[b]
    }

    /// The matrix merges `rs`: it lists each tick that occurs in `rs` once,
    /// ascending, and its row is the element-wise mean (rounded down) of the
    /// bins of the records at that tick.
    pub open spec fn merges(&self, rs: Seq<RecordModel>) -> bool {
        &&& self.wf()
        &&& forall|k: int|
            0 <= k < self.ticks@.len() ==> tick_count(rs, (#[trigger] self.ticks@[k]) as nat) > 0
                && forall|j: int|
                0 <= j < self.n_bins ==> self.rows@[k]@[j] as nat == tick_sum(
                    rs,
                    self.ticks@[k] as nat,
                    j,
                ) / tick_count(rs, self.ticks@[k] as nat)
        &&& forall|t: nat|
            t < TICKS_PER_TURN && tick_count(rs, t) > 0 ==> exists|k: int|
                0 <= k < self.ticks@.len() && self.ticks@[k] == t
    }
}

pub open spec fn models(v: Seq<PulseRecord>) -> Seq<RecordModel> {
    v.map_values(|r: PulseRecord| r.model())
}

proof fn lemma_records_err_sticky(lines: Seq<Seq<u8>>, a: int, b: int, mode: Strictness)
    requires
        a <= b,
        records_upto(lines, a, mode).is_err(),
    ensures
        records_upto(lines, b, mode) == records_upto(lines, a, mode),
    decreases b - a,
{
    if a < b {
        lemma_records_err_sticky(lines, a, b - 1, mode);
    }
}

/// Reads the record of a row whose fields are at `f`, at least `MIN_FIELDS`
/// of them.
fn read_record(text: &Vec<u8>, f: &Vec<(usize, usize)>, lo: usize, hi: usize) -> (r: PulseRecord)
    requires
        lo <= hi <= text@.len(),
        is_split(text@, lo as int, hi as int, 44, f@),
        f@.len() == split_seq(text@.subrange(lo as int, hi as int), 44).len(),
        forall|k: int|
            0 <= k < f@.len() ==> text@.subrange((#[trigger] f@[k]).0 as int, f@[k].1 as int)
                == split_seq(text@.subrange(lo as int, hi as int), 44)[k],
        f@.len() >= MIN_FIELDS,
    ensures
        r.model() == record_of_fields(split_seq(text@.subrange(lo as int, hi as int), 44)),
        r.angle_tick < TICKS_PER_TURN,
        f@.len() <= hi - lo + 1 ==> r.bins@.len() < text@.len(),
        forall|j: int| 0 <= j < r.bins@.len() ==> r.bins@[j] <= MAX_MILLI,
{
    let ghost fs = split_seq(text@.subrange(lo as int, hi as int), 44);
    assert(text@.subrange(f@[2].0 as int, f@[2].1 as int) == fs[2]);
    assert(text@.subrange(f@[3].0 as int, f@[3].1 as int) == fs[3]);
    assert(text@.subrange(f@[4].0 as int, f@[4].1 as int) == fs[4]);
    let range_setting = match parse_i32(text, f[2].0, f[2].1) {
        Some(v) => v,
        None => 0,
    };
    let gain_code = match parse_i32(text, f[3].0, f[3].1) {
        Some(v) => v,
        None => 0,
    };
    let raw_tick = match parse_i32(text, f[4].0, f[4].1) {
        Some(v) => v,
        None => 0,
    };
    let angle_tick: u32 = if raw_tick < 0 {
        0
    } else {
        (raw_tick as u32) % TICKS_PER_TURN
    };
    let ghost want = fs.skip(5).map_values(|x: Seq<u8>| intensity_text(x) as u64);
    let mut bins: Vec<u64> = Vec::new();
    let mut k: usize = 5;
    while k < f.len()
        invariant
            5 <= k <= f@.len(),
            lo <= hi <= text@.len(),
            is_split(text@, lo as int, hi as int, 44, f@),
            fs == split_seq(text@.subrange(lo as int, hi as int), 44),
            f@.len() == fs.len(),
            forall|q: int|
                0 <= q < f@.len() ==> text@.subrange((#[trigger] f@[q]).0 as int, f@[q].1 as int)
                    == fs[q],
            want == fs.skip(5).map_values(|x: Seq<u8>| intensity_text(x) as u64),
            bins@ =~= want.take(k - 5),
            forall|j: int| 0 <= j < bins@.len() ==> bins@[j] <= MAX_MILLI,
        decreases f@.len() - k,
    {
        let b = parse_intensity(text, f[k].0, f[k].1);
        assert(text@.subrange(f@[k as int].0 as int, f@[k as int].1 as int) == fs[k as int]);
        assert(want[k - 5] == intensity_text(fs[k as int]) as u64);
        bins.push(b);
        k = k + 1;
    }
    assert(want.take(f@.len() - 5) =~= want);
    PulseRecord { angle_tick, range_setting, gain_code, bins }
}

/// What one line of record text holds.
enum LineKind {
    Blank,
    Malformed,
    Row(PulseRecord),
}

/// Reads the line `text[lo..hi]`; `first` is the bin count of the first
/// record read so far, if any.
fn read_line(text: &Vec<u8>, lo: usize, hi: usize, first: Option<usize>) -> (r: LineKind)
    requires
        lo <= hi <= text@.len(),
    ensures
        ({
            let l = strip_cr(text@.subrange(lo as int, hi as int));
            let f = split_seq(l, 44);
            &&& (r is Blank <==> l.len() == 0)
            &&& (r is Malformed <==> l.len() > 0 && (f.len() < MIN_FIELDS || (first.is_some()
                && f.len() - 5 != first.unwrap())))
            &&& r is Row ==> r->Row_0.model() == record_of_fields(f) && r->Row_0.angle_tick
                < TICKS_PER_TURN && forall|j: int|
                0 <= j < r->Row_0.bins@.len() ==> r->Row_0.bins@[j] <= MAX_MILLI
            &&& r is Row ==> r->Row_0.bins@.len() < text@.len()
        }),
{
    let ghost line = text@.subrange(lo as int, hi as int);
    let mut end = hi;
    if end > lo && text[end - 1] == 13 {
        end = end - 1;
        assert(text@.subrange(lo as int, end as int) =~= line.drop_last());
    }
    assert(text@.subrange(lo as int, end as int) == strip_cr(line));
    if end == lo {
        return LineKind::Blank;
    }
    let f = split_at_byte(text, lo, end, 44);
    let n = f.len();
    let bad_count = n < MIN_FIELDS || match first {
        Some(m) => n - 5 != m,
        None => false,
    };
    if bad_count {
        LineKind::Malformed
    } else {
        LineKind::Row(read_record(text, &f, lo, end))
    }
}

/// Parses the records of a text: the header line is skipped, blank lines
/// are ignored, and malformed rows are handled as `mode` says.
pub fn parse_records(text: &Vec<u8>, mode: Strictness) -> (r: Result<Vec<PulseRecord>, PpiError>)
    ensures
        match records_of(text@, mode) {
            Ok(rs) => r.is_ok() && models(r->Ok_0@) == rs,
            Err(l) => r == Err::<Vec<PulseRecord>, PpiError>(PpiError::MalformedRow { line: l }),
        },
        r.is_ok() ==> forall|i: int|
            0 <= i < r->Ok_0@.len() ==> (#[trigger] r->Ok_0@[i]).bins@.len() < text@.len(),
        r.is_ok() ==> forall|i: int|
            0 <= i < r->Ok_0@.len() ==> (#[trigger] r->Ok_0@[i]).angle_tick < TICKS_PER_TURN
                && forall|j: int|
                0 <= j < r->Ok_0@[i].bins@.len() ==> r->Ok_0@[i].bins@[j] <= MAX_MILLI,
{
    let lines = split_at_byte(text, 0, text.len(), 10);
    let ghost ls = split_seq(text@, 10);
    assert(text@.subrange(0, text@.len() as int) =~= text@);
    let mut recs: Vec<PulseRecord> = Vec::new();
    assert(models(recs@) =~= Seq::<RecordModel>::empty());
    let mut k: usize = 1;
    while k < lines.len()
        invariant
            1 <= k <= lines@.len(),
            lines@.len() == ls.len(),
            ls == split_seq(text@, 10),
            is_split(text@, 0, text@.len() as int, 10, lines@),
            forall|q: int|
                0 <= q < lines@.len() ==> text@.subrange(
                    (#[trigger] lines@[q]).0 as int,
                    lines@[q].1 as int,
                ) == ls[q],
            records_upto(ls, k as int, mode) == Ok::<Seq<RecordModel>, usize>(models(recs@)),
            forall|i: int| 0 <= i < recs@.len() ==> (#[trigger] recs@[i]).bins@.len() < text@.len(),
            forall|i: int|
                0 <= i < recs@.len() ==> (#[trigger] recs@[i]).angle_tick < TICKS_PER_TURN
                    && forall|j: int| 0 <= j < recs@[i].bins@.len() ==> recs@[i].bins@[j] <= MAX_MILLI,
        decreases lines@.len() - k,
    {
        assert(text@.subrange(lines@[k as int].0 as int, lines@[k as int].1 as int) == ls[k as int]);
        let first: Option<usize> = if recs.len() > 0 {
            Some(recs[0].bins.len())
        } else {
            None
        };
        match read_line(text, lines[k].0, lines[k].1, first) {
            LineKind::Blank => {},
            LineKind::Malformed => {
                match mode {
                    Strictness::Strict => {
                        proof {
                            lemma_records_err_sticky(ls, k + 1, ls.len() as int, mode);
                        }
                        return Err(PpiError::MalformedRow { line: k });
                    },
                    Strictness::Lenient => {},
                }
            },
            LineKind::Row(rec) => {
                let ghost before = recs@;
                recs.push(rec);
                assert(models(recs@) =~= models(before).push(rec.model()));
            },
        }
        k = k + 1;
    }
    Ok(recs)
}

pub proof fn lemma_mean_bound(sum: nat, count: nat, cap: nat)
    requires
        count > 0,
        sum <= count * cap,
    ensures
        sum / count <= cap,
{
    assert(sum / count <= cap) by (nonlinear_arith)
        requires
            count > 0,
            sum <= count * cap,
    ;
}

/// Merges records that share a tick: one row per tick, ascending, holding
/// the element-wise mean of their bins, rounded down.
pub fn merge_records(recs: &Vec<PulseRecord>, n_bins: usize) -> (m: AngleBinMatrix)
    requires
        uniform(models(recs@), n_bins as nat),
    ensures
        m.merges(models(recs@)),
        m.n_bins == n_bins,
{
    let ghost rs = models(recs@);
    let mut ticks: Vec<u32> = Vec::new();
    let mut rows: Vec<Vec<u64>> = Vec::new();
    let mut t: u32 = 0;
    while t < TICKS_PER_TURN
        invariant
            rs == models(recs@),
            uniform(rs, n_bins as nat),
            t <= TICKS_PER_TURN,
            ticks@.len() == rows@.len(),
            forall|k: int|
                0 <= k < ticks@.len() ==> (#[trigger] ticks@[k]) < t && rows@[k]@.len() == n_bins
                    && tick_count(rs, ticks@[k] as nat) > 0 && forall|j: int|
                    0 <= j < n_bins ==> rows@[k]@[j] <= MAX_MILLI && rows@[k]@[j] as nat
                        == tick_sum(rs, ticks@[k] as nat, j) / tick_count(rs, ticks@[k] as nat),
            forall|a: int, b: int| 0 <= a < b < ticks@.len() ==> ticks@[a] < ticks@[b],
            forall|u: nat|
                u < t && tick_count(rs, u) > 0 ==> exists|k: int|
                    0 <= k < ticks@.len() && ticks@[k] == u,
        decreases TICKS_PER_TURN - t,
    {
        let mut sums: Vec<u128> = Vec::new();
        while sums.len() < n_bins
            invariant
                sums@.len() <= n_bins,
                forall|j: int| 0 <= j < sums@.len() ==> sums@[j] == 0,
            decreases n_bins - sums@.len(),
        {
            sums.push(0);
        }
        let mut count: usize = 0;
        let mut i: usize = 0;
        while i < recs.len()
            invariant
                rs == models(recs@),
                uniform(rs, n_bins as nat),
                i <= recs@.len(),
                sums@.len() == n_bins,
                count <= i,
                count as nat == tick_count(rs.take(i as int), t as nat),
                forall|j: int|
                    0 <= j < n_bins ==> sums@[j] as nat == tick_sum(rs.take(i as int), t as nat, j)
                        && sums@[j] <= count as nat * MAX_MILLI,
            decreases recs@.len() - i,
        {
            assert(rs.take(i + 1).drop_last() =~= rs.take(i as int));
            assert(rs.take(i + 1).last() == rs[i as int]);
            assert(rs[i as int] == recs@[i as int].model());
            if recs[i].angle_tick == t {
                let mut j: usize = 0;
                while j < n_bins
                    invariant
                        rs == models(recs@),
                        uniform(rs, n_bins as nat),
                        i < recs@.len(),
                        j <= n_bins,
                        sums@.len() == n_bins,
                        count < recs@.len(),
                        rs[i as int] == recs@[i as int].model(),
                        forall|q: int|
                            0 <= q < j ==> sums@[q] as nat == tick_sum(
                                rs.take(i as int),
                                t as nat,
                                q,
                            ) + recs@[i as int].bins@[q] && sums@[q] <= (count + 1) as nat
                                * MAX_MILLI,
                        forall|q: int|
                            j <= q < n_bins ==> sums@[q] as nat == tick_sum(
                                rs.take(i as int),
                                t as nat,
                                q,
                            ) && sums@[q] <= count as nat * MAX_MILLI,
                    decreases n_bins - j,
                {
                    assert(rs[i as int].bins.len() == n_bins);
                    assert(recs@[i as int].bins@[j as int] <= MAX_MILLI);
                    let v = sums[j] + recs[i].bins[j] as u128;
                    sums.set(j, v);
                    j = j + 1;
                }
                count = count + 1;
            }
            i = i + 1;
        }
        assert(rs.take(recs@.len() as int) =~= rs);
        let ghost old_ticks = ticks@;
        if count > 0 {
            let mut row: Vec<u64> = Vec::new();
            let mut j: usize = 0;
            while j < n_bins
                invariant
                    j <= n_bins,
                    sums@.len() == n_bins,
                    count > 0,
                    row@.len() == j,
                    forall|q: int|
                        0 <= q < n_bins ==> sums@[q] as nat == tick_sum(rs, t as nat, q) && sums@[q]
                            <= count as nat * MAX_MILLI,
                    count as nat == tick_count(rs, t as nat),
                    forall|q: int|
                        0 <= q < j ==> row@[q] <= MAX_MILLI && row@[q] as nat == tick_sum(
                            rs,
                            t as nat,
                            q,
                        ) / tick_count(rs, t as nat),
                decreases n_bins - j,
            {
                proof {
                    lemma_mean_bound(sums@[j as int] as nat, count as nat, MAX_MILLI as nat);
                }
                let v = (sums[j] / (count as u128)) as u64;
                row.push(v);
                j = j + 1;
            }
            ticks.push(t);
            rows.push(row);
        }
        proof {
            assert forall|u: nat|
                u < t + 1 && tick_count(rs, u) > 0 implies exists|k: int|
                    0 <= k < ticks@.len() && ticks@[k] == u by {
                if u == t {
                    assert(ticks@[ticks@.len() - 1] == u);
                } else {
                    let k = choose|k: int| 0 <= k < old_ticks.len() && old_ticks[k] == u;
                    assert(ticks@[k] == u);
                }
            }
        }
        t = t + 1;
    }
    AngleBinMatrix { ticks, rows, n_bins }
}

proof fn lemma_records_uniform(lines: Seq<Seq<u8>>, k: int, mode: Strictness)
    requires
        records_upto(lines, k, mode).is_ok(),
    ensures
        ({
            let rs = records_upto(lines, k, mode)->Ok_0;
            forall|i: int| 0 <= i < rs.len() ==> (#[trigger] rs[i]).bins.len() == rs[0].bins.len()
        }),
    decreases k,
{
    if k > 1 {
        lemma_records_uniform(lines, k - 1, mode);
        let l = strip_cr(lines[k - 1]);
        let f = split_seq(l, 44);
        let rs = records_upto(lines, k - 1, mode)->Ok_0;
        if l.len() > 0 && !(f.len() < MIN_FIELDS || (rs.len() > 0 && f.len() - 5 != rs[0].bins.len())) {
            assert(record_of_fields(f).bins.len() == f.len() - 5);
        }
    }
}

/// First nonzero range setting and gain code, in record order.
fn first_nonzero_meta(recs: &Vec<PulseRecord>) -> (r: (i32, i32))
    ensures
        r.0 as int == first_nonzero_range(models(recs@)),
        r.1 as int == first_nonzero_gain(models(recs@)),
{
    let ghost rs = models(recs@);
    let mut range_setting: i32 = 0;
    let mut gain_code: i32 = 0;
    let mut i: usize = 0;
    assert(rs.skip(0) =~= rs);
    while i < recs.len()
        invariant
            rs == models(recs@),
            i <= recs@.len(),
            range_setting == 0 ==> first_nonzero_range(rs) == first_nonzero_range(rs.skip(i as int)),
            range_setting != 0 ==> first_nonzero_range(rs) == range_setting as int,
            gain_code == 0 ==> first_nonzero_gain(rs) == first_nonzero_gain(rs.skip(i as int)),
            gain_code != 0 ==> first_nonzero_gain(rs) == gain_code as int,
        decreases recs@.len() - i,
    {
        assert(rs.skip(i as int)[0] == recs@[i as int].model());
        assert(rs.skip(i as int).skip(1) =~= rs.skip(i + 1));
        if range_setting == 0 {
            range_setting = recs[i].range_setting;
        }
        if gain_code == 0 {
            gain_code = recs[i].gain_code;
        }
        i = i + 1;
    }
    assert(rs.skip(i as int) =~= Seq::<RecordModel>::empty());
    (range_setting, gain_code)
}

/// Parses a record text into the merged angle/bin matrix and its metadata.
pub fn ingest(text: &Vec<u8>, mode: Strictness) -> (r: Result<Ingested, PpiError>)
    ensures
        match records_of(text@, mode) {
            Err(l) => r == Err::<Ingested, PpiError>(PpiError::MalformedRow { line: l }),
            Ok(rs) => if rs.len() == 0 {
                r == Err::<Ingested, PpiError>(PpiError::EmptyInput)
            } else {
                &&& r.is_ok()
                &&& r->Ok_0.matrix.merges(rs)
                &&& r->Ok_0.matrix.n_bins == rs[0].bins.len()
                &&& r->Ok_0.range_setting as int == first_nonzero_range(rs)
                &&& r->Ok_0.gain_code as int == first_nonzero_gain(rs)
                &&& r->Ok_0.matrix.n_bins < text@.len()
            },
        },
{
    let recs = match parse_records(text, mode) {
        Ok(v) => v,
        Err(e) => {
            return Err(e);
        },
    };
    if recs.len() == 0 {
        return Err(PpiError::EmptyInput);
    }
    let ghost rs = models(recs@);
    proof {
        let lines = split_seq(text@, 10);
        lemma_records_uniform(lines, lines.len() as int, mode);
        assert forall|i: int| 0 <= i < rs.len() implies (#[trigger] rs[i]).bins.len()
            == recs@[0].bins@.len() && rs[i].tick < TICKS_PER_TURN && forall|j: int|
            0 <= j < recs@[0].bins@.len() ==> rs[i].bins[j] <= MAX_MILLI by {
            assert(rs[i] == recs@[i].model());
        }
    }
    let n_bins = recs[0].bins.len();
    let matrix = merge_records(&recs, n_bins);
    let (range_setting, gain_code) = first_nonzero_meta(&recs);
    Ok(Ingested { matrix, range_setting, gain_code })
}

} // verus!
