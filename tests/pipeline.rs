use radar_ppi::grid::{regularize, RegularGrid};
use radar_ppi::ingest::{ingest, merge_records, parse_records, AngleBinMatrix, PpiError, PulseRecord, Strictness};
use radar_ppi::pipeline::{output_file_name, process_text, ProcessingSettings};
use radar_ppi::render::{eval_color, render, Colormap};
use radar_ppi::text::{parse_i32, parse_intensity, split_at_byte};

fn bearings(size: u32) -> Vec<u32> {
    let mut out = Vec::new();
    let half = size as f64 / 2.0;
    for y in 0..size {
        for x in 0..size {
            let dx = x as f64 + 0.5 - half;
            let dy = half - (y as f64 + 0.5);
            let mut theta = dx.atan2(dy);
            if theta < 0.0 {
                theta += 2.0 * std::f64::consts::PI;
            }
            let turns = theta / (2.0 * std::f64::consts::PI) * 4294967296.0;
            out.push(turns.min(4294967295.0) as u32);
        }
    }
    out
}

fn settings(pulses: usize, gap_mdeg: u64, size: u32) -> ProcessingSettings {
    ProcessingSettings {
        pulses,
        gap_mdeg,
        size,
        colormap: Colormap::Viridis,
        concurrency: 0,
        strictness: Strictness::Lenient,
    }
}

fn matrix(ticks: Vec<u32>, rows: Vec<Vec<u64>>) -> AngleBinMatrix {
    let n_bins = rows[0].len();
    AngleBinMatrix { ticks, rows, n_bins }
}

#[test]
fn duplicate_ticks_merge_to_mean() {
    let text = b"h\na,b,0,0,100,10,20\na,b,0,0,100,30,40\n".to_vec();
    let ing = ingest(&text, Strictness::Strict).unwrap();
    assert_eq!(ing.matrix.ticks, vec![100]);
    assert_eq!(ing.matrix.rows, vec![vec![20000, 30000]]);
    assert_eq!(ing.matrix.n_bins, 2);
}

#[test]
fn merge_rounds_mean_down_and_sorts_ticks() {
    let recs = vec![
        PulseRecord { angle_tick: 9, range_setting: 0, gain_code: 0, bins: vec![1] },
        PulseRecord { angle_tick: 3, range_setting: 0, gain_code: 0, bins: vec![4] },
        PulseRecord { angle_tick: 9, range_setting: 0, gain_code: 0, bins: vec![2] },
    ];
    let m = merge_records(&recs, 1);
    assert_eq!(m.ticks, vec![3, 9]);
    assert_eq!(m.rows, vec![vec![4], vec![1]]);
}

#[test]
fn first_nonzero_range_and_gain_win() {
    let text = b"hdr\nx,y,0,0,1,1\nx,y,500,0,2,1\nx,y,700,3,3,1\nx,y,0,9,4,1\n".to_vec();
    let ing = ingest(&text, Strictness::Strict).unwrap();
    assert_eq!(ing.range_setting, 500);
    assert_eq!(ing.gain_code, 3);
    assert_eq!(ing.matrix.ticks, vec![1, 2, 3, 4]);
}

#[test]
fn malformed_row_strict_fails_lenient_skips() {
    let text = b"hdr\nx,y,1,2,3,4\nshort,row\nx,y,1,2,5,6\n".to_vec();
    assert_eq!(ingest(&text, Strictness::Strict).err(), Some(PpiError::MalformedRow { line: 2 }));
    let ing = ingest(&text, Strictness::Lenient).unwrap();
    assert_eq!(ing.matrix.ticks, vec![3, 5]);
}

#[test]
fn differing_bin_count_is_malformed() {
    let text = b"hdr\nx,y,1,2,3,4,5\nx,y,1,2,5,6\n".to_vec();
    assert_eq!(ingest(&text, Strictness::Strict).err(), Some(PpiError::MalformedRow { line: 2 }));
    let recs = parse_records(&text, Strictness::Lenient).unwrap();
    assert_eq!(recs.len(), 1);
}

#[test]
fn no_data_rows_is_empty_input() {
    assert_eq!(ingest(&b"only header\n".to_vec(), Strictness::Strict).err(), Some(PpiError::EmptyInput));
    assert_eq!(ingest(&b"".to_vec(), Strictness::Lenient).err(), Some(PpiError::EmptyInput));
    assert_eq!(ingest(&b"h\n1,2\n".to_vec(), Strictness::Lenient).err(), Some(PpiError::EmptyInput));
}

#[test]
fn crlf_lines_and_blank_lines() {
    let text = b"h\r\nx,y,1,2,3,4\r\n\r\nx,y,1,2,8,6\r\n".to_vec();
    let ing = ingest(&text, Strictness::Strict).unwrap();
    assert_eq!(ing.matrix.ticks, vec![3, 8]);
    assert_eq!(ing.matrix.rows, vec![vec![4000], vec![6000]]);
}

#[test]
fn ticks_are_put_on_the_circle() {
    let text = b"h\nx,y,1,2,8193,4\nx,y,1,2,-5,6\n".to_vec();
    let ing = ingest(&text, Strictness::Strict).unwrap();
    assert_eq!(ing.matrix.ticks, vec![0, 1]);
}

#[test]
fn intensity_text_readings() {
    let cases: Vec<(&[u8], u64)> = vec![
        (b"12.5", 12500),
        (b"7", 7000),
        (b".25", 250),
        (b"3.", 3000),
        (b"+1.0009", 1000),
        (b"-3", 0),
        (b"abc", 0),
        (b"", 0),
        (b"1e3", 0),
        (b"99999999999", 1_000_000_000_000),
    ];
    for (t, want) in cases {
        let v = t.to_vec();
        assert_eq!(parse_intensity(&v, 0, v.len()), want, "{:?}", t);
    }
}

#[test]
fn integer_fields() {
    let v = b"-42".to_vec();
    assert_eq!(parse_i32(&v, 0, 3), Some(-42));
    let v = b"+7".to_vec();
    assert_eq!(parse_i32(&v, 0, 2), Some(7));
    let v = b"2147483648".to_vec();
    assert_eq!(parse_i32(&v, 0, v.len()), None);
    let v = b"-2147483648".to_vec();
    assert_eq!(parse_i32(&v, 0, v.len()), Some(i32::MIN));
    let v = b"4x".to_vec();
    assert_eq!(parse_i32(&v, 0, 2), None);
}

#[test]
fn split_keeps_empty_pieces() {
    let v = b"a,,bc,".to_vec();
    assert_eq!(split_at_byte(&v, 0, v.len(), b','), vec![(0, 1), (2, 2), (3, 5), (6, 6)]);
}

#[test]
fn grid_has_pulses_slots() {
    let m = matrix(vec![0, 100, 5000], vec![vec![1, 2], vec![3, 4], vec![5, 6]]);
    for pulses in [1usize, 2, 3, 7, 720] {
        let g = regularize(&m, pulses, 1000);
        assert_eq!(g.slots.len(), pulses);
        for slot in &g.slots {
            if let Some(row) = slot {
                assert_eq!(row.len(), 2);
            }
        }
    }
}

#[test]
fn later_tick_wins_a_shared_slot() {
    let m = matrix(vec![0, 10], vec![vec![1], vec![2]]);
    let g = regularize(&m, 4, 0);
    assert_eq!(g.slots, vec![Some(vec![2]), None, None, None]);
}

#[test]
fn bridged_gap_is_interpolated() {
    let m = matrix(vec![0, 4096], vec![vec![0], vec![8000]]);
    let g = regularize(&m, 8, 180_000);
    let want: Vec<Option<Vec<u64>>> = [0, 2000, 4000, 6000, 8000, 6000, 4000, 2000]
        .iter()
        .map(|v| Some(vec![*v]))
        .collect();
    assert_eq!(g.slots, want);
    for k in 1..4 {
        let v = g.slots[k].as_ref().unwrap()[0];
        assert!(0 < v && v < 8000);
    }
}

#[test]
fn wide_gap_stays_absent_and_renders_transparent() {
    let m = matrix(vec![0, 4096], vec![vec![1000], vec![8000]]);
    let g = regularize(&m, 8, 179_999);
    assert_eq!(g.slots[0], Some(vec![1000]));
    assert_eq!(g.slots[4], Some(vec![8000]));
    for k in [1usize, 2, 3, 5, 6, 7] {
        assert_eq!(g.slots[k], None);
    }
    let size = 16u32;
    let b = bearings(size);
    let img = render(&g, size, Colormap::Gray, &b);
    for p in 0..(size * size) as usize {
        let slot = ((b[p] as u64 * 8) >> 32) as usize;
        if g.slots[slot].is_none() {
            assert_eq!(img[4 * p + 3], 0);
        }
    }
}

#[test]
fn single_present_slot_fills_nothing() {
    let m = matrix(vec![0], vec![vec![5]]);
    let g = regularize(&m, 4, 360_000);
    assert_eq!(g.slots, vec![Some(vec![5]), None, None, None]);
}

#[test]
fn all_zero_grid_renders_transparent() {
    let g = RegularGrid { slots: vec![Some(vec![0, 0, 0]); 6], n_bins: 3 };
    let size = 12u32;
    let img = render(&g, size, Colormap::Turbo, &bearings(size));
    assert_eq!(img.len(), (4 * size * size) as usize);
    assert!(img.iter().all(|v| *v == 0));
}

#[test]
fn gray_ramp_and_opaque_pixels() {
    let g = RegularGrid { slots: vec![Some(vec![1000, 2000])], n_bins: 2 };
    let size = 4u32;
    let img = render(&g, size, Colormap::Gray, &bearings(size));
    // Pixel (1, 1) lies in the inner bin, pixel (0, 1) in the outer one.
    let p = 4 * (1 * 4 + 1);
    assert_eq!(&img[p..p + 4], &[128, 128, 128, 255]);
    let p = 4 * (1 * 4 + 0);
    assert_eq!(&img[p..p + 4], &[255, 255, 255, 255]);
    // Corner pixels lie outside the sweep circle.
    assert_eq!(&img[0..4], &[0, 0, 0, 0]);
}

#[test]
fn perceptual_maps_follow_colorous() {
    let c = colorous::VIRIDIS.eval_rational(3, 11);
    assert_eq!(eval_color(Colormap::Viridis, 3, 10), (c.r, c.g, c.b));
    let c = colorous::TURBO.eval_rational(10, 11);
    assert_eq!(eval_color(Colormap::Turbo, 10, 10), (c.r, c.g, c.b));
    let c = colorous::MAGMA.eval_rational(0, 11);
    assert_eq!(eval_color(Colormap::Magma, 0, 10), (c.r, c.g, c.b));
    assert_ne!(eval_color(Colormap::Viridis, 0, 10), eval_color(Colormap::Viridis, 10, 10));
    assert_eq!(eval_color(Colormap::Gray, 5, 10), (128, 128, 128));
    assert_eq!(eval_color(Colormap::Gray, 0, 10), (0, 0, 0));
}

#[test]
fn colormap_names() {
    let name = |s: &str| s.as_bytes().to_vec();
    assert_eq!(Colormap::from_name(&name("Viridis"), Strictness::Strict), Ok(Colormap::Viridis));
    assert_eq!(Colormap::from_name(&name("TURBO"), Strictness::Strict), Ok(Colormap::Turbo));
    assert_eq!(Colormap::from_name(&name("magma"), Strictness::Strict), Ok(Colormap::Magma));
    assert_eq!(Colormap::from_name(&name("grey"), Strictness::Strict), Ok(Colormap::Gray));
    assert_eq!(Colormap::from_name(&name("GrayScale"), Strictness::Strict), Ok(Colormap::Gray));
    assert_eq!(Colormap::from_name(&name("jet"), Strictness::Strict), Err(PpiError::UnknownColormap));
    assert_eq!(Colormap::from_name(&name("jet"), Strictness::Lenient), Ok(Colormap::Viridis));
}

#[test]
fn output_names() {
    assert_eq!(output_file_name(&b"scan_01".to_vec(), 3, 1500), b"scan_01_3_1500.png".to_vec());
    assert_eq!(output_file_name(&b"a".to_vec(), -12, 0), b"a_-12_0.png".to_vec());
    assert_eq!(
        output_file_name(&b"".to_vec(), i32::MIN, i32::MAX),
        b"_-2147483648_2147483647.png".to_vec()
    );
}

#[test]
fn end_to_end_two_rows_four_pulses() {
    let text = b"header\n0,0,0,0,0,5\n0,0,0,0,4096,9\n".to_vec();
    let size = 4u32;
    let b = bearings(size);
    let out = process_text(&text, &settings(4, 360_000, size), &b).unwrap();
    assert_eq!(
        out.grid.slots,
        vec![Some(vec![5000]), Some(vec![7000]), Some(vec![9000]), Some(vec![7000])]
    );
    assert_eq!(out.rgba.len(), 64);
    let mut opaque_in_slot = [false; 4];
    for p in 0..16usize {
        if out.rgba[4 * p + 3] == 255 {
            opaque_in_slot[((b[p] as u64 * 4) >> 32) as usize] = true;
        }
    }
    assert_eq!(opaque_in_slot, [true; 4]);
}

#[test]
fn end_to_end_errors() {
    let size = 2u32;
    let b = bearings(size);
    let mut s = settings(4, 1000, size);
    assert_eq!(process_text(&b"h\n".to_vec(), &s, &b).err(), Some(PpiError::EmptyInput));
    s.strictness = Strictness::Strict;
    assert_eq!(
        process_text(&b"h\n1,2,3\n".to_vec(), &s, &b).err(),
        Some(PpiError::MalformedRow { line: 1 })
    );
}
