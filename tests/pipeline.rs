use wavescope::reduce::{fit_samples, SampleBatch};
use wavescope::render::{update_lines, RenderDriver, Segment, SUBPIXELS};
use wavescope::ring::{capture_samples, sample_channel};
use wavescope::scale::{get_amplifier, get_max_sample, Gain, MAX_AMPLIFIER};
use wavescope::{MAX_SAMPLES, RENDERED_SAMPLES, UNIT};

fn batch_of(data: &[i32]) -> SampleBatch {
    let mut values = vec![0i32; MAX_SAMPLES];
    values[..data.len()].copy_from_slice(data);
    SampleBatch { values, filled: data.len() }
}

#[test]
fn full_batch_reduces_to_fixed_width() {
    for n in [128usize, 129, 255, 500, 999, 1000] {
        let data: Vec<i32> = (0..n as i32).map(|v| v * 7 - 300).collect();
        let frame = fit_samples(&batch_of(&data));
        assert_eq!(frame.len(), RENDERED_SAMPLES);
    }
}

#[test]
fn short_batch_reduces_to_zero_frame() {
    for n in [0usize, 1, 64, 127] {
        let data = vec![UNIT / 2; n];
        let frame = fit_samples(&batch_of(&data));
        assert_eq!(frame, vec![0; RENDERED_SAMPLES]);
    }
}

#[test]
fn pairs_average_to_their_value() {
    let mut data = Vec::new();
    for i in 0..128 {
        let v = (2 * i + 1) * UNIT;
        data.push(v);
        data.push(v);
    }
    let frame = fit_samples(&batch_of(&data));
    assert_eq!(frame[0], UNIT);
    assert_eq!(frame[1], 3 * UNIT);
    assert_eq!(frame[2], 5 * UNIT);
    for i in 0..128 {
        assert_eq!(frame[i], (2 * i as i32 + 1) * UNIT);
    }
}

#[test]
fn tail_past_last_chunk_is_ignored() {
    // 130 samples: chunks of one, the last two samples are left out
    let mut data = vec![10i32; 128];
    data.push(UNIT);
    data.push(UNIT);
    let frame = fit_samples(&batch_of(&data));
    assert_eq!(frame, vec![10; RENDERED_SAMPLES]);
}

#[test]
fn mean_rounds_toward_zero() {
    let mut data = Vec::new();
    for _ in 0..128 {
        data.extend_from_slice(&[-1, -1, 1]);
    }
    let frame = fit_samples(&batch_of(&data));
    assert_eq!(frame, vec![0; RENDERED_SAMPLES]);
    let mut data = Vec::new();
    for _ in 0..128 {
        data.extend_from_slice(&[-5, -5, 0]);
    }
    let frame = fit_samples(&batch_of(&data));
    assert_eq!(frame, vec![-3; RENDERED_SAMPLES]);
}

#[test]
fn gain_clamps_on_quiet_peak() {
    // half height 500 (surface 1000 high), peak 0.001: raw gain 250000
    let g = get_amplifier(1000, (UNIT / 1000) as u32).unwrap();
    assert_eq!(g, Gain { num: MAX_AMPLIFIER, den: 1 });
    assert_eq!(MAX_AMPLIFIER, 10000);
}

#[test]
fn gain_below_cap_is_exact_fraction() {
    // half height 500, peak 1.0: 250 pixels per unit
    let g = get_amplifier(1000, UNIT as u32).unwrap();
    assert_eq!(g.num, 250 * g.den);
    // half height 540, peak 0.25: 1080 pixels per unit
    let g = get_amplifier(1080, (UNIT / 4) as u32).unwrap();
    assert_eq!(g.num, 1080 * g.den);
    // half height 540.5, peak 1.0: 270.25 pixels per unit
    let g = get_amplifier(1081, UNIT as u32).unwrap();
    assert_eq!(4 * g.num, 1081 * g.den);
    // just below the cap stays unclamped
    let g = get_amplifier(1000, 25001).unwrap();
    assert_eq!((g.num, g.den), (1000 * UNIT as u64, 100004));
    assert_eq!(get_amplifier(0, 7), Some(Gain { num: 0, den: 28 }));
}

#[test]
fn zero_peak_skips_drawing() {
    assert_eq!(get_amplifier(500, 0), None);
    let frame = vec![0i32; RENDERED_SAMPLES];
    assert_eq!(get_max_sample(&frame), 0);
    assert_eq!(update_lines(&batch_of(&vec![0; 600]), 1920, 1080), None);
    // signal that averages out to silence is skipped as well
    assert_eq!(update_lines(&batch_of(&vec![UNIT; 100]), 1920, 1080), None);
}

#[test]
fn peak_is_largest_magnitude() {
    assert_eq!(get_max_sample(&vec![3, -5, 4]), 5);
    assert_eq!(get_max_sample(&vec![i32::MIN, 1]), 2147483648);
    assert_eq!(get_max_sample(&vec![]), 0);
}

#[test]
fn capture_below_capacity_keeps_everything_in_order() {
    let mut ring = sample_channel();
    assert!(!capture_samples(&mut ring, &[1, 2, 3]));
    assert!(!capture_samples(&mut ring, &[4]));
    let mut driver = RenderDriver::new();
    driver.refresh(&mut ring);
    assert_eq!(driver.held.filled, 4);
    assert_eq!(&driver.held.values[..5], &[1, 2, 3, 4, 0]);
    assert_eq!(driver.held.values.len(), MAX_SAMPLES);
}

#[test]
fn burst_over_capacity_delivers_latest() {
    let mut ring = sample_channel();
    assert!(!capture_samples(&mut ring, &[9; 10]));
    let burst: Vec<i32> = (0..2500).collect();
    assert!(capture_samples(&mut ring, &burst));
    let mut driver = RenderDriver::new();
    driver.refresh(&mut ring);
    assert_eq!(driver.held.filled, MAX_SAMPLES);
    let expected: Vec<i32> = (1500..2500).collect();
    assert_eq!(driver.held.values, expected);
    // the ring is empty now: the next refresh keeps what is held
    driver.refresh(&mut ring);
    assert_eq!(driver.held.values, expected);
}

#[test]
fn exactly_full_ring_does_not_fall_behind() {
    let mut ring = sample_channel();
    assert!(!capture_samples(&mut ring, &vec![1; MAX_SAMPLES]));
    assert!(capture_samples(&mut ring, &[2]));
}

#[test]
fn alternating_halves_end_to_end() {
    let half = UNIT / 2;
    let data: Vec<i32> = (0..384).map(|i| if i % 2 == 0 { half } else { -half }).collect();
    let frame = fit_samples(&batch_of(&data));
    for i in 0..RENDERED_SAMPLES {
        let expected = if i % 2 == 0 { 166666 } else { -166666 };
        assert_eq!(frame[i], expected);
    }

    let mut ring = sample_channel();
    assert!(!capture_samples(&mut ring, &data));
    let mut driver = RenderDriver::new();
    let lines = driver.tick(&mut ring, 1920, 1080).expect("a loud batch is drawn");
    assert_eq!(lines.len(), RENDERED_SAMPLES);
    // the tallest column reaches half of the half height: 270 pixels
    for (i, seg) in lines.iter().enumerate() {
        assert_eq!(
            *seg,
            Segment { x: i as i64 * 15 * SUBPIXELS, top: 270 * SUBPIXELS, bottom: 810 * SUBPIXELS }
        );
        assert_eq!(seg.x as f64 / SUBPIXELS as f64, 15.0 * i as f64);
        assert_eq!(seg.top as f64 / SUBPIXELS as f64, 270.0);
        assert_eq!(seg.bottom as f64 / SUBPIXELS as f64, 810.0);
    }

    // no new data: the held batch is drawn again
    let again = driver.tick(&mut ring, 1920, 1080);
    assert_eq!(again, Some(lines));
}

#[test]
fn silent_driver_draws_nothing() {
    let mut ring = sample_channel();
    let mut driver = RenderDriver::new();
    assert!(!driver.any_signal());
    assert_eq!(driver.tick(&mut ring, 800, 600), None);
    assert!(!capture_samples(&mut ring, &[0; 300]));
    assert_eq!(driver.tick(&mut ring, 800, 600), None);
    assert_eq!(driver.held.filled, 300);
}

#[test]
fn empty_batch_is_all_padding() {
    let b = SampleBatch::empty();
    assert_eq!(b.filled, 0);
    assert_eq!(b.values, vec![0; MAX_SAMPLES]);
}

#[test]
fn columns_span_the_width_as_fractions() {
    let data: Vec<i32> = (0..256).map(|i| if i % 3 == 0 { UNIT / 3 } else { -UNIT / 5 }).collect();
    let lines = update_lines(&batch_of(&data), 1000, 601).expect("signal is drawn");
    assert_eq!(lines[0].x, 0);
    // 127 * 1000 / 128 = 992.1875 pixels
    assert_eq!(lines[127].x as f64 / SUBPIXELS as f64, 992.1875);
    for seg in &lines {
        // centred on 300.5 pixels
        assert_eq!(seg.top + seg.bottom, 601 * SUBPIXELS);
        assert!(seg.top <= seg.bottom);
    }
    let narrow = update_lines(&batch_of(&data), 100, 50).expect("signal is drawn");
    for k in 1..RENDERED_SAMPLES {
        assert!(narrow[k - 1].x < narrow[k].x);
    }
    assert_eq!(narrow[1].x * RENDERED_SAMPLES as i64, 100 * SUBPIXELS);
}

#[test]
fn quiet_peak_line_uses_capped_gain() {
    // peak 0.001 on a surface 1000 high: gain 10000, half length 10 pixels
    let data = vec![UNIT / 1000; 128];
    let lines = update_lines(&batch_of(&data), 1280, 1000).expect("signal is drawn");
    for seg in &lines {
        assert_eq!(seg.top, 490 * SUBPIXELS);
        assert_eq!(seg.bottom, 510 * SUBPIXELS);
    }
}

#[test]
fn refresh_then_draw_matches_tick() {
    let data: Vec<i32> = (0..700).map(|i| (i % 50 - 25) * 1000).collect();
    let mut ring = sample_channel();
    capture_samples(&mut ring, &data);
    let mut a = RenderDriver::new();
    a.refresh(&mut ring);
    let drawn = a.draw(640, 480);
    let mut ring = sample_channel();
    capture_samples(&mut ring, &data);
    let mut b = RenderDriver::new();
    assert_eq!(b.tick(&mut ring, 640, 480), drawn);
    assert!(drawn.is_some());
}
