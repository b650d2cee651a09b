use bitfount::dsputils::{center_in_frame, downsample_to_width, max, pad, tap_offsets, trim};
use bitfount::samples::{byte_level, dataToSamples, Sample, FULL_SCALE};

#[test]
#[allow(non_snake_case)]
fn testLPF() {
    // A 511-tap windowed-sinc low-pass filter with cut-off 20 kHz at 88.1 kHz.
    let cutoff: f32 = 20.0e3 / 88.1e3;
    let offsets = tap_offsets(511);
    assert_eq!(offsets.len(), 511);
    assert_eq!(offsets[0], -255);
    assert_eq!(offsets[255], 0);
    assert_eq!(offsets[510], 255);
    let pi = std::f32::consts::PI;
    let taps: Vec<f32> = offsets
        .iter()
        .map(|&m| {
            let sinc = if m == 0 { 2.0 * cutoff } else { (2.0 * pi * cutoff * m as f32).sin() / (pi * m as f32) };
            let window = 0.54 + 0.46 * (2.0 * pi * m as f32 / 510.0).cos();
            sinc * window
        })
        .collect();
    println!("{:?}", taps);
    for i in 0..511 {
        assert!((taps[i] - taps[510 - i]).abs() < 1e-6);
    }
    let framed = center_in_frame(&taps, 8192, 0.0f32);
    assert_eq!(framed.len(), 8192);
    assert!(framed[..3840].iter().all(|&x| x == 0.0));
    assert_eq!(&framed[3840..4351], &taps[..]);
    assert!(framed[4351..].iter().all(|&x| x == 0.0));
}

#[test]
fn max_of_vectors() {
    assert_eq!(max(&vec![3, 9, 2]), 9);
    assert_eq!(max(&vec![4]), 4);
    assert_eq!(max(&vec![]), 0);
}

#[test]
fn pad_surrounds() {
    assert_eq!(pad(&vec![1u8, 2], 2, 1, 0), vec![0, 0, 1, 2, 0]);
    assert_eq!(pad(&Vec::<u8>::new(), 0, 0, 9), Vec::<u8>::new());
}

#[test]
fn center_in_frame_layouts() {
    let block = vec![1i32; 7679];
    let framed = center_in_frame(&block, 8192, 0);
    assert_eq!(framed.len(), 8192);
    assert_eq!(framed.iter().take_while(|&&x| x == 0).count(), 256);
    assert_eq!(framed.iter().rev().take_while(|&&x| x == 0).count(), 257);
    assert_eq!(center_in_frame(&vec![5], 4, 0), vec![0, 5, 0, 0]);
    assert_eq!(center_in_frame(&vec![5, 6], 2, 0), vec![5, 6]);
}

#[test]
fn trim_selects_window() {
    let v: Vec<u32> = (0..10).collect();
    assert_eq!(trim(&v, 3, 7), vec![3, 4, 5, 6]);
    assert_eq!(trim(&v, 8, 20), vec![8, 9]);
    assert_eq!(trim(&v, 12, 20), Vec::<u32>::new());
    let frame: Vec<u32> = (0..8192).collect();
    let kept = trim(&frame, 257, 3841);
    assert_eq!(kept.len(), 3584);
    assert_eq!(kept[0], 257);
    assert_eq!(kept[3583], 3840);
}

#[test]
fn downsample_keeps_multiples_of_step() {
    let v: Vec<u32> = (0..10).collect();
    assert_eq!(downsample_to_width(&v, 4), vec![0, 3, 6, 9]);
    assert_eq!(downsample_to_width(&v, 20), v);
    assert_eq!(downsample_to_width(&v, 10), vec![0, 2, 4, 6, 8]);
    assert_eq!(downsample_to_width(&Vec::<u32>::new(), 3), Vec::<u32>::new());
}

#[test]
fn tap_offsets_small() {
    assert_eq!(tap_offsets(5), vec![-2, -1, 0, 1, 2]);
    assert_eq!(tap_offsets(4), vec![-1, 0, 1, 2]);
    assert_eq!(tap_offsets(0), Vec::<i64>::new());
}

#[test]
fn samples_from_bytes() {
    assert_eq!(byte_level(127), 0);
    assert_eq!(byte_level(0), -127);
    assert_eq!(byte_level(255), 128);
    let s = dataToSamples(vec![127, 127, 0, 255, 200, 54]);
    assert_eq!(
        s,
        vec![
            Sample { re: 0, im: 0 },
            Sample { re: -127, im: 128 },
            Sample { re: 73, im: -73 }
        ]
    );
    assert_eq!(dataToSamples(vec![]), Vec::<Sample>::new());
    assert_eq!(FULL_SCALE, 127);
}

#[test]
fn samples_scale_to_unit_amplitude() {
    let s = dataToSamples(vec![254, 0]);
    let re = s[0].re as f32 / FULL_SCALE as f32;
    let im = s[0].im as f32 / FULL_SCALE as f32;
    assert_eq!(re, 254.0f32 / 127.0 - 1.0);
    assert_eq!(im, -1.0);
}

#[test]
fn trim_undoes_pad() {
    let block = vec![4u16, 5, 6];
    let padded = pad(&block, 3, 2, 0);
    assert_eq!(trim(&padded, 3, 6), block);
    let framed = center_in_frame(&block, 10, 1);
    assert_eq!(trim(&framed, 3, 6), block);
}
