use eventide::image::{FrameType, Image, ImageError};
use eventide::order::{extremes_by_key, keys_for, sort_by_key};
use eventide::stack::{
    check_stack, clip_column, clipped_reduce, combine, gather, median_by_key, median_of_sorted, median_positions,
    reduce_row, retain_kept,
};

fn mean(v: &Vec<f32>) -> f32 {
    let sum: f32 = v.iter().sum();
    sum / v.len() as f32
}

fn key(x: f32) -> u64 {
    let bits = x.to_bits();
    let ordered = if bits >> 31 == 1 { !bits } else { bits | 0x8000_0000 };
    ordered as u64
}

fn midpoint(a: f32, b: f32) -> f32 {
    (a + b) / 2.0
}

fn median(v: &Vec<f32>) -> f32 {
    median_by_key(v.clone(), &key, &midpoint)
}

fn within_sigma(sigma: f32) -> impl Fn(&Vec<f32>) -> Vec<bool> {
    move |v: &Vec<f32>| {
        let m = mean(v);
        let var: f32 = v.iter().map(|&x| (x - m).powi(2)).sum::<f32>() / v.len() as f32;
        let sd = var.sqrt();
        v.iter().map(|&x| x >= m - sigma * sd && x <= m + sigma * sd).collect()
    }
}

fn sigma_reducer(sigma: f32, iterations: usize) -> impl Fn(&Vec<f32>) -> f32 {
    move |v: &Vec<f32>| clipped_reduce(v.clone(), iterations, &within_sigma(sigma), &mean, 0.0)
}

fn img(width: usize, height: usize, samples: Vec<f32>) -> Image<f32> {
    Image::from_samples(width, height, samples, FrameType::Light).unwrap()
}

fn three_frames() -> Vec<Image<f32>> {
    vec![
        img(2, 2, vec![10.0, 5.0, 6.0, 7.0]),
        img(2, 2, vec![20.0, 5.0, 6.0, 7.0]),
        img(2, 2, vec![30.0, 5.0, 6.0, 7.0]),
    ]
}

#[test]
fn average_of_copies_is_the_image() {
    let a = img(3, 2, vec![0.125, 1.5, -2.25, 100.0, 7.0, 0.0]);
    let stack = vec![a.clone(), a.clone(), a.clone(), a.clone()];
    let out = combine(&stack, &mean).unwrap();
    assert_eq!(out.samples, a.samples);
    assert_eq!(out.dimensions(), (3, 2));
}

#[test]
fn median_of_one_and_two() {
    let a = img(2, 1, vec![1.0, 4.0]);
    let b = img(2, 1, vec![3.0, 10.0]);
    assert_eq!(combine(&vec![a.clone()], &median).unwrap().samples, vec![1.0, 4.0]);
    assert_eq!(combine(&vec![a, b], &median).unwrap().samples, vec![2.0, 7.0]);
}

#[test]
fn empty_stack_is_rejected() {
    let stack: Vec<Image<f32>> = Vec::new();
    assert_eq!(combine(&stack, &mean), Err(ImageError::EmptyInput));
    assert_eq!(combine(&stack, &median), Err(ImageError::EmptyInput));
    assert_eq!(combine(&stack, &sigma_reducer(1.0, 5)), Err(ImageError::EmptyInput));
    assert_eq!(check_stack(&stack), Err(ImageError::EmptyInput));
}

#[test]
fn mixed_shapes_are_rejected() {
    let stack = vec![img(2, 2, vec![0.0; 4]), img(3, 3, vec![0.0; 9])];
    assert_eq!(combine(&stack, &mean), Err(ImageError::DimensionMismatch));
    assert_eq!(combine(&stack, &median), Err(ImageError::DimensionMismatch));
    assert_eq!(combine(&stack, &sigma_reducer(2.0, 3)), Err(ImageError::DimensionMismatch));
    assert_eq!(check_stack(&stack), Err(ImageError::DimensionMismatch));
}

#[test]
fn zero_clipping_rounds_is_the_average() {
    let stack = vec![
        img(2, 1, vec![1.0, 100.0]),
        img(2, 1, vec![2.0, -3.5]),
        img(2, 1, vec![4.0, 0.25]),
        img(2, 1, vec![1000.0, 8.0]),
    ];
    let avg = combine(&stack, &mean).unwrap();
    let clipped = combine(&stack, &sigma_reducer(0.5, 0)).unwrap();
    assert_eq!(avg.samples, clipped.samples);
}

#[test]
fn three_frames_end_to_end() {
    let stack = three_frames();
    let avg = combine(&stack, &mean).unwrap();
    let med = combine(&stack, &median).unwrap();
    let clip = combine(&stack, &sigma_reducer(1.0, 5)).unwrap();
    assert_eq!(avg.get(0, 0), 20.0);
    assert_eq!(med.get(0, 0), 20.0);
    assert!((clip.get(0, 0) - 20.0).abs() < 1e-4);
    assert_eq!(&avg.samples[1..], &[5.0, 6.0, 7.0]);
    assert_eq!(&med.samples[1..], &[5.0, 6.0, 7.0]);
}

#[test]
fn output_keeps_first_frame_role() {
    let mut a = img(1, 1, vec![1.0]);
    a.frame_type = FrameType::Dark;
    let b = img(1, 1, vec![3.0]);
    let out = combine(&vec![a, b], &mean).unwrap();
    assert_eq!(out.frame_type, FrameType::Dark);
    assert_eq!(out.samples, vec![2.0]);
}

#[test]
fn gather_collects_one_sample_per_image() {
    let stack = three_frames();
    assert_eq!(gather(&stack, 0), vec![10.0, 20.0, 30.0]);
    assert_eq!(gather(&stack, 3), vec![7.0, 7.0, 7.0]);
}

#[test]
fn rows_reduce_like_the_whole_grid() {
    let stack = vec![img(2, 2, vec![1.0, 2.0, 3.0, 4.0]), img(2, 2, vec![3.0, 4.0, 5.0, 6.0])];
    assert_eq!(reduce_row(&stack, 0, &mean), vec![2.0, 3.0]);
    assert_eq!(reduce_row(&stack, 1, &mean), vec![4.0, 5.0]);
    let rows = vec![reduce_row(&stack, 0, &mean), reduce_row(&stack, 1, &mean)];
    let joined = Image::from_rows(2, 2, rows, FrameType::Light).unwrap();
    assert_eq!(joined, combine(&stack, &mean).unwrap());
}

#[test]
fn median_positions_follow_parity() {
    assert_eq!(median_positions(1), (0, 0));
    assert_eq!(median_positions(2), (0, 1));
    assert_eq!(median_positions(5), (2, 2));
    assert_eq!(median_positions(6), (2, 3));
}

#[test]
fn retain_kept_keeps_flagged_values_in_order() {
    let v = vec![1, 2, 3, 4, 5];
    assert_eq!(retain_kept(&v, &vec![true, false, true, false, true]), vec![1, 3, 5]);
    assert_eq!(retain_kept(&v, &vec![false; 5]), Vec::<i32>::new());
}

#[test]
fn clipping_stops_at_two_samples() {
    let reject_all = |v: &Vec<f32>| vec![false; v.len()];
    assert_eq!(clip_column(vec![1.0, 9.0], 4, &reject_all), vec![1.0, 9.0]);
    assert_eq!(clip_column(vec![1.0, 9.0, 5.0], 4, &reject_all), Vec::<f32>::new());
    assert_eq!(clip_column(vec![1.0, 9.0, 5.0], 0, &reject_all), vec![1.0, 9.0, 5.0]);
}

#[test]
fn clipping_rejects_outlier() {
    let values = vec![10.0, 10.5, 9.5, 10.0, 50.0];
    let rest = clip_column(values, 3, &within_sigma(1.5));
    assert_eq!(rest, vec![10.0, 10.5, 9.5, 10.0]);
}

#[test]
fn statistics_of_four_samples() {
    let v = vec![1.0f32, 2.0, 3.0, 4.0];
    let m = mean(&v);
    let var: f32 = v.iter().map(|&x| (x - m).powi(2)).sum::<f32>() / v.len() as f32;
    assert_eq!(m, 2.5);
    assert_eq!(median(&v), 2.5);
    assert!((var.sqrt() - 1.11803).abs() < 1e-4);
}

#[test]
fn sort_orders_samples() {
    let mut v = vec![3.0f32, -1.0, 2.5, 2.5, 0.0];
    let keys = sort_by_key(&mut v, &key);
    assert_eq!(v, vec![-1.0, 0.0, 2.5, 2.5, 3.0]);
    assert_eq!(keys, v.iter().map(|&x| key(x)).collect::<Vec<_>>());
    let mut w = vec![5u8, 1, 4, 1];
    assert_eq!(sort_by_key(&mut w, &|a: u8| a as u64), vec![1, 1, 4, 5]);
    assert_eq!(w, vec![1, 1, 4, 5]);
    let mut e: Vec<u8> = Vec::new();
    assert!(sort_by_key(&mut e, &|a: u8| a as u64).is_empty());
    assert!(e.is_empty());
}

#[test]
fn keys_follow_values() {
    assert_eq!(keys_for(&vec![3u8, 0, 7], &|a: u8| 10 * a as u64), vec![30, 0, 70]);
    assert!(key(-1.0) < key(-0.0));
    assert!(key(-0.0) < key(0.0));
    assert!(key(0.0) < key(1.5));
    assert!(key(f32::INFINITY) < key(f32::NAN));
    assert!(key(-f32::NAN) < key(f32::NEG_INFINITY));
}

#[test]
fn nan_samples_sort_last() {
    let mut v = vec![f32::NAN, 1.0, 2.0];
    sort_by_key(&mut v, &key);
    assert_eq!(&v[..2], &[1.0, 2.0]);
    assert!(v[2].is_nan());
    assert_eq!(median(&vec![f32::NAN, 1.0, 2.0]), 2.0);
}

#[test]
fn median_ignores_input_order() {
    assert_eq!(median(&vec![10.0, 30.0, 20.0]), 20.0);
    assert_eq!(median(&vec![30.0, 20.0, 10.0]), 20.0);
    assert_eq!(median(&vec![4.0, 1.0, 3.0, 2.0]), median(&vec![1.0, 2.0, 3.0, 4.0]));
}

#[test]
fn median_of_unsorted_samples() {
    assert_eq!(median(&vec![4.0, 1.0, 3.0, 2.0]), 2.5);
    assert_eq!(median(&vec![9.0, -3.0, 4.0]), 4.0);
    assert_eq!(median_of_sorted(&vec![1.0f32, 2.0, 10.0, 11.0], &midpoint), 6.0);
}

#[test]
fn clipping_with_nothing_left_gives_fallback() {
    let reject_all = |v: &Vec<f32>| vec![false; v.len()];
    assert_eq!(clipped_reduce(vec![1.0, 2.0, 9.0], 1, &reject_all, &mean, 0.0), 0.0);
    assert_eq!(clipped_reduce(vec![1.0, 2.0, 9.0], 0, &reject_all, &mean, 0.0), 4.0);
    assert_eq!(clipped_reduce(vec![1.0, 9.0], 3, &reject_all, &mean, 0.0), 5.0);
}

#[test]
fn extremes_of_samples() {
    assert_eq!(extremes_by_key(&vec![1.0f32, 2.0, 3.0, 4.0], &key), (1.0, 4.0));
    assert_eq!(extremes_by_key(&vec![4.0f32, 2.0, 1.0, 3.0], &key), (1.0, 4.0));
    assert_eq!(extremes_by_key(&vec![7.0f32], &key), (7.0, 7.0));
    assert_eq!(extremes_by_key(&vec![3u8, 9, 0, 9], &|a: u8| a as u64), (0, 9));
    let (lo, hi) = extremes_by_key(&vec![2.0f32, f32::NAN, -1.0], &key);
    assert_eq!(lo, -1.0);
    assert!(hi.is_nan());
}

#[test]
fn negative_sigma_rejects_everything() {
    let stack = vec![img(1, 1, vec![1.0]), img(1, 1, vec![2.0]), img(1, 1, vec![3.0])];
    let out = combine(&stack, &sigma_reducer(-1.0, 1)).unwrap();
    assert_eq!(out.samples, vec![0.0]);
}
