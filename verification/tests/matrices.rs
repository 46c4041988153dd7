use vosk_rust::mat::{
    add_to, affine, batch_norm, clamp_offset, dim_range, join_columns, relu, repeat_first, scale,
    splice, subsample, EvalError, Mat,
};
use vosk_rust::single::Arith;

struct Native;

impl Arith for Native {
    fn add(a: u32, b: u32) -> u32 {
        (f32::from_bits(a) + f32::from_bits(b)).to_bits()
    }
    fn sub(a: u32, b: u32) -> u32 {
        (f32::from_bits(a) - f32::from_bits(b)).to_bits()
    }
    fn mul(a: u32, b: u32) -> u32 {
        (f32::from_bits(a) * f32::from_bits(b)).to_bits()
    }
    fn div(a: u32, b: u32) -> u32 {
        (f32::from_bits(a) / f32::from_bits(b)).to_bits()
    }
    fn pow(a: u32, b: u32) -> u32 {
        f32::from_bits(a).powf(f32::from_bits(b)).to_bits()
    }
    fn sqrt(a: u32) -> u32 {
        f32::from_bits(a).sqrt().to_bits()
    }
    fn ln(a: u32) -> u32 {
        f32::from_bits(a).ln().to_bits()
    }
    fn sin(a: u32) -> u32 {
        f32::from_bits(a).sin().to_bits()
    }
    fn cos(a: u32) -> u32 {
        f32::from_bits(a).cos().to_bits()
    }
    fn round(a: u32) -> u32 {
        f32::from_bits(a).round().to_bits()
    }
    fn to_usize(a: u32) -> usize {
        f32::from_bits(a) as usize
    }
    fn from_usize(n: usize) -> u32 {
        (n as f32).to_bits()
    }
    fn parse(text: &str) -> Option<u32> {
        text.parse::<f32>().ok().map(f32::to_bits)
    }
    fn gemm(rows: usize, ins: usize, outs: usize, x: &Vec<u32>, w: &Vec<u32>) -> Vec<u32> {
        let mut y = vec![0u32; rows * outs];
        for t in 0..rows {
            for o in 0..outs {
                let mut s = 0.0f32;
                for k in 0..ins {
                    s += f32::from_bits(x[t * ins + k]) * f32::from_bits(w[o * ins + k]);
                }
                y[t * outs + o] = s.to_bits();
            }
        }
        y
    }
    fn fft(x: &Vec<(u32, u32)>) -> Vec<(u32, u32)> {
        x.clone()
    }
}

/// An arithmetic whose matrix product is empty.
struct Short;

impl Arith for Short {
    fn add(a: u32, _: u32) -> u32 {
        a
    }
    fn sub(a: u32, _: u32) -> u32 {
        a
    }
    fn mul(a: u32, _: u32) -> u32 {
        a
    }
    fn div(a: u32, _: u32) -> u32 {
        a
    }
    fn pow(a: u32, _: u32) -> u32 {
        a
    }
    fn sqrt(a: u32) -> u32 {
        a
    }
    fn ln(a: u32) -> u32 {
        a
    }
    fn sin(a: u32) -> u32 {
        a
    }
    fn cos(a: u32) -> u32 {
        a
    }
    fn round(a: u32) -> u32 {
        a
    }
    fn to_usize(_: u32) -> usize {
        0
    }
    fn from_usize(_: usize) -> u32 {
        0
    }
    fn parse(_: &str) -> Option<u32> {
        None
    }
    fn gemm(_: usize, _: usize, _: usize, _: &Vec<u32>, _: &Vec<u32>) -> Vec<u32> {
        vec![]
    }
    fn fft(_: &Vec<(u32, u32)>) -> Vec<(u32, u32)> {
        vec![]
    }
}

fn mat(r: usize, c: usize, d: &[f32]) -> Mat {
    Mat { r, c, d: bits(d) }
}

fn bits(d: &[f32]) -> Vec<u32> {
    d.iter().map(|v| v.to_bits()).collect()
}

fn nums(m: &Mat) -> Vec<f32> {
    m.d.iter().map(|v| f32::from_bits(*v)).collect()
}

#[test]
fn zeros_and_rows() {
    let m = Mat::new(2, 3);
    assert_eq!(nums(&m), vec![0.0; 6]);
    let m = mat(2, 2, &[1.0, 2.0, 3.0, 4.0]);
    assert_eq!(m.row(1), &bits(&[3.0, 4.0])[..]);
    assert_eq!(nums(&m.copied()), vec![1.0, 2.0, 3.0, 4.0]);
}

#[test]
fn offsets_hold_at_the_edges() {
    let m = mat(3, 1, &[1.0, 2.0, 3.0]);
    assert_eq!(nums(&clamp_offset(&m, 1)), vec![2.0, 3.0, 3.0]);
    assert_eq!(nums(&clamp_offset(&m, -2)), vec![1.0, 1.0, 1.0]);
    assert_eq!(nums(&clamp_offset(&m, 0)), vec![1.0, 2.0, 3.0]);
}

#[test]
fn columns_of_a_matrix() {
    let m = mat(2, 3, &[1.0, 2.0, 3.0, 4.0, 5.0, 6.0]);
    let y = dim_range(&m, 1, 2).unwrap();
    assert_eq!((y.r, y.c), (2, 2));
    assert_eq!(nums(&y), vec![2.0, 3.0, 5.0, 6.0]);
    assert!(dim_range(&m, 2, 2).is_none());
    assert!(dim_range(&m, usize::MAX, 2).is_none());
    assert!(dim_range(&mat(0, 3, &[]), 2, 2).is_some());
}

#[test]
fn first_row_repeated() {
    let m = mat(2, 2, &[1.0, 2.0, 3.0, 4.0]);
    assert_eq!(nums(&repeat_first(&m, 3).unwrap()), vec![1.0, 2.0, 1.0, 2.0, 1.0, 2.0]);
    assert!(repeat_first(&mat(0, 2, &[]), 1).is_none());
    assert!(repeat_first(&mat(0, 2, &[]), 0).is_some());
}

#[test]
fn every_third_row() {
    for n in 0..8usize {
        let d: Vec<f32> = (0..n).map(|i| i as f32).collect();
        let y = subsample(&mat(n, 1, &d));
        assert_eq!(y.r, (n + 2) / 3);
        assert_eq!(nums(&y), d.iter().copied().step_by(3).collect::<Vec<f32>>());
    }
}

#[test]
fn matrices_side_by_side() {
    let a = mat(2, 1, &[1.0, 2.0]);
    let b = mat(3, 2, &[3.0, 4.0, 5.0, 6.0, 7.0, 8.0]);
    let y = join_columns(&vec![a, b]).unwrap();
    assert_eq!((y.r, y.c), (2, 3));
    assert_eq!(nums(&y), vec![1.0, 3.0, 4.0, 2.0, 5.0, 6.0]);
    assert!(join_columns(&vec![]).is_none());
    assert!(join_columns(&vec![mat(2, 1, &[1.0, 2.0]), mat(1, 1, &[1.0])]).is_none());
}

#[test]
fn splicing_puts_moved_rows_together() {
    let m = mat(3, 1, &[1.0, 2.0, 3.0]);
    let y = splice(&m, &vec![-1, 0, 1]).unwrap();
    assert_eq!((y.r, y.c), (3, 3));
    assert_eq!(nums(&y), vec![1.0, 1.0, 2.0, 1.0, 2.0, 3.0, 2.0, 3.0, 3.0]);
}

#[test]
fn entries_scaled_summed_and_rectified() {
    let m = mat(1, 3, &[1.0, -2.0, 0.5]);
    assert_eq!(nums(&scale::<Native>(&m, 2.0f32.to_bits())), vec![2.0, -4.0, 1.0]);
    let n = mat(1, 2, &[10.0, 20.0]);
    assert_eq!(nums(&add_to::<Native>(&m, &n)), vec![11.0, 18.0, 0.5]);
    assert_eq!(nums(&relu(&m)), vec![1.0, 0.0, 0.5]);
    assert_eq!(nums(&relu(&mat(1, 1, &[f32::NAN]))), vec![0.0]);
}

#[test]
fn columns_normalised() {
    let m = mat(2, 2, &[3.0, 10.0, 5.0, 30.0]);
    let y = batch_norm::<Native>(
        &m,
        &bits(&[1.0, 10.0]),
        &bits(&[4.0, 100.0]),
        0.0f32.to_bits(),
        1.0f32.to_bits(),
    )
    .unwrap();
    assert_eq!(nums(&y), vec![1.0, 0.0, 2.0, 2.0]);
    assert!(batch_norm::<Native>(&m, &bits(&[1.0]), &bits(&[4.0, 1.0]), 0, 0).is_none());
    assert!(batch_norm::<Native>(&mat(0, 2, &[]), &vec![], &vec![], 0, 0).is_some());
}

#[test]
fn affine_maps_rows() {
    let m = mat(2, 2, &[1.0, 2.0, 3.0, 4.0]);
    let w = mat(3, 2, &[1.0, 0.0, 0.0, 1.0, 1.0, 1.0]);
    let y = affine::<Native>(&m, &w, None).unwrap();
    assert_eq!((y.r, y.c), (2, 3));
    assert_eq!(nums(&y), vec![1.0, 2.0, 3.0, 3.0, 4.0, 7.0]);
    let b = bits(&[10.0, 20.0, 30.0]);
    let y = affine::<Native>(&m, &w, Some(&b)).unwrap();
    assert_eq!(nums(&y), vec![11.0, 22.0, 33.0, 13.0, 24.0, 37.0]);
}

#[test]
fn affine_that_does_not_fit() {
    let m = mat(1, 2, &[1.0, 2.0]);
    let w = mat(1, 3, &[1.0, 1.0, 1.0]);
    assert!(matches!(affine::<Native>(&m, &w, None), Err(EvalError::Mismatch)));
    let w = mat(2, 2, &[1.0; 4]);
    let short = bits(&[1.0]);
    assert!(matches!(affine::<Native>(&m, &w, Some(&short)), Err(EvalError::Mismatch)));
    let none = vec![];
    assert!(affine::<Native>(&mat(0, 2, &[]), &w, Some(&none)).is_ok());
}

#[test]
fn product_of_the_wrong_size() {
    let m = mat(1, 2, &[1.0, 2.0]);
    let w = mat(2, 2, &[1.0; 4]);
    assert!(matches!(affine::<Short>(&m, &w, None), Err(EvalError::Kernel)));
}
