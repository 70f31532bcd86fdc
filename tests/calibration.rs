use photo::calibrate::{create_calibrate_robertson, RESPONSE_ONE};
use photo::image::{Image, PhotoError};
use photo::merge::ResponseCurve;

fn empty_curve() -> ResponseCurve {
    ResponseCurve { channels: 1, values: Vec::new() }
}

/// A scene whose radiance per tick rises across 60 pixels, taken for 1, 2
/// and 4 ticks by a linear camera that clips at 255.
fn linear_bracket() -> (Vec<Image>, Vec<u32>) {
    let times = vec![1u32, 2, 4];
    let images = times
        .iter()
        .map(|t| {
            let data: Vec<u8> = (0..60u32).map(|q| ((q + 1) * 2 * t).min(255) as u8).collect();
            Image::new(12, 5, 1, data).unwrap()
        })
        .collect();
    (images, times)
}

#[test]
fn linear_camera_keeps_linear_response() {
    let (images, times) = linear_bracket();
    let mut cal = create_calibrate_robertson(30, 655).unwrap();
    let mut curve = empty_curve();
    let converged = cal.process(&images, &mut curve, &times).unwrap();
    assert!(converged);
    assert_eq!(curve.channels, 1);
    assert_eq!(curve.values.len(), 256);
    // every unclipped level that occurs stays on the line z / 128
    let mut seen = [false; 256];
    for img in &images {
        for v in &img.data {
            seen[*v as usize] = true;
        }
    }
    assert!(seen[128]);
    for z in 0..255usize {
        if seen[z] {
            assert_eq!(curve.values[z] as u64, z as u64 * RESPONSE_ONE / 128, "level {}", z);
        }
    }
    // levels that never occur keep the smallest positive response
    assert_eq!(curve.values[1], 1);
    assert_eq!(curve.values[3], 1);
    assert!(curve.values.iter().all(|v| *v >= 1));
    let rad = cal.get_radiance();
    assert_eq!((rad.width, rad.height, rad.channels), (12, 5, 1));
    // the last merge used the starting curve: radiance 2(q+1) per tick in fixed point
    assert_eq!(rad.data[0], 2 * 512 * 256);
}

#[test]
fn sparse_levels_stay_positive() {
    let a = Image::new(1, 1, 1, vec![100]).unwrap();
    let b = Image::new(1, 1, 1, vec![200]).unwrap();
    let mut cal = create_calibrate_robertson(30, 655).unwrap();
    let mut curve = empty_curve();
    cal.process(&vec![a, b], &mut curve, &vec![1, 2]).unwrap();
    assert_eq!(curve.values.len(), 256);
    assert_eq!(curve.values[5], 1);
    assert!(curve.values.iter().all(|v| *v >= 1));
}

#[test]
fn equal_times_are_degenerate() {
    let (images, _) = linear_bracket();
    let mut cal = create_calibrate_robertson(30, 655).unwrap();
    let mut curve = empty_curve();
    assert_eq!(cal.process(&images, &mut curve, &vec![2, 2, 2]), Err(PhotoError::DegenerateInput));
    assert!(curve.values.is_empty());
    let one = vec![images[0].clone()];
    assert_eq!(cal.process(&one, &mut curve, &vec![1]), Err(PhotoError::DegenerateInput));
}

#[test]
fn calibration_rejects_bad_input() {
    let mut cal = create_calibrate_robertson(30, 655).unwrap();
    let mut curve = empty_curve();
    assert_eq!(cal.process(&vec![], &mut curve, &vec![]), Err(PhotoError::InvalidArgument));
    let (images, _) = linear_bracket();
    assert_eq!(cal.process(&images, &mut curve, &vec![1, 2]), Err(PhotoError::InvalidArgument));
    assert_eq!(cal.process(&images, &mut curve, &vec![1, 0, 2]), Err(PhotoError::InvalidArgument));
}

#[test]
fn iteration_cap_reports_no_convergence() {
    // a strongly non-linear camera: level is the square root of exposure
    let times = vec![1u32, 4, 16];
    let images: Vec<Image> = times
        .iter()
        .map(|t| {
            let data: Vec<u8> = (0..64u32)
                .map(|q| (((q + 1) * t * 60) as f64).sqrt().min(255.0) as u8)
                .collect();
            Image::new(8, 8, 1, data).unwrap()
        })
        .collect();
    let mut cal = create_calibrate_robertson(1, 0).unwrap();
    let mut curve = empty_curve();
    let converged = cal.process(&images, &mut curve, &times).unwrap();
    assert!(!converged);
    assert_eq!(curve.values.len(), 256);
    assert_eq!(curve.values[0], 1);
    assert!(curve.values.iter().all(|v| *v >= 1));
}

#[test]
fn calibration_parameters() {
    assert_eq!(create_calibrate_robertson(0, 1).unwrap_err(), PhotoError::InvalidArgument);
    let mut cal = create_calibrate_robertson(30, 655).unwrap();
    assert_eq!(cal.get_max_iter(), 30);
    assert_eq!(cal.get_threshold(), 655);
    assert_eq!(cal.set_max_iter(0), Err(PhotoError::InvalidArgument));
    assert_eq!(cal.get_max_iter(), 30);
    assert_eq!(cal.set_max_iter(5), Ok(()));
    assert_eq!(cal.get_max_iter(), 5);
    cal.set_threshold(10);
    assert_eq!(cal.get_threshold(), 10);
    assert!(cal.get_radiance().data.is_empty());
}
