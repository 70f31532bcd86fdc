use photo::align::create_align_mtb;
use photo::calibrate::create_calibrate_robertson;
use photo::image::{Image, PhotoError};
use photo::pipeline::process_bracket;
use photo::tonemap::{create_tonemap_reinhard, ToneImage, TONE_ONE};

fn bracket() -> (Vec<Image>, Vec<u32>) {
    let times = vec![1u32, 2, 4];
    let images = times
        .iter()
        .map(|t| {
            let mut data = Vec::new();
            for q in 0..16 * 12u32 {
                let r = 1 + (q * 37 % 60);
                for c in 0..3u32 {
                    data.push(((r + c) * 2 * t).min(255) as u8);
                }
            }
            Image::new(16, 12, 3, data).unwrap()
        })
        .collect();
    (images, times)
}

#[test]
fn bracket_runs_through_the_chain() {
    let (images, times) = bracket();
    let aligner = create_align_mtb(2, 4, true).unwrap();
    let mut cal = create_calibrate_robertson(10, 655).unwrap();
    let tm = create_tonemap_reinhard(0, 256, 0).unwrap();
    let mut dst = ToneImage { width: 0, height: 0, channels: 1, data: Vec::new() };
    let converged = process_bracket(&aligner, &mut cal, &tm, &images, &times, &mut dst).unwrap();
    assert!(converged);
    assert_eq!((dst.width, dst.height, dst.channels), (16, 12, 3));
    assert_eq!(dst.data.len(), 16 * 12 * 3);
    assert!(dst.data.iter().all(|v| *v as u64 <= TONE_ONE));
    assert!(dst.data.iter().any(|v| *v > 0));
}

#[test]
fn bracket_with_mixed_sizes_fails() {
    let (mut images, times) = bracket();
    images[1] = Image::zeros(8, 12, 3);
    let aligner = create_align_mtb(2, 4, true).unwrap();
    let mut cal = create_calibrate_robertson(10, 655).unwrap();
    let tm = create_tonemap_reinhard(0, 256, 0).unwrap();
    let mut dst = ToneImage { width: 0, height: 0, channels: 1, data: Vec::new() };
    assert_eq!(
        process_bracket(&aligner, &mut cal, &tm, &images, &times, &mut dst),
        Err(PhotoError::InvalidArgument)
    );
    assert!(dst.data.is_empty());
}

#[test]
fn bracket_with_equal_times_is_degenerate() {
    let (images, _) = bracket();
    let aligner = create_align_mtb(2, 4, true).unwrap();
    let mut cal = create_calibrate_robertson(10, 655).unwrap();
    let tm = create_tonemap_reinhard(0, 256, 0).unwrap();
    let mut dst = ToneImage { width: 0, height: 0, channels: 1, data: Vec::new() };
    assert_eq!(
        process_bracket(&aligner, &mut cal, &tm, &images, &vec![3, 3, 3], &mut dst),
        Err(PhotoError::DegenerateInput)
    );
}
