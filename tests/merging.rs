use photo::fusion::{create_merge_mertens, MergeMertens};
use photo::image::{Image, PhotoError};
use photo::merge::{
    create_merge_debevec, create_merge_robertson, linear_response, RadianceMap, ResponseCurve,
};

fn empty_map() -> RadianceMap {
    RadianceMap { width: 0, height: 0, channels: 1, data: Vec::new() }
}

fn gray(width: usize, height: usize, values: Vec<u8>) -> Image {
    Image::new(width, height, 1, values).unwrap()
}

// Times in ticks of 1/240 s: 1/60 s, 1/15 s and 1/4 s.
const TIMES: [u32; 3] = [4, 16, 60];

fn gray_card() -> Vec<Image> {
    // a card whose brightness is four levels per tick at every pixel
    TIMES.iter().map(|t| gray(4, 3, vec![(4 * t) as u8; 12])).collect()
}

#[test]
fn robertson_recovers_gray_card_radiance() {
    let mut dst = empty_map();
    create_merge_robertson().process(&gray_card(), &mut dst, &TIMES.to_vec()).unwrap();
    // mid exposure: level 64 over 16 ticks is 4 per tick, 1024 in fixed point
    assert_eq!(dst.data, vec![4 * 256; 12]);
    assert_eq!((dst.width, dst.height, dst.channels), (4, 3, 1));
}

#[test]
fn debevec_recovers_gray_card_radiance() {
    let mut dst = empty_map();
    create_merge_debevec().process(&gray_card(), &mut dst, &TIMES.to_vec()).unwrap();
    assert_eq!(dst.data, vec![4 * 256; 12]);
}

#[test]
fn single_exposure_is_response_over_time() {
    let img = gray(2, 2, vec![0, 10, 128, 255]);
    let mut dst = empty_map();
    create_merge_debevec().process(&vec![img.clone()], &mut dst, &vec![3]).unwrap();
    let expected: Vec<u64> = vec![0, 10 * 256 / 3, 128 * 256 / 3, 255 * 256 / 3];
    assert_eq!(dst.data, expected);
    let mut dst2 = empty_map();
    create_merge_robertson().process(&vec![img], &mut dst2, &vec![3]).unwrap();
    assert_eq!(dst2.data, expected);
}

#[test]
fn merge_ignores_order_of_pairs() {
    let a = gray(3, 1, vec![10, 200, 90]);
    let b = gray(3, 1, vec![40, 250, 180]);
    let c = gray(3, 1, vec![5, 100, 45]);
    let forward = vec![a.clone(), b.clone(), c.clone()];
    let backward = vec![c, a, b];
    let t1 = vec![2, 8, 1];
    let t2 = vec![1, 2, 8];
    let mut d1 = empty_map();
    let mut d2 = empty_map();
    create_merge_debevec().process(&forward, &mut d1, &t1).unwrap();
    create_merge_debevec().process(&backward, &mut d2, &t2).unwrap();
    assert_eq!(d1.data, d2.data);
    create_merge_robertson().process(&forward, &mut d1, &t1).unwrap();
    create_merge_robertson().process(&backward, &mut d2, &t2).unwrap();
    assert_eq!(d1.data, d2.data);
}

#[test]
fn debevec_weights_by_the_hat() {
    // level 100 has weight 100, level 200 has weight 55
    let a = gray(1, 1, vec![100]);
    let b = gray(1, 1, vec![200]);
    let mut dst = empty_map();
    create_merge_debevec().process(&vec![a, b], &mut dst, &vec![1, 4]).unwrap();
    let e1: u64 = 100 * 256;
    let e2: u64 = 200 * 256 / 4;
    assert_eq!(dst.data, vec![(100 * e1 + 55 * e2) / 155]);
}

#[test]
fn robertson_weighted_least_squares() {
    let a = gray(1, 1, vec![100]);
    let b = gray(1, 1, vec![200]);
    let mut dst = empty_map();
    create_merge_robertson().process(&vec![a, b], &mut dst, &vec![1, 4]).unwrap();
    // sum(w t g) / sum(w t t) with g = 256 z
    let num: u64 = 100 * 1 * 100 * 256 + 55 * 4 * 200 * 256;
    let den: u64 = 100 * 1 * 1 + 55 * 4 * 4;
    assert_eq!(dst.data, vec![num / den]);
}

#[test]
fn saturated_pixels_fall_back_to_plain_mean() {
    let a = gray(1, 1, vec![255]);
    let b = gray(1, 1, vec![0]);
    let mut dst = empty_map();
    create_merge_debevec().process(&vec![a.clone(), b.clone()], &mut dst, &vec![1, 2]).unwrap();
    assert_eq!(dst.data, vec![(255 * 256 + 0) / 2]);
    create_merge_robertson().process(&vec![a, b], &mut dst, &vec![1, 2]).unwrap();
    assert_eq!(dst.data, vec![(1 * 255 * 256) / (1 + 4)]);
}

#[test]
fn custom_response_is_used_per_channel() {
    let img = Image::new(1, 1, 3, vec![1, 1, 1]).unwrap();
    let mut values = vec![0u32; 768];
    values[1] = 10;
    values[256 + 1] = 20;
    values[512 + 1] = 30;
    let curve = ResponseCurve { channels: 3, values };
    let mut dst = empty_map();
    create_merge_debevec().process_with_response(&vec![img], &mut dst, &vec![2], &curve).unwrap();
    assert_eq!(dst.data, vec![10 * 256 / 2, 20 * 256 / 2, 30 * 256 / 2]);
}

#[test]
fn merge_rejects_bad_input() {
    let a = gray(2, 1, vec![1, 2]);
    let b = gray(1, 2, vec![1, 2]);
    let mut dst = empty_map();
    let m = create_merge_debevec();
    assert_eq!(m.process(&vec![], &mut dst, &vec![]), Err(PhotoError::InvalidArgument));
    assert_eq!(m.process(&vec![a.clone()], &mut dst, &vec![1, 2]), Err(PhotoError::InvalidArgument));
    assert_eq!(m.process(&vec![a.clone()], &mut dst, &vec![0]), Err(PhotoError::InvalidArgument));
    assert_eq!(m.process(&vec![a.clone(), b], &mut dst, &vec![1, 2]), Err(PhotoError::InvalidArgument));
    let wrong = linear_response(3);
    assert_eq!(
        m.process_with_response(&vec![a.clone()], &mut dst, &vec![1], &wrong),
        Err(PhotoError::InvalidArgument)
    );
    let r = create_merge_robertson();
    assert_eq!(r.process(&vec![a], &mut dst, &vec![0]), Err(PhotoError::InvalidArgument));
    assert!(dst.data.is_empty());
}

#[test]
fn linear_response_is_identity() {
    let c = linear_response(3);
    assert_eq!(c.channels, 3);
    assert_eq!(c.values.len(), 768);
    assert_eq!(c.values[0], 0);
    assert_eq!(c.values[255], 255);
    assert_eq!(c.values[256 + 17], 17);
}

fn mertens() -> MergeMertens {
    create_merge_mertens(1, 1, 0).unwrap()
}

#[test]
fn mertens_single_image_is_returned() {
    let img = Image::new(3, 2, 3, (0..18).map(|i| (i * 13) as u8).collect()).unwrap();
    let mut dst = Image::zeros(1, 1, 1);
    mertens().process(&vec![img.clone()], &mut dst).unwrap();
    assert_eq!(dst.data, img.data);
    create_merge_mertens(2, 0, 2).unwrap().process(&vec![img.clone()], &mut dst).unwrap();
    assert_eq!(dst.data, img.data);
}

#[test]
fn mertens_ignores_order() {
    let a = Image::new(4, 2, 3, (0..24).map(|i| (i * 9) as u8).collect()).unwrap();
    let b = Image::new(4, 2, 3, (0..24).map(|i| (255 - i * 7) as u8).collect()).unwrap();
    let c = Image::new(4, 2, 3, (0..24).map(|i| ((i * 31) % 256) as u8).collect()).unwrap();
    let mut d1 = Image::zeros(1, 1, 1);
    let mut d2 = Image::zeros(1, 1, 1);
    let m = create_merge_mertens(1, 1, 1).unwrap();
    m.process(&vec![a.clone(), b.clone(), c.clone()], &mut d1).unwrap();
    m.process(&vec![c, b, a], &mut d2).unwrap();
    assert_eq!(d1.data, d2.data);
}

fn three_exposures(w: usize, h: usize) -> (Image, Image, Image) {
    // shadows, mid-tones and highlights side by side, each a third of the width
    let scene: Vec<u8> = (0..w * h)
        .map(|q| {
            let x = q % w;
            if x < w / 3 {
                30
            } else if x < 2 * w / 3 {
                128
            } else {
                230
            }
        })
        .collect();
    let scale = |num: u32, den: u32| -> Vec<u8> {
        scene.iter().map(|v| ((*v as u32 * num / den).min(255)) as u8).collect()
    };
    (
        Image::new(w, h, 1, scale(1, 4)).unwrap(),
        Image::new(w, h, 1, scale(1, 1)).unwrap(),
        Image::new(w, h, 1, scale(3, 1)).unwrap(),
    )
}

#[test]
fn mertens_prefers_well_exposed_frames() {
    let (w, h) = (48, 16);
    let (under, normal, over) = three_exposures(w, h);
    let mut dst = Image::zeros(1, 1, 1);
    create_merge_mertens(0, 0, 2)
        .unwrap()
        .process(&vec![under.clone(), normal.clone(), over.clone()], &mut dst)
        .unwrap();
    let dist = |a: u8, b: u8| (a as i32 - b as i32).abs();
    for y in 0..h {
        // mid-tones follow the normal frame
        let q = y * w + w / 2;
        assert!(dist(dst.data[q], normal.data[q]) <= 8, "mid {}", dst.data[q]);
        // shadows follow the over-exposed frame
        let q = y * w + w / 6;
        assert!(dist(dst.data[q], over.data[q]) < dist(dst.data[q], normal.data[q]), "shadow {}", dst.data[q]);
        // highlights follow the under-exposed frame
        let q = y * w + 5 * w / 6;
        assert!(dist(dst.data[q], under.data[q]) < dist(dst.data[q], normal.data[q]), "highlight {}", dst.data[q]);
    }
}

#[test]
fn mertens_single_row_blends_per_pixel() {
    // a side of one leaves a single level: a plain weighted mean per pixel
    let (under, normal, over) = three_exposures(9, 1);
    let mut dst = Image::zeros(1, 1, 1);
    create_merge_mertens(0, 0, 2).unwrap().process(&vec![under, normal, over], &mut dst).unwrap();
    // weights are the squared closeness to mid-grey, 7, 30 and 90 in the
    // shadows, in units of 1/65536 (four times the square), shared out over the stack
    let w: Vec<u64> = [7u64, 30, 90].iter().map(|c| 4 * c * c).collect();
    let total: u64 = w.iter().sum();
    let shares: Vec<u64> = w.iter().map(|x| x * 65536 / total).collect();
    let num = shares[0] * 7 + shares[1] * 30 + shares[2] * 90;
    let den: u64 = shares.iter().sum();
    assert_eq!(dst.data[0] as u64, num / den);
}

#[test]
fn mertens_pyramid_single_image_is_returned() {
    let img = Image::new(16, 8, 3, (0..16 * 8 * 3).map(|i| ((i * 37) % 256) as u8).collect()).unwrap();
    let mut dst = Image::zeros(1, 1, 1);
    create_merge_mertens(1, 1, 1).unwrap().process(&vec![img.clone()], &mut dst).unwrap();
    assert_eq!(dst.data, img.data);
}

#[test]
fn mertens_odd_sizes_get_pyramid_levels_too() {
    let img = Image::new(15, 9, 3, (0..15 * 9 * 3).map(|i| ((i * 53) % 256) as u8).collect()).unwrap();
    let mut dst = Image::zeros(1, 1, 1);
    let m = create_merge_mertens(1, 1, 1).unwrap();
    m.process(&vec![img.clone()], &mut dst).unwrap();
    assert_eq!(dst.data, img.data);
    m.process(&vec![img.clone(), img.clone()], &mut dst).unwrap();
    assert_eq!(dst.data, img.data);
    let (under, normal, over) = three_exposures(45, 15);
    create_merge_mertens(0, 0, 2)
        .unwrap()
        .process(&vec![under.clone(), normal.clone(), over.clone()], &mut dst)
        .unwrap();
    // mid-tones follow the normal frame more than either other frame
    let q = 7 * 45 + 22;
    let d = |a: u8, b: u8| (a as i32 - b as i32).abs();
    assert!(d(dst.data[q], normal.data[q]) < d(dst.data[q], under.data[q]));
    assert!(d(dst.data[q], normal.data[q]) < d(dst.data[q], over.data[q]));
}

#[test]
fn mertens_pyramid_ignores_order() {
    let a = Image::new(8, 8, 3, (0..192).map(|i| ((i * 9) % 256) as u8).collect()).unwrap();
    let b = Image::new(8, 8, 3, (0..192).map(|i| (255 - (i * 7) % 256) as u8).collect()).unwrap();
    let mut d1 = Image::zeros(1, 1, 1);
    let mut d2 = Image::zeros(1, 1, 1);
    let m = create_merge_mertens(1, 1, 1).unwrap();
    m.process(&vec![a.clone(), b.clone()], &mut d1).unwrap();
    m.process(&vec![b, a], &mut d2).unwrap();
    assert_eq!(d1.data, d2.data);
}

#[test]
fn mertens_pyramid_of_equal_frames_is_that_frame() {
    let img = Image::new(8, 4, 1, (0..32).map(|i| (i * 8) as u8).collect()).unwrap();
    let mut dst = Image::zeros(1, 1, 1);
    create_merge_mertens(1, 0, 1).unwrap().process(&vec![img.clone(), img.clone(), img.clone()], &mut dst).unwrap();
    // equal frames get equal shares, and the blend divides by their sum
    assert_eq!(dst.data, img.data);
}

#[test]
fn mertens_copies_of_one_pixel_are_that_pixel() {
    let img = Image::new(1, 1, 1, vec![100]).unwrap();
    let mut dst = Image::zeros(1, 1, 1);
    mertens().process(&vec![img.clone(), img.clone(), img.clone()], &mut dst).unwrap();
    assert_eq!(dst.data, vec![100]);
}

#[test]
fn mertens_accepts_large_exponents() {
    let (under, normal, over) = three_exposures(12, 4);
    let mut dst = Image::zeros(1, 1, 1);
    let m = create_merge_mertens(3, 1, 7).unwrap();
    assert_eq!(m.get_exposure_weight(), 7);
    m.process(&vec![under, normal.clone(), over], &mut dst).unwrap();
    assert_eq!(dst.data.len(), normal.data.len());
}

#[test]
fn mertens_rejects_bad_input() {
    let mut dst = Image::zeros(1, 1, 1);
    assert_eq!(mertens().process(&vec![], &mut dst), Err(PhotoError::InvalidArgument));
    let a = Image::zeros(2, 2, 1);
    let b = Image::zeros(2, 2, 3);
    assert_eq!(mertens().process(&vec![a, b], &mut dst), Err(PhotoError::InvalidArgument));
    assert_eq!(dst.data, vec![0]);
}

#[test]
fn mertens_parameters() {
    let mut m = mertens();
    assert_eq!(m.get_contrast_weight(), 1);
    assert_eq!(m.get_saturation_weight(), 1);
    assert_eq!(m.get_exposure_weight(), 0);
    assert_eq!(m.set_exposure_weight(2), Ok(()));
    assert_eq!(m.get_exposure_weight(), 2);
    assert_eq!(m.set_contrast_weight(5), Ok(()));
    assert_eq!(m.get_contrast_weight(), 5);
    assert_eq!(m.set_saturation_weight(0), Ok(()));
    assert_eq!(m.get_saturation_weight(), 0);
}
