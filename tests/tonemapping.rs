use photo::image::PhotoError;
use photo::merge::RadianceMap;
use photo::tonemap::{create_tonemap, create_tonemap_reinhard, ToneImage, TONE_ONE};

fn empty_tone() -> ToneImage {
    ToneImage { width: 0, height: 0, channels: 1, data: Vec::new() }
}

fn map(width: usize, height: usize, channels: usize, data: Vec<u64>) -> RadianceMap {
    RadianceMap { width, height, channels, data }
}

#[test]
fn linear_scales_to_the_brightest() {
    let src = map(2, 1, 3, vec![100, 200, 400, 300, 100, 250]);
    let mut dst = empty_tone();
    create_tonemap().process(&src, &mut dst).unwrap();
    // the darkest value becomes 0 and the brightest one
    assert_eq!(dst.data, vec![0, 21845, 65536, 43690, 0, 32768]);
}

#[test]
fn linear_keeps_order() {
    let values: Vec<u64> = (0..150).map(|i| (i * 7919 % 1000) as u64).collect();
    let src = map(10, 5, 3, values.clone());
    let mut dst = empty_tone();
    create_tonemap().process(&src, &mut dst).unwrap();
    for i in 0..150 {
        for j in 0..150 {
            if values[i] <= values[j] {
                assert!(dst.data[i] <= dst.data[j]);
            }
        }
    }
}

#[test]
fn linear_of_black_is_black() {
    let src = map(2, 1, 3, vec![0; 6]);
    let mut dst = empty_tone();
    create_tonemap().process(&src, &mut dst).unwrap();
    assert_eq!(dst.data, vec![0; 6]);
}

#[test]
fn reinhard_stays_in_unit_range() {
    let values: Vec<u64> = vec![0, 1, 5, 1 << 40, u64::MAX, 77, 1000, 3, 9];
    let src = map(3, 1, 3, values);
    let mut dst = empty_tone();
    for intensity in [-8, 0, 8] {
        for la in [0u32, 128, 256] {
            for ca in [0u32, 256] {
                create_tonemap_reinhard(intensity, la, ca).unwrap().process(&src, &mut dst).unwrap();
                assert_eq!(dst.data.len(), 9);
                assert!(dst.data.iter().all(|v| *v as u64 <= TONE_ONE));
            }
        }
    }
}

#[test]
fn reinhard_global_formula() {
    // light adaptation 0, colour adaptation 0: key is the grey mean
    let src = map(2, 1, 3, vec![100, 100, 100, 300, 300, 300]);
    let mut dst = empty_tone();
    create_tonemap_reinhard(0, 0, 0).unwrap().process(&src, &mut dst).unwrap();
    // grey mean 200: v / (v + 200)
    let a = (100 * 65536 / 300) as u32;
    let b = (300 * 65536 / 500) as u32;
    assert_eq!(dst.data, vec![a, a, a, b, b, b]);
    // one stop brighter halves the key
    create_tonemap_reinhard(1, 0, 0).unwrap().process(&src, &mut dst).unwrap();
    let a = (100 * 65536 / 200) as u32;
    let b = (300 * 65536 / 400) as u32;
    assert_eq!(dst.data, vec![a, a, a, b, b, b]);
}

#[test]
fn reinhard_local_adaptation() {
    // full light adaptation, full colour adaptation: key is the value itself, so v / 2v
    let src = map(2, 1, 3, vec![10, 999, 5, 7, 8, 9]);
    let mut dst = empty_tone();
    create_tonemap_reinhard(0, 256, 256).unwrap().process(&src, &mut dst).unwrap();
    assert_eq!(dst.data, vec![32768; 6]);
}

#[test]
fn tonemaps_refuse_other_channel_counts() {
    let src = map(2, 1, 1, vec![10, 999]);
    let mut dst = ToneImage { width: 7, height: 1, channels: 1, data: vec![5] };
    assert_eq!(create_tonemap().process(&src, &mut dst), Err(PhotoError::InvalidArgument));
    assert_eq!(
        create_tonemap_reinhard(0, 256, 0).unwrap().process(&src, &mut dst),
        Err(PhotoError::InvalidArgument)
    );
    assert_eq!(dst.width, 7);
    assert_eq!(dst.data, vec![5]);
}

#[test]
fn reinhard_parameters() {
    assert_eq!(create_tonemap_reinhard(9, 0, 0), Err(PhotoError::InvalidArgument));
    assert_eq!(create_tonemap_reinhard(0, 257, 0), Err(PhotoError::InvalidArgument));
    assert_eq!(create_tonemap_reinhard(0, 0, 300), Err(PhotoError::InvalidArgument));
    let mut t = create_tonemap_reinhard(0, 256, 0).unwrap();
    assert_eq!(t.get_intensity(), 0);
    assert_eq!(t.get_light_adaptation(), 256);
    assert_eq!(t.get_color_adaptation(), 0);
    assert_eq!(t.set_intensity(-8), Ok(()));
    assert_eq!(t.get_intensity(), -8);
    assert_eq!(t.set_intensity(-9), Err(PhotoError::InvalidArgument));
    assert_eq!(t.get_intensity(), -8);
    assert_eq!(t.set_light_adaptation(128), Ok(()));
    assert_eq!(t.get_light_adaptation(), 128);
    assert_eq!(t.set_color_adaptation(512), Err(PhotoError::InvalidArgument));
    assert_eq!(t.set_color_adaptation(64), Ok(()));
    assert_eq!(t.get_color_adaptation(), 64);
}
