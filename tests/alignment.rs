use photo::align::{create_align_mtb, AlignMTB, Shift};
use photo::image::{Image, PhotoError};

fn pattern(width: usize, height: usize) -> Vec<u8> {
    // smooth blobs plus a little texture, so every pyramid level has structure
    let mut data = Vec::with_capacity(width * height);
    let mut seed: u32 = 12345;
    for y in 0..height {
        for x in 0..width {
            seed = seed.wrapping_mul(1103515245).wrapping_add(12345);
            let noise = ((seed >> 16) % 16) as i32;
            let fx = (x as f64 / 7.0).sin();
            let fy = (y as f64 / 5.0).cos();
            let base = 128.0 + 90.0 * fx * fy;
            let v = base as i32 + noise - 8;
            data.push(v.clamp(0, 255) as u8);
        }
    }
    data
}

fn shifted_copy(src: &[u8], width: usize, height: usize, dx: i64, dy: i64) -> Vec<u8> {
    let mut out = vec![0u8; width * height];
    for y in 0..height as i64 {
        for x in 0..width as i64 {
            let sx = x - dx;
            let sy = y - dy;
            if sx >= 0 && sx < width as i64 && sy >= 0 && sy < height as i64 {
                out[(y as usize) * width + x as usize] = src[(sy as usize) * width + sx as usize];
            }
        }
    }
    out
}

fn default_aligner() -> AlignMTB {
    create_align_mtb(6, 4, true).unwrap()
}

#[test]
fn identical_images_need_no_shift() {
    let img = Image::new(64, 48, 1, pattern(64, 48)).unwrap();
    let same = Image::new(64, 48, 1, pattern(64, 48)).unwrap();
    let shift = default_aligner().calculate_shift(&img, &same).unwrap();
    assert_eq!(shift, Shift { dx: 0, dy: 0 });
}

#[test]
fn identical_color_images_need_no_shift() {
    let gray = pattern(32, 32);
    let mut data = Vec::new();
    for v in &gray {
        data.push(*v);
        data.push(v / 2);
        data.push(255 - v);
    }
    let img = Image::new(32, 32, 3, data.clone()).unwrap();
    let same = Image::new(32, 32, 3, data).unwrap();
    let shift = default_aligner().calculate_shift(&img, &same).unwrap();
    assert_eq!(shift, Shift { dx: 0, dy: 0 });
}

#[test]
fn zero_shift_is_identity() {
    let img = Image::new(16, 9, 3, (0..16 * 9 * 3).map(|i| (i * 7 % 256) as u8).collect()).unwrap();
    let mut dst = Image::zeros(1, 1, 1);
    default_aligner().shift_mat(&img, &mut dst, Shift { dx: 0, dy: 0 });
    assert_eq!(dst.width, 16);
    assert_eq!(dst.height, 9);
    assert_eq!(dst.channels, 3);
    assert_eq!(dst.data, img.data);
}

#[test]
fn shift_moves_pixels_and_fills_zeros() {
    let img = Image::new(3, 2, 1, vec![1, 2, 3, 4, 5, 6]).unwrap();
    let mut dst = Image::zeros(1, 1, 1);
    default_aligner().shift_mat(&img, &mut dst, Shift { dx: 1, dy: -1 });
    assert_eq!(dst.data, vec![0, 4, 5, 0, 0, 0]);
}

#[test]
fn recovers_known_offset() {
    let aligner = create_align_mtb(4, 4, true).unwrap();
    let (w, h) = (96, 80);
    let base = pattern(w, h);
    let moved = shifted_copy(&base, w, h, 5, -3);
    let img0 = Image::new(w, h, 1, base).unwrap();
    let img1 = Image::new(w, h, 1, moved).unwrap();
    let shift = aligner.calculate_shift(&img0, &img1).unwrap();
    assert_eq!(shift, Shift { dx: -5, dy: 3 });
}

#[test]
fn process_aligns_and_crops() {
    let (w, h) = (96, 80);
    let base = pattern(w, h);
    let moved = shifted_copy(&base, w, h, 5, -3);
    let src = vec![
        Image::new(w, h, 1, base.clone()).unwrap(),
        Image::new(w, h, 1, moved).unwrap(),
    ];
    let mut dst = Vec::new();
    create_align_mtb(4, 4, true).unwrap().process(&src, &mut dst).unwrap();
    assert_eq!(dst.len(), 2);
    // the second image moves by (-5, 3): five columns on the right and three rows on top are lost
    assert_eq!(dst[0].width, w - 5);
    assert_eq!(dst[0].height, h - 3);
    assert_eq!(dst[1].width, w - 5);
    assert_eq!(dst[1].height, h - 3);
    for y in 0..h - 3 {
        for x in 0..w - 5 {
            assert_eq!(dst[0].data[y * (w - 5) + x], base[(y + 3) * w + x]);
        }
    }
    // away from the zero-padded border the aligned copy equals the reference
    for y in 0..h - 6 {
        for x in 0..w - 5 {
            assert_eq!(dst[1].data[y * (w - 5) + x], dst[0].data[y * (w - 5) + x]);
        }
    }
}

#[test]
fn process_without_cut_keeps_size() {
    let img = Image::new(8, 8, 1, pattern(8, 8)).unwrap();
    let src = vec![img.clone(), img.clone()];
    let mut dst = Vec::new();
    create_align_mtb(2, 4, false).unwrap().process(&src, &mut dst).unwrap();
    assert_eq!(dst[0].data, img.data);
    assert_eq!(dst[1].data, img.data);
}

#[test]
fn process_rejects_mismatched_sizes() {
    let src = vec![Image::zeros(4, 4, 1), Image::zeros(5, 4, 1)];
    let mut dst = Vec::new();
    assert_eq!(default_aligner().process(&src, &mut dst), Err(PhotoError::InvalidArgument));
    assert!(dst.is_empty());
    let empty: Vec<Image> = Vec::new();
    assert_eq!(default_aligner().process(&empty, &mut dst), Err(PhotoError::InvalidArgument));
}

#[test]
fn deep_search_on_small_images_still_finds_nothing_to_do() {
    let img = Image::new(16, 16, 1, pattern(16, 16)).unwrap();
    let shift = create_align_mtb(40, 4, true).unwrap().calculate_shift(&img, &img.clone()).unwrap();
    assert_eq!(shift, Shift { dx: 0, dy: 0 });
}

#[test]
fn alignment_rejects_mismatched_channels() {
    let a = Image::zeros(2, 2, 1);
    let b = Image::zeros(2, 2, 3);
    assert_eq!(default_aligner().calculate_shift(&a, &b), Err(PhotoError::InvalidArgument));
    let mut dst = Vec::new();
    assert_eq!(default_aligner().process(&vec![a, b], &mut dst), Err(PhotoError::InvalidArgument));
    assert!(dst.is_empty());
}

#[test]
fn calculate_shift_rejects_mismatched_sizes() {
    let a = Image::zeros(4, 4, 1);
    let b = Image::zeros(4, 5, 1);
    assert_eq!(default_aligner().calculate_shift(&a, &b), Err(PhotoError::InvalidArgument));
}

#[test]
fn parameters_are_checked() {
    assert_eq!(create_align_mtb(-1, 4, true), Err(PhotoError::InvalidArgument));
    let deep = create_align_mtb(40, 4, true).unwrap();
    assert_eq!(deep.get_max_bits(), 40);
    assert_eq!(create_align_mtb(6, -1, true), Err(PhotoError::InvalidArgument));
    let mut a = default_aligner();
    assert_eq!(a.get_max_bits(), 6);
    assert_eq!(a.get_exclude_range(), 4);
    assert!(a.get_cut());
    assert_eq!(a.set_max_bits(5), Ok(()));
    assert_eq!(a.get_max_bits(), 5);
    assert_eq!(a.set_max_bits(-2), Err(PhotoError::InvalidArgument));
    assert_eq!(a.get_max_bits(), 5);
    assert_eq!(a.set_max_bits(40), Ok(()));
    assert_eq!(a.get_max_bits(), 40);
    assert_eq!(a.set_exclude_range(-3), Err(PhotoError::InvalidArgument));
    assert_eq!(a.set_exclude_range(2), Ok(()));
    assert_eq!(a.get_exclude_range(), 2);
    a.set_cut(false);
    assert!(!a.get_cut());
}

#[test]
fn bitmaps_split_at_the_median() {
    let img = Image::new(5, 1, 1, vec![10, 20, 30, 40, 50]).unwrap();
    let mut tb = Vec::new();
    let mut eb = Vec::new();
    create_align_mtb(6, 5, true).unwrap().compute_bitmaps(&img, &mut tb, &mut eb);
    assert_eq!(tb, vec![false, false, false, true, true]);
    assert_eq!(eb, vec![true, true, false, true, true]);
}

#[test]
fn image_new_checks_its_buffer() {
    assert_eq!(Image::new(2, 2, 2, vec![0; 8]).unwrap_err(), PhotoError::InvalidArgument);
    assert_eq!(Image::new(2, 2, 3, vec![0; 11]).unwrap_err(), PhotoError::InvalidArgument);
    let img = Image::new(2, 2, 3, (0..12).collect()).unwrap();
    assert_eq!(img.at(1, 1, 2), 11);
}
