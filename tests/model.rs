use eventide::frames::{has_image_extension, is_fits_extension, FrameSet, StretchMethod};
use eventide::image::{FrameType, Image, ImageError, PixelType};

fn img(width: usize, height: usize, samples: Vec<f32>) -> Image<f32> {
    Image::from_samples(width, height, samples, FrameType::Light).unwrap()
}

fn divide_guarded(a: f32, b: f32) -> f32 {
    if b.abs() < 1e-10 {
        0.0
    } else {
        a / b
    }
}

#[test]
fn bytes_per_pixel_of_each_encoding() {
    assert_eq!(PixelType::U8.bytes_per_pixel(), 1);
    assert_eq!(PixelType::U16.bytes_per_pixel(), 2);
    assert_eq!(PixelType::I16.bytes_per_pixel(), 2);
    assert_eq!(PixelType::U32.bytes_per_pixel(), 4);
    assert_eq!(PixelType::I32.bytes_per_pixel(), 4);
    assert_eq!(PixelType::F32.bytes_per_pixel(), 4);
    assert_eq!(PixelType::F64.bytes_per_pixel(), 8);
}

#[test]
fn new_image_is_filled() {
    let a = Image::new(3, 2, 0.0f32, FrameType::Bias);
    assert_eq!(a.samples, vec![0.0; 6]);
    assert_eq!(a.dimensions(), (3, 2));
    assert_eq!(a.frame_type, FrameType::Bias);
    let empty = Image::new(0, 0, 1u16, FrameType::Light);
    assert!(empty.samples.is_empty());
}

#[test]
fn from_samples_checks_length() {
    assert_eq!(
        Image::from_samples(2, 2, vec![1.0f32, 2.0, 3.0], FrameType::Light),
        Err(ImageError::DimensionMismatch)
    );
    let a = img(3, 2, vec![1.0, 2.0, 3.0, 4.0, 5.0, 6.0]);
    assert_eq!(a.get(1, 0), 4.0);
    assert_eq!(a.get(0, 2), 3.0);
    assert_eq!(a.get(1, 2), 6.0);
}

#[test]
fn from_rows_checks_every_row() {
    let ok = Image::from_rows(2, 2, vec![vec![1, 2], vec![3, 4]], FrameType::Flat).unwrap();
    assert_eq!(ok.samples, vec![1, 2, 3, 4]);
    assert_eq!(ok.get(1, 0), 3);
    assert_eq!(
        Image::from_rows(2, 2, vec![vec![1, 2], vec![3]], FrameType::Flat),
        Err(ImageError::DimensionMismatch)
    );
    assert_eq!(
        Image::from_rows(2, 2, vec![vec![1, 2]], FrameType::Flat),
        Err(ImageError::DimensionMismatch)
    );
}

#[test]
fn pixelwise_operations_apply_everywhere() {
    let mut a = img(2, 1, vec![5.0, 8.0]);
    let b = img(2, 1, vec![1.0, 2.0]);
    a.apply_pixelwise(&b, &|x: f32, y: f32| x - y).unwrap();
    assert_eq!(a.samples, vec![4.0, 6.0]);
    a.apply_pixelwise(&b, &|x: f32, y: f32| x + y).unwrap();
    assert_eq!(a.samples, vec![5.0, 8.0]);
    a.apply_pixelwise(&b, &|x: f32, y: f32| x * y).unwrap();
    assert_eq!(a.samples, vec![5.0, 16.0]);
}

#[test]
fn pixelwise_mismatch_leaves_image_alone() {
    let mut a = img(2, 2, vec![1.0, 2.0, 3.0, 4.0]);
    let b = img(3, 3, vec![1.0; 9]);
    assert_eq!(a.apply_pixelwise(&b, &|x: f32, y: f32| x + y), Err(ImageError::DimensionMismatch));
    assert_eq!(a.samples, vec![1.0, 2.0, 3.0, 4.0]);
}

#[test]
fn divide_by_zero_gives_zero() {
    let mut a = img(3, 1, vec![6.0, 5.0, 4.0]);
    let b = img(3, 1, vec![2.0, 0.0, 1e-12]);
    a.apply_pixelwise(&b, &divide_guarded).unwrap();
    assert_eq!(a.samples, vec![3.0, 0.0, 0.0]);
}

#[test]
fn scaling_by_one_and_zero() {
    let original = img(2, 2, vec![1.5, -2.0, 3.25, 1000.0]);
    let mut a = original.clone();
    a.map_samples(&|x: f32| x * 1.0);
    assert_eq!(a, original);
    a.map_samples(&|x: f32| x * 0.0);
    assert!(a.samples.iter().all(|&x| x == 0.0));
    assert_eq!(a.dimensions(), (2, 2));
}

#[test]
fn frame_role_keywords() {
    assert_eq!(FrameType::Light.keyword(), "LIGHT");
    assert_eq!(FrameType::DarkFlat.keyword(), "DARKFLAT");
    assert_eq!(FrameType::from_keyword("Dark"), FrameType::Dark);
    assert_eq!(FrameType::from_keyword("FLAT"), FrameType::Flat);
    assert_eq!(FrameType::from_keyword("DarkFlat"), FrameType::DarkFlat);
    assert_eq!(FrameType::from_keyword("bias"), FrameType::Bias);
    assert_eq!(FrameType::from_keyword("science"), FrameType::Light);
    assert_eq!(FrameType::from_lowered_keyword(&"DARK".to_string()), FrameType::Light);
    assert_eq!(FrameType::from_lowered_keyword(&"dark".to_string()), FrameType::Dark);
}

#[test]
fn image_extensions() {
    assert!(is_fits_extension("fits"));
    assert!(is_fits_extension("fit"));
    assert!(is_fits_extension("fts"));
    assert!(!is_fits_extension("FITS"));
    assert!(!is_fits_extension("png"));
    assert!(has_image_extension("FITS"));
    assert!(has_image_extension("Fts"));
    assert!(!has_image_extension("jpg"));
    assert!(!has_image_extension(""));
}

#[test]
fn frame_sets_start_empty() {
    let set = FrameSet::new(FrameType::DarkFlat, false);
    assert_eq!(set.frame_type_name(), "Dark Flat");
    assert!(set.directory.is_none());
    assert!(set.file_paths.is_empty());
    assert!(!set.is_required);
    assert_eq!(FrameSet::new(FrameType::Light, true).frame_type_name(), "Light");
}

#[test]
fn stretch_defaults_to_linear() {
    assert_eq!(StretchMethod::default(), StretchMethod::Linear);
}

#[test]
fn well_formedness_follows_buffer_length() {
    let mut a = img(2, 3, vec![0.0; 6]);
    assert!(a.is_well_formed());
    a.samples.pop();
    assert!(!a.is_well_formed());
    let huge = Image { width: usize::MAX, height: 2, frame_type: FrameType::Light, samples: vec![0u8] };
    assert!(!huge.is_well_formed());
}
