use watermark::batch::{collect_in_order, process_batch, BatchError, JobOutcome, NamedInput};
use watermark::pixel::Opacity;

fn make_png(w: u32, h: u32, px: [u8; 4]) -> Vec<u8> {
    let img = image::RgbaImage::from_pixel(w, h, image::Rgba(px));
    let mut cur = std::io::Cursor::new(Vec::new());
    image::DynamicImage::ImageRgba8(img)
        .write_to(&mut cur, image::ImageFormat::Png)
        .unwrap();
    cur.into_inner()
}

fn named(name: &str, bytes: Vec<u8>) -> NamedInput {
    NamedInput { name: name.as_bytes().to_vec(), bytes }
}

#[test]
fn batch_of_three_valid_images() {
    let wm = make_png(4, 4, [0, 0, 255, 255]);
    let inputs = vec![
        named("a.png", make_png(16, 16, [255, 0, 0, 255])),
        named("b.png", make_png(20, 10, [0, 255, 0, 255])),
        named("c.png", make_png(8, 32, [9, 9, 9, 255])),
    ];
    let dims = [(16u32, 16u32), (20, 10), (8, 32)];
    let out = process_batch(inputs, Some(&wm), Opacity::opaque(), 1).unwrap();
    assert_eq!(out.len(), 3);
    assert_eq!(out[0].0, b"a.png".to_vec());
    assert_eq!(out[1].0, b"b.png".to_vec());
    assert_eq!(out[2].0, b"c.png".to_vec());
    for (k, (_, outcome)) in out.iter().enumerate() {
        match outcome {
            JobOutcome::Encoded(bytes) => {
                let img = image::load_from_memory(bytes).unwrap();
                assert_eq!(image::GenericImageView::dimensions(&img), dims[k]);
            }
            other => panic!("job {} failed: {:?}", k, other),
        }
    }
}

#[test]
fn one_corrupt_image_leaves_siblings_intact() {
    let wm = make_png(4, 4, [0, 0, 255, 128]);
    let inputs = vec![
        named("good1.png", make_png(12, 12, [10, 20, 30, 255])),
        named("bad.png", b"this is not an image".to_vec()),
        named("good2.png", make_png(6, 6, [40, 50, 60, 255])),
    ];
    let out = process_batch(inputs, Some(&wm), Opacity::opaque(), 0).unwrap();
    assert_eq!(out.len(), 3);
    assert!(matches!(out[0].1, JobOutcome::Encoded(_)));
    assert!(matches!(out[1].1, JobOutcome::DecodeFailure));
    assert!(matches!(out[2].1, JobOutcome::Encoded(_)));
}

#[test]
fn missing_watermark_fails_the_whole_batch() {
    let inputs = vec![named("a.png", make_png(4, 4, [1, 2, 3, 255]))];
    assert_eq!(
        process_batch(inputs, None, Opacity::opaque(), 0),
        Err(BatchError::MissingWatermark)
    );
}

#[test]
fn empty_batch_is_rejected() {
    let wm = make_png(4, 4, [0, 0, 255, 255]);
    assert_eq!(
        process_batch(Vec::new(), Some(&wm), Opacity::opaque(), 0),
        Err(BatchError::EmptyBatch)
    );
}

#[test]
fn corrupt_watermark_fails_the_whole_batch() {
    let wm = b"garbage".to_vec();
    let inputs = vec![named("a.png", make_png(4, 4, [1, 2, 3, 255]))];
    assert_eq!(
        process_batch(inputs, Some(&wm), Opacity::opaque(), 0),
        Err(BatchError::WatermarkDecodeFailure)
    );
}

#[test]
fn out_of_order_completions_are_collected_in_input_order() {
    // Physical completion order 2, 0, 1: input order must be restored.
    let completions = vec![
        (2usize, JobOutcome::Encoded(vec![2, 2])),
        (0usize, JobOutcome::Encoded(vec![0])),
        (1usize, JobOutcome::DecodeFailure),
    ];
    let r = collect_in_order(3, completions);
    assert_eq!(r.len(), 3);
    assert_eq!(r[0], JobOutcome::Encoded(vec![0]));
    assert_eq!(r[1], JobOutcome::DecodeFailure);
    assert_eq!(r[2], JobOutcome::Encoded(vec![2, 2]));
}
