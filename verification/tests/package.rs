use watermark::batch::{process_batch, JobOutcome, NamedInput};
use watermark::package::{pack_archive, package_results, unpack_archive};
use watermark::pixel::Opacity;

fn make_png(w: u32, h: u32, px: [u8; 4]) -> Vec<u8> {
    let img = image::RgbaImage::from_pixel(w, h, image::Rgba(px));
    let mut cur = std::io::Cursor::new(Vec::new());
    image::DynamicImage::ImageRgba8(img)
        .write_to(&mut cur, image::ImageFormat::Png)
        .unwrap();
    cur.into_inner()
}

fn parse_archive(bytes: &[u8]) -> Vec<(Vec<u8>, Vec<u8>)> {
    let mut i = 0usize;
    let mut out = Vec::new();
    while i < bytes.len() {
        let nl = u32::from_le_bytes(bytes[i..i + 4].try_into().unwrap()) as usize;
        i += 4;
        let name = bytes[i..i + nl].to_vec();
        i += nl;
        let dl = u32::from_le_bytes(bytes[i..i + 4].try_into().unwrap()) as usize;
        i += 4;
        let data = bytes[i..i + dl].to_vec();
        i += dl;
        out.push((name, data));
    }
    out
}

#[test]
fn archive_frames_entries_exactly() {
    let entries = vec![(b"a".to_vec(), vec![1u8, 2, 3]), (b"bc".to_vec(), vec![9u8])];
    let blob = pack_archive(&entries).unwrap();
    let expected = vec![
        1, 0, 0, 0, b'a', 3, 0, 0, 0, 1, 2, 3, // first entry
        2, 0, 0, 0, b'b', b'c', 1, 0, 0, 0, 9, // second entry
    ];
    assert_eq!(blob, expected);
    assert_eq!(parse_archive(&blob), entries);
}

#[test]
fn archive_round_trips() {
    let entries = vec![
        (b"a.png".to_vec(), vec![1u8, 2, 3, 4]),
        (Vec::new(), Vec::new()),
        (b"long-name.png".to_vec(), vec![0u8; 1000]),
    ];
    let blob = pack_archive(&entries).unwrap();
    assert_eq!(unpack_archive(&blob), Some(entries));
}

#[test]
fn truncated_archive_is_rejected() {
    let entries = vec![(b"a".to_vec(), vec![1u8, 2, 3])];
    let mut blob = pack_archive(&entries).unwrap();
    blob.pop();
    assert_eq!(unpack_archive(&blob), None);
    assert_eq!(unpack_archive(&vec![7u8, 0, 0]), None);
}

#[test]
fn empty_archive_is_empty() {
    let blob = pack_archive(&Vec::new()).unwrap();
    assert!(blob.is_empty());
}

#[test]
fn failed_jobs_are_left_out_of_the_package() {
    let results = vec![
        (b"ok.png".to_vec(), JobOutcome::Encoded(vec![5, 6])),
        (b"bad.png".to_vec(), JobOutcome::DecodeFailure),
        (b"worse.png".to_vec(), JobOutcome::EncodeFailure),
    ];
    let blob = package_results(results).unwrap();
    let entries = parse_archive(&blob);
    assert_eq!(entries, vec![(b"ok.png".to_vec(), vec![5u8, 6])]);
}

#[test]
fn packaged_batch_of_three_named_images() {
    let wm = make_png(5, 5, [0, 0, 255, 200]);
    let dims = [(30u32, 30u32), (40, 20), (25, 35)];
    let inputs = vec![
        NamedInput { name: b"a.png".to_vec(), bytes: make_png(30, 30, [200, 0, 0, 255]) },
        NamedInput { name: b"b.png".to_vec(), bytes: make_png(40, 20, [0, 200, 0, 255]) },
        NamedInput { name: b"c.png".to_vec(), bytes: make_png(25, 35, [0, 0, 200, 255]) },
    ];
    let results = process_batch(inputs, Some(&wm), Opacity::opaque(), 2).unwrap();
    let blob = package_results(results).unwrap();
    let entries = parse_archive(&blob);
    assert_eq!(entries.len(), 3);
    assert_eq!(entries[0].0, b"a.png".to_vec());
    assert_eq!(entries[1].0, b"b.png".to_vec());
    assert_eq!(entries[2].0, b"c.png".to_vec());
    for (k, (_, data)) in entries.iter().enumerate() {
        let img = image::load_from_memory(data).unwrap();
        assert_eq!(image::GenericImageView::dimensions(&img), dims[k]);
    }
}
