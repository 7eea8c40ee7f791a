//! Writer/reader round trips, validation and navigation.

use reco::errors::{InsertionError, LoadImageError};
use reco::img::Img;
use reco::reader::Reader;
use reco::writer::Writer;

/// A small solid-colour page, encoded as PNG bytes (lossless, so pages
/// survive a round trip pixel for pixel).
fn png_page(width: u32, height: u32, rgb: [u8; 3]) -> Vec<u8> {
    let buf = image::RgbImage::from_fn(width, height, |_, _| image::Rgb(rgb));
    let mut bytes: Vec<u8> = Vec::new();
    buf.write_to(&mut std::io::Cursor::new(&mut bytes), image::ImageFormat::Png)
        .unwrap();
    bytes
}

fn page_img(width: u32, height: u32, rgb: [u8; 3]) -> Img {
    let mut pixels = Vec::new();
    for _ in 0..(width * height) {
        pixels.extend_from_slice(&rgb);
    }
    Img::from_raw(width, height, pixels).unwrap()
}

#[test]
fn three_jpeg_pages_reopen_in_insertion_order() {
    // scenario: three re-encoded pages, then reopening the archive
    let mut writer = Writer::new();
    assert!(writer.is_empty());
    for shade in [10u8, 120, 240] {
        let img = page_img(6, 4, [shade, shade, shade]);
        writer.insert_image_as_jpeg(&img, 75).unwrap();
    }
    let bytes = writer.finish().unwrap();

    let mut reader = Reader::try_new(bytes).unwrap();
    assert_eq!(reader.spine().len(), 3);

    let mut it = reader.iter();
    assert_eq!(it.next().unwrap(), "00000000000000000000.jpeg");
    assert_eq!(it.next().unwrap(), "00000000000000000001.jpeg");
    assert_eq!(it.next().unwrap(), "00000000000000000002.jpeg");
    assert!(it.next().is_none());

    // every page decodes
    for index in 0..3 {
        reader.go_to_index(index);
        let img = reader.load_current_img().unwrap();
        assert_eq!((img.width(), img.height()), (6, 4));
    }
}

#[test]
fn pages_round_trip_pixel_for_pixel() {
    let first = png_page(3, 2, [255, 0, 0]);
    let second = png_page(2, 3, [0, 0, 255]);

    let mut writer = Writer::new();
    writer.insert_buf(".png", &first).unwrap();
    writer.insert_buf(".png", &second).unwrap();
    let bytes = writer.finish().unwrap();

    let mut reader = Reader::try_new(bytes).unwrap();
    assert_eq!(reader.spine().len(), 2);

    let img = reader.load_current_img().unwrap();
    assert_eq!((img.width(), img.height()), (3, 2));
    assert!(img.raw().iter().eq([255, 0, 0].iter().cycle().take(18)));

    reader.go_to_next_index();
    let img = reader.load_current_img().unwrap();
    assert_eq!((img.width(), img.height()), (2, 3));
    assert!(img.raw().iter().eq([0, 0, 255].iter().cycle().take(18)));
}

#[test]
fn non_image_bytes_are_rejected_and_counter_stands_still() {
    let mut writer = Writer::new();
    let res = writer.insert_buf(".txt", b"this is not a raster image at all");
    assert_eq!(res, Err(InsertionError::InvalidFormat));
    assert!(writer.is_empty());

    // the rejected append left the counter alone: the next page gets index zero
    writer.insert_buf(".png", &png_page(2, 2, [1, 2, 3])).unwrap();
    let bytes = writer.finish().unwrap();
    let reader = Reader::try_new(bytes).unwrap();
    let mut it = reader.iter();
    assert_eq!(it.next().unwrap(), "00000000000000000000.png");
    assert!(it.next().is_none());
}

#[test]
fn navigation_is_clamped_to_the_spine() {
    let mut writer = Writer::new();
    for shade in [0u8, 80, 160] {
        writer
            .insert_buf(".png", &png_page(2, 2, [shade, shade, shade]))
            .unwrap();
    }
    let mut reader = Reader::try_new(writer.finish().unwrap()).unwrap();

    assert_eq!(reader.spine().current_index(), 0);
    reader.go_to_prev_index();
    assert_eq!(reader.spine().current_index(), 0);
    reader.go_to_next_index();
    assert_eq!(reader.spine().current_index(), 1);
    reader.go_to_index(999);
    assert_eq!(reader.spine().current_index(), 2);
    reader.go_to_next_index();
    assert_eq!(reader.spine().current_index(), 2);
    reader.go_to_prev_index();
    assert_eq!(reader.spine().current_index(), 1);
    reader.go_to_index(0);
    assert_eq!(reader.spine().current_index(), 0);
    assert_eq!(
        reader.spine().get_current_file_name(),
        Some("00000000000000000000.png")
    );
}

#[test]
fn an_empty_container_has_no_cursor_and_navigation_is_a_no_op() {
    let writer = Writer::new();
    let bytes = writer.finish().unwrap();
    let mut reader = Reader::try_new(bytes).unwrap();

    assert!(reader.spine().is_empty());
    assert_eq!(reader.spine().get_current_file_name(), None);
    reader.go_to_next_index();
    reader.go_to_prev_index();
    reader.go_to_index(5);
    assert_eq!(reader.spine().current_index(), 0);
    assert!(matches!(
        reader.load_current_img(),
        Err(LoadImageError::ZipByIndex(0))
    ));
}

#[test]
fn non_image_entries_are_filtered_out_of_the_spine() {
    // an archive authored outside the library, holding one page and one note
    let mut zip = zip::ZipWriter::new(std::io::Cursor::new(Vec::new()));
    let options = zip::write::SimpleFileOptions::default()
        .compression_method(zip::CompressionMethod::Stored);
    zip.start_file("note.txt", options).unwrap();
    std::io::Write::write_all(&mut zip, &[b' '; 64]).unwrap();
    zip.start_file("page.png", options).unwrap();
    std::io::Write::write_all(&mut zip, &png_page(2, 2, [9, 9, 9])).unwrap();
    let bytes = zip.finish().unwrap().into_inner();

    let reader = Reader::try_new(bytes).unwrap();
    assert_eq!(reader.spine().len(), 1);
    let mut it = reader.iter();
    assert_eq!(it.next().unwrap(), "page.png");
}
