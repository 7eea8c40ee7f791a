//! Merging containers, packing loose images, and format sniffing.

use reco::convert::{append_pages, ConvertError, Format};
use reco::img::Img;
use reco::merge::{append_container, name_sortable, MergeError};
use reco::pack::{pack_image_bytes, Options};
use reco::reader::Reader;
use reco::writer::Writer;

fn png_page(width: u32, height: u32, rgb: [u8; 3]) -> Vec<u8> {
    let buf = image::RgbImage::from_fn(width, height, |_, _| image::Rgb(rgb));
    let mut bytes: Vec<u8> = Vec::new();
    buf.write_to(&mut std::io::Cursor::new(&mut bytes), image::ImageFormat::Png)
        .unwrap();
    bytes
}

fn outside_archive(entries: &[(&str, Vec<u8>)]) -> Vec<u8> {
    let mut zip = zip::ZipWriter::new(std::io::Cursor::new(Vec::new()));
    let options = zip::write::SimpleFileOptions::default()
        .compression_method(zip::CompressionMethod::Stored);
    for (name, data) in entries {
        zip.start_file(*name, options).unwrap();
        std::io::Write::write_all(&mut zip, data).unwrap();
    }
    zip.finish().unwrap().into_inner()
}

#[test]
fn merge_re_streams_pages_in_natural_order() {
    // "2.png" comes before "10.png" under the natural order, though plain
    // byte order would say otherwise
    let bytes = outside_archive(&[
        ("10.png", png_page(2, 2, [10, 10, 10])),
        ("2.png", png_page(2, 2, [2, 2, 2])),
    ]);
    let mut source = Reader::try_new(bytes).unwrap();

    let mut writer = Writer::new();
    append_container(&mut writer, &mut source).unwrap();
    let merged = writer.finish().unwrap();

    let mut out = Reader::try_new(merged).unwrap();
    assert_eq!(out.spine().len(), 2);
    let first = out.load_current_img().unwrap();
    assert_eq!(first.raw()[0], 2);
    out.go_to_next_index();
    let second = out.load_current_img().unwrap();
    assert_eq!(second.raw()[0], 10);
}

#[test]
fn merging_two_containers_concatenates_their_pages() {
    let a = Reader::try_new(outside_archive(&[("a.png", png_page(2, 2, [1, 1, 1]))])).unwrap();
    let b = Reader::try_new(outside_archive(&[("b.png", png_page(2, 2, [9, 9, 9]))])).unwrap();
    let mut a = a;
    let mut b = b;

    let mut writer = Writer::new();
    append_container(&mut writer, &mut a).unwrap();
    append_container(&mut writer, &mut b).unwrap();
    let out = Reader::try_new(writer.finish().unwrap()).unwrap();

    assert_eq!(out.spine().len(), 2);
    let mut it = out.iter();
    // merged entries keep the counter scheme, with the source's extension
    assert_eq!(it.next().unwrap(), "00000000000000000000png");
    assert_eq!(it.next().unwrap(), "00000000000000000001png");
}

#[test]
fn autosplit_cuts_a_landscape_page_into_two() {
    let mut writer = Writer::new();
    let res = pack_image_bytes(
        &mut writer,
        ".png",
        &png_page(100, 50, [30, 30, 30]),
        Options::new(true),
    );
    res.unwrap();

    let mut reader = Reader::try_new(writer.finish().unwrap()).unwrap();
    assert_eq!(reader.spine().len(), 2);

    let left = reader.load_current_img().unwrap();
    assert_eq!((left.width(), left.height()), (51, 50));
    reader.go_to_next_index();
    let right = reader.load_current_img().unwrap();
    assert_eq!((right.width(), right.height()), (51, 50));
}

#[test]
fn portrait_pages_are_packed_as_their_original_bytes() {
    let page = png_page(50, 100, [30, 30, 30]);
    let mut writer = Writer::new();
    pack_image_bytes(&mut writer, ".png", &page, Options::new(true)).unwrap();
    pack_image_bytes(&mut writer, ".png", &page, Options::new(false)).unwrap();

    let reader = Reader::try_new(writer.finish().unwrap()).unwrap();
    assert_eq!(reader.spine().len(), 2);
    let mut it = reader.iter();
    assert_eq!(it.next().unwrap(), "00000000000000000000.png");
    assert_eq!(it.next().unwrap(), "00000000000000000001.png");
}

#[test]
fn extracted_pages_are_appended_as_jpeg_in_order() {
    let mut pixels = Vec::new();
    for _ in 0..(4 * 3) {
        pixels.extend_from_slice(&[50, 60, 70]);
    }
    let pages = vec![
        Img::from_raw(4, 3, pixels.clone()).unwrap(),
        Img::from_raw(4, 3, pixels).unwrap(),
    ];

    let mut writer = Writer::new();
    let appended = append_pages(&mut writer, &pages);
    assert_eq!(appended, 2);

    let reader = Reader::try_new(writer.finish().unwrap()).unwrap();
    assert_eq!(reader.spine().len(), 2);
    let mut it = reader.iter();
    assert_eq!(it.next().unwrap(), "00000000000000000000.jpeg");
    assert_eq!(it.next().unwrap(), "00000000000000000001.jpeg");
}

#[test]
fn names_the_natural_order_cannot_read_fail_the_merge() {
    // a digit run beyond the comparer's sixty-four-bit range
    let big = format!("{}.png", "9".repeat(25));
    let bytes = outside_archive(&[(big.as_str(), png_page(2, 2, [1, 1, 1]))]);
    let mut source = Reader::try_new(bytes).unwrap();

    let mut writer = Writer::new();
    assert_eq!(
        append_container(&mut writer, &mut source),
        Err(MergeError::UnsortableName)
    );
    assert!(writer.is_empty());
}

#[test]
fn sortable_names_are_recognized() {
    assert!(name_sortable("00000000000000000000.jpeg"));
    assert!(name_sortable("18446744073709551615"));
    assert!(name_sortable("page-12.png"));
    assert!(!name_sortable(&"9".repeat(25)));
    assert!(!name_sortable("p\u{e4}ge.png"));
}

#[test]
fn document_prefixes_classify_by_content() {
    let pdfish = b"%PDF-1.7\nsome document body padded to a sensible length";
    assert_eq!(Format::from_prefix(pdfish), Ok(Format::Pdf));
    assert_eq!(
        Format::from_prefix(b"GIF89a definitely not a document"),
        Err(ConvertError::UnknownFormat)
    );

    // the magic counts anywhere within the first kibibyte, but not past it
    let mut shifted = vec![b' '; 100];
    shifted.extend_from_slice(b"%PDF-1.4");
    assert_eq!(Format::from_prefix(&shifted), Ok(Format::Pdf));

    let mut too_late = vec![b' '; 1024];
    too_late.extend_from_slice(b"%PDF-1.4");
    assert_eq!(
        Format::from_prefix(&too_late),
        Err(ConvertError::UnknownFormat)
    );
}
