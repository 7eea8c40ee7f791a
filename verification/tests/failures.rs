//! Inputs that produce each reportable failure.

use reco::errors::{InsertionError, LoadImageError, ReaderCreationError, SpineCreationError};
use reco::img::Img;
use reco::pack::{pack_image_bytes, Options, PackError};
use reco::reader::Reader;
use reco::writer::Writer;

#[test]
fn bytes_that_are_no_archive_do_not_open() {
    let res = Reader::try_new(b"certainly not an archive of any kind".to_vec());
    assert!(matches!(res, Err(ReaderCreationError::ArchiveCreation)));
}

#[test]
fn an_entry_shorter_than_the_probe_fails_spine_construction() {
    let mut zip = zip::ZipWriter::new(std::io::Cursor::new(Vec::new()));
    let options = zip::write::SimpleFileOptions::default()
        .compression_method(zip::CompressionMethod::Stored);
    zip.start_file("stub", options).unwrap();
    std::io::Write::write_all(&mut zip, b"BM").unwrap();
    let bytes = zip.finish().unwrap().into_inner();

    let res = Reader::try_new(bytes);
    assert!(matches!(
        res,
        Err(ReaderCreationError::SpineCreation(
            SpineCreationError::ZipFileRead
        ))
    ));
}

#[test]
fn an_entry_that_sniffs_as_image_but_does_not_decode_reports_decode_failure() {
    // starts with the JPEG signature, but carries no decodable stream
    let mut fake = vec![0xFF, 0xD8, 0xFF, 0xE0];
    fake.extend_from_slice(&[0u8; 60]);

    let mut writer = Writer::new();
    writer.insert_buf(".jpeg", &fake).unwrap();
    let mut reader = Reader::try_new(writer.finish().unwrap()).unwrap();
    assert_eq!(reader.spine().len(), 1);
    assert!(matches!(
        reader.load_current_img(),
        Err(LoadImageError::ImageDecode)
    ));
}

#[test]
fn a_page_too_wide_for_the_encoder_is_rejected() {
    let img = Img::from_raw(70000, 1, vec![0u8; 70000 * 3]).unwrap();
    let mut writer = Writer::new();
    assert_eq!(
        writer.insert_image_as_jpeg(&img, 75),
        Err(InsertionError::ImageEncode)
    );
    assert!(writer.is_empty());
}

#[test]
fn a_name_too_long_for_the_format_is_rejected() {
    // the counter plus this extension overruns the format's sixteen-bit
    // name-length field
    let ext = "x".repeat(70_000);
    let page = {
        let buf = image::RgbImage::from_fn(2, 2, |_, _| image::Rgb([5, 5, 5]));
        let mut bytes: Vec<u8> = Vec::new();
        buf.write_to(&mut std::io::Cursor::new(&mut bytes), image::ImageFormat::Png)
            .unwrap();
        bytes
    };
    let mut writer = Writer::new();
    assert_eq!(
        writer.insert_buf(&ext, &page),
        Err(InsertionError::FileCreation)
    );
    assert!(writer.is_empty());
}

#[test]
fn a_separator_tailed_extension_cannot_name_a_file_entry() {
    // readers would take the trailing separator as marking a directory
    let page = {
        let buf = image::RgbImage::from_fn(2, 2, |_, _| image::Rgb([7, 7, 7]));
        let mut bytes: Vec<u8> = Vec::new();
        buf.write_to(&mut std::io::Cursor::new(&mut bytes), image::ImageFormat::Png)
            .unwrap();
        bytes
    };
    let mut writer = Writer::new();
    assert_eq!(
        writer.insert_buf(".png/", &page),
        Err(InsertionError::FileCreation)
    );
    assert_eq!(
        writer.insert_buf(".png\\", &page),
        Err(InsertionError::FileCreation)
    );
    assert!(writer.is_empty());
}

#[test]
fn splitting_asks_for_a_decodable_page() {
    let mut writer = Writer::new();
    let res = pack_image_bytes(
        &mut writer,
        ".png",
        b"looks like nothing the decoder knows",
        Options::new(true),
    );
    assert_eq!(res, Err(PackError::ImageDecode));
    assert!(writer.is_empty());
}
