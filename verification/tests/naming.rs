//! Entry naming, name ordering and display sizing.

use reco::merge::ext_of_name;
use reco::names::entry_name;
use reco::order::{sorted_names, str_lex_le};
use reco::view::scale_img_boundaries;

#[test]
fn it_scale_img_boundaries_accurately() {
    assert_eq!(scale_img_boundaries(1000, 2000, 1000, 1000), (500, 1000));
    assert_eq!(scale_img_boundaries(1000, 2000, 300, 1000), (300, 600));
    assert_eq!(scale_img_boundaries(2000, 1000, 1000, 1000), (1000, 500));
    assert_eq!(scale_img_boundaries(2000, 1000, 300, 1000), (300, 150));
}

#[test]
fn entry_names_are_zero_padded_and_ordered() {
    assert_eq!(entry_name(0, ".jpeg"), "00000000000000000000.jpeg");
    assert_eq!(entry_name(1, ".jpeg"), "00000000000000000001.jpeg");
    assert_eq!(entry_name(123, ".png"), "00000000000000000123.png");
    assert_eq!(entry_name(2, ""), "00000000000000000002");

    // lexicographic order equals numeric order, whatever the extensions
    assert!(entry_name(9, ".png") < entry_name(10, ".jpeg"));
    assert!(entry_name(99, ".a") < entry_name(100, ".z"));
}

#[test]
fn lexicographic_compare_matches_plain_ordering() {
    assert!(str_lex_le("a", "b"));
    assert!(!str_lex_le("b", "a"));
    assert!(str_lex_le("abc", "abc"));
    assert!(str_lex_le("ab", "abc"));
    assert!(!str_lex_le("abd", "abc"));
    // byte-order quirk of plain sorts: "10" comes before "2"
    assert!(str_lex_le("10", "2"));
}

#[test]
fn sorted_names_orders_and_keeps_everything() {
    let names = vec![
        "00000000000000000002.png".to_string(),
        "00000000000000000000.jpeg".to_string(),
        "00000000000000000001.jpeg".to_string(),
    ];
    let sorted = sorted_names(&names);
    assert_eq!(
        sorted,
        vec![
            "00000000000000000000.jpeg".to_string(),
            "00000000000000000001.jpeg".to_string(),
            "00000000000000000002.png".to_string(),
        ]
    );
}

#[test]
fn extension_extraction_matches_path_semantics() {
    assert_eq!(ext_of_name("00000000000000000000.jpeg"), "jpeg");
    assert_eq!(ext_of_name("noext"), "");
    assert_eq!(ext_of_name(".hidden"), "");
    assert_eq!(ext_of_name("dir/page.png"), "png");
    assert_eq!(ext_of_name("a.tar.gz"), "gz");
    assert_eq!(ext_of_name("trailing."), "");
}
