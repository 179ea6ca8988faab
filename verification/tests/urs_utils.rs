use std::path::PathBuf;

use urs_tree::fixups::urs_utils::{
    directory_path, filename_urs, incorrect_paths, int_to_urs, is_urs, looks_like_urs, path_for,
    uncompressed_path, urs_to_index, UrsError,
};

#[test]
fn matches_urs() {
    assert_eq!(looks_like_urs("URS00000001AAB82D"), false);
    assert_eq!(looks_like_urs("URS00000001B1"), true);
    assert_eq!(looks_like_urs("URS0000000362"), true);
}

#[test]
fn extracts_urs() {
    assert_eq!(
        filename_urs("a/b/URS0000000372..svg.gz"),
        Some("URS0000000372".to_string())
    );
    assert_eq!(
        filename_urs("URS0000000372.svg.gz"),
        Some("URS0000000372".to_string())
    );
    assert_eq!(
        filename_urs("URS0000000372.svg"),
        Some("URS0000000372".to_string())
    );
    assert_eq!(
        filename_urs("URS0000000372"),
        Some("URS0000000372".to_string())
    );
    assert_eq!(
        filename_urs("URS000042DD9D.colored.svg"),
        Some("URS000042DD9D".to_string())
    );
    assert_eq!(filename_urs("URS00000002D191B..svg.gz"), None);
    assert_eq!(filename_urs("URS00000002C67ED..svg.gz"), None);
    assert_eq!(filename_urs("URS00000002C67ED..svg"), None);
    assert_eq!(filename_urs("URS00000002C67ED."), None);
    assert_eq!(filename_urs("URS00000002C67ED"), None);
    assert_eq!(
        filename_urs("URS0000C2D164-E-Ser.colored.svg"),
        Some("URS0000C2D164".to_string())
    );
}

#[test]
fn creates_correct_final_path() {
    let mut result = PathBuf::from("foo");
    result.push("URS");
    result.push("00");
    result.push("00");
    result.push("00");
    result.push("03");
    result.push("URS0000000372");
    result.set_extension("svg.gz");
    assert_eq!(
        PathBuf::from(path_for("foo", &"URS0000000372".to_string())),
        result
    );
}

#[test]
fn encodes_known_indices() {
    assert_eq!(int_to_urs(12601134), Ok("URS0000C0472E".to_string()));
    assert_eq!(int_to_urs(1), Ok("URS0000000001".to_string()));
    assert_eq!(int_to_urs(0), Ok("URS0000000000".to_string()));
    assert_eq!(int_to_urs(0xFF_FFFF_FFFF), Ok("URSFFFFFFFFFF".to_string()));
}

#[test]
fn refuses_index_beyond_ten_digits() {
    assert_eq!(int_to_urs(0x100_0000_0000), Err(UrsError::EncodingOverflow));
    assert_eq!(int_to_urs(u64::MAX), Err(UrsError::EncodingOverflow));
}

#[test]
fn decodes_known_identifiers() {
    assert_eq!(urs_to_index("URS0000C0472E"), Ok(12601134));
    assert_eq!(urs_to_index("URS0000000001"), Ok(1));
    assert_eq!(urs_to_index("URS0000000121"), Ok(0x121));
    assert_eq!(urs_to_index("URSFFFFFFFFFF"), Ok(0xFF_FFFF_FFFF));
}

#[test]
fn refuses_malformed_identifiers() {
    assert_eq!(urs_to_index(""), Err(UrsError::MalformedIdentifier));
    assert_eq!(urs_to_index("URS"), Err(UrsError::MalformedIdentifier));
    assert_eq!(urs_to_index("URS000000000G"), Err(UrsError::MalformedIdentifier));
    assert_eq!(urs_to_index("URS0000c0472e"), Err(UrsError::MalformedIdentifier));
    assert_eq!(urs_to_index("URS00000000001"), Err(UrsError::MalformedIdentifier));
    assert_eq!(urs_to_index("URS000000001"), Err(UrsError::MalformedIdentifier));
    assert_eq!(urs_to_index("XRS0000000001"), Err(UrsError::MalformedIdentifier));
    assert_eq!(urs_to_index("urs0000000001"), Err(UrsError::MalformedIdentifier));
    assert_eq!(urs_to_index("URS000000000\u{e9}"), Err(UrsError::MalformedIdentifier));
}

#[test]
fn decoding_undoes_encoding() {
    let mut index: u64 = 0;
    while index < 0x100_0000_0000 {
        let urs = int_to_urs(index).unwrap();
        assert_eq!(urs.len(), 13);
        assert!(is_urs(&urs));
        assert_eq!(urs_to_index(&urs), Ok(index));
        index = index * 3 + 7;
    }
}

#[test]
fn tells_identifiers_from_longer_texts() {
    assert!(is_urs("URS0000000372"));
    assert!(!is_urs("XURS0000000372"));
    assert!(looks_like_urs("XURS0000000372"));
    assert!(!looks_like_urs("URS0000000372X"));
    assert!(!looks_like_urs(""));
}

#[test]
fn directory_has_four_two_digit_segments() {
    assert_eq!(directory_path("foo", "URS0123456789"), "foo/URS/01/23/45/67");
    assert_eq!(directory_path("foo/", "URS0123456789"), "foo/URS/01/23/45/67");
    assert_eq!(directory_path("", "URS0123456789"), "URS/01/23/45/67");
    assert_eq!(directory_path("/", "URSABCDEF0123"), "/URS/AB/CD/EF/01");
}

#[test]
fn names_the_places_of_an_identifier() {
    assert_eq!(
        uncompressed_path("foo", "URS0000000372"),
        "foo/URS/00/00/00/03/URS0000000372.svg"
    );
    assert_eq!(
        path_for("foo", "URS0000000372"),
        "foo/URS/00/00/00/03/URS0000000372.svg.gz"
    );
    assert_eq!(
        incorrect_paths("foo", "URS0000000372"),
        vec!["foo/URS/00/00/00/03/URS0000000372.svg..svg.gz".to_string()]
    );
}

#[test]
fn legacy_place_is_what_replacing_the_extension_gives() {
    let mut legacy = PathBuf::from(path_for("foo", "URS0000000372"));
    legacy.set_extension(".svg.gz");
    let listed: Vec<PathBuf> = incorrect_paths("foo", "URS0000000372")
        .into_iter()
        .map(PathBuf::from)
        .collect();
    assert_eq!(listed, vec![legacy]);
}

#[test]
fn strips_marks_wherever_they_stand() {
    assert_eq!(
        filename_urs("URS.gz0000.svg000372"),
        Some("URS0000000372".to_string())
    );
    assert_eq!(
        filename_urs("URS0000000372.svg..svg.gz"),
        Some("URS0000000372".to_string())
    );
    assert_eq!(
        filename_urs("XYZURS0000000372.svg"),
        Some("XYZURS0000000372".to_string())
    );
    assert_eq!(filename_urs("URS0000000372-"), None);
    assert_eq!(filename_urs("URS0000000372--"), Some("URS0000000372".to_string()));
    assert_eq!(filename_urs("-URS0000000372"), None);
    assert_eq!(filename_urs("URS0000000372/"), Some("URS0000000372".to_string()));
    assert_eq!(filename_urs("a/URS0000000372/."), Some("URS0000000372".to_string()));
    assert_eq!(filename_urs("URS0000000372/.."), None);
    assert_eq!(filename_urs("URS0000000372/x"), None);
    assert_eq!(filename_urs("URS0000000372-a\nb"), None);
    assert_eq!(filename_urs("a-b\nURS0000000372"), Some("a-b\nURS0000000372".to_string()));
    assert_eq!(filename_urs("a\nURS0000000372-b"), Some("a\nURS0000000372".to_string()));
    assert_eq!(filename_urs(""), None);
    assert_eq!(filename_urs("URS0000000372.txt"), None);
}
