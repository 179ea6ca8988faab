use urs_tree::coloring::{
    class_change, is_class_key, is_text_element, is_valid_letter, Change, Counts,
};
use urs_tree::fixups::urs_utils::UrsError;
use urs_tree::results::{target_path, unescape, Cdmi, JsonDiagram, Renamer, TransferOptions};

fn pairs(records: &[(&str, &str)]) -> Option<Vec<(String, String)>> {
    Some(records.iter().map(|(old, new)| (old.to_string(), new.to_string())).collect())
}

fn diagram(urs: &str) -> JsonDiagram {
    JsonDiagram { urs: urs.to_string(), svg: "<svg/>".to_string() }
}

fn options(use_http: bool) -> TransferOptions {
    TransferOptions {
        host: "example.org".to_string(),
        access_token: "token".to_string(),
        remote_path: "test_data".to_string(),
        use_http,
    }
}

#[test]
fn renames_by_the_table() {
    let keep = Renamer::new(None);
    assert_eq!(keep.rename(&"URS0000000001".to_string()), Some("URS0000000001".to_string()));
    let table = Renamer::new(pairs(&[
        ("old1", "URS0000000001"),
        ("old2", "URS0000000002"),
        ("old1", "URS0000000003"),
    ]));
    assert_eq!(table.rename(&"old1".to_string()), Some("URS0000000003".to_string()));
    assert_eq!(table.rename(&"old2".to_string()), Some("URS0000000002".to_string()));
    assert_eq!(table.rename(&"URS0000000001".to_string()), None);
    let empty = Renamer::new(pairs(&[]));
    assert_eq!(empty.rename(&"old1".to_string()), None);
}

#[test]
fn names_the_place_to_write_to() {
    let keep = Renamer::new(None);
    assert_eq!(
        target_path(&diagram("URS0000000372"), &keep, "out"),
        Ok(Some("out/URS/00/00/00/03/URS0000000372.svg.gz".to_string()))
    );
    assert_eq!(
        target_path(&diagram("short"), &keep, "out"),
        Err(UrsError::MalformedIdentifier)
    );
    let table = Renamer::new(pairs(&[("a", "URS0000000372"), ("b", "nothing")]));
    assert_eq!(
        target_path(&diagram("a"), &table, "out"),
        Ok(Some("out/URS/00/00/00/03/URS0000000372.svg.gz".to_string()))
    );
    assert_eq!(target_path(&diagram("b"), &table, "out"), Err(UrsError::MalformedIdentifier));
    assert_eq!(target_path(&diagram("URS0000000372"), &table, "out"), Ok(None));
}

#[test]
fn picks_the_scheme_and_builds_the_address() {
    assert_eq!(options(true).scheme(), "http");
    assert_eq!(options(false).scheme(), "https");
    assert_eq!(
        options(false).object_url("URS0000000372.svg.gz"),
        "https://example.org/cdmi/RNA-Sequences/test_data/URS0000000372.svg.gz"
    );
    assert_eq!(
        options(true).object_url(""),
        "http://example.org/cdmi/RNA-Sequences/test_data/"
    );
}

#[test]
fn writes_file_content_in_base64() {
    assert_eq!(Cdmi::from_bytes(b"hello world").value, "aGVsbG8gd29ybGQ=");
    assert_eq!(Cdmi::from_bytes(b"").value, "");
    assert_eq!(Cdmi::from_bytes(&[0xfb, 0xff]).value, "+/8=");
    assert_eq!(Cdmi::try_from_bytes(b"hello").map(|body| body.value), Some("aGVsbG8=".to_string()));
}

#[test]
fn makes_doubled_backslashes_single() {
    assert_eq!(unescape(r"a\\b"), r"a\b");
    assert_eq!(unescape(r"a\\\b"), r"a\\b");
    assert_eq!(unescape(r"\\\\"), r"\\");
    assert_eq!(unescape(r"a\b"), r"a\b");
    assert_eq!(unescape(""), "");
    for line in [r"x\\\\\y", r"{\\n}", r"\\\u{e9}\\"] {
        assert_eq!(unescape(line), line.replace("\\\\", "\\"));
    }
}

#[test]
fn knows_the_letters_of_nucleotides() {
    for letter in ["A", "C", "G", "U", "X"] {
        assert!(is_valid_letter(letter.to_string()));
    }
    for other in ["", "T", "a", "AC", " A", "5'", "\u{c5}"] {
        assert!(!is_valid_letter(other.to_string()));
    }
}

#[test]
fn knows_the_elements_and_the_attribute_to_read() {
    assert!(is_text_element(b"text"));
    assert!(!is_text_element(b"tex"));
    assert!(!is_text_element(b"texts"));
    assert!(!is_text_element(b"Text"));
    assert!(!is_text_element(b""));
    assert!(is_class_key(b"class"));
    assert!(!is_class_key(b"clas"));
    assert!(!is_class_key(b"style"));
}

#[test]
fn knows_what_the_colours_say() {
    assert_eq!(class_change(b"green"), Some(Change::Changed));
    assert_eq!(class_change(b"black"), Some(Change::Unchanged));
    assert_eq!(class_change(b"red"), Some(Change::Inserted));
    assert_eq!(class_change(b"blue"), Some(Change::Moved));
    assert_eq!(class_change(b"brown"), Some(Change::Rotated));
    assert_eq!(class_change(b"Green"), None);
    assert_eq!(class_change(b"green "), None);
    assert_eq!(class_change(b"gree"), None);
    assert_eq!(class_change(b""), None);
    assert_eq!(class_change(&[0xff, 0xfe]), None);
}

#[test]
fn counts_letters_by_colour() {
    let mut counts = Counts::new("URS0000000372".to_string());
    for (text, class) in [
        ("A", "green"),
        ("C", "green"),
        ("G", "black"),
        ("U", "red"),
        ("X", "blue"),
        ("A", "brown"),
        ("A", "gray"),
        ("5'", "green"),
        ("T", "black"),
        ("C", "black"),
    ] {
        counts.record(text, class.as_bytes());
    }
    assert_eq!(counts.urs, "URS0000000372");
    assert_eq!(counts.changed, 2);
    assert_eq!(counts.unchanged, 2);
    assert_eq!(counts.inserted, 1);
    assert_eq!(counts.moved, 1);
    assert_eq!(counts.rotated, 1);
    assert_eq!(counts.total, 7);
}
