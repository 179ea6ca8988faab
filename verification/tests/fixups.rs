use urs_tree::fixups::urs_utils::{incorrect_paths, path_for, uncompressed_path};
use urs_tree::fixups::{
    compare_paths, load_required, report_entry, report_missing, RequiredSet, UrsStatus,
};

fn lines(texts: &[&str]) -> Vec<String> {
    texts.iter().map(|text| text.to_string()).collect()
}

fn drain(required: &mut RequiredSet) -> Vec<UrsStatus> {
    let mut statuses = Vec::new();
    while let Some(status) = report_missing(required) {
        statuses.push(status);
    }
    statuses
}

fn missing(urs: &str) -> UrsStatus {
    UrsStatus::MissingSvg { urs: urs.to_string() }
}

fn unknown(path: &str) -> UrsStatus {
    UrsStatus::UnknownFile { path: path.to_string() }
}

#[test]
fn required_set_takes_and_gives_one_by_one() {
    let mut required = RequiredSet::new();
    assert!(required.is_empty());
    assert_eq!(required.len(), 0);
    assert!(required.insert("URS0000000001".to_string()));
    assert!(required.insert("URS0000000002".to_string()));
    assert!(!required.insert("URS0000000001".to_string()));
    assert_eq!(required.len(), 2);
    assert!(required.contains("URS0000000001"));
    assert!(!required.contains("URS0000000003"));
    assert!(required.remove("URS0000000001"));
    assert!(!required.remove("URS0000000001"));
    assert!(!required.contains("URS0000000001"));
    assert_eq!(required.len(), 1);
    assert_eq!(required.take_first(), Some("URS0000000002".to_string()));
    assert_eq!(required.take_first(), None);
    assert!(required.is_empty());
}

#[test]
fn required_set_gives_in_the_order_of_putting_in() {
    let mut required = RequiredSet::new();
    required.insert("c".to_string());
    required.insert("a".to_string());
    required.insert("b".to_string());
    required.remove("a");
    required.insert("a".to_string());
    assert_eq!(required.take_first(), Some("c".to_string()));
    assert_eq!(required.take_first(), Some("a".to_string()));
    assert_eq!(required.take_first(), Some("b".to_string()));
    assert_eq!(required.take_first(), None);
    assert_eq!(required.take_first(), None);
}

#[test]
fn loading_trims_lines_and_drops_repeats() {
    let mut required = load_required(&lines(&[
        "URS0000000001",
        "  URS0000000002\t",
        "URS0000000001\r",
        "",
        "not an identifier",
        "\u{a0}URS0000000003\u{2003}",
    ]));
    assert_eq!(required.len(), 5);
    assert!(required.contains("URS0000000002"));
    assert!(required.contains("URS0000000003"));
    assert!(required.contains(""));
    assert!(required.contains("not an identifier"));
    assert_eq!(
        drain(&mut required),
        vec![
            missing("URS0000000001"),
            missing("URS0000000002"),
            missing(""),
            missing("not an identifier"),
            missing("URS0000000003"),
        ]
    );
}

#[test]
fn classifies_a_file_by_its_place() {
    let urs = "URS0000000372";
    let expected = path_for("foo", urs);
    assert_eq!(
        compare_paths("foo", urs, &expected),
        UrsStatus::CorrectSvg { urs: urs.to_string() }
    );
    let plain = uncompressed_path("foo", urs);
    assert_eq!(
        compare_paths("foo", urs, &plain),
        UrsStatus::CompressSvg {
            urs: urs.to_string(),
            found_at: plain.clone(),
            expected_path: expected.clone(),
        }
    );
    let legacy = incorrect_paths("foo", urs).remove(0);
    assert_eq!(legacy, "foo/URS/00/00/00/03/URS0000000372.svg..svg.gz");
    assert_eq!(
        compare_paths("foo", urs, &legacy),
        UrsStatus::RenameSvg {
            urs: urs.to_string(),
            found_at: legacy.clone(),
            expected_path: expected.clone(),
        }
    );
    assert_eq!(
        compare_paths("foo", urs, "foo/URS0000000372.svg.gz"),
        unknown("foo/URS0000000372.svg.gz")
    );
    assert_eq!(
        compare_paths("bar", urs, &expected),
        unknown("foo/URS/00/00/00/03/URS0000000372.svg.gz")
    );
    assert_eq!(
        compare_paths("foo", "XURS0000000372", "foo/x"),
        unknown("foo/x")
    );
}

#[test]
fn clean_tree_gives_correct_and_missing_only() {
    let ids = ["URS0000000001", "URS0000000002", "URS00000001FF", "URS0000C0472E"];
    let mut required = load_required(&lines(&ids));
    let mut statuses = Vec::new();
    for urs in ["URS0000C0472E", "URS0000000002"] {
        statuses.push(report_entry("tree", &mut required, &path_for("tree", urs)));
    }
    statuses.extend(drain(&mut required));
    assert_eq!(
        statuses,
        vec![
            UrsStatus::CorrectSvg { urs: "URS0000C0472E".to_string() },
            UrsStatus::CorrectSvg { urs: "URS0000000002".to_string() },
            missing("URS0000000001"),
            missing("URS00000001FF"),
        ]
    );
    assert_eq!(statuses.len(), ids.len());
}

#[test]
fn uncompressed_file_is_to_be_compressed_and_not_missing() {
    let mut required = load_required(&lines(&["URS0000000372"]));
    let plain = uncompressed_path("foo", "URS0000000372");
    assert_eq!(
        report_entry("foo", &mut required, &plain),
        UrsStatus::CompressSvg {
            urs: "URS0000000372".to_string(),
            found_at: "foo/URS/00/00/00/03/URS0000000372.svg".to_string(),
            expected_path: "foo/URS/00/00/00/03/URS0000000372.svg.gz".to_string(),
        }
    );
    assert_eq!(report_missing(&mut required), None);
}

#[test]
fn legacy_file_is_to_be_renamed() {
    let mut required = load_required(&lines(&["URS0000000372"]));
    let legacy = incorrect_paths("foo", "URS0000000372").remove(0);
    assert_eq!(
        report_entry("foo", &mut required, &legacy),
        UrsStatus::RenameSvg {
            urs: "URS0000000372".to_string(),
            found_at: "foo/URS/00/00/00/03/URS0000000372.svg..svg.gz".to_string(),
            expected_path: "foo/URS/00/00/00/03/URS0000000372.svg.gz".to_string(),
        }
    );
    assert_eq!(report_missing(&mut required), None);
}

#[test]
fn stray_entries_are_unknown_and_take_nothing() {
    let mut required = load_required(&lines(&["URS0000000372"]));
    for path in [
        "foo",
        "foo/URS",
        "foo/URS/00/00/00/03",
        "foo/readme.txt",
        "foo/URS/00/00/00/03/URS0000000373.svg.gz",
        "foo/URS00000002D191B..svg.gz",
    ] {
        assert_eq!(report_entry("foo", &mut required, path), unknown(path));
        assert_eq!(required.len(), 1);
    }
    assert_eq!(drain(&mut required), vec![missing("URS0000000372")]);
}

#[test]
fn second_entry_of_an_identifier_is_unknown() {
    let mut required = load_required(&lines(&["URS0000000372"]));
    let expected = path_for("foo", "URS0000000372");
    let plain = uncompressed_path("foo", "URS0000000372");
    assert_eq!(
        report_entry("foo", &mut required, &expected),
        UrsStatus::CorrectSvg { urs: "URS0000000372".to_string() }
    );
    assert_eq!(report_entry("foo", &mut required, &plain), unknown(&plain));
    assert_eq!(report_entry("foo", &mut required, &expected), unknown(&expected));
    assert_eq!(report_missing(&mut required), None);
}

#[test]
fn required_file_at_a_strange_place_is_unknown_and_not_missing() {
    let mut required = load_required(&lines(&["URS0000000372", "URS0000000373"]));
    assert_eq!(
        report_entry("foo", &mut required, "foo/elsewhere/URS0000000372.svg"),
        unknown("foo/elsewhere/URS0000000372.svg")
    );
    assert_eq!(drain(&mut required), vec![missing("URS0000000373")]);
}

#[test]
fn required_text_that_is_no_identifier_has_no_place() {
    let mut required = load_required(&lines(&["XURS0000000372"]));
    assert_eq!(
        report_entry("foo", &mut required, "foo/URS/RS/00/00/00/XURS0000000372.svg.gz"),
        unknown("foo/URS/RS/00/00/00/XURS0000000372.svg.gz")
    );
    assert_eq!(report_missing(&mut required), None);
}
