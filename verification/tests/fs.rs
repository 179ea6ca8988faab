use std::path::PathBuf;

use urs_tree::fixups::urs_utils::UrsError;
use urs_tree::fs::generate_paths;

fn as_paths(paths: Vec<String>) -> Vec<PathBuf> {
    paths.into_iter().map(PathBuf::from).collect()
}

#[test]
fn generates_expected_paths() {
    assert_eq!(
        as_paths(generate_paths(&String::from("URS0000000002"), "foo").unwrap()),
        vec![PathBuf::from("foo/URS/00/00/00/00")],
    );
    assert_eq!(
        as_paths(generate_paths(&String::from("URS0000000121"), "foo").unwrap()),
        vec![
            PathBuf::from("foo/URS/00/00/00/00"),
            PathBuf::from("foo/URS/00/00/00/01")
        ],
    );
}

#[test]
fn plans_nothing_below_the_first_identifier() {
    assert_eq!(generate_paths("URS0000000000", "foo"), Ok(vec![]));
}

#[test]
fn plans_one_directory_for_every_256_identifiers() {
    assert_eq!(generate_paths("URS0000000100", "foo").unwrap().len(), 1);
    assert_eq!(generate_paths("URS0000000101", "foo").unwrap().len(), 2);
    let paths = generate_paths("URS0000012345", "t").unwrap();
    assert_eq!(paths.len(), 0x124);
    assert_eq!(paths[0], "t/URS/00/00/00/00");
    assert_eq!(paths[0x123], "t/URS/00/00/01/23");
    let mut sorted = paths.clone();
    sorted.sort();
    sorted.dedup();
    assert_eq!(sorted.len(), paths.len());
}

#[test]
fn refuses_a_bound_that_is_no_identifier() {
    assert_eq!(generate_paths("URS12", "foo"), Err(UrsError::MalformedIdentifier));
    assert_eq!(generate_paths("", "foo"), Err(UrsError::MalformedIdentifier));
}
