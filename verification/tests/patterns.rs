use std::path::{Path, PathBuf};

use regex::Regex;
use urs_tree::coloring::{diagram_source, Packing, SourceError};
use urs_tree::fixups::urs_utils::{
    directory_path, file_name, filename_urs, int_to_urs, looks_like_urs, path_for,
    uncompressed_path,
};

const NAMES: [&str; 34] = [
    "URS0000000372\u{e9}.svg",
    "\u{e9}.gzURS0000000372",
    "\u{20ac}-URS0000000372",
    "URS0000000372-\u{20ac}",
    "URS0000000372-a\nb",
    "URS0000000372-a\n",
    "a-b\nURS0000000372",
    "a\nURS0000000372-b",
    "a-\nURS0000000372-b-c",
    "\nURS0000000372",
    "URS0000000372",
    "URS0000000372.svg",
    "URS0000000372.svg.gz",
    "URS0000000372..svg.gz",
    "URS0000000372.svg..svg.gz",
    "URS000042DD9D.colored.svg",
    "URS0000C2D164-E-Ser.colored.svg",
    "URS00000002D191B..svg.gz",
    "URS00000002C67ED.",
    "URS0000000372-",
    "URS0000000372--",
    "URS0000000372-x",
    "-URS0000000372",
    "a-URS0000000372",
    "xURS0000000372",
    "URS000000037",
    "URS000000037g",
    "urs0000000372",
    "URS0000000372.txt",
    "URS.gz0000000372",
    "URS0000000372.gz.gz",
    "...svg",
    "",
    "URS0000000372.svg.svg",
];

#[test]
fn suffix_test_agrees_with_the_regular_expression() {
    let pattern = Regex::new(r"URS[0-9A-F]{10}$").unwrap();
    for name in NAMES {
        assert_eq!(looks_like_urs(name), pattern.is_match(name), "{}", name);
    }
}

#[test]
fn stripping_agrees_with_replacing_by_regular_expression() {
    let pattern = Regex::new(r"URS[0-9A-F]{10}$").unwrap();
    let qualifier = Regex::new(r"-.+$").unwrap();
    for name in NAMES {
        let stripped = name
            .replace(".gz", "")
            .replace("..svg", "")
            .replace(".svg", "")
            .replace(".colored", "");
        let stripped = qualifier.replace(&stripped, "").to_string();
        let expected = if pattern.is_match(&stripped) { Some(stripped) } else { None };
        assert_eq!(filename_urs(name), expected, "{}", name);
        let below = format!("some/dir/{}", name);
        assert_eq!(filename_urs(&below), filename_urs(name), "{}", below);
    }
}

#[test]
fn file_name_is_the_last_component_of_the_path() {
    let dirs = ["", "/", "a/", "a/b/", "./", "../", "a//", "a/./", "/x/URS0000000372/"];
    let ends = ["", "/", "//", "/.", "/./", "/./.", "/.."];
    for dir in dirs {
        for name in NAMES {
            for end in ends {
                let path = format!("{}{}{}", dir, name, end);
                let last = Path::new(&path).file_name().and_then(|name| name.to_str());
                let expected = last.and_then(filename_urs);
                assert_eq!(filename_urs(&path), expected, "{:?}", path);
            }
        }
    }
}

#[test]
fn file_name_is_what_the_standard_library_takes_for_it() {
    let paths = [
        "a/b", "a/b/", "a/b//", "a/b/.", "a/b/./", "/", "", ".", "./", "./a", "a", "/a", "a.b/c.d",
        ".a", "a/.b", "a/b/./.", "//", "a//b",
    ];
    for path in paths {
        let expected = Path::new(path).file_name().and_then(|name| name.to_str()).unwrap_or("");
        assert_eq!(file_name(path), expected, "{:?}", path);
    }
}

#[test]
fn packing_goes_by_the_extension_of_the_file() {
    assert_eq!(
        diagram_source("a/URS0000000372.svg"),
        Ok(("URS0000000372".to_string(), Packing::Plain))
    );
    assert_eq!(
        diagram_source("a/URS0000000372.svg.gz"),
        Ok(("URS0000000372".to_string(), Packing::Gzip))
    );
    assert_eq!(
        diagram_source("URS0000000372.colored.svg/"),
        Ok(("URS0000000372".to_string(), Packing::Plain))
    );
    assert_eq!(diagram_source("a/URS0000000372"), Err(SourceError::NoExtension));
    assert_eq!(diagram_source("a/.gzURS0000000372"), Err(SourceError::NoExtension));
    assert_eq!(diagram_source("a/URS0000000372.svg.colored"), Err(SourceError::UnknownExtension));
    assert_eq!(diagram_source("a/URS0000000372.svg.gz.svg."), Err(SourceError::NoUrs));
    assert_eq!(diagram_source("a/URS0000000372-x.SVG"), Err(SourceError::UnknownExtension));
    assert_eq!(diagram_source("a/readme.svg"), Err(SourceError::NoUrs));
    assert_eq!(diagram_source("a/.."), Err(SourceError::NoUrs));
    for dir in ["", "x/", "/"] {
        for name in NAMES {
            let path = format!("{}{}", dir, name);
            let extension = Path::new(&path).extension().map(|e| e.to_str().unwrap().to_string());
            let expected = match (filename_urs(&path), extension.as_deref()) {
                (None, _) => Err(SourceError::NoUrs),
                (Some(_), None) => Err(SourceError::NoExtension),
                (Some(urs), Some("svg")) => Ok((urs, Packing::Plain)),
                (Some(urs), Some("gz")) => Ok((urs, Packing::Gzip)),
                (Some(_), Some(_)) => Err(SourceError::UnknownExtension),
            };
            assert_eq!(diagram_source(&path), expected, "{:?}", path);
        }
    }
}

#[test]
fn paths_agree_with_pushing_components() {
    for base in ["foo", "foo/", "/", "", "a/b", "./x"] {
        for index in [0u64, 1, 255, 256, 0x372, 12601134, 0xFF_FFFF_FFFF] {
            let urs = int_to_urs(index).unwrap();
            let mut expected = PathBuf::from(base);
            expected.push("URS");
            for at in [3, 5, 7, 9] {
                expected.push(&urs[at..at + 2]);
            }
            assert_eq!(PathBuf::from(directory_path(base, &urs)), expected);
            assert_eq!(directory_path(base, &urs), expected.to_str().unwrap());
            expected.push(&urs);
            expected.set_extension("svg");
            assert_eq!(uncompressed_path(base, &urs), expected.to_str().unwrap());
            expected.set_extension("svg.gz");
            assert_eq!(path_for(base, &urs), expected.to_str().unwrap());
        }
    }
}

#[test]
fn file_names_at_the_places_give_the_identifier_back() {
    for index in [0u64, 1, 0x372, 12601134, 0xFF_FFFF_FFFF] {
        let urs = int_to_urs(index).unwrap();
        assert_eq!(filename_urs(&path_for("foo", &urs)), Some(urs.clone()));
        assert_eq!(filename_urs(&uncompressed_path("foo", &urs)), Some(urs.clone()));
    }
}
