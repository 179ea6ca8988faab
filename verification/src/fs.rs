//! Planning the directories of a tree that has room for every identifier
//! below a given one.
use vstd::prelude::*;
use vstd::string::*;
use crate::fixups::urs_utils::{
    compressed_of, directory_of, directory_path, index_of, int_to_urs, is_urs,
    lemma_index_of_urs_of, lemma_same_directory, path_for, urs_of, urs_to_index, valid_urs,
    UrsError, INDEX_LIMIT,
};
use crate::text::{from_chars, texts, to_chars, trim_chars, trimmed};

verus! {

/// How many identifiers share one directory: those that differ in their
/// last two digits only.
pub const DIRECTORY_SPAN: u64 = 256;

/// The directories below `target` that hold the identifiers with an index
/// below `max`: one for every 256 indices, in rising order.
pub open spec fn planned(target: Seq<char>, max: nat) -> Seq<Seq<char>> {
    Seq::new(
        directories_below(max),
        |k: int| directory_of(target, urs_of((DIRECTORY_SPAN * k) as nat)),
    )
}

/// How many directories the indices below `max` need: `max / 256`, rounded
/// up.
pub open spec fn directories_below(max: nat) -> nat {
    ((max + DIRECTORY_SPAN - 1) / (DIRECTORY_SPAN as int)) as nat
}

/// Lists the directories below `target` that a tree needs to hold every
/// identifier before `max_urs`. Each directory is listed once. A `max_urs`
/// that is no identifier is refused.
pub fn generate_paths(max_urs: &str, target: &str) -> (r: Result<Vec<String>, UrsError>)
    ensures
        match r {
            Ok(paths) => valid_urs(max_urs@) && texts(paths@) == planned(
                target@,
                index_of(max_urs@),
            ),
            Err(e) => !valid_urs(max_urs@) && e == UrsError::MalformedIdentifier,
        },
{
    let max = match urs_to_index(max_urs) {
        Ok(max) => max,
        Err(e) => {
            return Err(e);
        },
    };
    let mut paths: Vec<String> = Vec::new();
    let mut index: u64 = 0;
    while index < max
        invariant
            max < INDEX_LIMIT,
            index == DIRECTORY_SPAN * paths.len(),
            index < max + DIRECTORY_SPAN,
            forall|k: int|
                0 <= k < paths.len() ==> #[trigger] paths@[k]@ == directory_of(
                    target@,
                    urs_of((DIRECTORY_SPAN * k) as nat),
                ),
        decreases max + DIRECTORY_SPAN - index,
    {
        let urs = int_to_urs(index).unwrap();
        paths.push(directory_path(target, urs.as_str()));
        index += DIRECTORY_SPAN;
    }
    assert(texts(paths@) == planned(target@, max as nat));
    Ok(paths)
}

/// The place below `base` of the diagram whose identifier stands on `line`
/// of a list. White space around the identifier is dropped; a line that
/// holds anything but an identifier is refused.
pub fn listed_path(base: &str, line: &str) -> (r: Result<String, UrsError>)
    ensures
        match r {
            Ok(path) => valid_urs(trimmed(line@)) && path@ == compressed_of(
                base@,
                trimmed(line@),
            ),
            Err(e) => !valid_urs(trimmed(line@)) && e == UrsError::MalformedIdentifier,
        },
{
    let inner = trim_chars(&to_chars(line));
    let urs = from_chars(&inner, 0, inner.len());
    assert(inner@.subrange(0, inner.len() as int) == inner@);
    if is_urs(urs.as_str()) {
        Ok(path_for(base, urs.as_str()))
    } else {
        Err(UrsError::MalformedIdentifier)
    }
}

/// The plan holds the directory of every identifier below the bound: that
/// of the index `index` is the one planned at position `index / 256`.
pub proof fn lemma_planned_covers(target: Seq<char>, max: nat, index: nat)
    requires
        index < max <= INDEX_LIMIT,
    ensures
        index / 256 < planned(target, max).len(),
        planned(target, max)[index as int / 256] == directory_of(target, urs_of(index)),
{
    let first = (256 * (index / 256)) as nat;
    lemma_index_of_urs_of(index);
    lemma_index_of_urs_of(first);
    lemma_same_directory(target, urs_of(index), urs_of(first));
}

/// No directory is planned twice.
pub proof fn lemma_planned_once(target: Seq<char>, max: nat)
    requires
        max <= INDEX_LIMIT,
    ensures
        planned(target, max).no_duplicates(),
{
    assert forall|j: int, k: int|
        0 <= j < planned(target, max).len() && 0 <= k < planned(target, max).len() && j
            != k implies planned(target, max)[j] != planned(target, max)[k] by {
        let a = (256 * j) as nat;
        let b = (256 * k) as nat;
        lemma_index_of_urs_of(a);
        lemma_index_of_urs_of(b);
        lemma_same_directory(target, urs_of(a), urs_of(b));
    }
}

} // verus!
