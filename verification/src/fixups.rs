//! Auditing an existing tree of diagram files against the identifiers that
//! are required to exist.
//!
//! Every entry found in the tree gets one status, and so does, at the end,
//! every required identifier that no entry accounted for. The statuses say
//! what has to be done: nothing, compress, rename, or look by hand.
use vstd::prelude::*;
use vstd::hash_set::StringHashSet;
use vstd::string::*;
use crate::fixups::urs_utils::{
    compressed_of, filename_urs, incorrect_paths, is_urs, legacy_of, lemma_places_carry_urs,
    parsed_urs, path_for, uncompressed_of, uncompressed_path, valid_urs,
};
use crate::text::{from_chars, texts, to_chars, trim_chars, trimmed};

pub mod urs_utils;

verus! {

/// What the audit found out about one entry of the tree, or about one
/// required identifier that has no entry.
#[derive(Debug, PartialEq, Eq)]
pub enum UrsStatus {
    /// The diagram lies compressed where it belongs.
    CorrectSvg { urs: String },
    /// No entry of the tree accounted for the identifier.
    MissingSvg { urs: String },
    /// The diagram lies at a place that older runs used and has to be moved
    /// to `expected_path`.
    RenameSvg { urs: String, found_at: String, expected_path: String },
    /// The diagram lies where it belongs but has to be compressed into
    /// `expected_path`.
    CompressSvg { urs: String, found_at: String, expected_path: String },
    /// The entry is none of the files that the audit knows.
    UnknownFile { path: String },
}

/// A status with its texts as sequences of characters.
pub enum Status {
    CorrectSvg { urs: Seq<char> },
    MissingSvg { urs: Seq<char> },
    RenameSvg { urs: Seq<char>, found_at: Seq<char>, expected_path: Seq<char> },
    CompressSvg { urs: Seq<char>, found_at: Seq<char>, expected_path: Seq<char> },
    UnknownFile { path: Seq<char> },
}

impl View for UrsStatus {
    type V = Status;

    open spec fn view(&self) -> Status {
        match *self {
            UrsStatus::CorrectSvg { urs } => Status::CorrectSvg { urs: urs@ },
            UrsStatus::MissingSvg { urs } => Status::MissingSvg { urs: urs@ },
            UrsStatus::RenameSvg { urs, found_at, expected_path } => Status::RenameSvg {
                urs: urs@,
                found_at: found_at@,
                expected_path: expected_path@,
            },
            UrsStatus::CompressSvg { urs, found_at, expected_path } => Status::CompressSvg {
                urs: urs@,
                found_at: found_at@,
                expected_path: expected_path@,
            },
            UrsStatus::UnknownFile { path } => Status::UnknownFile { path: path@ },
        }
    }
}

/// The status of the file at `path` once it is known to carry the required
/// text `urs`. The compressed place is looked at first, then the
/// uncompressed one, then the places of older runs. A file anywhere else is
/// unknown. So is every file where `urs` is not an identifier in full, as
/// when text stands before `URS`: such a text has no place in the tree.
pub open spec fn status_at(base: Seq<char>, urs: Seq<char>, path: Seq<char>) -> Status {
    if !valid_urs(urs) {
        Status::UnknownFile { path }
    } else if path == compressed_of(base, urs) {
        Status::CorrectSvg { urs }
    } else if path == uncompressed_of(base, urs) {
        Status::CompressSvg { urs, found_at: path, expected_path: compressed_of(base, urs) }
    } else if legacy_of(base, urs).contains(path) {
        Status::RenameSvg { urs, found_at: path, expected_path: compressed_of(base, urs) }
    } else {
        Status::UnknownFile { path }
    }
}

/// Whether one of `paths` is `path`.
fn contains_path(paths: &Vec<String>, path: &String) -> (found: bool)
    ensures
        found == texts(paths@).contains(path@),
{
    let mut i: usize = 0;
    while i < paths.len()
        invariant
            i <= paths.len(),
            forall|j: int| 0 <= j < i ==> texts(paths@)[j] != path@,
        decreases paths.len() - i,
    {
        if paths[i] == *path {
            assert(texts(paths@)[i as int] == path@);
            return true;
        }
        i += 1;
    }
    false
}

/// Classifies the file at `path`, which carries the required identifier
/// `urs`, by the places that the identifier has below `base`.
pub fn compare_paths(base: &str, urs: &str, path: &str) -> (status: UrsStatus)
    ensures
        status@ == status_at(base@, urs@, path@),
{
    let found_at = String::from_str(path);
    if !is_urs(urs) {
        return UrsStatus::UnknownFile { path: found_at };
    }
    let expected_path = path_for(base, urs);
    if expected_path == found_at {
        return UrsStatus::CorrectSvg { urs: String::from_str(urs) };
    }
    let uncompressed = uncompressed_path(base, urs);
    if uncompressed == found_at {
        return UrsStatus::CompressSvg { urs: String::from_str(urs), found_at, expected_path };
    }
    let possible = incorrect_paths(base, urs);
    if contains_path(&possible, &found_at) {
        return UrsStatus::RenameSvg { urs: String::from_str(urs), found_at, expected_path };
    }
    UrsStatus::UnknownFile { path: found_at }
}

/// The identifiers that are required and that no entry of the tree has
/// accounted for yet.
///
/// Identifiers are put in, looked up and taken out one by one. Those that
/// are left can be asked for in the order in which they were put in.
pub struct RequiredSet {
    order: Vec<String>,
    waiting: StringHashSet,
    asked: usize,
}

/// The position of the first member of `pending` in `queue`, or the length
/// of `queue` where it holds none.
pub open spec fn first_pending(queue: Seq<Seq<char>>, pending: Set<Seq<char>>) -> int
    decreases queue.len(),
{
    if queue.len() == 0 {
        0
    } else if pending.contains(queue[0]) {
        0
    } else {
        1 + first_pending(queue.drop_first(), pending)
    }
}

/// `first_pending` stays within the queue, points at a member of `pending`
/// where it points into the queue, and passes over none.
pub proof fn lemma_first_pending(queue: Seq<Seq<char>>, pending: Set<Seq<char>>)
    ensures
        0 <= first_pending(queue, pending) <= queue.len(),
        first_pending(queue, pending) < queue.len() ==> pending.contains(
            queue[first_pending(queue, pending)],
        ),
        forall|j: int| 0 <= j < first_pending(queue, pending) ==> !pending.contains(queue[j]),
    decreases queue.len(),
{
    if queue.len() > 0 && !pending.contains(queue[0]) {
        let rest = queue.drop_first();
        lemma_first_pending(rest, pending);
        assert forall|j: int| 0 <= j < first_pending(queue, pending) implies !pending.contains(
            queue[j],
        ) by {
            if j > 0 {
                assert(queue[j] == rest[j - 1]);
            }
        }
    }
}

/// A set whose members all occur in one sequence is finite.
pub proof fn lemma_members_of_queue(queue: Seq<Seq<char>>, pending: Set<Seq<char>>)
    requires
        forall|urs: Seq<char>| #[trigger] pending.contains(urs) ==> queue.contains(urs),
    ensures
        pending.subset_of(queue.to_set()),
        pending.finite(),
{
    assert forall|urs: Seq<char>| pending.contains(urs) implies queue.to_set().contains(urs) by {
        assert(queue.contains(urs));
    }
    vstd::seq_lib::seq_to_set_is_finite(queue);
    vstd::set_lib::lemma_set_subset_finite(queue.to_set(), pending);
}

impl RequiredSet {
    /// What every set keeps to: each pending identifier stands in the queue.
    pub closed spec fn wf(&self) -> bool {
        &&& self.asked <= self.order.len()
        &&& forall|urs: Seq<char>| #[trigger]
            self.waiting@.contains(urs) ==> texts(self.order@).skip(self.asked as int).contains(urs)
    }

    /// Every pending identifier is in the queue, so there are finitely many.
    pub proof fn lemma_pending_in_queue(&self)
        requires
            self.wf(),
        ensures
            self.pending().subset_of(self.queue().to_set()),
            self.pending().finite(),
    {
        lemma_members_of_queue(self.queue(), self.pending());
    }

    /// The identifiers that are still required.
    pub closed spec fn pending(&self) -> Set<Seq<char>> {
        self.waiting@
    }

    /// The order in which identifiers will be asked for. Every pending
    /// identifier is in it; one that was taken out since may still be.
    pub closed spec fn queue(&self) -> Seq<Seq<char>> {
        texts(self.order@).skip(self.asked as int)
    }

    /// A set that requires nothing.
    pub fn new() -> (required: Self)
        ensures
            required.wf(),
            required.pending() == Set::<Seq<char>>::empty(),
            required.queue() == Seq::<Seq<char>>::empty(),
    {
        let required = RequiredSet { order: Vec::new(), waiting: StringHashSet::new(), asked: 0 };
        assert(required.queue() == Seq::<Seq<char>>::empty());
        required
    }

    /// How many identifiers are still required.
    pub fn len(&self) -> (count: usize)
        ensures
            count == self.pending().len(),
    {
        self.waiting.len()
    }

    /// Whether nothing is required any more.
    pub fn is_empty(&self) -> (empty: bool)
        requires
            self.wf(),
        ensures
            empty == (self.pending().len() == 0),
            empty == (self.pending() == Set::<Seq<char>>::empty()),
    {
        proof {
            self.lemma_pending_in_queue();
            if self.pending().len() == 0 {
                self.pending().lemma_len0_is_empty();
            }
        }
        self.waiting.len() == 0
    }

    /// Whether `urs` is still required.
    pub fn contains(&self, urs: &str) -> (found: bool)
        ensures
            found == self.pending().contains(urs@),
    {
        self.waiting.contains(urs)
    }

    /// Requires `urs`. Says whether it was not required before; only then
    /// does it join the end of the queue.
    pub fn insert(&mut self, urs: String) -> (added: bool)
        requires
            old(self).wf(),
        ensures
            final(self).wf(),
            added == !old(self).pending().contains(urs@),
            final(self).pending() == old(self).pending().insert(urs@),
            final(self).queue() == if added {
                old(self).queue().push(urs@)
            } else {
                old(self).queue()
            },
    {
        if self.waiting.contains(urs.as_str()) {
            assert(self.waiting@.insert(urs@) == self.waiting@);
            return false;
        }
        let ghost before = texts(self.order@).skip(self.asked as int);
        self.order.push(urs.clone());
        assert(texts(self.order@).skip(self.asked as int) == before.push(urs@));
        self.waiting.insert(urs);
        proof {
            assert forall|other: Seq<char>| #[trigger]
                self.waiting@.contains(other) implies before.push(urs@).contains(other) by {
                if other == urs@ {
                    assert(before.push(urs@)[before.len() as int] == other);
                } else {
                    assert(before.contains(other));
                    let i = choose|i: int| 0 <= i < before.len() && before[i] == other;
                    assert(before.push(urs@)[i] == other);
                }
            }
        }
        true
    }

    /// Takes `urs` out. Says whether it was required; the queue stays as it
    /// is.
    pub fn remove(&mut self, urs: &str) -> (found: bool)
        requires
            old(self).wf(),
        ensures
            final(self).wf(),
            found == old(self).pending().contains(urs@),
            final(self).pending() == old(self).pending().remove(urs@),
            final(self).queue() == old(self).queue(),
    {
        self.waiting.remove(urs)
    }

    /// Takes out the pending identifier that comes first in the queue, and
    /// with it all of the queue up to and including it. Gives `None` where
    /// nothing is pending; the queue is then used up.
    pub fn take_first(&mut self) -> (first: Option<String>)
        requires
            old(self).wf(),
        ensures
            final(self).wf(),
            ({
                let at = first_pending(old(self).queue(), old(self).pending());
                match first {
                    Some(urs) => {
                        &&& at < old(self).queue().len()
                        &&& urs@ == old(self).queue()[at]
                        &&& old(self).pending().contains(urs@)
                        &&& final(self).pending() == old(self).pending().remove(urs@)
                        &&& final(self).queue() == old(self).queue().skip(at + 1)
                    },
                    None => {
                        &&& at == old(self).queue().len()
                        &&& old(self).pending() == Set::<Seq<char>>::empty()
                        &&& final(self).pending() == old(self).pending()
                        &&& final(self).queue() == Seq::<Seq<char>>::empty()
                    },
                }
            }),
    {
        let ghost queue = texts(self.order@).skip(self.asked as int);
        let ghost pending = self.waiting@;
        let ghost start = self.asked;
        while self.asked < self.order.len()
            invariant
                start == old(self).asked,
                start <= self.asked <= self.order.len(),
                self.order@ == old(self).order@,
                pending == old(self).waiting@,
                self.waiting@ == pending,
                queue == texts(self.order@).skip(start as int),
                first_pending(queue, pending) == (self.asked - start) + first_pending(
                    texts(self.order@).skip(self.asked as int),
                    pending,
                ),
                forall|urs: Seq<char>| #[trigger]
                    pending.contains(urs) ==> texts(self.order@).skip(self.asked as int).contains(
                        urs,
                    ),
            decreases self.order.len() - self.asked,
        {
            let ghost rest = texts(self.order@).skip(self.asked as int);
            assert(rest[0] == self.order@[self.asked as int]@);
            assert(rest.drop_first() == texts(self.order@).skip(self.asked + 1));
            let urs = self.order[self.asked].clone();
            if self.waiting.remove(urs.as_str()) {
                self.asked += 1;
                proof {
                    let at = self.asked - start - 1;
                    assert(first_pending(rest, pending) == 0);
                    assert(first_pending(queue, pending) == at);
                    assert(queue[at] == rest[0]);
                    assert(queue.skip(at + 1) == texts(self.order@).skip(self.asked as int));
                    assert forall|other: Seq<char>| #[trigger]
                        self.waiting@.contains(other) implies texts(self.order@).skip(
                        self.asked as int,
                    ).contains(other) by {
                        assert(rest.contains(other));
                        let i = choose|i: int| 0 <= i < rest.len() && rest[i] == other;
                        assert(rest.drop_first()[i - 1] == other);
                    }
                }
                return Some(urs);
            }
            proof {
                assert(self.waiting@ == pending);
                assert forall|other: Seq<char>| #[trigger]
                    pending.contains(other) implies rest.drop_first().contains(other) by {
                    assert(rest.contains(other));
                    let i = choose|i: int| 0 <= i < rest.len() && rest[i] == other;
                    assert(rest.drop_first()[i - 1] == other);
                }
            }
            self.asked += 1;
        }
        proof {
            let rest = texts(self.order@).skip(self.asked as int);
            assert(rest == Seq::<Seq<char>>::empty());
            assert forall|urs: Seq<char>| !pending.contains(urs) by {
                if pending.contains(urs) {
                    assert(rest.contains(urs));
                }
            }
            assert(pending == Set::<Seq<char>>::empty());
            assert(queue.len() == self.order.len() - start);
        }
        None
    }
}

/// The queue that loading `lines` gives: each line without the white space
/// around it, in the order of the lines, a repeated one only where it stands
/// first.
pub open spec fn loaded_queue(lines: Seq<Seq<char>>) -> Seq<Seq<char>>
    decreases lines.len(),
{
    if lines.len() == 0 {
        Seq::empty()
    } else {
        let before = loaded_queue(lines.drop_last());
        let urs = trimmed(lines.last());
        if before.contains(urs) {
            before
        } else {
            before.push(urs)
        }
    }
}

/// Loading keeps every line, without the white space around it, once.
pub proof fn lemma_loaded_queue(lines: Seq<Seq<char>>)
    ensures
        loaded_queue(lines).no_duplicates(),
        loaded_queue(lines).len() <= lines.len(),
        forall|i: int|
            0 <= i < lines.len() ==> loaded_queue(lines).contains(trimmed(#[trigger] lines[i])),
        forall|k: int|
            0 <= k < loaded_queue(lines).len() ==> exists|i: int|
                0 <= i < lines.len() && trimmed(lines[i]) == #[trigger] loaded_queue(lines)[k],
    decreases lines.len(),
{
    if lines.len() > 0 {
        let front = lines.drop_last();
        let before = loaded_queue(front);
        let queue = loaded_queue(lines);
        let urs = trimmed(lines.last());
        lemma_loaded_queue(front);
        assert forall|i: int| 0 <= i < lines.len() implies queue.contains(
            trimmed(#[trigger] lines[i]),
        ) by {
            if i < front.len() {
                assert(front[i] == lines[i]);
                assert(before.contains(trimmed(front[i])));
                let k = choose|k: int| 0 <= k < before.len() && before[k] == trimmed(front[i]);
                assert(queue[k] == trimmed(lines[i]));
            } else if before.contains(urs) {
            } else {
                assert(queue[before.len() as int] == urs);
            }
        }
        assert forall|k: int| 0 <= k < queue.len() implies exists|i: int|
            0 <= i < lines.len() && trimmed(lines[i]) == #[trigger] queue[k] by {
            if k < before.len() {
                let i = choose|i: int| 0 <= i < front.len() && trimmed(front[i]) == before[k];
                assert(lines[i] == front[i]);
            } else {
                assert(trimmed(lines[lines.len() - 1]) == queue[k]);
            }
        }
    }
}

/// Makes the set of required identifiers from the lines of a list, one
/// identifier to a line. White space around an identifier is dropped; a
/// line that repeats an earlier one adds nothing. Lines are taken as they
/// are: one that is no identifier is required all the same and will be
/// found missing.
pub fn load_required(lines: &Vec<String>) -> (required: RequiredSet)
    ensures
        required.wf(),
        required.queue() == loaded_queue(texts(lines@)),
        required.pending() == loaded_queue(texts(lines@)).to_set(),
{
    let mut required = RequiredSet::new();
    let mut i: usize = 0;
    assert(texts(lines@).take(0) == Seq::<Seq<char>>::empty());
    assert(Seq::<Seq<char>>::empty().to_set() == Set::<Seq<char>>::empty());
    while i < lines.len()
        invariant
            i <= lines.len(),
            required.wf(),
            required.queue() == loaded_queue(texts(lines@).take(i as int)),
            required.pending() == required.queue().to_set(),
        decreases lines.len() - i,
    {
        let chars = to_chars(lines[i].as_str());
        let inner = trim_chars(&chars);
        let urs = from_chars(&inner, 0, inner.len());
        proof {
            let read = texts(lines@).take(i + 1);
            assert(inner@.subrange(0, inner.len() as int) == inner@);
            assert(read.drop_last() == texts(lines@).take(i as int));
            assert(read.last() == lines@[i as int]@);
            assert(urs@ == trimmed(read.last()));
            let before = required.queue();
            before.lemma_push_to_set_commute(urs@);
        }
        required.insert(urs);
        i += 1;
    }
    assert(texts(lines@).take(lines.len() as int) == texts(lines@));
    required
}

/// The status of the entry at `path` while `pending` is still required. An
/// entry counts only where its name carries an identifier that is pending;
/// every other entry is unknown.
pub open spec fn entry_status(base: Seq<char>, pending: Set<Seq<char>>, path: Seq<char>) -> Status {
    match parsed_urs(path) {
        Some(urs) => if pending.contains(urs) {
            status_at(base, urs, path)
        } else {
            Status::UnknownFile { path }
        },
        None => Status::UnknownFile { path },
    }
}

/// What is still required after the entry at `path` was seen: the
/// identifier that its name carries is accounted for.
pub open spec fn pending_after(pending: Set<Seq<char>>, path: Seq<char>) -> Set<Seq<char>> {
    match parsed_urs(path) {
        Some(urs) => pending.remove(urs),
        None => pending,
    }
}

/// The statuses of the required identifiers that are left: one
/// `MissingSvg` for each member of `pending`, in the order of `queue`.
pub open spec fn missing_statuses(queue: Seq<Seq<char>>, pending: Set<Seq<char>>) -> Seq<Status>
    decreases queue.len(),
{
    if queue.len() == 0 {
        Seq::empty()
    } else if pending.contains(queue[0]) {
        seq![Status::MissingSvg { urs: queue[0] }] + missing_statuses(
            queue.drop_first(),
            pending.remove(queue[0]),
        )
    } else {
        missing_statuses(queue.drop_first(), pending)
    }
}

/// Gives the status of one entry of the tree and takes the identifier that
/// it accounts for out of `required`. A second entry with the same
/// identifier finds it gone and is unknown.
pub fn report_entry(base: &str, required: &mut RequiredSet, path: &str) -> (status: UrsStatus)
    requires
        old(required).wf(),
    ensures
        final(required).wf(),
        status@ == entry_status(base@, old(required).pending(), path@),
        final(required).pending() == pending_after(old(required).pending(), path@),
        final(required).queue() == old(required).queue(),
{
    match filename_urs(path) {
        None => UrsStatus::UnknownFile { path: String::from_str(path) },
        Some(urs) => {
            if required.remove(urs.as_str()) {
                compare_paths(base, urs.as_str(), path)
            } else {
                assert(old(required).pending().remove(urs@) == old(required).pending());
                UrsStatus::UnknownFile { path: String::from_str(path) }
            }
        },
    }
}

/// Skipping the part of the queue that holds nothing pending changes no
/// missing status.
pub proof fn lemma_missing_skips(queue: Seq<Seq<char>>, pending: Set<Seq<char>>, upto: int)
    requires
        0 <= upto <= queue.len(),
        forall|j: int| 0 <= j < upto ==> !pending.contains(queue[j]),
    ensures
        missing_statuses(queue, pending) == missing_statuses(queue.skip(upto), pending),
    decreases upto,
{
    if upto == 0 {
        assert(queue.skip(0) == queue);
    } else {
        let rest = queue.drop_first();
        assert forall|j: int| 0 <= j < upto - 1 implies !pending.contains(rest[j]) by {
            assert(rest[j] == queue[j + 1]);
        }
        lemma_missing_skips(rest, pending, upto - 1);
        assert(rest.skip(upto - 1) == queue.skip(upto));
    }
}

/// Gives the status of the next required identifier that no entry accounted
/// for, and `None` when there is none left. Called again and again after
/// the last entry, it gives `missing_statuses` one by one.
pub fn report_missing(required: &mut RequiredSet) -> (status: Option<UrsStatus>)
    requires
        old(required).wf(),
    ensures
        final(required).wf(),
        match status {
            Some(missing) => {
                let at = first_pending(old(required).queue(), old(required).pending());
                &&& at < old(required).queue().len()
                &&& missing@ == Status::MissingSvg { urs: old(required).queue()[at] }
                &&& old(required).pending().contains(old(required).queue()[at])
                &&& final(required).pending() == old(required).pending().remove(
                    old(required).queue()[at],
                )
                &&& final(required).queue() == old(required).queue().skip(at + 1)
                &&& missing_statuses(old(required).queue(), old(required).pending()) == seq![
                    missing@,
                ] + missing_statuses(final(required).queue(), final(required).pending())
            },
            None => {
                &&& old(required).pending() == Set::<Seq<char>>::empty()
                &&& final(required).pending() == old(required).pending()
                &&& final(required).queue() == Seq::<Seq<char>>::empty()
                &&& missing_statuses(old(required).queue(), old(required).pending())
                    == Seq::<Status>::empty()
            },
        },
{
    let ghost queue = required.queue();
    let ghost pending = required.pending();
    proof {
        lemma_first_pending(queue, pending);
        lemma_missing_skips(queue, pending, first_pending(queue, pending));
    }
    match required.take_first() {
        Some(urs) => {
            proof {
                let at = first_pending(queue, pending);
                let rest = queue.skip(at);
                assert(rest[0] == queue[at]);
                assert(rest.drop_first() == queue.skip(at + 1));
            }
            Some(UrsStatus::MissingSvg { urs })
        },
        None => {
            assert(queue.skip(queue.len() as int) == Seq::<Seq<char>>::empty());
            None
        },
    }
}

/// The statuses of the entries at `paths`, seen one after the other while
/// `pending` is required at the start.
pub open spec fn walk_statuses(base: Seq<char>, pending: Set<Seq<char>>, paths: Seq<Seq<char>>)
    -> Seq<Status>
    decreases paths.len(),
{
    if paths.len() == 0 {
        Seq::empty()
    } else {
        seq![entry_status(base, pending, paths[0])] + walk_statuses(
            base,
            pending_after(pending, paths[0]),
            paths.drop_first(),
        )
    }
}

/// What is still required once the entries at `paths` were seen.
pub open spec fn walk_pending(pending: Set<Seq<char>>, paths: Seq<Seq<char>>) -> Set<Seq<char>>
    decreases paths.len(),
{
    if paths.len() == 0 {
        pending
    } else {
        walk_pending(pending_after(pending, paths[0]), paths.drop_first())
    }
}

/// All statuses of an audit: those of the entries, then those of the
/// identifiers that are left.
pub open spec fn report(
    base: Seq<char>,
    queue: Seq<Seq<char>>,
    pending: Set<Seq<char>>,
    paths: Seq<Seq<char>>,
) -> Seq<Status> {
    walk_statuses(base, pending, paths) + missing_statuses(queue, walk_pending(pending, paths))
}

/// Whether the entry `paths[i]` is the first of `paths` whose name carries
/// the identifier `urs`.
pub open spec fn first_with(paths: Seq<Seq<char>>, i: int, urs: Seq<char>) -> bool {
    &&& parsed_urs(paths[i]) == Some(urs)
    &&& forall|j: int| 0 <= j < i ==> parsed_urs(#[trigger] paths[j]) != Some(urs)
}

/// The three kinds of place of an identifier are different paths.
pub proof fn lemma_places_differ(base: Seq<char>, urs: Seq<char>)
    ensures
        compressed_of(base, urs) != uncompressed_of(base, urs),
        !legacy_of(base, urs).contains(compressed_of(base, urs)),
        !legacy_of(base, urs).contains(uncompressed_of(base, urs)),
{
    assert(compressed_of(base, urs).len() == uncompressed_of(base, urs).len() + 3);
    assert(legacy_of(base, urs)[0].len() == uncompressed_of(base, urs).len() + 8);
}

/// An entry whose name carries no identifier, or one that is not pending,
/// is unknown, and nothing that is pending changes.
pub proof fn lemma_stray_entry_is_unknown(
    base: Seq<char>,
    pending: Set<Seq<char>>,
    path: Seq<char>,
)
    requires
        match parsed_urs(path) {
            Some(urs) => !pending.contains(urs),
            None => true,
        },
    ensures
        entry_status(base, pending, path) == (Status::UnknownFile { path }),
        pending_after(pending, path) == pending,
{
    if let Some(urs) = parsed_urs(path) {
        assert(pending.remove(urs) == pending);
    }
}

/// A pending identifier with its file at the compressed place is correct,
/// and is pending no more.
pub proof fn lemma_compressed_entry_is_correct(
    base: Seq<char>,
    pending: Set<Seq<char>>,
    urs: Seq<char>,
)
    requires
        valid_urs(urs),
        pending.contains(urs),
    ensures
        entry_status(base, pending, compressed_of(base, urs)) == (Status::CorrectSvg { urs }),
        pending_after(pending, compressed_of(base, urs)) == pending.remove(urs),
{
    lemma_places_carry_urs(base, urs);
}

/// A pending identifier with its file at the uncompressed place is to be
/// compressed into the compressed place, and is pending no more, so that it
/// will not be found missing.
pub proof fn lemma_uncompressed_entry_is_compress(
    base: Seq<char>,
    pending: Set<Seq<char>>,
    urs: Seq<char>,
)
    requires
        valid_urs(urs),
        pending.contains(urs),
    ensures
        entry_status(base, pending, uncompressed_of(base, urs)) == (Status::CompressSvg {
            urs,
            found_at: uncompressed_of(base, urs),
            expected_path: compressed_of(base, urs),
        }),
        pending_after(pending, uncompressed_of(base, urs)) == pending.remove(urs),
        !pending_after(pending, uncompressed_of(base, urs)).contains(urs),
{
    lemma_places_carry_urs(base, urs);
    lemma_places_differ(base, urs);
}

/// A pending identifier with its file at a place of older runs is to be
/// renamed to the compressed place, and is pending no more.
pub proof fn lemma_legacy_entry_is_rename(
    base: Seq<char>,
    pending: Set<Seq<char>>,
    urs: Seq<char>,
    i: int,
)
    requires
        valid_urs(urs),
        pending.contains(urs),
        0 <= i < legacy_of(base, urs).len(),
    ensures
        entry_status(base, pending, legacy_of(base, urs)[i]) == (Status::RenameSvg {
            urs,
            found_at: legacy_of(base, urs)[i],
            expected_path: compressed_of(base, urs),
        }),
        pending_after(pending, legacy_of(base, urs)[i]) == pending.remove(urs),
        !pending_after(pending, legacy_of(base, urs)[i]).contains(urs),
{
    lemma_places_carry_urs(base, urs);
    lemma_places_differ(base, urs);
    let path = legacy_of(base, urs)[i];
    assert(legacy_of(base, urs).contains(path));
}

/// The status that the entry `paths[i]` gets in a walk that starts with
/// `pending`: the first entry whose name carries a pending identifier is
/// classified by its place, and every other entry is unknown.
pub open spec fn status_in_walk(
    base: Seq<char>,
    pending: Set<Seq<char>>,
    paths: Seq<Seq<char>>,
    i: int,
) -> Status {
    match parsed_urs(paths[i]) {
        Some(urs) => if pending.contains(urs) && first_with(paths, i, urs) {
            status_at(base, urs, paths[i])
        } else {
            Status::UnknownFile { path: paths[i] }
        },
        None => Status::UnknownFile { path: paths[i] },
    }
}

/// Every entry gets one status, which is the one that `status_in_walk`
/// states.
pub proof fn lemma_walk_statuses(base: Seq<char>, pending: Set<Seq<char>>, paths: Seq<Seq<char>>)
    ensures
        walk_statuses(base, pending, paths).len() == paths.len(),
        forall|i: int|
            0 <= i < paths.len() ==> #[trigger] walk_statuses(base, pending, paths)[i]
                == status_in_walk(base, pending, paths, i),
    decreases paths.len(),
{
    if paths.len() > 0 {
        let rest = paths.drop_first();
        let after = pending_after(pending, paths[0]);
        lemma_walk_statuses(base, after, rest);
        let statuses = walk_statuses(base, pending, paths);
        assert forall|i: int| 0 <= i < paths.len() implies #[trigger] statuses[i]
            == status_in_walk(base, pending, paths, i) by {
            if i > 0 {
                assert(statuses[i] == walk_statuses(base, after, rest)[i - 1]);
                assert(statuses[i] == status_in_walk(base, after, rest, i - 1));
                assert(rest[i - 1] == paths[i]);
                if let Some(urs) = parsed_urs(paths[i]) {
                    if first_with(paths, i, urs) {
                        assert forall|j: int| 0 <= j < i - 1 implies parsed_urs(
                            #[trigger] rest[j],
                        ) != Some(urs) by {
                            assert(rest[j] == paths[j + 1]);
                        }
                        assert(parsed_urs(paths[0]) != Some(urs));
                    }
                    if first_with(rest, i - 1, urs) && after.contains(urs) {
                        assert forall|j: int| 0 <= j < i implies parsed_urs(#[trigger] paths[j])
                            != Some(urs) by {
                            if j > 0 {
                                assert(paths[j] == rest[j - 1]);
                            }
                        }
                    }
                }
            }
        }
    }
}

/// An identifier is pending after the walk where it was pending before and
/// the name of no entry carried it.
pub proof fn lemma_walk_pending(pending: Set<Seq<char>>, paths: Seq<Seq<char>>)
    ensures
        forall|urs: Seq<char>| #[trigger]
            walk_pending(pending, paths).contains(urs) <==> pending.contains(urs) && forall|
                i: int,
            |
                0 <= i < paths.len() ==> parsed_urs(#[trigger] paths[i]) != Some(urs),
        walk_pending(pending, paths).subset_of(pending),
    decreases paths.len(),
{
    if paths.len() > 0 {
        let rest = paths.drop_first();
        let after = pending_after(pending, paths[0]);
        lemma_walk_pending(after, rest);
        assert forall|urs: Seq<char>| #[trigger]
            walk_pending(pending, paths).contains(urs) <==> pending.contains(urs) && forall|
                i: int,
            |
                0 <= i < paths.len() ==> parsed_urs(#[trigger] paths[i]) != Some(urs) by {
            if walk_pending(pending, paths).contains(urs) {
                assert forall|i: int| 0 <= i < paths.len() implies parsed_urs(
                    #[trigger] paths[i],
                ) != Some(urs) by {
                    if i > 0 {
                        assert(paths[i] == rest[i - 1]);
                    }
                }
            }
            if pending.contains(urs) && forall|i: int|
                0 <= i < paths.len() ==> parsed_urs(#[trigger] paths[i]) != Some(urs) {
                assert(parsed_urs(paths[0]) != Some(urs));
                assert forall|i: int| 0 <= i < rest.len() implies parsed_urs(#[trigger] rest[i])
                    != Some(urs) by {
                    assert(rest[i] == paths[i + 1]);
                }
            }
        }
    }
}

/// Every status of the identifiers that are left is a `MissingSvg` that
/// names a pending identifier.
pub proof fn lemma_missing_names_pending(queue: Seq<Seq<char>>, pending: Set<Seq<char>>)
    ensures
        forall|k: int|
            0 <= k < missing_statuses(queue, pending).len() ==> {
                let status = #[trigger] missing_statuses(queue, pending)[k];
                status is MissingSvg && pending.contains(status->MissingSvg_urs)
            },
    decreases queue.len(),
{
    if queue.len() > 0 {
        let rest = queue.drop_first();
        let missing = missing_statuses(queue, pending);
        if pending.contains(queue[0]) {
            let later = missing_statuses(rest, pending.remove(queue[0]));
            lemma_missing_names_pending(rest, pending.remove(queue[0]));
            assert forall|k: int| 0 <= k < missing.len() implies {
                let status = #[trigger] missing[k];
                status is MissingSvg && pending.contains(status->MissingSvg_urs)
            } by {
                if k > 0 {
                    assert(missing[k] == later[k - 1]);
                }
            }
        } else {
            lemma_missing_names_pending(rest, pending);
        }
    }
}

/// The identifiers that are left get one `MissingSvg` each: the statuses
/// are as many as the pending identifiers, no two are the same, and each
/// pending identifier is named.
pub proof fn lemma_missing_statuses(queue: Seq<Seq<char>>, pending: Set<Seq<char>>)
    requires
        forall|urs: Seq<char>| #[trigger] pending.contains(urs) ==> queue.contains(urs),
    ensures
        pending.finite(),
        missing_statuses(queue, pending).len() == pending.len(),
        missing_statuses(queue, pending).no_duplicates(),
        forall|urs: Seq<char>| #[trigger]
            pending.contains(urs) ==> missing_statuses(queue, pending).contains(
                Status::MissingSvg { urs },
            ),
    decreases queue.len(),
{
    lemma_members_of_queue(queue, pending);
    if queue.len() == 0 {
        assert forall|urs: Seq<char>| !pending.contains(urs) by {
            if pending.contains(urs) {
                assert(queue.contains(urs));
            }
        }
        assert(pending == Set::<Seq<char>>::empty());
    } else {
        let rest = queue.drop_first();
        let left = if pending.contains(queue[0]) {
            pending.remove(queue[0])
        } else {
            pending
        };
        assert forall|urs: Seq<char>| #[trigger] left.contains(urs) implies rest.contains(urs) by {
            assert(queue.contains(urs));
            let i = choose|i: int| 0 <= i < queue.len() && queue[i] == urs;
            assert(rest[i - 1] == urs);
        }
        lemma_missing_statuses(rest, left);
        lemma_missing_names_pending(rest, left);
        let missing = missing_statuses(queue, pending);
        let later = missing_statuses(rest, left);
        if pending.contains(queue[0]) {
            assert(missing == seq![Status::MissingSvg { urs: queue[0] }] + later);
            assert forall|j: int, k: int|
                0 <= j < missing.len() && 0 <= k < missing.len() && j != k implies missing[j]
                != missing[k] by {
                if j > 0 {
                    assert(missing[j] == later[j - 1]);
                }
                if k > 0 {
                    assert(missing[k] == later[k - 1]);
                }
            }
            assert forall|urs: Seq<char>| #[trigger] pending.contains(urs) implies missing.contains(
                Status::MissingSvg { urs },
            ) by {
                if urs == queue[0] {
                    assert(missing[0] == Status::MissingSvg { urs });
                } else {
                    assert(later.contains(Status::MissingSvg { urs }));
                    let k = choose|k: int|
                        0 <= k < later.len() && later[k] == (Status::MissingSvg { urs });
                    assert(missing[k + 1] == Status::MissingSvg { urs });
                }
            }
        }
    }
}

/// An identifier that the name of some entry carried is not found missing,
/// whatever else the tree holds.
pub proof fn lemma_seen_is_not_missing(
    queue: Seq<Seq<char>>,
    pending: Set<Seq<char>>,
    paths: Seq<Seq<char>>,
    i: int,
)
    requires
        0 <= i < paths.len(),
        parsed_urs(paths[i]) is Some,
    ensures
        !missing_statuses(queue, walk_pending(pending, paths)).contains(
            Status::MissingSvg { urs: parsed_urs(paths[i])->0 },
        ),
{
    let urs = parsed_urs(paths[i])->0;
    let left = walk_pending(pending, paths);
    let missing = missing_statuses(queue, left);
    lemma_walk_pending(pending, paths);
    lemma_missing_names_pending(queue, left);
    if missing.contains(Status::MissingSvg { urs }) {
        let k = choose|k: int| 0 <= k < missing.len() && missing[k] == (Status::MissingSvg { urs });
        assert(left.contains(missing[k]->MissingSvg_urs));
    }
}

/// A required identifier that the name of no entry carried is found
/// missing.
pub proof fn lemma_unseen_is_missing(
    queue: Seq<Seq<char>>,
    pending: Set<Seq<char>>,
    paths: Seq<Seq<char>>,
    urs: Seq<char>,
)
    requires
        forall|other: Seq<char>| #[trigger] pending.contains(other) ==> queue.contains(other),
        pending.contains(urs),
        forall|i: int| 0 <= i < paths.len() ==> parsed_urs(#[trigger] paths[i]) != Some(urs),
    ensures
        missing_statuses(queue, walk_pending(pending, paths)).contains(Status::MissingSvg { urs }),
{
    let left = walk_pending(pending, paths);
    lemma_walk_pending(pending, paths);
    assert(left.contains(urs));
    assert forall|other: Seq<char>| #[trigger] left.contains(other) implies queue.contains(
        other,
    ) by {
        assert(pending.contains(other));
    }
    lemma_missing_statuses(queue, left);
}

/// An audit gives one status for every entry and one for every required
/// identifier that is left after the entries.
pub proof fn lemma_report_length(
    base: Seq<char>,
    queue: Seq<Seq<char>>,
    pending: Set<Seq<char>>,
    paths: Seq<Seq<char>>,
)
    requires
        forall|urs: Seq<char>| #[trigger] pending.contains(urs) ==> queue.contains(urs),
    ensures
        report(base, queue, pending, paths).len() == paths.len() + walk_pending(
            pending,
            paths,
        ).len(),
{
    let left = walk_pending(pending, paths);
    lemma_walk_statuses(base, pending, paths);
    lemma_walk_pending(pending, paths);
    assert forall|urs: Seq<char>| #[trigger] left.contains(urs) implies queue.contains(urs) by {
        assert(pending.contains(urs));
    }
    lemma_missing_statuses(queue, left);
}

/// Where the tree holds nothing but the compressed files of some of the
/// required identifiers, each once, the audit finds those correct and the
/// others missing: every required identifier gets one status, and no entry
/// is unknown.
pub proof fn lemma_report_of_clean_tree(
    base: Seq<char>,
    queue: Seq<Seq<char>>,
    required: Set<Seq<char>>,
    found: Seq<Seq<char>>,
)
    requires
        forall|urs: Seq<char>| #[trigger] required.contains(urs) ==> queue.contains(urs),
        found.no_duplicates(),
        forall|i: int| 0 <= i < found.len() ==> required.contains(#[trigger] found[i]),
        forall|i: int| 0 <= i < found.len() ==> valid_urs(#[trigger] found[i]),
    ensures
        ({
            let paths = Seq::new(found.len(), |i: int| compressed_of(base, found[i]));
            let left = required.difference(found.to_set());
            &&& walk_statuses(base, required, paths) == Seq::new(
                found.len(),
                |i: int| Status::CorrectSvg { urs: found[i] },
            )
            &&& walk_pending(required, paths) == left
            &&& missing_statuses(queue, left).len() == left.len()
            &&& forall|urs: Seq<char>| #[trigger]
                left.contains(urs) ==> missing_statuses(queue, left).contains(
                    Status::MissingSvg { urs },
                )
            &&& forall|k: int|
                0 <= k < report(base, queue, required, paths).len() ==> !(#[trigger] report(
                    base,
                    queue,
                    required,
                    paths,
                )[k] is UnknownFile)
            &&& report(base, queue, required, paths).len() == required.len()
        }),
{
    let paths = Seq::new(found.len(), |i: int| compressed_of(base, found[i]));
    let left = required.difference(found.to_set());
    let correct = Seq::new(found.len(), |i: int| Status::CorrectSvg { urs: found[i] });
    let statuses = walk_statuses(base, required, paths);
    lemma_walk_statuses(base, required, paths);
    lemma_walk_pending(required, paths);
    assert forall|i: int| 0 <= i < found.len() implies parsed_urs(#[trigger] paths[i]) == Some(
        found[i],
    ) by {
        lemma_places_carry_urs(base, found[i]);
    }
    assert forall|i: int| 0 <= i < found.len() implies statuses[i] == correct[i] by {
        assert forall|j: int| 0 <= j < i implies parsed_urs(#[trigger] paths[j]) != Some(
            found[i],
        ) by {
            assert(found[j] != found[i]);
        }
        assert(first_with(paths, i, found[i]));
    }
    assert(statuses == correct);
    assert forall|urs: Seq<char>|
        walk_pending(required, paths).contains(urs) == left.contains(urs) by {
        if required.contains(urs) {
            if found.contains(urs) {
                let i = choose|i: int| 0 <= i < found.len() && found[i] == urs;
                assert(parsed_urs(paths[i]) == Some(urs));
            } else {
                assert forall|i: int| 0 <= i < paths.len() implies parsed_urs(
                    #[trigger] paths[i],
                ) != Some(urs) by {
                    assert(found[i] != urs);
                }
            }
        }
    }
    assert(walk_pending(required, paths) == left);
    assert forall|urs: Seq<char>| #[trigger] left.contains(urs) implies queue.contains(urs) by {}
    lemma_missing_statuses(queue, left);
    lemma_missing_names_pending(queue, left);
    lemma_members_of_queue(queue, required);
    let all = report(base, queue, required, paths);
    let missing = missing_statuses(queue, left);
    assert forall|k: int| 0 <= k < all.len() implies !(#[trigger] all[k] is UnknownFile) by {
        if k < statuses.len() {
            assert(all[k] == correct[k]);
        } else {
            assert(all[k] == missing[k - statuses.len()]);
        }
    }
    found.unique_seq_to_set();
    vstd::seq_lib::seq_to_set_is_finite(found);
    assert(found.to_set().subset_of(required)) by {
        assert forall|urs: Seq<char>| found.to_set().contains(urs) implies required.contains(
            urs,
        ) by {
            let i = choose|i: int| 0 <= i < found.len() && found[i] == urs;
        }
    }
    vstd::set_lib::lemma_set_difference_len(required, found.to_set());
    assert(required.intersect(found.to_set()) == found.to_set());
}

} // verus!
