//! Counting the letters of a diagram by the colour they are drawn in.
//!
//! A diagram draws each nucleotide as a text element whose class names a
//! colour, and the colour says how the nucleotide came to its place.
use vstd::prelude::*;
use vstd::string::*;
use crate::fixups::urs_utils::{file_name, file_name_of, filename_urs, parsed_urs};
use crate::text::{after_last, copy_range, find_after_last, same_chars, to_chars};

verus! {

/// How many letters of the diagram `urs` were drawn in each colour.
#[derive(Debug)]
pub struct Counts {
    pub urs: String,
    pub changed: u64,
    pub unchanged: u64,
    pub inserted: u64,
    pub moved: u64,
    pub rotated: u64,
    pub total: u64,
}

/// What a colour says of a letter.
#[derive(Clone, Copy, Debug, PartialEq, Eq, Structural)]
pub enum Change {
    Changed,
    Unchanged,
    Inserted,
    Moved,
    Rotated,
}

/// Whether `text` is one letter that stands for a nucleotide: `A`, `C`,
/// `G`, `U` or `X`.
pub open spec fn valid_letter(text: Seq<char>) -> bool {
    text == seq!['A'] || text == seq!['C'] || text == seq!['G'] || text == seq!['U'] || text
        == seq!['X']
}

/// The bytes of a text of ASCII characters.
pub open spec fn ascii_bytes(text: Seq<char>) -> Seq<u8> {
    Seq::new(text.len(), |i: int| text[i] as u8)
}

/// The name of the elements that hold a letter.
pub open spec fn text_element() -> Seq<u8> {
    ascii_bytes("text"@)
}

/// The name of the attribute that holds the colour.
pub open spec fn class_key() -> Seq<u8> {
    ascii_bytes("class"@)
}

/// What the colour named `class` says: green is changed, black unchanged,
/// red inserted, blue moved, brown rotated. Other classes say nothing.
pub open spec fn change_of(class: Seq<u8>) -> Option<Change> {
    if class == ascii_bytes("green"@) {
        Some(Change::Changed)
    } else if class == ascii_bytes("black"@) {
        Some(Change::Unchanged)
    } else if class == ascii_bytes("red"@) {
        Some(Change::Inserted)
    } else if class == ascii_bytes("blue"@) {
        Some(Change::Moved)
    } else if class == ascii_bytes("brown"@) {
        Some(Change::Rotated)
    } else {
        None
    }
}

/// Whether `bytes` write the text `word`.
fn bytes_are(bytes: &[u8], word: &str) -> (same: bool)
    ensures
        same == (bytes@ == ascii_bytes(word@)),
{
    let chars = to_chars(word);
    if bytes.len() != chars.len() {
        return false;
    }
    let mut i: usize = 0;
    while i < bytes.len()
        invariant
            i <= bytes.len(),
            bytes.len() == chars.len(),
            chars@ == word@,
            forall|j: int| 0 <= j < i ==> bytes@[j] == ascii_bytes(word@)[j],
        decreases bytes.len() - i,
    {
        if bytes[i] != chars[i] as u8 {
            assert(bytes@[i as int] != ascii_bytes(word@)[i as int]);
            return false;
        }
        i += 1;
    }
    assert(bytes@ =~= ascii_bytes(word@));
    true
}

/// Whether an element with the name `name` holds a letter: it is a `text`
/// element.
pub fn is_text_element(name: &[u8]) -> (holds: bool)
    ensures
        holds == (name@ == text_element()),
{
    bytes_are(name, "text")
}

/// Whether an attribute with the key `key` holds the colour: it is the
/// `class` attribute.
pub fn is_class_key(key: &[u8]) -> (holds: bool)
    ensures
        holds == (key@ == class_key()),
{
    bytes_are(key, "class")
}

/// Whether `text` is one letter that stands for a nucleotide.
pub fn is_valid_letter(text: String) -> (valid: bool)
    ensures
        valid == valid_letter(text@),
{
    let chars = to_chars(text.as_str());
    if chars.len() != 1 {
        return false;
    }
    let letter = chars[0];
    assert(chars@ == seq![letter]);
    assert(seq![letter][0] == letter);
    letter == 'A' || letter == 'C' || letter == 'G' || letter == 'U' || letter == 'X'
}

/// What the colour named `class` says of a letter.
pub fn class_change(class: &[u8]) -> (change: Option<Change>)
    ensures
        change == change_of(class@),
{
    if bytes_are(class, "green") {
        Some(Change::Changed)
    } else if bytes_are(class, "black") {
        Some(Change::Unchanged)
    } else if bytes_are(class, "red") {
        Some(Change::Inserted)
    } else if bytes_are(class, "blue") {
        Some(Change::Moved)
    } else if bytes_are(class, "brown") {
        Some(Change::Rotated)
    } else {
        None
    }
}

impl Counts {
    /// How many letters were counted under `change`.
    pub open spec fn count(&self, change: Change) -> u64 {
        match change {
            Change::Changed => self.changed,
            Change::Unchanged => self.unchanged,
            Change::Inserted => self.inserted,
            Change::Moved => self.moved,
            Change::Rotated => self.rotated,
        }
    }

    /// The total is the sum of the five counts.
    pub open spec fn wf(&self) -> bool {
        self.total == self.changed + self.unchanged + self.inserted + self.moved + self.rotated
    }

    /// What a text element with the content `text` and the class `class`
    /// adds to the counts: one, under what its colour says, if the content
    /// is a nucleotide letter and the class a known colour.
    pub open spec fn counted(text: Seq<char>, class: Seq<u8>) -> Option<Change> {
        if valid_letter(text) {
            change_of(class)
        } else {
            None
        }
    }

    /// The counts of a diagram of which nothing was read yet.
    pub fn new(urs: String) -> (counts: Self)
        ensures
            counts.wf(),
            counts.urs == urs,
            counts.total == 0,
    {
        Counts { urs, changed: 0, unchanged: 0, inserted: 0, moved: 0, rotated: 0, total: 0 }
    }

    /// Takes one text element into the counts.
    pub fn record(&mut self, text: &str, class: &[u8])
        requires
            old(self).wf(),
            old(self).total < u64::MAX,
        ensures
            final(self).wf(),
            final(self).urs == old(self).urs,
            forall|change: Change| #[trigger]
                final(self).count(change) == old(self).count(change) + if Counts::counted(
                    text@,
                    class@,
                ) == Some(change) {
                    1int
                } else {
                    0int
                },
    {
        if !is_valid_letter(String::from_str(text)) {
            return ;
        }
        match class_change(class) {
            Some(Change::Changed) => {
                self.changed += 1;
                self.total += 1;
            },
            Some(Change::Unchanged) => {
                self.unchanged += 1;
                self.total += 1;
            },
            Some(Change::Inserted) => {
                self.inserted += 1;
                self.total += 1;
            },
            Some(Change::Moved) => {
                self.moved += 1;
                self.total += 1;
            },
            Some(Change::Rotated) => {
                self.rotated += 1;
                self.total += 1;
            },
            None => {},
        }
    }
}

/// How the drawing of a diagram is stored in its file.
#[derive(Clone, Copy, Debug, PartialEq, Eq, Structural)]
pub enum Packing {
    /// As it is.
    Plain,
    /// Compressed with gzip.
    Gzip,
}

/// Why a file cannot be read as a diagram.
#[derive(Clone, Copy, Debug, PartialEq, Eq, Structural)]
pub enum SourceError {
    /// The name of the file carries no identifier.
    NoUrs,
    /// The name of the file has no extension.
    NoExtension,
    /// The extension of the file is neither `svg` nor `gz`.
    UnknownExtension,
}

/// The extension of a file name: what follows its last `.`. A name without
/// a `.`, or with none but one at its start, has no extension; nor has `..`.
pub open spec fn extension_of(name: Seq<char>) -> Option<Seq<char>> {
    let dot = after_last(name, '.', name.len() as int);
    if dot <= 1 || name == seq!['.', '.'] {
        None
    } else {
        Some(name.skip(dot))
    }
}

/// How the file at `path` is to be read: the identifier that its name
/// carries, and its packing by its extension. Without an identifier the
/// extension is not looked at.
pub open spec fn source_of(path: Seq<char>) -> Result<(Seq<char>, Packing), SourceError> {
    match parsed_urs(path) {
        None => Err(SourceError::NoUrs),
        Some(urs) => match extension_of(file_name_of(path)) {
            None => Err(SourceError::NoExtension),
            Some(extension) => if extension == seq!['s', 'v', 'g'] {
                Ok((urs, Packing::Plain))
            } else if extension == seq!['g', 'z'] {
                Ok((urs, Packing::Gzip))
            } else {
                Err(SourceError::UnknownExtension)
            },
        },
    }
}

/// Says how the file at `path` is to be read as a diagram: under which
/// identifier, and whether it has to be unpacked first.
pub fn diagram_source(path: &str) -> (source: Result<(String, Packing), SourceError>)
    ensures
        match source {
            Ok((urs, packing)) => source_of(path@) == Ok::<(Seq<char>, Packing), SourceError>(
                (urs@, packing),
            ),
            Err(e) => source_of(path@) == Err::<(Seq<char>, Packing), SourceError>(e),
        },
{
    let urs = match filename_urs(path) {
        Some(urs) => urs,
        None => {
            return Err(SourceError::NoUrs);
        },
    };
    let name = to_chars(file_name(path).as_str());
    let dot = find_after_last(&name, '.', name.len());
    if dot <= 1 || (name.len() == 2 && name[0] == '.' && name[1] == '.') {
        assert(name@ == seq!['.', '.'] ==> name@.len() == 2 && name@[0] == '.' && name@[1] == '.');
        assert(name@.len() == 2 && name@[0] == '.' && name@[1] == '.' ==> name@ == seq!['.', '.']);
        return Err(SourceError::NoExtension);
    }
    assert(name@ != seq!['.', '.']) by {
        if name@ == seq!['.', '.'] {
            assert(name@.len() == 2 && name@[0] == '.' && name@[1] == '.');
        }
    }
    let extension = copy_range(&name, dot, name.len());
    assert(name@.subrange(dot as int, name.len() as int) == name@.skip(dot as int));
    let svg: Vec<char> = vec!['s', 'v', 'g'];
    let gz: Vec<char> = vec!['g', 'z'];
    assert(svg@ == seq!['s', 'v', 'g']);
    assert(gz@ == seq!['g', 'z']);
    if same_chars(&extension, &svg) {
        Ok((urs, Packing::Plain))
    } else if same_chars(&extension, &gz) {
        Ok((urs, Packing::Gzip))
    } else {
        Err(SourceError::UnknownExtension)
    }
}

} // verus!
