//! Putting diagrams under their identifiers: renaming, the place to write
//! to, and the address to send to.
use vstd::hash_map::StringHashMap;
use vstd::prelude::*;
use vstd::string::*;
use crate::fixups::urs_utils::{compressed_of, is_urs, path_for, valid_urs, UrsError};
use crate::text::{from_chars, replace_all, replaced, to_chars};

verus! {

/// A diagram as it stands in a file of results: its identifier and its
/// drawing.
#[derive(Debug)]
pub struct JsonDiagram {
    pub urs: String,
    pub svg: String,
}

/// The body of an upload: the content of a file in base64.
#[derive(Debug)]
pub struct Cdmi {
    pub value: String,
}

/// How identifiers are renamed before a diagram is written.
pub enum Renamer {
    /// Every identifier stays as it is.
    NoRename,
    /// An identifier is replaced by what the table gives for it; one that
    /// the table does not hold has no new name.
    UseMapping(StringHashMap<String>),
}

/// Where and how diagrams are sent.
pub struct TransferOptions {
    pub host: String,
    pub access_token: String,
    pub remote_path: String,
    pub use_http: bool,
}

/// The base64 text of `bytes`: what `base64::encode` gives for them.
pub uninterp spec fn base64_text(bytes: Seq<u8>) -> Seq<char>;

/// Whether the base64 text of `len` bytes has a length that fits a `usize`:
/// four characters for every three bytes, and four more for what is left.
pub open spec fn base64_fits(len: nat) -> bool {
    len / 3 * 4 + 4 <= usize::MAX
}

/// `base64::encode` writes bytes in the standard alphabet with padding. The
/// text depends on the bytes alone and is what `base64_text` names. The
/// function gives up where the length of the text does not fit a `usize`,
/// so such inputs are left out.
#[verifier::external_body]
fn base64_encode(bytes: &[u8]) -> (text: String)
    requires
        base64_fits(bytes@.len()),
    ensures
        text@ == base64_text(bytes@),
{
    base64::encode(bytes)
}

impl Cdmi {
    /// The upload body for a file that holds `bytes`, which must not be so
    /// many that their base64 text cannot be held.
    pub fn from_bytes(bytes: &[u8]) -> (body: Self)
        requires
            base64_fits(bytes@.len()),
        ensures
            body.value@ == base64_text(bytes@),
    {
        Cdmi { value: base64_encode(bytes) }
    }

    /// The upload body for a file that holds `bytes`, or `None` where they
    /// are too many for their base64 text to be held.
    pub fn try_from_bytes(bytes: &[u8]) -> (body: Option<Self>)
        ensures
            match body {
                Some(body) => base64_fits(bytes@.len()) && body.value@ == base64_text(bytes@),
                None => !base64_fits(bytes@.len()),
            },
    {
        if bytes.len() / 3 <= (usize::MAX - 4) / 4 {
            Some(Cdmi::from_bytes(bytes))
        } else {
            None
        }
    }
}

/// The table that a list of renames gives: each pair maps an old identifier
/// to a new one, and of two pairs for the same old identifier the later one
/// counts.
pub open spec fn rename_table(pairs: Seq<(String, String)>) -> Map<Seq<char>, Seq<char>>
    decreases pairs.len(),
{
    if pairs.len() == 0 {
        Map::empty()
    } else {
        rename_table(pairs.drop_last()).insert(pairs.last().0@, pairs.last().1@)
    }
}

impl Renamer {
    /// The table of renames, where there is one.
    pub open spec fn table(&self) -> Option<Map<Seq<char>, Seq<char>>> {
        match self {
            Renamer::NoRename => None,
            Renamer::UseMapping(mapping) => Some(
                Map::new(
                    |old_urs: Seq<char>| mapping@.contains_key(old_urs),
                    |old_urs: Seq<char>| mapping@[old_urs]@,
                ),
            ),
        }
    }

    /// The new name of `urs`: itself without a table, and with one what the
    /// table gives, if anything.
    pub open spec fn renamed(&self, urs: Seq<char>) -> Option<Seq<char>> {
        match self.table() {
            None => Some(urs),
            Some(table) => if table.contains_key(urs) {
                Some(table[urs])
            } else {
                None
            },
        }
    }

    /// Makes a renamer from the records of a rename list, each an old and a
    /// new identifier. Without a list nothing is renamed.
    pub fn new(records: Option<Vec<(String, String)>>) -> (renamer: Self)
        ensures
            renamer.table() == match records {
                None => None,
                Some(pairs) => Some(rename_table(pairs@)),
            },
    {
        match records {
            None => Renamer::NoRename,
            Some(pairs) => {
                let mut mapping: StringHashMap<String> = StringHashMap::new();
                let mut i: usize = 0;
                assert(pairs@.take(0) == Seq::<(String, String)>::empty());
                assert(Renamer::UseMapping(mapping).table() == Some(
                    rename_table(pairs@.take(0)),
                ));
                while i < pairs.len()
                    invariant
                        i <= pairs.len(),
                        Renamer::UseMapping(mapping).table() == Some(
                            rename_table(pairs@.take(i as int)),
                        ),
                    decreases pairs.len() - i,
                {
                    let ghost before = Renamer::UseMapping(mapping).table()->0;
                    let old_urs = pairs[i].0.clone();
                    let new_urs = pairs[i].1.clone();
                    mapping.insert(old_urs, new_urs);
                    proof {
                        assert(pairs@.take(i + 1).drop_last() == pairs@.take(i as int));
                        assert(pairs@.take(i + 1).last() == pairs@[i as int]);
                        assert(Renamer::UseMapping(mapping).table()->0 == before.insert(
                            pairs@[i as int].0@,
                            pairs@[i as int].1@,
                        ));
                    }
                    i += 1;
                }
                assert(pairs@.take(pairs.len() as int) == pairs@);
                Renamer::UseMapping(mapping)
            },
        }
    }

    /// The new name of `urs`, if it has one.
    pub fn rename(&self, urs: &String) -> (renamed: Option<String>)
        ensures
            match renamed {
                Some(name) => self.renamed(urs@) == Some(name@),
                None => self.renamed(urs@) is None,
            },
    {
        match self {
            Self::NoRename => Some(urs.clone()),
            Self::UseMapping(mapping) => match mapping.get(urs.as_str()) {
                Some(name) => Some(name.clone()),
                None => None,
            },
        }
    }
}

/// The text `://` between scheme and host.
pub open spec fn scheme_separator() -> Seq<char> {
    seq![':', '/', '/']
}

/// The part of an address that leads to the store of the diagrams.
pub open spec fn store_path() -> Seq<char> {
    "/cdmi/RNA-Sequences/"@
}

impl TransferOptions {
    /// The scheme as a sequence of characters.
    pub open spec fn scheme_text(&self) -> Seq<char> {
        if self.use_http {
            "http"@
        } else {
            "https"@
        }
    }

    /// The address of the object `name`:
    /// `<scheme>://<host>/cdmi/RNA-Sequences/<remote path>/<name>`.
    pub open spec fn address_of(&self, name: Seq<char>) -> Seq<char> {
        self.scheme_text() + scheme_separator() + self.host@ + store_path() + self.remote_path@
            + seq!['/'] + name
    }

    /// The scheme to send with: `http` where it was asked for, else `https`.
    pub fn scheme(&self) -> (scheme: &str)
        ensures
            scheme@ == self.scheme_text(),
    {
        match self.use_http {
            true => "http",
            false => "https",
        }
    }

    /// The address to which the object `name` is sent.
    pub fn object_url(&self, name: &str) -> (url: String)
        ensures
            url@ == self.address_of(name@),
    {
        proof {
            reveal_strlit("://");
            reveal_strlit("/");
            assert("://"@ == scheme_separator());
            assert("/"@ == seq!['/']);
        }
        let mut url = String::from_str(self.scheme());
        url.append("://");
        url.append(self.host.as_str());
        url.append("/cdmi/RNA-Sequences/");
        url.append(self.remote_path.as_str());
        url.append("/");
        url.append(name);
        url
    }
}

/// A line of a results file with every doubled backslash made single.
pub open spec fn unescaped(line: Seq<char>) -> Seq<char> {
    replaced(line, seq!['\\', '\\'], seq!['\\'])
}

/// Undoes the doubling of backslashes in a line of a results file.
pub fn unescape(line: &str) -> (plain: String)
    ensures
        plain@ == unescaped(line@),
{
    let chars = to_chars(line);
    let double: Vec<char> = vec!['\\', '\\'];
    let single: Vec<char> = vec!['\\'];
    assert(double@ == seq!['\\', '\\']);
    assert(single@ == seq!['\\']);
    let plain = replace_all(&chars, &double, &single);
    assert(plain@.subrange(0, plain.len() as int) == plain@);
    from_chars(&plain, 0, plain.len())
}

/// Where the diagram `urs` is written below `base`: nowhere if the renamer
/// has no new name for it, else at the place of its new name, which has to
/// be an identifier.
pub open spec fn written_to(renamer: Renamer, base: Seq<char>, urs: Seq<char>) -> Result<
    Option<Seq<char>>,
    UrsError,
> {
    match renamer.renamed(urs) {
        None => Ok(None),
        Some(name) => if valid_urs(name) {
            Ok(Some(compressed_of(base, name)))
        } else {
            Err(UrsError::MalformedIdentifier)
        },
    }
}

/// Where `diagram` is to be written below `base` once `renamer` has given
/// it its name. `Ok(None)` says that the diagram has no new name and is
/// passed over; a new name that is no identifier is refused.
pub fn target_path(diagram: &JsonDiagram, renamer: &Renamer, base: &str) -> (target: Result<
    Option<String>,
    UrsError,
>)
    ensures
        match target {
            Ok(Some(path)) => written_to(*renamer, base@, diagram.urs@) == Ok::<
                Option<Seq<char>>,
                UrsError,
            >(Some(path@)),
            Ok(None) => written_to(*renamer, base@, diagram.urs@) == Ok::<
                Option<Seq<char>>,
                UrsError,
            >(None),
            Err(e) => written_to(*renamer, base@, diagram.urs@) == Err::<
                Option<Seq<char>>,
                UrsError,
            >(e),
        },
{
    match renamer.rename(&diagram.urs) {
        None => Ok(None),
        Some(urs) => {
            if is_urs(urs.as_str()) {
                Ok(Some(path_for(base, urs.as_str())))
            } else {
                Err(UrsError::MalformedIdentifier)
            }
        },
    }
}

} // verus!
