//! The lineage of a taxon laid out by rank.
use std::collections::HashSet;
use vstd::prelude::*;
use vstd::string::*;
use crate::ena::{rank_text, EnaLineageTaxon, EnaTaxonInfo};
use crate::text::{parse_unsigned, same_chars, to_chars, trim_chars, trimmed, unsigned_number};

verus! {

/// The ranks of the taxonomy that a lineage is laid out by, from the
/// narrowest to the widest.
#[derive(Clone, Copy, Debug, PartialEq, Eq, Structural)]
pub enum Rank {
    Species,
    Genus,
    Family,
    Order,
    Class,
    Phylum,
    Kingdom,
    Superkingdom,
    Root,
}

/// The taxon id of the root of all cellular organisms.
pub const CELLULAR_ORGANISMS: usize = 131567;

/// The name of the root of all cellular organisms.
pub open spec fn cellular_organisms() -> Seq<char> {
    "cellular organisms"@
}

impl Rank {
    /// The name of the rank as the taxonomy service writes it.
    pub open spec fn name(self) -> Seq<char> {
        match self {
            Rank::Species => "species"@,
            Rank::Genus => "genus"@,
            Rank::Family => "family"@,
            Rank::Order => "order"@,
            Rank::Class => "class"@,
            Rank::Phylum => "phylum"@,
            Rank::Kingdom => "kingdom"@,
            Rank::Superkingdom => "superkingdom"@,
            Rank::Root => "root"@,
        }
    }

    /// The rank that is named `text`, if there is one.
    pub open spec fn named(text: Seq<char>) -> Option<Rank> {
        if text == Rank::Species.name() {
            Some(Rank::Species)
        } else if text == Rank::Genus.name() {
            Some(Rank::Genus)
        } else if text == Rank::Family.name() {
            Some(Rank::Family)
        } else if text == Rank::Order.name() {
            Some(Rank::Order)
        } else if text == Rank::Class.name() {
            Some(Rank::Class)
        } else if text == Rank::Phylum.name() {
            Some(Rank::Phylum)
        } else if text == Rank::Kingdom.name() {
            Some(Rank::Kingdom)
        } else if text == Rank::Superkingdom.name() {
            Some(Rank::Superkingdom)
        } else if text == Rank::Root.name() {
            Some(Rank::Root)
        } else {
            None
        }
    }

    /// All ranks, from the narrowest to the widest.
    pub open spec fn all() -> Seq<Rank> {
        seq![
            Rank::Species,
            Rank::Genus,
            Rank::Family,
            Rank::Order,
            Rank::Class,
            Rank::Phylum,
            Rank::Kingdom,
            Rank::Superkingdom,
            Rank::Root,
        ]
    }

    /// How wide the rank is: 0 for species, up to 8 for root.
    pub open spec fn level(self) -> int {
        match self {
            Rank::Species => 0,
            Rank::Genus => 1,
            Rank::Family => 2,
            Rank::Order => 3,
            Rank::Class => 4,
            Rank::Phylum => 5,
            Rank::Kingdom => 6,
            Rank::Superkingdom => 7,
            Rank::Root => 8,
        }
    }

    /// The rank one step wider, which the walk from root down to species
    /// met just before this one. Root has none.
    pub open spec fn wider(self) -> Option<Rank> {
        if self == Rank::Root {
            None
        } else {
            Some(Rank::all()[self.level() + 1])
        }
    }

    /// The rank one step wider; none for root.
    pub fn previous_rank(&self) -> (previous: Option<Rank>)
        ensures
            previous == self.wider(),
    {
        match self {
            Rank::Species => Some(Rank::Genus),
            Rank::Genus => Some(Rank::Family),
            Rank::Family => Some(Rank::Order),
            Rank::Order => Some(Rank::Class),
            Rank::Class => Some(Rank::Phylum),
            Rank::Phylum => Some(Rank::Kingdom),
            Rank::Kingdom => Some(Rank::Superkingdom),
            Rank::Superkingdom => Some(Rank::Root),
            Rank::Root => None,
        }
    }

    /// No two ranks have the same name, so a name has one rank at most.
    pub proof fn lemma_names_differ(a: Rank, b: Rank)
        ensures
            a != b ==> a.name() != b.name(),
    {
        reveal_strlit("species");
        reveal_strlit("genus");
        reveal_strlit("family");
        reveal_strlit("order");
        reveal_strlit("class");
        reveal_strlit("phylum");
        reveal_strlit("kingdom");
        reveal_strlit("superkingdom");
        reveal_strlit("root");
        if a != b && a.name().len() == b.name().len() {
            assert(a.name()[0] != b.name()[0]);
        }
    }

    /// A rank is what its name names.
    pub proof fn lemma_named_name(rank: Rank)
        ensures
            Rank::named(rank.name()) == Some(rank),
    {
        Rank::lemma_names_differ(rank, Rank::Species);
        Rank::lemma_names_differ(rank, Rank::Genus);
        Rank::lemma_names_differ(rank, Rank::Family);
        Rank::lemma_names_differ(rank, Rank::Order);
        Rank::lemma_names_differ(rank, Rank::Class);
        Rank::lemma_names_differ(rank, Rank::Phylum);
        Rank::lemma_names_differ(rank, Rank::Kingdom);
        Rank::lemma_names_differ(rank, Rank::Superkingdom);
        Rank::lemma_names_differ(rank, Rank::Root);
    }

    /// Reads a rank from its name, in lower case. Any other text is no
    /// rank.
    pub fn from_string(rank: &String) -> (found: Option<Self>)
        ensures
            found == Rank::named(rank@),
    {
        let text = to_chars(rank.as_str());
        if same_chars(&text, &to_chars("species")) {
            Some(Self::Species)
        } else if same_chars(&text, &to_chars("genus")) {
            Some(Self::Genus)
        } else if same_chars(&text, &to_chars("family")) {
            Some(Self::Family)
        } else if same_chars(&text, &to_chars("order")) {
            Some(Self::Order)
        } else if same_chars(&text, &to_chars("class")) {
            Some(Self::Class)
        } else if same_chars(&text, &to_chars("phylum")) {
            Some(Self::Phylum)
        } else if same_chars(&text, &to_chars("kingdom")) {
            Some(Self::Kingdom)
        } else if same_chars(&text, &to_chars("superkingdom")) {
            Some(Self::Superkingdom)
        } else if same_chars(&text, &to_chars("root")) {
            Some(Self::Root)
        } else {
            None
        }
    }

    /// All ranks, from the narrowest to the widest.
    pub fn ascending() -> (ranks: Vec<Self>)
        ensures
            ranks@ == Rank::all(),
    {
        let ranks = vec![
            Rank::Species,
            Rank::Genus,
            Rank::Family,
            Rank::Order,
            Rank::Class,
            Rank::Phylum,
            Rank::Kingdom,
            Rank::Superkingdom,
            Rank::Root,
        ];
        assert(ranks@ == Rank::all());
        ranks
    }
}

/// A taxon at a rank of a lineage.
#[derive(Debug, PartialEq)]
pub struct TaxonInfo {
    pub name: String,
    pub taxid: usize,
    pub rank: Rank,
}

/// A taxon at a rank, with its name as a sequence of characters.
pub struct Taxon {
    pub name: Seq<char>,
    pub taxid: usize,
    pub rank: Rank,
}

impl View for TaxonInfo {
    type V = Taxon;

    open spec fn view(&self) -> Taxon {
        Taxon { name: self.name@, taxid: self.taxid, rank: self.rank }
    }
}

/// The taxon in a slot that may be empty.
pub open spec fn slot_view(slot: Option<TaxonInfo>) -> Option<Taxon> {
    match slot {
        Some(taxon) => Some(taxon@),
        None => None,
    }
}

/// The lineage of the taxon `taxid`, with one slot for each rank.
#[derive(Debug, PartialEq)]
pub struct Mapping {
    pub taxid: usize,
    pub name: Option<String>,
    pub species: Option<TaxonInfo>,
    pub genus: Option<TaxonInfo>,
    pub family: Option<TaxonInfo>,
    pub order: Option<TaxonInfo>,
    pub class: Option<TaxonInfo>,
    pub phylum: Option<TaxonInfo>,
    pub kingdom: Option<TaxonInfo>,
    pub superkingdom: Option<TaxonInfo>,
    pub root: Option<TaxonInfo>,
}

impl Mapping {
    /// What the slot of `rank` holds.
    pub open spec fn slot(&self, rank: Rank) -> Option<Taxon> {
        match rank {
            Rank::Species => slot_view(self.species),
            Rank::Genus => slot_view(self.genus),
            Rank::Family => slot_view(self.family),
            Rank::Order => slot_view(self.order),
            Rank::Class => slot_view(self.class),
            Rank::Phylum => slot_view(self.phylum),
            Rank::Kingdom => slot_view(self.kingdom),
            Rank::Superkingdom => slot_view(self.superkingdom),
            Rank::Root => slot_view(self.root),
        }
    }

    /// Whether nothing is known of the lineage: the taxon is not the root of
    /// the cellular organisms, and no slot below the root holds a taxon.
    pub open spec fn unknown(&self) -> bool {
        &&& self.taxid != CELLULAR_ORGANISMS
        &&& forall|rank: Rank| rank != Rank::Root ==> (#[trigger] self.slot(rank)) is None
    }

    /// The taxon at `rank`, if the lineage has one.
    pub fn taxon_at(&self, rank: &Rank) -> (taxon: Option<&TaxonInfo>)
        ensures
            match taxon {
                Some(found) => self.slot(*rank) == Some(found@),
                None => self.slot(*rank) is None,
            },
    {
        match rank {
            Rank::Species => self.species.as_ref(),
            Rank::Genus => self.genus.as_ref(),
            Rank::Family => self.family.as_ref(),
            Rank::Order => self.order.as_ref(),
            Rank::Class => self.class.as_ref(),
            Rank::Phylum => self.phylum.as_ref(),
            Rank::Kingdom => self.kingdom.as_ref(),
            Rank::Superkingdom => self.superkingdom.as_ref(),
            Rank::Root => self.root.as_ref(),
        }
    }

    /// Whether nothing is known of the lineage. The root slot does not
    /// count, and the root of the cellular organisms is never unknown.
    pub fn is_empty(&self) -> (empty: bool)
        ensures
            empty == self.unknown(),
    {
        if self.taxid == CELLULAR_ORGANISMS {
            return false;
        }
        let empty = self.species.is_none() && self.genus.is_none() && self.family.is_none()
            && self.order.is_none() && self.class.is_none() && self.phylum.is_none()
            && self.kingdom.is_none() && self.superkingdom.is_none();
        proof {
            if empty {
                assert forall|rank: Rank| rank != Rank::Root implies (#[trigger] self.slot(
                    rank,
                )) is None by {}
            } else {
                assert(self.slot(Rank::Species) is Some || self.slot(Rank::Genus) is Some
                    || self.slot(Rank::Family) is Some || self.slot(Rank::Order) is Some
                    || self.slot(Rank::Class) is Some || self.slot(Rank::Phylum) is Some
                    || self.slot(Rank::Kingdom) is Some || self.slot(Rank::Superkingdom) is Some);
            }
        }
        empty
    }
}

/// The rank that an ancestor is listed with, if it is one that a lineage has
/// a slot for.
pub open spec fn rank_of(parent: EnaLineageTaxon) -> Option<Rank> {
    match rank_text(parent.rank) {
        Some(text) => Rank::named(text),
        None => None,
    }
}

/// The position of the last of `parents` that is listed with `rank`, or -1
/// where none is.
pub open spec fn last_of_rank(parents: Seq<EnaLineageTaxon>, rank: Rank) -> int
    decreases parents.len(),
{
    if parents.len() == 0 {
        -1
    } else if rank_of(parents.last()) == Some(rank) {
        parents.len() - 1
    } else {
        last_of_rank(parents.drop_last(), rank)
    }
}

/// What the slot of `rank` holds before any ancestor is looked at: the root
/// slot holds the root of the cellular organisms, and the species slot holds
/// the taxon itself where it is a species.
pub open spec fn own_slot(taxon: EnaTaxonInfo, rank: Rank) -> Option<Taxon> {
    match rank {
        Rank::Root => Some(
            Taxon { name: cellular_organisms(), taxid: CELLULAR_ORGANISMS, rank: Rank::Root },
        ),
        Rank::Species => if rank_text(taxon.rank) == Some(Rank::Species.name()) {
            Some(Taxon { name: taxon.name@, taxid: taxon.taxid, rank: Rank::Species })
        } else {
            None
        },
        _ => None,
    }
}

/// What the slot of `rank` holds in the lineage of `taxon` once `parents`
/// were looked at: the last ancestor listed with that rank, and without one
/// what the slot held before.
pub open spec fn slot_after(taxon: EnaTaxonInfo, parents: Seq<EnaLineageTaxon>, rank: Rank)
    -> Option<Taxon> {
    let at = last_of_rank(parents, rank);
    if at >= 0 {
        Some(Taxon { name: parents[at].name@, taxid: parents[at].taxid, rank })
    } else {
        own_slot(taxon, rank)
    }
}

/// Whether `mapping` is the lineage of `taxon` laid out by rank.
pub open spec fn is_lineage_of(mapping: Mapping, taxon: EnaTaxonInfo) -> bool {
    &&& mapping.taxid == taxon.taxid
    &&& mapping.name matches Some(name) && name@ == taxon.name@
    &&& forall|rank: Rank| #[trigger]
        mapping.slot(rank) == slot_after(taxon, taxon.lineage.taxons@, rank)
}

/// Whether `mapping` says of `taxid` that nothing is known: no name and no
/// slot filled.
pub open spec fn is_blank_for(mapping: Mapping, taxid: usize) -> bool {
    &&& mapping.taxid == taxid
    &&& mapping.name is None
    &&& forall|rank: Rank| (#[trigger] mapping.slot(rank)) is None
}

/// Lays out the lineage of `taxon` by rank. Each ancestor goes into the slot
/// of its rank; of two with the same rank the later one stays, and one with
/// no rank or an unknown one is passed over. The root slot starts with the
/// root of the cellular organisms, the species slot with the taxon itself
/// where it is a species.
pub fn lineage_mapping(taxon: &EnaTaxonInfo) -> (mapping: Mapping)
    ensures
        is_lineage_of(mapping, *taxon),
{
    let mut mapping = Mapping {
        name: Some(taxon.name.clone()),
        taxid: taxon.taxid,
        species: None,
        genus: None,
        family: None,
        order: None,
        class: None,
        phylum: None,
        kingdom: None,
        superkingdom: None,
        root: Some(
            TaxonInfo {
                name: String::from_str("cellular organisms"),
                taxid: CELLULAR_ORGANISMS,
                rank: Rank::Root,
            },
        ),
    };
    let is_species = match &taxon.rank {
        Some(rank) => same_chars(&to_chars(rank.as_str()), &to_chars("species")),
        None => false,
    };
    if is_species {
        mapping.species = Some(
            TaxonInfo { name: taxon.name.clone(), taxid: taxon.taxid, rank: Rank::Species },
        );
    }
    let parents = taxon.parent_taxons();
    let mut i: usize = 0;
    assert(parents@.take(0) == Seq::<EnaLineageTaxon>::empty());
    while i < parents.len()
        invariant
            i <= parents.len(),
            parents == &taxon.lineage.taxons,
            mapping.taxid == taxon.taxid,
            mapping.name matches Some(name) && name@ == taxon.name@,
            forall|rank: Rank| #[trigger]
                mapping.slot(rank) == slot_after(*taxon, parents@.take(i as int), rank),
        decreases parents.len() - i,
    {
        let parent = &parents[i];
        let ghost seen = parents@.take(i as int);
        let ghost more = parents@.take(i + 1);
        proof {
            assert(more.drop_last() == seen);
            assert(more.last() == *parent);
            assert forall|rank: Rank| rank_of(*parent) != Some(rank) implies #[trigger] slot_after(
                *taxon,
                more,
                rank,
            ) == slot_after(*taxon, seen, rank) by {
                let at = last_of_rank(seen, rank);
                if at >= 0 {
                    lemma_last_of_rank(seen, rank);
                    assert(more[at] == seen[at]);
                }
            }
        }
        let ghost before = mapping;
        let rank = match &parent.rank {
            Some(text) => Rank::from_string(text),
            None => None,
        };
        assert(rank == rank_of(*parent));
        if let Some(rank) = rank {
            let tinfo = TaxonInfo { name: parent.name.clone(), taxid: parent.taxid, rank };
            assert(slot_after(*taxon, more, rank) == Some(tinfo@));
            match rank {
                Rank::Species => mapping.species = Some(tinfo),
                Rank::Genus => mapping.genus = Some(tinfo),
                Rank::Family => mapping.family = Some(tinfo),
                Rank::Order => mapping.order = Some(tinfo),
                Rank::Class => mapping.class = Some(tinfo),
                Rank::Phylum => mapping.phylum = Some(tinfo),
                Rank::Kingdom => mapping.kingdom = Some(tinfo),
                Rank::Superkingdom => mapping.superkingdom = Some(tinfo),
                Rank::Root => mapping.root = Some(tinfo),
            }
        }
        assert forall|other: Rank| #[trigger]
            mapping.slot(other) == slot_after(*taxon, more, other) by {
            if rank_of(*parent) != Some(other) {
                assert(mapping.slot(other) == before.slot(other));
                assert(before.slot(other) == slot_after(*taxon, seen, other));
            }
        }
        i += 1;
    }
    assert(parents@.take(parents.len() as int) == parents@);
    mapping
}

/// `last_of_rank` is -1 or the position of an ancestor with that rank.
pub proof fn lemma_last_of_rank(parents: Seq<EnaLineageTaxon>, rank: Rank)
    ensures
        -1 <= last_of_rank(parents, rank) < parents.len(),
        last_of_rank(parents, rank) >= 0 ==> rank_of(parents[last_of_rank(parents, rank)]) == Some(
            rank,
        ),
    decreases parents.len(),
{
    if parents.len() > 0 && rank_of(parents.last()) != Some(rank) {
        lemma_last_of_rank(parents.drop_last(), rank);
    }
}

/// The taxon id that stands on a line of a list: a number in decimal digits
/// that fits a `usize`, with white space around it or without.
pub open spec fn taxid_of(line: Seq<char>) -> Option<usize> {
    match unsigned_number(trimmed(line)) {
        Some(n) => if n <= usize::MAX {
            Some(n as usize)
        } else {
            None
        },
        None => None,
    }
}

/// Reads the taxon id that stands on a line of a list. A line that holds
/// anything but one number has none.
pub fn parse_taxid(line: &str) -> (taxid: Option<usize>)
    ensures
        taxid == taxid_of(line@),
{
    parse_unsigned(&trim_chars(&to_chars(line)))
}

/// The taxon ids of `species`, in order.
pub open spec fn taxids_of(species: Seq<EnaTaxonInfo>) -> Seq<usize> {
    Seq::new(species.len(), |i: int| species[i].taxid)
}

/// The members of `taxids` that are not in `known`, each once, in the order
/// in which they first stand in `taxids`.
pub open spec fn unmapped(taxids: Seq<usize>, known: Set<usize>) -> Seq<usize>
    decreases taxids.len(),
{
    if taxids.len() == 0 {
        Seq::empty()
    } else {
        let before = unmapped(taxids.drop_last(), known);
        if known.contains(taxids.last()) || before.contains(taxids.last()) {
            before
        } else {
            before.push(taxids.last())
        }
    }
}

/// A lineage that says of `taxid` that nothing is known.
fn blank_mapping(taxid: usize) -> (mapping: Mapping)
    ensures
        is_blank_for(mapping, taxid),
{
    Mapping {
        taxid,
        name: None,
        species: None,
        genus: None,
        family: None,
        order: None,
        class: None,
        phylum: None,
        kingdom: None,
        superkingdom: None,
        root: None,
    }
}

/// The lineages of the taxa `taxids`, of which the service knew `species`.
/// First comes the lineage of every taxon in `species`, in order; then, for
/// every asked taxon id that `species` does not hold, a blank lineage, in
/// the order in which the ids were asked.
pub fn mappings(taxids: &[usize], species: &Vec<EnaTaxonInfo>) -> (found: Vec<Mapping>)
    ensures
        found.len() == species.len() + unmapped(taxids@, taxids_of(species@).to_set()).len(),
        forall|i: int| 0 <= i < species.len() ==> is_lineage_of(#[trigger] found@[i], species@[i]),
        forall|j: int|
            0 <= j < unmapped(taxids@, taxids_of(species@).to_set()).len() ==> is_blank_for(
                #[trigger] found@[species.len() + j],
                unmapped(taxids@, taxids_of(species@).to_set())[j],
            ),
{
    broadcast use vstd::std_specs::hash::group_hash_axioms;

    let ghost known = taxids_of(species@).to_set();
    let mut found: Vec<Mapping> = Vec::new();
    let mut seen: HashSet<usize> = HashSet::new();
    let mut i: usize = 0;
    assert(taxids_of(species@).take(0).to_set() == Set::<usize>::empty());
    while i < species.len()
        invariant
            i <= species.len(),
            found.len() == i,
            seen@ == taxids_of(species@).take(i as int).to_set(),
            forall|k: int| 0 <= k < i ==> is_lineage_of(#[trigger] found@[k], species@[k]),
        decreases species.len() - i,
    {
        let info = lineage_mapping(&species[i]);
        found.push(info);
        proof {
            let before = taxids_of(species@).take(i as int);
            let after = taxids_of(species@).take(i + 1);
            assert(after == before.push(species@[i as int].taxid));
            before.lemma_push_to_set_commute(species@[i as int].taxid);
        }
        seen.insert(species[i].taxid);
        i += 1;
    }
    assert(taxids_of(species@).take(species.len() as int) == taxids_of(species@));
    let mut j: usize = 0;
    assert(taxids@.take(0) == Seq::<usize>::empty());
    while j < taxids.len()
        invariant
            j <= taxids.len(),
            known == taxids_of(species@).to_set(),
            seen@ == known.union(unmapped(taxids@.take(j as int), known).to_set()),
            found.len() == species.len() + unmapped(taxids@.take(j as int), known).len(),
            forall|k: int|
                0 <= k < species.len() ==> is_lineage_of(#[trigger] found@[k], species@[k]),
            forall|k: int|
                0 <= k < unmapped(taxids@.take(j as int), known).len() ==> is_blank_for(
                    #[trigger] found@[species.len() + k],
                    unmapped(taxids@.take(j as int), known)[k],
                ),
        decreases taxids.len() - j,
    {
        let taxid = taxids[j];
        let ghost before = unmapped(taxids@.take(j as int), known);
        proof {
            assert(taxids@.take(j + 1).drop_last() == taxids@.take(j as int));
            assert(taxids@.take(j + 1).last() == taxid);
            assert(seen@.contains(taxid) == (known.contains(taxid) || before.contains(taxid)));
        }
        if !seen.contains(&taxid) {
            let ghost sofar = found@;
            found.push(blank_mapping(taxid));
            seen.insert(taxid);
            proof {
                before.lemma_push_to_set_commute(taxid);
                assert(known.union(before.to_set()).insert(taxid) == known.union(
                    before.push(taxid).to_set(),
                ));
                assert forall|k: int| 0 <= k < before.push(taxid).len() implies is_blank_for(
                    #[trigger] found@[species.len() + k],
                    before.push(taxid)[k],
                ) by {
                    if k < before.len() {
                        assert(found@[species.len() + k] == sofar[species.len() + k]);
                    }
                }
                assert forall|k: int| 0 <= k < species.len() implies is_lineage_of(
                    #[trigger] found@[k],
                    species@[k],
                ) by {
                    assert(found@[k] == sofar[k]);
                }
            }
        }
        j += 1;
    }
    assert(taxids@.take(taxids.len() as int) == taxids@);
    found
}

} // verus!
