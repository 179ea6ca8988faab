//! Taxon records as the taxonomy service gives them.
use vstd::prelude::*;
use vstd::string::*;
use crate::text::{decimal, decimal_text};

verus! {

/// One ancestor in the lineage of a taxon.
#[derive(Debug)]
pub struct EnaLineageTaxon {
    pub name: String,
    pub taxid: usize,
    pub rank: Option<String>,
}

/// The ancestors of a taxon, in the order in which the service lists them.
#[derive(Debug)]
pub struct EnaLineage {
    pub taxons: Vec<EnaLineageTaxon>,
}

/// A taxon with its lineage.
#[derive(Debug)]
pub struct EnaTaxonInfo {
    pub name: String,
    pub taxid: usize,
    pub rank: Option<String>,
    pub lineage: EnaLineage,
}

/// The text of a rank that may be absent.
pub open spec fn rank_text(rank: Option<String>) -> Option<Seq<char>> {
    match rank {
        Some(text) => Some(text@),
        None => None,
    }
}

impl EnaTaxonInfo {
    /// The ancestors of the taxon.
    pub fn parent_taxons(&self) -> (parents: &Vec<EnaLineageTaxon>)
        ensures
            parents == &self.lineage.taxons,
    {
        &self.lineage.taxons
    }
}

/// The address under which the taxonomy service answers.
pub open spec fn service_address() -> Seq<char> {
    "https://www.ebi.ac.uk/ena/browser/api/xml/"@
}

/// The taxon ids in decimal digits, with a comma between two of them.
pub open spec fn listed_ids(taxids: Seq<usize>) -> Seq<char>
    decreases taxids.len(),
{
    if taxids.len() == 0 {
        Seq::empty()
    } else if taxids.len() == 1 {
        decimal_text(taxids[0] as nat)
    } else {
        listed_ids(taxids.drop_last()).push(',') + decimal_text(taxids.last() as nat)
    }
}

/// The address to ask for the taxa `taxids`: that of the service followed by
/// the ids, with commas between them.
pub fn species_url(taxids: &[usize]) -> (url: String)
    ensures
        url@ == service_address() + listed_ids(taxids@),
{
    let mut url = String::from_str("https://www.ebi.ac.uk/ena/browser/api/xml/");
    let mut i: usize = 0;
    assert(taxids@.take(0) == Seq::<usize>::empty());
    assert(service_address() + Seq::<char>::empty() == service_address());
    while i < taxids.len()
        invariant
            i <= taxids.len(),
            url@ == service_address() + listed_ids(taxids@.take(i as int)),
        decreases taxids.len() - i,
    {
        let ghost listed = listed_ids(taxids@.take(i as int));
        let ghost more = taxids@.take(i + 1);
        proof {
            assert(more.drop_last() == taxids@.take(i as int));
            assert(more.last() == taxids@[i as int]);
        }
        if i > 0 {
            url.push(',');
            assert((service_address() + listed).push(',') == service_address() + listed.push(
                ',',
            ));
        } else {
            assert(listed == Seq::<char>::empty());
            assert(more.len() == 1);
            assert(more[0] == taxids@[i as int]);
        }
        let id = decimal(taxids[i]);
        url.append(id.as_str());
        proof {
            let text = decimal_text(taxids@[i as int] as nat);
            if i > 0 {
                assert((service_address() + listed.push(',')) + text == service_address()
                    + (listed.push(',') + text));
            } else {
                assert((service_address() + listed) + text == service_address() + text);
            }
        }
        i += 1;
    }
    assert(taxids@.take(taxids.len() as int) == taxids@);
    url
}

} // verus!
