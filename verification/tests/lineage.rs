use std::collections::HashMap;

use urs_tree::ena::{species_url, EnaLineage, EnaLineageTaxon, EnaTaxonInfo};
use urs_tree::lca::{lca, DiagramAssignment, LcaError};
use urs_tree::lineage::{lineage_mapping, mappings, parse_taxid, Mapping, Rank, TaxonInfo};

fn parent(name: &str, taxid: usize, rank: Option<&str>) -> EnaLineageTaxon {
    EnaLineageTaxon { name: name.to_string(), taxid, rank: rank.map(|r| r.to_string()) }
}

fn taxon(
    name: &str,
    taxid: usize,
    rank: Option<&str>,
    parents: Vec<EnaLineageTaxon>,
) -> EnaTaxonInfo {
    EnaTaxonInfo {
        name: name.to_string(),
        taxid,
        rank: rank.map(|r| r.to_string()),
        lineage: EnaLineage { taxons: parents },
    }
}

fn info(name: &str, taxid: usize, rank: Rank) -> Option<TaxonInfo> {
    Some(TaxonInfo { name: name.to_string(), taxid, rank })
}

fn human() -> EnaTaxonInfo {
    taxon(
        "Homo sapiens",
        9606,
        Some("species"),
        vec![
            parent("Homo", 9605, Some("genus")),
            parent("Homininae", 207598, Some("subfamily")),
            parent("Hominidae", 9604, Some("family")),
            parent("Primates", 9443, Some("order")),
            parent("Mammalia", 40674, Some("class")),
            parent("Chordata", 7711, Some("phylum")),
            parent("Metazoa", 33208, Some("kingdom")),
            parent("Opisthokonta", 33154, None),
            parent("Eukaryota", 2759, Some("superkingdom")),
        ],
    )
}

fn mouse() -> EnaTaxonInfo {
    taxon(
        "Mus musculus",
        10090,
        Some("species"),
        vec![
            parent("Mus", 10088, Some("genus")),
            parent("Muridae", 10066, Some("family")),
            parent("Rodentia", 9989, Some("order")),
            parent("Mammalia", 40674, Some("class")),
            parent("Chordata", 7711, Some("phylum")),
            parent("Metazoa", 33208, Some("kingdom")),
            parent("Eukaryota", 2759, Some("superkingdom")),
        ],
    )
}

fn blank(taxid: usize) -> Mapping {
    Mapping {
        taxid,
        name: None,
        species: None,
        genus: None,
        family: None,
        order: None,
        class: None,
        phylum: None,
        kingdom: None,
        superkingdom: None,
        root: None,
    }
}

#[test]
fn reads_ranks_from_their_names() {
    let names = [
        "species", "genus", "family", "order", "class", "phylum", "kingdom", "superkingdom",
        "root",
    ];
    let ranks = Rank::ascending();
    assert_eq!(ranks.len(), 9);
    for (name, rank) in names.iter().zip(ranks.iter()) {
        assert_eq!(Rank::from_string(&name.to_string()), Some(*rank));
    }
    assert_eq!(ranks[0], Rank::Species);
    assert_eq!(ranks[8], Rank::Root);
    assert_eq!(Rank::from_string(&"Species".to_string()), None);
    assert_eq!(Rank::from_string(&"subfamily".to_string()), None);
    assert_eq!(Rank::from_string(&"".to_string()), None);
}

#[test]
fn steps_one_rank_wider() {
    let ranks = Rank::ascending();
    for level in 0..8 {
        assert_eq!(ranks[level].previous_rank(), Some(ranks[level + 1]));
    }
    assert_eq!(Rank::Root.previous_rank(), None);
}

#[test]
fn lays_out_a_lineage_by_rank() {
    let mapping = lineage_mapping(&human());
    assert_eq!(
        mapping,
        Mapping {
            taxid: 9606,
            name: Some("Homo sapiens".to_string()),
            species: info("Homo sapiens", 9606, Rank::Species),
            genus: info("Homo", 9605, Rank::Genus),
            family: info("Hominidae", 9604, Rank::Family),
            order: info("Primates", 9443, Rank::Order),
            class: info("Mammalia", 40674, Rank::Class),
            phylum: info("Chordata", 7711, Rank::Phylum),
            kingdom: info("Metazoa", 33208, Rank::Kingdom),
            superkingdom: info("Eukaryota", 2759, Rank::Superkingdom),
            root: info("cellular organisms", 131567, Rank::Root),
        }
    );
    assert_eq!(mapping.taxon_at(&Rank::Genus), info("Homo", 9605, Rank::Genus).as_ref());
    assert!(!mapping.is_empty());
}

#[test]
fn later_ancestor_of_a_rank_stays() {
    let odd = taxon(
        "Odd",
        5,
        Some("strain"),
        vec![
            parent("First", 1, Some("genus")),
            parent("Kind", 2, Some("species")),
            parent("Second", 3, Some("genus")),
            parent("Top", 4, Some("root")),
        ],
    );
    let mapping = lineage_mapping(&odd);
    assert_eq!(mapping.genus, info("Second", 3, Rank::Genus));
    assert_eq!(mapping.species, info("Kind", 2, Rank::Species));
    assert_eq!(mapping.root, info("Top", 4, Rank::Root));
    assert_eq!(mapping.taxon_at(&Rank::Family), None);
}

#[test]
fn tells_when_nothing_is_known() {
    assert!(blank(7).is_empty());
    assert!(!blank(131567).is_empty());
    let bare = lineage_mapping(&taxon("Bare", 8, None, vec![]));
    assert_eq!(bare.root, info("cellular organisms", 131567, Rank::Root));
    assert!(bare.is_empty());
    let mut filled = blank(7);
    filled.superkingdom = info("Eukaryota", 2759, Rank::Superkingdom);
    assert!(!filled.is_empty());
}

#[test]
fn adds_blank_lineages_for_unknown_taxa() {
    let found = mappings(&[3, 9606, 10090, 3, 4, 9606], &vec![human(), mouse()]);
    assert_eq!(
        found,
        vec![lineage_mapping(&human()), lineage_mapping(&mouse()), blank(3), blank(4)]
    );
    assert_eq!(mappings(&[], &vec![]), vec![]);
}

#[test]
fn builds_the_address_of_the_taxonomy_service() {
    assert_eq!(
        species_url(&[9606, 10090, 0]),
        "https://www.ebi.ac.uk/ena/browser/api/xml/9606,10090,0"
    );
    assert_eq!(species_url(&[7]), "https://www.ebi.ac.uk/ena/browser/api/xml/7");
    assert_eq!(species_url(&[]), "https://www.ebi.ac.uk/ena/browser/api/xml/");
    assert_eq!(
        species_url(&[usize::MAX]),
        format!("https://www.ebi.ac.uk/ena/browser/api/xml/{}", usize::MAX)
    );
}

fn assignment(sequence_taxid: usize, model_taxid: usize) -> DiagramAssignment {
    DiagramAssignment {
        urs: "URS0000000372".to_string(),
        model_name: "model".to_string(),
        sequence_taxid,
        model_taxid,
    }
}

fn trees() -> HashMap<usize, Mapping> {
    let mut trees = HashMap::new();
    trees.insert(9606, lineage_mapping(&human()));
    trees.insert(10090, lineage_mapping(&mouse()));
    trees.insert(3, blank(3));
    let mut copy = lineage_mapping(&human());
    copy.taxid = 99;
    trees.insert(99, copy);
    trees
}

#[test]
fn finds_the_lowest_common_rank() {
    let found = lca(&trees(), assignment(9606, 10090)).unwrap();
    assert_eq!(found.ancestor_rank, Rank::Class);
    assert_eq!(found.taxid, 9606);
    assert_eq!(found.urs, "URS0000000372");
    assert_eq!(found.model_name, "model");
    let same = lca(&trees(), assignment(9606, 9606)).unwrap();
    assert_eq!(same.ancestor_rank, Rank::Species);
}

#[test]
fn says_why_there_is_no_common_rank() {
    assert_eq!(
        lca(&trees(), assignment(1, 9606)).unwrap_err(),
        LcaError::MissingLineage { taxid: 1 }
    );
    assert_eq!(
        lca(&trees(), assignment(9606, 2)).unwrap_err(),
        LcaError::MissingLineage { taxid: 2 }
    );
    assert_eq!(
        lca(&trees(), assignment(1, 2)).unwrap_err(),
        LcaError::MissingLineage { taxid: 1 }
    );
    assert_eq!(lca(&trees(), assignment(9606, 3)).unwrap_err(), LcaError::InvariantViolation);
    assert_eq!(lca(&trees(), assignment(9606, 99)).unwrap_err(), LcaError::NoCommonAncestor);
}

#[test]
fn reads_taxon_ids_as_the_standard_library_reads_numbers() {
    let max = usize::MAX.to_string();
    let beyond = format!("{}0", usize::MAX);
    let next = format!("{}", usize::MAX as u128 + 1);
    let lines = [
        "9606",
        " 9606\t",
        "+9606",
        "0",
        "007",
        "+0",
        "",
        " ",
        "+",
        "-1",
        "++1",
        "1+",
        "96 06",
        "9606a",
        "0x10",
        "\u{663}",
        "1\u{a0}",
        max.as_str(),
        beyond.as_str(),
        next.as_str(),
        "00000000000000000000000000000000000000007",
    ];
    for line in lines {
        assert_eq!(parse_taxid(line), line.trim().parse::<usize>().ok(), "{:?}", line);
    }
    assert_eq!(parse_taxid("131567"), Some(131567));
    assert_eq!(parse_taxid(&max), Some(usize::MAX));
    assert_eq!(parse_taxid(&next), None);
}
