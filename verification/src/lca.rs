//! The lowest rank at which a sequence and the model it was drawn from have
//! a common ancestor.
use std::collections::HashMap;
use vstd::prelude::*;
use crate::lineage::{Mapping, Rank, TaxonInfo};

verus! {

/// That a diagram of the sequence `urs` was drawn from the model
/// `model_name`, with the taxa of both.
#[derive(Debug)]
pub struct DiagramAssignment {
    pub urs: String,
    pub model_name: String,
    pub sequence_taxid: usize,
    pub model_taxid: usize,
}

/// The rank of the lowest common ancestor of a sequence and its model.
#[derive(Debug)]
pub struct Lca {
    pub urs: String,
    pub taxid: usize,
    pub model_name: String,
    pub ancestor_rank: Rank,
}

/// Why no common ancestor could be given.
#[derive(Clone, Copy, Debug, PartialEq, Eq, Structural)]
pub enum LcaError {
    /// The lineage of the taxon is not known.
    MissingLineage { taxid: usize },
    /// The two lineages differ at the root already, which no pair of
    /// lineages of living things does.
    InvariantViolation,
    /// The two taxa differ and their lineages are the same at every rank.
    NoCommonAncestor,
}

/// The lineages by taxon id.
pub type TreeInfo = HashMap<usize, Mapping>;

/// The level of the widest rank at or below `level` at which the two
/// lineages hold different taxa, or -1 where they agree on all of them.
pub open spec fn widest_difference(a: Mapping, b: Mapping, level: int) -> int
    decreases level + 1,
{
    if level < 0 || level > 8 {
        -1
    } else if a.slot(Rank::all()[level]) != b.slot(Rank::all()[level]) {
        level
    } else {
        widest_difference(a, b, level - 1)
    }
}

/// The rank of the lowest common ancestor of two different taxa with the
/// lineages `a` and `b`: one step wider than the widest rank at which the
/// lineages differ.
pub open spec fn ancestor_rank(a: Mapping, b: Mapping) -> Result<Rank, LcaError> {
    let level = widest_difference(a, b, 8);
    if level < 0 {
        Err(LcaError::NoCommonAncestor)
    } else if level == 8 {
        Err(LcaError::InvariantViolation)
    } else {
        Ok(Rank::all()[level + 1])
    }
}

/// What `lca` gives for a sequence taxon and a model taxon. Both lineages
/// have to be known, that of the sequence being asked for first. The same
/// taxon on both sides is a common ancestor at the rank of species.
pub open spec fn lca_rank(trees: Map<usize, Mapping>, sequence_taxid: usize, model_taxid: usize)
    -> Result<Rank, LcaError> {
    if !trees.contains_key(sequence_taxid) {
        Err(LcaError::MissingLineage { taxid: sequence_taxid })
    } else if !trees.contains_key(model_taxid) {
        Err(LcaError::MissingLineage { taxid: model_taxid })
    } else if sequence_taxid == model_taxid {
        Ok(Rank::Species)
    } else {
        ancestor_rank(trees[sequence_taxid], trees[model_taxid])
    }
}

/// Whether two slots hold the same taxon, or both none.
fn same_slot(a: Option<&TaxonInfo>, b: Option<&TaxonInfo>) -> (same: bool)
    ensures
        same == (match a {
            Some(taxon) => Some(taxon@),
            None => None,
        } == match b {
            Some(taxon) => Some(taxon@),
            None => None,
        }),
{
    match (a, b) {
        (None, None) => true,
        (Some(x), Some(y)) => x.name == y.name && x.taxid == y.taxid && x.rank == y.rank,
        _ => false,
    }
}

/// Finds the rank of the lowest common ancestor of the sequence and the
/// model of `assignment`. The lineages are compared from root down to
/// species; the ancestor stands one step above the first rank at which they
/// differ.
pub fn lca(trees: &TreeInfo, assignment: DiagramAssignment) -> (found: Result<Lca, LcaError>)
    ensures
        match found {
            Ok(lca) => {
                &&& lca_rank(trees@, assignment.sequence_taxid, assignment.model_taxid) == Ok::<
                    Rank,
                    LcaError,
                >(lca.ancestor_rank)
                &&& lca.urs == assignment.urs
                &&& lca.taxid == assignment.sequence_taxid
                &&& lca.model_name == assignment.model_name
            },
            Err(e) => lca_rank(trees@, assignment.sequence_taxid, assignment.model_taxid) == Err::<
                Rank,
                LcaError,
            >(e),
        },
{
    broadcast use vstd::std_specs::hash::group_hash_axioms;

    let sequence_lineage = match trees.get(&assignment.sequence_taxid) {
        Some(lineage) => lineage,
        None => {
            return Err(LcaError::MissingLineage { taxid: assignment.sequence_taxid });
        },
    };
    let model_lineage = match trees.get(&assignment.model_taxid) {
        Some(lineage) => lineage,
        None => {
            return Err(LcaError::MissingLineage { taxid: assignment.model_taxid });
        },
    };
    if assignment.sequence_taxid == assignment.model_taxid {
        return Ok(
            Lca {
                urs: assignment.urs,
                taxid: assignment.sequence_taxid,
                model_name: assignment.model_name,
                ancestor_rank: Rank::Species,
            },
        );
    }
    let ranks = Rank::ascending();
    let mut level: usize = ranks.len();
    while level > 0
        invariant
            level <= 9,
            ranks@ == Rank::all(),
            assignment.sequence_taxid != assignment.model_taxid,
            trees@.contains_key(assignment.sequence_taxid),
            trees@.contains_key(assignment.model_taxid),
            *sequence_lineage == trees@[assignment.sequence_taxid],
            *model_lineage == trees@[assignment.model_taxid],
            widest_difference(*sequence_lineage, *model_lineage, 8) == widest_difference(
                *sequence_lineage,
                *model_lineage,
                level - 1,
            ),
        decreases level,
    {
        level -= 1;
        let rank = ranks[level];
        let sequence_taxon = sequence_lineage.taxon_at(&rank);
        let model_taxon = model_lineage.taxon_at(&rank);
        if !same_slot(sequence_taxon, model_taxon) {
            proof {
                assert(Rank::all()[level as int] == rank);
                assert(rank.level() == level);
                assert(sequence_lineage.slot(rank) != model_lineage.slot(rank));
                assert(widest_difference(*sequence_lineage, *model_lineage, level as int)
                    == level);
            }
            return match rank.previous_rank() {
                None => Err(LcaError::InvariantViolation),
                Some(previous) => Ok(
                    Lca {
                        urs: assignment.urs,
                        taxid: assignment.sequence_taxid,
                        model_name: assignment.model_name,
                        ancestor_rank: previous,
                    },
                ),
            };
        }
        assert(sequence_lineage.slot(Rank::all()[level as int]) == model_lineage.slot(
            Rank::all()[level as int],
        ));
    }
    Err(LcaError::NoCommonAncestor)
}

} // verus!
