//! The entity catalog: canonical entities with a primary name and optional
//! alternate names, plus the error taxonomy of the whole pipeline.

use vstd::prelude::*;

verus! {

/// A canonical entity: a primary name and accepted alternate spellings.
/// An empty `aliases` vector means the entity has no alternate names.
#[derive(Debug)]
pub struct Group {
    pub name: String,
    pub aliases: Vec<String>,
}

/// Spec-level model of a [`Group`]: its name and aliases as character
/// sequences.
#[verifier::ext_equal]
pub ghost struct GroupModel {
    pub name: Seq<char>,
    pub aliases: Seq<Seq<char>>,
}

impl View for Group {
    type V = GroupModel;

    open spec fn view(&self) -> GroupModel {
        GroupModel { name: self.name@, aliases: self.aliases.deep_view() }
    }
}

/// The immutable catalog: the ordered collection of all entities that votes
/// are tallied against. Iteration order is the tie-break order of the
/// resolver.
#[derive(Debug)]
pub struct Groups {
    pub group: Vec<Group>,
}

impl View for Groups {
    type V = Seq<GroupModel>;

    open spec fn view(&self) -> Seq<GroupModel> {
        self.group@.map_values(|g: Group| g@)
    }
}

/// The error taxonomy of the pipeline. All errors are fatal for the run.
#[derive(Debug, Clone, Copy, PartialEq, Eq, Structural)]
pub enum VoteError {
    /// The catalog source was malformed; the run aborts before any vote is
    /// processed. Produced by the peripheral layer that loads the catalog.
    ConfigParseError,
    /// A vote block did not yield exactly the configured number of tokens
    /// after the header skip; the whole run aborts with no partial output.
    InputShapeError,
    /// A mutation was requested after the tally was finalized.
    StateError,
}

} // verus!
