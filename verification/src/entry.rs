//! The entries of the catalog: units, the nodes of the taxonomy, and the
//! documents attached to them.

use crate::address::Address;
use crate::error::HowError;
use crate::path::all_derivable;
use crate::path::component_bytes;
use crate::path::component_text;
use crate::path::derive_tree_paths;
use crate::path::derived_path;
use crate::path::derived_paths;
use crate::path::is_derivable;
use crate::path::is_derivable_path;
use crate::path::lemma_component_bytes_injective;
use crate::path::own_tail;
use crate::path::path_segments;
use crate::path::TreePath;
use crate::path::TREE_ROOT;
use std::collections::BTreeMap;
use vstd::prelude::*;
use vstd::string::StringExecFns;

verus! {

/// A node of the taxonomy. Only the parents, the version and the path
/// abbreviation bear on indexing; the rest is carried along.
#[derive(Clone, Debug)]
pub struct Unit {
    /// Full dotted paths of the parent nodes: the taxonomy is a graph, so
    /// there may be several, or none.
    pub parents: Vec<String>,
    pub version: String,
    pub short_name: String,
    /// The short segment that this node adds to each parent path.
    pub path_abbreviation: String,
    pub stewards: Vec<Address>,
    pub processes: Vec<(String, String)>,
    pub history: BTreeMap<String, Address>,
    pub meta: BTreeMap<String, String>,
}

/// The segments of the path by which a node is shown: those of its first
/// parent, then its own segment where that is not empty.
pub open spec fn display_segments(parents: Seq<Seq<char>>, own_segment: Seq<char>) -> Seq<
    Seq<char>,
> {
    let inherited = if parents.len() == 0 {
        Seq::empty()
    } else {
        path_segments(parents[0])
    };
    if own_segment.len() == 0 {
        inherited
    } else {
        inherited.push(own_segment)
    }
}

/// Segments written one after the other with a dot between neighbours.
pub open spec fn dotted(segments: Seq<Seq<char>>) -> Seq<char>
    decreases segments.len(),
{
    if segments.len() == 0 {
        Seq::empty()
    } else if segments.len() == 1 {
        segments[0]
    } else {
        dotted(segments.drop_last()) + seq!['.'] + segments.last()
    }
}

/// Writes segments one after the other with a dot between neighbours.
pub fn join_dotted(segments: &Vec<String>) -> (text: String)
    ensures
        text@ == dotted(segments.deep_view()),
{
    let mut text = String::new();
    let mut i: usize = 0;
    assert(segments.deep_view().take(0) =~= Seq::empty());
    while i < segments.len()
        invariant
            i <= segments.len(),
            text@ == dotted(segments.deep_view().take(i as int)),
        decreases segments.len() - i,
    {
        let ghost seen = segments.deep_view().take(i as int);
        let ghost next = segments.deep_view().take(i + 1);
        proof {
            assert(next.drop_last() =~= seen);
            assert(next.last() == segments[i as int]@);
            reveal_strlit(".");
            assert("."@ =~= seq!['.']);
        }
        if i > 0 {
            text.append(".");
        }
        text.append(segments[i].as_str());
        proof {
            if i == 0 {
                assert(text@ =~= segments[i as int]@);
            }
        }
        i += 1;
    }
    assert(segments.deep_view().take(segments.len() as int) =~= segments.deep_view());
    text
}

impl Unit {
    /// The anchor path of every parent of the node can be derived.
    pub open spec fn has_derivable_parents(&self) -> bool {
        all_derivable(self.parents.deep_view())
    }

    /// Tells whether the anchor path of every parent of the node can be
    /// derived.
    pub fn parents_are_derivable(&self) -> (derivable: bool)
        ensures
            derivable == self.has_derivable_parents(),
    {
        let mut i: usize = 0;
        while i < self.parents.len()
            invariant
                i <= self.parents.len(),
                forall|j: int| 0 <= j < i ==> is_derivable_path(#[trigger] self.parents.deep_view()[j]),
            decreases self.parents.len() - i,
        {
            if !is_derivable(self.parents[i].as_str()) {
                assert(!is_derivable_path(self.parents.deep_view()[i as int]));
                return false;
            }
            i += 1;
        }
        true
    }

    /// The anchor paths under which the node is indexed: one for each parent,
    /// or the single path below the root where it has none. Nodes with a
    /// parent whose shards cannot be computed in 32 bits are left out:
    /// `parents_are_derivable` tells.
    pub fn tree_paths(&self) -> (paths: Vec<TreePath>)
        requires
            self.has_derivable_parents(),
        ensures
            paths.deep_view() == derived_paths(self.parents.deep_view(), self.path_abbreviation@),
            paths.len() == if self.parents.len() == 0 {
                1
            } else {
                self.parents.len()
            },
            forall|i: int|
                0 <= i < paths.len() ==> (#[trigger] paths[i])@.len() > 0 && paths[i]@[0]
                    == component_bytes(TREE_ROOT@),
            self.path_abbreviation@.len() > 0 ==> forall|i: int|
                0 <= i < paths.len() ==> (#[trigger] paths[i])@.len() >= 2 && paths[i]@.last()
                    == component_bytes(self.path_abbreviation@),
    {
        derive_tree_paths(&self.parents, self.path_abbreviation.as_str())
    }

    /// The dotted path by which the node is shown: its first anchor path
    /// without the root. The conversion of each component back to text
    /// cannot fail on a derived path, so the result is always `Ok`.
    pub fn path_str(&self) -> (text: Result<String, HowError>)
        requires
            self.has_derivable_parents(),
        ensures
            text is Ok,
            text->Ok_0@ == dotted(
                display_segments(self.parents.deep_view(), self.path_abbreviation@),
            ),
    {
        let paths = self.tree_paths();
        let components = &paths[0].components;
        let ghost shown = display_segments(self.parents.deep_view(), self.path_abbreviation@);
        proof {
            lemma_first_path_components(self.parents.deep_view(), self.path_abbreviation@);
            assert(paths.deep_view()[0] == paths[0]@);
        }
        let mut segments: Vec<String> = Vec::new();
        let mut i: usize = 1;
        assert(segments.deep_view() =~= shown.take(0));
        while i < components.len()
            invariant
                1 <= i <= components.len(),
                components.deep_view().len() == shown.len() + 1,
                forall|j: int|
                    0 <= j < shown.len() ==> components.deep_view()[j + 1] == component_bytes(
                        #[trigger] shown[j],
                    ),
                segments.deep_view() == shown.take(i - 1),
            decreases components.len() - i,
        {
            let ghost expected = shown[i - 1];
            assert(components[i as int]@ =~= components.deep_view()[i as int]);
            match component_text(&components[i]) {
                Ok(segment) => {
                    proof {
                        lemma_component_bytes_injective(segment@, expected);
                    }
                    let ghost before = segments.deep_view();
                    segments.push(segment);
                    assert(segments.deep_view() =~= before.push(expected));
                    assert(shown.take(i as int) =~= shown.take(i - 1).push(expected));
                },
                Err(error) => {
                    assert(component_bytes(expected) == components[i as int]@);
                    return Err(HowError::Serialization(error));
                },
            }
            i += 1;
        }
        assert(shown.take(shown.len() as int) =~= shown);
        Ok(join_dotted(&segments))
    }
}

/// The first anchor path of a node is the root followed by one component
/// for each segment of its shown path.
pub proof fn lemma_first_path_components(parents: Seq<Seq<char>>, own_segment: Seq<char>)
    ensures
        ({
            let first = derived_paths(parents, own_segment)[0];
            let shown = display_segments(parents, own_segment);
            &&& first.len() == shown.len() + 1
            &&& forall|j: int|
                0 <= j < shown.len() ==> first[j + 1] == component_bytes(#[trigger] shown[j])
        }),
{
    let first = derived_paths(parents, own_segment)[0];
    let shown = display_segments(parents, own_segment);
    if parents.len() == 0 {
        assert(first =~= seq![component_bytes(TREE_ROOT@)] + own_tail(own_segment));
    } else {
        assert(first == derived_path(parents[0], own_segment));
    }
}

/// One typed block of a document's content.
#[derive(Clone, Debug)]
pub struct Section {
    pub name: String,
    pub section_type: String,
    pub content_type: String,
    pub source_path: String,
    pub source_unit: Option<Address>,
    pub content: String,
}

impl Section {
    /// Makes a section that holds the given texts and source.
    pub fn new(
        name: &str,
        section_type: &str,
        content_type: &str,
        source_path: &str,
        source_unit: Option<Address>,
        content: &str,
    ) -> (section: Self)
        ensures
            section.name@ == name@,
            section.section_type@ == section_type@,
            section.content_type@ == content_type@,
            section.source_path@ == source_path@,
            section.source_unit == source_unit,
            section.content@ == content@,
    {
        Section {
            name: String::from_str(name),
            section_type: String::from_str(section_type),
            content_type: String::from_str(content_type),
            source_path: String::from_str(source_path),
            source_unit,
            content: String::from_str(content),
        }
    }
}

/// Content attached to a unit, which it names by address.
#[derive(Clone, Debug)]
pub struct Document {
    pub unit_hash: Address,
    pub document_type: String,
    pub state: String,
    pub editors: Vec<Address>,
    pub content: Vec<Section>,
    pub meta: BTreeMap<String, String>,
}

/// The kinds of entry that the catalog stores.
#[derive(Clone, Debug)]
pub enum EntryTypes {
    Unitx(Unit),
    Document(Document),
}

} // verus!
