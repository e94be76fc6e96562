//! Writing, indexing, unindexing and listing units. The store itself is the
//! caller's: each function here takes what the store gave and says what to do
//! with the store next.

use crate::address::Address;
use crate::entry::Unit;
use crate::error::HowError;
use crate::index::collect_handles;
use crate::index::handles_to;
use crate::index::index_plan;
use crate::index::lemma_handles_to_add;
use crate::index::link_tag;
use crate::index::link_tag_text;
use crate::index::target_of;
use crate::index::IndexAction;
use crate::index::IndexLink;
use crate::index::IndexLinkView;
use crate::index::LinkTypes;
use crate::path::derived_paths;
use crate::path::lemma_undotted_is_one_component;
use crate::path::parse_path;
use crate::path::units_anchor;
use crate::path::TreePath;
use crate::path::UNITS_ROOT;
use vstd::prelude::*;

verus! {

/// The state in which a unit starts.
pub const START_STATE: &'static str = "define";

/// The state of a unit that is in use.
pub const ALIVE_STATE: &'static str = "_alive";

/// The path of the anchor under which every unit is indexed.
pub fn get_units_path() -> (path: TreePath)
    ensures
        path@ == units_anchor(),
{
    proof {
        reveal_strlit("units");
        lemma_undotted_is_one_component(UNITS_ROOT@);
    }
    TreePath { components: parse_path(UNITS_ROOT) }
}

/// The anchors that hold a unit's index links: the anchor of all units, then
/// the unit's own tree anchors.
pub open spec fn index_anchors(tree_paths: Seq<Seq<Seq<u8>>>) -> Seq<Seq<Seq<u8>>> {
    seq![units_anchor()] + tree_paths
}

/// Lists the anchors that hold a unit's index links, in the order in which
/// they are written and scanned.
pub fn unit_anchors(tree_paths: &Vec<TreePath>) -> (anchors: Vec<TreePath>)
    ensures
        anchors.deep_view() == index_anchors(tree_paths.deep_view()),
{
    let mut anchors: Vec<TreePath> = Vec::new();
    anchors.push(get_units_path());
    let mut i: usize = 0;
    assert(anchors.deep_view() =~= seq![units_anchor()] + tree_paths.deep_view().take(0));
    while i < tree_paths.len()
        invariant
            i <= tree_paths.len(),
            anchors.deep_view() == seq![units_anchor()] + tree_paths.deep_view().take(i as int),
        decreases tree_paths.len() - i,
    {
        let ghost before = anchors.deep_view();
        anchors.push(tree_paths[i].clone());
        assert(anchors.deep_view() =~= before.push(tree_paths[i as int]@));
        assert(anchors.deep_view() =~= seq![units_anchor()] + tree_paths.deep_view().take(i + 1));
        i += 1;
    }
    assert(tree_paths.deep_view().take(tree_paths.len() as int) =~= tree_paths.deep_view());
    anchors
}

/// Plans the index links of a unit: under the anchor of all units and under
/// each of its tree anchors, one link to the unit, tagged with the state and
/// the version. Nothing is left out and nothing is merged: a tree anchor that
/// occurs twice is linked twice.
pub fn create_unit_links(
    hash: &Address,
    tree_paths: &Vec<TreePath>,
    state: &str,
    version: &str,
) -> (plan: Vec<IndexAction>)
    ensures
        plan.deep_view() == index_plan(
            hash@,
            index_anchors(tree_paths.deep_view()),
            link_tag_text(state@, version@),
        ),
{
    let anchors = unit_anchors(tree_paths);
    let ghost tag_text = link_tag_text(state@, version@);
    let mut plan: Vec<IndexAction> = Vec::new();
    let mut i: usize = 0;
    assert(anchors.deep_view().take(0) =~= Seq::empty());
    assert(plan.deep_view() =~= index_plan(hash@, anchors.deep_view().take(0), tag_text));
    while i < anchors.len()
        invariant
            i <= anchors.len(),
            tag_text == link_tag_text(state@, version@),
            plan.deep_view() == index_plan(hash@, anchors.deep_view().take(i as int), tag_text),
        decreases anchors.len() - i,
    {
        let ghost next = anchors.deep_view().take(i + 1);
        proof {
            assert(next.drop_last() =~= anchors.deep_view().take(i as int));
            assert(next.last() == anchors[i as int]@);
        }
        plan.push(IndexAction::Ensure { anchor: anchors[i].clone(), link_type: LinkTypes::Tree });
        plan.push(
            IndexAction::Link {
                anchor: anchors[i].clone(),
                target: hash.clone(),
                link_type: LinkTypes::Unit,
                tag: link_tag(state, version),
            },
        );
        assert(plan.deep_view() =~= index_plan(hash@, next, tag_text));
        i += 1;
    }
    assert(anchors.deep_view().take(anchors.len() as int) =~= anchors.deep_view());
    plan
}

/// Picks the links to remove when a unit is unindexed. `enumerated` holds
/// the links that each of the unit's anchors lists at present; the result is
/// the handle of every one of them that points to the unit, whatever its tag,
/// in the order in which they were listed.
pub fn delete_unit_links(hash: &Address, enumerated: &Vec<Vec<IndexLink>>) -> (doomed: Vec<Address>)
    ensures
        doomed.deep_view() == handles_to(enumerated.deep_view().flatten(), hash@),
{
    let mut doomed: Vec<Address> = Vec::new();
    let mut i: usize = 0;
    assert(enumerated.deep_view().take(0) =~= Seq::empty());
    assert(doomed.deep_view() =~= handles_to(Seq::<Seq<IndexLinkView>>::empty().flatten(), hash@))
        by {
        reveal(Seq::filter);
    }
    while i < enumerated.len()
        invariant
            i <= enumerated.len(),
            doomed.deep_view() == handles_to(
                enumerated.deep_view().take(i as int).flatten(),
                hash@,
            ),
        decreases enumerated.len() - i,
    {
        let ghost scanned = enumerated.deep_view().take(i as int);
        proof {
            assert(enumerated.deep_view().take(i + 1) =~= scanned.push(
                enumerated[i as int].deep_view(),
            ));
            scanned.lemma_flatten_push(enumerated[i as int].deep_view());
            lemma_handles_to_add(scanned.flatten(), enumerated[i as int].deep_view(), hash@);
        }
        collect_handles(&enumerated[i], hash, &mut doomed);
        i += 1;
    }
    assert(enumerated.deep_view().take(enumerated.len() as int) =~= enumerated.deep_view());
    doomed
}

/// What is left to do once a unit has been stored and read back: announce
/// it, then index it.
#[derive(Debug)]
pub struct WritePlan<R> {
    /// The content address of the unit: the result of the write.
    pub address: Address,
    /// The stored record, for the notice of a new unit.
    pub record: R,
    /// The index links to create, in order.
    pub links: Vec<IndexAction>,
}

/// Decides how the write of a unit goes on after the store has kept the
/// unit, given its content address `hash` and read the record back.
/// Where nothing came back the write fails, and nothing is announced or
/// indexed. Otherwise the record is to be announced under the unit's address
/// and the unit indexed, in the given state and its own version, under the
/// anchor of all units and each of its tree anchors. Units with a parent
/// whose anchor path cannot be derived are left out:
/// `Unit::parents_are_derivable` tells.
pub fn create_unit_inner<R>(
    input: &Unit,
    state: &str,
    hash: Address,
    maybe_record: Option<R>,
) -> (plan: Result<WritePlan<R>, HowError>)
    requires
        input.has_derivable_parents(),
    ensures
        maybe_record is None ==> plan is Err && plan->Err_0 is DocumentNotFound,
        maybe_record is Some ==> plan is Ok && plan->Ok_0.address@ == hash@ && plan->Ok_0.record
            == maybe_record->Some_0 && plan->Ok_0.links.deep_view() == index_plan(
            hash@,
            index_anchors(derived_paths(input.parents.deep_view(), input.path_abbreviation@)),
            link_tag_text(state@, input.version@),
        ),
{
    let tree_paths = input.tree_paths();
    match maybe_record {
        None => Err(HowError::DocumentNotFound),
        Some(record) => {
            let links = create_unit_links(&hash, &tree_paths, state, input.version.as_str());
            Ok(WritePlan { address: hash, record, links })
        },
    }
}

/// Decides how the write of a new unit goes on: as `create_unit_inner` does
/// for a unit in the state in which units start.
pub fn create_unit<R>(input: &Unit, hash: Address, maybe_record: Option<R>) -> (plan: Result<
    WritePlan<R>,
    HowError,
>)
    requires
        input.has_derivable_parents(),
    ensures
        maybe_record is None ==> plan is Err && plan->Err_0 is DocumentNotFound,
        maybe_record is Some ==> plan is Ok && plan->Ok_0.address@ == hash@ && plan->Ok_0.record
            == maybe_record->Some_0 && plan->Ok_0.links.deep_view() == index_plan(
            hash@,
            index_anchors(derived_paths(input.parents.deep_view(), input.path_abbreviation@)),
            link_tag_text(START_STATE@, input.version@),
        ),
{
    create_unit_inner(input, START_STATE, hash, maybe_record)
}

/// The addresses to fetch for a listing: the target of every link, in order.
/// A listing goes by links, so an entry that is linked twice is fetched and
/// listed twice; a reader that wants each entry once goes by
/// `distinct_targets`.
pub fn unit_targets(links: &Vec<IndexLink>) -> (targets: Vec<Address>)
    ensures
        targets.deep_view() == links.deep_view().map_values(target_of()),
{
    let mut targets: Vec<Address> = Vec::new();
    let mut i: usize = 0;
    while i < links.len()
        invariant
            i <= links.len(),
            targets.deep_view() == links.deep_view().take(i as int).map_values(target_of()),
        decreases links.len() - i,
    {
        let ghost before = targets.deep_view();
        targets.push(links[i].target.clone());
        assert(targets.deep_view() =~= before.push(links[i as int]@.target));
        assert(targets.deep_view() =~= links.deep_view().take(i + 1).map_values(target_of()));
        i += 1;
    }
    assert(links.deep_view().take(links.len() as int) =~= links.deep_view());
    targets
}

/// The test that a fetch found something.
pub open spec fn is_found<R>() -> spec_fn(Option<R>) -> bool {
    |item: Option<R>| item is Some
}

/// What a fetch found.
pub open spec fn record_of<R>() -> spec_fn(Option<R>) -> R {
    |item: Option<R>| item->Some_0
}

/// The records among what a batch fetch gave: each one that was found, in
/// order.
pub open spec fn found<R>(fetched: Seq<Option<R>>) -> Seq<R> {
    fetched.filter(is_found()).map_values(record_of())
}

/// Keeps the records that a batch fetch found. An address that resolved to
/// nothing is passed over: for a listing that is absence, not failure.
pub fn get_units_inner<R>(fetched: Vec<Option<R>>) -> (records: Vec<R>)
    ensures
        records@ == found(fetched@),
{
    let ghost all = fetched@;
    let mut records: Vec<R> = Vec::new();
    assert(all.take(0) =~= Seq::empty());
    assert(found(Seq::<Option<R>>::empty()) =~= Seq::empty()) by {
        reveal(Seq::filter);
    }
    for item in iter: fetched.into_iter()
        invariant
            iter.seq() == all,
            records@ == found(all.take(iter.index() as int)),
    {
        let ghost seen = all.take(iter.index() as int);
        proof {
            assert(all.take(iter.index() + 1) =~= seen.push(item));
            seen.lemma_filter_push(item, is_found());
        }
        match item {
            Some(record) => {
                records.push(record);
                assert(records@ =~= found(seen.push(item)));
            },
            None => {},
        }
    }
    assert(all.take(all.len() as int) =~= all);
    records
}

} // verus!
