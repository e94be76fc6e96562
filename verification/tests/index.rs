use how_core::index::distinct_targets;
use how_core::index::holds;
use how_core::index::link_tag;
use how_core::path::derive_tree_paths;
use how_core::unit::create_unit;
use how_core::unit::create_unit_inner;
use how_core::unit::create_unit_links;
use how_core::unit::delete_unit_links;
use how_core::unit::get_units_inner;
use how_core::unit::get_units_path;
use how_core::unit::unit_anchors;
use how_core::unit::unit_targets;
use how_core::unit::ALIVE_STATE;
use how_core::unit::START_STATE;
use how_core::Address;
use how_core::HowError;
use how_core::IndexAction;
use how_core::IndexLink;
use how_core::LinkTypes;
use how_core::Section;
use how_core::TreePath;
use how_core::Unit;
use std::collections::BTreeMap;

fn address(n: u8) -> Address {
    Address { raw: vec![n; 39] }
}

fn link(target: u8, tag: &str, handle: u8) -> IndexLink {
    IndexLink {
        target: address(target),
        tag: tag.as_bytes().to_vec(),
        create_link_hash: address(handle),
    }
}

fn unit(parents: &[&str], abbreviation: &str, version: &str) -> Unit {
    Unit {
        parents: parents.iter().map(|p| p.to_string()).collect(),
        version: version.into(),
        short_name: "A unit".into(),
        path_abbreviation: abbreviation.into(),
        stewards: vec![],
        processes: vec![("soc_proto.process.define".into(), "petition".into())],
        history: BTreeMap::new(),
        meta: BTreeMap::new(),
    }
}

/// A store of links and entries in memory, on which the plans are performed.
struct Store {
    links: Vec<(Vec<Vec<u8>>, IndexLink)>,
    ensured: Vec<Vec<Vec<u8>>>,
    entries: Vec<(Address, String)>,
    handles: u8,
}

impl Store {
    fn new() -> Store {
        Store { links: vec![], ensured: vec![], entries: vec![], handles: 100 }
    }

    fn perform(&mut self, plan: &[IndexAction]) {
        for action in plan {
            match action {
                IndexAction::Ensure { anchor, link_type } => {
                    assert_eq!(*link_type, LinkTypes::Tree);
                    self.ensured.push(anchor.components.clone());
                }
                IndexAction::Link { anchor, target, link_type, tag } => {
                    assert_eq!(*link_type, LinkTypes::Unit);
                    assert!(self.ensured.contains(&anchor.components));
                    self.handles += 1;
                    let made = IndexLink {
                        target: target.clone(),
                        tag: tag.as_bytes().to_vec(),
                        create_link_hash: address(self.handles),
                    };
                    self.links.push((anchor.components.clone(), made));
                }
            }
        }
    }

    fn enumerate(&self, anchor: &TreePath) -> Vec<IndexLink> {
        self.links
            .iter()
            .filter(|(at, _)| *at == anchor.components)
            .map(|(_, link)| link.clone())
            .collect()
    }

    fn unlink(&mut self, handle: &Address) {
        self.links.retain(|(_, link)| link.create_link_hash != *handle);
    }

    fn fetch(&self, address: &Address) -> Option<String> {
        self.entries.iter().find(|(at, _)| at == address).map(|(_, name)| name.clone())
    }

    fn write_unit(&mut self, unit: &Unit, state: &str, hash: Address) -> Address {
        self.entries.push((hash.clone(), unit.short_name.clone()));
        let record = self.fetch(&hash);
        let plan = create_unit_inner(unit, state, hash, record).unwrap();
        self.perform(&plan.links);
        plan.address
    }

    fn get_units(&self) -> Vec<String> {
        let targets = unit_targets(&self.enumerate(&get_units_path()));
        get_units_inner(targets.iter().map(|target| self.fetch(target)).collect())
    }

    fn deindex(&mut self, hash: &Address, tree_paths: &Vec<TreePath>) {
        let anchors = unit_anchors(tree_paths);
        let enumerated: Vec<Vec<IndexLink>> =
            anchors.iter().map(|anchor| self.enumerate(anchor)).collect();
        for handle in delete_unit_links(hash, &enumerated) {
            self.unlink(&handle);
        }
    }
}

#[test]
fn the_tag_is_the_state_a_hyphen_and_the_version() {
    assert_eq!(link_tag("define", "vidx1"), "define-vidx1");
    assert_eq!(link_tag(START_STATE, "vsem2.0.3"), "define-vsem2.0.3");
    assert_eq!(link_tag(ALIVE_STATE, "v1"), "_alive-v1");
    assert_eq!(link_tag("", ""), "-");
}

#[test]
fn the_states_are_named() {
    assert_eq!(START_STATE, "define");
    assert_eq!(ALIVE_STATE, "_alive");
}

#[test]
fn addresses_are_the_same_when_their_bytes_agree() {
    assert!(address(1).same_as(&address(1)));
    assert!(!address(1).same_as(&address(2)));
    assert!(!address(1).same_as(&Address { raw: vec![1; 38] }));
    assert!(Address { raw: vec![] }.same_as(&Address { raw: vec![] }));
    let mut other = address(1);
    other.raw[38] = 2;
    assert!(!address(1).same_as(&other));
    assert_eq!(address(7).clone(), address(7));
}

#[test]
fn the_anchors_of_a_unit_start_with_the_anchor_of_all_units() {
    let tree_paths = derive_tree_paths(&vec!["a.b".to_string(), "c".to_string()], "x");
    let anchors = unit_anchors(&tree_paths);
    assert_eq!(anchors.len(), 3);
    assert_eq!(anchors[0].components, get_units_path().components);
    assert_eq!(anchors[1].components, tree_paths[0].components);
    assert_eq!(anchors[2].components, tree_paths[1].components);
}

#[test]
fn the_plan_ensures_and_links_each_anchor_in_turn() {
    let tree_paths = derive_tree_paths(&vec!["a.b".to_string(), "c".to_string()], "x");
    let plan = create_unit_links(&address(9), &tree_paths, "define", "vidx1");
    let anchors = unit_anchors(&tree_paths);
    assert_eq!(plan.len(), 6);
    for (i, anchor) in anchors.iter().enumerate() {
        match &plan[2 * i] {
            IndexAction::Ensure { anchor: at, link_type } => {
                assert_eq!(at.components, anchor.components);
                assert_eq!(*link_type, LinkTypes::Tree);
            }
            other => panic!("step {} is {:?}", 2 * i, other),
        }
        match &plan[2 * i + 1] {
            IndexAction::Link { anchor: at, target, link_type, tag } => {
                assert_eq!(at.components, anchor.components);
                assert_eq!(*target, address(9));
                assert_eq!(*link_type, LinkTypes::Unit);
                assert_eq!(tag, "define-vidx1");
            }
            other => panic!("step {} is {:?}", 2 * i + 1, other),
        }
    }
}

#[test]
fn a_unit_without_tree_anchors_is_still_indexed_among_all_units() {
    let plan = create_unit_links(&address(9), &vec![], "define", "v1");
    assert_eq!(plan.len(), 2);
    match &plan[1] {
        IndexAction::Link { anchor, .. } => {
            assert_eq!(anchor.components, get_units_path().components)
        }
        other => panic!("step 1 is {:?}", other),
    }
}

#[test]
fn the_links_to_the_unit_are_picked_whatever_their_tags() {
    let enumerated = vec![
        vec![link(1, "define-v1", 11), link(2, "define-v1", 12), link(1, "_alive-v1", 13)],
        vec![link(2, "define-v1", 14)],
        vec![link(1, "define-v1", 15), link(1, "define-v1", 16)],
    ];
    let doomed = delete_unit_links(&address(1), &enumerated);
    assert_eq!(doomed, vec![address(11), address(13), address(15), address(16)]);
}

#[test]
fn nothing_is_picked_where_nothing_points_to_the_unit() {
    let enumerated = vec![vec![link(2, "define-v1", 12)], vec![], vec![link(3, "a-b", 13)]];
    assert_eq!(delete_unit_links(&address(1), &enumerated), Vec::<Address>::new());
    assert_eq!(delete_unit_links(&address(1), &vec![]), Vec::<Address>::new());
    assert_eq!(delete_unit_links(&address(1), &vec![vec![], vec![]]), Vec::<Address>::new());
}

#[test]
fn a_listing_leads_to_each_entry_once() {
    let links = vec![
        link(1, "define-v1", 11),
        link(2, "define-v1", 12),
        link(1, "define-v1", 13),
        link(3, "define-v1", 14),
        link(2, "_alive-v1", 15),
    ];
    assert_eq!(distinct_targets(&links), vec![address(1), address(2), address(3)]);
    assert_eq!(distinct_targets(&vec![]), Vec::<Address>::new());
}

#[test]
fn a_list_holds_the_addresses_in_it() {
    let list = vec![address(1), address(2)];
    assert!(holds(&list, &address(2)));
    assert!(!holds(&list, &address(3)));
    assert!(!holds(&vec![], &address(1)));
}

#[test]
fn the_targets_of_a_listing_keep_order_and_repetitions() {
    let links = vec![link(2, "a-b", 11), link(1, "a-b", 12), link(2, "a-b", 13)];
    assert_eq!(unit_targets(&links), vec![address(2), address(1), address(2)]);
}

#[test]
fn what_was_not_found_is_passed_over() {
    let fetched = vec![Some("a"), None, Some("b"), None, None, Some("c")];
    assert_eq!(get_units_inner(fetched), vec!["a", "b", "c"]);
    assert_eq!(get_units_inner(vec![None::<u8>, None]), Vec::<u8>::new());
    assert_eq!(get_units_inner(Vec::<Option<u8>>::new()), Vec::<u8>::new());
}

#[test]
fn a_write_that_cannot_be_read_back_fails() {
    let input = unit(&["hc_system"], "conductor", "vsem2.0.3");
    let plan = create_unit_inner(&input, "define", address(1), None::<String>);
    assert!(matches!(plan, Err(HowError::DocumentNotFound)));
    let plan = create_unit(&input, address(1), None::<String>);
    assert!(matches!(plan, Err(HowError::DocumentNotFound)));
}

#[test]
fn a_write_that_was_read_back_is_announced_and_indexed() {
    let input = unit(&["hc_system.conductor.api"], "app", "vidx1");
    let plan = create_unit_inner(&input, "define", address(5), Some("record")).unwrap();
    assert_eq!(plan.address, address(5));
    assert_eq!(plan.record, "record");
    assert_eq!(plan.links.len(), 4);
    let tree_paths = input.tree_paths();
    match &plan.links[3] {
        IndexAction::Link { anchor, target, link_type, tag } => {
            assert_eq!(anchor.components, tree_paths[0].components);
            assert_eq!(*target, address(5));
            assert_eq!(*link_type, LinkTypes::Unit);
            assert_eq!(tag, "define-vidx1");
        }
        other => panic!("step 3 is {:?}", other),
    }
}

#[test]
fn a_new_unit_starts_in_the_start_state() {
    let input = unit(&[], "conductor", "v7");
    let plan = create_unit(&input, address(5), Some(0u8)).unwrap();
    assert_eq!(plan.links.len(), 4);
    for step in [1, 3] {
        match &plan.links[step] {
            IndexAction::Link { tag, .. } => assert_eq!(tag, "define-v7"),
            other => panic!("step {} is {:?}", step, other),
        }
    }
}

#[test]
fn two_written_units_are_both_listed() {
    let mut store = Store::new();
    let mut unit1 = unit(&["hc_system"], "conductor", "vsem2.0.3");
    unit1.short_name = "Conductor".into();
    let mut unit2 = unit(&["hc_system.conductor.api"], "app", "vidx1");
    unit2.short_name = "Application API".into();
    unit2.stewards = vec![address(40)];
    store.write_unit(&unit1, "define", address(1));
    store.write_unit(&unit2, START_STATE, address(2));
    let units = store.get_units();
    assert_eq!(units.len(), 2);
    assert!(units.contains(&"Conductor".to_string()));
    assert!(units.contains(&"Application API".to_string()));
}

#[test]
fn a_written_unit_is_found_by_address_and_under_each_of_its_anchors() {
    let mut store = Store::new();
    let input = unit(&["a.b", "c"], "x", "v1");
    let hash = store.write_unit(&input, "define", address(1));
    assert_eq!(hash, address(1));
    assert_eq!(store.fetch(&hash), Some("A unit".to_string()));
    for anchor in unit_anchors(&input.tree_paths()) {
        let targets = unit_targets(&store.enumerate(&anchor));
        assert_eq!(targets, vec![address(1)]);
    }
}

#[test]
fn an_unindexed_unit_is_no_longer_listed_but_still_stored() {
    let mut store = Store::new();
    let unit1 = unit(&["hc_system"], "conductor", "vsem2.0.3");
    let unit2 = unit(&["hc_system.conductor.api"], "app", "vidx1");
    store.write_unit(&unit1, "define", address(1));
    store.write_unit(&unit2, "define", address(2));
    store.deindex(&address(2), &unit2.tree_paths());
    assert_eq!(store.get_units().len(), 1);
    assert_eq!(unit_targets(&store.enumerate(&get_units_path())), vec![address(1)]);
    assert_eq!(store.fetch(&address(2)), Some("A unit".to_string()));
    for anchor in unit_anchors(&unit2.tree_paths()) {
        assert!(!holds(&unit_targets(&store.enumerate(&anchor)), &address(2)));
    }
}

#[test]
fn unindexing_removes_the_links_of_every_state() {
    let mut store = Store::new();
    let input = unit(&["a.b", "c"], "x", "v1");
    let tree_paths = input.tree_paths();
    store.write_unit(&input, "define", address(1));
    store.perform(&create_unit_links(&address(1), &tree_paths, ALIVE_STATE, "v1"));
    store.perform(&create_unit_links(&address(1), &tree_paths, "draft", "v2"));
    store.perform(&create_unit_links(&address(2), &tree_paths, "define", "v1"));
    assert_eq!(store.links.len(), 12);
    store.deindex(&address(1), &tree_paths);
    assert_eq!(store.links.len(), 3);
    for anchor in unit_anchors(&tree_paths) {
        assert_eq!(unit_targets(&store.enumerate(&anchor)), vec![address(2)]);
    }
}

#[test]
fn unindexing_again_changes_nothing() {
    let mut store = Store::new();
    let input = unit(&["a.b"], "x", "v1");
    store.write_unit(&input, "define", address(1));
    store.deindex(&address(1), &input.tree_paths());
    assert_eq!(store.links.len(), 0);
    store.deindex(&address(1), &input.tree_paths());
    assert_eq!(store.links.len(), 0);
}

#[test]
fn indexing_twice_lists_the_unit_once_by_distinct_address() {
    let mut store = Store::new();
    let input = unit(&["a.b"], "x", "v1");
    let tree_paths = input.tree_paths();
    store.perform(&create_unit_links(&address(1), &tree_paths, "define", "v1"));
    store.perform(&create_unit_links(&address(1), &tree_paths, "define", "v1"));
    for anchor in unit_anchors(&tree_paths) {
        let links = store.enumerate(&anchor);
        assert_eq!(links.len(), 2);
        assert_eq!(distinct_targets(&links), vec![address(1)]);
    }
}

#[test]
fn a_section_holds_what_it_was_made_of() {
    let section = Section::new("summary", "p", "text/markdown", "_manual", None, "blah blah");
    assert_eq!(section.name, "summary");
    assert_eq!(section.section_type, "p");
    assert_eq!(section.content_type, "text/markdown");
    assert_eq!(section.source_path, "_manual");
    assert_eq!(section.source_unit, None);
    assert_eq!(section.content, "blah blah");
    let section = Section::new("a", "b", "c", "d", Some(address(3)), "e");
    assert_eq!(section.source_unit, Some(address(3)));
}
