//! Index links: tagged edges from an anchor to an entry, and what is read
//! from a list of them.

use crate::address::Address;
use crate::path::TreePath;
use vstd::prelude::*;
use vstd::string::StringExecFns;

verus! {

/// The kinds of link that the catalog keeps.
#[derive(Clone, Copy, Debug, PartialEq, Eq, Structural)]
pub enum LinkTypes {
    Document,
    Unit,
    Tree,
    Mark,
}

/// One index link as an anchor lists it: the entry it points to, its tag, and
/// the handle by which it can be removed.
#[derive(Debug, PartialEq, Eq)]
pub struct IndexLink {
    pub target: Address,
    pub tag: Vec<u8>,
    pub create_link_hash: Address,
}

/// An index link as plain values.
pub struct IndexLinkView {
    pub target: Seq<u8>,
    pub tag: Seq<u8>,
    pub create_link_hash: Seq<u8>,
}

impl View for IndexLink {
    type V = IndexLinkView;

    open spec fn view(&self) -> IndexLinkView {
        IndexLinkView {
            target: self.target@,
            tag: self.tag@,
            create_link_hash: self.create_link_hash@,
        }
    }
}

impl DeepView for IndexLink {
    type V = IndexLinkView;

    open spec fn deep_view(&self) -> IndexLinkView {
        self@
    }
}

impl Clone for IndexLink {
    fn clone(&self) -> (copy: Self)
        ensures
            copy@ == self@,
    {
        IndexLink {
            target: self.target.clone(),
            tag: self.tag.clone(),
            create_link_hash: self.create_link_hash.clone(),
        }
    }
}

/// The tag of an index link: the state, a hyphen, the version.
pub open spec fn link_tag_text(state: Seq<char>, version: Seq<char>) -> Seq<char> {
    state + seq!['-'] + version
}

/// Builds the tag that an index link carries for a state and a version.
pub fn link_tag(state: &str, version: &str) -> (tag: String)
    ensures
        tag@ == link_tag_text(state@, version@),
{
    let mut tag = String::from_str(state);
    proof {
        reveal_strlit("-");
    }
    tag.append("-");
    tag.append(version);
    assert("-"@ =~= seq!['-']);
    tag
}

/// One step of indexing an entry, for the caller to perform on the store.
#[derive(Debug)]
pub enum IndexAction {
    /// Make sure that the anchor of this path exists; to do so again is
    /// harmless.
    Ensure { anchor: TreePath, link_type: LinkTypes },
    /// Create a link of the given kind and tag from the anchor of this path
    /// to the entry.
    Link { anchor: TreePath, target: Address, link_type: LinkTypes, tag: String },
}

/// A step of indexing as plain values.
pub enum IndexActionView {
    Ensure { anchor: Seq<Seq<u8>>, link_type: LinkTypes },
    Link { anchor: Seq<Seq<u8>>, target: Seq<u8>, link_type: LinkTypes, tag: Seq<char> },
}

impl View for IndexAction {
    type V = IndexActionView;

    open spec fn view(&self) -> IndexActionView {
        match *self {
            IndexAction::Ensure { anchor, link_type } => IndexActionView::Ensure {
                anchor: anchor@,
                link_type,
            },
            IndexAction::Link { anchor, target, link_type, tag } => IndexActionView::Link {
                anchor: anchor@,
                target: target@,
                link_type,
                tag: tag@,
            },
        }
    }
}

impl DeepView for IndexAction {
    type V = IndexActionView;

    open spec fn deep_view(&self) -> IndexActionView {
        self@
    }
}

/// The steps that index an entry under a list of anchors with one tag: for
/// each anchor in turn, make sure it exists, then link it to the entry.
pub open spec fn index_plan(target: Seq<u8>, anchors: Seq<Seq<Seq<u8>>>, tag: Seq<char>) -> Seq<
    IndexActionView,
>
    decreases anchors.len(),
{
    if anchors.len() == 0 {
        Seq::empty()
    } else {
        index_plan(target, anchors.drop_last(), tag) + seq![
            IndexActionView::Ensure { anchor: anchors.last(), link_type: LinkTypes::Tree },
            IndexActionView::Link {
                anchor: anchors.last(),
                target,
                link_type: LinkTypes::Unit,
                tag,
            },
        ]
    }
}

/// The test that a link points to a given entry.
pub open spec fn points_to(target: Seq<u8>) -> spec_fn(IndexLinkView) -> bool {
    |link: IndexLinkView| link.target == target
}

/// The handle of a link.
pub open spec fn handle_of() -> spec_fn(IndexLinkView) -> Seq<u8> {
    |link: IndexLinkView| link.create_link_hash
}

/// The entry that a link points to.
pub open spec fn target_of() -> spec_fn(IndexLinkView) -> Seq<u8> {
    |link: IndexLinkView| link.target
}

/// The handles of the links that point to an entry, in the order of the
/// links and whatever their tags.
pub open spec fn handles_to(links: Seq<IndexLinkView>, target: Seq<u8>) -> Seq<Seq<u8>> {
    links.filter(points_to(target)).map_values(handle_of())
}

/// The handles of a link list pushed one further: the new link's handle is
/// added exactly when it points to the entry.
pub proof fn lemma_handles_to_push(links: Seq<IndexLinkView>, link: IndexLinkView, target: Seq<u8>)
    ensures
        handles_to(links.push(link), target) == if link.target == target {
            handles_to(links, target).push(link.create_link_hash)
        } else {
            handles_to(links, target)
        },
{
    links.lemma_filter_push(link, points_to(target));
    if link.target == target {
        assert(links.filter(points_to(target)).push(link).map_values(handle_of())
            =~= links.filter(points_to(target)).map_values(handle_of()).push(
            link.create_link_hash,
        ));
    }
}

/// The handles of two link lists one after the other are the handles of the
/// first followed by those of the second.
pub proof fn lemma_handles_to_add(
    first: Seq<IndexLinkView>,
    second: Seq<IndexLinkView>,
    target: Seq<u8>,
)
    ensures
        handles_to(first + second, target) == handles_to(first, target) + handles_to(
            second,
            target,
        ),
{
    Seq::filter_distributes_over_add(first, second, points_to(target));
    assert((first.filter(points_to(target)) + second.filter(points_to(target))).map_values(
        handle_of(),
    ) =~= handles_to(first, target) + handles_to(second, target));
}

/// Adds to `doomed` the handle of every link of the list that points to the
/// entry.
pub fn collect_handles(links: &Vec<IndexLink>, target: &Address, doomed: &mut Vec<Address>)
    ensures
        final(doomed).deep_view() == old(doomed).deep_view() + handles_to(
            links.deep_view(),
            target@,
        ),
{
    let ghost before = doomed.deep_view();
    let mut i: usize = 0;
    assert(links.deep_view().take(0) =~= Seq::empty());
    assert(handles_to(Seq::empty(), target@) =~= Seq::empty()) by {
        reveal(Seq::filter);
    }
    assert(doomed.deep_view() =~= before + handles_to(links.deep_view().take(0), target@));
    while i < links.len()
        invariant
            i <= links.len(),
            doomed.deep_view() == before + handles_to(links.deep_view().take(i as int), target@),
        decreases links.len() - i,
    {
        let ghost seen = links.deep_view().take(i as int);
        proof {
            lemma_handles_to_push(seen, links[i as int]@, target@);
            assert(links.deep_view().take(i + 1) =~= seen.push(links[i as int]@));
        }
        if links[i].target.same_as(target) {
            let ghost collected = doomed.deep_view();
            doomed.push(links[i].create_link_hash.clone());
            assert(doomed.deep_view() =~= collected.push(links[i as int]@.create_link_hash));
            assert(doomed.deep_view() =~= before + handles_to(seen, target@).push(
                links[i as int]@.create_link_hash,
            ));
        }
        i += 1;
    }
    assert(links.deep_view().take(links.len() as int) =~= links.deep_view());
}

/// The addresses of a list without repetitions: each at its first place.
pub open spec fn distinct(addresses: Seq<Seq<u8>>) -> Seq<Seq<u8>>
    decreases addresses.len(),
{
    if addresses.len() == 0 {
        Seq::empty()
    } else {
        let before = distinct(addresses.drop_last());
        if before.contains(addresses.last()) {
            before
        } else {
            before.push(addresses.last())
        }
    }
}

/// A list without repetitions holds what the list held, and nothing twice.
pub proof fn lemma_distinct(addresses: Seq<Seq<u8>>)
    ensures
        distinct(addresses).no_duplicates(),
        forall|address: Seq<u8>|
            distinct(addresses).contains(address) <==> addresses.contains(address),
    decreases addresses.len(),
{
    if addresses.len() > 0 {
        let front = addresses.drop_last();
        let last = addresses.last();
        lemma_distinct(front);
        assert(addresses =~= front.push(last));
        assert forall|address: Seq<u8>|
            distinct(addresses).contains(address) <==> addresses.contains(address) by {
            if addresses.contains(address) {
                let i = choose|i: int| 0 <= i < addresses.len() && addresses[i] == address;
                if i < front.len() {
                    assert(front[i] == address);
                    assert(front.contains(address));
                    assert(distinct(front).contains(address));
                    let j = choose|j: int|
                        0 <= j < distinct(front).len() && distinct(front)[j] == address;
                    assert(distinct(addresses)[j] == address);
                } else {
                    if !distinct(front).contains(last) {
                        assert(distinct(addresses)[distinct(front).len() as int] == address);
                    }
                }
            }
            if distinct(addresses).contains(address) {
                let j = choose|j: int|
                    0 <= j < distinct(addresses).len() && distinct(addresses)[j] == address;
                if j < distinct(front).len() {
                    assert(distinct(front)[j] == address);
                    assert(front.contains(address));
                    let i = choose|i: int| 0 <= i < front.len() && front[i] == address;
                    assert(addresses[i] == address);
                } else {
                    assert(address == last);
                    assert(addresses[addresses.len() - 1] == address);
                }
            }
        }
    }
}

/// An address that a list without repetitions holds, it holds exactly once.
pub proof fn lemma_distinct_counts_once(addresses: Seq<Seq<u8>>, address: Seq<u8>)
    requires
        addresses.contains(address),
    ensures
        distinct(addresses).to_multiset().count(address) == 1,
{
    broadcast use vstd::seq_lib::to_multiset_contains;

    lemma_distinct(addresses);
    distinct(addresses).lemma_multiset_has_no_duplicates();
}

/// Tells whether a list holds an address.
pub fn holds(addresses: &Vec<Address>, address: &Address) -> (found: bool)
    ensures
        found == addresses.deep_view().contains(address@),
{
    let mut i: usize = 0;
    while i < addresses.len()
        invariant
            i <= addresses.len(),
            forall|j: int| 0 <= j < i ==> addresses.deep_view()[j] != address@,
        decreases addresses.len() - i,
    {
        if addresses[i].same_as(address) {
            assert(addresses.deep_view()[i as int] == address@);
            return true;
        }
        i += 1;
    }
    false
}

/// The entries that a listing leads to, each once: the targets of the links
/// in the order in which they first occur. Links that differ only in tag or
/// handle lead to one entry. This is the read for a caller that must not see
/// an entry twice after it was indexed twice; the plain listing keeps every
/// link.
pub fn distinct_targets(links: &Vec<IndexLink>) -> (targets: Vec<Address>)
    ensures
        targets.deep_view() == distinct(links.deep_view().map_values(target_of())),
        targets.deep_view().no_duplicates(),
        forall|i: int|
            0 <= i < links.len() ==> targets.deep_view().contains(
                #[trigger] links.deep_view()[i].target,
            ),
{
    let ghost all = links.deep_view().map_values(target_of());
    let mut targets: Vec<Address> = Vec::new();
    let mut i: usize = 0;
    assert(all.take(0) =~= Seq::empty());
    while i < links.len()
        invariant
            i <= links.len(),
            all == links.deep_view().map_values(target_of()),
            targets.deep_view() == distinct(all.take(i as int)),
        decreases links.len() - i,
    {
        let ghost next = all.take(i + 1);
        proof {
            assert(next.drop_last() =~= all.take(i as int));
            assert(next.last() == links[i as int]@.target);
        }
        if !holds(&targets, &links[i].target) {
            let ghost before = targets.deep_view();
            targets.push(links[i].target.clone());
            assert(targets.deep_view() =~= before.push(links[i as int]@.target));
        }
        i += 1;
    }
    proof {
        assert(all.take(links.len() as int) =~= all);
        lemma_distinct(all);
        assert forall|i: int| 0 <= i < links.len() implies targets.deep_view().contains(
            #[trigger] links.deep_view()[i].target,
        ) by {
            assert(all[i] == links.deep_view()[i].target);
            assert(all.contains(links.deep_view()[i].target));
        }
    }
    targets
}

} // verus!
