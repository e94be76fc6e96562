//! A model of the link store, and what the catalog's plans achieve on it.
//!
//! The store is the caller's: it creates, lists and removes links. Here it is
//! a list of links, each under its anchor, on which nothing acts but the
//! steps that are named. What is proved holds of a store that behaves so
//! between the listing and the removal.

use crate::index::distinct;
use crate::index::handle_of;
use crate::index::handles_to;
use crate::index::index_plan;
use crate::index::lemma_distinct_counts_once;
use crate::index::points_to;
use crate::index::target_of;
use crate::index::IndexActionView;
use crate::index::IndexLinkView;
use crate::index::LinkTypes;
use crate::unit::index_anchors;
use vstd::prelude::*;

verus! {

/// A link in the store: the anchor it starts from, and what a listing of
/// that anchor shows of it.
pub struct StoredLink {
    pub anchor: Seq<Seq<u8>>,
    pub link: IndexLinkView,
}

/// The test that a stored link starts from a given anchor.
pub open spec fn starts_at(anchor: Seq<Seq<u8>>) -> spec_fn(StoredLink) -> bool {
    |stored: StoredLink| stored.anchor == anchor
}

/// What a listing shows of a stored link.
pub open spec fn shown() -> spec_fn(StoredLink) -> IndexLinkView {
    |stored: StoredLink| stored.link
}

/// The test that a stored link has none of the given handles.
pub open spec fn kept_by(handles: Seq<Seq<u8>>) -> spec_fn(StoredLink) -> bool {
    |stored: StoredLink| !handles.contains(stored.link.create_link_hash)
}

/// The listing of an anchor: its links, in the order in which they came.
pub open spec fn links_at(store: Seq<StoredLink>, anchor: Seq<Seq<u8>>) -> Seq<IndexLinkView> {
    store.filter(starts_at(anchor)).map_values(shown())
}

/// The listings of several anchors, one after the other.
pub open spec fn listings(store: Seq<StoredLink>, anchors: Seq<Seq<Seq<u8>>>) -> Seq<
    Seq<IndexLinkView>,
> {
    anchors.map_values(|anchor: Seq<Seq<u8>>| links_at(store, anchor))
}

/// The store after a link has been created.
pub open spec fn with_link(store: Seq<StoredLink>, anchor: Seq<Seq<u8>>, link: IndexLinkView) -> Seq<
    StoredLink,
> {
    store.push(StoredLink { anchor, link })
}

/// The store after the links with the given handles have been removed. A
/// handle that no link has removes nothing.
pub open spec fn without(store: Seq<StoredLink>, handles: Seq<Seq<u8>>) -> Seq<StoredLink> {
    store.filter(kept_by(handles))
}

/// The store after the steps of a plan have been performed in order, where
/// the store gives the link that step `i` creates the handle `handles[i]`.
/// To make sure that an anchor exists adds no index link.
pub open spec fn performed(
    store: Seq<StoredLink>,
    plan: Seq<IndexActionView>,
    handles: Seq<Seq<u8>>,
) -> Seq<StoredLink>
    decreases plan.len(),
{
    if plan.len() == 0 {
        store
    } else {
        let before = performed(store, plan.drop_last(), handles);
        match plan.last() {
            IndexActionView::Ensure { .. } => before,
            IndexActionView::Link { anchor, target, tag, .. } => with_link(
                before,
                anchor,
                IndexLinkView {
                    target,
                    tag: vstd::utf8::encode_utf8(tag),
                    create_link_hash: handles[plan.len() - 1],
                },
            ),
        }
    }
}

/// The listing of an anchor shows a link to the entry that carries the tag.
pub open spec fn lists_link_to(
    store: Seq<StoredLink>,
    anchor: Seq<Seq<u8>>,
    target: Seq<u8>,
    tag: Seq<u8>,
) -> bool {
    exists|link: IndexLinkView| #[trigger]
        links_at(store, anchor).contains(link) && link.target == target && link.tag == tag
}

/// A listing shows a link exactly when the store holds it under that anchor.
pub proof fn lemma_links_at_contains(
    store: Seq<StoredLink>,
    anchor: Seq<Seq<u8>>,
    link: IndexLinkView,
)
    ensures
        links_at(store, anchor).contains(link) <==> store.contains(StoredLink { anchor, link }),
{
    let under = store.filter(starts_at(anchor));
    let stored = StoredLink { anchor, link };
    if links_at(store, anchor).contains(link) {
        let i = choose|i: int| 0 <= i < under.len() && under.map_values(shown())[i] == link;
        store.lemma_filter_pred(starts_at(anchor), i);
        assert(under.contains(under[i]));
        store.lemma_filter_contains_rev(starts_at(anchor), under[i]);
        assert(under[i] == stored);
    }
    if store.contains(stored) {
        let i = choose|i: int| 0 <= i < store.len() && store[i] == stored;
        store.lemma_filter_contains(starts_at(anchor), i);
        let j = choose|j: int| 0 <= j < under.len() && under[j] == stored;
        assert(under.map_values(shown())[j] == link);
    }
}

/// After a removal the store holds a link exactly when it held it before and
/// the link's handle was not among those removed.
pub proof fn lemma_without_contains(
    store: Seq<StoredLink>,
    handles: Seq<Seq<u8>>,
    stored: StoredLink,
)
    ensures
        without(store, handles).contains(stored) <==> store.contains(stored) && !handles.contains(
            stored.link.create_link_hash,
        ),
{
    let left = without(store, handles);
    if left.contains(stored) {
        let i = choose|i: int| 0 <= i < left.len() && left[i] == stored;
        store.lemma_filter_pred(kept_by(handles), i);
        store.lemma_filter_contains_rev(kept_by(handles), stored);
    }
    if store.contains(stored) && !handles.contains(stored.link.create_link_hash) {
        let i = choose|i: int| 0 <= i < store.len() && store[i] == stored;
        store.lemma_filter_contains(kept_by(handles), i);
    }
}

/// The handle of every listed link that points to the entry is among the
/// handles picked for it.
pub proof fn lemma_handles_to_contains(
    links: Seq<IndexLinkView>,
    target: Seq<u8>,
    link: IndexLinkView,
)
    requires
        links.contains(link),
        link.target == target,
    ensures
        handles_to(links, target).contains(link.create_link_hash),
{
    let pointing = links.filter(points_to(target));
    let i = choose|i: int| 0 <= i < links.len() && links[i] == link;
    links.lemma_filter_contains(points_to(target), i);
    let j = choose|j: int| 0 <= j < pointing.len() && pointing[j] == link;
    assert(pointing.map_values(handle_of())[j] == link.create_link_hash);
}

/// What one of several lists holds, the lists joined hold too.
pub proof fn lemma_flatten_contains<A>(lists: Seq<Seq<A>>, i: int, item: A)
    requires
        0 <= i < lists.len(),
        lists[i].contains(item),
    ensures
        lists.flatten().contains(item),
    decreases lists.len(),
{
    let rest = lists.drop_first();
    if i == 0 {
        let k = choose|k: int| 0 <= k < lists[0].len() && lists[0][k] == item;
        assert(lists.flatten()[k] == item);
    } else {
        assert(rest[i - 1] == lists[i]);
        lemma_flatten_contains(rest, i - 1, item);
        let k = choose|k: int| 0 <= k < rest.flatten().len() && rest.flatten()[k] == item;
        assert(lists.flatten()[lists[0].len() + k] == item);
    }
}

/// What several lists joined hold, one of them holds.
pub proof fn lemma_flatten_contains_rev<A>(lists: Seq<Seq<A>>, item: A) -> (i: int)
    requires
        lists.flatten().contains(item),
    ensures
        0 <= i < lists.len(),
        lists[i].contains(item),
    decreases lists.len(),
{
    let rest = lists.drop_first();
    let k = choose|k: int| 0 <= k < lists.flatten().len() && lists.flatten()[k] == item;
    if k < lists[0].len() {
        assert(lists[0][k] == item);
        0
    } else {
        assert(rest.flatten()[k - lists[0].len()] == item);
        let i = lemma_flatten_contains_rev(rest, item);
        assert(rest[i] == lists[i + 1]);
        i + 1
    }
}

/// A handle picked for an entry is the handle of a listed link that points
/// to the entry.
pub proof fn lemma_handles_to_contains_rev(
    links: Seq<IndexLinkView>,
    target: Seq<u8>,
    handle: Seq<u8>,
) -> (link: IndexLinkView)
    requires
        handles_to(links, target).contains(handle),
    ensures
        links.contains(link),
        link.target == target,
        link.create_link_hash == handle,
{
    let pointing = links.filter(points_to(target));
    let j = choose|j: int|
        0 <= j < pointing.len() && pointing.map_values(handle_of())[j] == handle;
    links.lemma_filter_pred(points_to(target), j);
    assert(pointing.contains(pointing[j]));
    links.lemma_filter_contains_rev(points_to(target), pointing[j]);
    pointing[j]
}

/// Unindexing is complete. Let the anchor of all units and each of the
/// given tree anchors be listed, let the handles be picked from these
/// listings that point to the entry, and let the links with these handles be
/// removed. Then no listing of any of these anchors shows a link to the
/// entry any more, however many links with however many tags pointed to it
/// before.
pub proof fn lemma_deindex_is_complete(
    store: Seq<StoredLink>,
    target: Seq<u8>,
    tree_anchors: Seq<Seq<Seq<u8>>>,
)
    ensures
        ({
            let anchors = index_anchors(tree_anchors);
            let doomed = handles_to(listings(store, anchors).flatten(), target);
            let after = without(store, doomed);
            forall|i: int, link: IndexLinkView|
                0 <= i < anchors.len() && #[trigger] links_at(after, anchors[i]).contains(link)
                    ==> link.target != target
        }),
{
    let anchors = index_anchors(tree_anchors);
    let listed = listings(store, anchors);
    let doomed = handles_to(listed.flatten(), target);
    let after = without(store, doomed);
    assert forall|i: int, link: IndexLinkView|
        0 <= i < anchors.len() && #[trigger] links_at(after, anchors[i]).contains(
            link,
        ) implies link.target != target by {
        let stored = StoredLink { anchor: anchors[i], link };
        lemma_links_at_contains(after, anchors[i], link);
        lemma_without_contains(store, doomed, stored);
        lemma_links_at_contains(store, anchors[i], link);
        if link.target == target {
            assert(listed[i] == links_at(store, anchors[i]));
            lemma_flatten_contains(listed, i, link);
            lemma_handles_to_contains(listed.flatten(), target, link);
        }
    }
}

/// Unindexing again does nothing. After a unit has been unindexed, the
/// listings of its anchors hold no link to pick for it.
pub proof fn lemma_deindex_again_picks_nothing(
    store: Seq<StoredLink>,
    target: Seq<u8>,
    tree_anchors: Seq<Seq<Seq<u8>>>,
)
    ensures
        ({
            let anchors = index_anchors(tree_anchors);
            let doomed = handles_to(listings(store, anchors).flatten(), target);
            let after = without(store, doomed);
            handles_to(listings(after, anchors).flatten(), target) == Seq::<Seq<u8>>::empty()
        }),
{
    let anchors = index_anchors(tree_anchors);
    let doomed = handles_to(listings(store, anchors).flatten(), target);
    let after = without(store, doomed);
    let listed = listings(after, anchors);
    let again = handles_to(listed.flatten(), target);
    lemma_deindex_is_complete(store, target, tree_anchors);
    if again.len() > 0 {
        assert(again.contains(again[0]));
        let link = lemma_handles_to_contains_rev(listed.flatten(), target, again[0]);
        let i = lemma_flatten_contains_rev(listed, link);
        assert(listed[i] == links_at(after, anchors[i]));
    }
    assert(again =~= Seq::empty());
}

/// Unindexing one entry loses no link to another. In a store where no two
/// links share a handle, a link that does not point to the unindexed entry
/// is still there afterwards.
pub proof fn lemma_deindex_keeps_the_rest(
    store: Seq<StoredLink>,
    target: Seq<u8>,
    tree_anchors: Seq<Seq<Seq<u8>>>,
    stored: StoredLink,
)
    requires
        forall|i: int, j: int|
            0 <= i < store.len() && 0 <= j < store.len() && store[i].link.create_link_hash
                == store[j].link.create_link_hash ==> i == j,
        store.contains(stored),
        stored.link.target != target,
    ensures
        ({
            let anchors = index_anchors(tree_anchors);
            let doomed = handles_to(listings(store, anchors).flatten(), target);
            without(store, doomed).contains(stored)
        }),
{
    let anchors = index_anchors(tree_anchors);
    let listed = listings(store, anchors);
    let doomed = handles_to(listed.flatten(), target);
    lemma_without_contains(store, doomed, stored);
    if doomed.contains(stored.link.create_link_hash) {
        let link = lemma_handles_to_contains_rev(
            listed.flatten(),
            target,
            stored.link.create_link_hash,
        );
        let a = lemma_flatten_contains_rev(listed, link);
        assert(listed[a] == links_at(store, anchors[a]));
        lemma_links_at_contains(store, anchors[a], link);
        let other = StoredLink { anchor: anchors[a], link };
        let i = choose|i: int| 0 <= i < store.len() && store[i] == other;
        let j = choose|j: int| 0 <= j < store.len() && store[j] == stored;
        assert(i == j);
    }
}

/// Indexing twice is harmless to a reader that goes by distinct address.
/// After the same entry has been linked twice under one anchor with one tag,
/// the entry stands exactly once among the distinct targets of the anchor's
/// listing, and so does every other entry that the listing shows.
pub proof fn lemma_reindex_lists_once(
    store: Seq<StoredLink>,
    anchor: Seq<Seq<u8>>,
    target: Seq<u8>,
    tag: Seq<u8>,
    first_handle: Seq<u8>,
    second_handle: Seq<u8>,
)
    ensures
        ({
            let once = with_link(
                store,
                anchor,
                IndexLinkView { target, tag, create_link_hash: first_handle },
            );
            let twice = with_link(
                once,
                anchor,
                IndexLinkView { target, tag, create_link_hash: second_handle },
            );
            let listed = distinct(links_at(twice, anchor).map_values(target_of()));
            &&& listed.to_multiset().count(target) == 1
            &&& forall|link: IndexLinkView| #[trigger]
                links_at(twice, anchor).contains(link) ==> listed.to_multiset().count(
                    link.target,
                ) == 1
        }),
{
    let first = IndexLinkView { target, tag, create_link_hash: first_handle };
    let second = IndexLinkView { target, tag, create_link_hash: second_handle };
    let once = with_link(store, anchor, first);
    let twice = with_link(once, anchor, second);
    let links = links_at(twice, anchor);
    let targets = links.map_values(target_of());
    assert(twice[twice.len() - 1] == StoredLink { anchor, link: second });
    lemma_links_at_contains(twice, anchor, second);
    assert forall|link: IndexLinkView| #[trigger] links.contains(link) implies distinct(
        targets,
    ).to_multiset().count(link.target) == 1 by {
        let i = choose|i: int| 0 <= i < links.len() && links[i] == link;
        assert(targets[i] == link.target);
        lemma_distinct_counts_once(targets, link.target);
    }
    assert(links.contains(second));
}

/// Indexing reaches every anchor. After the plan that indexes an entry
/// under the anchor of all units and the given tree anchors has been
/// performed, the listing of each of these anchors shows a link to the
/// entry that carries the plan's tag.
pub proof fn lemma_index_reaches_every_anchor(
    store: Seq<StoredLink>,
    target: Seq<u8>,
    tree_anchors: Seq<Seq<Seq<u8>>>,
    tag: Seq<char>,
    handles: Seq<Seq<u8>>,
)
    ensures
        ({
            let anchors = index_anchors(tree_anchors);
            let after = performed(store, index_plan(target, anchors, tag), handles);
            forall|i: int|
                0 <= i < anchors.len() ==> lists_link_to(
                    after,
                    #[trigger] anchors[i],
                    target,
                    vstd::utf8::encode_utf8(tag),
                )
        }),
{
    lemma_plan_reaches(store, target, index_anchors(tree_anchors), tag, handles);
}

/// After the plan that indexes an entry under a list of anchors has been
/// performed, each of the anchors lists a link to the entry with the tag.
pub proof fn lemma_plan_reaches(
    store: Seq<StoredLink>,
    target: Seq<u8>,
    anchors: Seq<Seq<Seq<u8>>>,
    tag: Seq<char>,
    handles: Seq<Seq<u8>>,
)
    ensures
        ({
            let after = performed(store, index_plan(target, anchors, tag), handles);
            forall|i: int|
                0 <= i < anchors.len() ==> lists_link_to(
                    after,
                    #[trigger] anchors[i],
                    target,
                    vstd::utf8::encode_utf8(tag),
                )
        }),
    decreases anchors.len(),
{
    let plan = index_plan(target, anchors, tag);
    let after = performed(store, plan, handles);
    if anchors.len() > 0 {
        let front = anchors.drop_last();
        let earlier = index_plan(target, front, tag);
        let middle = performed(store, earlier, handles);
        lemma_plan_reaches(store, target, front, tag, handles);
        let ensure = IndexActionView::Ensure { anchor: anchors.last(), link_type: LinkTypes::Tree };
        let link_step = IndexActionView::Link {
            anchor: anchors.last(),
            target,
            link_type: LinkTypes::Unit,
            tag,
        };
        assert(plan =~= earlier.push(ensure).push(link_step));
        assert(plan.drop_last() =~= earlier.push(ensure));
        assert(plan.drop_last().drop_last() =~= earlier);
        assert(performed(store, plan.drop_last(), handles) == middle);
        let made = IndexLinkView {
            target,
            tag: vstd::utf8::encode_utf8(tag),
            create_link_hash: handles[plan.len() - 1],
        };
        assert(after == with_link(middle, anchors.last(), made));
        assert forall|i: int| 0 <= i < anchors.len() implies lists_link_to(
            after,
            #[trigger] anchors[i],
            target,
            vstd::utf8::encode_utf8(tag),
        ) by {
            if i < front.len() {
                assert(front[i] == anchors[i]);
                assert(lists_link_to(middle, front[i], target, vstd::utf8::encode_utf8(tag)));
                let link = choose|link: IndexLinkView| #[trigger]
                    links_at(middle, front[i]).contains(link) && link.target == target
                        && link.tag == vstd::utf8::encode_utf8(tag);
                lemma_links_at_contains(middle, anchors[i], link);
                let stored = StoredLink { anchor: anchors[i], link };
                let k = choose|k: int| 0 <= k < middle.len() && middle[k] == stored;
                assert(after[k] == stored);
                lemma_links_at_contains(after, anchors[i], link);
            } else {
                assert(after[after.len() - 1] == StoredLink { anchor: anchors[i], link: made });
                lemma_links_at_contains(after, anchors[i], made);
            }
        }
    }
}

} // verus!
