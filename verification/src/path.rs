//! Anchor paths: sequences of byte components rooted at a fixed segment,
//! and the derivation of the paths under which a taxonomy node is indexed.

use crate::shard::fits;
use crate::shard::is_digit;
use crate::shard::piece_fits;
use crate::shard::piece_segments;
use hdk::hash_path::path::Component;
use hdk::hash_path::path::Path;
use hdk::prelude::SerializedBytesError;
use vstd::prelude::*;

verus! {

/// The segment that every derived anchor path starts with.
pub const TREE_ROOT: &'static str = "T";

/// The name of the collection anchor under which every unit is indexed.
pub const UNITS_ROOT: &'static str = "units";

/// The four little-endian bytes of a 32-bit value.
pub open spec fn le_bytes(u: u32) -> Seq<u8> {
    seq![
        (u & 0xff) as u8,
        ((u >> 8) & 0xff) as u8,
        ((u >> 16) & 0xff) as u8,
        ((u >> 24) & 0xff) as u8,
    ]
}

/// The bytes of the path component that stands for a piece of text: every
/// character as its code point, four bytes each, least significant first.
pub open spec fn component_bytes(text: Seq<char>) -> Seq<u8>
    decreases text.len(),
{
    if text.len() == 0 {
        Seq::empty()
    } else {
        component_bytes(text.drop_last()) + le_bytes(text.last() as u32)
    }
}

/// The pieces of a text between its dots, empty ones included.
pub open spec fn dotted_pieces(text: Seq<char>) -> Seq<Seq<char>>
    decreases text.len(),
{
    if text.len() == 0 {
        seq![Seq::empty()]
    } else {
        let before = dotted_pieces(text.drop_last());
        if text.last() == '.' {
            before.push(Seq::empty())
        } else {
            before.drop_last().push(before.last().push(text.last()))
        }
    }
}

/// The test that a piece is not empty.
pub open spec fn is_filled() -> spec_fn(Seq<char>) -> bool {
    |piece: Seq<char>| piece.len() > 0
}

/// The segments that a piece stands for.
pub open spec fn expanded() -> spec_fn(Seq<char>) -> Seq<Seq<char>> {
    |piece: Seq<char>| piece_segments(piece)
}

/// The segments that a dotted path names: those of its non-empty pieces, in
/// order. A piece is one segment, unless it is shard shorthand.
pub open spec fn path_segments(text: Seq<char>) -> Seq<Seq<char>> {
    dotted_pieces(text).filter(is_filled()).map_values(expanded()).flatten()
}

/// The components of the anchor path that a dotted path names.
pub open spec fn path_components(text: Seq<char>) -> Seq<Seq<u8>> {
    path_segments(text).map_values(|segment: Seq<char>| component_bytes(segment))
}

/// A dotted path whose anchor path can be derived: the expansion of each
/// piece of shard shorthand in it fits.
pub open spec fn is_derivable_path(text: Seq<char>) -> bool {
    forall|i: int|
        0 <= i < dotted_pieces(text).len() ==> piece_fits(#[trigger] dotted_pieces(text)[i])
}

/// `Component::from(&str)` of hdk: the component's bytes are the text's
/// characters in fixed-width little-endian form.
#[verifier::external_body]
pub(crate) fn component_of(text: &str) -> (bytes: Vec<u8>)
    ensures
        bytes@ == component_bytes(text@),
{
    Component::from(text).into()
}

/// `Path::from(&str)` of hdk: the text is split at its dots and empty
/// pieces are dropped. A piece that `ShardStrategy::from_str` reads as
/// `<width>:<depth>#<text>` becomes the shards of its text, at most `depth`
/// components of `width` characters each, and then the text; any other piece
/// becomes one component. Each component is made as `Component::from(&str)`
/// makes it. The expansion multiplies the width by four and by the depth in
/// 32 bits, so texts where that overflows are left out.
#[verifier::external_body]
pub(crate) fn parse_path(text: &str) -> (components: Vec<Vec<u8>>)
    requires
        is_derivable_path(text@),
    ensures
        components.deep_view() == path_components(text@),
{
    let components: Vec<Component> = Path::from(text).into();
    components.into_iter().map(Vec::<u8>::from).collect()
}

/// `String::try_from(&Component)` of hdk: the text that a component stands
/// for. It succeeds exactly on the components that some text is turned into,
/// and then gives that text back.
#[verifier::external_body]
pub(crate) fn component_text(bytes: &Vec<u8>) -> (text: Result<String, SerializedBytesError>)
    ensures
        match text {
            Ok(found) => component_bytes(found@) == bytes@,
            Err(_) => forall|other: Seq<char>| #[trigger] component_bytes(other) != bytes@,
        },
{
    String::try_from(&Component::from(bytes.clone()))
}

/// Tells whether the anchor path of a dotted path can be derived.
pub fn is_derivable(text: &str) -> (derivable: bool)
    ensures
        derivable == is_derivable_path(text@),
{
    // The piece at hand, and whether every piece before it fits.
    let mut current: Vec<char> = Vec::new();
    let mut settled = true;
    assert(text@.take(0) =~= Seq::empty());
    for c in iter: text.chars()
        invariant
            iter.seq() == text@,
            dotted_pieces(text@.take(iter.index() as int)).len() >= 1,
            current@ == dotted_pieces(text@.take(iter.index() as int)).last(),
            settled == (forall|k: int|
                0 <= k < dotted_pieces(text@.take(iter.index() as int)).len() - 1 ==> piece_fits(
                    #[trigger] dotted_pieces(text@.take(iter.index() as int))[k],
                )),
    {
        let ghost so_far = dotted_pieces(text@.take(iter.index() as int));
        let ghost longer = text@.take(iter.index() + 1);
        proof {
            assert(longer.drop_last() =~= text@.take(iter.index() as int));
            assert(longer.last() == c);
        }
        if c == '.' {
            let ghost before = settled;
            settled = settled && fits(&current);
            current = Vec::new();
            proof {
                let pieces = dotted_pieces(longer);
                assert(pieces == so_far.push(Seq::empty()));
                assert(forall|k: int| 0 <= k < so_far.len() ==> pieces[k] == so_far[k]);
                if before && piece_fits(so_far.last()) {
                    assert forall|k: int| 0 <= k < pieces.len() - 1 implies piece_fits(
                        #[trigger] pieces[k],
                    ) by {
                        assert(pieces[k] == so_far[k]);
                    }
                } else if before {
                    assert(pieces[so_far.len() - 1] == so_far.last());
                } else {
                    let k = choose|k: int| 0 <= k < so_far.len() - 1 && !piece_fits(so_far[k]);
                    assert(pieces[k] == so_far[k]);
                }
            }
        } else {
            current.push(c);
            proof {
                let pieces = dotted_pieces(longer);
                assert(pieces == so_far.drop_last().push(so_far.last().push(c)));
                assert(forall|k: int| 0 <= k < so_far.len() - 1 ==> pieces[k] == so_far[k]);
                if settled {
                    assert forall|k: int| 0 <= k < pieces.len() - 1 implies piece_fits(
                        #[trigger] pieces[k],
                    ) by {
                        assert(pieces[k] == so_far[k]);
                    }
                } else {
                    let k = choose|k: int| 0 <= k < so_far.len() - 1 && !piece_fits(so_far[k]);
                    assert(pieces[k] == so_far[k]);
                }
            }
        }
    }
    let last_fits = settled && fits(&current);
    proof {
        assert(text@.take(text@.len() as int) =~= text@);
        let pieces = dotted_pieces(text@);
        if last_fits {
            assert forall|k: int| 0 <= k < pieces.len() implies piece_fits(
                #[trigger] pieces[k],
            ) by {
                if k == pieces.len() - 1 {
                    assert(pieces[k] == pieces.last());
                }
            }
        } else if settled {
            assert(pieces[pieces.len() - 1] == pieces.last());
        }
    }
    last_fits
}

/// A component has four bytes for each character of its text.
pub proof fn lemma_component_bytes_len(text: Seq<char>)
    ensures
        component_bytes(text).len() == 4 * text.len(),
    decreases text.len(),
{
    if text.len() > 0 {
        lemma_component_bytes_len(text.drop_last());
    }
}

/// Two values with the same little-endian bytes are the same value.
pub proof fn lemma_le_bytes_injective(a: u32, b: u32)
    requires
        le_bytes(a) == le_bytes(b),
    ensures
        a == b,
{
    assert(le_bytes(a)[0] == le_bytes(b)[0]);
    assert(le_bytes(a)[1] == le_bytes(b)[1]);
    assert(le_bytes(a)[2] == le_bytes(b)[2]);
    assert(le_bytes(a)[3] == le_bytes(b)[3]);
    assert((a & 0xff) as u8 == (b & 0xff) as u8 && ((a >> 8) & 0xff) as u8 == ((b >> 8)
        & 0xff) as u8 && ((a >> 16) & 0xff) as u8 == ((b >> 16) & 0xff) as u8 && ((a >> 24)
        & 0xff) as u8 == ((b >> 24) & 0xff) as u8 ==> a == b) by (bit_vector);
}

/// Two texts with the same component are the same text.
pub proof fn lemma_component_bytes_injective(a: Seq<char>, b: Seq<char>)
    requires
        component_bytes(a) == component_bytes(b),
    ensures
        a == b,
    decreases a.len(),
{
    lemma_component_bytes_len(a);
    lemma_component_bytes_len(b);
    if a.len() == 0 {
        assert(a =~= b);
    } else {
        let front_a = component_bytes(a.drop_last());
        let front_b = component_bytes(b.drop_last());
        let whole = component_bytes(a);
        lemma_component_bytes_len(a.drop_last());
        lemma_component_bytes_len(b.drop_last());
        assert(front_a =~= whole.subrange(0, front_a.len() as int));
        assert(front_b =~= whole.subrange(0, front_b.len() as int));
        assert(le_bytes(a.last() as u32) =~= whole.subrange(
            front_a.len() as int,
            whole.len() as int,
        ));
        assert(le_bytes(b.last() as u32) =~= whole.subrange(
            front_b.len() as int,
            whole.len() as int,
        ));
        lemma_le_bytes_injective(a.last() as u32, b.last() as u32);
        vstd::utf8::char_u32_cast(a.last(), a.last() as u32);
        vstd::utf8::char_u32_cast(b.last(), b.last() as u32);
        lemma_component_bytes_injective(a.drop_last(), b.drop_last());
        assert(a =~= a.drop_last().push(a.last()));
        assert(b =~= b.drop_last().push(b.last()));
    }
}

/// An anchor path: the byte components from the root down.
#[derive(Debug)]
pub struct TreePath {
    pub components: Vec<Vec<u8>>,
}

impl View for TreePath {
    type V = Seq<Seq<u8>>;

    open spec fn view(&self) -> Seq<Seq<u8>> {
        self.components.deep_view()
    }
}

impl Clone for TreePath {
    fn clone(&self) -> (copy: Self)
        ensures
            copy@ == self@,
    {
        let mut components: Vec<Vec<u8>> = Vec::new();
        let mut i: usize = 0;
        while i < self.components.len()
            invariant
                i <= self.components.len(),
                components.deep_view() == self.components.deep_view().take(i as int),
            decreases self.components.len() - i,
        {
            let component = self.components[i].clone();
            assert(component@ =~= self.components[i as int]@);
            let ghost before = components.deep_view();
            components.push(component);
            assert(components.deep_view() =~~= before.push(self.components[i as int]@));
            assert(components.deep_view() =~~= self.components.deep_view().take(i + 1));
            i += 1;
        }
        assert(components.deep_view() =~~= self.components.deep_view());
        TreePath { components }
    }
}

impl DeepView for TreePath {
    type V = Seq<Seq<u8>>;

    open spec fn deep_view(&self) -> Seq<Seq<u8>> {
        self.components.deep_view()
    }
}

/// The anchor of the collection of all units: the one component that stands
/// for its name.
pub open spec fn units_anchor() -> Seq<Seq<u8>> {
    seq![component_bytes(UNITS_ROOT@)]
}

/// A text without a dot is one piece.
pub proof fn lemma_undotted_is_one_piece(text: Seq<char>)
    requires
        forall|i: int| 0 <= i < text.len() ==> text[i] != '.',
    ensures
        dotted_pieces(text) == seq![text],
    decreases text.len(),
{
    if text.len() == 0 {
        assert(text =~= Seq::empty());
    } else {
        lemma_undotted_is_one_piece(text.drop_last());
        assert(text.drop_last().push(text.last()) =~= text);
        assert(dotted_pieces(text) =~= seq![text]);
    }
}

/// A text without a dot that is not empty and does not start with a digit
/// names the path of one component, and that path can be derived.
pub proof fn lemma_undotted_is_one_component(text: Seq<char>)
    requires
        text.len() > 0,
        !is_digit(text[0]),
        forall|i: int| 0 <= i < text.len() ==> text[i] != '.',
    ensures
        path_components(text) == seq![component_bytes(text)],
        is_derivable_path(text),
{
    lemma_undotted_is_one_piece(text);
    assert(seq![text] =~= Seq::<Seq<char>>::empty().push(text));
    Seq::<Seq<char>>::empty().lemma_filter_push(text, is_filled());
    assert(Seq::<Seq<char>>::empty().filter(is_filled()) =~= Seq::empty()) by {
        reveal(Seq::filter);
    }
    let filled = dotted_pieces(text).filter(is_filled());
    assert(filled =~= seq![text]);
    assert(filled.map_values(expanded()) =~= seq![seq![text]]);
    seq![seq![text]].lemma_flatten_singleton();
    assert(path_segments(text) =~= seq![text]);
    assert(path_components(text) =~= seq![component_bytes(text)]);
}

/// What a node's own segment adds to the end of a path: one component, or
/// nothing where the segment is empty.
pub open spec fn own_tail(own_segment: Seq<char>) -> Seq<Seq<u8>> {
    if own_segment.len() == 0 {
        Seq::empty()
    } else {
        seq![component_bytes(own_segment)]
    }
}

/// The anchor path of a node under one parent: the root, the parent's
/// components, the node's own segment.
pub open spec fn derived_path(parent: Seq<char>, own_segment: Seq<char>) -> Seq<Seq<u8>> {
    seq![component_bytes(TREE_ROOT@)] + path_components(parent) + own_tail(own_segment)
}

/// The anchor paths of a node: one for each parent, in order and with
/// repetitions kept, or the single path below the root where it has none.
pub open spec fn derived_paths(parents: Seq<Seq<char>>, own_segment: Seq<char>) -> Seq<
    Seq<Seq<u8>>,
> {
    if parents.len() == 0 {
        seq![seq![component_bytes(TREE_ROOT@)] + own_tail(own_segment)]
    } else {
        parents.map_values(|parent: Seq<char>| derived_path(parent, own_segment))
    }
}

/// The anchor path of every parent can be derived.
pub open spec fn all_derivable(parents: Seq<Seq<char>>) -> bool {
    forall|i: int| 0 <= i < parents.len() ==> is_derivable_path(#[trigger] parents[i])
}

/// Builds the path that starts at the root, goes through the given
/// components and ends with the node's own segment.
fn rooted_path(mut middle: Vec<Vec<u8>>, own_segment: &str) -> (path: TreePath)
    ensures
        path@ == seq![component_bytes(TREE_ROOT@)] + middle.deep_view() + own_tail(own_segment@),
{
    let ghost through = middle.deep_view();
    let mut components: Vec<Vec<u8>> = Vec::new();
    components.push(component_of(TREE_ROOT));
    components.append(&mut middle);
    assert(components.deep_view() =~~= seq![component_bytes(TREE_ROOT@)] + through);
    if !own_segment.is_empty() {
        components.push(component_of(own_segment));
        assert(components.deep_view() =~~= seq![component_bytes(TREE_ROOT@)] + through + own_tail(
            own_segment@,
        ));
    }
    TreePath { components }
}

/// Derives the anchor paths under which a node with the given parent paths
/// and own segment is indexed: one for each parent, in order and with
/// repetitions kept, or the single path below the root where there is none.
/// Each starts with the root and, where the own segment is not empty, ends
/// with it. A parent with shard shorthand gives its shards too. Parents
/// whose shards cannot be computed in 32 bits are left out: `is_derivable`
/// tells.
pub fn derive_tree_paths(parents: &Vec<String>, own_segment: &str) -> (paths: Vec<TreePath>)
    requires
        all_derivable(parents.deep_view()),
    ensures
        paths.deep_view() == derived_paths(parents.deep_view(), own_segment@),
        paths.len() == if parents.len() == 0 {
            1
        } else {
            parents.len()
        },
        forall|i: int|
            0 <= i < paths.len() ==> (#[trigger] paths[i])@.len() > 0 && paths[i]@[0]
                == component_bytes(TREE_ROOT@),
        own_segment@.len() > 0 ==> forall|i: int|
            0 <= i < paths.len() ==> (#[trigger] paths[i])@.len() >= 2 && paths[i]@.last()
                == component_bytes(own_segment@),
{
    let mut paths: Vec<TreePath> = Vec::new();
    let mut i: usize = 0;
    while i < parents.len()
        invariant
            i <= parents.len(),
            all_derivable(parents.deep_view()),
            paths.len() == i,
            forall|j: int|
                0 <= j < i ==> (#[trigger] paths[j])@ == derived_path(
                    parents[j]@,
                    own_segment@,
                ),
        decreases parents.len() - i,
    {
        assert(is_derivable_path(parents.deep_view()[i as int]));
        let middle = parse_path(parents[i].as_str());
        paths.push(rooted_path(middle, own_segment));
        i += 1;
    }
    if paths.len() == 0 {
        paths.push(rooted_path(Vec::new(), own_segment));
        assert(paths[0]@ =~= seq![component_bytes(TREE_ROOT@)] + own_tail(own_segment@));
    }
    assert(paths.deep_view() =~= derived_paths(parents.deep_view(), own_segment@));
    paths
}

} // verus!
