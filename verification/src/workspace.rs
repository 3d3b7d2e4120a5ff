//! The split layout of a workspace: a binary tree whose leaves are surfaces.
use vstd::prelude::*;
use vstd::string::*;

use crate::text::str_eq;

verus! {

/// The side of an existing pane on which a new pane is opened.
#[derive(Debug, Clone, Copy, PartialEq, Eq, Structural)]
pub enum SplitDirection {
    Left,
    Right,
    Up,
    Down,
}

/// How a split divides its area: side by side, or one above the other.
#[derive(Debug, Clone, Copy, PartialEq, Eq, Structural)]
pub enum SplitOrientation {
    Horizontal,
    Vertical,
}

/// Left and right splits lie side by side; up and down splits are stacked.
pub open spec fn direction_orientation(direction: SplitDirection) -> SplitOrientation {
    match direction {
        SplitDirection::Left | SplitDirection::Right => SplitOrientation::Horizontal,
        SplitDirection::Up | SplitDirection::Down => SplitOrientation::Vertical,
    }
}

/// The new pane goes first (left or top) for left and up splits.
pub open spec fn direction_inserts_first(direction: SplitDirection) -> bool {
    direction == SplitDirection::Left || direction == SplitDirection::Up
}

impl SplitDirection {
    /// The orientation of a split made in this direction.
    pub fn orientation(self) -> (r: SplitOrientation)
        ensures
            r == direction_orientation(self),
    {
        match self {
            SplitDirection::Left | SplitDirection::Right => SplitOrientation::Horizontal,
            SplitDirection::Up | SplitDirection::Down => SplitOrientation::Vertical,
        }
    }

    /// Whether a split in this direction puts the new pane first.
    pub fn insert_first(self) -> (r: bool)
        ensures
            r == direction_inserts_first(self),
    {
        match self {
            SplitDirection::Left | SplitDirection::Up => true,
            _ => false,
        }
    }
}

/// A node of the split layout: a surface, or a split into two sub-layouts.
#[derive(Debug, PartialEq, Eq)]
pub enum PaneNode {
    Leaf(String),
    Split { orientation: SplitOrientation, first: Box<PaneNode>, second: Box<PaneNode> },
}

/// The layout of a workspace.
#[derive(Debug, PartialEq, Eq)]
pub struct PaneTree {
    pub root: PaneNode,
}

/// The mathematical layout: surfaces are their character sequences.
pub enum PaneModel {
    Leaf(Seq<char>),
    Split { orientation: SplitOrientation, first: Box<PaneModel>, second: Box<PaneModel> },
}

impl PaneNode {
    /// The layout that this node describes.
    pub open spec fn model(&self) -> PaneModel
        decreases self,
    {
        match self {
            PaneNode::Leaf(s) => PaneModel::Leaf(s@),
            PaneNode::Split { orientation, first, second } => PaneModel::Split {
                orientation: *orientation,
                first: Box::new(first.model()),
                second: Box::new(second.model()),
            },
        }
    }

    /// A copy of this layout (the type cannot derive `Clone`: it is recursive).
    pub fn duplicate(&self) -> (r: Self)
        ensures
            r.model() == self.model(),
        decreases self,
    {
        match self {
            PaneNode::Leaf(s) => PaneNode::Leaf(s.clone()),
            PaneNode::Split { orientation, first, second } => PaneNode::Split {
                orientation: *orientation,
                first: Box::new(first.duplicate()),
                second: Box::new(second.duplicate()),
            },
        }
    }
}

impl View for PaneTree {
    type V = PaneModel;

    open spec fn view(&self) -> PaneModel {
        self.root.model()
    }
}

/// The surfaces of a layout, first sub-layout before second.
pub open spec fn leaves(m: PaneModel) -> Seq<Seq<char>>
    decreases m,
{
    match m {
        PaneModel::Leaf(s) => seq![s],
        PaneModel::Split { first, second, .. } => leaves(*first) + leaves(*second),
    }
}

/// The split that replaces the pane of `target` when `created` is opened beside it.
pub open spec fn split_pair(target: Seq<char>, direction: SplitDirection, created: Seq<char>) -> PaneModel {
    let existing = PaneModel::Leaf(target);
    let new_leaf = PaneModel::Leaf(created);
    if direction_inserts_first(direction) {
        PaneModel::Split {
            orientation: direction_orientation(direction),
            first: Box::new(new_leaf),
            second: Box::new(existing),
        }
    } else {
        PaneModel::Split {
            orientation: direction_orientation(direction),
            first: Box::new(existing),
            second: Box::new(new_leaf),
        }
    }
}

/// The layout after splitting the first pane (in surface order) that shows `target`;
/// `None` when no pane shows it.
pub open spec fn split_model(
    m: PaneModel,
    target: Seq<char>,
    direction: SplitDirection,
    created: Seq<char>,
) -> Option<PaneModel>
    decreases m,
{
    match m {
        PaneModel::Leaf(s) => if s == target {
            Some(split_pair(target, direction, created))
        } else {
            None
        },
        PaneModel::Split { orientation, first, second } => match split_model(
            *first,
            target,
            direction,
            created,
        ) {
            Some(f) => Some(PaneModel::Split { orientation, first: Box::new(f), second }),
            None => match split_model(*second, target, direction, created) {
                Some(s) => Some(PaneModel::Split { orientation, first, second: Box::new(s) }),
                None => None,
            },
        },
    }
}


/// The surfaces of the split that replaces a pane, in order.
pub open spec fn split_pair_leaves(target: Seq<char>, direction: SplitDirection, created: Seq<char>) -> Seq<Seq<char>> {
    if direction_inserts_first(direction) {
        seq![created, target]
    } else {
        seq![target, created]
    }
}

/// The layout `m` with its `i`-th surface (in surface order) replaced by the layout `sub`;
/// every split of `m` keeps its orientation and its other side.
pub open spec fn replace_leaf(m: PaneModel, i: int, sub: PaneModel) -> PaneModel
    decreases m,
{
    match m {
        PaneModel::Leaf(_) => if i == 0 {
            sub
        } else {
            m
        },
        PaneModel::Split { orientation, first, second } => if i < leaves(*first).len() {
            PaneModel::Split { orientation, first: Box::new(replace_leaf(*first, i, sub)), second }
        } else {
            PaneModel::Split {
                orientation,
                first,
                second: Box::new(replace_leaf(*second, i - leaves(*first).len(), sub)),
            }
        },
    }
}

proof fn lemma_split_model_leaves(m: PaneModel, t: Seq<char>, d: SplitDirection, c: Seq<char>) -> (i: int)
    ensures
        split_model(m, t, d, c) is None ==> !leaves(m).contains(t),
        split_model(m, t, d, c) is Some ==> {
            &&& 0 <= i < leaves(m).len()
            &&& leaves(m)[i] == t
            &&& forall|j: int| 0 <= j < i ==> leaves(m)[j] != t
            &&& leaves(split_model(m, t, d, c)->0) == leaves(m).take(i) + split_pair_leaves(t, d, c)
                + leaves(m).skip(i + 1)
            &&& split_model(m, t, d, c)->0 == replace_leaf(m, i, split_pair(t, d, c))
        },
    decreases m,
{
    match m {
        PaneModel::Leaf(s) => {
            if s == t {
                assert(leaves(PaneModel::Leaf(t)) == seq![t]);
                assert(leaves(PaneModel::Leaf(c)) == seq![c]);
                assert(leaves(split_pair(t, d, c)) =~= split_pair_leaves(t, d, c));
                assert(leaves(m).take(0) + split_pair_leaves(t, d, c) + leaves(m).skip(1)
                    =~= split_pair_leaves(t, d, c));
            } else {
                assert(!leaves(m).contains(t)) by {
                    if leaves(m).contains(t) {
                        let k = choose|k: int| 0 <= k < leaves(m).len() && leaves(m)[k] == t;
                        assert(leaves(m)[k] == s);
                    }
                }
            }
            0
        },
        PaneModel::Split { orientation, first, second } => {
            let l1 = leaves(*first);
            let l2 = leaves(*second);
            let l = leaves(m);
            assert(l == l1 + l2);
            let i1 = lemma_split_model_leaves(*first, t, d, c);
            let i2 = lemma_split_model_leaves(*second, t, d, c);
            match split_model(*first, t, d, c) {
                Some(f) => {
                    assert(l.take(i1) =~= l1.take(i1));
                    assert(l.skip(i1 + 1) =~= l1.skip(i1 + 1) + l2);
                    assert(leaves(split_model(m, t, d, c)->0) == leaves(f) + l2);
                    assert(leaves(split_model(m, t, d, c)->0) =~= l.take(i1) + split_pair_leaves(t, d, c)
                        + l.skip(i1 + 1));
                    i1
                },
                None => {
                    match split_model(*second, t, d, c) {
                        Some(g) => {
                            let i = l1.len() + i2;
                            assert(l.take(i) =~= l1 + l2.take(i2));
                            assert(l.skip(i + 1) =~= l2.skip(i2 + 1));
                            assert(l[i] == l2[i2]);
                            assert forall|j: int| 0 <= j < i implies l[j] != t by {
                                if j < l1.len() {
                                    assert(l[j] == l1[j]);
                                    assert(!l1.contains(t));
                                } else {
                                    assert(l[j] == l2[j - l1.len()]);
                                }
                            }
                            assert(leaves(split_model(m, t, d, c)->0) == l1 + leaves(g));
                            assert(leaves(split_model(m, t, d, c)->0) =~= l.take(i) + split_pair_leaves(t, d, c)
                                + l.skip(i + 1));
                            i
                        },
                        None => {
                            assert(!l.contains(t)) by {
                                if l.contains(t) {
                                    let k = choose|k: int| 0 <= k < l.len() && l[k] == t;
                                    if k < l1.len() {
                                        assert(l1[k] == t);
                                    } else {
                                        assert(l2[k - l1.len()] == t);
                                    }
                                }
                            }
                            0
                        },
                    }
                },
            }
        },
    }
}

/// A split succeeds exactly when some pane shows the target surface; then the surfaces of
/// the layout are those before, with the first occurrence of the target replaced by the
/// target and the new surface, in the order that the direction gives. So a successful
/// split adds exactly one surface.
pub proof fn lemma_split_surfaces(m: PaneModel, target: Seq<char>, direction: SplitDirection, created: Seq<char>)
    ensures
        (split_model(m, target, direction, created) is Some) == leaves(m).contains(target),
        split_model(m, target, direction, created) is Some ==> {
            let i = leaves(m).index_of_first(target)->0;
            let after = leaves(split_model(m, target, direction, created)->0);
            &&& after == leaves(m).take(i) + split_pair_leaves(target, direction, created)
                + leaves(m).skip(i + 1)
            &&& after.len() == leaves(m).len() + 1
            &&& split_model(m, target, direction, created)->0 == replace_leaf(
                m,
                i,
                split_pair(target, direction, created),
            )
        },
{
    let i = lemma_split_model_leaves(m, target, direction, created);
    leaves(m).index_of_first_ensures(target);
    if split_model(m, target, direction, created) is Some {
        assert(leaves(m).contains(target));
        let k = leaves(m).index_of_first(target)->0;
        assert(k == i) by {
            if k < i {
                assert(leaves(m)[k] != target);
            }
            if i < k {
                assert(leaves(m)[i] != target);
            }
        }
    }
}

fn split_node(node: &mut PaneNode, target_surface: &str, direction: SplitDirection, new_surface: String) -> (r: bool)
    ensures
        r == split_model(old(node).model(), target_surface@, direction, new_surface@) is Some,
        r ==> final(node).model() == split_model(
            old(node).model(),
            target_surface@,
            direction,
            new_surface@,
        )->0,
        !r ==> final(node).model() == old(node).model(),
    decreases *old(node),
{
    match node {
        PaneNode::Leaf(surface_id) => {
            if !str_eq(surface_id.as_str(), target_surface) {
                return false;
            }
            let existing = Box::new(PaneNode::Leaf(surface_id.clone()));
            let created = Box::new(PaneNode::Leaf(new_surface));
            assert(existing.model() == PaneModel::Leaf(target_surface@));
            let orientation = direction.orientation();
            let (first, second) = if direction.insert_first() {
                (created, existing)
            } else {
                (existing, created)
            };
            let ghost f = first.model();
            let ghost g = second.model();
            *node = PaneNode::Split { orientation, first, second };
            assert(node.model() == PaneModel::Split {
                orientation,
                first: Box::new(f),
                second: Box::new(g),
            });
            true
        },
        PaneNode::Split { first, second, .. } => {
            if split_node(&mut **first, target_surface, direction, new_surface.clone()) {
                true
            } else {
                split_node(&mut **second, target_surface, direction, new_surface)
            }
        },
    }
}

fn collect_surfaces<'a>(node: &'a PaneNode, surfaces: &mut Vec<&'a str>)
    ensures
        final(surfaces)@.map_values(|s: &str| s@) == old(surfaces)@.map_values(|s: &str| s@)
            + leaves(node.model()),
    decreases node,
{
    match node {
        PaneNode::Leaf(surface_id) => {
            surfaces.push(surface_id.as_str());
            assert(final(surfaces)@.map_values(|s: &str| s@) =~= old(surfaces)@.map_values(|s: &str| s@)
                + leaves(node.model()));
        },
        PaneNode::Split { first, second, .. } => {
            collect_surfaces(first, surfaces);
            collect_surfaces(second, surfaces);
            assert(final(surfaces)@.map_values(|s: &str| s@) =~= old(surfaces)@.map_values(|s: &str| s@)
                + leaves(node.model()));
        },
    }
}

impl PaneTree {
    /// A layout with one pane showing `initial_surface`.
    pub fn new(initial_surface: String) -> (r: Self)
        ensures
            r@ == PaneModel::Leaf(initial_surface@),
    {
        Self { root: PaneNode::Leaf(initial_surface) }
    }

    /// Splits the first pane that shows `target_surface`, opening `new_surface` on the side
    /// that `direction` names. Returns whether such a pane was found; if not, the layout is
    /// unchanged.
    pub fn split(&mut self, target_surface: &str, direction: SplitDirection, new_surface: String) -> (r: bool)
        ensures
            r == split_model(old(self)@, target_surface@, direction, new_surface@) is Some,
            r ==> final(self)@ == split_model(old(self)@, target_surface@, direction, new_surface@)->0,
            r ==> final(self)@ == replace_leaf(
                old(self)@,
                leaves(old(self)@).index_of_first(target_surface@)->0,
                split_pair(target_surface@, direction, new_surface@),
            ),
            !r ==> final(self)@ == old(self)@,
    {
        proof {
            lemma_split_surfaces(self@, target_surface@, direction, new_surface@);
        }
        split_node(&mut self.root, target_surface, direction, new_surface)
    }

    /// A copy of this layout.
    pub fn duplicate(&self) -> (r: Self)
        ensures
            r@ == self@,
    {
        PaneTree { root: self.root.duplicate() }
    }

    /// The surfaces of the layout, first sub-layout before second.
    pub fn surfaces(&self) -> (r: Vec<&str>)
        ensures
            r@.map_values(|s: &str| s@) == leaves(self@),
    {
        let mut surfaces = Vec::new();
        collect_surfaces(&self.root, &mut surfaces);
        assert(surfaces@.map_values(|s: &str| s@) =~= leaves(self@));
        surfaces
    }
}

} // verus!
