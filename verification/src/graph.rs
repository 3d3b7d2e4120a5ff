//! The system tree: windows, their workspaces and their surfaces, ordered by id and
//! labelled with stable handles.
use vstd::prelude::*;

use crate::ids::{handle_ref_spec, surface_ref, window_ref, workspace_ref, HandleKind};
use crate::sort::{
    lemma_sort_of_reordering, lemma_stable_sort_unique, reorders, sort_by_key, stable_sort_of, Keyed,
};

verus! {

/// The whole tree of windows.
#[derive(Debug, Clone, PartialEq, Eq)]
pub struct SystemTree {
    pub windows: Vec<WindowNode>,
}

/// A window of the tree.
#[derive(Debug, Clone, PartialEq, Eq)]
pub struct WindowNode {
    pub reference: String,
    pub id: u64,
    pub title: String,
    pub workspaces: Vec<WorkspaceNode>,
}

/// A workspace of the tree.
#[derive(Debug, Clone, PartialEq, Eq)]
pub struct WorkspaceNode {
    pub reference: String,
    pub id: u64,
    pub unread_count: usize,
    pub surfaces: Vec<SurfaceNode>,
}

/// A surface of the tree.
#[derive(Debug, Clone, PartialEq, Eq)]
pub struct SurfaceNode {
    pub reference: String,
    pub id: u64,
    pub kind: SurfaceKind,
}

/// What a surface shows.
#[derive(Debug, Clone, Copy, PartialEq, Eq, Structural)]
pub enum SurfaceKind {
    Terminal,
    Webview,
}

/// A window as the runtime reports it, in no particular order.
#[derive(Debug, Clone, PartialEq, Eq)]
pub struct WindowSnapshot {
    pub id: u64,
    pub title: String,
    pub workspaces: Vec<WorkspaceSnapshot>,
}

/// A workspace as the runtime reports it.
#[derive(Debug, Clone, PartialEq, Eq)]
pub struct WorkspaceSnapshot {
    pub id: u64,
    pub unread_count: usize,
    pub surfaces: Vec<SurfaceSnapshot>,
}

/// A surface as the runtime reports it.
#[derive(Debug, Clone, Copy, PartialEq, Eq, Structural)]
pub struct SurfaceSnapshot {
    pub id: u64,
    pub kind: SurfaceKind,
}

impl Keyed for WindowSnapshot {
    open spec fn key(&self) -> u64 {
        self.id
    }

    fn key_of(&self) -> (k: u64) {
        self.id
    }
}

impl Keyed for WorkspaceSnapshot {
    open spec fn key(&self) -> u64 {
        self.id
    }

    fn key_of(&self) -> (k: u64) {
        self.id
    }
}

impl Keyed for SurfaceSnapshot {
    open spec fn key(&self) -> u64 {
        self.id
    }

    fn key_of(&self) -> (k: u64) {
        self.id
    }
}

/// A surface node describes a surface snapshot: same id and kind, and its handle.
pub open spec fn surface_built(node: SurfaceNode, snap: SurfaceSnapshot) -> bool {
    &&& node.reference@ == handle_ref_spec(HandleKind::Surface, snap.id)
    &&& node.id == snap.id
    &&& node.kind == snap.kind
}

/// The nodes describe the snapshots stably sorted by id, one for one.
pub open spec fn surfaces_built(nodes: Seq<SurfaceNode>, snaps: Seq<SurfaceSnapshot>) -> bool {
    exists|sorted: Seq<SurfaceSnapshot>|
        #[trigger] stable_sort_of(sorted, snaps) && nodes.len() == sorted.len() && forall|i: int|
            0 <= i < nodes.len() ==> surface_built(#[trigger] nodes[i], sorted[i])
}

/// A workspace node describes a workspace snapshot: same id and unread count, its handle,
/// and its surfaces sorted by id.
pub open spec fn workspace_built(node: WorkspaceNode, snap: WorkspaceSnapshot) -> bool {
    &&& node.reference@ == handle_ref_spec(HandleKind::Workspace, snap.id)
    &&& node.id == snap.id
    &&& node.unread_count == snap.unread_count
    &&& surfaces_built(node.surfaces@, snap.surfaces@)
}

/// The nodes describe the snapshots stably sorted by id, one for one.
pub open spec fn workspaces_built(nodes: Seq<WorkspaceNode>, snaps: Seq<WorkspaceSnapshot>) -> bool {
    exists|sorted: Seq<WorkspaceSnapshot>|
        #[trigger] stable_sort_of(sorted, snaps) && nodes.len() == sorted.len() && forall|i: int|
            0 <= i < nodes.len() ==> workspace_built(#[trigger] nodes[i], sorted[i])
}

/// A window node describes a window snapshot: same id and title, its handle, and its
/// workspaces sorted by id.
pub open spec fn window_built(node: WindowNode, snap: WindowSnapshot) -> bool {
    &&& node.reference@ == handle_ref_spec(HandleKind::Window, snap.id)
    &&& node.id == snap.id
    &&& node.title == snap.title
    &&& workspaces_built(node.workspaces@, snap.workspaces@)
}

/// The nodes describe the snapshots stably sorted by id, one for one.
pub open spec fn windows_built(nodes: Seq<WindowNode>, snaps: Seq<WindowSnapshot>) -> bool {
    exists|sorted: Seq<WindowSnapshot>|
        #[trigger] stable_sort_of(sorted, snaps) && nodes.len() == sorted.len() && forall|i: int|
            0 <= i < nodes.len() ==> window_built(#[trigger] nodes[i], sorted[i])
}


/// `q` holds the surfaces of `p` in another order (ids distinct in each).
pub open spec fn surfaces_reordered(q: Seq<SurfaceSnapshot>, p: Seq<SurfaceSnapshot>) -> bool {
    reorders(q, p, |a: SurfaceSnapshot, b: SurfaceSnapshot| a == b)
}

/// `a` is `b` with its surfaces reordered.
pub open spec fn workspace_reordered(a: WorkspaceSnapshot, b: WorkspaceSnapshot) -> bool {
    &&& a.id == b.id
    &&& a.unread_count == b.unread_count
    &&& surfaces_reordered(a.surfaces@, b.surfaces@)
}

/// `q` holds the workspaces of `p` in another order (ids distinct in each), each with its
/// surfaces reordered.
pub open spec fn workspaces_reordered(q: Seq<WorkspaceSnapshot>, p: Seq<WorkspaceSnapshot>) -> bool {
    reorders(q, p, |a: WorkspaceSnapshot, b: WorkspaceSnapshot| workspace_reordered(a, b))
}

/// `a` is `b` with its workspaces reordered.
pub open spec fn window_reordered(a: WindowSnapshot, b: WindowSnapshot) -> bool {
    &&& a.id == b.id
    &&& a.title == b.title
    &&& workspaces_reordered(a.workspaces@, b.workspaces@)
}

/// `q` holds the windows of `p` in another order (ids distinct in each), each with its
/// workspaces reordered.
pub open spec fn windows_reordered(q: Seq<WindowSnapshot>, p: Seq<WindowSnapshot>) -> bool {
    reorders(q, p, |a: WindowSnapshot, b: WindowSnapshot| window_reordered(a, b))
}

proof fn lemma_surfaces_built_reordered(nodes: Seq<SurfaceNode>, p: Seq<SurfaceSnapshot>, q: Seq<SurfaceSnapshot>)
    requires
        surfaces_built(nodes, p),
        surfaces_reordered(q, p),
    ensures
        surfaces_built(nodes, q),
{
    let sp = choose|sorted: Seq<SurfaceSnapshot>|
        #[trigger] stable_sort_of(sorted, p) && nodes.len() == sorted.len() && forall|i: int|
            0 <= i < nodes.len() ==> surface_built(#[trigger] nodes[i], sorted[i]);
    let related = |a: SurfaceSnapshot, b: SurfaceSnapshot| a == b;
    let sq = lemma_sort_of_reordering(sp, p, q, related);
    assert(stable_sort_of(sp, p));
    assert(nodes.len() == sp.len());
    assert forall|i: int| 0 <= i < nodes.len() implies surface_built(#[trigger] nodes[i], sq[i]) by {
        assert(sq[i].key() == sp[i].key() && related(sq[i], sp[i]));
    }
    assert(stable_sort_of(sq, q));
}

proof fn lemma_workspaces_built_reordered(
    nodes: Seq<WorkspaceNode>,
    p: Seq<WorkspaceSnapshot>,
    q: Seq<WorkspaceSnapshot>,
)
    requires
        workspaces_built(nodes, p),
        workspaces_reordered(q, p),
    ensures
        workspaces_built(nodes, q),
{
    let sp = choose|sorted: Seq<WorkspaceSnapshot>|
        #[trigger] stable_sort_of(sorted, p) && nodes.len() == sorted.len() && forall|i: int|
            0 <= i < nodes.len() ==> workspace_built(#[trigger] nodes[i], sorted[i]);
    let related = |a: WorkspaceSnapshot, b: WorkspaceSnapshot| workspace_reordered(a, b);
    let sq = lemma_sort_of_reordering(sp, p, q, related);
    assert(stable_sort_of(sp, p));
    assert(nodes.len() == sp.len());
    assert forall|i: int| 0 <= i < nodes.len() implies workspace_built(#[trigger] nodes[i], sq[i]) by {
        assert(sq[i].key() == sp[i].key() && related(sq[i], sp[i]));
        assert(workspace_built(nodes[i], sp[i]));
        lemma_surfaces_built_reordered(nodes[i].surfaces@, sp[i].surfaces@, sq[i].surfaces@);
    }
    assert(stable_sort_of(sq, q));
}

proof fn lemma_windows_built_reordered(nodes: Seq<WindowNode>, p: Seq<WindowSnapshot>, q: Seq<WindowSnapshot>)
    requires
        windows_built(nodes, p),
        windows_reordered(q, p),
    ensures
        windows_built(nodes, q),
{
    let sp = choose|sorted: Seq<WindowSnapshot>|
        #[trigger] stable_sort_of(sorted, p) && nodes.len() == sorted.len() && forall|i: int|
            0 <= i < nodes.len() ==> window_built(#[trigger] nodes[i], sorted[i]);
    let related = |a: WindowSnapshot, b: WindowSnapshot| window_reordered(a, b);
    let sq = lemma_sort_of_reordering(sp, p, q, related);
    assert(stable_sort_of(sp, p));
    assert(nodes.len() == sp.len());
    assert forall|i: int| 0 <= i < nodes.len() implies window_built(#[trigger] nodes[i], sq[i]) by {
        assert(sq[i].key() == sp[i].key() && related(sq[i], sp[i]));
        assert(window_built(nodes[i], sp[i]));
        lemma_workspaces_built_reordered(nodes[i].workspaces@, sp[i].workspaces@, sq[i].workspaces@);
    }
    assert(stable_sort_of(sq, q));
}


/// Two surface lists with the same handles, ids and kinds, in the same order.
pub open spec fn surface_nodes_agree(a: Seq<SurfaceNode>, b: Seq<SurfaceNode>) -> bool {
    &&& a.len() == b.len()
    &&& forall|i: int|
        0 <= i < a.len() ==> {
            &&& #[trigger] a[i].reference@ == b[i].reference@
            &&& a[i].id == b[i].id
            &&& a[i].kind == b[i].kind
        }
}

/// Two workspace lists with the same handles, ids, unread counts and surfaces, in order.
pub open spec fn workspace_nodes_agree(a: Seq<WorkspaceNode>, b: Seq<WorkspaceNode>) -> bool {
    &&& a.len() == b.len()
    &&& forall|i: int|
        0 <= i < a.len() ==> {
            &&& #[trigger] a[i].reference@ == b[i].reference@
            &&& a[i].id == b[i].id
            &&& a[i].unread_count == b[i].unread_count
            &&& surface_nodes_agree(a[i].surfaces@, b[i].surfaces@)
        }
}

/// Two window lists with the same handles, ids, titles and workspaces, in order.
pub open spec fn window_nodes_agree(a: Seq<WindowNode>, b: Seq<WindowNode>) -> bool {
    &&& a.len() == b.len()
    &&& forall|i: int|
        0 <= i < a.len() ==> {
            &&& #[trigger] a[i].reference@ == b[i].reference@
            &&& a[i].id == b[i].id
            &&& a[i].title == b[i].title
            &&& workspace_nodes_agree(a[i].workspaces@, b[i].workspaces@)
        }
}

proof fn lemma_surfaces_determined(a: Seq<SurfaceNode>, b: Seq<SurfaceNode>, p: Seq<SurfaceSnapshot>)
    requires
        surfaces_built(a, p),
        surfaces_built(b, p),
    ensures
        surface_nodes_agree(a, b),
{
    let sa = choose|sorted: Seq<SurfaceSnapshot>|
        #[trigger] stable_sort_of(sorted, p) && a.len() == sorted.len() && forall|i: int|
            0 <= i < a.len() ==> surface_built(#[trigger] a[i], sorted[i]);
    let sb = choose|sorted: Seq<SurfaceSnapshot>|
        #[trigger] stable_sort_of(sorted, p) && b.len() == sorted.len() && forall|i: int|
            0 <= i < b.len() ==> surface_built(#[trigger] b[i], sorted[i]);
    lemma_stable_sort_unique(sa, sb, p);
    assert forall|i: int| 0 <= i < a.len() implies #[trigger] a[i].reference@ == b[i].reference@ && a[i].id
        == b[i].id && a[i].kind == b[i].kind by {
        assert(surface_built(a[i], sa[i]));
        assert(surface_built(b[i], sb[i]));
    }
}

proof fn lemma_workspaces_determined(a: Seq<WorkspaceNode>, b: Seq<WorkspaceNode>, p: Seq<WorkspaceSnapshot>)
    requires
        workspaces_built(a, p),
        workspaces_built(b, p),
    ensures
        workspace_nodes_agree(a, b),
{
    let sa = choose|sorted: Seq<WorkspaceSnapshot>|
        #[trigger] stable_sort_of(sorted, p) && a.len() == sorted.len() && forall|i: int|
            0 <= i < a.len() ==> workspace_built(#[trigger] a[i], sorted[i]);
    let sb = choose|sorted: Seq<WorkspaceSnapshot>|
        #[trigger] stable_sort_of(sorted, p) && b.len() == sorted.len() && forall|i: int|
            0 <= i < b.len() ==> workspace_built(#[trigger] b[i], sorted[i]);
    lemma_stable_sort_unique(sa, sb, p);
    assert forall|i: int| 0 <= i < a.len() implies {
        &&& #[trigger] a[i].reference@ == b[i].reference@
        &&& a[i].id == b[i].id
        &&& a[i].unread_count == b[i].unread_count
        &&& surface_nodes_agree(a[i].surfaces@, b[i].surfaces@)
    } by {
        assert(workspace_built(a[i], sa[i]));
        assert(workspace_built(b[i], sb[i]));
        lemma_surfaces_determined(a[i].surfaces@, b[i].surfaces@, sa[i].surfaces@);
    }
}

/// The build contract has one outcome: two node lists that both describe the tree of `p`
/// agree in every handle, id, title, count and kind, at every level.
pub proof fn lemma_tree_determined(a: Seq<WindowNode>, b: Seq<WindowNode>, p: Seq<WindowSnapshot>)
    requires
        windows_built(a, p),
        windows_built(b, p),
    ensures
        window_nodes_agree(a, b),
{
    let sa = choose|sorted: Seq<WindowSnapshot>|
        #[trigger] stable_sort_of(sorted, p) && a.len() == sorted.len() && forall|i: int|
            0 <= i < a.len() ==> window_built(#[trigger] a[i], sorted[i]);
    let sb = choose|sorted: Seq<WindowSnapshot>|
        #[trigger] stable_sort_of(sorted, p) && b.len() == sorted.len() && forall|i: int|
            0 <= i < b.len() ==> window_built(#[trigger] b[i], sorted[i]);
    lemma_stable_sort_unique(sa, sb, p);
    assert forall|i: int| 0 <= i < a.len() implies {
        &&& #[trigger] a[i].reference@ == b[i].reference@
        &&& a[i].id == b[i].id
        &&& a[i].title == b[i].title
        &&& workspace_nodes_agree(a[i].workspaces@, b[i].workspaces@)
    } by {
        assert(window_built(a[i], sa[i]));
        assert(window_built(b[i], sb[i]));
        lemma_workspaces_determined(a[i].workspaces@, b[i].workspaces@, sa[i].workspaces@);
    }
}

/// When ids are distinct among the windows, among each window's workspaces and among each
/// workspace's surfaces, the order in which the snapshots come does not matter: the trees
/// built from `p` and from any reordering `q` of `p` (at any level) agree in every handle,
/// id, title, count and kind.
pub proof fn lemma_tree_ignores_order(
    from_p: Seq<WindowNode>,
    from_q: Seq<WindowNode>,
    p: Seq<WindowSnapshot>,
    q: Seq<WindowSnapshot>,
)
    requires
        windows_built(from_p, p),
        windows_built(from_q, q),
        windows_reordered(q, p),
    ensures
        window_nodes_agree(from_p, from_q),
{
    lemma_windows_built_reordered(from_p, p, q);
    lemma_tree_determined(from_p, from_q, q);
}


proof fn lemma_surfaces_ascend(nodes: Seq<SurfaceNode>, p: Seq<SurfaceSnapshot>)
    requires
        surfaces_built(nodes, p),
    ensures
        forall|i: int, j: int| 0 <= i <= j < nodes.len() ==> #[trigger] nodes[i].id <= #[trigger] nodes[j].id,
{
    let sp = choose|sorted: Seq<SurfaceSnapshot>|
        #[trigger] stable_sort_of(sorted, p) && nodes.len() == sorted.len() && forall|i: int|
            0 <= i < nodes.len() ==> surface_built(#[trigger] nodes[i], sorted[i]);
    assert forall|i: int, j: int| 0 <= i <= j < nodes.len() implies #[trigger] nodes[i].id <= #[trigger] nodes[j].id by {
        assert(surface_built(nodes[i], sp[i]));
        assert(surface_built(nodes[j], sp[j]));
        assert(sp[i].key() <= sp[j].key());
    }
}

proof fn lemma_workspaces_ascend(nodes: Seq<WorkspaceNode>, p: Seq<WorkspaceSnapshot>)
    requires
        workspaces_built(nodes, p),
    ensures
        forall|i: int, j: int| 0 <= i <= j < nodes.len() ==> #[trigger] nodes[i].id <= #[trigger] nodes[j].id,
        forall|k: int, i: int, j: int|
            0 <= k < nodes.len() && 0 <= i <= j < nodes[k].surfaces@.len() ==> #[trigger] nodes[k].surfaces@[i].id
                <= #[trigger] nodes[k].surfaces@[j].id,
{
    let sp = choose|sorted: Seq<WorkspaceSnapshot>|
        #[trigger] stable_sort_of(sorted, p) && nodes.len() == sorted.len() && forall|i: int|
            0 <= i < nodes.len() ==> workspace_built(#[trigger] nodes[i], sorted[i]);
    assert forall|i: int, j: int| 0 <= i <= j < nodes.len() implies #[trigger] nodes[i].id <= #[trigger] nodes[j].id by {
        assert(workspace_built(nodes[i], sp[i]));
        assert(workspace_built(nodes[j], sp[j]));
        assert(sp[i].key() <= sp[j].key());
    }
    assert forall|k: int, i: int, j: int|
        0 <= k < nodes.len() && 0 <= i <= j < nodes[k].surfaces@.len() implies #[trigger] nodes[k].surfaces@[i].id
            <= #[trigger] nodes[k].surfaces@[j].id by {
        assert(workspace_built(nodes[k], sp[k]));
        lemma_surfaces_ascend(nodes[k].surfaces@, sp[k].surfaces@);
    }
}

/// The tree is in ascending order of id at every level: windows, the workspaces of each
/// window, and the surfaces of each workspace.
pub proof fn lemma_tree_ids_ascend(nodes: Seq<WindowNode>, p: Seq<WindowSnapshot>)
    requires
        windows_built(nodes, p),
    ensures
        forall|i: int, j: int| 0 <= i <= j < nodes.len() ==> #[trigger] nodes[i].id <= #[trigger] nodes[j].id,
        forall|k: int, i: int, j: int|
            0 <= k < nodes.len() && 0 <= i <= j < nodes[k].workspaces@.len() ==> #[trigger] nodes[k].workspaces@[i].id
                <= #[trigger] nodes[k].workspaces@[j].id,
        forall|k: int, m: int, i: int, j: int|
            0 <= k < nodes.len() && 0 <= m < nodes[k].workspaces@.len() && 0 <= i <= j
                < nodes[k].workspaces@[m].surfaces@.len() ==> #[trigger] nodes[k].workspaces@[m].surfaces@[i].id
                <= #[trigger] nodes[k].workspaces@[m].surfaces@[j].id,
{
    let sp = choose|sorted: Seq<WindowSnapshot>|
        #[trigger] stable_sort_of(sorted, p) && nodes.len() == sorted.len() && forall|i: int|
            0 <= i < nodes.len() ==> window_built(#[trigger] nodes[i], sorted[i]);
    assert forall|i: int, j: int| 0 <= i <= j < nodes.len() implies #[trigger] nodes[i].id <= #[trigger] nodes[j].id by {
        assert(window_built(nodes[i], sp[i]));
        assert(window_built(nodes[j], sp[j]));
        assert(sp[i].key() <= sp[j].key());
    }
    assert forall|k: int, i: int, j: int|
        0 <= k < nodes.len() && 0 <= i <= j < nodes[k].workspaces@.len() implies #[trigger] nodes[k].workspaces@[i].id
            <= #[trigger] nodes[k].workspaces@[j].id by {
        assert(window_built(nodes[k], sp[k]));
        lemma_workspaces_ascend(nodes[k].workspaces@, sp[k].workspaces@);
    }
    assert forall|k: int, m: int, i: int, j: int|
        0 <= k < nodes.len() && 0 <= m < nodes[k].workspaces@.len() && 0 <= i <= j
            < nodes[k].workspaces@[m].surfaces@.len() implies #[trigger] nodes[k].workspaces@[m].surfaces@[i].id
            <= #[trigger] nodes[k].workspaces@[m].surfaces@[j].id by {
        assert(window_built(nodes[k], sp[k]));
        lemma_workspaces_ascend(nodes[k].workspaces@, sp[k].workspaces@);
    }
}

fn build_surfaces(surfaces: Vec<SurfaceSnapshot>) -> (r: Vec<SurfaceNode>)
    ensures
        surfaces_built(r@, surfaces@),
{
    let sorted = sort_by_key(surfaces);
    let n = sorted.len();
    let mut out: Vec<SurfaceNode> = Vec::new();
    let mut i: usize = 0;
    while i < n
        invariant
            n == sorted@.len(),
            i <= n,
            out.len() == i,
            forall|j: int| 0 <= j < i ==> surface_built(#[trigger] out@[j], sorted@[j]),
        decreases n - i,
    {
        let surface = sorted[i];
        out.push(SurfaceNode { reference: surface_ref(surface.id), id: surface.id, kind: surface.kind });
        i = i + 1;
    }
    assert(stable_sort_of(sorted@, surfaces@));
    out
}

fn build_workspaces(workspaces: Vec<WorkspaceSnapshot>) -> (r: Vec<WorkspaceNode>)
    ensures
        workspaces_built(r@, workspaces@),
{
    let sorted = sort_by_key(workspaces);
    let ghost sorted_view = sorted@;
    let n = sorted.len();
    let mut rest = sorted;
    let mut out: Vec<WorkspaceNode> = Vec::new();
    let mut i: usize = 0;
    while i < n
        invariant
            n == sorted_view.len(),
            i <= n,
            rest@ == sorted_view.skip(i as int),
            out.len() == i,
            forall|j: int| 0 <= j < i ==> workspace_built(#[trigger] out@[j], sorted_view[j]),
        decreases n - i,
    {
        let workspace = rest.remove(0);
        assert(workspace == sorted_view[i as int]);
        let reference = workspace_ref(workspace.id);
        let surfaces = build_surfaces(workspace.surfaces);
        out.push(
            WorkspaceNode {
                reference,
                id: workspace.id,
                unread_count: workspace.unread_count,
                surfaces,
            },
        );
        assert(rest@ =~= sorted_view.skip(i + 1));
        i = i + 1;
    }
    assert(stable_sort_of(sorted_view, workspaces@));
    out
}

/// Builds the system tree: windows sorted by id, each with its workspaces sorted by id,
/// each with its surfaces sorted by id (records of equal id keep their order), every node
/// labelled with its handle.
pub fn build_system_tree(windows: Vec<WindowSnapshot>) -> (r: SystemTree)
    ensures
        windows_built(r.windows@, windows@),
        forall|i: int, j: int|
            0 <= i <= j < r.windows@.len() ==> #[trigger] r.windows@[i].id <= #[trigger] r.windows@[j].id,
{
    let sorted = sort_by_key(windows);
    let ghost sorted_view = sorted@;
    let n = sorted.len();
    let mut rest = sorted;
    let mut out: Vec<WindowNode> = Vec::new();
    let mut i: usize = 0;
    while i < n
        invariant
            n == sorted_view.len(),
            i <= n,
            rest@ == sorted_view.skip(i as int),
            out.len() == i,
            forall|j: int| 0 <= j < i ==> window_built(#[trigger] out@[j], sorted_view[j]),
        decreases n - i,
    {
        let window = rest.remove(0);
        assert(window == sorted_view[i as int]);
        let reference = window_ref(window.id);
        let workspaces = build_workspaces(window.workspaces);
        out.push(WindowNode { reference, id: window.id, title: window.title, workspaces });
        assert(rest@ =~= sorted_view.skip(i + 1));
        i = i + 1;
    }
    assert(stable_sort_of(sorted_view, windows@));
    proof {
        lemma_tree_ids_ascend(out@, windows@);
    }
    SystemTree { windows: out }
}

} // verus!
