//! The registry of webview surfaces: open, navigate, close and list.
use vstd::prelude::*;
use vstd::string::*;

use crate::ids::{handle_ref_spec, lemma_handle_ref_injective, surface_ref, HandleKind};
use crate::select::{lemma_filter_selects, lemma_selects_same_predicate, selects};
use crate::text::str_eq;

verus! {

/// Webview surface handles are numbered from here on, apart from terminal surfaces.
pub const WEBVIEW_SURFACE_ID_BASE: u64 = 10_000_000;

/// A webview surface of a workspace.
#[derive(Debug, Clone, PartialEq, Eq)]
pub struct WebviewSurface {
    pub id: String,
    pub workspace_id: String,
    pub url: String,
    pub title: Option<String>,
}

/// A frame rendered by an offscreen webview.
#[derive(Debug, Clone, Copy, PartialEq, Eq, Structural)]
pub struct WebviewFrame {
    pub width: u32,
    pub height: u32,
    pub generation: u64,
}

/// What an offscreen webview engine offers to the terminal.
pub trait OffscreenWebview {
    fn navigate(&mut self, url: String);

    fn evaluate_javascript(&mut self, script: String);

    fn poll_frame(&mut self) -> Option<WebviewFrame>;
}

/// The open webview surfaces, oldest first.
pub struct WebviewStore {
    next_id: u64,
    surfaces: Vec<WebviewSurface>,
    numbers: Ghost<Seq<nat>>,
}

/// The handle of the `k`-th webview surface opened by a store.
pub open spec fn webview_handle(k: nat) -> Seq<char> {
    handle_ref_spec(HandleKind::Surface, (WEBVIEW_SURFACE_ID_BASE + k) as u64)
}

/// `surface` with its url replaced.
pub open spec fn with_url(surface: WebviewSurface, url: String) -> WebviewSurface {
    WebviewSurface { url, ..surface }
}

/// Whether some surface of `s` has handle `id`.
pub open spec fn has_id(s: Seq<WebviewSurface>, id: Seq<char>) -> bool {
    exists|i: int| 0 <= i < s.len() && #[trigger] s[i].id@ == id
}

/// No two surfaces share a handle.
pub open spec fn ids_distinct(s: Seq<WebviewSurface>) -> bool {
    forall|i: int, j: int| 0 <= i < j < s.len() ==> s[i].id@ != s[j].id@
}

/// Whether a surface belongs to workspace `w`.
pub open spec fn belongs_to(w: Seq<char>) -> spec_fn(WebviewSurface) -> bool {
    |x: WebviewSurface| x.workspace_id@ == w
}

/// The surfaces of workspace `w`, in store order.
pub open spec fn surfaces_of(s: Seq<WebviewSurface>, w: Seq<char>) -> Seq<WebviewSurface> {
    s.filter(belongs_to(w))
}


/// The surfaces listed for workspace `w` are, in store order, exactly the stored surfaces
/// whose workspace is `w`: none of another workspace, and none of `w` left out.
pub proof fn lemma_surfaces_of_are_exactly_the_workspace(s: Seq<WebviewSurface>, w: Seq<char>) -> (idx: Seq<int>)
    ensures
        selects(idx, s, |x: WebviewSurface| x.workspace_id@ == w),
        idx.len() == surfaces_of(s, w).len(),
        forall|k: int| 0 <= k < idx.len() ==> surfaces_of(s, w)[k] == s[#[trigger] idx[k]],
{
    let idx = lemma_filter_selects(s, belongs_to(w));
    lemma_selects_same_predicate(idx, s, belongs_to(w), |x: WebviewSurface| x.workspace_id@ == w);
    idx
}

impl Default for WebviewStore {
    /// An empty store whose first surface will be numbered from the base.
    fn default() -> (r: Self)
        ensures
            r.wf(),
            r.surfaces() == Seq::<WebviewSurface>::empty(),
            r.spec_next_id() == 0,
    {
        WebviewStore { next_id: 0, surfaces: Vec::new(), numbers: Ghost(Seq::empty()) }
    }
}

impl WebviewStore {
    /// The open surfaces, oldest first.
    pub closed spec fn surfaces(&self) -> Seq<WebviewSurface> {
        self.surfaces@
    }

    /// How many surfaces the store has opened so far.
    pub closed spec fn spec_next_id(&self) -> u64 {
        self.next_id
    }

    /// The number, counted from the base, under which each surface was opened.
    pub closed spec fn handle_numbers(&self) -> Seq<nat> {
        self.numbers@
    }

    /// The store's invariant: each surface has the handle of the number it was opened
    /// under, a number given out so far; these numbers ascend in store order, so no two
    /// surfaces share a handle.
    pub open spec fn wf(&self) -> bool {
        &&& self.handle_numbers().len() == self.surfaces().len()
        &&& forall|i: int|
            0 <= i < self.surfaces().len() ==> {
                &&& #[trigger] self.surfaces()[i].id@ == webview_handle(self.handle_numbers()[i])
                &&& self.handle_numbers()[i] < self.spec_next_id()
                &&& WEBVIEW_SURFACE_ID_BASE + self.handle_numbers()[i] <= u64::MAX
            }
        &&& forall|i: int, j: int|
            0 <= i < j < self.surfaces().len() ==> self.handle_numbers()[i] < self.handle_numbers()[j]
        &&& ids_distinct(self.surfaces())
    }

    /// Opens a surface of `workspace_id` showing `url`, under the next free handle.
    pub fn open(&mut self, workspace_id: String, url: String) -> (r: &WebviewSurface)
        requires
            old(self).wf(),
            old(self).spec_next_id() + WEBVIEW_SURFACE_ID_BASE <= u64::MAX,
        ensures
            final(self).wf(),
            r.id@ == webview_handle(old(self).spec_next_id() as nat),
            r.workspace_id == workspace_id,
            r.url == url,
            r.title is None,
            !has_id(old(self).surfaces(), r.id@),
            final(self).surfaces() == old(self).surfaces().push(*r),
            final(self).spec_next_id() == old(self).spec_next_id() + 1,
    {
        let ghost old_surfaces = self.surfaces@;
        let ghost old_numbers = self.numbers@;
        let ghost k0 = self.next_id as nat;
        let surface = WebviewSurface {
            id: surface_ref(WEBVIEW_SURFACE_ID_BASE + self.next_id),
            workspace_id,
            url,
            title: None,
        };
        proof {
            assert forall|i: int| 0 <= i < old_surfaces.len() implies old_surfaces[i].id@ != surface.id@ by {
                let k = old_numbers[i];
                assert(old_surfaces[i].id@ == webview_handle(k));
                if old_surfaces[i].id@ == surface.id@ {
                    lemma_handle_ref_injective(
                        HandleKind::Surface,
                        (WEBVIEW_SURFACE_ID_BASE + k) as u64,
                        HandleKind::Surface,
                        (WEBVIEW_SURFACE_ID_BASE + k0) as u64,
                    );
                }
            }
        }
        self.next_id = self.next_id + 1;
        self.surfaces.push(surface);
        self.numbers = Ghost(old_numbers.push(k0));
        proof {
            let s = self.surfaces@;
            let ns = self.numbers@;
            assert forall|i: int| 0 <= i < s.len() implies #[trigger] s[i].id@ == webview_handle(ns[i]) && ns[i]
                < self.next_id && WEBVIEW_SURFACE_ID_BASE + ns[i] <= u64::MAX by {
                if i < old_surfaces.len() {
                    assert(s[i] == old_surfaces[i]);
                    assert(ns[i] == old_numbers[i]);
                }
            }
            assert forall|a: int, b: int| 0 <= a < b < s.len() implies ns[a] < ns[b] by {
                assert(ns[a] == old_numbers[a]);
                assert(old_surfaces[a].id@ == webview_handle(old_numbers[a]));
                if b < old_surfaces.len() {
                    assert(ns[b] == old_numbers[b]);
                }
            }
            assert forall|a: int, b: int| 0 <= a < b < s.len() implies s[a].id@ != s[b].id@ by {
                assert(s[a] == old_surfaces[a]);
                if b < old_surfaces.len() {
                    assert(s[b] == old_surfaces[b]);
                }
            }
        }
        let last = self.surfaces.len() - 1;
        &self.surfaces[last]
    }

    fn position(&self, id: &str) -> (r: Option<usize>)
        ensures
            match r {
                None => !has_id(self.surfaces(), id@),
                Some(i) => {
                    &&& i < self.surfaces().len()
                    &&& self.surfaces()[i as int].id@ == id@
                    &&& forall|j: int| 0 <= j < i ==> self.surfaces()[j].id@ != id@
                },
            },
    {
        let n = self.surfaces.len();
        let mut i: usize = 0;
        while i < n
            invariant
                n == self.surfaces@.len(),
                i <= n,
                forall|j: int| 0 <= j < i ==> self.surfaces@[j].id@ != id@,
            decreases n - i,
        {
            if str_eq(self.surfaces[i].id.as_str(), id) {
                return Some(i);
            }
            i = i + 1;
        }
        None
    }

    /// Points the surface with handle `id` at `url` and returns it; `None` when no surface
    /// has that handle.
    pub fn navigate(&mut self, id: &str, url: String) -> (r: Option<&WebviewSurface>)
        requires
            old(self).wf(),
        ensures
            final(self).wf(),
            final(self).spec_next_id() == old(self).spec_next_id(),
            match r {
                None => {
                    &&& !has_id(old(self).surfaces(), id@)
                    &&& final(self).surfaces() == old(self).surfaces()
                },
                Some(surface) => exists|i: int|
                    0 <= i < old(self).surfaces().len() && old(self).surfaces()[i].id@ == id@
                        && final(self).surfaces() == old(self).surfaces().update(
                        i,
                        with_url(old(self).surfaces()[i], url),
                    ) && *surface == final(self).surfaces()[i],
            },
    {
        let i = match self.position(id) {
            Some(i) => i,
            None => return None,
        };
        let ghost old_surfaces = self.surfaces@;
        let ghost u = url;
        self.surfaces[i].url = url;
        assert(self.surfaces@ =~= old_surfaces.update(i as int, with_url(old_surfaces[i as int], u)));
        proof {
            let s = self.surfaces@;
            assert forall|j: int| 0 <= j < s.len() implies #[trigger] s[j].id@ == webview_handle(self.numbers@[j]) by {
                assert(s[j].id == old_surfaces[j].id);
            }
            assert forall|a: int, b: int| 0 <= a < b < s.len() implies s[a].id@ != s[b].id@ by {
                assert(s[a].id == old_surfaces[a].id);
                assert(s[b].id == old_surfaces[b].id);
            }
        }
        let r = &self.surfaces[i];
        Some(r)
    }

    /// Removes the surface with handle `id` and returns it; `None` when no surface has
    /// that handle.
    pub fn close(&mut self, id: &str) -> (r: Option<WebviewSurface>)
        requires
            old(self).wf(),
        ensures
            final(self).wf(),
            final(self).spec_next_id() == old(self).spec_next_id(),
            match r {
                None => {
                    &&& !has_id(old(self).surfaces(), id@)
                    &&& final(self).surfaces() == old(self).surfaces()
                },
                Some(surface) => exists|i: int|
                    0 <= i < old(self).surfaces().len() && old(self).surfaces()[i].id@ == id@
                        && surface == old(self).surfaces()[i] && final(self).surfaces()
                        == old(self).surfaces().remove(i),
            },
    {
        let i = match self.position(id) {
            Some(i) => i,
            None => return None,
        };
        let ghost old_surfaces = self.surfaces@;
        let ghost old_numbers = self.numbers@;
        let removed = self.surfaces.remove(i);
        self.numbers = Ghost(old_numbers.remove(i as int));
        proof {
            let s = self.surfaces@;
            let ns = self.numbers@;
            assert forall|j: int| 0 <= j < s.len() implies #[trigger] s[j].id@ == webview_handle(ns[j]) && ns[j]
                < self.next_id && WEBVIEW_SURFACE_ID_BASE + ns[j] <= u64::MAX by {
                let jj = if j < i { j } else { j + 1 };
                assert(s[j] == old_surfaces[jj]);
                assert(ns[j] == old_numbers[jj]);
            }
            assert forall|a: int, b: int| 0 <= a < b < s.len() implies ns[a] < ns[b] by {
                let aa = if a < i { a } else { a + 1 };
                let bb = if b < i { b } else { b + 1 };
                assert(ns[a] == old_numbers[aa]);
                assert(ns[b] == old_numbers[bb]);
            }
            assert forall|a: int, b: int| 0 <= a < b < s.len() implies s[a].id@ != s[b].id@ by {
                let aa = if a < i { a } else { a + 1 };
                let bb = if b < i { b } else { b + 1 };
                assert(s[a] == old_surfaces[aa]);
                assert(s[b] == old_surfaces[bb]);
            }
        }
        Some(removed)
    }

    /// The open surfaces, oldest first.
    pub fn list(&self) -> (r: &[WebviewSurface])
        ensures
            r@ == self.surfaces(),
    {
        self.surfaces.as_slice()
    }

    /// The surfaces of workspace `workspace_id`, oldest first.
    pub fn list_for_workspace(&self, workspace_id: &str) -> (r: Vec<&WebviewSurface>)
        ensures
            r@.map_values(|x: &WebviewSurface| *x) == surfaces_of(self.surfaces(), workspace_id@),
            exists|idx: Seq<int>|
                #![trigger idx.len()]
                selects(idx, self.surfaces(), |x: WebviewSurface| x.workspace_id@ == workspace_id@)
                    && idx.len() == r.len() && forall|k: int| 0 <= k < idx.len() ==> *r@[k] == self.surfaces()[idx[k]],
    {
        let ghost s = self.surfaces@;
        let ghost w = workspace_id@;
        let ghost p = belongs_to(w);
        let n = self.surfaces.len();
        let mut out: Vec<&WebviewSurface> = Vec::new();
        let mut i: usize = 0;
        while i < n
            invariant
                s == self.surfaces@,
                n == s.len(),
                i <= n,
                w == workspace_id@,
                p == belongs_to(w),
                out@.map_values(|x: &WebviewSurface| *x) == s.take(i as int).filter(p),
            decreases n - i,
        {
            proof {
                reveal(Seq::filter);
                assert(s.take(i + 1).drop_last() =~= s.take(i as int));
            }
            let surface = &self.surfaces[i];
            if str_eq(surface.workspace_id.as_str(), workspace_id) {
                let ghost before = out@;
                out.push(surface);
                assert(out@.map_values(|x: &WebviewSurface| *x) =~= before.map_values(
                    |x: &WebviewSurface| *x,
                ).push(*surface));
            }
            i = i + 1;
        }
        assert(s.take(n as int) =~= s);
        proof {
            let idx = lemma_surfaces_of_are_exactly_the_workspace(s, w);
            assert forall|k: int| 0 <= k < idx.len() implies *out@[k] == s[idx[k]] by {
                assert(out@.map_values(|x: &WebviewSurface| *x)[k] == *out@[k]);
            }
        }
        out
    }
}

/// Closing a surface right after opening it gives the store back as it was: the new
/// handle is fresh, so it is the last surface that the close finds and removes.
pub proof fn lemma_open_then_close(s: Seq<WebviewSurface>, opened: WebviewSurface, i: int)
    requires
        !has_id(s, opened.id@),
        0 <= i < s.len() + 1,
        s.push(opened)[i].id@ == opened.id@,
    ensures
        i == s.len(),
        s.push(opened)[i] == opened,
        s.push(opened).remove(i) == s,
{
    if i < s.len() {
        assert(s.push(opened)[i] == s[i]);
    }
    assert(s.push(opened).remove(s.len() as int) =~= s);
}

} // verus!
