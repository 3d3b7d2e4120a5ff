//! Choosing the rendering backend from the user's preference and what the machine offers.
use vstd::prelude::*;

verus! {

/// Which rendering backend the user asked for.
#[derive(Debug, Clone, Copy, PartialEq, Eq, Structural)]
pub enum RenderBackendPreference {
    Auto,
    Wgpu,
    Gl,
}

/// A rendering backend.
#[derive(Debug, Clone, Copy, PartialEq, Eq, Structural)]
pub enum BackendKind {
    OpenGl,
    Wgpu,
}

/// The backend chosen at startup, with whether `wgpu` could have been used.
#[derive(Debug, Clone, Copy, PartialEq, Eq, Structural)]
pub struct BackendSelection {
    pub kind: BackendKind,
    pub wgpu_available: bool,
}

/// The backend that a preference leads to: `wgpu` whenever it is available and the user
/// did not ask for OpenGL, OpenGL otherwise.
pub open spec fn selected_kind(preference: RenderBackendPreference, wgpu_available: bool) -> BackendKind {
    if wgpu_available && preference != RenderBackendPreference::Gl {
        BackendKind::Wgpu
    } else {
        BackendKind::OpenGl
    }
}

/// A selection is a fallback when `wgpu` was asked for and OpenGL is what runs.
pub open spec fn is_fallback_spec(selection: BackendSelection, preference: RenderBackendPreference) -> bool {
    preference == RenderBackendPreference::Wgpu && selection.kind == BackendKind::OpenGl
}

impl BackendSelection {
    /// Whether this selection fell back from a requested `wgpu` to OpenGL.
    pub fn is_fallback(&self, preference: RenderBackendPreference) -> (r: bool)
        ensures
            r == is_fallback_spec(*self, preference),
    {
        match (preference, self.kind) {
            (RenderBackendPreference::Wgpu, BackendKind::OpenGl) => true,
            _ => false,
        }
    }
}

/// Picks the backend for a preference, given whether `wgpu` is available.
pub fn select_backend(preference: RenderBackendPreference, wgpu_available: bool) -> (r: BackendSelection)
    ensures
        r.kind == selected_kind(preference, wgpu_available),
        r.wgpu_available == wgpu_available,
{
    let kind = match preference {
        RenderBackendPreference::Auto => {
            if wgpu_available {
                BackendKind::Wgpu
            } else {
                BackendKind::OpenGl
            }
        },
        RenderBackendPreference::Wgpu => {
            if wgpu_available {
                BackendKind::Wgpu
            } else {
                BackendKind::OpenGl
            }
        },
        RenderBackendPreference::Gl => BackendKind::OpenGl,
    };
    BackendSelection { kind, wgpu_available }
}

/// `wgpu` is never selected on a machine that lacks it, an explicit OpenGL preference is
/// always honoured, and otherwise an available `wgpu` is always used.
pub proof fn lemma_selection_is_sound(preference: RenderBackendPreference, wgpu_available: bool)
    ensures
        wgpu_available && preference != RenderBackendPreference::Gl ==> selected_kind(preference, wgpu_available)
            == BackendKind::Wgpu,
        selected_kind(preference, wgpu_available) == BackendKind::Wgpu ==> wgpu_available,
        preference == RenderBackendPreference::Gl ==> selected_kind(preference, wgpu_available)
            == BackendKind::OpenGl,
{
}

/// A selection made for a preference is a fallback exactly when `wgpu` was asked for and
/// is not available.
pub proof fn lemma_fallback_iff_unavailable(preference: RenderBackendPreference, wgpu_available: bool)
    ensures
        is_fallback_spec(
            BackendSelection { kind: selected_kind(preference, wgpu_available), wgpu_available },
            preference,
        ) <==> (preference == RenderBackendPreference::Wgpu && !wgpu_available),
{
}

} // verus!
