use alacritty::backend::{select_backend, BackendKind, RenderBackendPreference};

#[test]
fn auto_prefers_wgpu_when_available() {
    let selected = select_backend(RenderBackendPreference::Auto, true);
    assert_eq!(selected.kind, BackendKind::Wgpu);
}

#[test]
fn wgpu_falls_back_when_unavailable() {
    let selected = select_backend(RenderBackendPreference::Wgpu, false);
    assert_eq!(selected.kind, BackendKind::OpenGl);
}

#[test]
fn every_preference_and_availability() {
    let cases = [
        (RenderBackendPreference::Auto, true, BackendKind::Wgpu, false),
        (RenderBackendPreference::Auto, false, BackendKind::OpenGl, false),
        (RenderBackendPreference::Wgpu, true, BackendKind::Wgpu, false),
        (RenderBackendPreference::Wgpu, false, BackendKind::OpenGl, true),
        (RenderBackendPreference::Gl, true, BackendKind::OpenGl, false),
        (RenderBackendPreference::Gl, false, BackendKind::OpenGl, false),
    ];
    for (preference, available, kind, fallback) in cases {
        let selected = select_backend(preference, available);
        assert_eq!(selected.kind, kind);
        assert_eq!(selected.wgpu_available, available);
        assert_eq!(selected.is_fallback(preference), fallback);
    }
}

#[test]
fn fallback_is_judged_against_the_given_preference() {
    let selected = select_backend(RenderBackendPreference::Gl, false);
    assert!(!selected.is_fallback(RenderBackendPreference::Gl));
    assert!(selected.is_fallback(RenderBackendPreference::Wgpu));
    assert!(!selected.is_fallback(RenderBackendPreference::Auto));
}
