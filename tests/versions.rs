use dspbp::version::{is_v10, version_context, with_game_version};

#[test]
fn version_threshold() {
    assert!(is_v10(&version_context("0.10.30.22239")));
    assert!(is_v10(&version_context("0.10.34.28470")));
    assert!(!is_v10(&version_context("0.10.30.22238")));
    assert!(!is_v10(&version_context("0.9.27.15033")));
    assert!(!is_v10(&version_context("")));
    assert!(is_v10(&version_context("2")));
    assert!(!is_v10(&version_context("0.10.30")));
}

#[test]
fn with_game_version_hands_on_the_context() {
    let v = with_game_version("0.10.31.1", |ctx| is_v10(&ctx));
    assert!(v);
    let w = with_game_version("0.10.29.99999", |ctx| is_v10(&ctx));
    assert!(!w);
}
