use asset_cache::key::resolve;

fn r(base: &[u8], rel: &[u8]) -> Option<Vec<u8>> {
    resolve(&base.to_vec(), &rel.to_vec())
}

#[test]
fn resolve_plain_file() {
    assert_eq!(r(b"/assets", b"a.png"), Some(b"/assets/a.png".to_vec()));
}

#[test]
fn resolve_nested_path() {
    assert_eq!(r(b"/assets", b"tex/wall.png"), Some(b"/assets/tex/wall.png".to_vec()));
}

#[test]
fn resolve_empty_path_is_base() {
    assert_eq!(r(b"/assets", b""), Some(b"/assets".to_vec()));
}

#[test]
fn resolve_drops_dot_and_empty_segments() {
    assert_eq!(r(b"/assets", b"./tex//./wall.png"), Some(b"/assets/tex/wall.png".to_vec()));
}

#[test]
fn resolve_folds_dotdot() {
    assert_eq!(r(b"/assets", b"tex/../wall.png"), Some(b"/assets/wall.png".to_vec()));
    assert_eq!(r(b"/assets", b"tex/.."), Some(b"/assets".to_vec()));
}

#[test]
fn resolve_rejects_absolute() {
    assert_eq!(r(b"/assets", b"/etc/passwd"), None);
}

#[test]
fn resolve_rejects_escape_above_base() {
    assert_eq!(r(b"/assets", b".."), None);
    assert_eq!(r(b"/assets", b"tex/../../secret"), None);
}

#[test]
fn resolve_same_input_same_key() {
    let a = r(b"/assets", b"x/./y");
    let b = r(b"/assets", b"x/./y");
    assert_eq!(a, b);
    assert_eq!(a, Some(b"/assets/x/y".to_vec()));
}
