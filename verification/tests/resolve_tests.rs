use fast_dep::errors::BuildError;
use fast_dep::name_resolution::resolve_name;

#[test]
fn level_one_keeps_package() {
    // `from . import x` inside package "pkg": the prefix is "pkg" itself
    let r = resolve_name(&String::new(), &"pkg".to_string(), &1);
    assert_eq!(r.unwrap(), "pkg");
}

#[test]
fn level_one_with_name() {
    let r = resolve_name(&"x".to_string(), &"pkg.sub".to_string(), &1);
    assert_eq!(r.unwrap(), "pkg.sub.x");
}

#[test]
fn level_two_strips_one_segment() {
    let r = resolve_name(&"b".to_string(), &"a.c".to_string(), &2);
    assert_eq!(r.unwrap(), "a.b");
}

#[test]
fn level_three_strips_two_segments() {
    let r = resolve_name(&"z".to_string(), &"a.b.c".to_string(), &3);
    assert_eq!(r.unwrap(), "a.z");
}

#[test]
fn empty_name_after_strip() {
    let r = resolve_name(&String::new(), &"a.b.c".to_string(), &2);
    assert_eq!(r.unwrap(), "a.b");
}

#[test]
fn escaping_top_level_fails() {
    // one segment, level 2: one segment would have to be stripped and
    // none may remain
    let r = resolve_name(&"x".to_string(), &"pkg".to_string(), &2);
    assert!(matches!(r, Err(BuildError::InvalidRelativeImport(_))));
}

#[test]
fn escaping_far_fails() {
    let r = resolve_name(&"x".to_string(), &"a.b".to_string(), &5);
    assert!(matches!(r, Err(BuildError::InvalidRelativeImport(_))));
}
