use pluginproxy_transpiler::dom::rbx_path::DotPath;

#[test]
fn ancestor_path_depth_zero_renders_bare_root() {
    let p = DotPath::new_ancestor_path(0);
    assert_eq!(p.dot_string(), "script");
}

#[test]
fn ancestor_path_depth_two_renders_two_ascends() {
    let p = DotPath::new_ancestor_path(2);
    assert_eq!(p.dot_string(), "script.Parent.Parent");
    assert_eq!(p.depth(), 2);
}

#[test]
fn ancestor_path_depth_one() {
    let p = DotPath::new_ancestor_path(1);
    assert_eq!(p.dot_string(), "script.Parent");
}

#[test]
fn push_pop_restores_depth() {
    let mut p = DotPath::default();
    p.push("A");
    p.push("B");
    let before = p.depth();
    p.push("C");
    p.push("D");
    p.push("E");
    p.pop();
    p.pop();
    p.pop();
    assert_eq!(p.depth(), before);
    assert_eq!(p.dot_string(), "script.A.B");
}

#[test]
fn pop_on_empty_returns_none() {
    let mut p = DotPath::default();
    assert!(p.pop().is_none());
    assert_eq!(p.depth(), 0);
}

#[test]
fn path_string_is_slash_joined_with_trailing_slash() {
    let mut p = DotPath::default();
    p.push("Outer");
    p.push("Inner");
    assert_eq!(p.path_string(), "script/Outer/Inner/");
    assert_eq!(p.join("."), "script.Outer.Inner");
}

#[test]
fn path_string_of_empty_path() {
    let p = DotPath::default();
    assert_eq!(p.path_string(), "script/");
}

#[test]
fn to_path_matches_path_string() {
    let mut p = DotPath::default();
    p.push("Sub");
    let buf = p.to_path();
    assert_eq!(buf.to_str().unwrap(), "script/Sub/");
}
