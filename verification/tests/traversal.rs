use pluginproxy_transpiler::dom::tree::{
    descendants, find_descendants, find_first_child_class, Dom, SearchAction,
};
use pluginproxy_transpiler::error::Problem;
use pluginproxy_transpiler::{from_dom, DomTranspiler};

fn sample_tree() -> Dom {
    // root
    //  |- A
    //  |   |- B
    //  |   |   `- C
    //  |   `- D
    //  `- E
    let mut d = Dom::new_root("Folder".to_owned(), "root".to_owned(), None);
    let a = d.add_child(0, "Folder".to_owned(), "A".to_owned(), None);
    let b = d.add_child(a, "Folder".to_owned(), "B".to_owned(), None);
    let _c = d.add_child(b, "Folder".to_owned(), "C".to_owned(), None);
    let _d2 = d.add_child(a, "Folder".to_owned(), "D".to_owned(), None);
    let _e = d.add_child(0, "Folder".to_owned(), "E".to_owned(), None);
    d
}

#[test]
fn positive_bound_limits_every_visited_depth() {
    let d = sample_tree();
    for limit in 1..4usize {
        let visited = descendants(&d, 0, limit);
        assert!(!visited.is_empty());
        for e in &visited {
            assert!(e.depth <= limit);
        }
    }
    let depth_one = descendants(&d, 0, 1);
    assert_eq!(depth_one.len(), 2);
}

#[test]
fn bound_zero_visits_every_descendant_exactly_once() {
    let d = sample_tree();
    let visited = descendants(&d, 0, 0);
    let mut refs: Vec<usize> = visited.iter().map(|e| e.referent).collect();
    refs.sort();
    assert_eq!(refs, vec![1, 2, 3, 4, 5]);
}

#[test]
fn visit_entries_carry_slash_paths() {
    let d = sample_tree();
    let visited = descendants(&d, 0, 0);
    let c = visited.iter().find(|e| e.referent == 3).unwrap();
    assert_eq!(c.slash_path, "script/A/B/C/");
    assert_eq!(c.depth, 3);
}

#[test]
fn find_first_child_class_respects_the_depth_bound() {
    let mut d = Dom::new_root("Folder".to_owned(), "root".to_owned(), None);
    let a = d.add_child(0, "Folder".to_owned(), "A".to_owned(), None);
    let b = d.add_child(a, "Folder".to_owned(), "B".to_owned(), None);
    let s = d.add_child(b, "Script".to_owned(), "Main".to_owned(), Some("x()".to_owned()));
    assert_eq!(find_first_child_class(&d, 0, |c: &str| c == "Script", 3), Some(s));
    assert_eq!(find_first_child_class(&d, 0, |c: &str| c == "Script", 2), None);
}

#[test]
fn search_stops_at_return_and_records_nothing_later() {
    let mut d = Dom::new_root("Folder".to_owned(), "root".to_owned(), None);
    let m1 = d.add_child(0, "Module".to_owned(), "First".to_owned(), None);
    let stop = d.add_child(0, "Stopper".to_owned(), "Stop".to_owned(), None);
    let m2 = d.add_child(0, "Module".to_owned(), "Late".to_owned(), None);
    let found = find_descendants(
        &d,
        0,
        |n: &pluginproxy_transpiler::dom::tree::DomNode| {
            if n.class == "Stopper" {
                SearchAction::Return
            } else if n.class == "Module" {
                SearchAction::Found(true)
            } else {
                SearchAction::Found(false)
            }
        },
        0,
    );
    assert_eq!(found, vec![m1, stop]);
    assert!(!found.contains(&m2));
}

#[test]
fn search_break_stops_without_recording() {
    let mut d = Dom::new_root("Folder".to_owned(), "root".to_owned(), None);
    let m1 = d.add_child(0, "Module".to_owned(), "First".to_owned(), None);
    let _b = d.add_child(0, "Wall".to_owned(), "Wall".to_owned(), None);
    let _m2 = d.add_child(0, "Module".to_owned(), "Late".to_owned(), None);
    let found = find_descendants(
        &d,
        0,
        |n: &pluginproxy_transpiler::dom::tree::DomNode| {
            if n.class == "Wall" {
                SearchAction::Break
            } else {
                SearchAction::Found(n.class == "Module")
            }
        },
        0,
    );
    assert_eq!(found, vec![m1]);
}

#[test]
fn entry_point_discovery_finds_a_script_within_depth_two() {
    let mut d = Dom::new_root("DataModel".to_owned(), "root".to_owned(), None);
    let folder = d.add_child(0, "Folder".to_owned(), "F".to_owned(), None);
    let s = d.add_child(folder, "Script".to_owned(), "Main".to_owned(), Some("x()".to_owned()));
    let t = DomTranspiler::new(d).unwrap();
    assert_eq!(t.source_script, s);
    assert!(t.exclude_libs);
}

#[test]
fn entry_point_absence_is_fatal() {
    let mut d = Dom::new_root("DataModel".to_owned(), "root".to_owned(), None);
    let a = d.add_child(0, "Folder".to_owned(), "A".to_owned(), None);
    let b = d.add_child(a, "Folder".to_owned(), "B".to_owned(), None);
    let _deep = d.add_child(b, "Script".to_owned(), "TooDeep".to_owned(), None);
    match from_dom(d) {
        Err(Problem::NoMainSource) => {}
        _ => panic!("expected the missing-entry-point error"),
    }
}

#[test]
fn excluded_library_paths_are_skipped_but_counted() {
    let mut d = Dom::new_root("DataModel".to_owned(), "Root".to_owned(), None);
    let entry = d.add_child(0, "Script".to_owned(), "Plugin".to_owned(), Some("x()".to_owned()));
    let react = d.add_child(entry, "ModuleScript".to_owned(), "React".to_owned(), Some("a()".to_owned()));
    let inner = d.add_child(react, "ModuleScript".to_owned(), "Inner".to_owned(), Some("b()".to_owned()));
    let keeper = d.add_child(entry, "ModuleScript".to_owned(), "Keeper".to_owned(), Some("c()".to_owned()));

    let mut t = DomTranspiler::new(d).unwrap();
    let (targets, total) = t.collect_targets();
    assert_eq!(total, 3);
    assert!(targets.iter().any(|s| s.referent == keeper));
    assert!(!targets.iter().any(|s| s.referent == inner));

    t.exclude_libs(false);
    let (all_targets, total_off) = t.collect_targets();
    assert_eq!(total_off, 3);
    assert_eq!(all_targets.len(), 3);
    assert!(all_targets.iter().any(|s| s.referent == inner));
    let inner_target = all_targets.iter().find(|s| s.referent == inner).unwrap();
    assert_eq!(inner_target.depth, 2);
}

#[test]
fn script_source_reports_a_missing_source_property() {
    let mut d = Dom::new_root("DataModel".to_owned(), "Root".to_owned(), None);
    let entry = d.add_child(0, "Script".to_owned(), "Plugin".to_owned(), Some("x()".to_owned()));
    let bare = d.add_child(entry, "ModuleScript".to_owned(), "Bare".to_owned(), None);
    let t = DomTranspiler::new(d).unwrap();
    assert_eq!(t.source_script, entry);
    assert_eq!(t.script_source(t.source_script).unwrap(), "x()");
    match t.script_source(bare) {
        Err(Problem::NoScriptSource(name)) => assert_eq!(name, "Bare"),
        _ => panic!("expected the missing-source error"),
    }
}

#[test]
fn apply_rewritten_and_mark_entry_only_touch_their_node() {
    let mut d = Dom::new_root("DataModel".to_owned(), "Root".to_owned(), None);
    let entry = d.add_child(0, "Script".to_owned(), "Plugin".to_owned(), Some("x()".to_owned()));
    let child = d.add_child(entry, "ModuleScript".to_owned(), "M".to_owned(), Some("y()".to_owned()));
    let mut t = DomTranspiler::new(d).unwrap();
    assert_eq!(t.source_script, entry);
    t.apply_rewritten(child, "z()".to_owned());
    assert_eq!(t.script_source(child).unwrap(), "z()");
    assert_eq!(t.script_source(t.source_script).unwrap(), "x()");
    t.mark_entry_module();
    assert_eq!(t.tree.nodes[t.source_script].class, "ModuleScript");
    assert_eq!(t.tree.nodes[child].class, "ModuleScript");
}
