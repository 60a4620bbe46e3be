use pluginproxy_transpiler::rewrite::{
    is_replacable_enum, is_settings_call, AffixShape, CallRewrite, PluginProxyVisitor, Requires,
    SuffixShape,
};

fn affix(prefix: Option<&str>, dot: Option<&str>, call: bool) -> AffixShape {
    AffixShape {
        prefix_identifier: prefix.map(|s| s.to_owned()),
        first_suffix_dot_name: dot.map(|s| s.to_owned()),
        first_suffix_is_call: call,
    }
}

fn method(name: Option<&str>, arg: Option<&str>) -> SuffixShape {
    SuffixShape {
        method_name: name.map(|s| s.to_owned()),
        first_string_arg: arg.map(|s| s.to_owned()),
    }
}

#[test]
fn requires_globals_is_implied_by_either_flag() {
    let none = Requires::default();
    assert!(!none.globals());
    let plugin_only = Requires { globals: false, plugin: true, enums: false };
    assert!(plugin_only.globals());
    let enums_only = Requires { globals: false, plugin: false, enums: true };
    assert!(enums_only.globals());
    let explicit = Requires { globals: true, plugin: false, enums: false };
    assert!(explicit.globals());
}

#[test]
fn style_guide_color_access_is_replaced_and_sets_enum_flag() {
    let mut v = PluginProxyVisitor::default();
    let shape = affix(Some("Enum"), Some("StudioStyleGuideColor"), false);
    assert!(is_replacable_enum(&shape));
    let r = v.process_common(&shape);
    assert_eq!(r.as_deref(), Some("Enums"));
    assert!(v.requires.enums);
    assert!(!v.requires.plugin);
    assert!(!v.requires.globals);
    assert!(v.requires.globals());
}

#[test]
fn style_guide_modifier_access_is_replaced() {
    let mut v = PluginProxyVisitor::default();
    let shape = affix(Some("Enum"), Some("StudioStyleGuideModifier"), false);
    let r = v.process_common(&shape);
    assert_eq!(r.as_deref(), Some("Enums"));
    assert!(v.requires.enums);
}

#[test]
fn other_enum_access_is_kept() {
    let mut v = PluginProxyVisitor::default();
    let shape = affix(Some("Enum"), Some("Font"), false);
    assert!(!is_replacable_enum(&shape));
    assert!(v.process_common(&shape).is_none());
    assert!(!v.requires.enums && !v.requires.globals && !v.requires.plugin);
}

#[test]
fn settings_call_is_redirected_through_globals() {
    let mut v = PluginProxyVisitor::default();
    let shape = affix(Some("settings"), None, true);
    assert!(is_settings_call(&shape));
    let r = v.process_common(&shape);
    assert_eq!(r.as_deref(), Some("_proxyGlobals.settings"));
    assert!(v.requires.globals);
    assert!(!v.requires.enums && !v.requires.plugin);
}

#[test]
fn settings_without_call_suffix_is_kept() {
    let mut v = PluginProxyVisitor::default();
    let shape = affix(Some("settings"), Some("Debug"), false);
    assert!(v.process_common(&shape).is_none());
}

#[test]
fn ancestor_plugin_lookup_by_class_is_replaced() {
    let mut v = PluginProxyVisitor::default();
    let sufs = vec![method(Some("FindFirstAncestorOfClass"), Some("Plugin"))];
    match v.visit_expression(true, &sufs) {
        CallRewrite::ReplaceWithPlugin { suffix_index, identifier } => {
            assert_eq!(suffix_index, 0);
            assert_eq!(identifier, "plugin");
        }
        _ => panic!("expected the ancestor-plugin rewrite"),
    }
    assert!(v.requires.plugin);
    assert!(v.requires.globals());
}

#[test]
fn ancestor_plugin_lookup_by_which_is_a_is_replaced() {
    let mut v = PluginProxyVisitor::default();
    let sufs = vec![
        method(None, None),
        method(Some("FindFirstAncestorWhichIsA"), Some("Plugin")),
    ];
    match v.visit_expression(false, &sufs) {
        CallRewrite::ReplaceWithPlugin { suffix_index, identifier } => {
            assert_eq!(suffix_index, 1);
            assert_eq!(identifier, "plugin");
        }
        _ => panic!("expected the ancestor-plugin rewrite"),
    }
}

#[test]
fn ancestor_lookup_with_other_argument_is_kept() {
    let mut v = PluginProxyVisitor::default();
    let sufs = vec![method(Some("FindFirstAncestorOfClass"), Some("Folder"))];
    assert!(matches!(v.visit_expression(true, &sufs), CallRewrite::Keep));
    assert!(!v.requires.plugin);
}

#[test]
fn implicit_get_service_is_qualified_through_globals() {
    let mut v = PluginProxyVisitor::default();
    let sufs = vec![method(Some("GetService"), Some("RunService"))];
    match v.visit_expression(true, &sufs) {
        CallRewrite::QualifyServiceCall { suffix_index, globals_identifier, service_root } => {
            assert_eq!(suffix_index, 0);
            assert_eq!(globals_identifier, "_proxyGlobals");
            assert_eq!(service_root, "game");
        }
        _ => panic!("expected the service-lookup rewrite"),
    }
    assert!(v.requires.globals);
}

#[test]
fn qualified_get_service_is_kept() {
    let mut v = PluginProxyVisitor::default();
    let sufs = vec![method(None, None), method(Some("GetService"), Some("RunService"))];
    assert!(matches!(v.visit_expression(true, &sufs), CallRewrite::Keep));
    assert!(!v.requires.globals);
}

#[test]
fn get_service_on_expression_receiver_is_kept() {
    let mut v = PluginProxyVisitor::default();
    let sufs = vec![method(Some("GetService"), None)];
    assert!(matches!(v.visit_expression(false, &sufs), CallRewrite::Keep));
}

#[test]
fn plugin_rule_wins_over_service_rule_in_scan_order() {
    let mut v = PluginProxyVisitor::default();
    let sufs = vec![
        method(Some("FindFirstAncestorOfClass"), Some("Plugin")),
        method(Some("GetService"), None),
    ];
    assert!(matches!(
        v.visit_expression(true, &sufs),
        CallRewrite::ReplaceWithPlugin { suffix_index: 0, .. }
    ));
}
