use pluginproxy_transpiler::assemble::{
    assemble_source, global_require_source, indent_string, wrap_main_source,
};
use pluginproxy_transpiler::rewrite::Requires;

#[test]
fn indent_adds_one_unit_to_non_empty_lines() {
    assert_eq!(indent_string("a\nb"), "\ta\n\tb");
}

#[test]
fn indent_leaves_empty_lines_empty() {
    assert_eq!(indent_string("a\n\nb"), "\ta\n\n\tb");
}

#[test]
fn indent_drops_a_final_trailing_newline() {
    assert_eq!(indent_string("print('hi')\n"), "\tprint('hi')");
}

#[test]
fn indent_of_empty_text_is_empty() {
    assert_eq!(indent_string(""), "");
}

#[test]
fn indent_strips_carriage_returns_like_a_line_iteration() {
    assert_eq!(indent_string("a\r\nb\r\n"), "\ta\n\tb");
}

#[test]
fn global_require_uses_the_ancestor_path() {
    assert_eq!(
        global_require_source(1),
        "local _proxyGlobals = require(script.Parent).Globals\n"
    );
    assert_eq!(
        global_require_source(2),
        "local _proxyGlobals = require(script.Parent.Parent).Globals\n"
    );
}

#[test]
fn all_three_flags_inject_in_fixed_order_with_one_marker() {
    let req = Requires { globals: true, plugin: true, enums: true };
    let out = assemble_source("print('x')\n", &req, 2);
    assert_eq!(
        out,
        "local _proxyGlobals = require(script.Parent.Parent).Globals\nlocal plugin = _proxyGlobals.plugin\nlocal Enums = _proxyGlobals.Enums\n-- Autogenerated with PluginProxy Transpiler\n\nprint('x')\n"
    );
    assert_eq!(out.matches("Autogenerated").count(), 1);
}

#[test]
fn no_flags_at_positive_depth_injects_nothing() {
    let req = Requires::default();
    let out = assemble_source("return 1\n", &req, 3);
    assert_eq!(out, "return 1\n");
}

#[test]
fn entry_point_always_gets_the_plugin_handle() {
    let req = Requires::default();
    let out = assemble_source("return 1\n", &req, 0);
    assert_eq!(
        out,
        "local plugin = _proxyGlobals.plugin\n-- Autogenerated with PluginProxy Transpiler\n\nreturn 1\n"
    );
}

#[test]
fn entry_point_never_requires_itself() {
    let req = Requires { globals: true, plugin: false, enums: false };
    let out = assemble_source("return 1\n", &req, 0);
    assert!(!out.contains("require("));
}

#[test]
fn enum_flag_alone_implies_globals_require_below_the_root() {
    let req = Requires { globals: false, plugin: false, enums: true };
    let out = assemble_source("x()\n", &req, 1);
    assert_eq!(
        out,
        "local _proxyGlobals = require(script.Parent).Globals\nlocal Enums = _proxyGlobals.Enums\n-- Autogenerated with PluginProxy Transpiler\n\nx()\n"
    );
}

#[test]
fn wrap_embeds_the_indented_body_in_an_init_function() {
    let wrapped = wrap_main_source("print('hi')\n", "");
    assert_eq!(
        wrapped,
        "return { init = function(_proxyGlobals)\n\tprint('hi')\nend }"
    );
}

#[test]
fn wrap_keeps_trailing_trivia_after_the_table() {
    let wrapped = wrap_main_source("x()\n", "\n-- done\n");
    assert_eq!(
        wrapped,
        "return { init = function(_proxyGlobals)\n\tx()\nend }\n-- done\n"
    );
}
