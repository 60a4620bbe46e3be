//! The requirement injector and source assembler, and the root wrapper.
//!
//! Given a rewritten script's printed text, the requirement flags and the
//! script's tree depth, [`assemble_source`] prepends the needed
//! local-variable declarations in a fixed order; for the entry-point script,
//! [`wrap_main_source`] re-indents the assembled text by one level and embeds
//! it as the body of a one-parameter function returned in a table under the
//! `init` key.

use crate::dom::rbx_path::{ancestor_components, join_spec, DotPath};
use crate::rewrite::Requires;
use vstd::prelude::*;
use vstd::string::{StrSliceExecFns, StringExecFns};

verus! {

/// The position of the first newline in `s`, or -1 when there is none.
pub open spec fn first_newline(s: Seq<char>) -> int
    decreases s.len(),
{
    if s.len() == 0 {
        -1
    } else if s[0] == '\n' {
        0
    } else {
        let r = first_newline(s.drop_first());
        if r < 0 {
            -1
        } else {
            r + 1
        }
    }
}

/// A line with a trailing carriage return removed, as the line iteration of
/// the original text sees it.
pub open spec fn strip_trailing_cr(line: Seq<char>) -> Seq<char> {
    if line.len() > 0 && line.last() == '\r' {
        line.drop_last()
    } else {
        line
    }
}

/// One re-indented line: non-empty lines gain one leading indent unit, empty
/// lines stay empty.
pub open spec fn indent_line(line: Seq<char>) -> Seq<char> {
    let core = strip_trailing_cr(line);
    if core.len() == 0 {
        core
    } else {
        "\t"@ + core
    }
}

/// The whole text re-indented by one level: every line is indented, lines
/// are re-joined with single newlines, and a final trailing newline is not
/// kept.
pub open spec fn indent_seq(s: Seq<char>) -> Seq<char>
    decreases s.len(),
{
    if s.len() == 0 {
        Seq::empty()
    } else {
        let j = first_newline(s);
        if j < 0 {
            indent_line(s)
        } else if j + 1 >= s.len() {
            indent_line(s.take(j))
        } else {
            indent_line(s.take(j)) + "\n"@ + indent_seq(s.skip(j + 1))
        }
    }
}

proof fn lemma_first_newline_at(s: Seq<char>, k: int)
    requires
        0 <= k < s.len(),
        s[k] == '\n',
        forall|m: int| 0 <= m < k ==> s[m] != '\n',
    ensures
        first_newline(s) == k,
    decreases k,
{
    if k == 0 {
    } else {
        assert(s[0] != '\n');
        assert forall|m: int| 0 <= m < k - 1 implies s.drop_first()[m] != '\n' by {
            assert(s.drop_first()[m] == s[m + 1]);
        }
        assert(s.drop_first()[k - 1] == s[k]);
        lemma_first_newline_at(s.drop_first(), k - 1);
    }
}

proof fn lemma_first_newline_none(s: Seq<char>)
    requires
        forall|m: int| 0 <= m < s.len() ==> s[m] != '\n',
    ensures
        first_newline(s) == -1,
    decreases s.len(),
{
    if s.len() == 0 {
    } else {
        assert(s[0] != '\n');
        assert forall|m: int| 0 <= m < s.len() - 1 implies s.drop_first()[m] != '\n' by {
            assert(s.drop_first()[m] == s[m + 1]);
        }
        lemma_first_newline_none(s.drop_first());
    }
}

/// Finds the first newline of `s`, if any.
fn find_newline(s: &str) -> (r: Option<usize>)
    ensures
        (r matches Some(j) ==> j < s@.len() && s@[j as int] == '\n' && first_newline(s@)
            == j as int),
        r is None ==> first_newline(s@) == -1,
{
    let n = s.unicode_len();
    let mut j: usize = 0;
    while j < n
        invariant
            j <= n,
            n == s@.len(),
            forall|m: int| 0 <= m < j ==> s@[m] != '\n',
        decreases n - j,
    {
        if s.get_char(j) == '\n' {
            proof {
                lemma_first_newline_at(s@, j as int);
            }
            return Some(j);
        }
        j = j + 1;
    }
    proof {
        lemma_first_newline_none(s@);
    }
    None
}

/// Indents one line.
fn indent_line_str(line: &str) -> (r: String)
    ensures
        r@ == indent_line(line@),
{
    let ll = line.unicode_len();
    let core_len: usize = if ll > 0 && line.get_char(ll - 1) == '\r' {
        ll - 1
    } else {
        ll
    };
    proof {
        assert(strip_trailing_cr(line@) =~= line@.take(core_len as int));
    }
    if core_len == 0 {
        String::new()
    } else {
        let mut r = String::from_str("\t");
        r.append(line.substring_char(0, core_len));
        r
    }
}

/// Re-indents the whole text by one level: each non-empty line gains one
/// leading indent unit, empty lines are left empty, and lines are re-joined
/// with single newlines.
pub fn indent_string(s: &str) -> (r: String)
    ensures
        r@ == indent_seq(s@),
    decreases s@.len(),
{
    let n = s.unicode_len();
    if n == 0 {
        return String::new();
    }
    match find_newline(s) {
        None => indent_line_str(s),
        Some(j) => {
            let line = s.substring_char(0, j);
            proof {
                assert(line@ =~= s@.take(j as int));
            }
            let r0 = indent_line_str(line);
            if j + 1 == n {
                r0
            } else {
                let rest = s.substring_char(j + 1, n);
                proof {
                    assert(rest@ =~= s@.skip(j + 1 as int));
                }
                let tail = indent_string(rest);
                let mut r = r0;
                r.append("\n");
                r.append(tail.as_str());
                r
            }
        },
    }
}

/// The globals-require declaration for a script at the given depth: it
/// imports the entry-point module through an ancestor path of `depth` ascend
/// steps and reads its exported `Globals` member.
pub open spec fn globals_require_text(depth: int) -> Seq<char> {
    "local _proxyGlobals = require("@ + join_spec("script"@, ancestor_components(depth), "."@)
        + ").Globals\n"@
}

/// The plugin-handle declaration: reads the plugin handle off the globals
/// object.
pub open spec fn plugin_handle_text() -> Seq<char> {
    "local plugin = _proxyGlobals.plugin\n"@
}

/// The enum-table declaration: reads the enum table off the globals object.
pub open spec fn enum_table_text() -> Seq<char> {
    "local Enums = _proxyGlobals.Enums\n"@
}

/// The marker comment appended after the last injected declaration.
pub open spec fn generation_marker_text() -> Seq<char> {
    "-- Autogenerated with PluginProxy Transpiler\n\n"@
}

/// The globals-require declaration is injected iff the globals object is
/// required and the script is not the entry point.
pub open spec fn wants_globals_require(req: Requires, depth: int) -> bool {
    req.globals_spec() && depth > 0
}

/// The plugin-handle declaration is injected iff the flag is set or the
/// script is the entry point, which always defines its own handle.
pub open spec fn wants_plugin_handle(req: Requires, depth: int) -> bool {
    req.plugin || depth == 0
}

/// The enum-table declaration is injected iff the flag is set.
pub open spec fn wants_enum_table(req: Requires) -> bool {
    req.enums
}

/// Everything prepended to a rewritten script: the injected declarations in
/// their fixed order, with the marker comment after the last one; empty when
/// no declaration is needed.
pub open spec fn injection_text(req: Requires, depth: int) -> Seq<char> {
    if !wants_globals_require(req, depth) && !wants_plugin_handle(req, depth) && !wants_enum_table(
        req,
    ) {
        Seq::empty()
    } else {
        (if wants_globals_require(req, depth) {
            globals_require_text(depth)
        } else {
            Seq::empty()
        }) + (if wants_plugin_handle(req, depth) {
            plugin_handle_text()
        } else {
            Seq::empty()
        }) + (if wants_enum_table(req) {
            enum_table_text()
        } else {
            Seq::empty()
        }) + generation_marker_text()
    }
}

/// Renders the globals-require declaration for the given depth.
pub fn global_require_source(depth: usize) -> (r: String)
    ensures
        r@ == globals_require_text(depth as int),
{
    let path = DotPath::new_ancestor_path(depth);
    let dotted = path.dot_string();
    let mut r = String::from_str("local _proxyGlobals = require(");
    r.append(dotted.as_str());
    r.append(").Globals\n");
    r
}

/// Prepends the injected declarations demanded by `req` and `depth` to the
/// rewritten script text, in the fixed order: globals require, plugin
/// handle, enum table, with the marker comment after the last one; the
/// original text follows unchanged.
pub fn assemble_source(body: &str, req: &Requires, depth: usize) -> (r: String)
    ensures
        r@ == injection_text(*req, depth as int) + body@,
{
    let mut out = String::new();
    let mut any = false;
    if req.globals() && depth > 0 {
        let g = global_require_source(depth);
        out.append(g.as_str());
        any = true;
    }
    if req.plugin || depth == 0 {
        out.append("local plugin = _proxyGlobals.plugin\n");
        any = true;
    }
    if req.enums {
        out.append("local Enums = _proxyGlobals.Enums\n");
        any = true;
    }
    if any {
        out.append("-- Autogenerated with PluginProxy Transpiler\n\n");
    }
    proof {
        assert(out@ =~= injection_text(*req, depth as int));
    }
    out.append(body);
    out
}

/// The head of the wrapped entry-point module: a returned table whose `init`
/// field is a one-parameter function taking the globals object.
pub open spec fn wrap_head_text() -> Seq<char> {
    "return { init = function(_proxyGlobals)\n"@
}

/// The tail closing the function and the table.
pub open spec fn wrap_tail_text() -> Seq<char> {
    "\nend }"@
}

/// Wraps the assembled entry-point text: the text is re-indented by one
/// level and embedded verbatim as the body of the `init` function; trailing
/// trivia of the original file follows the wrapper.
pub fn wrap_main_source(assembled: &str, trailing: &str) -> (r: String)
    ensures
        r@ == wrap_head_text() + indent_seq(assembled@) + wrap_tail_text() + trailing@,
{
    let mut r = String::from_str("return { init = function(_proxyGlobals)\n");
    let body = indent_string(assembled);
    r.append(body.as_str());
    r.append("\nend }");
    r.append(trailing);
    r
}

/// Injection ordering: when all three requirement flags are set and the
/// depth is positive, the assembled prefix is the globals-require local,
/// then the plugin-handle local, then the enum-table local, with the marker
/// comment only after the last of the three.
pub proof fn lemma_injection_order(req: Requires, depth: int)
    requires
        req.globals,
        req.plugin,
        req.enums,
        depth > 0,
    ensures
        injection_text(req, depth) == globals_require_text(depth) + plugin_handle_text()
            + enum_table_text() + generation_marker_text(),
{
}

/// When no declaration is demanded, nothing is prepended: the assembled text
/// is the rewritten text unchanged.
pub proof fn lemma_injection_empty(req: Requires, depth: int)
    requires
        !req.globals,
        !req.plugin,
        !req.enums,
        depth > 0,
    ensures
        injection_text(req, depth) == Seq::<char>::empty(),
{
}

} // verus!
