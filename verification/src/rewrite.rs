//! The single-pass rewrite policy for one script's syntax tree.
//!
//! The syntax codec walks the tree and describes each candidate node to this
//! module as a small shape: the prefix identifier and the relevant suffixes.
//! The functions here decide, exactly and in a fixed order, which of the
//! recognized privileged-API patterns applies, return the replacement
//! instruction, and accumulate the requirement flags consumed later by the
//! injector.

use vstd::prelude::*;
use vstd::string::{StrSliceExecFns, StringExecFns};

verus! {

/// Character-wise string equality.
pub fn str_eq(a: &str, b: &str) -> (r: bool)
    ensures
        r == (a@ == b@),
{
    let na = a.unicode_len();
    let nb = b.unicode_len();
    if na != nb {
        proof {
            if a@ == b@ {
                assert(a@.len() == b@.len());
            }
        }
        return false;
    }
    let mut i: usize = 0;
    while i < na
        invariant
            i <= na,
            na == a@.len(),
            na == b@.len(),
            forall|m: int| 0 <= m < i ==> a@[m] == b@[m],
        decreases na - i,
    {
        if a.get_char(i) != b.get_char(i) {
            proof {
                if a@ == b@ {
                    assert(a@[i as int] == b@[i as int]);
                }
            }
            return false;
        }
        i = i + 1;
    }
    proof {
        assert(a@ =~= b@);
    }
    true
}

/// The per-script requirement-flag summary: which injected locals the
/// rewritten script needs. Created fresh per script and consumed by the
/// injector.
pub struct Requires {
    /// The script needs the globals object itself (set explicitly by a
    /// rewrite, or implied by either other flag).
    pub globals: bool,
    /// The script needs the plugin handle.
    pub plugin: bool,
    /// The script needs the enum table.
    pub enums: bool,
}

impl Default for Requires {
    /// No requirements.
    fn default() -> (r: Self)
        ensures
            !r.globals && !r.plugin && !r.enums,
    {
        Requires { globals: false, plugin: false, enums: false }
    }
}

impl Requires {
    /// Whether the globals object is required: explicitly, or because the
    /// plugin handle or the enum table is read off it.
    pub open spec fn globals_spec(&self) -> bool {
        self.globals || self.plugin || self.enums
    }

    /// Use this to check if globals are required.
    pub fn globals(&self) -> (r: bool)
        ensures
            r == self.globals_spec(),
    {
        self.globals || (self.plugin || self.enums)
    }
}

/// The shape of a prefixed node (a var expression or a function call) as far
/// as the first two rewrite rules read it.
pub struct AffixShape {
    /// The identifier held by the prefix, when the prefix is a plain name.
    pub prefix_identifier: Option<String>,
    /// The identifier of the first suffix, when that suffix is a dotted
    /// index.
    pub first_suffix_dot_name: Option<String>,
    /// Whether the first suffix is a call.
    pub first_suffix_is_call: bool,
}

/// Whether the node reads one of the two style-guide enumeration categories
/// off the enumeration namespace.
pub open spec fn is_replacable_enum_shape(s: AffixShape) -> bool {
    (s.prefix_identifier matches Some(p) && p@ == "Enum"@) && (s.first_suffix_dot_name matches Some(
        n,
    ) && (n@ == "StudioStyleGuideColor"@ || n@ == "StudioStyleGuideModifier"@))
}

/// Whether the node is a call to the free function `settings`.
pub open spec fn is_settings_call_shape(s: AffixShape) -> bool {
    (s.prefix_identifier matches Some(p) && p@ == "settings"@) && s.first_suffix_is_call
}

/// Decides whether the node reads a replaceable enumeration category.
pub fn is_replacable_enum(shape: &AffixShape) -> (r: bool)
    ensures
        r == is_replacable_enum_shape(*shape),
{
    let pre_ok = match &shape.prefix_identifier {
        Some(p) => str_eq(p.as_str(), "Enum"),
        None => false,
    };
    let suf_ok = match &shape.first_suffix_dot_name {
        Some(n) => str_eq(n.as_str(), "StudioStyleGuideColor") || str_eq(
            n.as_str(),
            "StudioStyleGuideModifier",
        ),
        None => false,
    };
    pre_ok && suf_ok
}

/// Decides whether the node calls the free function `settings`.
pub fn is_settings_call(shape: &AffixShape) -> (r: bool)
    ensures
        r == is_settings_call_shape(*shape),
{
    let pre_ok = match &shape.prefix_identifier {
        Some(p) => str_eq(p.as_str(), "settings"),
        None => false,
    };
    pre_ok && shape.first_suffix_is_call
}

/// The shape of one suffix of a function-call expression, as far as the
/// method-call rewrite rules read it.
pub struct SuffixShape {
    /// The method name, when the suffix is a method call with a plain name.
    pub method_name: Option<String>,
    /// The content of the first argument, when that argument is a string
    /// literal.
    pub first_string_arg: Option<String>,
}

/// Whether the suffix is a method call searching ancestors for the plugin
/// class: either recognized method name, with the first argument literally
/// the plugin class name.
pub open spec fn plugin_search_suffix(s: SuffixShape) -> bool {
    (s.method_name matches Some(n) && (n@ == "FindFirstAncestorOfClass"@ || n@
        == "FindFirstAncestorWhichIsA"@)) && (s.first_string_arg matches Some(a) && a@
        == "Plugin"@)
}

/// Whether the suffix at `index` is a `GetService` method call invoked
/// implicitly on the ambient service root: the receiver is a bare name and
/// the method call is its first suffix, with no explicit service-locator
/// qualification in between.
pub open spec fn service_lookup_suffix(s: SuffixShape, index: int, prefix_is_name: bool) -> bool {
    (s.method_name matches Some(n) && n@ == "GetService"@) && prefix_is_name && index == 0
}

/// Decides whether the suffix searches ancestors for the plugin class.
pub fn is_plugin_search_suffix(s: &SuffixShape) -> (r: bool)
    ensures
        r == plugin_search_suffix(*s),
{
    let name_ok = match &s.method_name {
        Some(n) => str_eq(n.as_str(), "FindFirstAncestorOfClass") || str_eq(
            n.as_str(),
            "FindFirstAncestorWhichIsA",
        ),
        None => false,
    };
    let arg_ok = match &s.first_string_arg {
        Some(a) => str_eq(a.as_str(), "Plugin"),
        None => false,
    };
    name_ok && arg_ok
}

/// Decides whether the suffix at `index` is an implicit service lookup.
pub fn is_service_lookup_suffix(s: &SuffixShape, index: usize, prefix_is_name: bool) -> (r: bool)
    ensures
        r == service_lookup_suffix(*s, index as int, prefix_is_name),
{
    let name_ok = match &s.method_name {
        Some(n) => str_eq(n.as_str(), "GetService"),
        None => false,
    };
    name_ok && prefix_is_name && index == 0
}

/// The decision taken for a function-call expression: which suffix matched
/// which rule, if any.
pub enum CallDecision {
    /// The suffix at `index` searches ancestors for the plugin class.
    Plugin { index: int },
    /// The suffix at `index` is an implicit service lookup.
    Service { index: int },
    /// No rule applies.
    Keep,
}

/// Scans the suffixes from position `i` onward and returns the first rule
/// that applies: per suffix, the ancestor-plugin rule is checked before the
/// service-lookup rule, and only the first matching rule applies.
pub open spec fn call_decision_from(
    sufs: Seq<SuffixShape>,
    prefix_is_name: bool,
    i: int,
) -> CallDecision
    decreases sufs.len() - i,
    when 0 <= i <= sufs.len()
{
    if i >= sufs.len() {
        CallDecision::Keep
    } else if plugin_search_suffix(sufs[i]) {
        CallDecision::Plugin { index: i }
    } else if service_lookup_suffix(sufs[i], i, prefix_is_name) {
        CallDecision::Service { index: i }
    } else {
        call_decision_from(sufs, prefix_is_name, i + 1)
    }
}

/// The decision for the whole suffix list.
pub open spec fn call_decision(sufs: Seq<SuffixShape>, prefix_is_name: bool) -> CallDecision {
    call_decision_from(sufs, prefix_is_name, 0)
}

/// The rewrite instruction for a function-call expression.
pub enum CallRewrite {
    /// Replace the whole call expression with this bare identifier, keeping
    /// the trailing trivia attached to the closing token of the arguments of
    /// the method call at `suffix_index`.
    ReplaceWithPlugin { suffix_index: usize, identifier: String },
    /// Rebuild the call to go through the globals object and the explicit
    /// service-root accessor, keeping the method call at `suffix_index`:
    /// `<globals_identifier>.<service_root>:<method call>`.
    QualifyServiceCall { suffix_index: usize, globals_identifier: String, service_root: String },
    /// Leave the expression byte-identical.
    Keep,
}

/// The syntax-rewrite visitor state: the requirement flags accumulated over
/// one script's pass.
pub struct PluginProxyVisitor {
    /// The flags accumulated so far.
    pub requires: Requires,
}

impl Default for PluginProxyVisitor {
    /// A fresh visitor with no requirements recorded.
    fn default() -> (r: Self)
        ensures
            !r.requires.globals && !r.requires.plugin && !r.requires.enums,
    {
        PluginProxyVisitor { requires: Requires::default() }
    }
}

impl PluginProxyVisitor {
    /// Decides the rewrite for a prefixed node (a var expression or function
    /// call): the enumeration rule first, then the settings rule; the result
    /// is the replacement prefix identifier, or `None` to leave the node
    /// unchanged.
    pub fn process_common(&mut self, shape: &AffixShape) -> (r: Option<String>)
        ensures
            is_replacable_enum_shape(*shape) ==> (r matches Some(s) && s@ == "Enums"@)
                && final(self).requires == (Requires { enums: true, ..old(self).requires }),
            !is_replacable_enum_shape(*shape) && is_settings_call_shape(*shape) ==> (r matches Some(
                s,
            ) && s@ == "_proxyGlobals.settings"@) && final(self).requires == (Requires {
                globals: true,
                ..old(self).requires
            }),
            !is_replacable_enum_shape(*shape) && !is_settings_call_shape(*shape) ==> r is None
                && final(self).requires == old(self).requires,
    {
        if is_replacable_enum(shape) {
            self.requires.enums = true;
            Some(String::from_str("Enums"))
        } else if is_settings_call(shape) {
            self.requires.globals = true;
            Some(String::from_str("_proxyGlobals.settings"))
        } else {
            None
        }
    }

    /// Decides the rewrite for a function-call expression from the shapes of
    /// its suffixes, in visitation order, and records the flag of the rule
    /// that fired.
    pub fn visit_expression(&mut self, prefix_is_name: bool, suffixes: &Vec<SuffixShape>) -> (r:
        CallRewrite)
        ensures
            (call_decision(suffixes@, prefix_is_name) matches CallDecision::Plugin { index } ==> (
            r matches CallRewrite::ReplaceWithPlugin { suffix_index, identifier } && suffix_index
                == index && identifier@ == "plugin"@) && final(self).requires == (Requires {
                plugin: true,
                ..old(self).requires
            })),
            (call_decision(suffixes@, prefix_is_name) matches CallDecision::Service { index } ==> (
            r matches CallRewrite::QualifyServiceCall {
                suffix_index,
                globals_identifier,
                service_root,
            } && suffix_index == index && globals_identifier@ == "_proxyGlobals"@ && service_root@
                == "game"@) && final(self).requires == (Requires {
                globals: true,
                ..old(self).requires
            })),
            call_decision(suffixes@, prefix_is_name) is Keep ==> r is Keep && final(self).requires
                == old(self).requires,
    {
        let n = suffixes.len();
        let mut i: usize = 0;
        while i < n
            invariant
                i <= n,
                n == suffixes@.len(),
                call_decision(suffixes@, prefix_is_name) == call_decision_from(
                    suffixes@,
                    prefix_is_name,
                    i as int,
                ),
                self.requires == old(self).requires,
            decreases n - i,
        {
            let s = &suffixes[i];
            if is_plugin_search_suffix(s) {
                self.requires.plugin = true;
                return CallRewrite::ReplaceWithPlugin {
                    suffix_index: i,
                    identifier: String::from_str("plugin"),
                };
            }
            if is_service_lookup_suffix(s, i, prefix_is_name) {
                self.requires.globals = true;
                return CallRewrite::QualifyServiceCall {
                    suffix_index: i,
                    globals_identifier: String::from_str("_proxyGlobals"),
                    service_root: String::from_str("game"),
                };
            }
            i = i + 1;
        }
        CallRewrite::Keep
    }
}

} // verus!

