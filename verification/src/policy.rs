//! What is cached, and for how long.
//!
//! The policy has a time to live for tools it does not name, a rule for each tool
//! it names, and a rule for each scope it names. A tool is named as it comes in
//! `tools/call`, without a prefix.

use vstd::hash_map::StringHashMap;
use vstd::prelude::*;

verus! {

/// The policy on all tools and scopes of a backend.
pub struct Policy {
    /// Seconds to live for a tool without a rule of its own. With 0 such a tool
    /// is not cached.
    pub default_ttl_seconds: u64,
    /// The rules for tools, by name.
    pub tools: StringHashMap<ToolPolicy>,
    /// The rules for scopes, by name. A scope that is not named is cached.
    pub scopes: StringHashMap<ScopePolicy>,
}

/// What a policy says.
pub struct PolicyView {
    pub default_ttl_seconds: u64,
    pub tools: Map<Seq<char>, ToolPolicy>,
    pub scopes: Map<Seq<char>, ScopePolicy>,
}

impl PolicyView {
    /// Whether answers for a scope are cached.
    pub open spec fn scope_cacheable(self, scope: Seq<char>) -> bool {
        self.scopes.contains_key(scope) ==> self.scopes[scope].cacheable
    }

    /// For how many seconds the answers of a tool are cached, if they are.
    pub open spec fn ttl(self, tool: Seq<char>) -> Option<u64> {
        if self.tools.contains_key(tool) {
            let rule = self.tools[tool];
            if !rule.cacheable {
                None
            } else {
                match rule.ttl_seconds {
                    Some(secs) => Some(secs),
                    None => Some(self.default_ttl_seconds),
                }
            }
        } else if self.default_ttl_seconds == 0 {
            None
        } else {
            Some(self.default_ttl_seconds)
        }
    }
}

impl View for Policy {
    type V = PolicyView;

    open spec fn view(&self) -> PolicyView {
        PolicyView {
            default_ttl_seconds: self.default_ttl_seconds,
            tools: self.tools@,
            scopes: self.scopes@,
        }
    }
}

/// The rule for one tool.
#[derive(Debug, Clone, Copy, PartialEq, Eq, Structural)]
pub struct ToolPolicy {
    /// Whether answers of the tool are cached at all.
    pub cacheable: bool,
    /// Seconds to live; the default of the policy if there are none.
    pub ttl_seconds: Option<u64>,
}

/// The rule for one scope.
#[derive(Debug, Clone, Copy, PartialEq, Eq, Structural)]
pub struct ScopePolicy {
    /// Whether answers for the scope are cached at all.
    pub cacheable: bool,
}

/// Seconds to live where a policy gives no default.
pub fn default_default_ttl() -> (r: u64)
    ensures
        r == 600,
{
    600
}

/// Whether a rule that does not say so allows caching.
pub fn default_cacheable() -> (r: bool)
    ensures
        r,
{
    true
}

impl Default for Policy {
    fn default() -> (r: Self)
        ensures
            r.default_ttl_seconds == 600,
            r.tools@ == Map::<Seq<char>, ToolPolicy>::empty(),
            r.scopes@ == Map::<Seq<char>, ScopePolicy>::empty(),
    {
        Policy {
            default_ttl_seconds: default_default_ttl(),
            tools: StringHashMap::new(),
            scopes: StringHashMap::new(),
        }
    }
}

impl Default for ToolPolicy {
    fn default() -> (r: Self)
        ensures
            r.cacheable,
            r.ttl_seconds is None,
    {
        ToolPolicy { cacheable: default_cacheable(), ttl_seconds: None }
    }
}

impl Default for ScopePolicy {
    fn default() -> (r: Self)
        ensures
            r.cacheable,
    {
        ScopePolicy { cacheable: default_cacheable() }
    }
}

impl Policy {
    /// Whether answers for a scope are cached.
    pub fn is_scope_cacheable(&self, scope: &str) -> (r: bool)
        ensures
            r == self@.scope_cacheable(scope@),
    {
        match self.scopes.get(scope) {
            Some(rule) => rule.cacheable,
            None => true,
        }
    }

    /// For how many seconds the answers of a tool are cached, if they are.
    pub fn ttl_for(&self, tool: &str) -> (r: Option<u64>)
        ensures
            r == self@.ttl(tool@),
    {
        match self.tools.get(tool) {
            Some(rule) => if !rule.cacheable {
                None
            } else {
                match rule.ttl_seconds {
                    Some(secs) => Some(secs),
                    None => Some(self.default_ttl_seconds),
                }
            },
            None => if self.default_ttl_seconds == 0 {
                None
            } else {
                Some(self.default_ttl_seconds)
            },
        }
    }
}

/// The time to live of a tool does not depend on the rules for scopes.
pub proof fn law_scope_rules_leave_ttl_alone(
    policy: PolicyView,
    scope: Seq<char>,
    rule: ScopePolicy,
    tool: Seq<char>,
)
    ensures
        (PolicyView { scopes: policy.scopes.insert(scope, rule), ..policy }).ttl(tool)
            == policy.ttl(tool),
        (PolicyView { scopes: policy.scopes.insert(scope, rule), ..policy }).scope_cacheable(scope)
            == rule.cacheable,
{
}

/// A rule for a tool goes before the default: a tool with a rule that forbids
/// caching is never cached, one with a time of its own is cached for exactly that
/// time, whatever the default is, and one with a rule without a time for the default.
pub proof fn law_rule_of_a_tool_goes_before_the_default(
    policy: PolicyView,
    tool: Seq<char>,
    rule: ToolPolicy,
)
    ensures
        ({
            let ttl = (PolicyView { tools: policy.tools.insert(tool, rule), ..policy }).ttl(tool);
            &&& !rule.cacheable ==> ttl is None
            &&& rule.cacheable ==> ttl is Some
            &&& rule.cacheable && rule.ttl_seconds is Some ==> ttl == rule.ttl_seconds
            &&& rule.cacheable && rule.ttl_seconds is None ==> ttl == Some(
                policy.default_ttl_seconds,
            )
        }),
{
}

/// A tool without a rule is cached for the default time, and not at all where that
/// is 0. A rule for another tool changes nothing for it.
pub proof fn law_tool_without_a_rule_has_the_default(
    policy: PolicyView,
    tool: Seq<char>,
    other: Seq<char>,
    rule: ToolPolicy,
)
    requires
        other != tool,
    ensures
        !policy.tools.contains_key(tool) && policy.default_ttl_seconds == 0 ==> policy.ttl(
            tool,
        ) is None,
        !policy.tools.contains_key(tool) && policy.default_ttl_seconds > 0 ==> policy.ttl(tool)
            == Some(policy.default_ttl_seconds),
        (PolicyView { tools: policy.tools.insert(other, rule), ..policy }).ttl(tool)
            == policy.ttl(tool),
{
}

/// A scope is left out of the cache by a rule for it that says so, and by nothing else.
pub proof fn law_scope_is_cached_unless_its_rule_forbids_it(
    policy: PolicyView,
    scope: Seq<char>,
    other: Seq<char>,
    rule: ScopePolicy,
)
    ensures
        !policy.scopes.contains_key(scope) ==> policy.scope_cacheable(scope),
        policy.scopes.contains_key(scope) ==> policy.scope_cacheable(scope)
            == policy.scopes[scope].cacheable,
        other != scope ==> (PolicyView {
            scopes: policy.scopes.insert(other, rule),
            ..policy
        }).scope_cacheable(scope) == policy.scope_cacheable(scope),
{
}

} // verus!
