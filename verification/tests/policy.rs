use cache_core::{Policy, ScopePolicy, ToolPolicy};

/// A policy out of a TOML text, as the settings file writes it.
fn policy_from(text: &str) -> Policy {
    let table: toml::Table = text.parse().unwrap();
    let mut policy = Policy::default();
    if let Some(ttl) = table.get("default_ttl_seconds") {
        policy.default_ttl_seconds = ttl.as_integer().unwrap() as u64;
    }
    if let Some(tools) = table.get("tools") {
        for (name, rule) in tools.as_table().unwrap() {
            let mut parsed = ToolPolicy::default();
            if let Some(cacheable) = rule.get("cacheable") {
                parsed.cacheable = cacheable.as_bool().unwrap();
            }
            if let Some(ttl) = rule.get("ttl_seconds") {
                parsed.ttl_seconds = Some(ttl.as_integer().unwrap() as u64);
            }
            policy.tools.insert(name.clone(), parsed);
        }
    }
    if let Some(scopes) = table.get("scopes") {
        for (name, rule) in scopes.as_table().unwrap() {
            let mut parsed = ScopePolicy::default();
            if let Some(cacheable) = rule.get("cacheable") {
                parsed.cacheable = cacheable.as_bool().unwrap();
            }
            policy.scopes.insert(name.clone(), parsed);
        }
    }
    policy
}

#[test]
fn tool_specific_ttl_wins_over_default() {
    let p = policy_from(
        r#"
            default_ttl_seconds = 600

            [tools."search_function"]
            ttl_seconds = 3600

            [tools."execute_query"]
            cacheable = false
        "#,
    );
    assert_eq!(p.ttl_for("search_function"), Some(3600));
    assert_eq!(p.ttl_for("execute_query"), None);
    assert_eq!(p.ttl_for("unknown_tool"), Some(600));
}

#[test]
fn default_zero_means_global_disable() {
    let p = policy_from(
        r#"
            default_ttl_seconds = 0

            [tools."get_metadata_structure"]
            ttl_seconds = 3600
        "#,
    );
    assert_eq!(p.ttl_for("unknown"), None);
    assert_eq!(p.ttl_for("get_metadata_structure"), Some(3600));
}

#[test]
fn is_scope_cacheable_default_true_when_no_override() {
    let p = Policy::default();
    assert!(p.is_scope_cacheable("ut"));
    assert!(p.is_scope_cacheable("bp-ss"));
    assert!(p.is_scope_cacheable("smaks-ut"));
    assert!(p.is_scope_cacheable(""));
}

#[test]
fn is_scope_cacheable_respects_explicit_false() {
    let p = policy_from(
        r#"
            default_ttl_seconds = 600

            [scopes.ut]
            cacheable = false

            [scopes."bp-ss"]
            cacheable = true
        "#,
    );
    assert!(!p.is_scope_cacheable("ut"), "ut explicit disabled");
    assert!(p.is_scope_cacheable("bp-ss"), "bp-ss explicit enabled");
    assert!(p.is_scope_cacheable("tdk-bp"), "tdk-bp default = true");
}

#[test]
fn scope_override_independent_of_tool_ttl() {
    let p = policy_from(
        r#"
            default_ttl_seconds = 600

            [tools."search_function"]
            ttl_seconds = 3600

            [scopes.ut]
            cacheable = false
        "#,
    );
    assert_eq!(p.ttl_for("search_function"), Some(3600));
    assert!(!p.is_scope_cacheable("ut"));
    assert!(p.is_scope_cacheable("bp-ss"));
}

#[test]
fn rule_without_ttl_takes_the_default_of_the_policy() {
    let mut p = Policy::default();
    p.default_ttl_seconds = 90;
    p.tools.insert("grep_body".to_string(), ToolPolicy::default());
    assert_eq!(p.ttl_for("grep_body"), Some(90));
    p.default_ttl_seconds = 0;
    assert_eq!(p.ttl_for("grep_body"), Some(0));
    assert_eq!(p.ttl_for("other"), None);
}
