use thclaws_core::policy::allowlist::{
    check_url, check_url_with, glob_segment, matches_pattern, normalize_url_for_match,
    AllowDecision,
};
use thclaws_core::policy::{ActivePolicy, PluginsPolicy, Policies, Policy};

fn policy_with_plugins(p: PluginsPolicy) -> Policy {
    Policy {
        version: 1,
        issuer: "test".into(),
        issued_at: String::new(),
        expires_at: None,
        binding: None,
        policies: Policies {
            plugins: Some(p),
            ..Default::default()
        },
        signature: None,
    }
}

fn allowing(hosts: &[&str]) -> Policy {
    policy_with_plugins(PluginsPolicy {
        enabled: true,
        allowed_hosts: hosts.iter().map(|h| h.to_string()).collect(),
        allow_external_scripts: true,
        allow_external_mcp: true,
    })
}

#[test]
fn no_policy_means_no_policy() {
    let p = policy_with_plugins(PluginsPolicy {
        enabled: false,
        allowed_hosts: vec!["github.com/acme/*".into()],
        allow_external_scripts: true,
        allow_external_mcp: true,
    });
    assert_eq!(
        check_url_with("https://github.com/random/repo.git", &p),
        AllowDecision::NoPolicy
    );
}

#[test]
fn empty_allowed_hosts_with_enabled_is_deny_all() {
    let p = policy_with_plugins(PluginsPolicy {
        enabled: true,
        allowed_hosts: vec![],
        allow_external_scripts: true,
        allow_external_mcp: true,
    });
    let decision = check_url_with("https://github.com/random/repo", &p);
    assert!(matches!(decision, AllowDecision::Denied { .. }));
}

#[test]
fn host_only_pattern_matches_any_path() {
    let p = policy_with_plugins(PluginsPolicy {
        enabled: true,
        allowed_hosts: vec!["github.com".into()],
        allow_external_scripts: true,
        allow_external_mcp: true,
    });
    assert_eq!(
        check_url_with("https://github.com/anyone/anything.git", &p),
        AllowDecision::Allowed
    );
    assert!(matches!(
        check_url_with("https://gitlab.com/anyone/anything.git", &p),
        AllowDecision::Denied { .. }
    ));
}

#[test]
fn segment_wildcard_matches_one_segment() {
    let p = policy_with_plugins(PluginsPolicy {
        enabled: true,
        allowed_hosts: vec!["github.com/acmecorp/*".into()],
        allow_external_scripts: true,
        allow_external_mcp: true,
    });
    assert_eq!(
        check_url_with("https://github.com/acmecorp/internal-skills.git", &p),
        AllowDecision::Allowed
    );
    assert!(matches!(
        check_url_with("https://github.com/randomuser/skills.git", &p),
        AllowDecision::Denied { .. }
    ));
}

#[test]
fn host_glob_matches_subdomains() {
    let p = policy_with_plugins(PluginsPolicy {
        enabled: true,
        allowed_hosts: vec!["*.acme.example".into()],
        allow_external_scripts: true,
        allow_external_mcp: true,
    });
    assert_eq!(
        check_url_with("https://internal.acme.example/anything", &p),
        AllowDecision::Allowed
    );
    assert_eq!(
        check_url_with("https://acme.example/foo", &p),
        AllowDecision::Allowed
    );
    assert!(matches!(
        check_url_with("https://attacker.example/foo", &p),
        AllowDecision::Denied { .. }
    ));
}

#[test]
fn url_with_query_and_token_normalizes() {
    let p = policy_with_plugins(PluginsPolicy {
        enabled: true,
        allowed_hosts: vec!["github.com/acme/*".into()],
        allow_external_scripts: true,
        allow_external_mcp: true,
    });
    assert_eq!(
        check_url_with("https://github.com/acme/repo.zip?token=GH-abc&ref=main", &p),
        AllowDecision::Allowed
    );
}

#[test]
fn case_insensitive_host_match() {
    let p = policy_with_plugins(PluginsPolicy {
        enabled: true,
        allowed_hosts: vec!["GitHub.com/Acme/*".into()],
        allow_external_scripts: true,
        allow_external_mcp: true,
    });
    assert_eq!(
        check_url_with("https://GITHUB.COM/acme/repo", &p),
        AllowDecision::Allowed
    );
}

#[test]
fn mid_segment_glob_works() {
    let p = policy_with_plugins(PluginsPolicy {
        enabled: true,
        allowed_hosts: vec!["github.com/acme/skill-*".into()],
        allow_external_scripts: true,
        allow_external_mcp: true,
    });
    assert_eq!(
        check_url_with("https://github.com/acme/skill-deploy", &p),
        AllowDecision::Allowed
    );
    assert_eq!(
        check_url_with("https://github.com/acme/skill-anything-here", &p),
        AllowDecision::Allowed
    );
    assert!(matches!(
        check_url_with("https://github.com/acme/plugin-other", &p),
        AllowDecision::Denied { .. }
    ));
}

#[test]
fn port_in_url_does_not_break_match() {
    let p = policy_with_plugins(PluginsPolicy {
        enabled: true,
        allowed_hosts: vec!["mcp.acme.example".into()],
        allow_external_scripts: true,
        allow_external_mcp: true,
    });
    assert_eq!(
        check_url_with("https://mcp.acme.example:8443/v1", &p),
        AllowDecision::Allowed
    );
}

#[test]
fn normalize_strips_dot_git_suffix() {
    assert_eq!(
        normalize_url_for_match("https://github.com/acme/repo.git"),
        "github.com/acme/repo"
    );
}

#[test]
fn without_an_active_policy_anything_goes() {
    let decision = check_url("https://anywhere.example/x", None);
    assert_eq!(decision, AllowDecision::NoPolicy);
    assert!(decision.is_allowed());
}

#[test]
fn an_active_policy_decides() {
    let active = ActivePolicy { policy: allowing(&["github.com/acme/*"]) };
    let good = check_url("https://github.com/acme/repo", Some(&active));
    assert_eq!(good, AllowDecision::Allowed);
    assert!(good.is_allowed());
    let bad = check_url("https://github.com/other/repo", Some(&active));
    assert!(!bad.is_allowed());
}

#[test]
fn a_policy_without_plugin_rules_decides_nothing() {
    let mut p = allowing(&[]);
    p.policies.plugins = None;
    assert_eq!(check_url_with("https://github.com/a/b", &p), AllowDecision::NoPolicy);
}

#[test]
fn refusals_say_why() {
    assert_eq!(
        check_url_with("https://a.example/x", &allowing(&[])),
        AllowDecision::Denied {
            reason: "https://a.example/x: org policy has plugins.enabled but no allowed_hosts configured (deny-all)".into()
        }
    );
    assert_eq!(
        check_url_with("https://a.example/x", &allowing(&["b.example", "c.example/*"])),
        AllowDecision::Denied {
            reason: "https://a.example/x: host doesn't match any of 2 allowed pattern(s) — see your org's thClaws policy".into()
        }
    );
}

#[test]
fn normal_forms() {
    let cases = [
        ("github.com", "github.com"),
        ("  https://GitHub.com/Acme/Repo  ", "github.com/Acme/Repo"),
        ("https://github.com/", "github.com"),
        ("https://github.com//x", "github.com//x"),
        ("https://github.com:443", "github.com"),
        ("https://user:pw@github.com:443/a/b#frag", "github.com/a/b"),
        ("git@github.com:foo/bar.git", "github.com/bar"),
        ("https://github.com/a/b.git?x=1#y", "github.com/a/b"),
        ("https://github.com/a/b.git.git", "github.com/a/b.git"),
        ("https://github.com/a?next=http://other.example/p", "github.com/a"),
        ("github.com/a?next=http://other.example/p", "github.com/a"),
        ("https://github.com/a?x=@b", "github.com/a"),
        ("https://evil.example/x?u=@github.com/acme/repo", "evil.example/x"),
        ("https://evil.example/x@github.com/acme/repo", "evil.example/x@github.com/acme/repo"),
        ("https://evil.example?@github.com/acme/repo", "evil.example"),
        ("https://evil.example#@github.com/acme/repo", "evil.example"),
        ("evil.example/x://github.com/acme/repo", "evil.example/x://github.com/acme/repo"),
        ("https://npm.example/@scope/pkg", "npm.example/@scope/pkg"),
        ("https://a@b@github.com/x", "b@github.com/x"),
        ("://github.com/x", "github.com/x"),
        ("/a/b", "/a/b"),
        ("?", ""),
        ("", ""),
    ];
    for (url, normal) in cases {
        assert_eq!(normalize_url_for_match(url), normal, "{url}");
    }
}

#[test]
fn the_query_the_fragment_the_port_and_the_suffix_do_not_matter() {
    let plain = normalize_url_for_match("https://github.com/acme/repo");
    assert_eq!(plain, "github.com/acme/repo");
    for url in [
        "https://github.com/acme/repo?token=1",
        "https://github.com/acme/repo#readme",
        "https://github.com:8443/acme/repo",
        "https://GITHUB.com/acme/repo",
        "https://github.com/acme/repo.git",
    ] {
        assert_eq!(normalize_url_for_match(url), plain);
    }
}

#[test]
fn patterns_match_from_the_start_of_the_path() {
    assert!(matches_pattern("github.com/acme", "github.com/acme"));
    assert!(matches_pattern("github.com/acme", "github.com/acme/repo/sub"));
    assert!(matches_pattern("github.com/acme/*", "github.com/acme/repo/sub"));
    assert!(!matches_pattern("github.com/acme/*", "github.com/acme"));
    assert!(!matches_pattern("github.com/acme/*", "github.com/acme/"));
    assert!(!matches_pattern("github.com/acme", "github.com/acmecorp"));
    assert!(matches_pattern("github.com/acmecorp/*/*", "github.com/acmecorp/a/b"));
    assert!(!matches_pattern("github.com/acmecorp/*/*", "github.com/acmecorp/a"));
}

#[test]
fn patterns_are_trimmed_and_in_any_letter_case() {
    assert!(matches_pattern("  GitHub.COM// ", "github.com/x"));
    assert!(matches_pattern("GITHUB.com/ACME/*", "github.com/acme/x"));
    assert!(matches_pattern("github.com/Acme/*", "github.com/Acme/repo"));
    assert!(matches_pattern("github.com/Acme/*", "github.com/acme/repo"));
    assert!(matches_pattern("github.com/Acme/Repo", "github.com/acme/Repo"));
    assert!(matches_pattern("GitHub.com/Acme/Skill-*", "github.com/Acme/skill-x"));
    assert!(matches_pattern("", ""));
    assert!(!matches_pattern("", "github.com"));
}

#[test]
fn the_letters_of_a_url_are_left_as_they_are() {
    assert!(!matches_pattern("github.com/acme/*", "github.com/Acme/repo"));
    assert!(!matches_pattern("github.com/Acme/*", "github.com/ACME/repo"));
    assert!(!matches_pattern("github.com", "GitHub.com"));
    assert!(!matches_pattern("*.acme.example", "ACME.example"));
    let p = allowing(&["github.com/acme/*"]);
    assert!(!check_url_with("https://github.com/Acme/repo", &p).is_allowed());
    assert!(check_url_with("https://GitHub.com/acme/repo", &p).is_allowed());
}

#[test]
fn domains_take_in_subdomains_and_nothing_else() {
    assert!(matches_pattern("*.acme.example", "acme.example"));
    assert!(matches_pattern("*.acme.example", "a.b.acme.example/x/y"));
    assert!(!matches_pattern("*.acme.example", "notacme.example"));
    assert!(!matches_pattern("*.acme.example", "acme.example.org"));
    assert!(matches_pattern("*.acme.example/x", "acme.example/x"));
    assert!(matches_pattern("*.acme.example/tools", "ci.acme.example/tools"));
    assert!(matches_pattern("*.acme.example/tools/*", "ci.acme.example/tools/x/y"));
    assert!(!matches_pattern("*.acme.example/tools", "ci.acme.example"));
    assert!(!matches_pattern("*.acme.example/tools", "ci.acme.example/other"));
    assert!(!matches_pattern("*.acme.example/tools", "attacker.example/tools"));
}

#[test]
fn wildcards_within_a_segment() {
    assert!(glob_segment("skill-*", "skill-"));
    assert!(glob_segment("skill-*", "skill-x-y"));
    assert!(!glob_segment("skill-*", "my-skill-x"));
    assert!(glob_segment("*-x", "a-x"));
    assert!(!glob_segment("*-x", "a-xy"));
    assert!(glob_segment("a*b*c", "a1b2c"));
    assert!(glob_segment("a*b*c", "abbc"));
    assert!(!glob_segment("a*b*c", "acb"));
    assert!(!glob_segment("ab*ba", "aba"));
    assert!(glob_segment("ab*ba", "abba"));
    assert!(glob_segment("é*ü", "éxü"));
    assert!(glob_segment("*", ""));
    assert!(glob_segment("**", "any"));
    assert!(!glob_segment("a**b", "a"));
}

#[test]
fn a_glob_without_stars_is_literal() {
    assert!(glob_segment("abc", "abc"));
    assert!(!glob_segment("abc", "abcd"));
    assert!(!glob_segment("abc", "ab"));
    assert!(glob_segment("", ""));
}

#[test]
fn what_stands_in_a_query_or_a_path_names_no_host() {
    let p = allowing(&["github.com/acme/*"]);
    for url in [
        "https://evil.example/x?u=@github.com/acme/repo",
        "https://evil.example/x@github.com/acme/repo",
        "https://evil.example/#@github.com/acme/repo",
        "evil.example/?https://github.com/acme/repo",
        "evil.example/x://github.com/acme/repo",
    ] {
        assert!(matches!(check_url_with(url, &p), AllowDecision::Denied { .. }), "{url}");
    }
    assert_eq!(
        check_url_with("https://user@github.com/acme/repo?x=@y", &p),
        AllowDecision::Allowed
    );
}
