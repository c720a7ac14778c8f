use manifold::edge::access::roles_for;
use manifold::edge::cache::{cache_entry_key, cache_key, is_cacheable, request_cache_key, should_cache};
use manifold::edge::identity::{build_stash, identity_stash, HeaderConfig, Headers, Stash, STASH_KEY_GROUPS, STASH_KEY_USER_ID};

#[test]
fn admin_domain_maps_to_admin_else_viewer() {
    assert_eq!(roles_for("tom@tailoredshapes.com", "tailoredshapes.com"), vec!["admin"]);
    assert_eq!(roles_for("Tom@TailoredShapes.com", "tailoredshapes.com"), vec!["admin"]);
    assert_eq!(roles_for("lead@gmail.com", "tailoredshapes.com"), vec!["viewer"]);
    assert_eq!(roles_for("anyone@x.io", ""), vec!["viewer"]);
}

#[test]
fn roles_use_the_part_after_the_last_at() {
    assert_eq!(roles_for("a@b@corp.io", "corp.io"), vec!["admin"]);
    assert_eq!(roles_for("corp.io", "corp.io"), vec!["admin"]);
    assert_eq!(roles_for("x@corp.io.evil", "corp.io"), vec!["viewer"]);
}

fn cfg() -> HeaderConfig {
    HeaderConfig::default()
}

fn headers(pairs: &[(&str, &str)]) -> Headers {
    Headers { entries: pairs.iter().map(|(k, v)| (k.to_string(), Some(v.to_string()))).collect() }
}

#[test]
fn build_stash_populates_user_id_from_default_header() {
    let h = headers(&[("x-manifold-user-id", "alice@example.dev")]);
    let s = build_stash(&h, &cfg());
    assert_eq!(s.user_id, Some("alice@example.dev".to_string()));
}

#[test]
fn build_stash_splits_groups() {
    let h = headers(&[("x-manifold-user-groups", "admin, engineering")]);
    let s = build_stash(&h, &cfg());
    let groups = s.groups.unwrap();
    assert_eq!(groups.len(), 2);
    assert_eq!(groups[0], "admin".to_string());
    assert_eq!(groups[1], "engineering".to_string());
}

#[test]
fn build_stash_empty_when_no_headers() {
    let h = headers(&[]);
    let s = build_stash(&h, &cfg());
    assert!(s.is_empty());
}

#[test]
fn build_stash_respects_custom_header_names() {
    let custom = HeaderConfig::new("X-Whatever-User", "X-Whatever-Groups").unwrap();
    let h = headers(&[("x-whatever-user", "bob")]);
    let s = build_stash(&h, &custom);
    assert_eq!(s.user_id, Some("bob".into()));
}

#[test]
fn build_stash_ignores_empty_header_values() {
    let h = headers(&[("x-manifold-user-id", "")]);
    let s = build_stash(&h, &cfg());
    assert!(s.is_empty());
}

#[test]
fn build_stash_applies_demo_default_when_no_header() {
    let mut c = HeaderConfig::default();
    c.default_user_id = Some("demo@manifold.tailoredshapes.com".to_string());
    c.default_groups = Some("viewer".to_string());
    let s = build_stash(&headers(&[]), &c);
    assert_eq!(s.user_id, Some("demo@manifold.tailoredshapes.com".to_string()));
    assert_eq!(s.groups.unwrap(), vec!["viewer".to_string()]);
}

#[test]
fn build_stash_header_identity_wins_over_demo_default() {
    let mut c = HeaderConfig::default();
    c.default_user_id = Some("demo@manifold.tailoredshapes.com".to_string());
    c.default_groups = Some("viewer".to_string());
    let h = headers(&[("x-manifold-user-id", "alice@example.dev"), ("x-manifold-user-groups", "admin")]);
    let s = build_stash(&h, &c);
    assert_eq!(s.user_id, Some("alice@example.dev".to_string()));
    assert_eq!(s.groups.unwrap(), vec!["admin".to_string()]);
}

#[test]
fn fallback_identity_drops_header_groups() {
    let mut c = HeaderConfig::default();
    c.default_user_id = Some("demo".to_string());
    c.default_groups = None;
    let s = build_stash(&headers(&[("x-manifold-user-groups", "admin")]), &c);
    assert_eq!(s.user_id, Some("demo".to_string()));
    assert_eq!(s.groups, None);
    c.default_groups = Some("viewer".to_string());
    let s = build_stash(&headers(&[("x-manifold-user-groups", "admin")]), &c);
    assert_eq!(s.groups, Some(vec!["viewer".to_string()]));
}

#[test]
fn untrusted_headers_are_ignored() {
    let mut c = HeaderConfig::default();
    c.trust_headers = false;
    let h = headers(&[("x-manifold-user-id", "mallory"), ("x-manifold-user-groups", "admin")]);
    assert!(build_stash(&h, &c).is_empty());
}

#[test]
fn header_names_are_validated_and_lowered() {
    assert!(HeaderConfig::new("X Bad", "ok").is_err());
    assert!(HeaderConfig::new("", "ok").is_err());
    let c = HeaderConfig::new("X-User", "X-Groups").unwrap();
    assert_eq!(c.user_id_header, "x-user");
    assert_eq!(STASH_KEY_USER_ID, "user_id");
    assert_eq!(STASH_KEY_GROUPS, "groups");
}

#[test]
fn identity_stash_keeps_groups_only_when_present() {
    let s = identity_stash("a@b".into(), vec![]);
    assert_eq!(s.user_id, Some("a@b".to_string()));
    assert!(s.groups.is_none());
    let s = identity_stash("a@b".into(), vec!["admin".into()]);
    assert_eq!(s.groups, Some(vec!["admin".to_string()]));
}

#[test]
fn cache_answers_reads_and_graph_queries() {
    assert!(is_cacheable("GET", "/deployable/api"));
    assert!(is_cacheable("POST", "/deployable/graph"));
    assert!(!is_cacheable("POST", "/deployable/api"));
    assert!(!is_cacheable("PUT", "/deployable/graph"));
    assert_eq!(cache_key("GET", "/a", "x=1", "u", "g", ""), "GET|/a|x=1|u|g||");
    let id = Stash { user_id: Some("u".to_string()), groups: None };
    assert_eq!(request_cache_key("POST", "/graph", "", &id, b"{q}"), "POST|/graph||=u||{q}|");
}

#[test]
fn cache_keeps_successes_without_graph_errors() {
    assert!(should_cache(true, false, b"{\"errors\":[1]}"));
    assert!(!should_cache(true, true, b"{\"errors\":[1]}"));
    assert!(should_cache(true, true, b"{\"data\":1,\"errors\":null}"));
    assert!(should_cache(true, true, b"{\"data\":1}"));
    assert!(!should_cache(false, false, b""));
}

#[test]
fn different_identities_never_share_a_cache_key() {
    let a = cache_key("GET", "/api", "", "ann", "viewer", "");
    let b = cache_key("GET", "/api", "", "ann", "admin", "");
    let c = cache_key("GET", "/api", "", "bob", "viewer", "");
    let d = cache_key("GET", "/api", "", "an", "nviewer", "");
    assert_ne!(a, b);
    assert_ne!(a, c);
    assert_ne!(a, d);
}

#[test]
fn invalid_utf8_in_a_body_is_replaced_in_the_key() {
    let id = Stash { user_id: Some("u".to_string()), groups: Some(vec!["g".to_string()]) };
    let k = request_cache_key("POST", "/graph", "", &id, &[b'a', 0xff, b'b']);
    assert_eq!(k, "POST|/graph||=u|=g\\||a\u{FFFD}b|");
}

#[test]
fn separators_inside_values_cannot_forge_a_key() {
    let a = cache_key("GET", "/api", "", "ann|viewer", "", "");
    let b = cache_key("GET", "/api", "", "ann", "viewer|", "");
    assert_ne!(a, b);
    assert_eq!(a, "GET|/api||ann\\|viewer|||");
    assert_eq!(cache_key("GET", "/a\\b", "", "", "", ""), "GET|/a\\\\b|||||");
}

#[test]
fn resolved_identities_give_distinct_keys() {
    let anon = Stash { user_id: None, groups: None };
    let empty_user = Stash { user_id: Some(String::new()), groups: None };
    let two = Stash { user_id: Some("ann".to_string()), groups: Some(vec!["a".to_string(), "b".to_string()]) };
    let joined = Stash { user_id: Some("ann".to_string()), groups: Some(vec!["a|b".to_string()]) };
    let k = |s: &Stash| request_cache_key("GET", "/api", "", s, b"");
    assert_ne!(k(&anon), k(&empty_user));
    assert_ne!(k(&two), k(&joined));
    assert_eq!(k(&anon), "GET|/api|||||");
    assert_eq!(k(&two), "GET|/api||=ann|=a\\|b\\|||");
}

#[test]
fn cache_entries_only_for_reads_and_graph_queries() {
    let id = Stash { user_id: Some("u".to_string()), groups: None };
    assert_eq!(cache_entry_key("PUT", "/graph", "", &id, b"x"), None);
    assert_eq!(cache_entry_key("GET", "/a", "x=1", &id, b"ignored"), Some("GET|/a|x=1|=u|||".to_string()));
    assert_eq!(cache_entry_key("POST", "/graph", "", &id, b"{q}"), Some("POST|/graph||=u||{q}|".to_string()));
}
