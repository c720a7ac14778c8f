use manifold::adapters::okta::display_name;
use manifold::adapters::common::{
    canonical_id_from_reply, escape_graphql_string, external_system_query, ingestion_api_url, ingestion_graph_url,
    parse_next_link, upsert_write, IngestReply, IngestRow, ReplyError, UpsertWrite,
};
use manifold::adapters::github::{
    compute_duration_minutes, days_from_civil, duration_in_range, github_status_to_yard, parse_i64,
};
use manifold::adapters::gitlab::{encode_path, encode_path_segment, gitlab_status_to_yard};

#[test]
fn escapes_quotes_and_backslashes() {
    assert_eq!(escape_graphql_string(r#"abc"def\ghi"#), r#"abc\"def\\ghi"#);
}

#[test]
fn parses_next_link_when_present() {
    let h = r#"<https://api.example.com/repos?page=2>; rel="next", <https://api.example.com/repos?page=10>; rel="last""#;
    assert_eq!(parse_next_link(h), Some("https://api.example.com/repos?page=2".to_string()));
}

#[test]
fn parses_next_link_returns_none_without_rel_next() {
    let h = r#"<https://api.example.com/repos?page=10>; rel="last""#;
    assert_eq!(parse_next_link(h), None);
}

#[test]
fn parses_next_link_handles_single_rel_next() {
    let h = r#"<https://gitlab.com/api/v4/projects?page=3>; rel="next""#;
    assert_eq!(parse_next_link(h), Some("https://gitlab.com/api/v4/projects?page=3".to_string()));
}

#[test]
fn escapes_control_characters() {
    assert_eq!(escape_graphql_string("a\nb\tc\rd"), "a\\nb\\tc\\rd");
    assert_eq!(external_system_query("git\"hub"), "{ getByExternalSystem(external_system: \"git\\\"hub\") { id external_id canonical_id } }");
}

#[test]
fn lookup_reply_is_read_by_external_id() {
    let reply = IngestReply {
        error_count: 0,
        rows: Some(vec![
            IngestRow { external_id: Some("x".into()), canonical_id: Some("c-x".into()) },
            IngestRow { external_id: Some("y".into()), canonical_id: None },
            IngestRow { external_id: Some("y".into()), canonical_id: Some("c-y".into()) },
        ]),
    };
    assert_eq!(canonical_id_from_reply(&reply, "x"), Ok(Some("c-x".to_string())));
    assert_eq!(canonical_id_from_reply(&reply, "y"), Ok(None));
    assert_eq!(canonical_id_from_reply(&reply, "z"), Ok(None));
    let failed = IngestReply { error_count: 2, rows: None };
    assert_eq!(canonical_id_from_reply(&failed, "x"), Err(ReplyError::GraphqlErrors));
}

#[test]
fn upsert_targets_existing_rows_or_the_collection() {
    match upsert_write("http://gw:3050//", "/deployable/api", Some("c1".into())) {
        UpsertWrite::Put { url, canonical_id } => {
            assert_eq!(url, "http://gw:3050/deployable/api/c1");
            assert_eq!(canonical_id, "c1");
        }
        other => panic!("unexpected {other:?}"),
    }
    match upsert_write("http://gw:3050", "/deployable/api", None) {
        UpsertWrite::Post { url } => assert_eq!(url, "http://gw:3050/deployable/api"),
        other => panic!("unexpected {other:?}"),
    }
    assert_eq!(ingestion_api_url("http://in:3054/"), "http://in:3054/ingestion/api");
    assert_eq!(ingestion_graph_url("http://in:3054"), "http://in:3054/ingestion/graph");
}

#[test]
fn github_statuses_map_onto_yard() {
    let s = |x: &str| Some(x.to_string());
    assert_eq!(github_status_to_yard(&s("success"), &s("completed")), "passed");
    assert_eq!(github_status_to_yard(&s("failure"), &None), "failed");
    assert_eq!(github_status_to_yard(&s("skipped"), &None), "cancelled");
    assert_eq!(github_status_to_yard(&s("timed_out"), &None), "errored");
    assert_eq!(github_status_to_yard(&s("weird"), &None), "errored");
    assert_eq!(github_status_to_yard(&None, &s("in_progress")), "running");
    assert_eq!(github_status_to_yard(&None, &s("queued")), "pending");
    assert_eq!(github_status_to_yard(&None, &None), "pending");
}

#[test]
fn gitlab_statuses_map_onto_yard() {
    let s = |x: &str| Some(x.to_string());
    assert_eq!(gitlab_status_to_yard(&s("success")), "passed");
    assert_eq!(gitlab_status_to_yard(&s("failed")), "failed");
    assert_eq!(gitlab_status_to_yard(&s("canceled")), "cancelled");
    assert_eq!(gitlab_status_to_yard(&s("running")), "running");
    assert_eq!(gitlab_status_to_yard(&s("manual")), "pending");
    assert_eq!(gitlab_status_to_yard(&None), "errored");
}

#[test]
fn days_from_civil_counts_from_the_epoch() {
    assert_eq!(days_from_civil(1970, 1, 1), 0);
    assert_eq!(days_from_civil(1970, 1, 2), 1);
    assert_eq!(days_from_civil(2000, 3, 1), 11017);
    assert_eq!(days_from_civil(1969, 12, 31), -1);
    assert_eq!(days_from_civil(2026, 5, 13), 20586);
}

#[test]
fn durations_are_whole_minutes() {
    assert_eq!(compute_duration_minutes("2026-05-13T15:23:04Z", "2026-05-13T15:33:05Z"), "10");
    assert_eq!(compute_duration_minutes("2026-05-13T15:23:04Z", "2026-05-14T15:23:04.5Z"), "1440");
    assert_eq!(compute_duration_minutes("2026-05-13T15:23:04Z", "2026-05-13T15:22:34Z"), "0");
    assert_eq!(compute_duration_minutes("2026-05-13T15:23:04Z", "2026-05-13T15:13:04Z"), "");
    assert_eq!(compute_duration_minutes("", "2026-05-13T15:13:04Z"), "");
    assert_eq!(compute_duration_minutes("2026-05-13", "2026-05-13T15:13:04Z"), "");
}

#[test]
fn integers_parse_as_from_str_does() {
    assert_eq!(parse_i64("42"), Some(42));
    assert_eq!(parse_i64("+7"), Some(7));
    assert_eq!(parse_i64("-9223372036854775808"), Some(i64::MIN));
    assert_eq!(parse_i64("9223372036854775808"), None);
    assert_eq!(parse_i64("-"), None);
    assert_eq!(parse_i64(""), None);
    assert_eq!(parse_i64("1a"), None);
}

#[test]
fn path_segments_are_percent_encoded() {
    assert_eq!(encode_path_segment("group/sub project"), "group%2Fsub%20project");
    assert_eq!(encode_path_segment("a-b._~Z9"), "a-b._~Z9");
    assert_eq!(encode_path("é"), "%C3%A9");
}

#[test]
fn durations_are_checked_before_computing() {
    assert!(duration_in_range("2026-05-13T15:23:04Z", "2026-05-13T15:33:05Z"));
    assert!(duration_in_range("not a time", "2026-05-13T15:33:05Z"));
    assert!(duration_in_range("2026-05-13T15:23:04Z", "garbage"));
    assert!(!duration_in_range("9223372036854775807-01-01T00:00:00Z", "2026-05-13T15:33:05Z"));
    assert!(!duration_in_range("2026-05-13T00:00:00Z", "2026-05-13T9223372036854775807:00:00Z"));
}

#[test]
fn okta_users_are_named_by_name_then_email_then_id() {
    let s = |x: &str| Some(x.to_string());
    assert_eq!(display_name(&s("Ada"), &s("Lovelace"), &s("ada@x.io"), "u1"), "Ada Lovelace");
    assert_eq!(display_name(&s("Ada"), &None, &s("ada@x.io"), "u1"), "Ada");
    assert_eq!(display_name(&None, &s(" Lovelace "), &None, "u1"), "Lovelace");
    assert_eq!(display_name(&None, &None, &s("ada@x.io"), "u1"), "ada@x.io");
    assert_eq!(display_name(&s("  "), &None, &None, "u1"), "u1");
}

#[test]
fn a_second_upsert_updates_the_record_the_first_created() {
    let row = |x: &str, c: &str| IngestRow { external_id: Some(x.to_string()), canonical_id: Some(c.to_string()) };
    let first = IngestReply { error_count: 0, rows: Some(vec![row("other", "c-o")]) };
    let existing = canonical_id_from_reply(&first, "octo/hello").unwrap();
    assert_eq!(existing, None);
    assert!(matches!(upsert_write("http://gw/", "/deployable/api", existing), UpsertWrite::Post { .. }));
    let later = IngestReply {
        error_count: 0,
        rows: Some(vec![row("other", "c-o"), row("octo/hello", "c-1"), row("octo/hello", "c-2")]),
    };
    let again = canonical_id_from_reply(&later, "octo/hello").unwrap();
    assert_eq!(again, Some("c-1".to_string()));
    match upsert_write("http://gw/", "/deployable/api", again) {
        UpsertWrite::Put { url, canonical_id } => {
            assert_eq!(url, "http://gw/deployable/api/c-1");
            assert_eq!(canonical_id, "c-1");
        }
        UpsertWrite::Post { .. } => panic!("expected a PUT"),
    }
}
