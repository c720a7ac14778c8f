use manifold::union::rollups::{
    assignments_for_person, env_id, members_of_team, payload_i64, payload_str, points_in_range, team_capacity, Envelope,
    JsonField,
};

fn env(id: &str, payload: Vec<(&str, JsonField)>) -> Envelope {
    Envelope {
        fields: vec![("id".to_string(), JsonField::Text(id.to_string()))],
        payload: Some(payload.into_iter().map(|(k, v)| (k.to_string(), v)).collect()),
    }
}

fn text(s: &str) -> JsonField {
    JsonField::Text(s.to_string())
}

#[test]
fn custom_capabilities_payload_i64_treats_missing_as_zero() {
    let e = env("wo-1", vec![("team_id", text("t"))]);
    assert_eq!(payload_i64(&e, "story_points"), 0);
}

#[test]
fn custom_capabilities_payload_i64_treats_null_as_zero() {
    let e = env("wo-1", vec![("story_points", JsonField::Other)]);
    assert_eq!(payload_i64(&e, "story_points"), 0);
}

#[test]
fn custom_capabilities_payload_i64_reads_nested() {
    let e = env("wo-1", vec![("story_points", JsonField::Integer(5))]);
    assert_eq!(payload_i64(&e, "story_points"), 5);
}

#[test]
fn custom_capabilities_payload_str_reads_flat_fallback() {
    let e = Envelope {
        fields: vec![("id".to_string(), text("p-1")), ("name".to_string(), text("Ada"))],
        payload: None,
    };
    assert_eq!(payload_str(&e, "name"), "Ada");
}

#[test]
fn tools_payload_i64_treats_missing_as_zero() {
    let e = env("wo-1", vec![("team_id", text("t"))]);
    assert_eq!(payload_i64(&e, "story_points"), 0);
}

#[test]
fn tools_payload_i64_treats_null_as_zero() {
    let e = env("wo-1", vec![("story_points", JsonField::Other)]);
    assert_eq!(payload_i64(&e, "story_points"), 0);
}

#[test]
fn tools_payload_i64_reads_nested() {
    let e = env("wo-1", vec![("story_points", JsonField::Integer(5))]);
    assert_eq!(payload_i64(&e, "story_points"), 5);
}

#[test]
fn tools_payload_str_reads_flat_fallback() {
    let e = Envelope {
        fields: vec![("id".to_string(), text("p-1")), ("name".to_string(), text("Ada"))],
        payload: None,
    };
    assert_eq!(payload_str(&e, "name"), "Ada");
}

fn wo(id: &str, team: &str, status: &str, points: i64) -> Envelope {
    env(id, vec![("team_id", text(team)), ("status", text(status)), ("story_points", JsonField::Integer(points as i128))])
}

#[test]
fn team_capacity_sums_open_work() {
    let teams = vec![env("t1", vec![("name", text("Payments"))]), env("t2", vec![("name", text("Other"))])];
    let wos = vec![wo("w1", "t1", "open", 3), wo("w2", "t1", "done", 8), wo("w3", "t1", "in_progress", 5), wo("w4", "t2", "open", 13)];
    let members = vec![
        env("m1", vec![("team_id", text("t1")), ("person_id", text("p1"))]),
        env("m2", vec![("team_id", text("t1")), ("person_id", text("p2"))]),
        env("m3", vec![("team_id", text("t2")), ("person_id", text("p1"))]),
    ];
    let c = team_capacity("t1", &teams, &wos, &members);
    assert_eq!(c.team_id, "t1");
    assert_eq!(c.team_name, "Payments");
    assert_eq!(c.points_in_flight, 8);
    assert_eq!(c.open_work_order_count, 2);
    assert_eq!(c.member_count, 2);
    let unknown = team_capacity("t9", &teams, &wos, &members);
    assert_eq!(unknown.team_name, "");
    assert_eq!(unknown.points_in_flight, 0);
}

#[test]
fn members_and_assignments_follow_team_member_rows() {
    let members = vec![
        env("m1", vec![("team_id", text("t1")), ("person_id", text("p1"))]),
        env("m2", vec![("team_id", text("t1")), ("person_id", text(""))]),
        env("m3", vec![("team_id", text("t2")), ("person_id", text("p2"))]),
    ];
    let persons = vec![env("p2", vec![]), env("p1", vec![]), env("p3", vec![])];
    let on_team = members_of_team("t1", &members, &persons);
    let ids: Vec<String> = on_team.iter().map(env_id).collect();
    assert_eq!(ids, vec!["p1".to_string()]);
    let wos = vec![wo("w1", "t1", "open", 1), wo("w2", "t1", "done", 1), wo("w3", "t2", "open", 1)];
    let mine = assignments_for_person("p1", &members, &wos);
    let ids: Vec<String> = mine.iter().map(env_id).collect();
    assert_eq!(ids, vec!["w1".to_string()]);
}

#[test]
fn story_point_totals_are_checked_for_overflow() {
    let wo = |team: &str, status: &str, points: i128| {
        env(
            "w",
            vec![
                ("team_id", text(team)),
                ("status", text(status)),
                ("story_points", JsonField::Integer(points)),
            ],
        )
    };
    let fine = vec![wo("t1", "open", 5), wo("t1", "done", i64::MAX as i128), wo("t2", "open", 7)];
    assert!(points_in_range(&fine, "t1"));
    let big = vec![wo("t1", "open", i64::MAX as i128), wo("t1", "open", 1), wo("t1", "open", -5)];
    assert!(!points_in_range(&big, "t1"));
    assert!(points_in_range(&big, "t2"));
}
