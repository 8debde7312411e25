use bevy_realtime::json::{Json, Member};
use bevy_realtime::presence::{PresenceDiff, PresenceMeta, PresenceState};

fn meta(r: &str) -> PresenceMeta {
    PresenceMeta { phx_ref: r.to_string(), payload: Json::Object(Vec::new()) }
}

fn meta_with(r: &str, key: &str, value: &str) -> PresenceMeta {
    PresenceMeta {
        phx_ref: r.to_string(),
        payload: Json::Object(vec![Member {
            key: key.to_string(),
            value: Json::Text(value.to_string()),
        }]),
    }
}

fn state(entries: &[(&str, &[&str])]) -> PresenceState {
    let mut s = PresenceState::new();
    for (key, refs) in entries {
        for r in refs.iter() {
            assert!(s.track(key, meta(r)));
        }
    }
    s
}

fn refs(s: &PresenceState, key: &str) -> Vec<String> {
    match s.get(key) {
        Some(metas) => metas.iter().map(|m| m.phx_ref.clone()).collect(),
        None => Vec::new(),
    }
}

#[test]
fn join_then_leave_on_empty_state() {
    let empty = PresenceState::new();
    let diff = PresenceDiff { joins: state(&[("u1", &["r1"])]), leaves: PresenceState::new() };
    let out = empty.merge(&diff);
    assert_eq!(out.next.len(), 1);
    assert_eq!(out.next.get("u1"), Some(&vec![meta("r1")]));
    assert_eq!(out.joined.len(), 1);
    assert_eq!(out.joined.get("u1"), Some(&vec![meta("r1")]));
    assert!(out.left.is_empty());

    let diff = PresenceDiff { joins: PresenceState::new(), leaves: state(&[("u1", &["r1"])]) };
    let out2 = out.next.merge(&diff);
    assert!(out2.next.is_empty());
    assert_eq!(out2.next.get("u1"), None);
    assert_eq!(out2.left.len(), 1);
    assert_eq!(out2.left.get("u1"), Some(&vec![meta("r1")]));
    assert!(out2.joined.is_empty());
}

#[test]
fn leave_removes_only_the_named_refs() {
    let s = state(&[("u1", &["r1", "r2", "r3"]), ("u2", &["r9"])]);
    let diff = PresenceDiff { joins: PresenceState::new(), leaves: state(&[("u1", &["r2"])]) };
    let out = s.merge(&diff);
    assert_eq!(refs(&out.next, "u1"), vec!["r1", "r3"]);
    assert_eq!(refs(&out.next, "u2"), vec!["r9"]);
    assert_eq!(refs(&out.left, "u1"), vec!["r2"]);
    assert_eq!(out.left.len(), 1);
}

#[test]
fn join_appends_behind_existing_metas() {
    let s = state(&[("u1", &["r1"])]);
    let diff = PresenceDiff { joins: state(&[("u1", &["r2"]), ("u3", &["r7"])]), leaves: PresenceState::new() };
    let out = s.merge(&diff);
    assert_eq!(refs(&out.next, "u1"), vec!["r1", "r2"]);
    assert_eq!(refs(&out.next, "u3"), vec!["r7"]);
    assert_eq!(refs(&out.joined, "u1"), vec!["r1", "r2"]);
    assert_eq!(refs(&out.joined, "u3"), vec!["r7"]);
    assert_eq!(out.joined.len(), 2);
    assert_eq!(out.next.len(), 2);
}

#[test]
fn rejoining_ref_replaces_the_old_meta() {
    let mut s = PresenceState::new();
    assert!(s.track("u1", meta_with("r1", "Location", "UK")));
    assert!(s.track("u1", meta("r2")));
    let mut joins = PresenceState::new();
    assert!(joins.track("u1", meta_with("r1", "Location", "FR")));
    let out = s.merge(&PresenceDiff { joins, leaves: PresenceState::new() });
    assert_eq!(out.next.get("u1"), Some(&vec![meta("r2"), meta_with("r1", "Location", "FR")]));
}

#[test]
fn track_rejects_a_ref_already_under_the_key() {
    let mut s = PresenceState::new();
    assert!(s.track("u1", meta("r1")));
    assert!(!s.track("u1", meta_with("r1", "a", "b")));
    assert!(s.track("u2", meta("r1")));
    assert_eq!(s.len(), 2);
    assert_eq!(s.get("u1"), Some(&vec![meta("r1")]));
    let mut keys = s.keys();
    keys.sort();
    assert_eq!(keys, vec!["u1".to_string(), "u2".to_string()]);
}

#[test]
fn merge_of_two_diffs_equals_merge_of_their_combination() {
    let s = state(&[("a", &["1", "2"]), ("b", &["3"]), ("c", &["4"])]);
    let d1 = PresenceDiff {
        joins: state(&[("a", &["5"]), ("d", &["6", "7"])]),
        leaves: state(&[("a", &["1"]), ("b", &["3"]), ("d", &["6"])]),
    };
    let d2 = PresenceDiff {
        joins: state(&[("b", &["3"]), ("a", &["1", "8"]), ("e", &["9"])]),
        leaves: state(&[("a", &["5"]), ("c", &["4"]), ("d", &["7"]), ("e", &["9"])]),
    };
    let step = s.merge(&d1).next.merge(&d2).next;
    let both = s.merge(&d1.combine(&d2)).next;
    for key in ["a", "b", "c", "d", "e", "f"] {
        assert_eq!(step.get(key), both.get(key), "key {}", key);
    }
    assert_eq!(step.len(), both.len());
    assert_eq!(refs(&step, "a"), vec!["2", "1", "8"]);
    assert_eq!(refs(&step, "b"), vec!["3"]);
    assert_eq!(step.get("c"), None);
    assert_eq!(step.get("d"), None);
    assert_eq!(step.get("e"), None);
}

#[test]
fn clone_keeps_the_state() {
    let s = state(&[("a", &["1", "2"]), ("b", &["3"])]);
    let t = s.clone();
    assert_eq!(t.len(), 2);
    assert_eq!(t.get("a"), s.get("a"));
    assert_eq!(t.get("b"), s.get("b"));
}

#[test]
fn insert_takes_only_well_formed_entries() {
    let mut s = PresenceState::new();
    assert!(s.insert("u1".to_string(), vec![meta("r1"), meta("r2")]));
    assert!(!s.insert("u1".to_string(), vec![meta("r3")]));
    assert!(!s.insert("u2".to_string(), Vec::new()));
    assert!(!s.insert("u2".to_string(), vec![meta("r1"), meta("r1")]));
    assert!(s.insert("u2".to_string(), vec![meta("r1")]));
    assert_eq!(s.len(), 2);
    assert_eq!(refs(&s, "u1"), vec!["r1", "r2"]);
    assert_eq!(s.metas_of(&"u2".to_string()), vec![meta("r1")]);
    assert!(s.metas_of(&"nobody".to_string()).is_empty());
}

#[test]
fn join_and_leave_of_one_ref_in_one_diff_cancel_out() {
    let s = state(&[("u1", &["r1"])]);
    let diff = PresenceDiff { joins: state(&[("u2", &["r2"])]), leaves: state(&[("u2", &["r2"])]) };
    let out = s.merge(&diff);
    assert_eq!(out.next.len(), 1);
    assert_eq!(out.next.get("u2"), None);
    assert!(out.joined.is_empty());
    assert_eq!(refs(&out.left, "u2"), vec!["r2"]);
}

#[test]
fn leave_of_an_unknown_key_or_ref_changes_nothing() {
    let s = state(&[("u1", &["r1"])]);
    let diff = PresenceDiff {
        joins: PresenceState::new(),
        leaves: state(&[("u1", &["zz"]), ("ghost", &["r1"])]),
    };
    let out = s.merge(&diff);
    assert_eq!(refs(&out.next, "u1"), vec!["r1"]);
    assert_eq!(out.next.len(), 1);
    assert!(out.left.is_empty());
    assert!(out.joined.is_empty());
}

#[test]
fn combine_keeps_a_ref_that_left_and_came_back() {
    let d1 = PresenceDiff { joins: PresenceState::new(), leaves: state(&[("u", &["r"])]) };
    let d2 = PresenceDiff { joins: state(&[("u", &["r"])]), leaves: PresenceState::new() };
    let both = d1.combine(&d2);
    assert_eq!(refs(&both.joins, "u"), vec!["r"]);
    assert!(both.leaves.is_empty());
    let s = state(&[("u", &["r", "q"])]);
    assert_eq!(refs(&s.merge(&both).next, "u"), vec!["q", "r"]);
    assert_eq!(refs(&s.merge(&d1).next.merge(&d2).next, "u"), vec!["q", "r"]);
}
