use bevy_realtime::json::{Json, Member};

fn sample() -> Json {
    Json::object(vec![
        Member::new("a", Json::text("x")),
        Member::new("n", Json::number(42)),
        Member::new("list", Json::array(vec![Json::Null, Json::Bool(true)])),
        Member::new("a", Json::text("second")),
        Member::new("inner", Json::object(vec![Member::new("k", Json::Number("-1.5".to_string()))])),
    ])
}

#[test]
fn get_finds_the_first_member_with_the_key() {
    let json = sample();
    assert_eq!(json.get("a"), Some(&Json::Text("x".to_string())));
    assert_eq!(json.get("missing"), None);
    assert_eq!(json.get(""), None);
    assert_eq!(Json::Null.get("a"), None);
    assert_eq!(Json::Array(vec![sample()]).get("a"), None);
    assert_eq!(json.get("inner").unwrap().get("k"), Some(&Json::Number("-1.5".to_string())));
}

#[test]
fn accessors_give_what_the_value_holds() {
    let json = sample();
    assert_eq!(json.get("a").unwrap().as_text(), Some(&"x".to_string()));
    assert_eq!(json.get("n").unwrap().as_text(), None);
    assert_eq!(json.get("n").unwrap().as_u64(), Some(42));
    assert_eq!(json.get("a").unwrap().as_u64(), None);
    assert_eq!(json.get("inner").unwrap().get("k").unwrap().as_u64(), None);
    assert_eq!(json.get("list").unwrap().as_items(), Some(&vec![Json::Null, Json::Bool(true)]));
    assert_eq!(json.get("n").unwrap().as_items(), None);
    assert_eq!(json.as_members().unwrap().len(), 5);
    assert_eq!(Json::Bool(false).as_members(), None);
    assert_eq!(Json::number(0), Json::Number("0".to_string()));
    assert_eq!(Json::number(u64::MAX).as_u64(), Some(u64::MAX));
}

#[test]
fn clone_is_a_deep_copy() {
    let json = sample();
    let copy = json.clone();
    assert_eq!(copy, json);
    let member = Member::new("k", sample());
    assert_eq!(member.clone(), member);
}
