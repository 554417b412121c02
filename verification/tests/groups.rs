use gtnh_updater::groups::{register, register_in_group, Json};

const FILE: &str = r#"{"formatVersion":"1","groups":{"GTNH":{"hidden":false,"instances":["old","other"]},"Z":{"hidden":true,"instances":["zed",3.5]}}}"#;

#[test]
fn the_new_instance_joins_the_old_one() {
    let after = register_in_group(FILE, "old", "new").unwrap();
    let v: serde_json::Value = serde_json::from_str(&after).unwrap();
    let list = |group: &str| -> Vec<String> {
        v["groups"][group]["instances"]
            .as_array()
            .unwrap()
            .iter()
            .map(|i| i.to_string())
            .collect()
    };
    assert_eq!(list("GTNH"), vec!["\"old\"", "\"other\"", "\"new\""]);
    assert_eq!(list("Z"), vec!["\"zed\"", "3.5"]);
    assert_eq!(v["formatVersion"], "1");
    assert_eq!(v["groups"]["Z"]["hidden"], true);
    assert!(after.contains("\n  \"formatVersion\": \"1\""));
}

#[test]
fn joining_twice_changes_nothing() {
    let once = register_in_group(FILE, "old", "new").unwrap();
    let twice = register_in_group(&once, "old", "new").unwrap();
    assert_eq!(once, twice);
}

#[test]
fn without_a_group_the_file_stays() {
    assert_eq!(register_in_group(FILE, "nobody", "new"), None);
    assert_eq!(register_in_group("not json", "old", "new"), None);
    assert_eq!(register_in_group("{}", "old", "new"), None);
    assert_eq!(register_in_group(r#"{"groups":[]}"#, "old", "new"), None);
    assert_eq!(register_in_group(r#"{"groups":{"g":{"instances":"old"}}}"#, "old", "new"), None);
}

#[test]
fn values_are_changed_in_place() {
    let text = |s: &str| Json::Text(s.to_string());
    let file = Json::Fields(vec![
        ("a".into(), Json::Null),
        (
            "groups".into(),
            Json::Fields(vec![(
                "g".into(),
                Json::Fields(vec![
                    ("b".into(), Json::Bool(true)),
                    ("instances".into(), Json::List(vec![text("old")])),
                ]),
            )]),
        ),
        ("n".into(), Json::Number(12.into())),
    ]);
    let after = register(file, "old", "new").unwrap();
    assert_eq!(
        format!("{after:?}"),
        "Fields([(\"a\", Null), (\"groups\", Fields([(\"g\", Fields([(\"b\", Bool(true)), (\"instances\", List([Text(\"old\"), Text(\"new\")]))]))])), (\"n\", Number(Number(12)))])"
    );
    assert!(register(Json::List(vec![]), "old", "new").is_none());
}

#[test]
fn values_come_back_as_they_were_read() {
    let text = r#"{"z":[1,-2.5,null,true,"\u00e9"],"groups":{"g":{"instances":["old"],"hidden":false}},"a":{}}"#;
    let after = register_in_group(text, "old", "new").unwrap();
    assert_eq!(
        after,
        "{\n  \"a\": {},\n  \"groups\": {\n    \"g\": {\n      \"hidden\": false,\n      \"instances\": [\n        \"old\",\n        \"new\"\n      ]\n    }\n  },\n  \"z\": [\n    1,\n    -2.5,\n    null,\n    true,\n    \"é\"\n  ]\n}"
    );
}

/// Doing it again with what was written gives the same text.
#[test]
fn joining_again_adds_nothing() {
    let text = r#"{"groups":{"g":{"instances":["x","old"],"n":0.1}},"formatVersion":"1"}"#;
    let once = register_in_group(text, "old", "new").unwrap();
    let twice = register_in_group(&once, "old", "new").unwrap();
    assert_eq!(once, twice);
    assert_eq!(once.matches("new").count(), 1);
}
