use grain_ws::json::{
    json_escape_str, optional_string_to_json, u64_to_string, Action, ProfileData, SavedUiViewData,
    ViewInfoData,
};

#[test]
fn test_json_escape_string() {
    assert_eq!(json_escape_str("hello"), "\"hello\"");
    assert_eq!(json_escape_str("he\"\"llo"), "\"he\\\"\\\"llo\"");
}

#[test]
fn escape_control_characters() {
    assert_eq!(json_escape_str("a\nb"), "\"a\\nb\"");
    assert_eq!(json_escape_str("\t\r\u{8}\u{c}"), "\"\\t\\r\\b\\f\"");
    assert_eq!(json_escape_str("\u{0}\u{1f}\u{7f}"), "\"\\u0000\\u001f\\u007f\"");
    assert_eq!(json_escape_str("back\\slash"), "\"back\\\\slash\"");
}

#[test]
fn escape_leaves_unicode_alone() {
    assert_eq!(json_escape_str("héllo ☃"), "\"héllo ☃\"");
}

#[test]
fn u64_decimal_formatting() {
    assert_eq!(u64_to_string(0), "0");
    assert_eq!(u64_to_string(7), "7");
    assert_eq!(u64_to_string(1234567890), "1234567890");
    assert_eq!(u64_to_string(u64::MAX), "18446744073709551615");
}

#[test]
fn optional_string_json() {
    assert_eq!(optional_string_to_json(&None), "null");
    assert_eq!(
        optional_string_to_json(&Some(String::from("a\"b"))),
        "\"a\\\"b\""
    );
}

#[test]
fn saved_ui_view_data_json() {
    let d = SavedUiViewData {
        title: String::from("My \"Grain\""),
        date_added: 123,
        added_by: None,
    };
    assert_eq!(
        d.to_json(),
        "{\"title\":\"My \\\"Grain\\\"\",\"dateAdded\": \"123\",\"addedBy\":null}"
    );
    let d2 = SavedUiViewData {
        title: String::from("t"),
        date_added: 0,
        added_by: Some(String::from("alice")),
    };
    assert_eq!(
        d2.to_json(),
        "{\"title\":\"t\",\"dateAdded\": \"0\",\"addedBy\":\"alice\"}"
    );
}

#[test]
fn view_info_data_json() {
    let v = ViewInfoData {
        app_title: String::from("App"),
        grain_icon_url: String::from("https://icons/x.png"),
    };
    assert_eq!(
        v.to_json(),
        "{\"appTitle\":\"App\",\"grainIconUrl\":\"https://icons/x.png\"}"
    );
}

#[test]
fn profile_data_json() {
    let p = ProfileData {
        display_name: String::from("Alice"),
        picture_url: String::from("https://pic"),
    };
    assert_eq!(
        p.to_json(),
        "{\"pictureUrl\":\"https://pic\", \"displayName\":\"Alice\"}"
    );
}

#[test]
fn action_json_forms() {
    let insert = Action::Insert {
        token: String::from("TOK"),
        data: SavedUiViewData {
            title: String::from("t"),
            date_added: 5,
            added_by: None,
        },
    };
    assert_eq!(
        insert.to_json(),
        "{\"insert\":{\"token\":\"TOK\",\"data\":{\"title\":\"t\",\"dateAdded\": \"5\",\"addedBy\":null} } }"
    );
    let remove = Action::Remove {
        token: String::from("TOK"),
    };
    assert_eq!(remove.to_json(), "{\"remove\":{\"token\":\"TOK\"}}");
    let vi_ok = Action::ViewInfo {
        token: String::from("T"),
        data: Ok(ViewInfoData {
            app_title: String::from("A"),
            grain_icon_url: String::from("u"),
        }),
    };
    assert_eq!(
        vi_ok.to_json(),
        "{\"viewInfo\":{\"token\":\"T\",\"data\":{\"appTitle\":\"A\",\"grainIconUrl\":\"u\"} } }"
    );
    let vi_err = Action::ViewInfo {
        token: String::from("T"),
        data: Err(String::from("boom")),
    };
    assert_eq!(
        vi_err.to_json(),
        "{\"viewInfo\":{\"token\":\"T\",\"failed\": \"boom\" } }"
    );
    assert_eq!(Action::CanWrite(true).to_json(), "{\"canWrite\":true}");
    assert_eq!(Action::CanWrite(false).to_json(), "{\"canWrite\":false}");
    assert_eq!(Action::UserId(None).to_json(), "{\"userId\":null}");
    assert_eq!(
        Action::Description(String::from("d")).to_json(),
        "{\"description\":\"d\"}"
    );
    let user = Action::User {
        id: String::from("id1"),
        data: ProfileData {
            display_name: String::from("N"),
            picture_url: String::from("p"),
        },
    };
    assert_eq!(
        user.to_json(),
        "{\"user\":{\"id\":\"id1\", \"data\":{\"pictureUrl\":\"p\", \"displayName\":\"N\"} }}"
    );
}
