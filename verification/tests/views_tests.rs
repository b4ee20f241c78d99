use grain_ws::json::{Action, SavedUiViewData, ViewInfoData};
use grain_ws::views::SavedUiViewSet;

fn demo_set() -> SavedUiViewSet {
    SavedUiViewSet::new(String::from("my collection"))
}

#[test]
fn insert_then_lookup() {
    let mut set = demo_set();
    let action = set.insert(
        String::from("tok1"),
        String::from("First"),
        10,
        Some(String::from("alice")),
    );
    match action {
        Action::Insert { token, data } => {
            assert_eq!(token, "tok1");
            assert_eq!(data.title, "First");
        }
        other => panic!("unexpected action: {}", other.to_json()),
    }
    let found = set.get_saved_data("tok1").unwrap();
    assert_eq!(found.title, "First");
    assert_eq!(found.date_added, 10);
    assert!(set.get_saved_data("tok2").is_none());
}

#[test]
fn insert_replaces_under_same_token() {
    let mut set = demo_set();
    set.insert(String::from("t"), String::from("Old"), 1, None);
    set.insert(String::from("t"), String::from("New"), 2, None);
    assert_eq!(set.views.len(), 1);
    assert_eq!(set.get_saved_data("t").unwrap().title, "New");
}

#[test]
fn remove_drops_the_view() {
    let mut set = demo_set();
    set.insert(String::from("a"), String::from("A"), 1, None);
    set.insert(String::from("b"), String::from("B"), 2, None);
    let action = set.remove("a");
    match action {
        Action::Remove { token } => assert_eq!(token, "a"),
        other => panic!("unexpected action: {}", other.to_json()),
    }
    assert!(set.get_saved_data("a").is_none());
    assert_eq!(set.get_saved_data("b").unwrap().title, "B");
    // removing a missing token is harmless
    set.remove("zzz");
    assert_eq!(set.views.len(), 1);
}

#[test]
fn new_subscriber_replays_state_in_order() {
    let mut set = demo_set();
    set.insert(String::from("t1"), String::from("One"), 1, None);
    set.insert(String::from("t2"), String::from("Two"), 2, None);
    set.set_view_info(
        String::from("t1"),
        Ok(ViewInfoData {
            app_title: String::from("App"),
            grain_icon_url: String::from("u"),
        }),
    );
    let (id, actions) = set.new_subscriber(true, Some(String::from("alice")));
    assert_eq!(id, 0);
    assert_eq!(set.next_id, 1);
    assert!(set.subscribers.contains(&id));
    assert_eq!(actions.len(), 6);
    assert_eq!(actions[0].to_json(), "{\"canWrite\":true}");
    assert_eq!(actions[1].to_json(), "{\"userId\":\"alice\"}");
    assert_eq!(actions[2].to_json(), "{\"description\":\"my collection\"}");
    assert!(actions[3].to_json().starts_with("{\"insert\":{\"token\":\"t1\""));
    assert!(actions[4].to_json().starts_with("{\"insert\":{\"token\":\"t2\""));
    assert!(actions[5].to_json().starts_with("{\"viewInfo\":{\"token\":\"t1\""));
}

#[test]
fn unsubscribe_forgets_the_handle() {
    let mut set = demo_set();
    let (id1, _) = set.new_subscriber(false, None);
    let (id2, _) = set.new_subscriber(true, None);
    set.unsubscribe(id1);
    assert!(!set.subscribers.contains(&id1));
    assert!(set.subscribers.contains(&id2));
    // unsubscribing twice is harmless
    set.unsubscribe(id1);
    assert_eq!(set.subscribers.len(), 1);
}

#[test]
fn description_update_produces_event() {
    let mut set = demo_set();
    let action = set.update_description(String::from("new text"));
    assert_eq!(action.to_json(), "{\"description\":\"new text\"}");
    assert_eq!(set.description, "new text");
}

#[test]
fn view_info_failure_is_recorded() {
    let mut set = demo_set();
    let action = set.set_view_info(String::from("t"), Err(String::from("unreachable")));
    assert_eq!(
        action.to_json(),
        "{\"viewInfo\":{\"token\":\"t\",\"failed\": \"unreachable\" } }"
    );
    assert_eq!(set.view_infos.len(), 1);
    let again = set.set_view_info(
        String::from("t"),
        Ok(ViewInfoData {
            app_title: String::from("A"),
            grain_icon_url: String::from("u"),
        }),
    );
    assert_eq!(
        again.to_json(),
        "{\"viewInfo\":{\"token\":\"t\",\"data\":{\"appTitle\":\"A\",\"grainIconUrl\":\"u\"} } }"
    );
    assert_eq!(set.view_infos.len(), 1);
}

#[test]
fn saved_view_record_roundtrip() {
    let d = SavedUiViewData {
        title: String::from("x"),
        date_added: 9,
        added_by: None,
    };
    let copy = d.duplicate();
    assert_eq!(copy.title, d.title);
    assert_eq!(copy.date_added, d.date_added);
    assert!(copy.added_by.is_none());
}
