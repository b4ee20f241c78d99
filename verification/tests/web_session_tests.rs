use grain_ws::web_session::{
    require_canonical_path, route_delete, route_get, route_post, static_asset_url, DeleteRoute,
    GetRoute, PostRoute, PutRoute, WebSession,
};
use grain_ws::web_session::route_put;

#[test]
fn session_reads_permission_bit_and_identity() {
    let s = WebSession::new(&vec![true, false], Some(&[0x01, 0xff]));
    assert!(s.can_write);
    assert_eq!(s.identity_id.as_deref(), Some("01ff"));
    let s2 = WebSession::new(&vec![], None);
    assert!(!s2.can_write);
    assert!(s2.identity_id.is_none());
    let s3 = WebSession::new(&vec![false, true], None);
    assert!(!s3.can_write);
}

#[test]
fn get_routes() {
    assert_eq!(route_get(""), GetRoute::Home);
    assert_eq!(route_get("script.js"), GetRoute::Script);
    assert_eq!(route_get("style.css"), GetRoute::Style);
    assert_eq!(route_get("other.txt"), GetRoute::NotFound);
}

#[test]
fn post_routes() {
    match route_post("token/abc123") {
        PostRoute::Token(t) => assert_eq!(t, "abc123"),
        other => panic!("unexpected route: {:?}", other),
    }
    match route_post("offer/xyz") {
        PostRoute::Offer(t) => assert_eq!(t, "xyz"),
        other => panic!("unexpected route: {:?}", other),
    }
    match route_post("refresh/t0") {
        PostRoute::Refresh(t) => assert_eq!(t, "t0"),
        other => panic!("unexpected route: {:?}", other),
    }
    assert!(matches!(route_post("elsewhere"), PostRoute::NotFound));
    assert!(matches!(route_post("token"), PostRoute::NotFound));
}

#[test]
fn put_routes() {
    assert_eq!(route_put("description"), PutRoute::Description);
    assert_eq!(route_put("something"), PutRoute::NotFound);
}

#[test]
fn delete_routes() {
    match route_delete("sturdyref/abc") {
        DeleteRoute::Sturdyref(t) => assert_eq!(t, "abc"),
        other => panic!("unexpected route: {:?}", other),
    }
    assert!(matches!(route_delete("token/abc"), DeleteRoute::Unsupported));
}

#[test]
fn canonical_paths_pass() {
    assert!(require_canonical_path("").is_ok());
    assert!(require_canonical_path("style.css").is_ok());
    assert!(require_canonical_path("a/b/c").is_ok());
    assert!(require_canonical_path("a/b/").is_ok());
    assert!(require_canonical_path("...dots/are.fine").is_ok());
}

#[test]
fn injection_paths_fail() {
    assert!(require_canonical_path(".").is_err());
    assert!(require_canonical_path("..").is_err());
    assert!(require_canonical_path("a/../b").is_err());
    assert!(require_canonical_path("a/.").is_err());
    assert!(require_canonical_path("a//b").is_err());
    assert!(require_canonical_path("a//").is_err());
}

#[test]
fn asset_url_text() {
    assert_eq!(static_asset_url(true, "host/icon.png"), "https://host/icon.png");
    assert_eq!(static_asset_url(false, "h"), "http://h");
}
