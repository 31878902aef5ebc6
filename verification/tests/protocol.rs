use sharekaro::client::{handle_frame_text, ClientAction};
use sharekaro::cookie::Cookie;
use sharekaro::errors::DecodeError;
use sharekaro::identity::{RevokeTarget, TabIdentityMap};
use sharekaro::relay::BroadcastRelay;
use sharekaro::wire::{Frame, GrantMessage, RevokeCookie, RevokeMessage};

fn sid_cookie() -> Cookie {
    Cookie {
        name: "sid".to_string(),
        value: "xyz".to_string(),
        domain: ".example.com".to_string(),
        path: "/".to_string(),
        expires: None,
        secure: None,
        http_only: None,
        same_site: None,
        extra: Vec::new(),
    }
}

fn sid_grant() -> GrantMessage {
    GrantMessage {
        tab_id: "abc".to_string(),
        url: "example.com".to_string(),
        cookies: vec![sid_cookie()],
    }
}

#[test]
fn grant_round_trip() {
    let grant = sid_grant();
    let frame = Frame::Grant(grant);
    let text = frame.to_text().expect("a plain grant encodes");
    match Frame::from_text(&text) {
        Ok(Frame::Grant(g)) => {
            assert_eq!(g.tab_id, "abc");
            assert_eq!(g.url, "example.com");
            assert_eq!(g.cookies.len(), 1);
            assert_eq!(g.cookies[0].name, "sid");
            assert_eq!(g.cookies[0].value, "xyz");
            assert_eq!(g.cookies[0].domain, ".example.com");
            assert_eq!(g.cookies[0].path, "/");
            assert!(g.cookies[0].expires.is_none());
            assert!(g.cookies[0].extra.is_empty());
        }
        other => panic!("expected the grant back, got {:?}", other.map(|_| ())),
    }
}

#[test]
fn revoke_round_trip() {
    let revoke = RevokeMessage {
        tab_id: "abc".to_string(),
        cookies: vec![RevokeCookie {
            name: "sid".to_string(),
            domain: ".example.com".to_string(),
            path: "/".to_string(),
        }],
    };
    let text = Frame::Revoke(revoke).to_text().expect("a revoke encodes");
    match Frame::from_text(&text) {
        Ok(Frame::Revoke(m)) => {
            assert_eq!(m.tab_id, "abc");
            assert_eq!(m.cookies.len(), 1);
            assert_eq!(m.cookies[0].name, "sid");
            assert_eq!(m.cookies[0].domain, ".example.com");
            assert_eq!(m.cookies[0].path, "/");
        }
        other => panic!("expected the revoke back, got {:?}", other.map(|_| ())),
    }
}

#[test]
fn grant_text_carries_expected_fields() {
    let text = Frame::Grant(sid_grant()).to_text().unwrap();
    let v: serde_json::Value = serde_json::from_str(&text).unwrap();
    assert_eq!(v["type"], "Grant");
    assert_eq!(v["tab_id"], "abc");
    assert_eq!(v["url"], "example.com");
    assert_eq!(v["cookies"][0]["name"], "sid");
    assert_eq!(v["cookies"][0]["domain"], ".example.com");
    // absent attributes are left out, not sent as null
    assert!(v["cookies"][0].get("secure").is_none());
    assert!(v["cookies"][0].get("expires").is_none());
}

#[test]
fn malformed_frame_is_skipped_and_later_frames_still_decode() {
    let map = TabIdentityMap::new();
    // a Grant frame with no cookies field is skipped with a payload error
    match handle_frame_text(&map, "{\"type\":\"Grant\"}") {
        ClientAction::Skip(e) => assert_eq!(e, DecodeError::Payload),
        _ => panic!("a grant without cookies must be skipped"),
    }
    // the next, valid frame on the same connection is unaffected
    let text = Frame::Grant(sid_grant()).to_text().unwrap();
    match handle_frame_text(&map, &text) {
        ClientAction::OpenWithCookies(g) => assert_eq!(g.tab_id, "abc"),
        _ => panic!("the valid frame after a malformed one must still apply"),
    }
}

#[test]
fn each_decode_error_has_an_input() {
    let map = TabIdentityMap::new();
    let cases = [
        ("this is not json", DecodeError::Syntax),
        ("[1,2,3]", DecodeError::NotObject),
        ("{\"tab_id\":\"abc\"}", DecodeError::MissingType),
        ("{\"type\":7}", DecodeError::MissingType),
        ("{\"type\":\"Gossip\"}", DecodeError::UnknownType),
        ("{\"type\":\"Revoke\",\"cookies\":[]}", DecodeError::Payload),
    ];
    for (text, want) in cases {
        match handle_frame_text(&map, text) {
            ClientAction::Skip(e) => assert_eq!(e, want, "for {text}"),
            _ => panic!("{text} must be skipped"),
        }
    }
}

#[test]
fn relay_without_peers_accepts_publication_and_gives_no_backlog() {
    let mut relay = BroadcastRelay::new();
    // publishing with zero peers is not an error
    relay.publish_grant(&sid_grant());
    // a peer connecting afterwards does not receive history
    relay.connect();
    assert_eq!(relay.peer_count(), 1);
    let owed = relay.take_outbox(0);
    assert!(owed.is_empty(), "no replay for late peers");
}

#[test]
fn relay_delivers_exactly_one_frame_to_each_connected_peer() {
    let mut relay = BroadcastRelay::new();
    relay.connect();
    relay.connect();
    relay.connect();
    relay.publish_grant(&sid_grant());
    for i in 0..3 {
        let owed = relay.take_outbox(i);
        assert_eq!(owed.len(), 1, "peer {i} sees exactly one frame");
        match &owed[0] {
            Frame::Grant(g) => {
                assert_eq!(g.tab_id, "abc");
                assert_eq!(g.cookies[0].value, "xyz");
            }
            _ => panic!("peer {i} must see the grant"),
        }
    }
}

#[test]
fn relay_disconnect_leaves_other_peers_untouched() {
    let mut relay = BroadcastRelay::new();
    let _first = relay.connect();
    let second = relay.connect();
    relay.disconnect(second);
    assert_eq!(relay.peer_count(), 1);
    let revoke = RevokeMessage { tab_id: "abc".to_string(), cookies: Vec::new() };
    relay.publish_revoke(&revoke);
    let owed = relay.take_outbox(0);
    assert_eq!(owed.len(), 1);
    assert!(matches!(owed[0], Frame::Revoke(_)));
}

#[test]
fn identity_map_records_overwrites_and_resolves() {
    let mut map = TabIdentityMap::new();
    assert!(map.lookup("abc").is_none());
    map.record("abc".to_string(), "local-1".to_string());
    assert_eq!(map.lookup("abc").as_deref(), Some("local-1"));
    // a repeated grant for the same session overwrites, not appends
    map.record("abc".to_string(), "local-2".to_string());
    assert_eq!(map.lookup("abc").as_deref(), Some("local-2"));
    match map.resolve_revoke("abc") {
        RevokeTarget::Mapped(l) => assert_eq!(l, "local-2"),
        _ => panic!("a granted session resolves to its local page"),
    }
}

#[test]
fn revoke_for_unknown_session_falls_back_without_failing() {
    let map = TabIdentityMap::new();
    match map.resolve_revoke("never-seen") {
        RevokeTarget::Fallback(raw) => assert_eq!(raw, "never-seen"),
        _ => panic!("an unknown session resolves to a fallback"),
    }
    // and such a revoke frame still yields an action, not a stop
    let text = Frame::Revoke(RevokeMessage {
        tab_id: "never-seen".to_string(),
        cookies: Vec::new(),
    })
    .to_text()
    .unwrap();
    match handle_frame_text(&map, &text) {
        ClientAction::DeleteCookies { target, .. } => {
            assert!(matches!(target, RevokeTarget::Fallback(_)));
        }
        _ => panic!("a revoke for an unknown session is still an action"),
    }
}

#[test]
fn revoke_targets_the_locally_created_page() {
    let mut map = TabIdentityMap::new();
    // the client applied a grant for session "abc"; the page it opened
    // here is "local-42"
    map.record("abc".to_string(), "local-42".to_string());
    let text = Frame::Revoke(RevokeMessage {
        tab_id: "abc".to_string(),
        cookies: vec![RevokeCookie {
            name: "sid".to_string(),
            domain: ".example.com".to_string(),
            path: "/".to_string(),
        }],
    })
    .to_text()
    .unwrap();
    match handle_frame_text(&map, &text) {
        ClientAction::DeleteCookies { target, message } => {
            match target {
                RevokeTarget::Mapped(l) => assert_eq!(l, "local-42"),
                _ => panic!("the revoke must target the local page, not the session id"),
            }
            assert_eq!(message.cookies[0].name, "sid");
        }
        _ => panic!("a revoke frame maps to a deletion"),
    }
}

#[test]
fn float_expiry_and_unknown_fields_ride_through_the_loader() {
    let text = "[{\"name\":\"sid\",\"value\":\"xyz\",\"domain\":\".example.com\",\
                \"path\":\"/\",\"expires\":1764950400.5,\"partitionKey\":\"k\"}]";
    let cookies = sharekaro::cdp::universal_cookie_loader(text).expect("the array form loads");
    assert_eq!(cookies.len(), 1);
    assert!(cookies[0].expires.is_some());
    assert_eq!(cookies[0].extra.len(), 1);
    assert_eq!(cookies[0].extra[0].0, "partitionKey");
}

#[test]
fn encode_refuses_a_repeated_passthrough_key() {
    let mut c = sid_cookie();
    c.extra.push((
        "partitionKey".to_string(),
        sharekaro::json::JsonValue::Str("a".to_string()),
    ));
    c.extra.push((
        "partitionKey".to_string(),
        sharekaro::json::JsonValue::Str("b".to_string()),
    ));
    let frame = Frame::Grant(GrantMessage {
        tab_id: "abc".to_string(),
        url: "example.com".to_string(),
        cookies: vec![c],
    });
    assert!(matches!(
        frame.to_text(),
        Err(sharekaro::errors::EncodeError::NotWellFormed)
    ));
}

#[test]
fn float_expiry_survives_a_relay_hop() {
    let text = "[{\"name\":\"sid\",\"value\":\"xyz\",\"domain\":\".example.com\",                \"path\":\"/\",\"expires\":1764950400.5}]";
    let cookies = sharekaro::cdp::universal_cookie_loader(text).unwrap();
    let frame = Frame::Grant(GrantMessage {
        tab_id: "abc".to_string(),
        url: "example.com".to_string(),
        cookies,
    });
    let wire_text = frame.to_text().expect("a float expiry still encodes");
    let v: serde_json::Value = serde_json::from_str(&wire_text).unwrap();
    assert_eq!(v["cookies"][0]["expires"], 1764950400.5);
    // and the receiving peer reads the cookie back
    match Frame::from_text(&wire_text) {
        Ok(Frame::Grant(g)) => assert!(g.cookies[0].expires.is_some()),
        _ => panic!("the hop must preserve the grant"),
    }
}

#[test]
fn relay_bounds_each_peers_backlog_by_dropping_oldest() {
    let mut relay = BroadcastRelay::new();
    relay.connect();
    for k in 0..20 {
        let mut g = sid_grant();
        g.tab_id = format!("tab-{k}");
        relay.publish_grant(&g);
    }
    let owed = relay.take_outbox(0);
    // only the newest frames are kept; the oldest were dropped first
    assert_eq!(owed.len(), 16);
    match &owed[0] {
        Frame::Grant(g) => assert_eq!(g.tab_id, "tab-4"),
        _ => panic!("the backlog holds grants"),
    }
    match &owed[15] {
        Frame::Grant(g) => assert_eq!(g.tab_id, "tab-19"),
        _ => panic!("the backlog holds grants"),
    }
}

#[test]
fn encode_refuses_a_passthrough_value_nested_too_deep() {
    // a value this deep would render fine but not read back: the text
    // codec's reader has a nesting limit its writer does not
    let mut deep = sharekaro::json::JsonValue::Int(0);
    for _ in 0..120 {
        deep = sharekaro::json::JsonValue::Arr(vec![deep]);
    }
    let mut c = sid_cookie();
    c.extra.push(("partitionKey".to_string(), deep));
    let frame = Frame::Grant(GrantMessage {
        tab_id: "abc".to_string(),
        url: "example.com".to_string(),
        cookies: vec![c],
    });
    assert!(matches!(
        frame.to_text(),
        Err(sharekaro::errors::EncodeError::NotWellFormed)
    ));
}
