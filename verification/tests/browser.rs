use sharekaro::cdp::{
    DebugSession, SessionPhase,
    classify_apply, cookie_export_filename, cookies_from_response, fetch_tabs,
    get_ws_url_for_tab, is_tab_change_event, normalize_url, new_page_path,
    open_with_cookies_commands, revoke_commands, tab_from_response, universal_cookie_loader,
    command_to_text, ApplyOutcome,
};
use sharekaro::cookie::Cookie;
use sharekaro::errors::DecodeError;
use sharekaro::ui::{clip, CookieImportState};
use sharekaro::wire::RevokeCookie;

fn full_cookie() -> Cookie {
    Cookie {
        name: "sid".to_string(),
        value: "xyz".to_string(),
        domain: ".example.com".to_string(),
        path: "/".to_string(),
        expires: Some(sharekaro::json::JsonValue::Int(1764950400)),
        secure: Some(true),
        http_only: Some(true),
        same_site: Some("Lax".to_string()),
        extra: Vec::new(),
    }
}

#[test]
fn test_cookie_json_deserialization() {
    // a bare array of cookie objects
    let data = "[{\"name\":\"sid\",\"value\":\"xyz\",\"domain\":\".example.com\",\"path\":\"/\"}]";
    let cookies = universal_cookie_loader(data).expect("parsed as a cookie array");
    assert_eq!(cookies[0].name, "sid");
    // the { "cookies": [...] } form
    let wrapped =
        "{\"cookies\":[{\"name\":\"sid\",\"value\":\"xyz\",\"domain\":\".example.com\",\"path\":\"/\"}]}";
    let cookies = universal_cookie_loader(wrapped).expect("parsed as a wrapped array");
    assert_eq!(cookies[0].domain, ".example.com");
    // anything else is one well-defined failure
    assert!(matches!(universal_cookie_loader("42"), Err(DecodeError::Payload)));
    assert!(matches!(universal_cookie_loader("not json"), Err(DecodeError::Syntax)));
}

#[test]
fn normalize_url_prefixes_a_scheme_only_when_missing() {
    assert_eq!(normalize_url("example.com"), "https://example.com");
    assert_eq!(normalize_url("https://example.com"), "https://example.com");
    assert_eq!(normalize_url("http://example.com"), "http://example.com");
    assert_eq!(normalize_url(""), "https://");
    assert_eq!(new_page_path("example.com"), "/json/new?https://example.com");
}

#[test]
fn open_with_cookies_issues_one_set_per_cookie_then_navigates() {
    let cookies = vec![full_cookie(), {
        let mut c = full_cookie();
        c.name = "theme".to_string();
        c.value = "dark".to_string();
        c.secure = None;
        c.expires = None;
        c
    }];
    let cmds = open_with_cookies_commands("example.com", &cookies);
    assert_eq!(cmds.len(), 4);
    let texts: Vec<serde_json::Value> = cmds
        .iter()
        .map(|c| serde_json::from_str(&command_to_text(c).unwrap()).unwrap())
        .collect();
    assert_eq!(texts[0]["method"], "Network.enable");
    assert_eq!(texts[0]["id"], 1);
    assert_eq!(texts[1]["method"], "Network.setCookie");
    assert_eq!(texts[1]["id"], 2);
    assert_eq!(texts[1]["params"]["name"], "sid");
    assert_eq!(texts[1]["params"]["value"], "xyz");
    assert_eq!(texts[1]["params"]["domain"], ".example.com");
    assert_eq!(texts[1]["params"]["path"], "/");
    assert_eq!(texts[1]["params"]["secure"], true);
    assert_eq!(texts[1]["params"]["httpOnly"], true);
    assert_eq!(texts[1]["params"]["sameSite"], "Lax");
    assert_eq!(texts[1]["params"]["expires"], 1764950400i64);
    assert_eq!(texts[2]["id"], 3);
    assert_eq!(texts[2]["params"]["name"], "theme");
    // absent attributes are omitted entirely, never sent as null
    assert!(texts[2]["params"].get("secure").is_none());
    assert!(texts[2]["params"].get("expires").is_none());
    assert_eq!(texts[3]["method"], "Page.navigate");
    assert_eq!(texts[3]["id"], 10000);
    assert_eq!(texts[3]["params"]["url"], "https://example.com");
}

#[test]
fn revoke_commands_are_one_independent_deletion_per_triple() {
    let triples = vec![
        RevokeCookie {
            name: "sid".to_string(),
            domain: ".example.com".to_string(),
            path: "/".to_string(),
        },
        RevokeCookie {
            name: "theme".to_string(),
            domain: ".example.com".to_string(),
            path: "/app".to_string(),
        },
    ];
    let cmds = revoke_commands(&triples);
    assert_eq!(cmds.len(), 2);
    let v: serde_json::Value =
        serde_json::from_str(&command_to_text(&cmds[0]).unwrap()).unwrap();
    assert_eq!(v["method"], "Network.deleteCookies");
    assert_eq!(v["id"], 10000);
    assert_eq!(v["params"]["name"], "sid");
    assert_eq!(v["params"]["domain"], ".example.com");
    assert_eq!(v["params"]["path"], "/");
    let v: serde_json::Value =
        serde_json::from_str(&command_to_text(&cmds[1]).unwrap()).unwrap();
    assert_eq!(v["id"], 10001);
    assert_eq!(v["params"]["name"], "theme");
    assert_eq!(v["params"]["path"], "/app");
}

#[test]
fn cookies_come_back_from_a_get_cookies_response() {
    let text = "{\"id\":1,\"result\":{\"cookies\":[{\"name\":\"sid\",\"value\":\"xyz\",\
                \"domain\":\".example.com\",\"path\":\"/\",\"expires\":1764950400.124339,\
                \"size\":6,\"httpOnly\":true,\"secure\":true,\"session\":false}]}}";
    let cookies = cookies_from_response(text).expect("the response decodes");
    assert_eq!(cookies.len(), 1);
    assert_eq!(cookies[0].name, "sid");
    assert_eq!(cookies[0].http_only, Some(true));
    // fields the protocol does not read itself ride along opaquely
    assert!(cookies[0].extra.iter().any(|(k, _)| k == "size"));
    assert!(cookies[0].extra.iter().any(|(k, _)| k == "session"));
    // and a response of another shape is an error, not a crash
    assert!(matches!(
        cookies_from_response("{\"id\":1,\"result\":{}}"),
        Err(DecodeError::Payload)
    ));
}

#[test]
fn round_trip_preserves_name_domain_path_value() {
    // what a grant writes, a later read reports back: the library half
    // of that loop is writing exactly the granted fields and reading
    // back exactly what the browser lists
    let granted = vec![full_cookie()];
    let cmds = open_with_cookies_commands("example.com", &granted);
    let set: serde_json::Value =
        serde_json::from_str(&command_to_text(&cmds[1]).unwrap()).unwrap();
    let listed = format!(
        "{{\"id\":9,\"result\":{{\"cookies\":[{}]}}}}",
        set["params"]
    );
    let back = cookies_from_response(&listed).expect("the echoed cookie decodes");
    assert_eq!(back[0].name, granted[0].name);
    assert_eq!(back[0].value, granted[0].value);
    assert_eq!(back[0].domain, granted[0].domain);
    assert_eq!(back[0].path, granted[0].path);
}

#[test]
fn tabs_decode_and_ws_lookup_finds_the_right_page() {
    let text = "[{\"id\":\"t1\",\"title\":\"Mail\",\"url\":\"https://mail.test\",\
                \"webSocketDebuggerUrl\":\"ws://h/devtools/page/t1\"},\
                {\"id\":\"t2\",\"title\":\"News\",\"url\":\"https://news.test\"}]";
    let tabs = fetch_tabs(text).expect("the page list decodes");
    assert_eq!(tabs.len(), 2);
    assert_eq!(tabs[0].title, "Mail");
    assert_eq!(
        get_ws_url_for_tab(&tabs, "t1").as_deref(),
        Some("ws://h/devtools/page/t1")
    );
    // a page without a debug address, and a page that is not there,
    // both resolve to nothing rather than a crash
    assert!(get_ws_url_for_tab(&tabs, "t2").is_none());
    assert!(get_ws_url_for_tab(&tabs, "t3").is_none());
    assert!(matches!(fetch_tabs("not json"), Err(DecodeError::Syntax)));
    assert!(matches!(fetch_tabs("{}"), Err(DecodeError::Payload)));
}

#[test]
fn new_page_response_yields_id_and_socket() {
    let text = "{\"id\":\"p9\",\"title\":\"\",\"url\":\"about:blank\",\
                \"webSocketDebuggerUrl\":\"ws://h/devtools/page/p9\"}";
    let tab = tab_from_response(text).expect("the creation response decodes");
    assert_eq!(tab.id, "p9");
    assert_eq!(
        tab.web_socket_debugger_url.as_deref(),
        Some("ws://h/devtools/page/p9")
    );
}

#[test]
fn tab_change_events_are_recognized() {
    assert!(is_tab_change_event("{\"method\":\"Target.targetCreated\",\"params\":{}}"));
    assert!(is_tab_change_event("{\"method\":\"Target.targetDestroyed\"}"));
    assert!(is_tab_change_event("{\"method\":\"Target.targetInfoChanged\"}"));
    assert!(!is_tab_change_event("{\"method\":\"Network.dataReceived\"}"));
    assert!(!is_tab_change_event("{\"id\":1,\"result\":{}}"));
    assert!(!is_tab_change_event("garbage"));
}

#[test]
fn classify_apply_distinguishes_full_and_partial() {
    assert!(matches!(classify_apply(&vec![true, true]), ApplyOutcome::Full));
    assert!(matches!(classify_apply(&Vec::new()), ApplyOutcome::Full));
    match classify_apply(&vec![true, false, true, false]) {
        ApplyOutcome::Partial(failed) => assert_eq!(failed, vec![1, 3]),
        _ => panic!("failures must be reported, not dropped"),
    }
}

#[test]
fn cookie_export_filename_replaces_separators() {
    assert_eq!(
        cookie_export_filename("My Bank / Savings"),
        "cookies_My_Bank___Savings.json"
    );
    assert_eq!(cookie_export_filename(""), "cookies_.json");
}

#[test]
fn clip_shortens_only_long_text() {
    assert_eq!(clip("short", 45), "short");
    assert_eq!(clip("abcdef", 3), "abc\u{2026}");
    assert_eq!(clip("", 0), "");
}

#[test]
fn import_state_starts_empty() {
    let s = CookieImportState::default();
    assert_eq!(s.url_to_open, "");
    assert!(s.last_status.is_none());
    assert!(s.last_path.is_none());
    assert!(!s.show_dialog);
}

#[test]
fn debug_session_connects_numbers_requests_and_never_reopens() {
    let mut s = DebugSession::new();
    assert_eq!(s.phase, SessionPhase::Disconnected);
    assert!(!s.can_issue());
    s.handshake_done();
    assert!(s.can_issue());
    assert_eq!(s.next_request_id(), 1);
    assert_eq!(s.next_request_id(), 2);
    s.close();
    assert_eq!(s.phase, SessionPhase::Closed);
    // a closed session never issues again; a new one starts over
    assert!(!s.can_issue());
    let fresh = DebugSession::new();
    assert_eq!(fresh.next_request, 1);
}

#[test]
fn command_text_refuses_a_value_nested_too_deep() {
    let mut deep = sharekaro::json::JsonValue::Int(0);
    for _ in 0..120 {
        deep = sharekaro::json::JsonValue::Arr(vec![deep]);
    }
    assert!(matches!(
        command_to_text(&deep),
        Err(sharekaro::errors::EncodeError::TooDeep)
    ));
    // a value of ordinary depth still encodes
    let shallow = sharekaro::json::JsonValue::Arr(vec![sharekaro::json::JsonValue::Int(7)]);
    assert!(command_to_text(&shallow).is_ok());
}
