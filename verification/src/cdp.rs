//! The browser's remote-debugging protocol.
//!
//! A debug session drives the browser over JSON-RPC request/response
//! messages on a per-page socket, after discovering pages over an HTTP
//! endpoint.  This module holds the protocol's content: it builds each
//! request the session issues and reads each response it gets back.
//! The sockets themselves live outside; they hand text in and take
//! text out.
use vstd::prelude::*;
use vstd::string::{StringExecFns, StrSliceExecFns};
use crate::json::{
    JsonValue, JsonV, spec_obj_get, distinct_keys, wf_json, wf_pairs, int_only, str_eq,
    lemma_wf_pairs, lemma_int_only_pairs,
};
use crate::cookie::{Cookie, CookieV, cookie_wf, spec_cookie_of};
use crate::wire::{RevokeCookie, spec_revoke_cookie_of, spec_cookies_of};
use crate::errors::{DecodeError, EncodeError};

verus! {

broadcast use crate::json::lemma_obj_get_push;

/// One open page, as the browser's discovery endpoint reports it.
pub struct ChromeTab {
    pub id: String,
    pub title: String,
    pub url: String,
    pub web_socket_debugger_url: Option<String>,
}

/// Mathematical model of a page descriptor.
#[verifier::ext_equal]
pub ghost struct ChromeTabV {
    pub id: Seq<char>,
    pub title: Seq<char>,
    pub url: Seq<char>,
    pub web_socket_debugger_url: Option<Seq<char>>,
}

impl View for ChromeTab {
    type V = ChromeTabV;

    open spec fn view(&self) -> ChromeTabV {
        ChromeTabV {
            id: self.id@,
            title: self.title@,
            url: self.url@,
            web_socket_debugger_url: match self.web_socket_debugger_url {
                Some(s) => Some(s@),
                None => None,
            },
        }
    }
}

/// The page descriptor an object denotes: `id`, `title` and `url` must
/// be strings; the debug-socket address may be absent.
pub open spec fn spec_tab_of(ps: Seq<(Seq<char>, JsonV)>) -> Option<ChromeTabV> {
    if crate::cookie::spec_str_ok(ps, "id"@) && crate::cookie::spec_str_ok(ps, "title"@)
        && crate::cookie::spec_str_ok(ps, "url"@) && match spec_obj_get(
        ps,
        "webSocketDebuggerUrl"@,
    ) {
        Option::None => true,
        Some(JsonV::Str(_)) => true,
        _ => false,
    } {
        Some(
            ChromeTabV {
                id: crate::cookie::spec_str_of(ps, "id"@),
                title: crate::cookie::spec_str_of(ps, "title"@),
                url: crate::cookie::spec_str_of(ps, "url"@),
                web_socket_debugger_url: match spec_obj_get(ps, "webSocketDebuggerUrl"@) {
                    Some(JsonV::Str(s)) => Some(s),
                    _ => None,
                },
            },
        )
    } else {
        None
    }
}

/// The page list an array denotes.
pub open spec fn spec_tabs_of(items: Seq<JsonV>) -> Option<Seq<ChromeTabV>>
    decreases items.len(),
{
    if items.len() == 0 {
        Some(Seq::empty())
    } else {
        match spec_tabs_of(items.drop_last()) {
            Some(ts) => match items.last() {
                JsonV::Obj(ps) => match spec_tab_of(ps) {
                    Some(t) => Some(ts.push(t)),
                    Option::None => None,
                },
                _ => None,
            },
            Option::None => None,
        }
    }
}

/// An array with one element that is no page descriptor denotes no
/// page list.
proof fn lemma_tabs_of_fail(items: Seq<JsonV>, j: int)
    requires
        0 <= j < items.len(),
        match items[j] {
            JsonV::Obj(ps) => spec_tab_of(ps) is None,
            _ => true,
        },
    ensures
        spec_tabs_of(items) is None,
    decreases items.len(),
{
    if j == items.len() - 1 {
    } else {
        assert(items.drop_last()[j] == items[j]);
        lemma_tabs_of_fail(items.drop_last(), j);
    }
}

/// Read one page descriptor out of a JSON value.
fn tab_from_json(v: &JsonValue) -> (r: Option<ChromeTab>)
    ensures
        match v@ {
            JsonV::Obj(ps) => {
                &&& (r matches Some(t) ==> spec_tab_of(ps) == Some(t@))
                &&& (r is None ==> spec_tab_of(ps) is None)
            },
            _ => r is None,
        },
{
    proof {
        reveal_with_fuel(<JsonValue as View>::view, 2);
    }
    match v {
        JsonValue::Obj(_) => {
            let id = match v.get("id") {
                Some(JsonValue::Str(s)) => s.clone(),
                _ => {
                    return None;
                },
            };
            let title = match v.get("title") {
                Some(JsonValue::Str(s)) => s.clone(),
                _ => {
                    return None;
                },
            };
            let url = match v.get("url") {
                Some(JsonValue::Str(s)) => s.clone(),
                _ => {
                    return None;
                },
            };
            let web_socket_debugger_url = match v.get("webSocketDebuggerUrl") {
                Option::None => None,
                Some(JsonValue::Str(s)) => Some(s.clone()),
                Some(_) => {
                    return None;
                },
            };
            let t = ChromeTab { id, title, url, web_socket_debugger_url };
            proof {
                assert(spec_tab_of(v@->Obj_0) matches Some(st) && st =~= t@);
            }
            Some(t)
        },
        _ => None,
    }
}

/// Read the discovery endpoint's page list: a JSON array of page
/// descriptors.  The result is exactly the list the text denotes;
/// text that is not JSON fails as `Syntax`, anything else that is not
/// such an array as `Payload`.
pub fn fetch_tabs(text: &str) -> (r: Result<Vec<ChromeTab>, DecodeError>)
    ensures
        match crate::json::json_model_of(text@) {
            Some(w) => {
                &&& (r matches Ok(ts) ==> w matches JsonV::Arr(items)
                    && spec_tabs_of(items) == Some(
                    Seq::new(ts@.len(), |i: int| if 0 <= i < ts@.len() { ts@[i]@ } else { ts@[0]@ }),
                ))
                &&& (r matches Err(e) ==> e == DecodeError::Payload)
                &&& (r is Err ==> match w {
                    JsonV::Arr(items) => spec_tabs_of(items) is None,
                    _ => true,
                })
            },
            Option::None => r == Err::<Vec<ChromeTab>, DecodeError>(DecodeError::Syntax),
        },
{
    proof {
        reveal_with_fuel(<JsonValue as View>::view, 2);
    }
    let v = match crate::json::parse_json(text) {
        Some(v) => v,
        Option::None => {
            return Err(DecodeError::Syntax);
        },
    };
    match &v {
        JsonValue::Arr(items) => {
            let ghost items_v = v@->Arr_0;
            proof {
                assert(items_v.len() == items@.len());
                assert(forall|k: int| 0 <= k < items_v.len()
                    ==> #[trigger] items_v[k] == items@[k]@);
            }
            let mut out: Vec<ChromeTab> = Vec::new();
            let ghost mut ts_v: Seq<ChromeTabV> = Seq::empty();
            let mut i: usize = 0;
            while i < items.len()
                invariant
                    0 <= i <= items.len(),
                    crate::json::json_model_of(text@) == Some(JsonV::Arr(items_v)),
                    items_v.len() == items@.len(),
                    forall|k: int| 0 <= k < items_v.len() ==> #[trigger] items_v[k] == items@[k]@,
                    ts_v.len() == i,
                    out@.len() == i,
                    forall|k: int| 0 <= k < i ==> #[trigger] ts_v[k] == out@[k]@,
                    spec_tabs_of(items_v.take(i as int)) == Some(ts_v),
                decreases items.len() - i,
            {
                match tab_from_json(&items[i]) {
                    Some(t) => {
                        let ghost prev = ts_v;
                        proof {
                            ts_v = ts_v.push(t@);
                            let w = items_v.take(i as int + 1);
                            assert(w.drop_last() =~= items_v.take(i as int));
                            assert(w.last() == items_v[i as int]);
                            assert(spec_tabs_of(w) == Some(prev.push(t@)));
                        }
                        out.push(t);
                    },
                    Option::None => {
                        proof {
                            assert(items_v[i as int] == items@[i as int]@);
                            lemma_tabs_of_fail(items_v, i as int);
                        }
                        return Err(DecodeError::Payload);
                    },
                }
                i = i + 1;
            }
            proof {
                assert(items_v.take(items_v.len() as int) =~= items_v);
                assert(Seq::new(
                    out@.len(),
                    |k: int| if 0 <= k < out@.len() { out@[k]@ } else { out@[0]@ },
                ) =~= ts_v);
            }
            Ok(out)
        },
        _ => Err(DecodeError::Payload),
    }
}

/// A page list's model, element by element.
pub open spec fn tabs_view(tabs: Seq<ChromeTab>) -> Seq<ChromeTabV> {
    Seq::new(tabs.len(), |i: int| if 0 <= i < tabs.len() { tabs[i]@ } else { tabs[0]@ })
}

/// The debug-socket address recorded for page `tab_id` in a page list:
/// the first descriptor with that identifier answers; a descriptor
/// without an address, or no such page, is nothing.
pub open spec fn spec_ws_url_for(tabs: Seq<ChromeTabV>, tab_id: Seq<char>) -> Option<Seq<char>>
    decreases tabs.len(),
{
    if tabs.len() == 0 {
        None
    } else if tabs[0].id == tab_id {
        tabs[0].web_socket_debugger_url
    } else {
        spec_ws_url_for(tabs.drop_first(), tab_id)
    }
}

/// Find the debug-socket address for page `tab_id`: exactly what the
/// list records for it, and `NotFound` where the page is missing or
/// carries no address.
pub fn get_ws_url_for_tab(tabs: &Vec<ChromeTab>, tab_id: &str) -> (r: Option<String>)
    ensures
        match spec_ws_url_for(tabs_view(tabs@), tab_id@) {
            Some(w) => r matches Some(x) && x@ == w,
            Option::None => r is None,
        },
{
    let ghost ts = tabs_view(tabs@);
    proof {
        assert(ts.skip(0) =~= ts);
    }
    let mut i: usize = 0;
    while i < tabs.len()
        invariant
            0 <= i <= tabs.len(),
            ts == tabs_view(tabs@),
            ts.len() == tabs@.len(),
            forall|k: int| 0 <= k < ts.len() ==> #[trigger] ts[k] == tabs@[k]@,
            spec_ws_url_for(ts, tab_id@) == spec_ws_url_for(ts.skip(i as int), tab_id@),
        decreases tabs.len() - i,
    {
        proof {
            let w = ts.skip(i as int);
            assert(w[0] == ts[i as int]);
            assert(w.drop_first() =~= ts.skip(i as int + 1));
        }
        if str_eq(tabs[i].id.as_str(), tab_id) {
            match &tabs[i].web_socket_debugger_url {
                Some(ws) => {
                    return Some(ws.clone());
                },
                Option::None => {
                    return None;
                },
            }
        }
        i = i + 1;
    }
    proof {
        assert(ts.skip(ts.len() as int) =~= Seq::<ChromeTabV>::empty());
    }
    None
}

/// Does a page address carry a scheme already?
pub open spec fn spec_has_scheme(s: Seq<char>) -> bool {
    ||| (s.len() >= 7 && s.subrange(0, 7) == "http://"@)
    ||| (s.len() >= 8 && s.subrange(0, 8) == "https://"@)
}

/// Prefix a secure scheme onto an address given without one; an
/// address that already names its scheme passes unchanged.
pub fn normalize_url(raw: &str) -> (r: String)
    ensures
        spec_has_scheme(raw@) ==> r@ == raw@,
        !spec_has_scheme(raw@) ==> r@ == "https://"@ + raw@,
{
    let n = raw.unicode_len();
    if n >= 7 {
        let head7 = raw.substring_char(0, 7);
        if str_eq(head7, "http://") {
            return raw.to_owned();
        }
    }
    if n >= 8 {
        let head8 = raw.substring_char(0, 8);
        if str_eq(head8, "https://") {
            return raw.to_owned();
        }
    }
    let mut out: String = "https://".to_owned();
    out.append(raw);
    out
}

/// The page-creation request path: the creation endpoint takes the
/// target address as its query string.
pub fn new_page_path(url: &str) -> (r: String)
    ensures
        r@ == "/json/new?"@ + (if spec_has_scheme(url@) {
            url@
        } else {
            "https://"@ + url@
        }),
{
    let to_open = normalize_url(url);
    let mut out: String = "/json/new?".to_owned();
    out.append(to_open.as_str());
    out
}



/// Where a page's debug socket stands.
#[derive(PartialEq, Eq, Structural, Clone, Copy, Debug)]
pub enum SessionPhase {
    /// No socket yet: nothing may be issued.
    Disconnected,
    /// The handshake is done: requests may be issued.
    Connected,
    /// The transport failed or the session was closed.  There is no
    /// reopening: request numbering and navigation state are not
    /// recoverable mid-stream, so a fresh session must be established
    /// from page discovery.
    Closed,
}

/// One page's request/response session: its phase, and the number the
/// next request will carry.
pub struct DebugSession {
    pub phase: SessionPhase,
    pub next_request: i64,
}

impl DebugSession {
    /// A session for a freshly discovered page: no socket yet, and
    /// request numbering starting at one.
    pub fn new() -> (r: DebugSession)
        ensures
            r.phase == SessionPhase::Disconnected,
            r.next_request == 1,
    {
        DebugSession { phase: SessionPhase::Disconnected, next_request: 1 }
    }

    /// The socket's handshake completed: requests may now be issued.
    /// Only a fresh session connects; a closed one never comes back.
    pub fn handshake_done(&mut self)
        requires
            old(self).phase == SessionPhase::Disconnected,
        ensures
            final(self).phase == SessionPhase::Connected,
            final(self).next_request == old(self).next_request,
    {
        self.phase = SessionPhase::Connected;
    }

    /// May a request be issued right now?
    pub fn can_issue(&self) -> (r: bool)
        ensures
            r == (self.phase == SessionPhase::Connected),
    {
        matches!(self.phase, SessionPhase::Connected)
    }

    /// Take the number for the next request: each is issued once, in
    /// increasing order, only while connected.
    pub fn next_request_id(&mut self) -> (id: i64)
        requires
            old(self).phase == SessionPhase::Connected,
            old(self).next_request < i64::MAX,
        ensures
            id == old(self).next_request,
            final(self).next_request == old(self).next_request + 1,
            final(self).phase == SessionPhase::Connected,
    {
        let id = self.next_request;
        self.next_request = id + 1;
        id
    }

    /// The transport failed, or the caller is done: the session ends,
    /// for good, whatever phase it was in.
    pub fn close(&mut self)
        ensures
            final(self).phase == SessionPhase::Closed,
    {
        self.phase = SessionPhase::Closed;
    }
}

/// A JSON array's model, element by element.
pub open spec fn json_items_view(s: Seq<JsonValue>) -> Seq<JsonV> {
    Seq::new(s.len(), |i: int| if 0 <= i < s.len() { s[i]@ } else { JsonV::Null })
}

/// A cookie list's model, element by element.
pub open spec fn cookies_view(s: Seq<Cookie>) -> Seq<CookieV> {
    Seq::new(s.len(), |i: int| if 0 <= i < s.len() { s[i]@ } else { s[0]@ })
}

/// The three request keys are pairwise distinct texts.
proof fn lemma_rpc_keys_distinct()
    ensures
        "id"@ != "method"@,
        "id"@ != "params"@,
        "method"@ != "params"@,
{
    reveal_strlit("id");
    reveal_strlit("method");
    reveal_strlit("params");
    assert("id"@[0] == 'i');
    assert("method"@[0] == 'm');
    assert("params"@[0] == 'p');
}

/// One request of the debugging protocol: a numbered method call, with
/// its parameter object where the method takes one.
fn rpc_cmd(id: i64, method: &str, params: Option<JsonValue>) -> (r: JsonValue)
    ensures
        r@ is Obj,
        distinct_keys(r@->Obj_0),
        r@->Obj_0.len() == if params is Some {
            3int
        } else {
            2int
        },
        spec_obj_get(r@->Obj_0, "id"@) == Some(JsonV::Int(id as int)),
        spec_obj_get(r@->Obj_0, "method"@) == Some(JsonV::Str(method@)),
        params matches Some(p) ==> spec_obj_get(r@->Obj_0, "params"@) == Some(p@),
        params is None ==> spec_obj_get(r@->Obj_0, "params"@) is None,
        params matches Some(p) ==> (wf_json(p@) ==> wf_json(r@)),
        params is None ==> wf_json(r@),
        params matches Some(p) ==> (int_only(p@) ==> int_only(r@)),
        params is None ==> int_only(r@),
{
    proof {
        lemma_rpc_keys_distinct();
    }
    let mut pairs: Vec<(String, JsonValue)> = Vec::new();
    let ghost mut ps: Seq<(Seq<char>, JsonV)> = Seq::empty();
    pairs.push(("id".to_owned(), JsonValue::Int(id)));
    proof {
        crate::json::lemma_obj_get_absent(ps, "id"@);
        crate::json::lemma_distinct_push(ps, ("id"@, JsonV::Int(id as int)));
        ps = ps.push(("id"@, JsonV::Int(id as int)));
        assert(spec_obj_get(ps, "id"@) == Some(JsonV::Int(id as int)));
        assert(spec_obj_get(ps, "method"@) is None);
        assert(spec_obj_get(ps, "params"@) is None);
    }
    pairs.push(("method".to_owned(), JsonValue::Str(method.to_owned())));
    proof {
        crate::json::lemma_obj_get_absent(ps, "method"@);
        crate::json::lemma_distinct_push(ps, ("method"@, JsonV::Str(method@)));
        ps = ps.push(("method"@, JsonV::Str(method@)));
        assert(spec_obj_get(ps, "id"@) == Some(JsonV::Int(id as int)));
        assert(spec_obj_get(ps, "method"@) == Some(JsonV::Str(method@)));
        assert(spec_obj_get(ps, "params"@) is None);
    }
    let ghost had_params = params is Some;
    let ghost pv = match &params {
        Some(p) => p@,
        Option::None => JsonV::Null,
    };
    match params {
        Some(p) => {
            pairs.push(("params".to_owned(), p));
            proof {
                crate::json::lemma_obj_get_absent(ps, "params"@);
                crate::json::lemma_distinct_push(ps, ("params"@, pv));
                ps = ps.push(("params"@, pv));
                assert(spec_obj_get(ps, "id"@) == Some(JsonV::Int(id as int)));
                assert(spec_obj_get(ps, "method"@) == Some(JsonV::Str(method@)));
                assert(spec_obj_get(ps, "params"@) == Some(pv));
            }
        },
        Option::None => {},
    }
    let r = JsonValue::Obj(pairs);
    proof {
        reveal_with_fuel(<JsonValue as View>::view, 2);
        let obj = r@->Obj_0;
        assert(forall|k: int| 0 <= k < obj.len() ==> #[trigger] obj[k] == ps[k]);
        assert(obj =~= ps);
        if had_params {
            if wf_json(pv) {
                assert(forall|j: int| 0 <= j < ps.len() ==> wf_json((#[trigger] ps[j]).1));
                lemma_wf_pairs(ps);
                assert(wf_json(r@));
            }
            if int_only(pv) {
                assert(forall|j: int| 0 <= j < ps.len() ==> int_only((#[trigger] ps[j]).1));
                lemma_int_only_pairs(ps);
                assert(int_only(r@));
            }
        } else {
            assert(forall|j: int| 0 <= j < ps.len() ==> wf_json((#[trigger] ps[j]).1));
            lemma_wf_pairs(ps);
            assert(forall|j: int| 0 <= j < ps.len() ==> int_only((#[trigger] ps[j]).1));
            lemma_int_only_pairs(ps);
            assert(wf_json(r@));
            assert(int_only(r@));
        }
    }
    r
}

/// An object of one field.
fn singleton_obj(key: &str, val: JsonValue) -> (r: JsonValue)
    ensures
        r@ is Obj,
        r@->Obj_0.len() == 1,
        distinct_keys(r@->Obj_0),
        spec_obj_get(r@->Obj_0, key@) == Some(val@),
        wf_json(val@) ==> wf_json(r@),
        int_only(val@) ==> int_only(r@),
{
    let ghost vv = val@;
    let mut pairs: Vec<(String, JsonValue)> = Vec::new();
    let ghost mut ps: Seq<(Seq<char>, JsonV)> = Seq::empty();
    pairs.push((key.to_owned(), val));
    proof {
        crate::json::lemma_obj_get_absent(ps, key@);
        crate::json::lemma_distinct_push(ps, (key@, vv));
        ps = ps.push((key@, vv));
        assert(spec_obj_get(ps, key@) == Some(vv));
    }
    let r = JsonValue::Obj(pairs);
    proof {
        reveal_with_fuel(<JsonValue as View>::view, 2);
        let obj = r@->Obj_0;
        assert(forall|k: int| 0 <= k < obj.len() ==> #[trigger] obj[k] == ps[k]);
        assert(obj =~= ps);
        if wf_json(vv) {
            assert(forall|j: int| 0 <= j < ps.len() ==> wf_json((#[trigger] ps[j]).1));
            lemma_wf_pairs(ps);
        }
        if int_only(vv) {
            assert(forall|j: int| 0 <= j < ps.len() ==> int_only((#[trigger] ps[j]).1));
            lemma_int_only_pairs(ps);
        }
    }
    r
}

/// Does a request carry this number and method?
pub open spec fn cmd_has(v: JsonV, id: int, method: Seq<char>) -> bool {
    &&& v is Obj
    &&& spec_obj_get(v->Obj_0, "id"@) == Some(JsonV::Int(id))
    &&& spec_obj_get(v->Obj_0, "method"@) == Some(JsonV::Str(method))
}

/// The request's parameter object, where it has one.
pub open spec fn cmd_params(v: JsonV) -> Option<Seq<(Seq<char>, JsonV)>> {
    match v {
        JsonV::Obj(ps) => match spec_obj_get(ps, "params"@) {
            Some(JsonV::Obj(pp)) => Some(pp),
            _ => None,
        },
        _ => None,
    }
}

/// The request that turns network control on for a page.
pub fn enable_network_cmd(id: i64) -> (r: JsonValue)
    ensures
        cmd_has(r@, id as int, "Network.enable"@),
        r@->Obj_0.len() == 2,
        cmd_params(r@) is None,
        wf_json(r@),
        int_only(r@),
{
    rpc_cmd(id, "Network.enable", None)
}

/// The request that subscribes to page lifecycle events.
pub fn set_discover_targets_cmd(id: i64) -> (r: JsonValue)
    ensures
        cmd_has(r@, id as int, "Target.setDiscoverTargets"@),
        r@->Obj_0.len() == 3,
        cmd_params(r@) matches Some(pp) && pp.len() == 1
            && spec_obj_get(pp, "discover"@) == Some(JsonV::Bool(true)),
        wf_json(r@),
        int_only(r@),
{
    let params = singleton_obj("discover", JsonValue::Bool(true));
    rpc_cmd(id, "Target.setDiscoverTargets", Some(params))
}

/// The request that reads the cookies a page sees for its address.
pub fn get_cookies_cmd(id: i64, url: &str) -> (r: JsonValue)
    ensures
        cmd_has(r@, id as int, "Network.getCookies"@),
        r@->Obj_0.len() == 3,
        cmd_params(r@) matches Some(pp) && pp.len() == 1
            && (spec_obj_get(pp, "urls"@) matches Some(u)
            && u == JsonV::Arr(seq![JsonV::Str(url@)])),
        wf_json(r@),
        int_only(r@),
{
    let mut urls: Vec<JsonValue> = Vec::new();
    urls.push(JsonValue::Str(url.to_owned()));
    let arr = JsonValue::Arr(urls);
    proof {
        reveal_with_fuel(<JsonValue as View>::view, 2);
        assert(arr@->Arr_0 =~= seq![JsonV::Str(url@)]);
        assert(crate::json::wf_seq(arr@->Arr_0)) by {
            crate::json::lemma_wf_seq(arr@->Arr_0);
        }
        assert(crate::json::int_only_seq(arr@->Arr_0)) by {
            crate::json::lemma_int_only_seq(arr@->Arr_0);
        }
        assert(wf_json(arr@));
        assert(int_only(arr@));
    }
    let params = singleton_obj("urls", arr);
    rpc_cmd(id, "Network.getCookies", Some(params))
}

/// The request that points a page at an address.
pub fn navigate_cmd(id: i64, url: &str) -> (r: JsonValue)
    ensures
        cmd_has(r@, id as int, "Page.navigate"@),
        r@->Obj_0.len() == 3,
        cmd_params(r@) matches Some(pp) && pp.len() == 1
            && spec_obj_get(pp, "url"@) == Some(JsonV::Str(url@)),
        wf_json(r@),
        int_only(r@),
{
    let params = singleton_obj("url", JsonValue::Str(url.to_owned()));
    rpc_cmd(id, "Page.navigate", Some(params))
}

/// The request that writes one cookie into a page.  The parameters are
/// the cookie's own fields — each present attribute once, absent ones
/// left out entirely, pass-through fields not sent.
pub fn set_cookie_cmd(id: i64, c: &Cookie) -> (r: JsonValue)
    requires
        crate::cookie::cookie_expires_wf(c@),
    ensures
        cmd_has(r@, id as int, "Network.setCookie"@),
        r@->Obj_0.len() == 3,
        cmd_params(r@) matches Some(pp)
            && spec_cookie_of(pp) == Some(crate::cookie::cookie_core(c@)),
        wf_json(r@),
        (c@.expires matches Some(e) ==> e is Int) ==> int_only(r@),
{
    let stripped = Cookie {
        name: c.name.clone(),
        value: c.value.clone(),
        domain: c.domain.clone(),
        path: c.path.clone(),
        expires: match &c.expires {
            Some(e) => Some(e.deep_clone()),
            Option::None => None,
        },
        secure: c.secure,
        http_only: c.http_only,
        same_site: match &c.same_site {
            Some(s) => Some(s.clone()),
            Option::None => None,
        },
        extra: Vec::new(),
    };
    proof {
        assert(stripped@ =~= crate::cookie::cookie_core(c@));
        assert(cookie_wf(stripped@));
    }
    let params = stripped.to_json();
    proof {
        assert(wf_pairs(stripped@.extra)) by {
            crate::json::lemma_wf_pairs(stripped@.extra);
        }
        assert(wf_json(params@));
        if c@.expires matches Some(e) ==> e is Int {
            assert(crate::cookie::cookie_int_only(stripped@)) by {
                crate::json::lemma_int_only_pairs(stripped@.extra);
            }
            assert(int_only(params@));
        }
    }
    rpc_cmd(id, "Network.setCookie", Some(params))
}

/// The request that deletes one cookie from a page, by name, domain
/// and path.
pub fn delete_cookies_cmd(id: i64, rc: &RevokeCookie) -> (r: JsonValue)
    ensures
        cmd_has(r@, id as int, "Network.deleteCookies"@),
        r@->Obj_0.len() == 3,
        cmd_params(r@) matches Some(pp) && pp.len() == 3
            && spec_revoke_cookie_of(pp) == Some(rc@),
        wf_json(r@),
        int_only(r@),
{
    let params = rc.to_json();
    rpc_cmd(id, "Network.deleteCookies", Some(params))
}

/// Write one request as text for its socket.  This succeeds exactly on
/// well-formed requests within the codec's depth bound; the text is
/// JSON, and — when the request's numbers are integers — denotes
/// exactly this request.
pub fn command_to_text(cmd: &JsonValue) -> (r: Result<String, EncodeError>)
    ensures
        (r is Ok) == (wf_json(cmd@) && crate::json::json_depth_le(
            cmd@,
            crate::json::JSON_DEPTH_BOUND as int,
        )),
        r == Err::<String, EncodeError>(EncodeError::NotWellFormed) <==> !wf_json(cmd@),
        r matches Ok(t) ==> crate::json::json_model_of(t@) is Some,
        r matches Ok(t) ==> (int_only(cmd@)
            ==> crate::json::json_model_of(t@) == Some(cmd@)),
{
    if !cmd.is_wf_json() {
        return Err(EncodeError::NotWellFormed);
    }
    if !cmd.depth_le(crate::json::JSON_DEPTH_BOUND) {
        return Err(EncodeError::TooDeep);
    }
    Ok(crate::json::render_json(cmd))
}


/// Read a JSON array of cookie objects.
fn decode_cookie_array(items: &Vec<JsonValue>) -> (r: Option<Vec<Cookie>>)
    ensures
        match spec_cookies_of(json_items_view(items@)) {
            Some(cs) => r matches Some(v) && cookies_view(v@) == cs,
            Option::None => r is None,
        },
{
    let ghost items_v = json_items_view(items@);
    proof {
        assert(forall|k: int| 0 <= k < items_v.len() ==> #[trigger] items_v[k] == items@[k]@);
    }
    let mut out: Vec<Cookie> = Vec::new();
    let ghost mut cs_v: Seq<CookieV> = Seq::empty();
    let mut i: usize = 0;
    while i < items.len()
        invariant
            0 <= i <= items.len(),
            items_v == json_items_view(items@),
            items_v.len() == items@.len(),
            forall|k: int| 0 <= k < items_v.len() ==> #[trigger] items_v[k] == items@[k]@,
            cs_v.len() == i,
            out@.len() == i,
            forall|k: int| 0 <= k < i ==> #[trigger] cs_v[k] == out@[k]@,
            spec_cookies_of(items_v.take(i as int)) == Some(cs_v),
        decreases items.len() - i,
    {
        match Cookie::from_json(&items[i]) {
            Some(c) => {
                let ghost prev = cs_v;
                proof {
                    cs_v = cs_v.push(c@);
                    let w = items_v.take(i as int + 1);
                    assert(w.drop_last() =~= items_v.take(i as int));
                    assert(w.last() == items_v[i as int]);
                    assert(spec_cookies_of(w) == Some(prev.push(c@)));
                }
                out.push(c);
            },
            Option::None => {
                proof {
                    assert(items_v[i as int] == items@[i as int]@);
                    crate::wire::lemma_cookies_of_fail(items_v, i as int);
                }
                return None;
            },
        }
        i = i + 1;
    }
    proof {
        assert(items_v.take(items_v.len() as int) =~= items_v);
        assert(cookies_view(out@) =~= cs_v);
    }
    Some(out)
}

/// The cookie list a whole document denotes: either a bare array of
/// cookie objects, or an object carrying such an array under
/// `cookies`.
pub open spec fn spec_loaded_cookies(w: JsonV) -> Option<Seq<CookieV>> {
    match w {
        JsonV::Arr(items) => spec_cookies_of(items),
        JsonV::Obj(ps) => match spec_obj_get(ps, "cookies"@) {
            Some(JsonV::Arr(items)) => spec_cookies_of(items),
            _ => None,
        },
        _ => None,
    }
}

/// Read a cookie interchange document: a bare JSON array of cookies,
/// or an object with a `cookies` array.  Every unknown field of each
/// cookie is kept.  The result is exactly the list the text denotes;
/// text that is not JSON fails as `Syntax`, any other shape as
/// `Payload`.
pub fn universal_cookie_loader(text: &str) -> (r: Result<Vec<Cookie>, DecodeError>)
    ensures
        match crate::json::json_model_of(text@) {
            Some(w) => {
                &&& (r matches Ok(cs) ==> spec_loaded_cookies(w) == Some(cookies_view(cs@)))
                &&& (r matches Err(e) ==> e == DecodeError::Payload
                    && spec_loaded_cookies(w) is None)
            },
            Option::None => r == Err::<Vec<Cookie>, DecodeError>(DecodeError::Syntax),
        },
{
    proof {
        reveal_with_fuel(<JsonValue as View>::view, 2);
    }
    let v = match crate::json::parse_json(text) {
        Some(v) => v,
        Option::None => {
            return Err(DecodeError::Syntax);
        },
    };
    match &v {
        JsonValue::Arr(items) => {
            proof {
                assert(json_items_view(items@) =~= v@->Arr_0);
            }
            match decode_cookie_array(items) {
                Some(cs) => Ok(cs),
                Option::None => Err(DecodeError::Payload),
            }
        },
        JsonValue::Obj(_) => {
            match v.get("cookies") {
                Some(JsonValue::Arr(items)) => {
                    proof {
                        assert(json_items_view(items@)
                            =~= spec_obj_get(v@->Obj_0, "cookies"@)->Some_0->Arr_0);
                    }
                    match decode_cookie_array(items) {
                        Some(cs) => Ok(cs),
                        Option::None => Err(DecodeError::Payload),
                    }
                },
                _ => Err(DecodeError::Payload),
            }
        },
        _ => Err(DecodeError::Payload),
    }
}

/// The cookie list inside a get-cookies response: the `result` object's
/// `cookies` array.
pub open spec fn spec_cookies_response(w: JsonV) -> Option<Seq<CookieV>> {
    match w {
        JsonV::Obj(ps) => match spec_obj_get(ps, "result"@) {
            Some(JsonV::Obj(rp)) => match spec_obj_get(rp, "cookies"@) {
                Some(JsonV::Arr(items)) => spec_cookies_of(items),
                _ => None,
            },
            _ => None,
        },
        _ => None,
    }
}

/// Read the response to a get-cookies request: the cookies under
/// `result.cookies`, exactly as the browser reported them.
pub fn cookies_from_response(text: &str) -> (r: Result<Vec<Cookie>, DecodeError>)
    ensures
        match crate::json::json_model_of(text@) {
            Some(w) => {
                &&& (r matches Ok(cs) ==> spec_cookies_response(w) == Some(cookies_view(cs@)))
                &&& (r matches Err(e) ==> e == DecodeError::Payload
                    && spec_cookies_response(w) is None)
            },
            Option::None => r == Err::<Vec<Cookie>, DecodeError>(DecodeError::Syntax),
        },
{
    proof {
        reveal_with_fuel(<JsonValue as View>::view, 2);
    }
    let v = match crate::json::parse_json(text) {
        Some(v) => v,
        Option::None => {
            return Err(DecodeError::Syntax);
        },
    };
    match &v {
        JsonValue::Obj(_) => {
            match v.get("result") {
                Some(res) => match res {
                    JsonValue::Obj(_) => {
                        match res.get("cookies") {
                            Some(JsonValue::Arr(items)) => {
                                proof {
                                    assert(json_items_view(items@) =~= spec_obj_get(
                                        res@->Obj_0,
                                        "cookies"@,
                                    )->Some_0->Arr_0);
                                }
                                match decode_cookie_array(items) {
                                    Some(cs) => Ok(cs),
                                    Option::None => Err(DecodeError::Payload),
                                }
                            },
                            _ => Err(DecodeError::Payload),
                        }
                    },
                    _ => Err(DecodeError::Payload),
                },
                Option::None => Err(DecodeError::Payload),
            }
        },
        _ => Err(DecodeError::Payload),
    }
}

/// Read the response to a page-creation request: the new page's
/// descriptor, with its identifier and debug-socket address.
pub fn tab_from_response(text: &str) -> (r: Result<ChromeTab, DecodeError>)
    ensures
        match crate::json::json_model_of(text@) {
            Some(w) => {
                &&& (r matches Ok(t) ==> w matches JsonV::Obj(ps) && spec_tab_of(ps) == Some(t@))
                &&& (r matches Err(e) ==> e == DecodeError::Payload && match w {
                    JsonV::Obj(ps) => spec_tab_of(ps) is None,
                    _ => true,
                })
            },
            Option::None => r == Err::<ChromeTab, DecodeError>(DecodeError::Syntax),
        },
{
    let v = match crate::json::parse_json(text) {
        Some(v) => v,
        Option::None => {
            return Err(DecodeError::Syntax);
        },
    };
    match tab_from_json(&v) {
        Some(t) => Ok(t),
        Option::None => Err(DecodeError::Payload),
    }
}

/// Is this socket event a page appearing, vanishing or changing — the
/// moments a page list should be refreshed?
pub open spec fn spec_tab_change(w: JsonV) -> bool {
    match w {
        JsonV::Obj(ps) => match spec_obj_get(ps, "method"@) {
            Some(JsonV::Str(m)) => {
                ||| m == "Target.targetCreated"@
                ||| m == "Target.targetDestroyed"@
                ||| m == "Target.targetInfoChanged"@
            },
            _ => false,
        },
        _ => false,
    }
}

/// Does this socket message announce a page lifecycle change?  Text
/// that is not JSON announces nothing.
pub fn is_tab_change_event(text: &str) -> (r: bool)
    ensures
        match crate::json::json_model_of(text@) {
            Some(w) => r == spec_tab_change(w),
            Option::None => r == false,
        },
{
    let v = match crate::json::parse_json(text) {
        Some(v) => v,
        Option::None => {
            return false;
        },
    };
    match v.get("method") {
        Some(JsonValue::Str(m)) => str_eq(m.as_str(), "Target.targetCreated")
            || str_eq(m.as_str(), "Target.targetDestroyed")
            || str_eq(m.as_str(), "Target.targetInfoChanged"),
        _ => {
            proof {
                reveal_with_fuel(<JsonValue as View>::view, 2);
            }
            false
        },
    }
}

/// The file name a page's cookies are exported under: the page title,
/// with separators that file systems dislike written as underscores.
pub fn cookie_export_filename(title: &str) -> (r: String)
    ensures
        r@ == "cookies_"@ + title@.map_values(
            |c: char| if c == ' ' || c == '/' {
                '_'
            } else {
                c
            },
        ) + ".json"@,
{
    let n = title.unicode_len();
    let mut fixed: Vec<char> = Vec::new();
    let mut i: usize = 0;
    while i < n
        invariant
            0 <= i <= n,
            n == title@.len(),
            fixed@.len() == i,
            forall|k: int| 0 <= k < i ==> #[trigger] fixed@[k] == (if title@[k] == ' '
                || title@[k] == '/' {
                '_'
            } else {
                title@[k]
            }),
        decreases n - i,
    {
        let c = title.get_char(i);
        if c == ' ' || c == '/' {
            fixed.push('_');
        } else {
            fixed.push(c);
        }
        i = i + 1;
    }
    let mid = crate::json::chars_to_string(&fixed);
    let mut out: String = "cookies_".to_owned();
    out.append(mid.as_str());
    out.append(".json");
    proof {
        assert(fixed@ =~= title@.map_values(
            |c: char| if c == ' ' || c == '/' {
                '_'
            } else {
                c
            },
        ));
    }
    out
}

/// How a grant or revoke went, item by item.
pub enum ApplyOutcome {
    /// Every cookie operation succeeded.
    Full,
    /// The operation as a whole went through, but these items failed,
    /// by position.
    Partial(Vec<usize>),
}

/// The positions at which an item failed, in order.
pub open spec fn spec_failures(s: Seq<bool>) -> Seq<int>
    decreases s.len(),
{
    if s.len() == 0 {
        Seq::empty()
    } else {
        spec_failures(s.drop_last()) + if s.last() {
            Seq::empty()
        } else {
            seq![s.len() - 1]
        }
    }
}

/// The positions, as they stand in a result list.
pub open spec fn idxs_view(s: Seq<usize>) -> Seq<int> {
    Seq::new(s.len(), |i: int| if 0 <= i < s.len() { s[i] as int } else { 0int })
}

/// Classify a grant or revoke from its per-item results: full success
/// exactly when every item succeeded, else a partial result naming
/// each failed item — failures are collected, never dropped.
pub fn classify_apply(item_ok: &Vec<bool>) -> (r: ApplyOutcome)
    ensures
        (r is Full) == (forall|k: int| 0 <= k < item_ok@.len() ==> item_ok@[k]),
        r matches ApplyOutcome::Partial(f) ==> idxs_view(f@) == spec_failures(item_ok@) && f@.len() > 0,
{
    let mut failed: Vec<usize> = Vec::new();
    let mut i: usize = 0;
    while i < item_ok.len()
        invariant
            0 <= i <= item_ok@.len(),
            idxs_view(failed@) == spec_failures(item_ok@.take(i as int)),
            (failed@.len() == 0) == (forall|k: int| 0 <= k < i ==> item_ok@[k]),
        decreases item_ok.len() - i,
    {
        let ghost prev = failed@;
        proof {
            let w = item_ok@.take(i as int + 1);
            assert(w.drop_last() =~= item_ok@.take(i as int));
            assert(w.last() == item_ok@[i as int]);
        }
        if !item_ok[i] {
            failed.push(i);
            proof {
                assert(idxs_view(failed@) =~= spec_failures(item_ok@.take(i as int))
                    + seq![i as int]);
            }
        } else {
            proof {
                assert(idxs_view(failed@) =~= spec_failures(item_ok@.take(i as int)));
            }
        }
        i = i + 1;
    }
    proof {
        assert(item_ok@.take(item_ok@.len() as int) =~= item_ok@);
    }
    if failed.len() == 0 {
        ApplyOutcome::Full
    } else {
        ApplyOutcome::Partial(failed)
    }
}

/// The requests that materialize a shared session: turn network
/// control on, write each granted cookie — one request per cookie, in
/// the grant's order — then navigate the page to the target address.
/// A cookie-write that fails must not stop the rest: each is its own
/// request, and the navigation is issued regardless.
pub fn open_with_cookies_commands(url: &str, cookies: &Vec<Cookie>) -> (r: Vec<JsonValue>)
    requires
        forall|k: int| 0 <= k < cookies@.len()
            ==> crate::cookie::cookie_expires_wf((#[trigger] cookies@[k])@),
        cookies@.len() + 2 <= i64::MAX,
    ensures
        r@.len() == cookies@.len() + 2,
        cmd_has(r@[0]@, 1, "Network.enable"@),
        forall|k: int| 0 <= k < cookies@.len()
            ==> cmd_has((#[trigger] r@[k + 1])@, k + 2, "Network.setCookie"@),
        forall|k: int| 0 <= k < cookies@.len()
            ==> (cmd_params((#[trigger] r@[k + 1])@) matches Some(pp)
                && spec_cookie_of(pp) == Some(crate::cookie::cookie_core(cookies@[k]@))),
        cmd_has(r@[r@.len() - 1]@, 10000, "Page.navigate"@),
        cmd_params(r@[r@.len() - 1]@) matches Some(pp) && spec_obj_get(pp, "url"@)
            == Some(JsonV::Str(if spec_has_scheme(url@) {
            url@
        } else {
            "https://"@ + url@
        })),
{
    let mut out: Vec<JsonValue> = Vec::new();
    let enable = enable_network_cmd(1);
    out.push(enable);
    let mut i: usize = 0;
    while i < cookies.len()
        invariant
            0 <= i <= cookies@.len(),
            cookies@.len() + 2 <= i64::MAX,
            forall|k: int| 0 <= k < cookies@.len()
                ==> crate::cookie::cookie_expires_wf((#[trigger] cookies@[k])@),
            out@.len() == i + 1,
            cmd_has(out@[0]@, 1, "Network.enable"@),
            forall|k: int| 0 <= k < i
                ==> cmd_has((#[trigger] out@[k + 1])@, k + 2, "Network.setCookie"@),
            forall|k: int| 0 <= k < i
                ==> (cmd_params((#[trigger] out@[k + 1])@) matches Some(pp)
                    && spec_cookie_of(pp) == Some(crate::cookie::cookie_core(cookies@[k]@))),
        decreases cookies@.len() - i,
    {
        let id: i64 = (i as i64) + 2;
        let cmd = set_cookie_cmd(id, &cookies[i]);
        out.push(cmd);
        i = i + 1;
    }
    let nav_url = normalize_url(url);
    let nav = navigate_cmd(10000, nav_url.as_str());
    out.push(nav);
    out
}

/// The requests that destroy a shared session's cookies: one deletion
/// per reference, in the message's order.  Deletions are independent —
/// a failure on one must not stop the rest — so each stands alone.
pub fn revoke_commands(cookies: &Vec<RevokeCookie>) -> (r: Vec<JsonValue>)
    requires
        cookies@.len() + 10000 <= i64::MAX,
    ensures
        r@.len() == cookies@.len(),
        forall|k: int| 0 <= k < cookies@.len()
            ==> cmd_has((#[trigger] r@[k])@, 10000 + k, "Network.deleteCookies"@),
        forall|k: int| 0 <= k < cookies@.len()
            ==> (cmd_params((#[trigger] r@[k])@) matches Some(pp)
                && spec_revoke_cookie_of(pp) == Some(cookies@[k]@)),
{
    let mut out: Vec<JsonValue> = Vec::new();
    let mut i: usize = 0;
    while i < cookies.len()
        invariant
            0 <= i <= cookies@.len(),
            cookies@.len() + 10000 <= i64::MAX,
            out@.len() == i,
            forall|k: int| 0 <= k < i
                ==> cmd_has((#[trigger] out@[k])@, 10000 + k, "Network.deleteCookies"@),
            forall|k: int| 0 <= k < i
                ==> (cmd_params((#[trigger] out@[k])@) matches Some(pp)
                    && spec_revoke_cookie_of(pp) == Some(cookies@[k]@)),
        decreases cookies@.len() - i,
    {
        let id: i64 = (i as i64) + 10000;
        let cmd = delete_cookies_cmd(id, &cookies[i]);
        out.push(cmd);
        i = i + 1;
    }
    out
}

} // verus!
