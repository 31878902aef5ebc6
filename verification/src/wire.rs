//! The relay's wire protocol.
//!
//! Peers exchange text frames, each a JSON object whose `type` field
//! says what it is: a `Grant` shares a page's cookies, a `Revoke` asks
//! for their deletion.  A closed pair of message types, decoded through
//! that one discriminant: any other frame fails in one well-defined way.
use vstd::prelude::*;
use crate::json::{
    JsonValue, JsonV, spec_obj_get, distinct_keys, wf_json, int_only, lemma_wf_pairs,
    lemma_wf_seq, lemma_int_only_seq, lemma_int_only_pairs, str_eq, json_depth_le,
    lemma_seq_depth_le, lemma_pairs_depth_le, lemma_depth_le_mono, JSON_DEPTH_BOUND,
};
use crate::cookie::{
    Cookie, CookieV, cookie_wf, cookie_deep_wf, cookie_int_only, spec_cookie_of, spec_str_ok,
    spec_str_of, lemma_known_keys_distinct,
};
use crate::errors::{DecodeError, EncodeError};

verus! {

broadcast use crate::json::lemma_obj_get_push;

/// A cookie reference inside a `Revoke`: deletion needs no value, only
/// what identifies the cookie.
pub struct RevokeCookie {
    pub name: String,
    pub domain: String,
    pub path: String,
}

/// Mathematical model of a `RevokeCookie`.
#[verifier::ext_equal]
pub ghost struct RevokeCookieV {
    pub name: Seq<char>,
    pub domain: Seq<char>,
    pub path: Seq<char>,
}

impl View for RevokeCookie {
    type V = RevokeCookieV;

    open spec fn view(&self) -> RevokeCookieV {
        RevokeCookieV { name: self.name@, domain: self.domain@, path: self.path@ }
    }
}

/// A share: the source page's identifier, the address to open, and the
/// cookies to write there.
pub struct GrantMessage {
    pub tab_id: String,
    pub url: String,
    pub cookies: Vec<Cookie>,
}

/// Mathematical model of a `GrantMessage`.
#[verifier::ext_equal]
pub ghost struct GrantV {
    pub tab_id: Seq<char>,
    pub url: Seq<char>,
    pub cookies: Seq<CookieV>,
}

impl View for GrantMessage {
    type V = GrantV;

    open spec fn view(&self) -> GrantV {
        GrantV {
            tab_id: self.tab_id@,
            url: self.url@,
            cookies: Seq::new(
                self.cookies@.len(),
                |i: int|
                    if 0 <= i < self.cookies@.len() {
                        self.cookies@[i]@
                    } else {
                        self.cookies@[0]@
                    },
            ),
        }
    }
}

/// A withdrawal: the same source-page identifier a grant carried, and
/// the cookies to delete.
pub struct RevokeMessage {
    pub tab_id: String,
    pub cookies: Vec<RevokeCookie>,
}

/// Mathematical model of a `RevokeMessage`.
#[verifier::ext_equal]
pub ghost struct RevokeV {
    pub tab_id: Seq<char>,
    pub cookies: Seq<RevokeCookieV>,
}

impl View for RevokeMessage {
    type V = RevokeV;

    open spec fn view(&self) -> RevokeV {
        RevokeV {
            tab_id: self.tab_id@,
            cookies: Seq::new(
                self.cookies@.len(),
                |i: int|
                    if 0 <= i < self.cookies@.len() {
                        self.cookies@[i]@
                    } else {
                        RevokeCookieV { name: Seq::empty(), domain: Seq::empty(), path: Seq::empty() }
                    },
            ),
        }
    }
}

/// One frame of the wire protocol.
pub enum Frame {
    Grant(GrantMessage),
    Revoke(RevokeMessage),
}

/// Mathematical model of a frame.
#[verifier::ext_equal]
pub ghost enum FrameV {
    Grant(GrantV),
    Revoke(RevokeV),
}

impl View for Frame {
    type V = FrameV;

    open spec fn view(&self) -> FrameV {
        match self {
            Frame::Grant(g) => FrameV::Grant(g@),
            Frame::Revoke(m) => FrameV::Revoke(m@),
        }
    }
}

/// Every cookie of the grant can be written out.
pub open spec fn grant_wf(g: GrantV) -> bool {
    forall|i: int| 0 <= i < g.cookies.len() ==> cookie_wf(#[trigger] g.cookies[i])
}

/// Every cookie of the grant, pass-through values included.
pub open spec fn grant_deep_wf(g: GrantV) -> bool {
    forall|i: int| 0 <= i < g.cookies.len() ==> cookie_deep_wf(#[trigger] g.cookies[i])
}

/// Every number in the grant is an integer.
pub open spec fn grant_int_only(g: GrantV) -> bool {
    forall|i: int| 0 <= i < g.cookies.len() ==> cookie_int_only(#[trigger] g.cookies[i])
}

/// The frame can be written out.
pub open spec fn frame_wf(f: FrameV) -> bool {
    match f {
        FrameV::Grant(g) => grant_wf(g),
        FrameV::Revoke(_) => true,
    }
}

/// The frame can be handed to the text codec whole.
pub open spec fn frame_deep_wf(f: FrameV) -> bool {
    match f {
        FrameV::Grant(g) => grant_deep_wf(g),
        FrameV::Revoke(_) => true,
    }
}

/// Every number in the frame is an integer: its text reads back to the
/// same frame.
pub open spec fn frame_int_only(f: FrameV) -> bool {
    match f {
        FrameV::Grant(g) => grant_int_only(g),
        FrameV::Revoke(_) => true,
    }
}

/// The cookie reference an object denotes: its three identifying fields
/// must be strings.
pub open spec fn spec_revoke_cookie_of(ps: Seq<(Seq<char>, JsonV)>) -> Option<RevokeCookieV> {
    if spec_str_ok(ps, "name"@) && spec_str_ok(ps, "domain"@) && spec_str_ok(ps, "path"@) {
        Some(
            RevokeCookieV {
                name: spec_str_of(ps, "name"@),
                domain: spec_str_of(ps, "domain"@),
                path: spec_str_of(ps, "path"@),
            },
        )
    } else {
        None
    }
}

/// The cookies an array denotes; nothing if any element is not a
/// cookie object.
pub open spec fn spec_cookies_of(items: Seq<JsonV>) -> Option<Seq<CookieV>>
    decreases items.len(),
{
    if items.len() == 0 {
        Some(Seq::empty())
    } else {
        match spec_cookies_of(items.drop_last()) {
            Some(cs) => match items.last() {
                JsonV::Obj(ps) => match spec_cookie_of(ps) {
                    Some(c) => Some(cs.push(c)),
                    Option::None => None,
                },
                _ => None,
            },
            Option::None => None,
        }
    }
}

/// The cookie references an array denotes.
pub open spec fn spec_revokes_of(items: Seq<JsonV>) -> Option<Seq<RevokeCookieV>>
    decreases items.len(),
{
    if items.len() == 0 {
        Some(Seq::empty())
    } else {
        match spec_revokes_of(items.drop_last()) {
            Some(cs) => match items.last() {
                JsonV::Obj(ps) => match spec_revoke_cookie_of(ps) {
                    Some(c) => Some(cs.push(c)),
                    Option::None => None,
                },
                _ => None,
            },
            Option::None => None,
        }
    }
}

/// The grant a frame object denotes.
pub open spec fn spec_grant_of(ps: Seq<(Seq<char>, JsonV)>) -> Option<GrantV> {
    if spec_str_ok(ps, "tab_id"@) && spec_str_ok(ps, "url"@) {
        match spec_obj_get(ps, "cookies"@) {
            Some(JsonV::Arr(items)) => match spec_cookies_of(items) {
                Some(cs) => Some(
                    GrantV {
                        tab_id: spec_str_of(ps, "tab_id"@),
                        url: spec_str_of(ps, "url"@),
                        cookies: cs,
                    },
                ),
                Option::None => None,
            },
            _ => None,
        }
    } else {
        None
    }
}

/// The revocation a frame object denotes.
pub open spec fn spec_revoke_of(ps: Seq<(Seq<char>, JsonV)>) -> Option<RevokeV> {
    if spec_str_ok(ps, "tab_id"@) {
        match spec_obj_get(ps, "cookies"@) {
            Some(JsonV::Arr(items)) => match spec_revokes_of(items) {
                Some(cs) => Some(RevokeV { tab_id: spec_str_of(ps, "tab_id"@), cookies: cs }),
                Option::None => None,
            },
            _ => None,
        }
    } else {
        None
    }
}

/// What a JSON value means as a frame, or exactly why it does not.
pub open spec fn spec_frame_of(v: JsonV) -> Result<FrameV, DecodeError> {
    match v {
        JsonV::Obj(ps) => match spec_obj_get(ps, "type"@) {
            Some(JsonV::Str(t)) => if t == "Grant"@ {
                match spec_grant_of(ps) {
                    Some(g) => Ok(FrameV::Grant(g)),
                    Option::None => Err(DecodeError::Payload),
                }
            } else if t == "Revoke"@ {
                match spec_revoke_of(ps) {
                    Some(m) => Ok(FrameV::Revoke(m)),
                    Option::None => Err(DecodeError::Payload),
                }
            } else {
                Err(DecodeError::UnknownType)
            },
            _ => Err(DecodeError::MissingType),
        },
        _ => Err(DecodeError::NotObject),
    }
}

/// The frame keys and discriminants are pairwise distinct texts.
proof fn lemma_wire_keys_distinct()
    ensures
        "type"@ != "tab_id"@,
        "type"@ != "url"@,
        "type"@ != "cookies"@,
        "tab_id"@ != "url"@,
        "tab_id"@ != "cookies"@,
        "url"@ != "cookies"@,
        "Grant"@ != "Revoke"@,
{
    reveal_strlit("type");
    reveal_strlit("tab_id");
    reveal_strlit("url");
    reveal_strlit("cookies");
    reveal_strlit("Grant");
    reveal_strlit("Revoke");
    assert("type"@[0] == 't');
    assert("type"@[1] == 'y');
    assert("tab_id"@[0] == 't');
    assert("tab_id"@[1] == 'a');
    assert("url"@[0] == 'u');
    assert("cookies"@[0] == 'c');
    assert("Grant"@[0] == 'G');
    assert("Revoke"@[0] == 'R');
}

/// An array with one element that is no cookie object denotes no cookie
/// list.
pub proof fn lemma_cookies_of_fail(items: Seq<JsonV>, j: int)
    requires
        0 <= j < items.len(),
        match items[j] {
            JsonV::Obj(ps) => spec_cookie_of(ps) is None,
            _ => true,
        },
    ensures
        spec_cookies_of(items) is None,
    decreases items.len(),
{
    if j == items.len() - 1 {
    } else {
        assert(items.drop_last()[j] == items[j]);
        lemma_cookies_of_fail(items.drop_last(), j);
    }
}

/// An array with one element that is no cookie reference denotes no
/// reference list.
proof fn lemma_revokes_of_fail(items: Seq<JsonV>, j: int)
    requires
        0 <= j < items.len(),
        match items[j] {
            JsonV::Obj(ps) => spec_revoke_cookie_of(ps) is None,
            _ => true,
        },
    ensures
        spec_revokes_of(items) is None,
    decreases items.len(),
{
    if j == items.len() - 1 {
    } else {
        assert(items.drop_last()[j] == items[j]);
        lemma_revokes_of_fail(items.drop_last(), j);
    }
}

impl RevokeCookie {
    /// A structural copy: the result denotes the same reference.
    pub fn deep_clone(&self) -> (r: RevokeCookie)
        ensures
            r@ == self@,
    {
        RevokeCookie {
            name: self.name.clone(),
            domain: self.domain.clone(),
            path: self.path.clone(),
        }
    }

    /// Write the reference as a JSON object of its three fields.  The
    /// object reads back to exactly this reference.
    pub fn to_json(&self) -> (r: JsonValue)
        ensures
            r@ is Obj,
            r@->Obj_0.len() == 3,
            spec_revoke_cookie_of(r@->Obj_0) == Some(self@),
            distinct_keys(r@->Obj_0),
            wf_json(r@),
            int_only(r@),
            json_depth_le(r@, 2),
    {
        let ghost cv = self@;
        proof {
            lemma_known_keys_distinct();
        }
        let mut pairs: Vec<(String, JsonValue)> = Vec::new();
        let ghost mut ps: Seq<(Seq<char>, JsonV)> = Seq::empty();
        pairs.push(("name".to_owned(), JsonValue::Str(self.name.clone())));
        proof {
            crate::json::lemma_obj_get_absent(ps, "name"@);
            crate::json::lemma_distinct_push(ps, ("name"@, JsonV::Str(cv.name)));
            ps = ps.push(("name"@, JsonV::Str(cv.name)));
            assert(spec_obj_get(ps, "name"@) == Some(JsonV::Str(cv.name)));
            assert(spec_obj_get(ps, "domain"@) is None);
            assert(spec_obj_get(ps, "path"@) is None);
        }
        pairs.push(("domain".to_owned(), JsonValue::Str(self.domain.clone())));
        proof {
            crate::json::lemma_obj_get_absent(ps, "domain"@);
            crate::json::lemma_distinct_push(ps, ("domain"@, JsonV::Str(cv.domain)));
            ps = ps.push(("domain"@, JsonV::Str(cv.domain)));
            assert(spec_obj_get(ps, "name"@) == Some(JsonV::Str(cv.name)));
            assert(spec_obj_get(ps, "domain"@) == Some(JsonV::Str(cv.domain)));
            assert(spec_obj_get(ps, "path"@) is None);
        }
        pairs.push(("path".to_owned(), JsonValue::Str(self.path.clone())));
        proof {
            crate::json::lemma_obj_get_absent(ps, "path"@);
            crate::json::lemma_distinct_push(ps, ("path"@, JsonV::Str(cv.path)));
            ps = ps.push(("path"@, JsonV::Str(cv.path)));
            assert(spec_obj_get(ps, "name"@) == Some(JsonV::Str(cv.name)));
            assert(spec_obj_get(ps, "domain"@) == Some(JsonV::Str(cv.domain)));
            assert(spec_obj_get(ps, "path"@) == Some(JsonV::Str(cv.path)));
        }
        let r = JsonValue::Obj(pairs);
        proof {
            reveal_with_fuel(<JsonValue as View>::view, 2);
            let obj = r@->Obj_0;
            assert(forall|k: int| 0 <= k < obj.len() ==> #[trigger] obj[k] == ps[k]);
            assert(obj =~= ps);
            assert(spec_revoke_cookie_of(ps) matches Some(sc) && sc =~= cv);
            assert(forall|j: int| 0 <= j < ps.len() ==> wf_json((#[trigger] ps[j]).1));
            lemma_wf_pairs(ps);
            assert(forall|j: int| 0 <= j < ps.len() ==> int_only((#[trigger] ps[j]).1));
            lemma_int_only_pairs(ps);
            assert(forall|j: int| 0 <= j < ps.len()
                ==> json_depth_le((#[trigger] ps[j]).1, 1));
            lemma_pairs_depth_le(ps, 1);
            assert(wf_json(r@));
            assert(int_only(r@));
            assert(json_depth_le(r@, 2));
        }
        r
    }

    /// Read a cookie reference out of a JSON value: exactly the
    /// reference the object denotes, or nothing.
    pub fn from_json(v: &JsonValue) -> (r: Option<RevokeCookie>)
        ensures
            match v@ {
                JsonV::Obj(ps) => {
                    &&& (r matches Some(c) ==> spec_revoke_cookie_of(ps) == Some(c@))
                    &&& (r is None ==> spec_revoke_cookie_of(ps) is None)
                },
                _ => r is None,
            },
    {
        proof {
            reveal_with_fuel(<JsonValue as View>::view, 2);
        }
        match v {
            JsonValue::Obj(_) => {
                let name = match v.get("name") {
                    Some(JsonValue::Str(s)) => s.clone(),
                    _ => {
                        return None;
                    },
                };
                let domain = match v.get("domain") {
                    Some(JsonValue::Str(s)) => s.clone(),
                    _ => {
                        return None;
                    },
                };
                let path = match v.get("path") {
                    Some(JsonValue::Str(s)) => s.clone(),
                    _ => {
                        return None;
                    },
                };
                let c = RevokeCookie { name, domain, path };
                proof {
                    assert(spec_revoke_cookie_of(v@->Obj_0) matches Some(sc) && sc =~= c@);
                }
                Some(c)
            },
            _ => None,
        }
    }
}

impl GrantMessage {
    /// A structural copy: the result denotes the same message.
    pub fn deep_clone(&self) -> (r: GrantMessage)
        ensures
            r@ == self@,
    {
        let mut cookies: Vec<Cookie> = Vec::new();
        let mut i: usize = 0;
        while i < self.cookies.len()
            invariant
                0 <= i <= self.cookies.len(),
                cookies@.len() == i,
                forall|k: int| 0 <= k < i ==> #[trigger] cookies@[k]@ == self.cookies@[k]@,
            decreases self.cookies.len() - i,
        {
            let c = self.cookies[i].deep_clone();
            cookies.push(c);
            i = i + 1;
        }
        let r = GrantMessage {
            tab_id: self.tab_id.clone(),
            url: self.url.clone(),
            cookies,
        };
        proof {
            assert(r@.cookies =~= self@.cookies);
            assert(r@ =~= self@);
        }
        r
    }
}

impl RevokeMessage {
    /// A structural copy: the result denotes the same message.
    pub fn deep_clone(&self) -> (r: RevokeMessage)
        ensures
            r@ == self@,
    {
        let mut cookies: Vec<RevokeCookie> = Vec::new();
        let mut i: usize = 0;
        while i < self.cookies.len()
            invariant
                0 <= i <= self.cookies.len(),
                cookies@.len() == i,
                forall|k: int| 0 <= k < i ==> #[trigger] cookies@[k]@ == self.cookies@[k]@,
            decreases self.cookies.len() - i,
        {
            let c = self.cookies[i].deep_clone();
            cookies.push(c);
            i = i + 1;
        }
        let r = RevokeMessage { tab_id: self.tab_id.clone(), cookies };
        proof {
            assert(r@.cookies =~= self@.cookies);
            assert(r@ =~= self@);
        }
        r
    }
}

impl Frame {
    /// A structural copy: the result denotes the same frame.
    pub fn deep_clone(&self) -> (r: Frame)
        ensures
            r@ == self@,
    {
        match self {
            Frame::Grant(g) => Frame::Grant(g.deep_clone()),
            Frame::Revoke(m) => Frame::Revoke(m.deep_clone()),
        }
    }
}


impl Frame {
    /// Does the library write this frame out whole?
    pub fn is_deep_wf(&self) -> (r: bool)
        ensures
            r == frame_deep_wf(self@),
    {
        match self {
            Frame::Grant(g) => {
                let ghost gv = g@;
                proof {
                    assert(forall|k: int| 0 <= k < gv.cookies.len()
                        ==> #[trigger] gv.cookies[k] == g.cookies@[k]@);
                }
                let mut i: usize = 0;
                while i < g.cookies.len()
                    invariant
                        0 <= i <= g.cookies.len(),
                        self@ == FrameV::Grant(gv),
                        gv == g@,
                        gv.cookies.len() == g.cookies@.len(),
                        forall|k: int| 0 <= k < gv.cookies.len()
                            ==> #[trigger] gv.cookies[k] == g.cookies@[k]@,
                        forall|k: int| 0 <= k < i ==> cookie_deep_wf(#[trigger] gv.cookies[k]),
                    decreases g.cookies.len() - i,
                {
                    if !g.cookies[i].is_deep_wf() {
                        proof {
                            assert(!cookie_deep_wf(gv.cookies[i as int]));
                        }
                        return false;
                    }
                    i = i + 1;
                }
                true
            },
            Frame::Revoke(_) => true,
        }
    }

    /// Write the frame as its JSON object: the `type` discriminant
    /// first, then the message fields, the cookies as an array of
    /// objects.  The object reads back to exactly this frame.
    #[verifier::rlimit(100)]
    pub fn to_json(&self) -> (r: JsonValue)
        requires
            frame_wf(self@),
        ensures
            r@ is Obj,
            r@->Obj_0.len() == match self@ {
                FrameV::Grant(_) => 4int,
                FrameV::Revoke(_) => 3int,
            },
            spec_frame_of(r@) == Ok::<FrameV, DecodeError>(self@),
            frame_deep_wf(self@) ==> wf_json(r@),
            frame_deep_wf(self@) ==> json_depth_le(r@, JSON_DEPTH_BOUND as int),
            frame_int_only(self@) ==> int_only(r@),
    {
        proof {
            lemma_wire_keys_distinct();
        }
        match self {
            Frame::Grant(g) => {
                let ghost gv = g@;
                proof {
                    assert(forall|k: int| 0 <= k < gv.cookies.len()
                        ==> #[trigger] gv.cookies[k] == g.cookies@[k]@);
                }
                let mut items: Vec<JsonValue> = Vec::new();
                let ghost mut items_v: Seq<JsonV> = Seq::empty();
                let mut i: usize = 0;
                while i < g.cookies.len()
                    invariant
                        0 <= i <= g.cookies.len(),
                        self@ == FrameV::Grant(gv),
                        gv == g@,
                        frame_wf(self@),
                        gv.cookies.len() == g.cookies@.len(),
                        forall|k: int| 0 <= k < gv.cookies.len()
                            ==> #[trigger] gv.cookies[k] == g.cookies@[k]@,
                        items_v.len() == i,
                        items@.len() == i,
                        forall|k: int| 0 <= k < i ==> #[trigger] items_v[k] == items@[k]@,
                        spec_cookies_of(items_v) == Some(gv.cookies.take(i as int)),
                        forall|k: int| 0 <= k < i
                            ==> (cookie_deep_wf(gv.cookies[k]) ==> wf_json(#[trigger] items_v[k])),
                        forall|k: int| 0 <= k < i
                            ==> (cookie_deep_wf(gv.cookies[k]) ==> json_depth_le(
                                #[trigger] items_v[k],
                                (JSON_DEPTH_BOUND - 2) as int,
                            )),
                        forall|k: int| 0 <= k < i
                            ==> (cookie_int_only(gv.cookies[k]) ==> int_only(#[trigger] items_v[k])),
                    decreases g.cookies.len() - i,
                {
                    proof {
                        assert(cookie_wf(gv.cookies[i as int]));
                    }
                    let cj = g.cookies[i].to_json();
                    let ghost prev = items_v;
                    items.push(cj);
                    proof {
                        items_v = items_v.push(cj@);
                        assert(items_v.drop_last() =~= prev);
                        assert(items_v.last() == cj@);
                        assert(spec_cookies_of(items_v) == Some(
                            gv.cookies.take(i as int).push(gv.cookies[i as int]),
                        ));
                        assert(gv.cookies.take(i as int).push(gv.cookies[i as int])
                            =~= gv.cookies.take(i as int + 1));
                    }
                    i = i + 1;
                }
                proof {
                    assert(gv.cookies.take(g.cookies@.len() as int) =~= gv.cookies);
                    assert(spec_cookies_of(items_v) == Some(gv.cookies));
                }
                let arr = JsonValue::Arr(items);
                proof {
                    reveal_with_fuel(<JsonValue as View>::view, 2);
                    assert(arr@->Arr_0 =~= items_v);
                    assert(arr@ == JsonV::Arr(items_v));
                }
                let ghost arr_v = JsonV::Arr(items_v);
                let mut pairs: Vec<(String, JsonValue)> = Vec::new();
                let ghost mut ps: Seq<(Seq<char>, JsonV)> = Seq::empty();
                pairs.push(("type".to_owned(), JsonValue::Str("Grant".to_owned())));
                proof {
                    crate::json::lemma_obj_get_absent(ps, "type"@);
                    crate::json::lemma_distinct_push(ps, ("type"@, JsonV::Str("Grant"@)));
                    ps = ps.push(("type"@, JsonV::Str("Grant"@)));
                    assert(spec_obj_get(ps, "type"@) == Some(JsonV::Str("Grant"@)));
                    assert(spec_obj_get(ps, "tab_id"@) is None);
                    assert(spec_obj_get(ps, "url"@) is None);
                    assert(spec_obj_get(ps, "cookies"@) is None);
                }
                pairs.push(("tab_id".to_owned(), JsonValue::Str(g.tab_id.clone())));
                proof {
                    crate::json::lemma_obj_get_absent(ps, "tab_id"@);
                    crate::json::lemma_distinct_push(ps, ("tab_id"@, JsonV::Str(gv.tab_id)));
                    ps = ps.push(("tab_id"@, JsonV::Str(gv.tab_id)));
                    assert(spec_obj_get(ps, "type"@) == Some(JsonV::Str("Grant"@)));
                    assert(spec_obj_get(ps, "tab_id"@) == Some(JsonV::Str(gv.tab_id)));
                    assert(spec_obj_get(ps, "url"@) is None);
                    assert(spec_obj_get(ps, "cookies"@) is None);
                }
                pairs.push(("url".to_owned(), JsonValue::Str(g.url.clone())));
                proof {
                    crate::json::lemma_obj_get_absent(ps, "url"@);
                    crate::json::lemma_distinct_push(ps, ("url"@, JsonV::Str(gv.url)));
                    ps = ps.push(("url"@, JsonV::Str(gv.url)));
                    assert(spec_obj_get(ps, "type"@) == Some(JsonV::Str("Grant"@)));
                    assert(spec_obj_get(ps, "tab_id"@) == Some(JsonV::Str(gv.tab_id)));
                    assert(spec_obj_get(ps, "url"@) == Some(JsonV::Str(gv.url)));
                    assert(spec_obj_get(ps, "cookies"@) is None);
                }
                pairs.push(("cookies".to_owned(), arr));
                proof {
                    crate::json::lemma_obj_get_absent(ps, "cookies"@);
                    crate::json::lemma_distinct_push(ps, ("cookies"@, arr_v));
                    ps = ps.push(("cookies"@, arr_v));
                    assert(spec_obj_get(ps, "type"@) == Some(JsonV::Str("Grant"@)));
                    assert(spec_obj_get(ps, "tab_id"@) == Some(JsonV::Str(gv.tab_id)));
                    assert(spec_obj_get(ps, "url"@) == Some(JsonV::Str(gv.url)));
                    assert(spec_obj_get(ps, "cookies"@) == Some(arr_v));
                }
                let r = JsonValue::Obj(pairs);
                proof {
                    reveal_with_fuel(<JsonValue as View>::view, 2);
                    let obj = r@->Obj_0;
                    assert(forall|k: int| 0 <= k < obj.len() ==> #[trigger] obj[k] == ps[k]);
                    assert(obj =~= ps);
                    assert(spec_grant_of(ps) matches Some(sg) && sg =~= gv);
                    assert(spec_frame_of(r@) == Ok::<FrameV, DecodeError>(self@));
                    if frame_deep_wf(self@) {
                        assert forall|k: int| 0 <= k < items_v.len()
                            implies wf_json(#[trigger] items_v[k]) by {
                            assert(cookie_deep_wf(gv.cookies[k]));
                        }
                        lemma_wf_seq(items_v);
                        assert(forall|j: int| 0 <= j < ps.len()
                            ==> wf_json((#[trigger] ps[j]).1));
                        lemma_wf_pairs(ps);
                        assert(wf_json(r@));
                        assert forall|k: int| 0 <= k < items_v.len()
                            implies json_depth_le(
                            #[trigger] items_v[k],
                            (JSON_DEPTH_BOUND - 2) as int,
                        ) by {
                            assert(cookie_deep_wf(gv.cookies[k]));
                        }
                        lemma_seq_depth_le(items_v, (JSON_DEPTH_BOUND - 2) as int);
                        assert(json_depth_le(arr_v, (JSON_DEPTH_BOUND - 1) as int));
                        assert(forall|j: int| 0 <= j < ps.len()
                            ==> json_depth_le((#[trigger] ps[j]).1, (JSON_DEPTH_BOUND - 1) as int));
                        lemma_pairs_depth_le(ps, (JSON_DEPTH_BOUND - 1) as int);
                        assert(json_depth_le(r@, JSON_DEPTH_BOUND as int));
                    }
                    if frame_int_only(self@) {
                        assert forall|k: int| 0 <= k < items_v.len()
                            implies int_only(#[trigger] items_v[k]) by {
                            assert(cookie_int_only(gv.cookies[k]));
                        }
                        lemma_int_only_seq(items_v);
                        assert(forall|j: int| 0 <= j < ps.len()
                            ==> int_only((#[trigger] ps[j]).1));
                        lemma_int_only_pairs(ps);
                        assert(int_only(r@));
                    }
                }
                r
            },
            Frame::Revoke(m) => {
                let ghost mv = m@;
                proof {
                    assert(forall|k: int| 0 <= k < mv.cookies.len()
                        ==> #[trigger] mv.cookies[k] == m.cookies@[k]@);
                }
                let mut items: Vec<JsonValue> = Vec::new();
                let ghost mut items_v: Seq<JsonV> = Seq::empty();
                let mut i: usize = 0;
                while i < m.cookies.len()
                    invariant
                        0 <= i <= m.cookies.len(),
                        self@ == FrameV::Revoke(mv),
                        mv == m@,
                        mv.cookies.len() == m.cookies@.len(),
                        forall|k: int| 0 <= k < mv.cookies.len()
                            ==> #[trigger] mv.cookies[k] == m.cookies@[k]@,
                        items_v.len() == i,
                        items@.len() == i,
                        forall|k: int| 0 <= k < i ==> #[trigger] items_v[k] == items@[k]@,
                        spec_revokes_of(items_v) == Some(mv.cookies.take(i as int)),
                        forall|k: int| 0 <= k < i ==> wf_json(#[trigger] items_v[k]),
                        forall|k: int| 0 <= k < i ==> int_only(#[trigger] items_v[k]),
                        forall|k: int| 0 <= k < i ==> json_depth_le(#[trigger] items_v[k], 2),
                    decreases m.cookies.len() - i,
                {
                    let cj = m.cookies[i].to_json();
                    let ghost prev = items_v;
                    items.push(cj);
                    proof {
                        items_v = items_v.push(cj@);
                        assert(items_v.drop_last() =~= prev);
                        assert(items_v.last() == cj@);
                        assert(spec_revokes_of(items_v) == Some(
                            mv.cookies.take(i as int).push(mv.cookies[i as int]),
                        ));
                        assert(mv.cookies.take(i as int).push(mv.cookies[i as int])
                            =~= mv.cookies.take(i as int + 1));
                    }
                    i = i + 1;
                }
                proof {
                    assert(mv.cookies.take(m.cookies@.len() as int) =~= mv.cookies);
                    assert(spec_revokes_of(items_v) == Some(mv.cookies));
                }
                let arr = JsonValue::Arr(items);
                proof {
                    reveal_with_fuel(<JsonValue as View>::view, 2);
                    assert(arr@->Arr_0 =~= items_v);
                    assert(arr@ == JsonV::Arr(items_v));
                }
                let ghost arr_v = JsonV::Arr(items_v);
                let mut pairs: Vec<(String, JsonValue)> = Vec::new();
                let ghost mut ps: Seq<(Seq<char>, JsonV)> = Seq::empty();
                pairs.push(("type".to_owned(), JsonValue::Str("Revoke".to_owned())));
                proof {
                    crate::json::lemma_obj_get_absent(ps, "type"@);
                    crate::json::lemma_distinct_push(ps, ("type"@, JsonV::Str("Revoke"@)));
                    ps = ps.push(("type"@, JsonV::Str("Revoke"@)));
                    assert(spec_obj_get(ps, "type"@) == Some(JsonV::Str("Revoke"@)));
                    assert(spec_obj_get(ps, "tab_id"@) is None);
                    assert(spec_obj_get(ps, "cookies"@) is None);
                }
                pairs.push(("tab_id".to_owned(), JsonValue::Str(m.tab_id.clone())));
                proof {
                    crate::json::lemma_obj_get_absent(ps, "tab_id"@);
                    crate::json::lemma_distinct_push(ps, ("tab_id"@, JsonV::Str(mv.tab_id)));
                    ps = ps.push(("tab_id"@, JsonV::Str(mv.tab_id)));
                    assert(spec_obj_get(ps, "type"@) == Some(JsonV::Str("Revoke"@)));
                    assert(spec_obj_get(ps, "tab_id"@) == Some(JsonV::Str(mv.tab_id)));
                    assert(spec_obj_get(ps, "cookies"@) is None);
                }
                pairs.push(("cookies".to_owned(), arr));
                proof {
                    crate::json::lemma_obj_get_absent(ps, "cookies"@);
                    crate::json::lemma_distinct_push(ps, ("cookies"@, arr_v));
                    ps = ps.push(("cookies"@, arr_v));
                    assert(spec_obj_get(ps, "type"@) == Some(JsonV::Str("Revoke"@)));
                    assert(spec_obj_get(ps, "tab_id"@) == Some(JsonV::Str(mv.tab_id)));
                    assert(spec_obj_get(ps, "cookies"@) == Some(arr_v));
                }
                let r = JsonValue::Obj(pairs);
                proof {
                    reveal_with_fuel(<JsonValue as View>::view, 2);
                    let obj = r@->Obj_0;
                    assert(forall|k: int| 0 <= k < obj.len() ==> #[trigger] obj[k] == ps[k]);
                    assert(obj =~= ps);
                    assert(spec_revoke_of(ps) matches Some(sm) && sm =~= mv);
                    assert(spec_frame_of(r@) == Ok::<FrameV, DecodeError>(self@));
                    lemma_wf_seq(items_v);
                    lemma_int_only_seq(items_v);
                    assert(forall|j: int| 0 <= j < ps.len() ==> wf_json((#[trigger] ps[j]).1));
                    lemma_wf_pairs(ps);
                    assert(wf_json(r@));
                    assert(forall|j: int| 0 <= j < ps.len() ==> int_only((#[trigger] ps[j]).1));
                    lemma_int_only_pairs(ps);
                    assert(int_only(r@));
                    assert forall|k: int| 0 <= k < items_v.len()
                        implies json_depth_le(
                        #[trigger] items_v[k],
                        (JSON_DEPTH_BOUND - 2) as int,
                    ) by {
                        lemma_depth_le_mono(items_v[k], 2, (JSON_DEPTH_BOUND - 2) as int);
                    }
                    lemma_seq_depth_le(items_v, (JSON_DEPTH_BOUND - 2) as int);
                    assert(json_depth_le(arr_v, (JSON_DEPTH_BOUND - 1) as int));
                    assert(forall|j: int| 0 <= j < ps.len()
                        ==> json_depth_le((#[trigger] ps[j]).1, (JSON_DEPTH_BOUND - 1) as int));
                    lemma_pairs_depth_le(ps, (JSON_DEPTH_BOUND - 1) as int);
                    assert(json_depth_le(r@, JSON_DEPTH_BOUND as int));
                }
                r
            },
        }
    }

    /// Read a frame out of a JSON value, through the `type`
    /// discriminant: exactly the frame the value denotes, or exactly
    /// why there is none.
    pub fn from_json(v: &JsonValue) -> (r: Result<Frame, DecodeError>)
        ensures
            r matches Ok(f) ==> spec_frame_of(v@) == Ok::<FrameV, DecodeError>(f@) && frame_wf(f@),
            r matches Err(e) ==> spec_frame_of(v@) == Err::<FrameV, DecodeError>(e),
    {
        proof {
            reveal_with_fuel(<JsonValue as View>::view, 2);
        }
        match v {
            JsonValue::Obj(_) => {
                let ghost ps = v@->Obj_0;
                let t = match v.get("type") {
                    Some(JsonValue::Str(t)) => t,
                    _ => {
                        return Err(DecodeError::MissingType);
                    },
                };
                if str_eq(t.as_str(), "Grant") {
                    let tab_id = match v.get("tab_id") {
                        Some(JsonValue::Str(s)) => s.clone(),
                        _ => {
                            return Err(DecodeError::Payload);
                        },
                    };
                    let url = match v.get("url") {
                        Some(JsonValue::Str(s)) => s.clone(),
                        _ => {
                            return Err(DecodeError::Payload);
                        },
                    };
                    let items = match v.get("cookies") {
                        Some(JsonValue::Arr(items)) => items,
                        _ => {
                            return Err(DecodeError::Payload);
                        },
                    };
                    let ghost items_v = spec_obj_get(ps, "cookies"@)->Some_0->Arr_0;
                    proof {
                        assert(spec_obj_get(ps, "cookies"@) == Some(JsonV::Arr(items_v)));
                        assert(items_v.len() == items@.len());
                        assert(forall|k: int| 0 <= k < items_v.len()
                            ==> #[trigger] items_v[k] == items@[k]@);
                    }
                    let mut cookies: Vec<Cookie> = Vec::new();
                    let ghost mut cs_v: Seq<CookieV> = Seq::empty();
                    let mut i: usize = 0;
                    while i < items.len()
                        invariant
                            0 <= i <= items.len(),
                            v@ == JsonV::Obj(ps),
                            spec_obj_get(ps, "type"@) == Some(JsonV::Str(t@)),
                            t@ == "Grant"@,
                            spec_str_ok(ps, "tab_id"@),
                            spec_str_ok(ps, "url"@),
                            tab_id@ == spec_str_of(ps, "tab_id"@),
                            url@ == spec_str_of(ps, "url"@),
                            spec_obj_get(ps, "cookies"@) == Some(JsonV::Arr(items_v)),
                            items_v.len() == items@.len(),
                            forall|k: int| 0 <= k < items_v.len()
                                ==> #[trigger] items_v[k] == items@[k]@,
                            cs_v.len() == i,
                            cookies@.len() == i,
                            forall|k: int| 0 <= k < i ==> #[trigger] cs_v[k] == cookies@[k]@,
                            spec_cookies_of(items_v.take(i as int)) == Some(cs_v),
                            forall|k: int| 0 <= k < i ==> cookie_wf(#[trigger] cs_v[k]),
                        decreases items.len() - i,
                    {
                        match Cookie::from_json(&items[i]) {
                            Some(c) => {
                                let ghost prev = cs_v;
                                proof {
                                    cs_v = cs_v.push(c@);
                                    let w = items_v.take(i as int + 1);
                                    assert(w.drop_last() =~= items_v.take(i as int));
                                    assert(w.last() == items_v[i as int]);
                                    assert(spec_cookies_of(w) == Some(prev.push(c@)));
                                }
                                cookies.push(c);
                            },
                            Option::None => {
                                proof {
                                    assert(items_v[i as int] == items@[i as int]@);
                                    lemma_cookies_of_fail(items_v, i as int);
                                    assert(spec_grant_of(ps) is None);
                                }
                                return Err(DecodeError::Payload);
                            },
                        }
                        i = i + 1;
                    }
                    proof {
                        assert(items_v.take(items_v.len() as int) =~= items_v);
                        assert(spec_cookies_of(items_v) == Some(cs_v));
                    }
                    let g = GrantMessage { tab_id, url, cookies };
                    proof {
                        assert(g@.cookies =~= cs_v);
                        assert(spec_grant_of(ps) matches Some(sg) && g@ =~= sg);
                        assert(grant_wf(g@));
                    }
                    Ok(Frame::Grant(g))
                } else if str_eq(t.as_str(), "Revoke") {
                    let tab_id = match v.get("tab_id") {
                        Some(JsonValue::Str(s)) => s.clone(),
                        _ => {
                            return Err(DecodeError::Payload);
                        },
                    };
                    let items = match v.get("cookies") {
                        Some(JsonValue::Arr(items)) => items,
                        _ => {
                            return Err(DecodeError::Payload);
                        },
                    };
                    let ghost items_v = spec_obj_get(ps, "cookies"@)->Some_0->Arr_0;
                    proof {
                        assert(spec_obj_get(ps, "cookies"@) == Some(JsonV::Arr(items_v)));
                        assert(items_v.len() == items@.len());
                        assert(forall|k: int| 0 <= k < items_v.len()
                            ==> #[trigger] items_v[k] == items@[k]@);
                    }
                    let mut cookies: Vec<RevokeCookie> = Vec::new();
                    let ghost mut cs_v: Seq<RevokeCookieV> = Seq::empty();
                    let mut i: usize = 0;
                    while i < items.len()
                        invariant
                            0 <= i <= items.len(),
                            v@ == JsonV::Obj(ps),
                            spec_obj_get(ps, "type"@) == Some(JsonV::Str(t@)),
                            t@ != "Grant"@,
                            t@ == "Revoke"@,
                            spec_str_ok(ps, "tab_id"@),
                            tab_id@ == spec_str_of(ps, "tab_id"@),
                            spec_obj_get(ps, "cookies"@) == Some(JsonV::Arr(items_v)),
                            items_v.len() == items@.len(),
                            forall|k: int| 0 <= k < items_v.len()
                                ==> #[trigger] items_v[k] == items@[k]@,
                            cs_v.len() == i,
                            cookies@.len() == i,
                            forall|k: int| 0 <= k < i ==> #[trigger] cs_v[k] == cookies@[k]@,
                            spec_revokes_of(items_v.take(i as int)) == Some(cs_v),
                        decreases items.len() - i,
                    {
                        match RevokeCookie::from_json(&items[i]) {
                            Some(c) => {
                                let ghost prev = cs_v;
                                proof {
                                    cs_v = cs_v.push(c@);
                                    let w = items_v.take(i as int + 1);
                                    assert(w.drop_last() =~= items_v.take(i as int));
                                    assert(w.last() == items_v[i as int]);
                                    assert(spec_revokes_of(w) == Some(prev.push(c@)));
                                }
                                cookies.push(c);
                            },
                            Option::None => {
                                proof {
                                    assert(items_v[i as int] == items@[i as int]@);
                                    lemma_revokes_of_fail(items_v, i as int);
                                    assert(spec_revoke_of(ps) is None);
                                }
                                return Err(DecodeError::Payload);
                            },
                        }
                        i = i + 1;
                    }
                    proof {
                        assert(items_v.take(items_v.len() as int) =~= items_v);
                        assert(spec_revokes_of(items_v) == Some(cs_v));
                    }
                    let m = RevokeMessage { tab_id, cookies };
                    proof {
                        assert(m@.cookies =~= cs_v);
                        assert(spec_revoke_of(ps) matches Some(sm) && m@ =~= sm);
                    }
                    Ok(Frame::Revoke(m))
                } else {
                    Err(DecodeError::UnknownType)
                }
            },
            _ => Err(DecodeError::NotObject),
        }
    }

    /// Write the frame as one text frame for the wire.  This succeeds
    /// exactly on frames the library writes out whole — well-formed
    /// pass-through values within the codec's depth bound; the text is
    /// JSON, and — when the frame's numbers are integers — denotes
    /// exactly this frame, so a receiver reads the same share or
    /// withdrawal that was published.
    pub fn to_text(&self) -> (r: Result<String, EncodeError>)
        ensures
            (r is Ok) == frame_deep_wf(self@),
            r matches Ok(t) ==> crate::json::json_model_of(t@) is Some,
            r matches Ok(t) ==> (frame_int_only(self@)
                ==> (crate::json::json_model_of(t@) matches Some(w)
                    && spec_frame_of(w) == Ok::<FrameV, DecodeError>(self@))),
    {
        if !self.is_deep_wf() {
            return Err(EncodeError::NotWellFormed);
        }
        proof {
            match self@ {
                FrameV::Grant(g) => {
                    assert forall|i: int| 0 <= i < g.cookies.len()
                        implies cookie_wf(#[trigger] g.cookies[i]) by {
                        assert(cookie_deep_wf(g.cookies[i]));
                    }
                },
                FrameV::Revoke(_) => {},
            }
            assert(frame_wf(self@));
        }
        let tree = self.to_json();
        proof {
            assert(wf_json(tree@));
        }
        let t = crate::json::render_json(&tree);
        Ok(t)
    }

    /// Read one text frame from the wire: the frame its JSON denotes,
    /// or exactly why it was rejected — text that is not JSON is
    /// `Syntax`, and the other errors say what the object lacks.
    pub fn from_text(s: &str) -> (r: Result<Frame, DecodeError>)
        ensures
            match crate::json::json_model_of(s@) {
                Some(w) => {
                    &&& (r matches Ok(f)
                        ==> spec_frame_of(w) == Ok::<FrameV, DecodeError>(f@) && frame_wf(f@))
                    &&& (r matches Err(e) ==> spec_frame_of(w) == Err::<FrameV, DecodeError>(e))
                },
                Option::None => r == Err::<Frame, DecodeError>(DecodeError::Syntax),
            },
    {
        match crate::json::parse_json(s) {
            Some(v) => Frame::from_json(&v),
            Option::None => Err(DecodeError::Syntax),
        }
    }
}


} // verus!
