//! Cookies as the protocol carries them.
//!
//! A cookie names the fields the protocol itself reads — name, value,
//! domain, path, and the optional attributes a grant writes into the
//! receiving browser — and keeps every other field of the original JSON
//! object opaquely, so that nothing a browser sent is dropped on the way
//! through a relay.
use vstd::prelude::*;
use crate::json::{JsonValue, JsonV, spec_obj_get, distinct_keys, wf_pairs, int_only_pairs, int_only};
use crate::json::{json_depth_le, pairs_depth_le, lemma_pairs_depth_le, JSON_DEPTH_BOUND};
use crate::json::{lemma_int_only_pairs, lemma_wf_pairs};
use crate::json::str_eq;

verus! {

broadcast use crate::json::lemma_obj_get_push, vstd::string::group_string_axioms;

/// A browser cookie, as read from and written to JSON objects.
///
/// `expires` keeps the number exactly as it stood in the JSON — an
/// integer, or the text of a non-integer literal — since the protocol
/// only carries it through.  `extra` holds every field of the object
/// whose key the protocol does not know, in order.
pub struct Cookie {
    pub name: String,
    pub value: String,
    pub domain: String,
    pub path: String,
    pub expires: Option<JsonValue>,
    pub secure: Option<bool>,
    pub http_only: Option<bool>,
    pub same_site: Option<String>,
    pub extra: Vec<(String, JsonValue)>,
}

/// Mathematical model of a cookie.
#[verifier::ext_equal]
pub ghost struct CookieV {
    pub name: Seq<char>,
    pub value: Seq<char>,
    pub domain: Seq<char>,
    pub path: Seq<char>,
    pub expires: Option<JsonV>,
    pub secure: Option<bool>,
    pub http_only: Option<bool>,
    pub same_site: Option<Seq<char>>,
    pub extra: Seq<(Seq<char>, JsonV)>,
}

impl View for Cookie {
    type V = CookieV;

    open spec fn view(&self) -> CookieV {
        CookieV {
            name: self.name@,
            value: self.value@,
            domain: self.domain@,
            path: self.path@,
            expires: match self.expires {
                Some(e) => Some(e@),
                None => None,
            },
            secure: self.secure,
            http_only: self.http_only,
            same_site: match self.same_site {
                Some(s) => Some(s@),
                None => None,
            },
            extra: Seq::new(
                self.extra@.len(),
                |i: int|
                    if 0 <= i < self.extra@.len() {
                        (self.extra@[i].0@, self.extra@[i].1@)
                    } else {
                        (Seq::empty(), JsonV::Null)
                    },
            ),
        }
    }
}

/// The object keys the protocol reads itself; all others pass through
/// `extra`.
pub open spec fn known_key(k: Seq<char>) -> bool {
    ||| k == "name"@
    ||| k == "value"@
    ||| k == "domain"@
    ||| k == "path"@
    ||| k == "expires"@
    ||| k == "secure"@
    ||| k == "httpOnly"@
    ||| k == "sameSite"@
}

/// The fields of an object whose keys the protocol does not know, in
/// order.
pub open spec fn unknown_pairs(ps: Seq<(Seq<char>, JsonV)>) -> Seq<(Seq<char>, JsonV)>
    decreases ps.len(),
{
    if ps.len() == 0 {
        Seq::empty()
    } else {
        unknown_pairs(ps.drop_last()) + if known_key(ps.last().0) {
            Seq::empty()
        } else {
            seq![ps.last()]
        }
    }
}

/// Appending a field appends it to the unknown fields exactly when its
/// key is unknown.
pub broadcast proof fn lemma_unknown_push(ps: Seq<(Seq<char>, JsonV)>, p: (Seq<char>, JsonV))
    ensures
        #[trigger] unknown_pairs(ps.push(p)) == unknown_pairs(ps) + if known_key(p.0) {
            Seq::<(Seq<char>, JsonV)>::empty()
        } else {
            seq![p]
        },
{
    assert(ps.push(p).drop_last() =~= ps);
    assert(ps.push(p).last() == p);
}

/// The unknown fields carry unknown, pairwise distinct keys (when the
/// object's keys are distinct), and each is a field of the object.
pub proof fn lemma_unknown_props(ps: Seq<(Seq<char>, JsonV)>)
    ensures
        forall|j: int| 0 <= j < unknown_pairs(ps).len()
            ==> !known_key((#[trigger] unknown_pairs(ps)[j]).0),
        forall|j: int| 0 <= j < unknown_pairs(ps).len()
            ==> exists|i: int| 0 <= i < ps.len() && #[trigger] unknown_pairs(ps)[j] == ps[i],
        distinct_keys(ps) ==> distinct_keys(unknown_pairs(ps)),
    decreases ps.len(),
{
    if ps.len() > 0 {
        let t = ps.drop_last();
        lemma_unknown_props(t);
        assert(forall|i: int| 0 <= i < t.len() ==> #[trigger] t[i] == ps[i]);
        let u = unknown_pairs(ps);
        let ut = unknown_pairs(t);
        assert(forall|j: int| 0 <= j < ut.len() ==> #[trigger] u[j] == ut[j]);
        assert forall|j: int| 0 <= j < u.len()
            implies exists|i: int| 0 <= i < ps.len() && #[trigger] u[j] == ps[i] by {
            if j < ut.len() {
                let i = choose|i: int| 0 <= i < t.len() && ut[j] == t[i];
                assert(u[j] == ps[i]);
            } else {
                assert(u[j] == ps[ps.len() - 1]);
            }
        }
        if distinct_keys(ps) {
            assert forall|i: int, j: int| 0 <= i < j < t.len() implies t[i].0 != t[j].0 by {
                assert(ps[i].0 != ps[j].0);
            }
            assert(distinct_keys(t));
            assert forall|j1: int, j2: int| 0 <= j1 < j2 < u.len()
                implies u[j1].0 != u[j2].0 by {
                if j2 < ut.len() {
                    assert(ut[j1].0 != ut[j2].0);
                } else {
                    let i1 = choose|i: int| 0 <= i < t.len() && ut[j1] == t[i];
                    assert(u[j2] == ps[ps.len() - 1]);
                    assert(ps[i1].0 != ps[ps.len() - 1].0);
                }
            }
        }
    }
}



/// The eight known keys are pairwise distinct texts.
pub(crate) proof fn lemma_known_keys_distinct()
    ensures
        "name"@ != "value"@,
        "name"@ != "domain"@,
        "name"@ != "path"@,
        "name"@ != "expires"@,
        "name"@ != "secure"@,
        "name"@ != "httpOnly"@,
        "name"@ != "sameSite"@,
        "value"@ != "domain"@,
        "value"@ != "path"@,
        "value"@ != "expires"@,
        "value"@ != "secure"@,
        "value"@ != "httpOnly"@,
        "value"@ != "sameSite"@,
        "domain"@ != "path"@,
        "domain"@ != "expires"@,
        "domain"@ != "secure"@,
        "domain"@ != "httpOnly"@,
        "domain"@ != "sameSite"@,
        "path"@ != "expires"@,
        "path"@ != "secure"@,
        "path"@ != "httpOnly"@,
        "path"@ != "sameSite"@,
        "expires"@ != "secure"@,
        "expires"@ != "httpOnly"@,
        "expires"@ != "sameSite"@,
        "secure"@ != "httpOnly"@,
        "secure"@ != "sameSite"@,
        "httpOnly"@ != "sameSite"@,
{
    reveal_strlit("name");
    reveal_strlit("value");
    reveal_strlit("domain");
    reveal_strlit("path");
    reveal_strlit("expires");
    reveal_strlit("secure");
    reveal_strlit("httpOnly");
    reveal_strlit("sameSite");
    assert("name"@[0] == 'n');
    assert("value"@[0] == 'v');
    assert("domain"@[0] == 'd');
    assert("path"@[0] == 'p');
    assert("expires"@[0] == 'e');
    assert("secure"@[0] == 's');
    assert("httpOnly"@[0] == 'h');
    assert("sameSite"@[0] == 's');
    assert("secure"@[1] == 'e');
    assert("sameSite"@[1] == 'a');
}

/// An object all of whose keys the protocol knows has no pass-through
/// fields.
proof fn lemma_unknown_empty(ps: Seq<(Seq<char>, JsonV)>)
    requires
        forall|j: int| 0 <= j < ps.len() ==> known_key((#[trigger] ps[j]).0),
    ensures
        unknown_pairs(ps) == Seq::<(Seq<char>, JsonV)>::empty(),
    decreases ps.len(),
{
    if ps.len() > 0 {
        let t = ps.drop_last();
        assert(forall|j: int| 0 <= j < t.len() ==> #[trigger] t[j] == ps[j]);
        lemma_unknown_empty(t);
        assert(known_key(ps.last().0));
        assert(unknown_pairs(ps) =~= Seq::<(Seq<char>, JsonV)>::empty());
    }
}

/// The value of a field that must hold a string; empty when it does not.
pub open spec fn spec_str_of(ps: Seq<(Seq<char>, JsonV)>, key: Seq<char>) -> Seq<char> {
    match spec_obj_get(ps, key) {
        Some(JsonV::Str(s)) => s,
        _ => Seq::empty(),
    }
}

/// The field holds a string.
pub open spec fn spec_str_ok(ps: Seq<(Seq<char>, JsonV)>, key: Seq<char>) -> bool {
    match spec_obj_get(ps, key) {
        Some(JsonV::Str(_)) => true,
        _ => false,
    }
}

/// The field is absent or holds a string.
pub open spec fn spec_opt_str_ok(ps: Seq<(Seq<char>, JsonV)>, key: Seq<char>) -> bool {
    match spec_obj_get(ps, key) {
        Option::None => true,
        Some(JsonV::Str(_)) => true,
        _ => false,
    }
}

/// The field's string, where present.
pub open spec fn spec_opt_str(ps: Seq<(Seq<char>, JsonV)>, key: Seq<char>) -> Option<Seq<char>> {
    match spec_obj_get(ps, key) {
        Some(JsonV::Str(s)) => Some(s),
        _ => None,
    }
}

/// The field is absent or holds a boolean.
pub open spec fn spec_opt_bool_ok(ps: Seq<(Seq<char>, JsonV)>, key: Seq<char>) -> bool {
    match spec_obj_get(ps, key) {
        Option::None => true,
        Some(JsonV::Bool(_)) => true,
        _ => false,
    }
}

/// The field's boolean, where present.
pub open spec fn spec_opt_bool(ps: Seq<(Seq<char>, JsonV)>, key: Seq<char>) -> Option<bool> {
    match spec_obj_get(ps, key) {
        Some(JsonV::Bool(b)) => Some(b),
        _ => None,
    }
}

/// The expiry field is absent or holds a number.
pub open spec fn spec_expires_ok(ps: Seq<(Seq<char>, JsonV)>) -> bool {
    match spec_obj_get(ps, "expires"@) {
        Option::None => true,
        Some(JsonV::Int(_)) => true,
        Some(JsonV::Num(_)) => true,
        _ => false,
    }
}

/// The expiry field's number, where present.
pub open spec fn spec_expires(ps: Seq<(Seq<char>, JsonV)>) -> Option<JsonV> {
    match spec_obj_get(ps, "expires"@) {
        Some(JsonV::Int(i)) => Some(JsonV::Int(i)),
        Some(JsonV::Num(t)) => Some(JsonV::Num(t)),
        _ => None,
    }
}

/// The cookie an object denotes: the keys must be distinct, the four
/// naming fields must be strings, and each attribute the protocol reads
/// must have its type; every other field passes into `extra`.
pub open spec fn spec_cookie_of(ps: Seq<(Seq<char>, JsonV)>) -> Option<CookieV> {
    if distinct_keys(ps) && spec_str_ok(ps, "name"@) && spec_str_ok(ps, "value"@)
        && spec_str_ok(ps, "domain"@) && spec_str_ok(ps, "path"@) && spec_expires_ok(ps)
        && spec_opt_bool_ok(ps, "secure"@) && spec_opt_bool_ok(ps, "httpOnly"@)
        && spec_opt_str_ok(ps, "sameSite"@) {
        Some(
            CookieV {
                name: spec_str_of(ps, "name"@),
                value: spec_str_of(ps, "value"@),
                domain: spec_str_of(ps, "domain"@),
                path: spec_str_of(ps, "path"@),
                expires: spec_expires(ps),
                secure: spec_opt_bool(ps, "secure"@),
                http_only: spec_opt_bool(ps, "httpOnly"@),
                same_site: spec_opt_str(ps, "sameSite"@),
                extra: unknown_pairs(ps),
            },
        )
    } else {
        None
    }
}

/// The expiry field holds a number, where it is present at all.
pub open spec fn cookie_expires_wf(c: CookieV) -> bool {
    match c.expires {
        Option::None => true,
        Some(JsonV::Int(_)) => true,
        Some(JsonV::Num(_)) => true,
        Some(_) => false,
    }
}

/// The cookie with its pass-through fields left off: what a set-cookie
/// request sends.
pub open spec fn cookie_core(c: CookieV) -> CookieV {
    CookieV {
        name: c.name,
        value: c.value,
        domain: c.domain,
        path: c.path,
        expires: c.expires,
        secure: c.secure,
        http_only: c.http_only,
        same_site: c.same_site,
        extra: Seq::empty(),
    }
}

/// A cookie the library will encode: the expiry is a number, and the
/// pass-through fields carry unknown, pairwise distinct keys.
pub open spec fn cookie_wf(c: CookieV) -> bool {
    &&& cookie_expires_wf(c)
    &&& forall|j: int| 0 <= j < c.extra.len() ==> !known_key((#[trigger] c.extra[j]).0)
    &&& forall|j1: int, j2: int| 0 <= j1 < j2 < c.extra.len()
        ==> c.extra[j1].0 != c.extra[j2].0
}


/// How deep a pass-through value may nest: its cookie object, the
/// cookies array and the frame object around it take the three levels
/// left under the codec's depth bound.
pub const EXTRA_VALUE_DEPTH_BOUND: usize = JSON_DEPTH_BOUND - 3;

/// A cookie whose pass-through values are themselves well formed and
/// within the codec's depth bound: its JSON object can be handed to
/// the text codec whole, frame wrapping included.
pub open spec fn cookie_deep_wf(c: CookieV) -> bool {
    cookie_wf(c) && wf_pairs(c.extra) && pairs_depth_le(c.extra, EXTRA_VALUE_DEPTH_BOUND as int)
}

/// The cookie's numbers are integers, at every depth: its text form then
/// reads back to the same cookie.
pub open spec fn cookie_int_only(c: CookieV) -> bool {
    &&& match c.expires {
        Some(JsonV::Num(_)) => false,
        _ => true,
    }
    &&& int_only_pairs(c.extra)
}


/// Is this key one the protocol reads itself?
pub fn is_known_key(k: &str) -> (r: bool)
    ensures
        r == known_key(k@),
{
    str_eq(k, "name") || str_eq(k, "value") || str_eq(k, "domain") || str_eq(k, "path")
        || str_eq(k, "expires") || str_eq(k, "secure") || str_eq(k, "httpOnly")
        || str_eq(k, "sameSite")
}

impl Cookie {
    /// Does the library encode this cookie?
    pub fn is_wf(&self) -> (r: bool)
        ensures
            r == cookie_wf(self@),
    {
        match &self.expires {
            Option::None => {},
            Some(JsonValue::Int(_)) => {},
            Some(JsonValue::Num(_)) => {},
            Some(_) => {
                return false;
            },
        }
        let ghost ex = self@.extra;
        proof {
            assert(ex.len() == self.extra@.len());
            assert(forall|k: int| 0 <= k < ex.len()
                ==> #[trigger] ex[k] == (self.extra@[k].0@, self.extra@[k].1@));
        }
        let mut i: usize = 0;
        while i < self.extra.len()
            invariant
                0 <= i <= self.extra.len(),
                ex == self@.extra,
                ex.len() == self.extra@.len(),
                forall|k: int| 0 <= k < ex.len()
                    ==> #[trigger] ex[k] == (self.extra@[k].0@, self.extra@[k].1@),
                forall|k: int| 0 <= k < i ==> !known_key((#[trigger] ex[k]).0),
                forall|k1: int, k2: int| 0 <= k1 < k2 < i ==> ex[k1].0 != ex[k2].0,
            decreases self.extra.len() - i,
        {
            if is_known_key(self.extra[i].0.as_str()) {
                proof {
                    assert(known_key(ex[i as int].0));
                }
                return false;
            }
            let mut j: usize = 0;
            while j < i
                invariant
                    0 <= j <= i < self.extra.len(),
                    ex == self@.extra,
                    ex.len() == self.extra@.len(),
                    forall|k: int| 0 <= k < ex.len()
                        ==> #[trigger] ex[k] == (self.extra@[k].0@, self.extra@[k].1@),
                    forall|k: int| 0 <= k < j ==> (#[trigger] ex[k]).0 != ex[i as int].0,
                decreases i - j,
            {
                if str_eq(self.extra[j].0.as_str(), self.extra[i].0.as_str()) {
                    proof {
                        assert(ex[j as int].0 == ex[i as int].0);
                    }
                    return false;
                }
                j = j + 1;
            }
            i = i + 1;
        }
        true
    }

    /// Does the library encode this cookie whole — pass-through values
    /// well formed and within the codec's depth bound?
    pub fn is_deep_wf(&self) -> (r: bool)
        ensures
            r == cookie_deep_wf(self@),
    {
        if !self.is_wf() {
            return false;
        }
        let ghost ex = self@.extra;
        proof {
            assert(forall|k: int| 0 <= k < ex.len()
                ==> #[trigger] ex[k] == (self.extra@[k].0@, self.extra@[k].1@));
        }
        let mut i: usize = 0;
        while i < self.extra.len()
            invariant
                0 <= i <= self.extra.len(),
                cookie_wf(self@),
                ex == self@.extra,
                ex.len() == self.extra@.len(),
                forall|k: int| 0 <= k < ex.len()
                    ==> #[trigger] ex[k] == (self.extra@[k].0@, self.extra@[k].1@),
                forall|k: int| 0 <= k < i ==> crate::json::wf_json((#[trigger] ex[k]).1),
                forall|k: int| 0 <= k < i
                    ==> json_depth_le((#[trigger] ex[k]).1, EXTRA_VALUE_DEPTH_BOUND as int),
            decreases self.extra.len() - i,
        {
            if !self.extra[i].1.is_wf_json() {
                proof {
                    assert(ex[i as int].1 == self.extra@[i as int].1@);
                    assert(!crate::json::wf_json(ex[i as int].1));
                    crate::json::lemma_wf_pairs(ex);
                }
                return false;
            }
            if !self.extra[i].1.depth_le(EXTRA_VALUE_DEPTH_BOUND) {
                proof {
                    assert(ex[i as int].1 == self.extra@[i as int].1@);
                    assert(!json_depth_le(ex[i as int].1, EXTRA_VALUE_DEPTH_BOUND as int));
                    lemma_pairs_depth_le(ex, EXTRA_VALUE_DEPTH_BOUND as int);
                }
                return false;
            }
            i = i + 1;
        }
        proof {
            crate::json::lemma_wf_pairs(ex);
            lemma_pairs_depth_le(ex, EXTRA_VALUE_DEPTH_BOUND as int);
        }
        true
    }

    /// A structural copy: the result denotes the same cookie.
    pub fn deep_clone(&self) -> (r: Cookie)
        ensures
            r@ == self@,
    {
        let expires = match &self.expires {
            Some(e) => Some(e.deep_clone()),
            Option::None => None,
        };
        let same_site = match &self.same_site {
            Some(s) => Some(s.clone()),
            Option::None => None,
        };
        let mut extra: Vec<(String, JsonValue)> = Vec::new();
        let mut i: usize = 0;
        while i < self.extra.len()
            invariant
                0 <= i <= self.extra.len(),
                extra@.len() == i,
                forall|k: int| 0 <= k < i ==> (#[trigger] extra@[k].0)@ == self.extra@[k].0@
                    && extra@[k].1@ == self.extra@[k].1@,
            decreases self.extra.len() - i,
        {
            let k = self.extra[i].0.clone();
            let v = self.extra[i].1.deep_clone();
            extra.push((k, v));
            i = i + 1;
        }
        let r = Cookie {
            name: self.name.clone(),
            value: self.value.clone(),
            domain: self.domain.clone(),
            path: self.path.clone(),
            expires,
            secure: self.secure,
            http_only: self.http_only,
            same_site,
            extra,
        };
        proof {
            assert(r@.extra =~= self@.extra);
            assert(r@ =~= self@);
        }
        r
    }


    /// Write the cookie as a JSON object: the four naming fields, each
    /// present attribute once, then the pass-through fields in order.
    /// The object's keys are distinct and it reads back to exactly this
    /// cookie; when the cookie's numbers are integers, so are the
    /// object's.
    #[verifier::rlimit(100)]
    pub fn to_json(&self) -> (r: JsonValue)
        requires
            cookie_wf(self@),
        ensures
            r@ is Obj,
            spec_cookie_of(r@->Obj_0) == Some(self@),
            distinct_keys(r@->Obj_0),
            cookie_int_only(self@) ==> int_only(r@),
            wf_pairs(self@.extra) ==> crate::json::wf_json(r@),
            pairs_depth_le(self@.extra, EXTRA_VALUE_DEPTH_BOUND as int)
                ==> json_depth_le(r@, (JSON_DEPTH_BOUND - 2) as int),
    {
        let ghost cv = self@;
        proof {
            lemma_known_keys_distinct();
        }
        let mut pairs: Vec<(String, JsonValue)> = Vec::new();
        let ghost mut ps: Seq<(Seq<char>, JsonV)> = Seq::empty();

        pairs.push(("name".to_owned(), JsonValue::Str(self.name.clone())));
        proof {
            crate::json::lemma_obj_get_absent(ps, "name"@);
            crate::json::lemma_distinct_push(ps, ("name"@, JsonV::Str(cv.name)));
            ps = ps.push(("name"@, JsonV::Str(cv.name)));
            assert(forall|j: int| 0 <= j < ps.len() ==> crate::json::wf_json((#[trigger] ps[j]).1));
            assert(forall|j: int| 0 <= j < ps.len() ==> json_depth_le((#[trigger] ps[j]).1, EXTRA_VALUE_DEPTH_BOUND as int));
            assert(spec_obj_get(ps, "name"@) == Some(JsonV::Str(cv.name)));
            assert(spec_obj_get(ps, "value"@) is None);
            assert(spec_obj_get(ps, "domain"@) is None);
            assert(spec_obj_get(ps, "path"@) is None);
            assert(spec_obj_get(ps, "expires"@) is None);
            assert(spec_obj_get(ps, "secure"@) is None);
            assert(spec_obj_get(ps, "httpOnly"@) is None);
            assert(spec_obj_get(ps, "sameSite"@) is None);
        }
        pairs.push(("value".to_owned(), JsonValue::Str(self.value.clone())));
        proof {
            crate::json::lemma_obj_get_absent(ps, "value"@);
            crate::json::lemma_distinct_push(ps, ("value"@, JsonV::Str(cv.value)));
            ps = ps.push(("value"@, JsonV::Str(cv.value)));
            assert(forall|j: int| 0 <= j < ps.len() ==> crate::json::wf_json((#[trigger] ps[j]).1));
            assert(forall|j: int| 0 <= j < ps.len() ==> json_depth_le((#[trigger] ps[j]).1, EXTRA_VALUE_DEPTH_BOUND as int));
            assert(spec_obj_get(ps, "name"@) == Some(JsonV::Str(cv.name)));
            assert(spec_obj_get(ps, "value"@) == Some(JsonV::Str(cv.value)));
            assert(spec_obj_get(ps, "domain"@) is None);
            assert(spec_obj_get(ps, "path"@) is None);
            assert(spec_obj_get(ps, "expires"@) is None);
            assert(spec_obj_get(ps, "secure"@) is None);
            assert(spec_obj_get(ps, "httpOnly"@) is None);
            assert(spec_obj_get(ps, "sameSite"@) is None);
        }
        pairs.push(("domain".to_owned(), JsonValue::Str(self.domain.clone())));
        proof {
            crate::json::lemma_obj_get_absent(ps, "domain"@);
            crate::json::lemma_distinct_push(ps, ("domain"@, JsonV::Str(cv.domain)));
            ps = ps.push(("domain"@, JsonV::Str(cv.domain)));
            assert(forall|j: int| 0 <= j < ps.len() ==> crate::json::wf_json((#[trigger] ps[j]).1));
            assert(forall|j: int| 0 <= j < ps.len() ==> json_depth_le((#[trigger] ps[j]).1, EXTRA_VALUE_DEPTH_BOUND as int));
            assert(spec_obj_get(ps, "name"@) == Some(JsonV::Str(cv.name)));
            assert(spec_obj_get(ps, "value"@) == Some(JsonV::Str(cv.value)));
            assert(spec_obj_get(ps, "domain"@) == Some(JsonV::Str(cv.domain)));
            assert(spec_obj_get(ps, "path"@) is None);
            assert(spec_obj_get(ps, "expires"@) is None);
            assert(spec_obj_get(ps, "secure"@) is None);
            assert(spec_obj_get(ps, "httpOnly"@) is None);
            assert(spec_obj_get(ps, "sameSite"@) is None);
        }
        pairs.push(("path".to_owned(), JsonValue::Str(self.path.clone())));
        proof {
            crate::json::lemma_obj_get_absent(ps, "path"@);
            crate::json::lemma_distinct_push(ps, ("path"@, JsonV::Str(cv.path)));
            ps = ps.push(("path"@, JsonV::Str(cv.path)));
            assert(forall|j: int| 0 <= j < ps.len() ==> crate::json::wf_json((#[trigger] ps[j]).1));
            assert(forall|j: int| 0 <= j < ps.len() ==> json_depth_le((#[trigger] ps[j]).1, EXTRA_VALUE_DEPTH_BOUND as int));
            assert(spec_obj_get(ps, "name"@) == Some(JsonV::Str(cv.name)));
            assert(spec_obj_get(ps, "value"@) == Some(JsonV::Str(cv.value)));
            assert(spec_obj_get(ps, "domain"@) == Some(JsonV::Str(cv.domain)));
            assert(spec_obj_get(ps, "path"@) == Some(JsonV::Str(cv.path)));
            assert(spec_obj_get(ps, "expires"@) is None);
            assert(spec_obj_get(ps, "secure"@) is None);
            assert(spec_obj_get(ps, "httpOnly"@) is None);
            assert(spec_obj_get(ps, "sameSite"@) is None);
        }
        match &self.expires {
            Some(e) => {
                let ev = e.deep_clone();
                pairs.push(("expires".to_owned(), ev));
                proof {
                    crate::json::lemma_obj_get_absent(ps, "expires"@);
                    crate::json::lemma_distinct_push(ps, ("expires"@, e@));
                    ps = ps.push(("expires"@, e@));
            assert(forall|j: int| 0 <= j < ps.len() ==> crate::json::wf_json((#[trigger] ps[j]).1));
            assert(forall|j: int| 0 <= j < ps.len() ==> json_depth_le((#[trigger] ps[j]).1, EXTRA_VALUE_DEPTH_BOUND as int));
                }
            },
            Option::None => {},
        }
        proof {
            assert(spec_obj_get(ps, "name"@) == Some(JsonV::Str(cv.name)));
            assert(spec_obj_get(ps, "value"@) == Some(JsonV::Str(cv.value)));
            assert(spec_obj_get(ps, "domain"@) == Some(JsonV::Str(cv.domain)));
            assert(spec_obj_get(ps, "path"@) == Some(JsonV::Str(cv.path)));
            assert(spec_obj_get(ps, "expires"@) == cv.expires);
            assert(spec_obj_get(ps, "secure"@) is None);
            assert(spec_obj_get(ps, "httpOnly"@) is None);
            assert(spec_obj_get(ps, "sameSite"@) is None);
        }
        match self.secure {
            Some(b) => {
                pairs.push(("secure".to_owned(), JsonValue::Bool(b)));
                proof {
                    crate::json::lemma_obj_get_absent(ps, "secure"@);
                    crate::json::lemma_distinct_push(ps, ("secure"@, JsonV::Bool(b)));
                    ps = ps.push(("secure"@, JsonV::Bool(b)));
            assert(forall|j: int| 0 <= j < ps.len() ==> crate::json::wf_json((#[trigger] ps[j]).1));
            assert(forall|j: int| 0 <= j < ps.len() ==> json_depth_le((#[trigger] ps[j]).1, EXTRA_VALUE_DEPTH_BOUND as int));
                }
            },
            Option::None => {},
        }
        proof {
            assert(spec_obj_get(ps, "name"@) == Some(JsonV::Str(cv.name)));
            assert(spec_obj_get(ps, "value"@) == Some(JsonV::Str(cv.value)));
            assert(spec_obj_get(ps, "domain"@) == Some(JsonV::Str(cv.domain)));
            assert(spec_obj_get(ps, "path"@) == Some(JsonV::Str(cv.path)));
            assert(spec_obj_get(ps, "expires"@) == cv.expires);
            assert(match cv.secure {
                Some(b) => spec_obj_get(ps, "secure"@) == Some(JsonV::Bool(b)),
                Option::None => spec_obj_get(ps, "secure"@) is None,
            });
            assert(spec_obj_get(ps, "httpOnly"@) is None);
            assert(spec_obj_get(ps, "sameSite"@) is None);
        }
        match self.http_only {
            Some(b) => {
                pairs.push(("httpOnly".to_owned(), JsonValue::Bool(b)));
                proof {
                    crate::json::lemma_obj_get_absent(ps, "httpOnly"@);
                    crate::json::lemma_distinct_push(ps, ("httpOnly"@, JsonV::Bool(b)));
                    ps = ps.push(("httpOnly"@, JsonV::Bool(b)));
            assert(forall|j: int| 0 <= j < ps.len() ==> crate::json::wf_json((#[trigger] ps[j]).1));
            assert(forall|j: int| 0 <= j < ps.len() ==> json_depth_le((#[trigger] ps[j]).1, EXTRA_VALUE_DEPTH_BOUND as int));
                }
            },
            Option::None => {},
        }
        proof {
            assert(spec_obj_get(ps, "name"@) == Some(JsonV::Str(cv.name)));
            assert(spec_obj_get(ps, "value"@) == Some(JsonV::Str(cv.value)));
            assert(spec_obj_get(ps, "domain"@) == Some(JsonV::Str(cv.domain)));
            assert(spec_obj_get(ps, "path"@) == Some(JsonV::Str(cv.path)));
            assert(spec_obj_get(ps, "expires"@) == cv.expires);
            assert(match cv.secure {
                Some(b) => spec_obj_get(ps, "secure"@) == Some(JsonV::Bool(b)),
                Option::None => spec_obj_get(ps, "secure"@) is None,
            });
            assert(match cv.http_only {
                Some(b) => spec_obj_get(ps, "httpOnly"@) == Some(JsonV::Bool(b)),
                Option::None => spec_obj_get(ps, "httpOnly"@) is None,
            });
            assert(spec_obj_get(ps, "sameSite"@) is None);
        }
        match &self.same_site {
            Some(s) => {
                pairs.push(("sameSite".to_owned(), JsonValue::Str(s.clone())));
                proof {
                    crate::json::lemma_obj_get_absent(ps, "sameSite"@);
                    crate::json::lemma_distinct_push(ps, ("sameSite"@, JsonV::Str(s@)));
                    ps = ps.push(("sameSite"@, JsonV::Str(s@)));
            assert(forall|j: int| 0 <= j < ps.len() ==> crate::json::wf_json((#[trigger] ps[j]).1));
            assert(forall|j: int| 0 <= j < ps.len() ==> json_depth_le((#[trigger] ps[j]).1, EXTRA_VALUE_DEPTH_BOUND as int));
                }
            },
            Option::None => {},
        }
        let ghost ps0 = ps;
        proof {
            assert(spec_obj_get(ps0, "name"@) == Some(JsonV::Str(cv.name)));
            assert(spec_obj_get(ps0, "value"@) == Some(JsonV::Str(cv.value)));
            assert(spec_obj_get(ps0, "domain"@) == Some(JsonV::Str(cv.domain)));
            assert(spec_obj_get(ps0, "path"@) == Some(JsonV::Str(cv.path)));
            assert(spec_obj_get(ps0, "expires"@) == cv.expires);
            assert(match cv.secure {
                Some(b) => spec_obj_get(ps0, "secure"@) == Some(JsonV::Bool(b)),
                Option::None => spec_obj_get(ps0, "secure"@) is None,
            });
            assert(match cv.http_only {
                Some(b) => spec_obj_get(ps0, "httpOnly"@) == Some(JsonV::Bool(b)),
                Option::None => spec_obj_get(ps0, "httpOnly"@) is None,
            });
            assert(match cv.same_site {
                Some(s) => spec_obj_get(ps0, "sameSite"@) == Some(JsonV::Str(s)),
                Option::None => spec_obj_get(ps0, "sameSite"@) is None,
            });
            assert(forall|j: int| 0 <= j < ps0.len() ==> known_key((#[trigger] ps0[j]).0));
            assert(forall|j: int| 0 <= j < ps0.len()
                ==> crate::json::wf_json((#[trigger] ps0[j]).1));
            assert(forall|j: int| 0 <= j < ps0.len()
                ==> json_depth_le((#[trigger] ps0[j]).1, EXTRA_VALUE_DEPTH_BOUND as int));
            assert(distinct_keys(ps0));
            lemma_unknown_empty(ps0);
            assert(forall|j: int| 0 <= j < ps0.len() ==> int_only((#[trigger] ps0[j]).1)
                || (cv.expires matches Some(e) && ps0[j].1 == e));
            assert(pairs@.len() == ps0.len());
            assert(forall|k: int| 0 <= k < ps0.len()
                ==> #[trigger] ps0[k] == (pairs@[k].0@, pairs@[k].1@));
        }
        let ghost exv = cv.extra;
        proof {
            assert(exv.len() == self.extra@.len());
            assert(forall|k: int| 0 <= k < exv.len()
                ==> #[trigger] exv[k] == (self.extra@[k].0@, self.extra@[k].1@));
        }
        let mut i: usize = 0;
        while i < self.extra.len()
            invariant
                0 <= i <= self.extra.len(),
                cv == self@,
                cookie_wf(cv),
                exv == cv.extra,
                exv.len() == self.extra@.len(),
                forall|k: int| 0 <= k < exv.len()
                    ==> #[trigger] exv[k] == (self.extra@[k].0@, self.extra@[k].1@),
                forall|j: int| 0 <= j < ps0.len() ==> known_key((#[trigger] ps0[j]).0),
                forall|j: int| 0 <= j < ps0.len() ==> int_only((#[trigger] ps0[j]).1)
                    || (cv.expires matches Some(e) && ps0[j].1 == e),
                forall|j: int| 0 <= j < ps0.len()
                    ==> crate::json::wf_json((#[trigger] ps0[j]).1),
                forall|j: int| 0 <= j < ps0.len()
                    ==> json_depth_le((#[trigger] ps0[j]).1, EXTRA_VALUE_DEPTH_BOUND as int),
                ps == ps0 + exv.take(i as int),
                distinct_keys(ps),
                unknown_pairs(ps) == exv.take(i as int),
                pairs@.len() == ps.len(),
                forall|k: int| 0 <= k < ps.len()
                    ==> #[trigger] ps[k] == (pairs@[k].0@, pairs@[k].1@),
                spec_obj_get(ps, "name"@) == Some(JsonV::Str(cv.name)),
                spec_obj_get(ps, "value"@) == Some(JsonV::Str(cv.value)),
                spec_obj_get(ps, "domain"@) == Some(JsonV::Str(cv.domain)),
                spec_obj_get(ps, "path"@) == Some(JsonV::Str(cv.path)),
                spec_obj_get(ps, "expires"@) == cv.expires,
                match cv.secure {
                    Some(b) => spec_obj_get(ps, "secure"@) == Some(JsonV::Bool(b)),
                    Option::None => spec_obj_get(ps, "secure"@) is None,
                },
                match cv.http_only {
                    Some(b) => spec_obj_get(ps, "httpOnly"@) == Some(JsonV::Bool(b)),
                    Option::None => spec_obj_get(ps, "httpOnly"@) is None,
                },
                match cv.same_site {
                    Some(s) => spec_obj_get(ps, "sameSite"@) == Some(JsonV::Str(s)),
                    Option::None => spec_obj_get(ps, "sameSite"@) is None,
                },
            decreases self.extra.len() - i,
        {
            let k = self.extra[i].0.clone();
            let val = self.extra[i].1.deep_clone();
            pairs.push((k, val));
            proof {
                let p = exv[i as int];
                assert(!known_key(p.0));
                assert forall|j: int| 0 <= j < ps.len() implies (#[trigger] ps[j].0) != p.0 by {
                    if j < ps0.len() {
                        assert(known_key(ps0[j].0));
                    } else {
                        assert(ps[j] == exv[j - ps0.len()]);
                        assert(exv[j - ps0.len()].0 != p.0);
                    }
                }
                crate::json::lemma_distinct_push(ps, p);
                lemma_unknown_push(ps0 + exv.take(i as int), p);
                ps = ps.push(p);
                assert(ps =~= ps0 + exv.take(i as int + 1));
                assert(unknown_pairs((ps0 + exv.take(i as int)).push(p))
                    == unknown_pairs(ps0 + exv.take(i as int)) + seq![p]);
                assert(unknown_pairs(ps) =~= exv.take(i as int + 1));
            }
            i = i + 1;
        }
        let r = JsonValue::Obj(pairs);
        proof {
            reveal_with_fuel(<JsonValue as View>::view, 2);
            assert(exv.take(exv.len() as int) =~= exv);
            let obj = r@->Obj_0;
            assert(obj.len() == ps.len());
            assert(forall|k: int| 0 <= k < obj.len() ==> #[trigger] obj[k] == ps[k]);
            assert(obj =~= ps);
            assert(unknown_pairs(ps) == cv.extra);
            assert(spec_cookie_of(ps) matches Some(sc) && sc =~= cv);
            if wf_pairs(exv) {
                crate::json::lemma_wf_pairs(exv);
                crate::json::lemma_wf_pairs(ps);
                assert forall|j: int| 0 <= j < ps.len()
                    implies crate::json::wf_json(#[trigger] ps[j].1) by {
                    if j >= ps0.len() {
                        assert(ps[j] == exv[j - ps0.len()]);
                    }
                }
                assert(wf_pairs(ps));
                assert(crate::json::wf_json(r@));
            }
            if pairs_depth_le(exv, EXTRA_VALUE_DEPTH_BOUND as int) {
                lemma_pairs_depth_le(exv, EXTRA_VALUE_DEPTH_BOUND as int);
                lemma_pairs_depth_le(ps, EXTRA_VALUE_DEPTH_BOUND as int);
                assert forall|j: int| 0 <= j < ps.len()
                    implies json_depth_le(#[trigger] ps[j].1, EXTRA_VALUE_DEPTH_BOUND as int) by {
                    if j >= ps0.len() {
                        assert(ps[j] == exv[j - ps0.len()]);
                    }
                }
                assert(pairs_depth_le(ps, EXTRA_VALUE_DEPTH_BOUND as int));
                assert(json_depth_le(r@, (JSON_DEPTH_BOUND - 2) as int));
            }
            if cookie_int_only(cv) {
                lemma_int_only_pairs(ps);
                assert forall|j: int| 0 <= j < ps.len() implies int_only(#[trigger] ps[j].1) by {
                    if j < ps0.len() {
                        assert(int_only(ps0[j].1)
                            || (cv.expires matches Some(e) && ps0[j].1 == e));
                    } else {
                        assert(ps[j] == exv[j - ps0.len()]);
                        lemma_int_only_pairs(exv);
                    }
                }
                assert(int_only_pairs(ps));
                assert(int_only(r@));
            }
        }
        r
    }

    /// Read a cookie out of a JSON value.  It must be an object with
    /// distinct keys whose naming fields are strings and whose known
    /// attributes have their types; everything else goes to `extra`.
    /// The result is exactly the cookie the object denotes, and is fit
    /// for encoding; any other value yields nothing.
    pub fn from_json(v: &JsonValue) -> (r: Option<Cookie>)
        ensures
            match v@ {
                JsonV::Obj(ps) => {
                    &&& (r matches Some(c) ==> spec_cookie_of(ps) == Some(c@) && cookie_wf(c@))
                    &&& (r is None ==> spec_cookie_of(ps) is None)
                },
                _ => r is None,
            },
    {
        proof {
            reveal_with_fuel(<JsonValue as View>::view, 2);
        }
        match v {
            JsonValue::Obj(pairs) => {
                let ghost ps = v@->Obj_0;
                let mut a: usize = 0;
                while a < pairs.len()
                    invariant
                        0 <= a <= pairs.len(),
                        v@ == JsonV::Obj(ps),
                        ps.len() == pairs@.len(),
                        forall|k: int| 0 <= k < ps.len()
                            ==> #[trigger] ps[k] == (pairs@[k].0@, pairs@[k].1@),
                        forall|k1: int, k2: int| 0 <= k1 < k2 < a
                            ==> (#[trigger] ps[k1].0) != (#[trigger] ps[k2].0),
                    decreases pairs.len() - a,
                {
                    let mut b: usize = 0;
                    while b < a
                        invariant
                            0 <= b <= a < pairs.len(),
                            v@ == JsonV::Obj(ps),
                            ps.len() == pairs@.len(),
                            forall|k: int| 0 <= k < ps.len()
                                ==> #[trigger] ps[k] == (pairs@[k].0@, pairs@[k].1@),
                            forall|k1: int, k2: int| 0 <= k1 < k2 < a
                                ==> (#[trigger] ps[k1].0) != (#[trigger] ps[k2].0),
                            forall|k: int| 0 <= k < b
                                ==> (#[trigger] ps[k].0) != ps[a as int].0,
                        decreases a - b,
                    {
                        if str_eq(pairs[b].0.as_str(), pairs[a].0.as_str()) {
                            proof {
                                assert(ps[b as int].0 == ps[a as int].0);
                                assert(!distinct_keys(ps));
                            }
                            return None;
                        }
                        b = b + 1;
                    }
                    a = a + 1;
                }
                proof {
                    assert(distinct_keys(ps));
                }
                let name = match v.get("name") {
                    Some(JsonValue::Str(s)) => s.clone(),
                    _ => {
                        return None;
                    },
                };
                let value = match v.get("value") {
                    Some(JsonValue::Str(s)) => s.clone(),
                    _ => {
                        return None;
                    },
                };
                let domain = match v.get("domain") {
                    Some(JsonValue::Str(s)) => s.clone(),
                    _ => {
                        return None;
                    },
                };
                let path = match v.get("path") {
                    Some(JsonValue::Str(s)) => s.clone(),
                    _ => {
                        return None;
                    },
                };
                let expires = match v.get("expires") {
                    Option::None => None,
                    Some(e@ JsonValue::Int(_)) => Some(e.deep_clone()),
                    Some(e@ JsonValue::Num(_)) => Some(e.deep_clone()),
                    Some(_) => {
                        return None;
                    },
                };
                let secure = match v.get("secure") {
                    Option::None => None,
                    Some(JsonValue::Bool(b)) => Some(*b),
                    Some(_) => {
                        return None;
                    },
                };
                let http_only = match v.get("httpOnly") {
                    Option::None => None,
                    Some(JsonValue::Bool(b)) => Some(*b),
                    Some(_) => {
                        return None;
                    },
                };
                let same_site = match v.get("sameSite") {
                    Option::None => None,
                    Some(JsonValue::Str(s)) => Some(s.clone()),
                    Some(_) => {
                        return None;
                    },
                };
                let mut extra: Vec<(String, JsonValue)> = Vec::new();
                let mut i: usize = 0;
                while i < pairs.len()
                    invariant
                        0 <= i <= pairs.len(),
                        v@ == JsonV::Obj(ps),
                        ps.len() == pairs@.len(),
                        forall|k: int| 0 <= k < ps.len()
                            ==> #[trigger] ps[k] == (pairs@[k].0@, pairs@[k].1@),
                        extra@.len() == unknown_pairs(ps.take(i as int)).len(),
                        forall|k: int| 0 <= k < extra@.len()
                            ==> ((#[trigger] extra@[k].0)@, extra@[k].1@)
                                == unknown_pairs(ps.take(i as int))[k],
                    decreases pairs.len() - i,
                {
                    let ghost before = ps.take(i as int);
                    let ghost after = ps.take(i as int + 1);
                    proof {
                        assert(after.drop_last() =~= before);
                        assert(after.last() == ps[i as int]);
                        assert(unknown_pairs(after) == unknown_pairs(before) + if known_key(
                            ps[i as int].0,
                        ) {
                            Seq::<(Seq<char>, JsonV)>::empty()
                        } else {
                            seq![ps[i as int]]
                        });
                    }
                    if !is_known_key(pairs[i].0.as_str()) {
                        let k = pairs[i].0.clone();
                        let val = pairs[i].1.deep_clone();
                        extra.push((k, val));
                    }
                    i = i + 1;
                }
                proof {
                    assert(ps.take(ps.len() as int) =~= ps);
                }
                let c = Cookie {
                    name,
                    value,
                    domain,
                    path,
                    expires,
                    secure,
                    http_only,
                    same_site,
                    extra,
                };
                proof {
                    lemma_unknown_props(ps);
                    assert(c@.extra =~= unknown_pairs(ps));
                    assert(spec_cookie_of(ps) matches Some(sc) && c@ =~= sc);
                    assert(cookie_wf(c@));
                }
                Some(c)
            },
            _ => None,
        }
    }
}

} // verus!
