//! A small model of JSON values.
//!
//! The relay's wire frames and the browser's debugging protocol both speak
//! JSON, so the library keeps its own tree type for JSON data: logic that
//! builds or inspects a message is then ordinary verified code over this
//! tree.  Only the step between tree and text is delegated to an outside
//! codec (see the trusted items at the bottom of this file).
use vstd::prelude::*;

verus! {

broadcast use vstd::std_specs::vec::axiom_vec_index_decreases, vstd::std_specs::vec::axiom_vec_decreases_to_view, vstd::seq::axiom_seq_index_decreases;

/// Mathematical model of a JSON value: what a `JsonValue` denotes.
///
/// Numbers are split in two: integers, which the protocol itself uses
/// (request ids, cookie sizes, ports), and other numeric literals, kept
/// as their text so that nothing is lost when a value is carried through.
#[verifier::ext_equal]
pub ghost enum JsonV {
    Null,
    Bool(bool),
    Int(int),
    Num(Seq<char>),
    Str(Seq<char>),
    Arr(Seq<JsonV>),
    Obj(Seq<(Seq<char>, JsonV)>),
}

/// A JSON value as executable data.  An `Obj` keeps its fields in order,
/// as a sequence of pairs; look-up takes the first binding of a key.
pub enum JsonValue {
    Null,
    Bool(bool),
    Int(i64),
    Num(String),
    Str(String),
    Arr(Vec<JsonValue>),
    Obj(Vec<(String, JsonValue)>),
}

impl View for JsonValue {
    type V = JsonV;

    open spec fn view(&self) -> JsonV
        decreases self,
    {
        match self {
            JsonValue::Null => JsonV::Null,
            JsonValue::Bool(b) => JsonV::Bool(*b),
            JsonValue::Int(i) => JsonV::Int(*i as int),
            JsonValue::Num(s) => JsonV::Num(s@),
            JsonValue::Str(s) => JsonV::Str(s@),
            JsonValue::Arr(items) => JsonV::Arr(
                Seq::new(
                    items@.len(),
                    |i: int|
                        if 0 <= i < items@.len() {
                            items@[i]@
                        } else {
                            JsonV::Null
                        },
                ),
            ),
            JsonValue::Obj(pairs) => JsonV::Obj(
                Seq::new(
                    pairs@.len(),
                    |i: int|
                        if 0 <= i < pairs@.len() {
                            (pairs@[i].0@, pairs@[i].1@)
                        } else {
                            (Seq::empty(), JsonV::Null)
                        },
                ),
            ),
        }
    }
}

/// First binding of `key` among the fields of an object, scanning from
/// position `i`.
pub open spec fn spec_obj_get_from(
    pairs: Seq<(Seq<char>, JsonV)>,
    key: Seq<char>,
    i: int,
) -> Option<JsonV>
    decreases pairs.len() - i,
{
    if i < 0 || i >= pairs.len() {
        None
    } else if pairs[i].0 == key {
        Some(pairs[i].1)
    } else {
        spec_obj_get_from(pairs, key, i + 1)
    }
}

/// First binding of `key` among the fields of an object.
pub open spec fn spec_obj_get(pairs: Seq<(Seq<char>, JsonV)>, key: Seq<char>) -> Option<JsonV> {
    spec_obj_get_from(pairs, key, 0)
}

/// No two fields of the object share a key.
pub open spec fn distinct_keys(pairs: Seq<(Seq<char>, JsonV)>) -> bool {
    forall|i: int, j: int| 0 <= i < j < pairs.len() ==> pairs[i].0 != pairs[j].0
}

/// A value the library may hand to the text codec: every object in it,
/// at any depth, has distinct keys, so that nothing is lost or reordered
/// on the way through.
pub open spec fn wf_json(v: JsonV) -> bool
    decreases v, 0int,
{
    match v {
        JsonV::Null => true,
        JsonV::Bool(_) => true,
        JsonV::Int(_) => true,
        JsonV::Num(_) => true,
        JsonV::Str(_) => true,
        JsonV::Arr(items) => wf_seq(items),
        JsonV::Obj(pairs) => distinct_keys(pairs) && wf_pairs(pairs),
    }
}

/// Only integer numbers occur in the value.  The text codec renders such
/// a value reversibly; a non-integer numeric literal may come back in
/// another spelling of the same number.
pub open spec fn int_only(v: JsonV) -> bool
    decreases v, 0int,
{
    match v {
        JsonV::Null => true,
        JsonV::Bool(_) => true,
        JsonV::Int(_) => true,
        JsonV::Num(_) => false,
        JsonV::Str(_) => true,
        JsonV::Arr(items) => int_only_seq(items),
        JsonV::Obj(pairs) => int_only_pairs(pairs),
    }
}

/// Only integer numbers occur in the elements.
pub open spec fn int_only_seq(items: Seq<JsonV>) -> bool
    decreases items, 1int,
{
    items.len() == 0 || (int_only(items[0]) && int_only_seq(items.drop_first()))
}

/// Only integer numbers occur in the field values.
pub open spec fn int_only_pairs(pairs: Seq<(Seq<char>, JsonV)>) -> bool
    decreases pairs, 1int,
{
    pairs.len() == 0 || (int_only(pairs[0].1) && int_only_pairs(pairs.drop_first()))
}

/// `int_only_seq` says exactly that each element is integer-numbered.
pub proof fn lemma_int_only_seq(items: Seq<JsonV>)
    ensures
        int_only_seq(items) == (forall|k: int|
            0 <= k < items.len() ==> int_only(#[trigger] items[k])),
    decreases items.len(),
{
    if items.len() > 0 {
        lemma_int_only_seq(items.drop_first());
        assert(forall|k: int| 0 <= k < items.drop_first().len()
            ==> #[trigger] items.drop_first()[k] == items[k + 1]);
        if int_only_seq(items) {
            assert forall|k: int| 0 <= k < items.len() implies int_only(#[trigger] items[k]) by {
                if k > 0 {
                    assert(items[k] == items.drop_first()[k - 1]);
                }
            }
        } else {
            if int_only(items[0]) {
                assert(!int_only_seq(items.drop_first()));
                let k0 = choose|k: int| 0 <= k < items.drop_first().len()
                    && !int_only(#[trigger] items.drop_first()[k]);
                assert(!int_only(items[k0 + 1]));
            }
        }
    }
}

/// `int_only_pairs` says exactly that each field value is integer-numbered.
pub proof fn lemma_int_only_pairs(pairs: Seq<(Seq<char>, JsonV)>)
    ensures
        int_only_pairs(pairs) == (forall|k: int|
            0 <= k < pairs.len() ==> int_only(#[trigger] pairs[k].1)),
    decreases pairs.len(),
{
    if pairs.len() > 0 {
        lemma_int_only_pairs(pairs.drop_first());
        assert(forall|k: int| 0 <= k < pairs.drop_first().len()
            ==> #[trigger] pairs.drop_first()[k] == pairs[k + 1]);
        if int_only_pairs(pairs) {
            assert forall|k: int| 0 <= k < pairs.len() implies int_only(#[trigger] pairs[k].1) by {
                if k > 0 {
                    assert(pairs[k] == pairs.drop_first()[k - 1]);
                }
            }
        } else {
            if int_only(pairs[0].1) {
                assert(!int_only_pairs(pairs.drop_first()));
                let k0 = choose|k: int| 0 <= k < pairs.drop_first().len()
                    && !int_only(#[trigger] pairs.drop_first()[k].1);
                assert(!int_only(pairs[k0 + 1].1));
            }
        }
    }
}

/// Every element of the sequence is well formed.
pub open spec fn wf_seq(items: Seq<JsonV>) -> bool
    decreases items, 1int,
{
    items.len() == 0 || (wf_json(items[0]) && wf_seq(items.drop_first()))
}

/// Every field value of the object is well formed.
pub open spec fn wf_pairs(pairs: Seq<(Seq<char>, JsonV)>) -> bool
    decreases pairs, 1int,
{
    pairs.len() == 0 || (wf_json(pairs[0].1) && wf_pairs(pairs.drop_first()))
}

/// `wf_seq` says exactly that each element is well formed.
pub proof fn lemma_wf_seq(items: Seq<JsonV>)
    ensures
        wf_seq(items) == (forall|k: int|
            0 <= k < items.len() ==> wf_json(#[trigger] items[k])),
    decreases items.len(),
{
    if items.len() > 0 {
        lemma_wf_seq(items.drop_first());
        assert(forall|k: int| 0 <= k < items.drop_first().len()
            ==> #[trigger] items.drop_first()[k] == items[k + 1]);
        if wf_seq(items) {
            assert forall|k: int| 0 <= k < items.len() implies wf_json(#[trigger] items[k]) by {
                if k > 0 {
                    assert(items[k] == items.drop_first()[k - 1]);
                }
            }
        } else {
            if wf_json(items[0]) {
                assert(!wf_seq(items.drop_first()));
                let k0 = choose|k: int| 0 <= k < items.drop_first().len()
                    && !wf_json(#[trigger] items.drop_first()[k]);
                assert(!wf_json(items[k0 + 1]));
            }
        }
    }
}

/// `wf_pairs` says exactly that each field value is well formed.
pub proof fn lemma_wf_pairs(pairs: Seq<(Seq<char>, JsonV)>)
    ensures
        wf_pairs(pairs) == (forall|k: int|
            0 <= k < pairs.len() ==> wf_json(#[trigger] pairs[k].1)),
    decreases pairs.len(),
{
    if pairs.len() > 0 {
        lemma_wf_pairs(pairs.drop_first());
        assert(forall|k: int| 0 <= k < pairs.drop_first().len()
            ==> #[trigger] pairs.drop_first()[k] == pairs[k + 1]);
        if wf_pairs(pairs) {
            assert forall|k: int| 0 <= k < pairs.len() implies wf_json(#[trigger] pairs[k].1) by {
                if k > 0 {
                    assert(pairs[k] == pairs.drop_first()[k - 1]);
                }
            }
        } else {
            if wf_json(pairs[0].1) {
                assert(!wf_pairs(pairs.drop_first()));
                let k0 = choose|k: int| 0 <= k < pairs.drop_first().len()
                    && !wf_json(#[trigger] pairs.drop_first()[k].1);
                assert(!wf_json(pairs[k0 + 1].1));
            }
        }
    }
}

/// Looking a key up after appending one field: the old binding wins,
/// else the new field answers.
pub broadcast proof fn lemma_obj_get_push(
    pairs: Seq<(Seq<char>, JsonV)>,
    p: (Seq<char>, JsonV),
    key: Seq<char>,
)
    ensures
        #[trigger] spec_obj_get(pairs.push(p), key) == if spec_obj_get(pairs, key) is Some {
            spec_obj_get(pairs, key)
        } else if p.0 == key {
            Some(p.1)
        } else {
            None
        },
{
    lemma_obj_get_push_from(pairs, p, key, 0);
}

proof fn lemma_obj_get_push_from(
    pairs: Seq<(Seq<char>, JsonV)>,
    p: (Seq<char>, JsonV),
    key: Seq<char>,
    i: int,
)
    requires
        0 <= i <= pairs.len(),
    ensures
        spec_obj_get_from(pairs.push(p), key, i) == if spec_obj_get_from(pairs, key, i) is Some {
            spec_obj_get_from(pairs, key, i)
        } else if p.0 == key {
            Some(p.1)
        } else {
            None
        },
    decreases pairs.len() - i,
{
    if i == pairs.len() {
        assert(pairs.push(p)[i] == p);
    } else {
        assert(pairs.push(p)[i] == pairs[i]);
        lemma_obj_get_push_from(pairs, p, key, i + 1);
    }
}

/// A key has no binding exactly when no field carries it.
pub proof fn lemma_obj_get_absent(pairs: Seq<(Seq<char>, JsonV)>, key: Seq<char>)
    ensures
        (spec_obj_get(pairs, key) is None) == (forall|j: int|
            0 <= j < pairs.len() ==> (#[trigger] pairs[j].0) != key),
{
    lemma_obj_get_absent_from(pairs, key, 0);
}

proof fn lemma_obj_get_absent_from(pairs: Seq<(Seq<char>, JsonV)>, key: Seq<char>, i: int)
    requires
        0 <= i <= pairs.len(),
    ensures
        (spec_obj_get_from(pairs, key, i) is None) == (forall|j: int|
            i <= j < pairs.len() ==> (#[trigger] pairs[j].0) != key),
    decreases pairs.len() - i,
{
    if i < pairs.len() {
        lemma_obj_get_absent_from(pairs, key, i + 1);
    }
}

/// Appending a field keeps the keys distinct exactly when its key is new.
pub proof fn lemma_distinct_push(pairs: Seq<(Seq<char>, JsonV)>, p: (Seq<char>, JsonV))
    ensures
        distinct_keys(pairs.push(p)) == (distinct_keys(pairs) && forall|j: int|
            0 <= j < pairs.len() ==> (#[trigger] pairs[j].0) != p.0),
{
    let w = pairs.push(p);
    assert(forall|j: int| 0 <= j < pairs.len() ==> #[trigger] w[j] == pairs[j]);
    assert(w[pairs.len() as int] == p);
    if distinct_keys(pairs) && (forall|j: int|
        0 <= j < pairs.len() ==> (#[trigger] pairs[j].0) != p.0) {
        assert forall|i: int, j: int| 0 <= i < j < w.len() implies w[i].0 != w[j].0 by {
            if j < pairs.len() {
                assert(pairs[i].0 != pairs[j].0);
            } else {
                assert(w[j] == p);
                assert(pairs[i].0 != p.0);
            }
        }
    }
    if distinct_keys(w) {
        assert forall|i: int, j: int| 0 <= i < j < pairs.len() implies pairs[i].0 != pairs[j].0 by {
            assert(w[i].0 != w[j].0);
        }
        assert forall|j: int| 0 <= j < pairs.len() implies (#[trigger] pairs[j].0) != p.0 by {
            assert(w[j].0 != w[pairs.len() as int].0);
        }
    }
}


/// How deep a value the library hands to the text codec may nest.  The
/// codec's reader refuses documents past a fixed nesting limit (its
/// writer does not), so the library only promises that rendered text
/// reads back for values within this bound — which leaves the reader's
/// limit a wide margin, frame wrapping included.
pub const JSON_DEPTH_BOUND: usize = 100;

/// The value nests no deeper than `n` levels; a leaf is one level, and
/// each array or object around it is one more.
pub open spec fn json_depth_le(v: JsonV, n: int) -> bool
    decreases v, 0int,
{
    match v {
        JsonV::Null => n >= 1,
        JsonV::Bool(_) => n >= 1,
        JsonV::Int(_) => n >= 1,
        JsonV::Num(_) => n >= 1,
        JsonV::Str(_) => n >= 1,
        JsonV::Arr(items) => n >= 1 && seq_depth_le(items, n - 1),
        JsonV::Obj(pairs) => n >= 1 && pairs_depth_le(pairs, n - 1),
    }
}

/// Every element nests no deeper than `n` levels.
pub open spec fn seq_depth_le(items: Seq<JsonV>, n: int) -> bool
    decreases items, 1int,
{
    items.len() == 0 || (json_depth_le(items[0], n) && seq_depth_le(items.drop_first(), n))
}

/// Every field value nests no deeper than `n` levels.
pub open spec fn pairs_depth_le(pairs: Seq<(Seq<char>, JsonV)>, n: int) -> bool
    decreases pairs, 1int,
{
    pairs.len() == 0 || (json_depth_le(pairs[0].1, n) && pairs_depth_le(
        pairs.drop_first(),
        n,
    ))
}

/// `seq_depth_le` says exactly that each element is within the bound.
pub proof fn lemma_seq_depth_le(items: Seq<JsonV>, n: int)
    ensures
        seq_depth_le(items, n) == (forall|k: int|
            0 <= k < items.len() ==> json_depth_le(#[trigger] items[k], n)),
    decreases items.len(),
{
    if items.len() > 0 {
        lemma_seq_depth_le(items.drop_first(), n);
        assert(forall|k: int| 0 <= k < items.drop_first().len()
            ==> #[trigger] items.drop_first()[k] == items[k + 1]);
        if seq_depth_le(items, n) {
            assert forall|k: int| 0 <= k < items.len()
                implies json_depth_le(#[trigger] items[k], n) by {
                if k > 0 {
                    assert(items[k] == items.drop_first()[k - 1]);
                }
            }
        } else {
            if json_depth_le(items[0], n) {
                assert(!seq_depth_le(items.drop_first(), n));
                let k0 = choose|k: int| 0 <= k < items.drop_first().len()
                    && !json_depth_le(#[trigger] items.drop_first()[k], n);
                assert(!json_depth_le(items[k0 + 1], n));
            }
        }
    }
}

/// `pairs_depth_le` says exactly that each field value is within the
/// bound.
pub proof fn lemma_pairs_depth_le(pairs: Seq<(Seq<char>, JsonV)>, n: int)
    ensures
        pairs_depth_le(pairs, n) == (forall|k: int|
            0 <= k < pairs.len() ==> json_depth_le((#[trigger] pairs[k]).1, n)),
    decreases pairs.len(),
{
    if pairs.len() > 0 {
        lemma_pairs_depth_le(pairs.drop_first(), n);
        assert(forall|k: int| 0 <= k < pairs.drop_first().len()
            ==> #[trigger] pairs.drop_first()[k] == pairs[k + 1]);
        if pairs_depth_le(pairs, n) {
            assert forall|k: int| 0 <= k < pairs.len()
                implies json_depth_le((#[trigger] pairs[k]).1, n) by {
                if k > 0 {
                    assert(pairs[k] == pairs.drop_first()[k - 1]);
                }
            }
        } else {
            if json_depth_le(pairs[0].1, n) {
                assert(!pairs_depth_le(pairs.drop_first(), n));
                let k0 = choose|k: int| 0 <= k < pairs.drop_first().len()
                    && !json_depth_le((#[trigger] pairs.drop_first()[k]).1, n);
                assert(!json_depth_le(pairs[k0 + 1].1, n));
            }
        }
    }
}

/// A value within a bound is within every larger bound.
pub proof fn lemma_depth_le_mono(v: JsonV, n: int, m: int)
    requires
        json_depth_le(v, n),
        n <= m,
    ensures
        json_depth_le(v, m),
    decreases v, 0int,
{
    match v {
        JsonV::Arr(items) => {
            lemma_seq_depth_le_mono(items, n - 1, m - 1);
        },
        JsonV::Obj(pairs) => {
            lemma_pairs_depth_le_mono(pairs, n - 1, m - 1);
        },
        _ => {},
    }
}

/// Elements within a bound are within every larger bound.
pub proof fn lemma_seq_depth_le_mono(items: Seq<JsonV>, n: int, m: int)
    requires
        seq_depth_le(items, n),
        n <= m,
    ensures
        seq_depth_le(items, m),
    decreases items, 1int,
{
    if items.len() > 0 {
        lemma_depth_le_mono(items[0], n, m);
        lemma_seq_depth_le_mono(items.drop_first(), n, m);
    }
}

/// Field values within a bound are within every larger bound.
pub proof fn lemma_pairs_depth_le_mono(pairs: Seq<(Seq<char>, JsonV)>, n: int, m: int)
    requires
        pairs_depth_le(pairs, n),
        n <= m,
    ensures
        pairs_depth_le(pairs, m),
    decreases pairs, 1int,
{
    if pairs.len() > 0 {
        lemma_depth_le_mono(pairs[0].1, n, m);
        lemma_pairs_depth_le_mono(pairs.drop_first(), n, m);
    }
}

/// String comparison by contents.
pub fn str_eq(a: &str, b: &str) -> (r: bool)
    ensures
        r == (a@ == b@),
{
    let sa: String = a.to_owned();
    let sb: String = b.to_owned();
    sa == sb
}

impl JsonValue {
    /// Look up `key` in an object; on any other kind of value there is
    /// nothing to find.
    pub fn get<'a>(&'a self, key: &str) -> (r: Option<&'a JsonValue>)
        ensures
            match self@ {
                JsonV::Obj(pairs) => match r {
                    Some(x) => spec_obj_get(pairs, key@) == Some(x@),
                    None => spec_obj_get(pairs, key@) is None,
                },
                _ => r is None,
            },
    {
        proof {
            reveal_with_fuel(<JsonValue as View>::view, 2);
        }
        match self {
            JsonValue::Obj(pairs) => {
                let ghost ps = self@->Obj_0;
                let mut i: usize = 0;
                while i < pairs.len()
                    invariant
                        0 <= i <= pairs.len(),
                        self@ == JsonV::Obj(ps),
                        ps.len() == pairs@.len(),
                        forall|k: int| 0 <= k < pairs@.len()
                            ==> ps[k] == (pairs@[k].0@, pairs@[k].1@),
                        spec_obj_get(ps, key@) == spec_obj_get_from(ps, key@, i as int),
                    decreases pairs.len() - i,
                {
                    if str_eq(pairs[i].0.as_str(), key) {
                        return Some(&pairs[i].1);
                    }
                    i = i + 1;
                }
                None
            },
            _ => None,
        }
    }

    /// A structural copy: the result denotes the same JSON value.
    pub fn deep_clone(&self) -> (r: JsonValue)
        ensures
            r@ == self@,
        decreases self,
    {
        proof {
            reveal_with_fuel(<JsonValue as View>::view, 2);
        }
        match self {
            JsonValue::Null => JsonValue::Null,
            JsonValue::Bool(b) => JsonValue::Bool(*b),
            JsonValue::Int(i) => JsonValue::Int(*i),
            JsonValue::Num(s) => JsonValue::Num(s.clone()),
            JsonValue::Str(s) => JsonValue::Str(s.clone()),
            JsonValue::Arr(items) => {
                let mut out: Vec<JsonValue> = Vec::new();
                let mut i: usize = 0;
                while i < items.len()
                    invariant
                        0 <= i <= items.len(),
                        *self == JsonValue::Arr(*items),
                        out@.len() == i,
                        forall|k: int| 0 <= k < i ==> #[trigger] out@[k]@ == items@[k]@,
                    decreases items.len() - i,
                {
                    proof {
                        assert(decreases_to!(*self => (*self)->Arr_0));
                        assert(decreases_to!(items@ => items@[i as int]));
                        assert(decreases_to!(*self => items@[i as int]));
                    }
                    let c = items[i].deep_clone();
                    out.push(c);
                    i = i + 1;
                }
                let r = JsonValue::Arr(out);
                proof {
                    reveal_with_fuel(<JsonValue as View>::view, 2);
                    let ghost s1 = r@->Arr_0;
                    let ghost s2 = self@->Arr_0;
                    assert(s1.len() == out@.len());
                    assert(s2.len() == items@.len());
                    assert(forall|k: int| 0 <= k < s1.len() ==> #[trigger] s1[k] == out@[k]@);
                    assert(forall|k: int| 0 <= k < s2.len() ==> #[trigger] s2[k] == items@[k]@);
                    assert(forall|k: int| 0 <= k < s1.len() ==> #[trigger] s1[k] == s2[k]);
                    assert(s1 =~= s2);
                    assert(r@ == self@);
                }
                r
            },
            JsonValue::Obj(pairs) => {
                let mut out: Vec<(String, JsonValue)> = Vec::new();
                let mut i: usize = 0;
                while i < pairs.len()
                    invariant
                        0 <= i <= pairs.len(),
                        *self == JsonValue::Obj(*pairs),
                        out@.len() == i,
                        forall|k: int| 0 <= k < i ==> #[trigger] out@[k].0@ == pairs@[k].0@
                            && out@[k].1@ == pairs@[k].1@,
                    decreases pairs.len() - i,
                {
                    proof {
                        assert(decreases_to!(*self => (*self)->Obj_0));
                        assert(decreases_to!(pairs@ => pairs@[i as int]));
                        assert(decreases_to!(pairs@[i as int] => pairs@[i as int].1));
                        assert(decreases_to!(*self => pairs@[i as int].1));
                    }
                    let k = pairs[i].0.clone();
                    let v = pairs[i].1.deep_clone();
                    out.push((k, v));
                    i = i + 1;
                }
                let r = JsonValue::Obj(out);
                proof {
                    reveal_with_fuel(<JsonValue as View>::view, 2);
                    let ghost s1 = r@->Obj_0;
                    let ghost s2 = self@->Obj_0;
                    assert(s1.len() == out@.len());
                    assert(s2.len() == pairs@.len());
                    assert(forall|k: int| 0 <= k < s1.len()
                        ==> #[trigger] s1[k] == (out@[k].0@, out@[k].1@));
                    assert(forall|k: int| 0 <= k < s2.len()
                        ==> #[trigger] s2[k] == (pairs@[k].0@, pairs@[k].1@));
                    assert(forall|k: int| 0 <= k < s1.len() ==> #[trigger] s1[k] == s2[k]);
                    assert(s1 =~= s2);
                    assert(r@ == self@);
                }
                r
            },
        }
    }


    /// Does the value nest within `n` levels?
    pub fn depth_le(&self, n: usize) -> (r: bool)
        ensures
            r == json_depth_le(self@, n as int),
        decreases self,
    {
        if n == 0 {
            return false;
        }
        match self {
            JsonValue::Null => true,
            JsonValue::Bool(_) => true,
            JsonValue::Int(_) => true,
            JsonValue::Num(_) => true,
            JsonValue::Str(_) => true,
            JsonValue::Arr(items) => {
                proof {
                    reveal_with_fuel(<JsonValue as View>::view, 2);
                }
                let ghost s = self@->Arr_0;
                let mut i: usize = 0;
                while i < items.len()
                    invariant
                        0 <= i <= items.len(),
                        n >= 1,
                        *self == JsonValue::Arr(*items),
                        self@ == JsonV::Arr(s),
                        s.len() == items@.len(),
                        forall|k: int| 0 <= k < s.len() ==> #[trigger] s[k] == items@[k]@,
                        forall|k: int| 0 <= k < i
                            ==> json_depth_le(#[trigger] s[k], n as int - 1),
                    decreases items.len() - i,
                {
                    proof {
                        assert(decreases_to!(*self => (*self)->Arr_0));
                        assert(decreases_to!(items@ => items@[i as int]));
                        assert(decreases_to!(*self => items@[i as int]));
                    }
                    if !items[i].depth_le(n - 1) {
                        proof {
                            assert(!json_depth_le(s[i as int], n as int - 1));
                            lemma_seq_depth_le(s, n as int - 1);
                            assert(!json_depth_le(self@, n as int));
                        }
                        return false;
                    }
                    i = i + 1;
                }
                proof {
                    lemma_seq_depth_le(s, n as int - 1);
                    assert(json_depth_le(self@, n as int));
                }
                true
            },
            JsonValue::Obj(pairs) => {
                proof {
                    reveal_with_fuel(<JsonValue as View>::view, 2);
                }
                let ghost ps = self@->Obj_0;
                let mut i: usize = 0;
                while i < pairs.len()
                    invariant
                        0 <= i <= pairs.len(),
                        n >= 1,
                        *self == JsonValue::Obj(*pairs),
                        self@ == JsonV::Obj(ps),
                        ps.len() == pairs@.len(),
                        forall|k: int| 0 <= k < ps.len()
                            ==> #[trigger] ps[k] == (pairs@[k].0@, pairs@[k].1@),
                        forall|k: int| 0 <= k < i
                            ==> json_depth_le((#[trigger] ps[k]).1, n as int - 1),
                    decreases pairs.len() - i,
                {
                    proof {
                        assert(decreases_to!(*self => (*self)->Obj_0));
                        assert(decreases_to!(pairs@ => pairs@[i as int]));
                        assert(decreases_to!(pairs@[i as int] => pairs@[i as int].1));
                        assert(decreases_to!(*self => pairs@[i as int].1));
                    }
                    if !pairs[i].1.depth_le(n - 1) {
                        proof {
                            assert(!json_depth_le(ps[i as int].1, n as int - 1));
                            lemma_pairs_depth_le(ps, n as int - 1);
                            assert(!json_depth_le(self@, n as int));
                        }
                        return false;
                    }
                    i = i + 1;
                }
                proof {
                    lemma_pairs_depth_le(ps, n as int - 1);
                    assert(json_depth_le(self@, n as int));
                }
                true
            },
        }
    }

    /// Does the library's text codec accept this value?
    pub fn is_wf_json(&self) -> (r: bool)
        ensures
            r == wf_json(self@),
        decreases self,
    {
        match self {
            JsonValue::Null => true,
            JsonValue::Bool(_) => true,
            JsonValue::Int(_) => true,
            JsonValue::Num(_) => true,
            JsonValue::Str(_) => true,
            JsonValue::Arr(items) => {
                proof {
                    reveal_with_fuel(<JsonValue as View>::view, 2);
                }
                let ghost s = self@->Arr_0;
                let mut i: usize = 0;
                while i < items.len()
                    invariant
                        0 <= i <= items.len(),
                        *self == JsonValue::Arr(*items),
                        self@ == JsonV::Arr(s),
                        s.len() == items@.len(),
                        forall|k: int| 0 <= k < s.len() ==> #[trigger] s[k] == items@[k]@,
                        forall|k: int| 0 <= k < i ==> wf_json(#[trigger] s[k]),
                    decreases items.len() - i,
                {
                    proof {
                        assert(decreases_to!(*self => (*self)->Arr_0));
                        assert(decreases_to!(items@ => items@[i as int]));
                        assert(decreases_to!(*self => items@[i as int]));
                    }
                    if !items[i].is_wf_json() {
                        proof {
                            assert(!wf_json(s[i as int]));
                            lemma_wf_seq(s);
                            assert(!wf_json(self@));
                        }
                        return false;
                    }
                    i = i + 1;
                }
                proof {
                    lemma_wf_seq(s);
                    assert(wf_json(self@));
                }
                true
            },
            JsonValue::Obj(pairs) => {
                proof {
                    reveal_with_fuel(<JsonValue as View>::view, 2);
                }
                let ghost ps = self@->Obj_0;
                let mut i: usize = 0;
                while i < pairs.len()
                    invariant
                        0 <= i <= pairs.len(),
                        *self == JsonValue::Obj(*pairs),
                        self@ == JsonV::Obj(ps),
                        ps.len() == pairs@.len(),
                        forall|k: int| 0 <= k < ps.len()
                            ==> #[trigger] ps[k] == (pairs@[k].0@, pairs@[k].1@),
                        forall|k: int| 0 <= k < i ==> wf_json(#[trigger] ps[k].1),
                    decreases pairs.len() - i,
                {
                    proof {
                        assert(decreases_to!(*self => (*self)->Obj_0));
                        assert(decreases_to!(pairs@ => pairs@[i as int]));
                        assert(decreases_to!(pairs@[i as int] => pairs@[i as int].1));
                        assert(decreases_to!(*self => pairs@[i as int].1));
                    }
                    if !pairs[i].1.is_wf_json() {
                        proof {
                            assert(!wf_json(ps[i as int].1));
                            lemma_wf_pairs(ps);
                            assert(!wf_json(self@));
                        }
                        return false;
                    }
                    i = i + 1;
                }
                let mut a: usize = 0;
                while a < pairs.len()
                    invariant
                        0 <= a <= pairs.len(),
                        self@ == JsonV::Obj(ps),
                        ps.len() == pairs@.len(),
                        forall|k: int| 0 <= k < ps.len()
                            ==> #[trigger] ps[k] == (pairs@[k].0@, pairs@[k].1@),
                        forall|k: int| 0 <= k < ps.len() ==> wf_json(#[trigger] ps[k].1),
                        forall|k1: int, k2: int| 0 <= k1 < k2 < a
                            ==> (#[trigger] ps[k1].0) != (#[trigger] ps[k2].0),
                    decreases pairs.len() - a,
                {
                    let mut b: usize = 0;
                    while b < a
                        invariant
                            0 <= b <= a < pairs.len(),
                            self@ == JsonV::Obj(ps),
                            ps.len() == pairs@.len(),
                            forall|k: int| 0 <= k < ps.len()
                                ==> #[trigger] ps[k] == (pairs@[k].0@, pairs@[k].1@),
                            forall|k: int| 0 <= k < ps.len() ==> wf_json(#[trigger] ps[k].1),
                            forall|k1: int, k2: int| 0 <= k1 < k2 < a
                                ==> (#[trigger] ps[k1].0) != (#[trigger] ps[k2].0),
                            forall|k: int| 0 <= k < b
                                ==> (#[trigger] ps[k].0) != ps[a as int].0,
                        decreases a - b,
                    {
                        if str_eq(pairs[b].0.as_str(), pairs[a].0.as_str()) {
                            proof {
                                assert(ps[b as int].0 == ps[a as int].0);
                                assert(!distinct_keys(ps));
                                assert(!wf_json(self@));
                            }
                            return false;
                        }
                        b = b + 1;
                    }
                    a = a + 1;
                }
                proof {
                    assert(distinct_keys(ps));
                    lemma_wf_pairs(ps);
                    assert(wf_json(self@));
                }
                true
            },
        }
    }
}

/// The JSON value, if any, that a piece of text denotes.  What this is in
/// full is the JSON grammar; the library does not restate it, it only
/// relies on the text codec reading and writing it consistently.
pub uninterp spec fn json_model_of(s: Seq<char>) -> Option<JsonV>;

#[verifier::external_type_specification]
#[verifier::external_body]
pub struct ExSerdeValue(serde_json::Value);

/// Bridge from the outside codec's tree to the library's: each node is
/// mapped across one for one.  Integer-valued numbers become `Int`; any
/// other number keeps its text.
#[verifier::external_body]
fn value_to_model(v: serde_json::Value) -> JsonValue {
    match v {
        serde_json::Value::Null => JsonValue::Null,
        serde_json::Value::Bool(b) => JsonValue::Bool(b),
        serde_json::Value::Number(n) => match n.as_i64() {
            Some(i) => JsonValue::Int(i),
            None => JsonValue::Num(n.to_string()),
        },
        serde_json::Value::String(s) => JsonValue::Str(s),
        serde_json::Value::Array(items) => JsonValue::Arr(
            items.into_iter().map(value_to_model).collect(),
        ),
        serde_json::Value::Object(pairs) => JsonValue::Obj(
            pairs.into_iter().map(|(k, x)| (k, value_to_model(x))).collect(),
        ),
    }
}

/// Bridge back: the inverse of `value_to_model` on values the library
/// encodes (an `Int` is exactly an integer-valued number there).
#[verifier::external_body]
fn model_to_value(v: &JsonValue) -> serde_json::Value {
    match v {
        JsonValue::Null => serde_json::Value::Null,
        JsonValue::Bool(b) => serde_json::Value::Bool(*b),
        JsonValue::Int(i) => serde_json::Value::from(*i),
        JsonValue::Num(s) => s
            .parse::<serde_json::Number>()
            .map(serde_json::Value::Number)
            .unwrap_or(serde_json::Value::Null),
        JsonValue::Str(s) => serde_json::Value::String(s.clone()),
        JsonValue::Arr(items) => serde_json::Value::Array(items.iter().map(model_to_value).collect()),
        JsonValue::Obj(pairs) => serde_json::Value::Object(
            pairs.iter().map(|(k, x)| (k.clone(), model_to_value(x))).collect(),
        ),
    }
}

/// Relies on String's collection from an iterator of characters: the
/// result is exactly those characters.
#[verifier::external_body]
pub(crate) fn chars_to_string(v: &Vec<char>) -> (r: String)
    ensures
        r@ == v@,
{
    v.iter().collect()
}

/// Relies on serde_json::from_str: it reads JSON text, and fails exactly
/// on text that is not JSON.
#[verifier::external_body]
pub(crate) fn parse_json(s: &str) -> (r: Option<JsonValue>)
    ensures
        (r is Some) == (json_model_of(s@) is Some),
        r matches Some(v) ==> json_model_of(s@) == Some(v@),
{
    serde_json::from_str::<serde_json::Value>(s).ok().map(value_to_model)
}

/// Relies on serde_json::to_string: it writes the value as JSON text,
/// and on serde_json::from_str reading serde_json's own output back to
/// the same value.  The reader enforces a nesting limit the writer does
/// not, so the text is promised to read back only for values within the
/// library's depth bound, which the limit comfortably covers; field
/// order is kept by the codec's ordered maps, and a non-integer numeric
/// literal may come back respelt, so the value itself is promised back
/// only where none occurs.
#[verifier::external_body]
pub(crate) fn render_json(v: &JsonValue) -> (r: String)
    requires
        wf_json(v@),
        json_depth_le(v@, JSON_DEPTH_BOUND as int),
    ensures
        json_model_of(r@) is Some,
        int_only(v@) ==> json_model_of(r@) == Some(v@),
{
    model_to_value(v).to_string()
}

} // verus!
