//! JSON values as the natives hold them. Objects keep their keys sorted by
//! byte order, as the ordered map behind `serde_json::Value` does by default,
//! so keys come out in that order.

use vstd::prelude::*;

verus! {

/// A JSON number as `serde_json` stores it: a non-negative integer, a
/// negative integer, or a finite float held by its IEEE-754 bits.
#[derive(Clone, Copy, Debug, PartialEq, Eq, Structural)]
pub enum JsonNumber {
    PosInt(u64),
    NegInt(i64),
    Float(u64),
}

/// A JSON value.
#[derive(Debug)]
pub enum JsonValue {
    Null,
    Bool(bool),
    Number(JsonNumber),
    String(Vec<u8>),
    Array(Vec<JsonValue>),
    Object(Vec<JsonEntry>),
}

/// One member of a JSON object.
#[derive(Debug)]
pub struct JsonEntry {
    pub key: Vec<u8>,
    pub value: JsonValue,
}

/// The mathematical JSON value: strings as UTF-8 bytes, arrays as sequences,
/// objects as sequences of (key, value) pairs.
pub enum Json {
    Null,
    Bool(bool),
    Number(JsonNumber),
    Str(Seq<u8>),
    Array(Seq<Json>),
    Object(Seq<(Seq<u8>, Json)>),
}

impl JsonValue {
    /// The mathematical value this value stands for.
    pub open spec fn to_json(self) -> Json
        decreases self,
    {
        match self {
            JsonValue::Null => Json::Null,
            JsonValue::Bool(b) => Json::Bool(b),
            JsonValue::Number(n) => Json::Number(n),
            JsonValue::String(s) => Json::Str(s@),
            JsonValue::Array(v) => Json::Array(
                Seq::new(v.len() as nat, |i: int| if 0 <= i < v.len() { v[i].to_json() } else { Json::Null }),
            ),
            JsonValue::Object(v) => Json::Object(
                Seq::new(
                    v.len() as nat,
                    |i: int| if 0 <= i < v.len() { (v[i].key@, v[i].value.to_json()) } else { (Seq::empty(), Json::Null) },
                ),
            ),
        }
    }
}

impl View for JsonValue {
    type V = Json;

    open spec fn view(&self) -> Json {
        self.to_json()
    }
}

/// The view of an array's elements.
pub open spec fn elems_view(v: Seq<JsonValue>) -> Seq<Json> {
    Seq::new(v.len() as nat, |i: int| v[i]@)
}

/// The view of an object's entries.
pub open spec fn entries_view(v: Seq<JsonEntry>) -> Seq<(Seq<u8>, Json)> {
    Seq::new(v.len() as nat, |i: int| (v[i].key@, v[i].value@))
}

pub proof fn lemma_array_view(v: Vec<JsonValue>)
    ensures
        JsonValue::Array(v)@ == Json::Array(elems_view(v@)),
{
    if let Json::Array(a) = JsonValue::Array(v)@ {
        assert forall|i: int| 0 <= i < a.len() implies a[i] == elems_view(v@)[i] by {}
        assert(a =~= elems_view(v@));
    }
}

pub proof fn lemma_object_view(v: Vec<JsonEntry>)
    ensures
        JsonValue::Object(v)@ == Json::Object(entries_view(v@)),
{
    if let Json::Object(a) = JsonValue::Object(v)@ {
        assert forall|i: int| 0 <= i < a.len() implies a[i] == entries_view(v@)[i] by {}
        assert(a =~= entries_view(v@));
    }
}

/// Byte-wise lexicographic order of keys (the order of Rust's `String`).
pub open spec fn key_lt(a: Seq<u8>, b: Seq<u8>) -> bool
    decreases a.len(),
{
    if a.len() == 0 {
        b.len() > 0
    } else if b.len() == 0 {
        false
    } else if a[0] < b[0] {
        true
    } else if a[0] > b[0] {
        false
    } else {
        key_lt(a.drop_first(), b.drop_first())
    }
}

pub proof fn lemma_key_lt_irrefl(a: Seq<u8>)
    ensures
        !key_lt(a, a),
    decreases a.len(),
{
    if a.len() > 0 {
        lemma_key_lt_irrefl(a.drop_first());
    }
}

pub proof fn lemma_key_lt_trans(a: Seq<u8>, b: Seq<u8>, c: Seq<u8>)
    requires
        key_lt(a, b),
        key_lt(b, c),
    ensures
        key_lt(a, c),
    decreases a.len(),
{
    if a.len() > 0 && b.len() > 0 && c.len() > 0 && a[0] == b[0] && b[0] == c[0] {
        lemma_key_lt_trans(a.drop_first(), b.drop_first(), c.drop_first());
    }
}

pub proof fn lemma_key_lt_total(a: Seq<u8>, b: Seq<u8>)
    ensures
        a == b || key_lt(a, b) || key_lt(b, a),
        !(key_lt(a, b) && key_lt(b, a)),
    decreases a.len(),
{
    if a.len() > 0 && b.len() > 0 && a[0] == b[0] {
        lemma_key_lt_total(a.drop_first(), b.drop_first());
        if a.drop_first() == b.drop_first() {
            assert(a =~= seq![a[0]] + a.drop_first());
            assert(b =~= seq![b[0]] + b.drop_first());
        }
    } else if a.len() == 0 && b.len() == 0 {
        assert(a =~= b);
    }
}

/// Keys strictly increase.
pub open spec fn keys_sorted(m: Seq<(Seq<u8>, Json)>) -> bool {
    forall|i: int, j: int| 0 <= i < j < m.len() ==> key_lt(#[trigger] m[i].0, #[trigger] m[j].0)
}

/// The first position whose key is not below `k` (where `k` sits or would go).
pub open spec fn lower_bound(m: Seq<(Seq<u8>, Json)>, k: Seq<u8>) -> int {
    choose|p: int| is_lower_bound(m, k, p)
}

pub open spec fn is_lower_bound(m: Seq<(Seq<u8>, Json)>, k: Seq<u8>, p: int) -> bool {
    &&& 0 <= p <= m.len()
    &&& forall|j: int| 0 <= j < p ==> key_lt(#[trigger] m[j].0, k)
    &&& p < m.len() ==> !key_lt(m[p].0, k)
}

pub proof fn lemma_lower_bound_unique(m: Seq<(Seq<u8>, Json)>, k: Seq<u8>, p: int)
    requires
        is_lower_bound(m, k, p),
    ensures
        lower_bound(m, k) == p,
        is_lower_bound(m, k, lower_bound(m, k)),
{
    let q = lower_bound(m, k);
    assert(is_lower_bound(m, k, q));
    if q < p {
        assert(key_lt(m[q].0, k));
    } else if q > p {
        assert(key_lt(m[p].0, k));
    }
}

/// Position of key `k` in the object, if it is there.
pub open spec fn obj_find(m: Seq<(Seq<u8>, Json)>, k: Seq<u8>) -> Option<int> {
    let p = lower_bound(m, k);
    if p < m.len() && m[p].0 == k {
        Some(p)
    } else {
        None
    }
}

/// The object after `entry(k).or_insert(Null)`, with the position of `k`.
pub open spec fn obj_entry(m: Seq<(Seq<u8>, Json)>, k: Seq<u8>) -> (Seq<(Seq<u8>, Json)>, int) {
    match obj_find(m, k) {
        Some(i) => (m, i),
        None => (m.insert(lower_bound(m, k), (k, Json::Null)), lower_bound(m, k)),
    }
}

/// In a sorted object, `obj_find` finds exactly the entry with that key.
pub proof fn lemma_obj_find_sorted(m: Seq<(Seq<u8>, Json)>, k: Seq<u8>)
    requires
        keys_sorted(m),
    ensures
        obj_find(m, k) matches Some(i) ==> 0 <= i < m.len() && m[i].0 == k,
        obj_find(m, k) is None ==> forall|i: int| 0 <= i < m.len() ==> #[trigger] m[i].0 != k,
{
    let p = lower_bound(m, k);
    lemma_lower_bound_exists(m, k);
    if obj_find(m, k) is None {
        assert forall|i: int| 0 <= i < m.len() implies #[trigger] m[i].0 != k by {
            if i < p {
                assert(key_lt(m[i].0, k));
                lemma_key_lt_irrefl(k);
            } else if i == p {
            } else {
                assert(key_lt(m[p].0, m[i].0));
                if m[i].0 == k {
                    lemma_key_lt_total(m[p].0, k);
                }
            }
        }
    }
}

/// A lower bound always exists.
pub proof fn lemma_lower_bound_exists(m: Seq<(Seq<u8>, Json)>, k: Seq<u8>)
    ensures
        is_lower_bound(m, k, lower_bound(m, k)),
    decreases m.len(),
{
    let mut p: int = 0;
    let witness = first_not_below(m, k, 0);
    lemma_first_not_below(m, k, 0);
    lemma_lower_bound_unique(m, k, witness);
}

spec fn first_not_below(m: Seq<(Seq<u8>, Json)>, k: Seq<u8>, i: int) -> int
    decreases m.len() - i,
{
    if i >= m.len() || i < 0 {
        m.len() as int
    } else if !key_lt(m[i].0, k) {
        i
    } else {
        first_not_below(m, k, i + 1)
    }
}

proof fn lemma_first_not_below(m: Seq<(Seq<u8>, Json)>, k: Seq<u8>, i: int)
    requires
        0 <= i <= m.len(),
        forall|j: int| 0 <= j < i ==> key_lt(#[trigger] m[j].0, k),
    ensures
        is_lower_bound(m, k, first_not_below(m, k, i)),
    decreases m.len() - i,
{
    if i < m.len() && key_lt(m[i].0, k) {
        lemma_first_not_below(m, k, i + 1);
    }
}

/// Inserting a key at its lower bound keeps an object sorted.
pub proof fn lemma_insert_sorted(m: Seq<(Seq<u8>, Json)>, k: Seq<u8>, v: Json)
    requires
        keys_sorted(m),
        obj_find(m, k) is None,
    ensures
        keys_sorted(m.insert(lower_bound(m, k), (k, v))),
{
    let p = lower_bound(m, k);
    lemma_lower_bound_exists(m, k);
    let n = m.insert(p, (k, v));
    if p < m.len() {
        lemma_key_lt_total(m[p].0, k);
    }
    assert forall|i: int, j: int| 0 <= i < j < n.len() implies key_lt(#[trigger] n[i].0, #[trigger] n[j].0) by {
        if j < p {
            assert(n[i] == m[i] && n[j] == m[j]);
        } else if j == p {
            assert(n[i] == m[i]);
        } else if i == p {
            assert(n[j] == m[j - 1]);
            if j - 1 > p {
                lemma_key_lt_trans(k, m[p].0, m[j - 1].0);
            }
        } else if i < p {
            assert(n[i] == m[i] && n[j] == m[j - 1]);
            lemma_key_lt_trans(m[i].0, k, m[p].0);
            if j - 1 > p {
                lemma_key_lt_trans(m[i].0, m[p].0, m[j - 1].0);
            }
        } else {
            assert(n[i] == m[i - 1] && n[j] == m[j - 1]);
        }
    }
}

/// Compares keys byte-wise: negative, zero or positive.
pub fn key_order(a: &[u8], b: &[u8]) -> (r: i8)
    ensures
        r < 0 <==> key_lt(a@, b@),
        r == 0 <==> a@ == b@,
        r > 0 <==> key_lt(b@, a@),
{
    let mut i: usize = 0;
    proof {
        lemma_key_lt_total(a@, b@);
        assert(a@.skip(0) =~= a@);
        assert(b@.skip(0) =~= b@);
        assert(a@.take(0) =~= b@.take(0));
    }
    while i < a.len() && i < b.len()
        invariant
            i <= a.len(),
            i <= b.len(),
            a@.take(i as int) == b@.take(i as int),
            key_lt(a@, b@) == key_lt(a@.skip(i as int), b@.skip(i as int)),
            key_lt(b@, a@) == key_lt(b@.skip(i as int), a@.skip(i as int)),
        decreases a.len() - i,
    {
        if a[i] < b[i] {
            return -1;
        }
        if a[i] > b[i] {
            return 1;
        }
        proof {
            assert(a@.skip(i as int).drop_first() =~= a@.skip(i + 1));
            assert(b@.skip(i as int).drop_first() =~= b@.skip(i + 1));
            assert(a@.take(i + 1) =~= a@.take(i as int).push(a@[i as int]));
            assert(b@.take(i + 1) =~= b@.take(i as int).push(b@[i as int]));
        }
        i += 1;
    }
    if a.len() == b.len() {
        assert(a@ =~= a@.take(i as int));
        assert(b@ =~= b@.take(i as int));
        0
    } else if a.len() < b.len() {
        assert(a@.skip(i as int).len() == 0);
        -1
    } else {
        assert(b@.skip(i as int).len() == 0);
        1
    }
}

/// The position where `k` is or would be inserted in the object.
pub fn entries_lower_bound(m: &Vec<JsonEntry>, k: &[u8]) -> (r: usize)
    ensures
        r == lower_bound(entries_view(m@), k@),
        is_lower_bound(entries_view(m@), k@, r as int),
{
    let ghost ev = entries_view(m@);
    let mut i: usize = 0;
    while i < m.len() && key_order(m[i].key.as_slice(), k) < 0
        invariant
            i <= m.len(),
            ev == entries_view(m@),
            forall|j: int| 0 <= j < i ==> key_lt(#[trigger] ev[j].0, k@),
        decreases m.len() - i,
    {
        i += 1;
    }
    proof { lemma_lower_bound_unique(ev, k@, i as int); }
    i
}

/// Position of key `k` in the object, if present.
pub fn entries_find(m: &Vec<JsonEntry>, k: &[u8]) -> (r: Option<usize>)
    ensures
        r matches Some(i) ==> obj_find(entries_view(m@), k@) == Some(i as int),
        r is None ==> obj_find(entries_view(m@), k@) is None,
{
    let p = entries_lower_bound(m, k);
    if p < m.len() && key_order(m[p].key.as_slice(), k) == 0 {
        Some(p)
    } else {
        None
    }
}

/// Copies a byte string.
pub fn bytes_copy(b: &[u8]) -> (r: Vec<u8>)
    ensures
        r@ == b@,
{
    let mut out: Vec<u8> = Vec::with_capacity(b.len());
    let mut i: usize = 0;
    while i < b.len()
        invariant
            i <= b.len(),
            out@ == b@.take(i as int),
        decreases b.len() - i,
    {
        out.push(b[i]);
        i += 1;
        assert(out@ =~= b@.take(i as int));
    }
    assert(b@.take(b@.len() as int) =~= b@);
    out
}

impl JsonValue {
    /// A deep copy of the value.
    #[verifier::loop_isolation(false)]
    pub fn duplicate(&self) -> (r: JsonValue)
        ensures
            r@ == self@,
        decreases self,
    {
        match self {
            JsonValue::Null => JsonValue::Null,
            JsonValue::Bool(b) => JsonValue::Bool(*b),
            JsonValue::Number(n) => JsonValue::Number(*n),
            JsonValue::String(s) => JsonValue::String(bytes_copy(s.as_slice())),
            JsonValue::Array(v) => {
                let mut out: Vec<JsonValue> = Vec::new();
                let mut i: usize = 0;
                while i < v.len()
                    invariant
                        i <= v.len(),
                        out@.len() == i,
                        forall|j: int| 0 <= j < i ==> out@[j]@ == v@[j]@,
                    decreases v.len() - i,
                {
                    proof {
                        vstd::std_specs::vec::axiom_vec_index_decreases(*v, i as int);
                        assert(decreases_to!(*self => *v));
                    }
                    let c = v[i].duplicate();
                    out.push(c);
                    i += 1;
                }
                proof {
                    lemma_array_view(out);
                    lemma_array_view(*v);
                    assert(elems_view(out@) =~= elems_view(v@));
                }
                JsonValue::Array(out)
            },
            JsonValue::Object(v) => {
                let mut out: Vec<JsonEntry> = Vec::new();
                let mut i: usize = 0;
                while i < v.len()
                    invariant
                        i <= v.len(),
                        out@.len() == i,
                        forall|j: int| 0 <= j < i ==> out@[j].value@ == v@[j].value@ && out@[j].key@ == v@[j].key@,
                    decreases v.len() - i,
                {
                    proof {
                        vstd::std_specs::vec::axiom_vec_index_decreases(*v, i as int);
                        assert(decreases_to!(*self => *v));
                        assert(decreases_to!(v[i as int] => v[i as int].value));
                    }
                    let k = bytes_copy(v[i].key.as_slice());
                    let c = v[i].value.duplicate();
                    out.push(JsonEntry { key: k, value: c });
                    i += 1;
                }
                proof {
                    lemma_object_view(out);
                    lemma_object_view(*v);
                    assert(entries_view(out@) =~= entries_view(v@));
                }
                JsonValue::Object(out)
            },
        }
    }
}

/// `entry(k).or_insert(Null)` on an object's entries: the position of `k`,
/// inserting a null member at its sorted place when `k` is missing.
pub fn entries_entry(m: &mut Vec<JsonEntry>, k: &[u8]) -> (r: usize)
    ensures
        entries_view(final(m)@) == obj_entry(entries_view(old(m)@), k@).0,
        r == obj_entry(entries_view(old(m)@), k@).1,
        r < final(m)@.len(),
        final(m)@[r as int].key@ == k@,
        obj_find(entries_view(final(m)@), k@) == Some(r as int),
        keys_sorted(entries_view(old(m)@)) ==> keys_sorted(entries_view(final(m)@)),
{
    let ghost old_view = entries_view(m@);
    let p = entries_lower_bound(m, k);
    match entries_find(m, k) {
        Some(i) => {
            proof { lemma_lower_bound_unique(old_view, k@, p as int); }
            i
        },
        None => {
            let key = bytes_copy(k);
            m.insert(p, JsonEntry { key, value: JsonValue::Null });
            proof {
                let nv = entries_view(m@);
                assert(nv =~= old_view.insert(p as int, (k@, Json::Null)));
                if keys_sorted(old_view) {
                    lemma_insert_sorted(old_view, k@, Json::Null);
                }
                assert(is_lower_bound(nv, k@, p as int)) by {
                    assert forall|j: int| 0 <= j < p implies key_lt(#[trigger] nv[j].0, k@) by {
                        assert(nv[j] == old_view[j]);
                    }
                    lemma_key_lt_irrefl(k@);
                }
                lemma_lower_bound_unique(nv, k@, p as int);
            }
            p
        },
    }
}

/// A float's bits hold a NaN.
pub open spec fn is_nan_bits(x: u64) -> bool {
    (x & 0x7ff0_0000_0000_0000u64) == 0x7ff0_0000_0000_0000u64 && (x & 0x000f_ffff_ffff_ffffu64) != 0
}

/// A float's bits hold a zero of either sign.
pub open spec fn is_zero_bits(x: u64) -> bool {
    (x & 0x7fff_ffff_ffff_ffffu64) == 0
}

/// `==` on numbers: the same kind and the same value, floats compared as
/// IEEE-754 values (`0.0 == -0.0`, a NaN equals nothing).
pub open spec fn number_eq(a: JsonNumber, b: JsonNumber) -> bool {
    match (a, b) {
        (JsonNumber::PosInt(x), JsonNumber::PosInt(y)) => x == y,
        (JsonNumber::NegInt(x), JsonNumber::NegInt(y)) => x == y,
        (JsonNumber::Float(x), JsonNumber::Float(y)) =>
            (x == y && !is_nan_bits(x)) || (is_zero_bits(x) && is_zero_bits(y)),
        _ => false,
    }
}

/// `==` on JSON values: the same kind, strings byte for byte, arrays element
/// by element, objects member by member in key order.
pub open spec fn json_eq(a: Json, b: Json) -> bool
    decreases a,
{
    match a {
        Json::Null => b is Null,
        Json::Bool(x) => b matches Json::Bool(y) && x == y,
        Json::Number(x) => b matches Json::Number(y) && number_eq(x, y),
        Json::Str(x) => b matches Json::Str(y) && x == y,
        Json::Array(x) => b matches Json::Array(y) && x.len() == y.len() && elems_eq(x, y),
        Json::Object(x) => b matches Json::Object(y) && x.len() == y.len() && members_eq(x, y),
    }
}

/// Element-wise `json_eq` of two sequences of the same length.
pub open spec fn elems_eq(x: Seq<Json>, y: Seq<Json>) -> bool
    decreases x,
{
    if x.len() == 0 || y.len() == 0 {
        true
    } else {
        proof { assert(decreases_to!(x => x.subrange(1, x.len() as int))); }
        json_eq(x[0], y[0]) && elems_eq(x.subrange(1, x.len() as int), y.subrange(1, y.len() as int))
    }
}

/// Member-wise equality (same key, `json_eq` values) of two objects of the same length.
pub open spec fn members_eq(x: Seq<(Seq<u8>, Json)>, y: Seq<(Seq<u8>, Json)>) -> bool
    decreases x,
{
    if x.len() == 0 || y.len() == 0 {
        true
    } else {
        proof {
            assert(decreases_to!(x => x.subrange(1, x.len() as int)));
            assert(decreases_to!(x => x[0]));
        }
        x[0].0 == y[0].0 && json_eq(x[0].1, y[0].1) && members_eq(x.subrange(1, x.len() as int), y.subrange(1, y.len() as int))
    }
}

/// `number_eq` computed.
pub fn number_equal(a: JsonNumber, b: JsonNumber) -> (r: bool)
    ensures
        r == number_eq(a, b),
{
    match (a, b) {
        (JsonNumber::PosInt(x), JsonNumber::PosInt(y)) => x == y,
        (JsonNumber::NegInt(x), JsonNumber::NegInt(y)) => x == y,
        (JsonNumber::Float(x), JsonNumber::Float(y)) => {
            let x_nan = (x & 0x7ff0_0000_0000_0000u64) == 0x7ff0_0000_0000_0000u64 && (x & 0x000f_ffff_ffff_ffffu64) != 0;
            (x == y && !x_nan) || ((x & 0x7fff_ffff_ffff_ffffu64) == 0 && (y & 0x7fff_ffff_ffff_ffffu64) == 0)
        },
        _ => false,
    }
}

/// Compares two byte strings.
pub fn bytes_equal(a: &[u8], b: &[u8]) -> (r: bool)
    ensures
        r == (a@ == b@),
{
    if a.len() != b.len() {
        return false;
    }
    let mut i: usize = 0;
    while i < a.len()
        invariant
            i <= a.len(),
            a.len() == b.len(),
            forall|j: int| 0 <= j < i ==> a@[j] == b@[j],
        decreases a.len() - i,
    {
        if a[i] != b[i] {
            return false;
        }
        i += 1;
    }
    assert(a@ =~= b@);
    true
}

impl JsonValue {
    /// `json_eq` computed (`PartialEq` of `serde_json::Value`).
    #[verifier::loop_isolation(false)]
    pub fn equals(&self, other: &JsonValue) -> (r: bool)
        ensures
            r == json_eq(self@, other@),
        decreases self,
    {
        match (self, other) {
            (JsonValue::Null, JsonValue::Null) => true,
            (JsonValue::Bool(x), JsonValue::Bool(y)) => *x == *y,
            (JsonValue::Number(x), JsonValue::Number(y)) => number_equal(*x, *y),
            (JsonValue::String(x), JsonValue::String(y)) => bytes_equal(x.as_slice(), y.as_slice()),
            (JsonValue::Array(x), JsonValue::Array(y)) => {
                proof { lemma_array_view(*x); lemma_array_view(*y); }
                if x.len() != y.len() {
                    return false;
                }
                let ghost xv = elems_view(x@);
                let ghost yv = elems_view(y@);
                let mut i: usize = 0;
                assert(xv.subrange(0, xv.len() as int) =~= xv);
                assert(yv.subrange(0, yv.len() as int) =~= yv);
                while i < x.len()
                    invariant
                        i <= x.len(),
                        x.len() == y.len(),
                        xv == elems_view(x@),
                        yv == elems_view(y@),
                        elems_eq(xv, yv) == elems_eq(xv.subrange(i as int, xv.len() as int), yv.subrange(i as int, yv.len() as int)),
                    decreases x.len() - i,
                {
                    proof {
                        vstd::std_specs::vec::axiom_vec_index_decreases(*x, i as int);
                        assert(decreases_to!(*self => *x));
                        let xs = xv.subrange(i as int, xv.len() as int);
                        let ys = yv.subrange(i as int, yv.len() as int);
                        assert(xs[0] == x@[i as int]@);
                        assert(ys[0] == y@[i as int]@);
                        assert(xs.subrange(1, xs.len() as int) =~= xv.subrange(i + 1, xv.len() as int));
                        assert(ys.subrange(1, ys.len() as int) =~= yv.subrange(i + 1, yv.len() as int));
                    }
                    if !x[i].equals(&y[i]) {
                        return false;
                    }
                    i += 1;
                }
                true
            },
            (JsonValue::Object(x), JsonValue::Object(y)) => {
                proof { lemma_object_view(*x); lemma_object_view(*y); }
                if x.len() != y.len() {
                    return false;
                }
                let ghost xv = entries_view(x@);
                let ghost yv = entries_view(y@);
                let mut i: usize = 0;
                assert(xv.subrange(0, xv.len() as int) =~= xv);
                assert(yv.subrange(0, yv.len() as int) =~= yv);
                while i < x.len()
                    invariant
                        i <= x.len(),
                        x.len() == y.len(),
                        xv == entries_view(x@),
                        yv == entries_view(y@),
                        members_eq(xv, yv) == members_eq(xv.subrange(i as int, xv.len() as int), yv.subrange(i as int, yv.len() as int)),
                    decreases x.len() - i,
                {
                    proof {
                        vstd::std_specs::vec::axiom_vec_index_decreases(*x, i as int);
                        assert(decreases_to!(*self => *x));
                        assert(decreases_to!(x[i as int] => x[i as int].value));
                        let xs = xv.subrange(i as int, xv.len() as int);
                        let ys = yv.subrange(i as int, yv.len() as int);
                        assert(xs[0] == (x@[i as int].key@, x@[i as int].value@));
                        assert(ys[0] == (y@[i as int].key@, y@[i as int].value@));
                        assert(xs.subrange(1, xs.len() as int) =~= xv.subrange(i + 1, xv.len() as int));
                        assert(ys.subrange(1, ys.len() as int) =~= yv.subrange(i + 1, yv.len() as int));
                    }
                    if !bytes_equal(x[i].key.as_slice(), y[i].key.as_slice()) {
                        return false;
                    }
                    if !x[i].value.equals(&y[i].value) {
                        return false;
                    }
                    i += 1;
                }
                true
            },
            _ => false,
        }
    }
}

} // verus!
