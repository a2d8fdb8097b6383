//! The values that evaluation produces, and their mathematical model.
use vstd::prelude::*;

use crate::ast::{block_equal, block_view, clone_block, clone_idents, idents_equal, idents_view, BlockStmt, Ident, StmtV};
use crate::text::{decimal, int_text};

verus! {

/// A key of a hash. Only integers, booleans and strings are hashable.
#[derive(Debug)]
pub enum HashKey {
    Integer(i64),
    Boolean(bool),
    String(String),
}

/// A value.
///
/// A hash holds its entries in the order in which their keys were first
/// inserted; one that evaluation makes holds no key twice (see
/// `law_hash_keys_distinct`). A lookup reads the last entry with its key.
///
/// A function holds its parameters, its body, and the position of the scope
/// it was made in; two functions are equal when all three are.
#[derive(Debug)]
pub enum Object {
    Integer(i64),
    Boolean(bool),
    String(String),
    Array(Vec<Object>),
    Hash(Vec<(HashKey, Object)>),
    Null,
    ReturnValue(Box<Object>),
    Error(String),
    Function(Vec<Ident>, BlockStmt, usize),
    Builtin(String, usize),
}

/// The model of a hash key.
pub enum HashKeyV {
    Integer(i64),
    Boolean(bool),
    Str(Seq<char>),
}

/// The model of a value.
pub enum ObjectV {
    Integer(i64),
    Boolean(bool),
    Str(Seq<char>),
    Array(Seq<ObjectV>),
    Hash(Seq<(HashKeyV, ObjectV)>),
    Null,
    ReturnValue(Box<ObjectV>),
    Error(Seq<char>),
    Function(Seq<Seq<char>>, Seq<StmtV>, nat),
    Builtin(Seq<char>, usize),
}

pub open spec fn key_view(k: HashKey) -> HashKeyV {
    match k {
        HashKey::Integer(i) => HashKeyV::Integer(i),
        HashKey::Boolean(b) => HashKeyV::Boolean(b),
        HashKey::String(s) => HashKeyV::Str(s@),
    }
}

pub open spec fn object_view(o: Object) -> ObjectV
    decreases o,
{
    match o {
        Object::Integer(i) => ObjectV::Integer(i),
        Object::Boolean(b) => ObjectV::Boolean(b),
        Object::String(s) => ObjectV::Str(s@),
        Object::Array(v) => ObjectV::Array(objects_view(v@)),
        Object::Hash(h) => ObjectV::Hash(entries_view(h@)),
        Object::Null => ObjectV::Null,
        Object::ReturnValue(b) => ObjectV::ReturnValue(Box::new(object_view(*b))),
        Object::Error(s) => ObjectV::Error(s@),
        Object::Function(params, body, scope) => ObjectV::Function(
            idents_view(params@),
            block_view(body@),
            scope as nat,
        ),
        Object::Builtin(name, n) => ObjectV::Builtin(name@, n),
    }
}

/// The models of values, in order.
pub open spec fn objects_view(v: Seq<Object>) -> Seq<ObjectV>
    decreases v,
{
    Seq::new(
        v.len(),
        |i: int|
            if 0 <= i < v.len() {
                object_view(v[i])
            } else {
                ObjectV::Null
            },
    )
}

/// The models of the entries of a hash, in order.
pub open spec fn entries_view(h: Seq<(HashKey, Object)>) -> Seq<(HashKeyV, ObjectV)>
    decreases h,
{
    Seq::new(
        h.len(),
        |i: int|
            if 0 <= i < h.len() {
                (key_view(h[i].0), object_view(h[i].1))
            } else {
                (HashKeyV::Integer(0), ObjectV::Null)
            },
    )
}

impl View for HashKey {
    type V = HashKeyV;

    open spec fn view(&self) -> HashKeyV {
        key_view(*self)
    }
}

impl View for Object {
    type V = ObjectV;

    open spec fn view(&self) -> ObjectV {
        object_view(*self)
    }
}

// ---------------------------------------------------------------------------
// Association lists: a key is bound to the value of its last entry.

/// The index of the last entry with key `k`.
pub open spec fn assoc_index<K, V>(s: Seq<(K, V)>, k: K) -> Option<int>
    decreases s.len(),
{
    if s.len() == 0 {
        None
    } else if s[s.len() - 1].0 == k {
        Some(s.len() - 1)
    } else {
        assoc_index(s.drop_last(), k)
    }
}

/// The value that `k` is bound to.
pub open spec fn assoc_lookup<K, V>(s: Seq<(K, V)>, k: K) -> Option<V> {
    match assoc_index(s, k) {
        Some(i) => Some(s[i].1),
        None => None,
    }
}

/// Binds `k` to `v`: the entry of `k` takes the new value in its place, or a
/// new entry is appended.
pub open spec fn assoc_set<K, V>(s: Seq<(K, V)>, k: K, v: V) -> Seq<(K, V)> {
    match assoc_index(s, k) {
        Some(i) => s.update(i, (k, v)),
        None => s.push((k, v)),
    }
}

/// No key occurs twice.
pub open spec fn assoc_keys_distinct<K, V>(s: Seq<(K, V)>) -> bool {
    forall|i: int, j: int| 0 <= i < j < s.len() ==> s[i].0 != s[j].0
}

// ---------------------------------------------------------------------------
// What a value reads as: `Display`.

pub open spec fn bool_text(b: bool) -> Seq<char> {
    if b {
        "true"@
    } else {
        "false"@
    }
}

pub open spec fn key_display(k: HashKeyV) -> Seq<char> {
    match k {
        HashKeyV::Integer(i) => decimal(i as int),
        HashKeyV::Boolean(b) => bool_text(b),
        HashKeyV::Str(s) => s,
    }
}

/// The text of a value: arrays as `[a, b]`, hashes as `{k: v, l: w}`.
pub open spec fn display(o: ObjectV) -> Seq<char>
    decreases o,
{
    match o {
        ObjectV::Integer(i) => decimal(i as int),
        ObjectV::Boolean(b) => bool_text(b),
        ObjectV::Str(s) => s,
        ObjectV::Array(v) => "["@ + display_list(v) + "]"@,
        ObjectV::Hash(h) => "{"@ + display_entries(h) + "}"@,
        ObjectV::Null => "null"@,
        ObjectV::ReturnValue(x) => display(*x),
        ObjectV::Error(m) => "Error: "@ + m,
        ObjectV::Function(_, _, _) => "[function]"@,
        ObjectV::Builtin(name, _) => "[built-in function: "@ + name + "]"@,
    }
}

/// The texts of values, separated by `, `.
pub open spec fn display_list(v: Seq<ObjectV>) -> Seq<char>
    decreases v,
{
    if v.len() == 0 {
        Seq::empty()
    } else if v.len() == 1 {
        display(v[0])
    } else {
        display_list(v.subrange(0, v.len() - 1)) + ", "@ + display(v[v.len() - 1])
    }
}

/// The entries of a hash as `k: v`, separated by `, `.
pub open spec fn display_entries(h: Seq<(HashKeyV, ObjectV)>) -> Seq<char>
    decreases h,
{
    if h.len() == 0 {
        Seq::empty()
    } else if h.len() == 1 {
        key_display(h[0].0) + ": "@ + display(h[0].1)
    } else {
        display_entries(h.subrange(0, h.len() - 1)) + ", "@ + key_display(h[h.len() - 1].0)
            + ": "@ + display(h[h.len() - 1].1)
    }
}

// ---------------------------------------------------------------------------
// Copies: a copy has the same model as what it copies.

pub fn clone_key(k: &HashKey) -> (r: HashKey)
    ensures
        r@ == k@,
{
    match k {
        HashKey::Integer(i) => HashKey::Integer(*i),
        HashKey::Boolean(b) => HashKey::Boolean(*b),
        HashKey::String(s) => HashKey::String(s.clone()),
    }
}

pub fn clone_object(o: &Object) -> (r: Object)
    ensures
        r@ == o@,
    decreases o,
{
    match o {
        Object::Integer(i) => Object::Integer(*i),
        Object::Boolean(b) => Object::Boolean(*b),
        Object::String(s) => Object::String(s.clone()),
        Object::Array(v) => Object::Array(clone_objects(v)),
        Object::Hash(h) => Object::Hash(clone_entries(h)),
        Object::Null => Object::Null,
        Object::ReturnValue(b) => Object::ReturnValue(Box::new(clone_object(b))),
        Object::Error(s) => Object::Error(s.clone()),
        Object::Function(params, body, scope) => Object::Function(
            clone_idents(params),
            clone_block(body),
            *scope,
        ),
        Object::Builtin(name, n) => Object::Builtin(name.clone(), *n),
    }
}

pub fn clone_objects(v: &Vec<Object>) -> (r: Vec<Object>)
    ensures
        objects_view(r@) == objects_view(v@),
    decreases v,
{
    let mut r: Vec<Object> = Vec::new();
    let mut i: usize = 0;
    while i < v.len()
        invariant
            i <= v.len(),
            r@.len() == i,
            forall|j: int| 0 <= j < i ==> r@[j]@ == v@[j]@,
        decreases v.len() - i,
    {
        r.push(clone_object(&v[i]));
        i = i + 1;
    }
    assert(objects_view(r@) =~= objects_view(v@));
    r
}

pub fn clone_entries(h: &Vec<(HashKey, Object)>) -> (r: Vec<(HashKey, Object)>)
    ensures
        entries_view(r@) == entries_view(h@),
    decreases h,
{
    let mut r: Vec<(HashKey, Object)> = Vec::new();
    let mut i: usize = 0;
    while i < h.len()
        invariant
            i <= h.len(),
            r@.len() == i,
            forall|j: int| 0 <= j < i ==> r@[j].0@ == h@[j].0@ && r@[j].1@ == h@[j].1@,
        decreases h.len() - i,
    {
        r.push((clone_key(&h[i].0), clone_object(&h[i].1)));
        i = i + 1;
    }
    assert(entries_view(r@) =~= entries_view(h@));
    r
}

/// The position of the last entry with key `k`.
pub proof fn lemma_assoc_index<K, V>(s: Seq<(K, V)>, k: K)
    ensures
        match assoc_index(s, k) {
            Some(i) => 0 <= i < s.len() && s[i].0 == k && forall|j: int|
                i < j < s.len() ==> s[j].0 != k,
            None => forall|j: int| 0 <= j < s.len() ==> s[j].0 != k,
        },
    decreases s.len(),
{
    if s.len() > 0 && s[s.len() - 1].0 != k {
        let t = s.drop_last();
        lemma_assoc_index(t, k);
        assert forall|j: int| 0 <= j < t.len() implies t[j] == s[j] by {}
    }
}

// ---------------------------------------------------------------------------
// Equality of values, as `==` compares them: hashes compare as maps from keys
// to values, whatever the order of their entries.

/// `y` has an entry with key `k` and a value equal to `v`.
pub open spec fn has_match<K>(y: Seq<(K, ObjectV)>, k: K, v: ObjectV) -> bool
    decreases v, 1int,
{
    exists|l: int| #![trigger y[l]] 0 <= l < y.len() && y[l].0 == k && obj_eq(v, y[l].1)
}

/// `x` has an entry with key `k` and a value to which `w` is equal.
pub open spec fn has_match_back<K>(x: Seq<(K, ObjectV)>, k: K, w: ObjectV) -> bool
    decreases x, 1int,
{
    exists|l: int| #![trigger x[l]] 0 <= l < x.len() && x[l].0 == k && obj_eq(x[l].1, w)
}

/// Each entry of `x` has an entry in `y` with the same key and an equal value.
pub open spec fn covers<K>(x: Seq<(K, ObjectV)>, y: Seq<(K, ObjectV)>) -> bool
    decreases x, 2int,
{
    forall|i: int| 0 <= i < x.len() ==> has_match(y, #[trigger] x[i].0, x[i].1)
}

/// Each entry of `y` has an entry in `x` with the same key and a value equal to it.
pub open spec fn covers_back<K>(x: Seq<(K, ObjectV)>, y: Seq<(K, ObjectV)>) -> bool
    decreases x, 2int,
{
    forall|j: int| 0 <= j < y.len() ==> has_match_back(x, #[trigger] y[j].0, y[j].1)
}

/// Equality of values.
pub open spec fn obj_eq(a: ObjectV, b: ObjectV) -> bool
    decreases a, 0int,
{
    match a {
        ObjectV::Array(x) => match b {
            ObjectV::Array(y) => x.len() == y.len() && forall|i: int|
                0 <= i < x.len() ==> obj_eq(x[i], #[trigger] y[i]),
            _ => false,
        },
        ObjectV::Hash(x) => match b {
            ObjectV::Hash(y) => covers(x, y) && covers_back(x, y),
            _ => false,
        },
        ObjectV::ReturnValue(x) => match b {
            ObjectV::ReturnValue(y) => obj_eq(*x, *y),
            _ => false,
        },
        _ => a == b,
    }
}

/// Each of the first `n` entries of `x` has a match in `y`.
pub open spec fn covered_upto<K>(x: Seq<(K, ObjectV)>, y: Seq<(K, ObjectV)>, n: int) -> bool {
    forall|i: int| 0 <= i < n ==> has_match(y, #[trigger] x[i].0, x[i].1)
}

/// Each of the first `n` entries of `y` has a match in `x`.
pub open spec fn covered_back_upto<K>(x: Seq<(K, ObjectV)>, y: Seq<(K, ObjectV)>, n: int) -> bool {
    forall|j: int| 0 <= j < n ==> has_match_back(x, #[trigger] y[j].0, y[j].1)
}

pub fn keys_equal(a: &HashKey, b: &HashKey) -> (r: bool)
    ensures
        r == (a@ == b@),
{
    match (a, b) {
        (HashKey::Integer(x), HashKey::Integer(y)) => *x == *y,
        (HashKey::Boolean(x), HashKey::Boolean(y)) => *x == *y,
        (HashKey::String(x), HashKey::String(y)) => *x == *y,
        _ => false,
    }
}

impl PartialEq for Object {
    /// Values compare as `obj_eq` says: hashes as maps from keys to values.
    fn eq(&self, other: &Self) -> (r: bool) {
        objects_equal(self, other)
    }
}

impl vstd::std_specs::cmp::PartialEqSpecImpl for Object {
    open spec fn obeys_eq_spec() -> bool {
        true
    }

    open spec fn eq_spec(&self, other: &Self) -> bool {
        obj_eq(self@, other@)
    }
}

/// Compares two values as `==` does.
pub fn objects_equal(a: &Object, b: &Object) -> (r: bool)
    ensures
        r == obj_eq(a@, b@),
    decreases a,
{
    match (a, b) {
        (Object::Integer(x), Object::Integer(y)) => *x == *y,
        (Object::Boolean(x), Object::Boolean(y)) => *x == *y,
        (Object::String(x), Object::String(y)) => *x == *y,
        (Object::Array(x), Object::Array(y)) => {
            let r = arrays_equal(x, y);
            assert(a@ == ObjectV::Array(objects_view(x@)));
            assert(b@ == ObjectV::Array(objects_view(y@)));
            assert(r == obj_eq(a@, b@));
            r
        },
        (Object::Hash(x), Object::Hash(y)) => hashes_equal(x, y),
        (Object::Null, Object::Null) => true,
        (Object::ReturnValue(x), Object::ReturnValue(y)) => objects_equal(x, y),
        (Object::Error(x), Object::Error(y)) => *x == *y,
        (Object::Function(p, body, i), Object::Function(q, body2, j)) => {
            idents_equal(p, q) && block_equal(body, body2) && *i == *j
        },
        (Object::Builtin(n, k), Object::Builtin(m, l)) => *n == *m && *k == *l,
        _ => false,
    }
}

fn arrays_equal(x: &Vec<Object>, y: &Vec<Object>) -> (r: bool)
    ensures
        r == (x@.len() == y@.len() && forall|i: int|
            0 <= i < x@.len() ==> obj_eq(objects_view(x@)[i], #[trigger] objects_view(y@)[i])),
    decreases x,
{
    if x.len() != y.len() {
        return false;
    }
    let mut i: usize = 0;
    while i < x.len()
        invariant
            i <= x.len(),
            x.len() == y.len(),
            forall|j: int| 0 <= j < i ==> obj_eq(objects_view(x@)[j], #[trigger] objects_view(y@)[j]),
        decreases x.len() - i,
    {
        if !objects_equal(&x[i], &y[i]) {
            assert(!obj_eq(objects_view(x@)[i as int], objects_view(y@)[i as int]));
            return false;
        }
        i = i + 1;
    }
    true
}

fn hashes_equal(x: &Vec<(HashKey, Object)>, y: &Vec<(HashKey, Object)>) -> (r: bool)
    ensures
        r == (covers(entries_view(x@), entries_view(y@)) && covers_back(entries_view(x@), entries_view(y@))),
    decreases x,
{
    let ghost xv = entries_view(x@);
    let ghost yv = entries_view(y@);
    let mut i: usize = 0;
    while i < x.len()
        invariant
            i <= x.len(),
            xv == entries_view(x@),
            yv == entries_view(y@),
            covered_upto(xv, yv, i as int),
        decreases x.len() - i,
    {
        let mut found = false;
        let mut j: usize = 0;
        while j < y.len() && !found
            invariant
                i < x.len(),
                j <= y.len(),
                xv == entries_view(x@),
                yv == entries_view(y@),
                found ==> has_match(yv, xv[i as int].0, xv[i as int].1),
                !found ==> forall|l: int|
                    #![trigger yv[l]]
                    0 <= l < j ==> !(yv[l].0 == xv[i as int].0 && obj_eq(xv[i as int].1, yv[l].1)),
            decreases y.len() - j + (if found { 0int } else { 1int }),
        {
            if keys_equal(&x[i].0, &y[j].0) && objects_equal(&x[i].1, &y[j].1) {
                found = true;
                assert(yv[j as int].0 == xv[i as int].0 && obj_eq(xv[i as int].1, yv[j as int].1));
            } else {
                j = j + 1;
            }
        }
        if !found {
            assert(!has_match(yv, xv[i as int].0, xv[i as int].1));
            assert(!covers(xv, yv));
            return false;
        }
        i = i + 1;
    }
    let mut j: usize = 0;
    while j < y.len()
        invariant
            j <= y.len(),
            xv == entries_view(x@),
            yv == entries_view(y@),
            covered_upto(xv, yv, xv.len() as int),
            covered_back_upto(xv, yv, j as int),
        decreases y.len() - j,
    {
        let mut found = false;
        let mut i: usize = 0;
        while i < x.len() && !found
            invariant
                j < y.len(),
                i <= x.len(),
                xv == entries_view(x@),
                yv == entries_view(y@),
                found ==> has_match_back(xv, yv[j as int].0, yv[j as int].1),
                !found ==> forall|k: int|
                    #![trigger xv[k]]
                    0 <= k < i ==> !(xv[k].0 == yv[j as int].0 && obj_eq(xv[k].1, yv[j as int].1)),
            decreases x.len() - i + (if found { 0int } else { 1int }),
        {
            if keys_equal(&x[i].0, &y[j].0) && objects_equal(&x[i].1, &y[j].1) {
                found = true;
                assert(xv[i as int].0 == yv[j as int].0 && obj_eq(xv[i as int].1, yv[j as int].1));
            } else {
                i = i + 1;
            }
        }
        if !found {
            assert(!has_match_back(xv, yv[j as int].0, yv[j as int].1));
            assert(!covers_back(xv, yv));
            return false;
        }
        j = j + 1;
    }
    assert(covers(xv, yv));
    assert(covers_back(xv, yv));
    true
}

// ---------------------------------------------------------------------------
// Text of values.

pub fn bool_string(b: bool) -> (s: String)
    ensures
        s@ == bool_text(b),
{
    if b {
        String::from_str("true")
    } else {
        String::from_str("false")
    }
}

pub fn key_string(k: &HashKey) -> (s: String)
    ensures
        s@ == key_display(k@),
{
    match k {
        HashKey::Integer(i) => int_text(*i),
        HashKey::Boolean(b) => bool_string(*b),
        HashKey::String(s) => s.clone(),
    }
}

/// The text of a value, as `Display` writes it.
pub fn display_string(o: &Object) -> (s: String)
    ensures
        s@ == display(o@),
    decreases o,
{
    match o {
        Object::Integer(i) => int_text(*i),
        Object::Boolean(b) => bool_string(*b),
        Object::String(s) => s.clone(),
        Object::Array(v) => {
            let s = String::from_str("[");
            let s = s.concat(list_string(v).as_str());
            s.concat("]")
        },
        Object::Hash(h) => {
            let s = String::from_str("{");
            let s = s.concat(entries_string(h).as_str());
            s.concat("}")
        },
        Object::Null => String::from_str("null"),
        Object::ReturnValue(x) => display_string(x),
        Object::Error(m) => String::from_str("Error: ").concat(m.as_str()),
        Object::Function(_, _, _) => String::from_str("[function]"),
        Object::Builtin(name, _) => String::from_str("[built-in function: ").concat(name.as_str()).concat("]"),
    }
}

fn list_string(v: &Vec<Object>) -> (s: String)
    ensures
        s@ == display_list(objects_view(v@)),
    decreases v,
{
    let ghost xv = objects_view(v@);
    let mut s = String::new();
    let mut i: usize = 0;
    assert(xv.subrange(0, 0).len() == 0);
    while i < v.len()
        invariant
            i <= v.len(),
            xv == objects_view(v@),
            s@ == display_list(xv.subrange(0, i as int)),
        decreases v.len() - i,
    {
        let t = display_string(&v[i]);
        assert(xv.subrange(0, i + 1).subrange(0, i as int) =~= xv.subrange(0, i as int));
        if i == 0 {
            s = t;
        } else {
            s.append(", ");
            s.append(t.as_str());
        }
        i = i + 1;
    }
    assert(xv.subrange(0, v.len() as int) =~= xv);
    s
}

fn entries_string(h: &Vec<(HashKey, Object)>) -> (s: String)
    ensures
        s@ == display_entries(entries_view(h@)),
    decreases h,
{
    let ghost xv = entries_view(h@);
    let mut s = String::new();
    let mut i: usize = 0;
    assert(xv.subrange(0, 0).len() == 0);
    while i < h.len()
        invariant
            i <= h.len(),
            xv == entries_view(h@),
            s@ == display_entries(xv.subrange(0, i as int)),
        decreases h.len() - i,
    {
        let k = key_string(&h[i].0);
        let t = display_string(&h[i].1);
        assert(xv.subrange(0, i + 1).subrange(0, i as int) =~= xv.subrange(0, i as int));
        if i == 0 {
            s = k.concat(": ").concat(t.as_str());
        } else {
            s.append(", ");
            s.append(k.as_str());
            s.append(": ");
            s.append(t.as_str());
        }
        i = i + 1;
    }
    assert(xv.subrange(0, h.len() as int) =~= xv);
    s
}

// ---------------------------------------------------------------------------
// Other questions about values.

/// Values that end a block early: returned values and errors.
pub open spec fn returned(o: ObjectV) -> bool {
    o is ReturnValue || o is Error
}

impl Object {
    /// Whether this value ends the block it stands in.
    pub fn is_returned(&self) -> (r: bool)
        ensures
            r == returned(self@),
    {
        match self {
            Object::ReturnValue(_) => true,
            Object::Error(_) => true,
            _ => false,
        }
    }

    /// The text of this value.
    pub fn to_string(&self) -> (s: String)
        ensures
            s@ == display(self@),
    {
        display_string(self)
    }
}

/// The key that a hashable value stands for.
pub open spec fn key_of(o: ObjectV) -> Option<HashKeyV> {
    match o {
        ObjectV::Integer(i) => Some(HashKeyV::Integer(i)),
        ObjectV::Boolean(b) => Some(HashKeyV::Boolean(b)),
        ObjectV::Str(s) => Some(HashKeyV::Str(s)),
        _ => None,
    }
}

pub fn hash_key_of(o: &Object) -> (r: Option<HashKey>)
    ensures
        match r {
            Some(k) => key_of(o@) == Some(k@),
            None => key_of(o@) is None,
        },
{
    match o {
        Object::Integer(i) => Some(HashKey::Integer(*i)),
        Object::Boolean(b) => Some(HashKey::Boolean(*b)),
        Object::String(s) => Some(HashKey::String(s.clone())),
        _ => None,
    }
}

/// The position of the last entry with key `key`.
pub fn entries_index(h: &Vec<(HashKey, Object)>, key: &HashKey) -> (r: Option<usize>)
    ensures
        match r {
            Some(i) => assoc_index(entries_view(h@), key@) == Some(i as int),
            None => assoc_index(entries_view(h@), key@) is None,
        },
{
    let ghost hv = entries_view(h@);
    let mut i: usize = h.len();
    assert(hv.subrange(0, i as int) =~= hv);
    while i > 0
        invariant
            i <= h.len(),
            hv.len() == h.len(),
            hv == entries_view(h@),
            assoc_index(hv, key@) == assoc_index(hv.subrange(0, i as int), key@),
        decreases i,
    {
        assert(hv.subrange(0, i as int).drop_last() =~= hv.subrange(0, i - 1));
        if keys_equal(&h[i - 1].0, key) {
            return Some(i - 1);
        }
        i = i - 1;
    }
    None
}

/// Binds `key` to `v` in a hash: the entry of the key takes the new value in
/// its place, or a new entry is appended.
pub fn hash_insert(h: &mut Vec<(HashKey, Object)>, key: HashKey, v: Object)
    ensures
        entries_view(final(h)@) == assoc_set(entries_view(old(h)@), key@, v@),
{
    proof {
        lemma_assoc_index(entries_view(h@), key@);
    }
    match entries_index(h, &key) {
        Some(i) => {
            h.set(i, (key, v));
        },
        None => {
            h.push((key, v));
        },
    }
    assert(entries_view(h@) =~= assoc_set(entries_view(old(h)@), key@, v@));
}

} // verus!
