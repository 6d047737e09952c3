//! Generated data: a JSON value made of objects, strings and null, with the
//! reading and writing of a value at a pointer.

use vstd::prelude::*;
use crate::pointer::Pointer;

verus! {

/// Position of the first `x` in `s`, or `s.len()` when there is none.
pub open spec fn first_index<T>(s: Seq<T>, x: T) -> int
    decreases s.len(),
{
    if s.len() == 0 {
        0
    } else if s[0] == x {
        0
    } else {
        1 + first_index(s.drop_first(), x)
    }
}

/// `i` is the position of the first `x` in `s` (or `s.len()` if none).
pub proof fn lemma_first_index<T>(s: Seq<T>, x: T, i: int)
    requires
        0 <= i <= s.len(),
        forall|j: int| 0 <= j < i ==> s[j] != x,
        i < s.len() ==> s[i] == x,
    ensures
        first_index(s, x) == i,
    decreases s.len(),
{
    if s.len() > 0 && s[0] != x {
        assert forall|j: int| 0 <= j < i - 1 implies s.drop_first()[j] != x by {
            assert(s[j + 1] != x);
        }
        lemma_first_index(s.drop_first(), x, i - 1);
    }
}

/// A JSON value as an abstract value.
pub enum SpecJson {
    Null,
    Str(Seq<char>),
    Obj(Seq<(Seq<char>, SpecJson)>),
}

/// A JSON value: null, a string, or an object of named values.
#[derive(Debug)]
pub enum JsonValue {
    Null,
    String(String),
    Object(Vec<(String, JsonValue)>),
}

/// The abstract value of a JSON value.
pub open spec fn json_view(v: JsonValue) -> SpecJson
    decreases v,
{
    match v {
        JsonValue::Null => SpecJson::Null,
        JsonValue::String(s) => SpecJson::Str(s@),
        JsonValue::Object(f) => SpecJson::Obj(fields_view(f@)),
    }
}

/// The abstract members of an object.
pub open spec fn fields_view(f: Seq<(String, JsonValue)>) -> Seq<(Seq<char>, SpecJson)>
    decreases f,
{
    if f.len() == 0 {
        Seq::empty()
    } else {
        fields_view(f.drop_last()).push((f.last().0@, json_view(f.last().1)))
    }
}

impl View for JsonValue {
    type V = SpecJson;

    open spec fn view(&self) -> SpecJson {
        json_view(*self)
    }
}

/// The abstract members of an object, one by one.
pub proof fn lemma_fields_view(f: Seq<(String, JsonValue)>)
    ensures
        fields_view(f).len() == f.len(),
        forall|i: int| 0 <= i < f.len() ==> #[trigger] fields_view(f)[i] == (f[i].0@, json_view(f[i].1)),
    decreases f.len(),
{
    if f.len() > 0 {
        lemma_fields_view(f.drop_last());
        assert forall|i: int| 0 <= i < f.len() implies #[trigger] fields_view(f)[i] == (f[i].0@, json_view(f[i].1)) by {
            if i < f.len() - 1 {
                assert(f.drop_last()[i] == f[i]);
            }
        }
    }
}

/// Members with equal abstract values give equal abstract objects.
pub proof fn lemma_fields_view_ext(f: Seq<(String, JsonValue)>, g: Seq<(String, JsonValue)>)
    requires
        f.len() == g.len(),
        forall|i: int| 0 <= i < f.len() ==> (#[trigger] f[i]).0@ == g[i].0@ && json_view(f[i].1) == json_view(g[i].1),
    ensures
        fields_view(f) == fields_view(g),
{
    lemma_fields_view(f);
    lemma_fields_view(g);
    assert(fields_view(f) =~= fields_view(g));
}

/// The names of an object's members.
pub open spec fn keys_of(f: Seq<(Seq<char>, SpecJson)>) -> Seq<Seq<char>> {
    f.map_values(|e: (Seq<char>, SpecJson)| e.0)
}

/// The value at pointer `p` inside `v`, if there is one: each token names a
/// member of an object (the first member of that name).
pub open spec fn resolve(v: SpecJson, p: Seq<Seq<char>>) -> Option<SpecJson>
    decreases p.len(),
{
    if p.len() == 0 {
        Some(v)
    } else {
        match v {
            SpecJson::Obj(f) => {
                let i = first_index(keys_of(f), p[0]);
                if i < f.len() {
                    resolve(f[i].1, p.drop_first())
                } else {
                    None
                }
            },
            _ => None,
        }
    }
}

/// A value can be written at `p` in `v`: `p` is the root, or its parent is an
/// object in `v`.
pub open spec fn assignable(v: SpecJson, p: Seq<Seq<char>>) -> bool {
    p.len() == 0 || resolve(v, p.drop_last()) matches Some(SpecJson::Obj(_))
}

/// `v` with `x` written at `p`: the value there is replaced, or a new last
/// member is added to the parent object.
pub open spec fn set_at(v: SpecJson, p: Seq<Seq<char>>, x: SpecJson) -> SpecJson
    decreases p.len(),
{
    if p.len() == 0 {
        x
    } else {
        match v {
            SpecJson::Obj(f) => {
                let i = first_index(keys_of(f), p[0]);
                if i < f.len() {
                    SpecJson::Obj(f.update(i, (p[0], set_at(f[i].1, p.drop_first(), x))))
                } else {
                    SpecJson::Obj(f.push((p[0], x)))
                }
            },
            _ => v,
        }
    }
}

/// The position of the first member named `key`, if any.
fn find_key(fields: &Vec<(String, JsonValue)>, key: &String) -> (r: Option<usize>)
    ensures
        first_index(keys_of(fields_view(fields@)), key@) == match r {
            Some(i) => i as int,
            None => fields@.len() as int,
        },
        r matches Some(i) ==> i < fields@.len() && fields@[i as int].0@ == key@,
{
    proof {
        lemma_fields_view(fields@);
    }
    let ghost keys = keys_of(fields_view(fields@));
    let mut i: usize = 0;
    while i < fields.len()
        invariant
            i <= fields@.len(),
            keys == keys_of(fields_view(fields@)),
            keys.len() == fields@.len(),
            forall|j: int| 0 <= j < fields@.len() ==> #[trigger] keys[j] == fields@[j].0@,
            forall|j: int| 0 <= j < i ==> keys[j] != key@,
        decreases fields@.len() - i,
    {
        if fields[i].0 == *key {
            proof {
                lemma_first_index(keys, key@, i as int);
            }
            return Some(i);
        }
        i = i + 1;
    }
    proof {
        lemma_first_index(keys, key@, i as int);
    }
    None
}

/// A copy of a value.
pub fn copy_json(v: &JsonValue) -> (r: JsonValue)
    ensures
        r@ == v@,
    decreases v,
{
    match v {
        JsonValue::Null => JsonValue::Null,
        JsonValue::String(s) => JsonValue::String(s.clone()),
        JsonValue::Object(f) => JsonValue::Object(copy_fields(f)),
    }
}

/// A copy of an object's members.
fn copy_fields(f: &Vec<(String, JsonValue)>) -> (r: Vec<(String, JsonValue)>)
    ensures
        fields_view(r@) == fields_view(f@),
    decreases f,
{
    let mut r: Vec<(String, JsonValue)> = Vec::new();
    let mut i: usize = 0;
    while i < f.len()
        invariant
            i <= f@.len(),
            r@.len() == i,
            forall|j: int| 0 <= j < i ==> (#[trigger] r@[j]).0@ == f@[j].0@ && json_view(r@[j].1) == json_view(f@[j].1),
        decreases f@.len() - i,
    {
        let c = copy_json(&f[i].1);
        r.push((f[i].0.clone(), c));
        i = i + 1;
    }
    proof {
        lemma_fields_view_ext(r@, f@);
    }
    r
}

/// The value at pointer `p` inside `v` (see `resolve`).
pub fn resolve_at<'a>(v: &'a JsonValue, p: &Pointer) -> (r: Option<&'a JsonValue>)
    ensures
        match r {
            Some(x) => resolve(v@, p@) == Some(x@),
            None => resolve(v@, p@) is None,
        },
{
    let mut cur: &'a JsonValue = v;
    let mut i: usize = 0;
    let n = p.len();
    assert(p@.skip(0) =~= p@);
    while i < n
        invariant
            n == p@.len(),
            i <= n,
            resolve(v@, p@) == resolve(cur@, p@.skip(i as int)),
        decreases n - i,
    {
        let ghost q = p@.skip(i as int);
        assert(q.drop_first() =~= p@.skip(i + 1));
        match cur {
            JsonValue::Object(f) => {
                proof {
                    lemma_fields_view(f@);
                }
                match find_key(f, p.token(i)) {
                    Some(k) => {
                        cur = &f[k].1;
                    },
                    None => {
                        return None;
                    },
                }
            },
            _ => {
                return None;
            },
        }
        i = i + 1;
    }
    assert(p@.skip(n as int) =~= Seq::<Seq<char>>::empty());
    Some(cur)
}

/// `v` with `x` written at the tokens of `p` from `start` on (see `set_at`).
fn assign_from(v: JsonValue, p: &Pointer, start: usize, x: JsonValue) -> (r: JsonValue)
    requires
        start <= p@.len(),
        assignable(v@, p@.skip(start as int)),
    ensures
        r@ == set_at(v@, p@.skip(start as int), x@),
    decreases p@.len() - start,
{
    let ghost q = p@.skip(start as int);
    if start == p.len() {
        return x;
    }
    assert(q.drop_first() =~= p@.skip(start + 1));
    assert(q.drop_last().len() == 0 ==> q.drop_first().len() == 0);
    match v {
        JsonValue::Object(mut fields) => {
            proof {
                lemma_fields_view(fields@);
            }
            let ghost f0 = fields@;
            let key = p.token(start);
            match find_key(&fields, key) {
                Some(i) => {
                    let (k, child) = fields.remove(i);
                    proof {
                        if q.len() > 1 {
                            assert(q.drop_first().drop_last() =~= q.drop_last().drop_first());
                        }
                        assert(child@ == fields_view(f0)[i as int].1);
                    }
                    let child2 = assign_from(child, p, start + 1, x);
                    fields.insert(i, (k, child2));
                    proof {
                        lemma_fields_view(fields@);
                        assert(fields_view(fields@) =~= fields_view(f0).update(
                            i as int,
                            (q[0], set_at(fields_view(f0)[i as int].1, q.drop_first(), x@)),
                        ));
                    }
                    JsonValue::Object(fields)
                },
                None => {
                    proof {
                        if q.len() > 1 {
                            assert(q.drop_last()[0] == q[0]);
                        }
                    }
                    let ghost xv = x@;
                    fields.push((key.clone(), x));
                    proof {
                        lemma_fields_view(fields@);
                        assert(fields_view(fields@) =~= fields_view(f0).push((q[0], xv)));
                    }
                    JsonValue::Object(fields)
                },
            }
        },
        _ => {
            assert(false);
            v
        },
    }
}

/// `v` with `x` written at `p` (see `set_at`).
pub fn assign(v: JsonValue, p: &Pointer, x: JsonValue) -> (r: JsonValue)
    requires
        assignable(v@, p@),
    ensures
        r@ == set_at(v@, p@, x@),
{
    assert(p@.skip(0) =~= p@);
    assign_from(v, p, 0, x)
}


/// `first_index` is at most the length.
pub proof fn lemma_first_index_bound<T>(s: Seq<T>, x: T)
    ensures
        0 <= first_index(s, x) <= s.len(),
        first_index(s, x) < s.len() ==> s[first_index(s, x)] == x,
        first_index(s, x) == s.len() ==> !s.contains(x),
    decreases s.len(),
{
    if s.len() > 0 && s[0] != x {
        lemma_first_index_bound(s.drop_first(), x);
        if first_index(s, x) == s.len() && s.contains(x) {
            let j = choose|j: int| 0 <= j < s.len() && s[j] == x;
            assert(s.drop_first()[j - 1] == x);
        }
    }
}

/// Reading at `p` right after writing `x` at `p` gives `x`.
pub proof fn lemma_resolve_set_at(v: SpecJson, p: Seq<Seq<char>>, x: SpecJson)
    requires
        assignable(v, p),
    ensures
        resolve(set_at(v, p, x), p) == Some(x),
    decreases p.len(),
{
    if p.len() > 0 {
        let f = v->Obj_0;
        if p.len() > 1 {
            assert(p.drop_last()[0] == p[0]);
            assert(p.drop_last().drop_first() =~= p.drop_first().drop_last());
        }
        let i = first_index(keys_of(f), p[0]);
        lemma_first_index_bound(keys_of(f), p[0]);
        if i < f.len() {
            let f2 = f.update(i, (p[0], set_at(f[i].1, p.drop_first(), x)));
            assert(keys_of(f2) =~= keys_of(f));
            lemma_resolve_set_at(f[i].1, p.drop_first(), x);
        } else {
            let f2 = f.push((p[0], x));
            assert(keys_of(f2) =~= keys_of(f).push(p[0]));
            lemma_first_index(keys_of(f2), p[0], f.len() as int);
            assert(p.drop_first().len() == 0);
        }
    }
}

/// Writing `a` at `p` and then `b` deeper, at `p + q`, writes at `p` the value
/// `a` with `b` written at `q`.
pub proof fn lemma_set_at_nested(v: SpecJson, p: Seq<Seq<char>>, a: SpecJson, q: Seq<Seq<char>>, b: SpecJson)
    requires
        assignable(v, p),
    ensures
        set_at(set_at(v, p, a), p + q, b) == set_at(v, p, set_at(a, q, b)),
    decreases p.len(),
{
    if p.len() == 0 {
        assert(p + q =~= q);
    } else {
        let f = v->Obj_0;
        if p.len() > 1 {
            assert(p.drop_last()[0] == p[0]);
            assert(p.drop_last().drop_first() =~= p.drop_first().drop_last());
        }
        assert((p + q)[0] == p[0]);
        assert((p + q).drop_first() =~= p.drop_first() + q);
        let i = first_index(keys_of(f), p[0]);
        lemma_first_index_bound(keys_of(f), p[0]);
        if i < f.len() {
            let f2 = f.update(i, (p[0], set_at(f[i].1, p.drop_first(), a)));
            assert(keys_of(f2) =~= keys_of(f));
            lemma_set_at_nested(f[i].1, p.drop_first(), a, q, b);
            assert(f2.update(i, (p[0], set_at(f2[i].1, p.drop_first() + q, b))) =~= f.update(
                i,
                (p[0], set_at(f[i].1, p.drop_first(), set_at(a, q, b))),
            ));
        } else {
            let f2 = f.push((p[0], a));
            assert(keys_of(f2) =~= keys_of(f).push(p[0]));
            lemma_first_index(keys_of(f2), p[0], f.len() as int);
            assert(p.drop_first().len() == 0);
            assert(p.drop_first() + q =~= q);
            assert(f2.update(f.len() as int, (p[0], set_at(a, q, b))) =~= f.push((p[0], set_at(a, q, b))));
        }
    }
}

/// Writing into an object leaves an object.
pub proof fn lemma_set_at_obj(v: SpecJson, p: Seq<Seq<char>>, x: SpecJson)
    requires
        v is Obj,
        p.len() > 0,
    ensures
        set_at(v, p, x) is Obj,
{
}


/// Writing a member of an object keeps every member it had.
pub proof fn lemma_set_at_keeps_member(y: SpecJson, n1: Seq<char>, n2: Seq<char>, z: SpecJson)
    requires
        y is Obj,
        resolve(y, seq![n1]) is Some,
    ensures
        resolve(set_at(y, seq![n2], z), seq![n1]) is Some,
        resolve(set_at(y, seq![n2], z), seq![n2]) == Some(z),
{
    let f = y->Obj_0;
    let p1 = seq![n1];
    let p2 = seq![n2];
    assert(p1.drop_first() =~= Seq::<Seq<char>>::empty());
    assert(p2.drop_first() =~= Seq::<Seq<char>>::empty());
    assert(p2.drop_last() =~= Seq::<Seq<char>>::empty());
    lemma_resolve_set_at(y, p2, z);
    lemma_first_index_bound(keys_of(f), n1);
    lemma_first_index_bound(keys_of(f), n2);
    let i1 = first_index(keys_of(f), n1);
    let i2 = first_index(keys_of(f), n2);
    if i2 < f.len() {
        let f2 = f.update(i2, (n2, set_at(f[i2].1, p2.drop_first(), z)));
        assert(keys_of(f2) =~= keys_of(f));
    } else {
        let f2 = f.push((n2, z));
        assert(keys_of(f2) =~= keys_of(f).push(n2));
        assert forall|j: int| 0 <= j < i1 implies keys_of(f2)[j] != n1 by {
            assert(keys_of(f2)[j] == keys_of(f)[j]);
            if keys_of(f)[j] == n1 {
                lemma_first_index_min(keys_of(f), n1, j);
            }
        }
        lemma_first_index(keys_of(f2), n1, i1);
    }
}

/// No `x` comes before `first_index(s, x)`.
pub proof fn lemma_first_index_min<T>(s: Seq<T>, x: T, j: int)
    requires
        0 <= j < s.len(),
        s[j] == x,
    ensures
        first_index(s, x) <= j,
    decreases s.len(),
{
    if s[0] != x {
        assert(s.drop_first()[j - 1] == x);
        lemma_first_index_min(s.drop_first(), x, j - 1);
    }
}


/// Writing member `n` of an object keeps its names, adding `n` last when it
/// was not there.
pub proof fn lemma_keys_after_set(y: SpecJson, n: Seq<char>, v: SpecJson)
    requires
        y is Obj,
    ensures
        set_at(y, seq![n], v) is Obj,
        keys_of(set_at(y, seq![n], v)->Obj_0) == if keys_of(y->Obj_0).contains(n) {
            keys_of(y->Obj_0)
        } else {
            keys_of(y->Obj_0).push(n)
        },
{
    let f = y->Obj_0;
    let p = seq![n];
    assert(p.drop_first() =~= Seq::<Seq<char>>::empty());
    lemma_first_index_bound(keys_of(f), n);
    let i = first_index(keys_of(f), n);
    if i < f.len() {
        let f2 = f.update(i, (n, set_at(f[i].1, p.drop_first(), v)));
        assert(keys_of(f2) =~= keys_of(f));
        assert(keys_of(f).contains(n));
    } else {
        let f2 = f.push((n, v));
        assert(keys_of(f2) =~= keys_of(f).push(n));
    }
}

/// Writing member `n2` of an object leaves every other member as it was.
pub proof fn lemma_member_kept(y: SpecJson, n1: Seq<char>, n2: Seq<char>, z: SpecJson)
    requires
        y is Obj,
        n1 != n2,
    ensures
        resolve(set_at(y, seq![n2], z), seq![n1]) == resolve(y, seq![n1]),
{
    let f = y->Obj_0;
    let p1 = seq![n1];
    let p2 = seq![n2];
    assert(p1.drop_first() =~= Seq::<Seq<char>>::empty());
    assert(p2.drop_first() =~= Seq::<Seq<char>>::empty());
    lemma_first_index_bound(keys_of(f), n1);
    lemma_first_index_bound(keys_of(f), n2);
    let i1 = first_index(keys_of(f), n1);
    let i2 = first_index(keys_of(f), n2);
    if i2 < f.len() {
        let f2 = f.update(i2, (n2, set_at(f[i2].1, p2.drop_first(), z)));
        assert(keys_of(f2) =~= keys_of(f));
        if i1 < f.len() {
            assert(i1 != i2);
            assert(f2[i1] == f[i1]);
        }
    } else {
        let f2 = f.push((n2, z));
        assert(keys_of(f2) =~= keys_of(f).push(n2));
        if i1 < f.len() {
            assert forall|j: int| 0 <= j < i1 implies keys_of(f2)[j] != n1 by {
                assert(keys_of(f2)[j] == keys_of(f)[j]);
                if keys_of(f)[j] == n1 {
                    lemma_first_index_min(keys_of(f), n1, j);
                }
            }
            lemma_first_index(keys_of(f2), n1, i1);
            assert(f2[i1] == f[i1]);
        } else {
            assert forall|j: int| 0 <= j < f2.len() implies keys_of(f2)[j] != n1 by {
                if j < f.len() {
                    assert(keys_of(f2)[j] == keys_of(f)[j]);
                    assert(keys_of(f)[j] != n1);
                }
            }
            lemma_first_index(keys_of(f2), n1, f2.len() as int);
        }
    }
}

/// Reading below `p` in data where `y` was written at `p` reads inside `y`.
pub proof fn lemma_resolve_below(g: SpecJson, p: Seq<Seq<char>>, y: SpecJson, q: Seq<Seq<char>>)
    requires
        assignable(g, p),
    ensures
        resolve(set_at(g, p, y), p + q) == resolve(y, q),
    decreases p.len(),
{
    if p.len() == 0 {
        assert(p + q =~= q);
    } else {
        let f = g->Obj_0;
        if p.len() > 1 {
            assert(p.drop_last()[0] == p[0]);
            assert(p.drop_last().drop_first() =~= p.drop_first().drop_last());
        }
        assert((p + q)[0] == p[0]);
        assert((p + q).drop_first() =~= p.drop_first() + q);
        let i = first_index(keys_of(f), p[0]);
        lemma_first_index_bound(keys_of(f), p[0]);
        if i < f.len() {
            let f2 = f.update(i, (p[0], set_at(f[i].1, p.drop_first(), y)));
            assert(keys_of(f2) =~= keys_of(f));
            lemma_resolve_below(f[i].1, p.drop_first(), y, q);
        } else {
            let f2 = f.push((p[0], y));
            assert(keys_of(f2) =~= keys_of(f).push(p[0]));
            lemma_first_index(keys_of(f2), p[0], f.len() as int);
            assert(p.drop_first().len() == 0);
            assert(p.drop_first() + q =~= q);
        }
    }
}

} // verus!
