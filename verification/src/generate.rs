//! Generation of fake data for an inspected declaration.

use vstd::prelude::*;
use fake::Fake;
use fake::faker::name::raw::{FirstName, LastName};
use fake::locales::{AR_SA, DE_DE, EN, FR_FR, IT_IT, JA_JP, PT_BR, PT_PT, ZH_CN, ZH_TW};
use crate::pointer::{Pointer, encode_pointer};
use crate::inspect::{Levels, FieldName, names_of, level_order_at};
use crate::json::{
    JsonValue, SpecJson, resolve, set_at, assignable, first_index, resolve_at, assign, copy_json,
    lemma_resolve_set_at, lemma_set_at_nested, lemma_set_at_obj, lemma_set_at_keeps_member,
    lemma_keys_after_set, keys_of, lemma_resolve_below,
};

verus! {

/// A utility after inspection.
#[derive(Debug, Clone)]
pub enum Util {
    /// A reference to another field; a relative reference is taken from the
    /// object that holds the field, so it names a sibling (see `ref_target`).
    Ref { pattern: Pointer, relative: bool },
    /// A fake first name.
    FirstName,
    /// A fake last name.
    LastName,
}

/// A declaration after inspection: a utility, or an object of named
/// declarations in input order (the generated object holds one member per
/// distinct name, see `keys_exactly`).
#[derive(Debug)]
pub enum Declaration {
    Util(Util),
    Object(Vec<(String, Declaration)>),
}

/// The locale of generated names.
#[allow(non_camel_case_types)]
#[derive(Debug, Clone, Copy, PartialEq, Eq)]
pub enum Locale {
    AR_SA,
    DE_DE,
    EN,
    FR_FR,
    IT_IT,
    JA_JP,
    PT_BR,
    PT_PT,
    ZH_CN,
    ZH_TW,
}

/// The first names of a locale: the list `NAME_FIRST_NAME` that fake
/// holds for it, constant data.
pub uninterp spec fn first_names(locale: Locale) -> Set<Seq<char>>;

/// The last names of a locale: the list `NAME_LAST_NAME` that fake holds
/// for it, constant data.
pub uninterp spec fn last_names(locale: Locale) -> Set<Seq<char>>;

/// `fake::faker::name::raw::FirstName(locale).fake()`: a name chosen at
/// random from the locale's first-name list (`first_names`). The claim is
/// that it is in that list and not empty (every list of the supported
/// locales is non-empty and holds no empty name); which one comes out is
/// left open.
#[verifier::external_body]
fn fake_first_name(locale: Locale) -> (name: String)
    ensures
        first_names(locale).contains(name@),
        name@.len() > 0,
{
    match locale {
        Locale::AR_SA => FirstName(AR_SA).fake(),
        Locale::DE_DE => FirstName(DE_DE).fake(),
        Locale::EN => FirstName(EN).fake(),
        Locale::FR_FR => FirstName(FR_FR).fake(),
        Locale::IT_IT => FirstName(IT_IT).fake(),
        Locale::JA_JP => FirstName(JA_JP).fake(),
        Locale::PT_BR => FirstName(PT_BR).fake(),
        Locale::PT_PT => FirstName(PT_PT).fake(),
        Locale::ZH_CN => FirstName(ZH_CN).fake(),
        Locale::ZH_TW => FirstName(ZH_TW).fake(),
    }
}

/// `fake::faker::name::raw::LastName(locale).fake()`: a name chosen at
/// random from the locale's last-name list (`last_names`). The claim is
/// that it is in that list and not empty (every list of the supported
/// locales is non-empty and holds no empty name); which one comes out is
/// left open.
#[verifier::external_body]
fn fake_last_name(locale: Locale) -> (name: String)
    ensures
        last_names(locale).contains(name@),
        name@.len() > 0,
{
    match locale {
        Locale::AR_SA => LastName(AR_SA).fake(),
        Locale::DE_DE => LastName(DE_DE).fake(),
        Locale::EN => LastName(EN).fake(),
        Locale::FR_FR => LastName(FR_FR).fake(),
        Locale::IT_IT => LastName(IT_IT).fake(),
        Locale::JA_JP => LastName(JA_JP).fake(),
        Locale::PT_BR => LastName(PT_BR).fake(),
        Locale::PT_PT => LastName(PT_PT).fake(),
        Locale::ZH_CN => LastName(ZH_CN).fake(),
        Locale::ZH_TW => LastName(ZH_TW).fake(),
    }
}

/// Why generation fails: nothing was found at a pointer.
#[derive(Debug)]
pub enum GenError {
    Unresolved { pointer: Pointer },
}

impl GenError {
    /// The pointer at which nothing was found.
    pub open spec fn pointer_view(&self) -> Seq<Seq<char>> {
        match self {
            GenError::Unresolved { pointer } => pointer@,
        }
    }

    /// The message the error reads as.
    pub fn message(&self) -> (s: String)
        ensures
            s@ == "value not found at "@ + encode_pointer(self.pointer_view()),
    {
        match self {
            GenError::Unresolved { pointer } => {
                let mut s = String::from_str("value not found at ");
                let p = pointer.to_encoded();
                s.append(p.as_str());
                s
            },
        }
    }
}

/// What generation reads: each level's field order and the locale.
struct Info {
    levels_fields: Levels,
    default_locale: Locale,
}

/// What generation changes: where it is, and what it has generated so far.
struct Ctx {
    current_path: Pointer,
    generated: JsonValue,
}

/// The position of a field named `name` in a level order, or the length of
/// the order when it is not there.
pub open spec fn field_key(name: Seq<char>, ordering: Seq<FieldName>) -> int {
    first_index(ordering, seq![name])
}

/// The position of a field in a level order (see `field_key`).
fn field_position(name: &String, ordering: &Vec<Pointer>) -> (k: usize)
    ensures
        k == field_key(name@, names_of(ordering@)),
{
    let ghost o = names_of(ordering@);
    let mut q: usize = 0;
    while q < ordering.len()
        invariant
            o == names_of(ordering@),
            q <= ordering@.len(),
            forall|j: int| 0 <= j < q ==> o[j] != seq![name@],
        decreases ordering@.len() - q,
    {
        let p = &ordering[q];
        if p.len() == 1 && *p.token(0) == *name {
            assert(o[q as int] =~= seq![name@]);
            proof {
                crate::json::lemma_first_index(o, seq![name@], q as int);
            }
            return q;
        }
        proof {
            if o[q as int] == seq![name@] {
                assert(o[q as int].len() == 1);
                assert(o[q as int][0] == name@);
            }
        }
        q = q + 1;
    }
    proof {
        crate::json::lemma_first_index(o, seq![name@], q as int);
    }
    q
}

/// `(k1, i1)` comes strictly before `(k2, i2)`, ordering by key then index.
pub open spec fn lex_before(k1: int, i1: int, k2: int, i2: int) -> bool {
    k1 < k2 || (k1 == k2 && i1 < i2)
}

/// `y` has a member of each of the names.
pub open spec fn has_members(y: SpecJson, names: Seq<Seq<char>>) -> bool {
    forall|k: int| 0 <= k < names.len() ==> (#[trigger] resolve(y, seq![names[k]])) is Some
}

/// The names of an object's fields.
pub open spec fn field_names(obj: Seq<(String, Declaration)>) -> Seq<Seq<char>> {
    obj.map_values(|f: (String, Declaration)| f.0@)
}

/// `r` lists the positions `0..names.len()`, each once, sorted by the
/// position of the field's name in `ordering` (unlisted names last) and then
/// by position.
pub open spec fn is_generation_order(r: Seq<usize>, names: Seq<Seq<char>>, ordering: Seq<FieldName>) -> bool {
    &&& forall|a: int| 0 <= a < r.len() ==> #[trigger] r[a] < names.len()
    &&& forall|x: int| 0 <= x < names.len() ==> #[trigger] r.contains(x as usize)
    &&& forall|a: int, b: int|
        #![trigger r[a], r[b]]
        0 <= a < b < r.len() ==> lex_before(
            field_key(names[r[a] as int], ordering),
            r[a] as int,
            field_key(names[r[b] as int], ordering),
            r[b] as int,
        )
}

/// The order in which the fields of an object are generated: every field
/// once, sorted by position in the level order, fields that the level order
/// does not name last, and otherwise in their own order.
fn order_fields(obj: &Vec<(String, Declaration)>, ordering: &Vec<Pointer>) -> (r: Vec<usize>)
    ensures
        is_generation_order(r@, field_names(obj@), names_of(ordering@)),
{
    let ghost o = names_of(ordering@);
    let n = obj.len();
    let m = ordering.len();
    let mut keys: Vec<usize> = Vec::new();
    let mut i: usize = 0;
    while i < n
        invariant
            n == obj@.len(),
            o == names_of(ordering@),
            i <= n,
            keys@.len() == i,
            forall|j: int| 0 <= j < i ==> #[trigger] keys@[j] == field_key(obj@[j].0@, o),
        decreases n - i,
    {
        keys.push(field_position(&obj[i].0, ordering));
        i = i + 1;
    }
    proof {
        assert forall|j: int| 0 <= j < n implies #[trigger] keys@[j] <= m by {
            assert(o.len() == m);
            crate::json::lemma_first_index_bound(o, seq![obj@[j].0@]);
        }
    }
    let mut r: Vec<usize> = Vec::new();
    let mut p: usize = 0;
    loop
        invariant_except_break
            forall|x: int| 0 <= x < n ==> (#[trigger] r@.contains(x as usize) <==> keys@[x] < p),
        invariant
            n == obj@.len(),
            m == o.len(),
            o == names_of(ordering@),
            keys@.len() == n,
            forall|j: int| 0 <= j < n ==> #[trigger] keys@[j] == field_key(obj@[j].0@, o),
            forall|j: int| 0 <= j < n ==> #[trigger] keys@[j] <= m,
            p <= m,
            forall|a: int| 0 <= a < r@.len() ==> #[trigger] r@[a] < n,
            forall|a: int, b: int|
                #![trigger r@[a], r@[b]]
                0 <= a < b < r@.len() ==> lex_before(
                    keys@[r@[a] as int] as int,
                    r@[a] as int,
                    keys@[r@[b] as int] as int,
                    r@[b] as int,
                ),
        ensures
            forall|x: int| 0 <= x < n ==> #[trigger] r@.contains(x as usize),
        decreases m - p,
    {
        proof {
            assert forall|a: int| 0 <= a < r@.len() implies lex_before(
                keys@[#[trigger] r@[a] as int] as int,
                r@[a] as int,
                p as int,
                0,
            ) by {
                let x = r@[a] as int;
                assert(r@.contains(x as usize));
            }
        }
        let mut j: usize = 0;
        while j < n
            invariant
                n == obj@.len(),
                keys@.len() == n,
                forall|x: int| 0 <= x < n ==> #[trigger] keys@[x] <= m,
                p <= m,
                j <= n,
                forall|a: int| 0 <= a < r@.len() ==> #[trigger] r@[a] < n,
                forall|x: int| 0 <= x < n ==> (#[trigger] r@.contains(x as usize) <==> (keys@[x] < p
                    || (keys@[x] == p && x < j))),
                forall|a: int| 0 <= a < r@.len() ==> lex_before(
                    keys@[#[trigger] r@[a] as int] as int,
                    r@[a] as int,
                    p as int,
                    j as int,
                ),
                forall|a: int, b: int|
                    #![trigger r@[a], r@[b]]
                    0 <= a < b < r@.len() ==> lex_before(
                        keys@[r@[a] as int] as int,
                        r@[a] as int,
                        keys@[r@[b] as int] as int,
                        r@[b] as int,
                    ),
            decreases n - j,
        {
            if keys[j] == p {
                let ghost r0 = r@;
                r.push(j);
                proof {
                    assert forall|x: int| 0 <= x < n implies (#[trigger] r@.contains(x as usize) <==> (keys@[x] < p
                        || (keys@[x] == p && x < j + 1))) by {
                        if r@.contains(x as usize) && x != j as int {
                            let a = choose|a: int| 0 <= a < r@.len() && r@[a] == x as usize;
                            assert(r0[a] == x as usize);
                        }
                        if (keys@[x] < p || (keys@[x] == p && x < j)) {
                            assert(r0.contains(x as usize));
                            let a = choose|a: int| 0 <= a < r0.len() && r0[a] == x as usize;
                            assert(r@[a] == x as usize);
                        }
                        if x == j as int {
                            assert(r@[r0.len() as int] == j);
                        }
                    }
                }
            }
            j = j + 1;
        }
        if p == m {
            break;
        }
        p = p + 1;
    }
    proof {
        let names = field_names(obj@);
        assert forall|j: int| 0 <= j < n implies #[trigger] names[j] == obj@[j].0@ by {}
    }
    r
}

/// The pointer a reference held by the field at `current` names: an absolute
/// pattern from the root, a relative one from the object that holds the field
/// (so a relative pattern names a sibling of the field or something below it).
pub open spec fn ref_target(current: Seq<Seq<char>>, pattern: Seq<Seq<char>>, relative: bool) -> Seq<Seq<char>> {
    if relative && current.len() > 0 {
        current.drop_last() + pattern
    } else {
        pattern
    }
}

/// The value a reference names, a relative one from the object that holds
/// the current field.
fn resolve_ref<'c>(pattern: &Pointer, relative: bool, ctx: &'c Ctx) -> (r: Result<&'c JsonValue, GenError>)
    ensures
        match r {
            Ok(v) => resolve(ctx.generated@, ref_target(ctx.current_path@, pattern@, relative)) == Some(v@),
            Err(e) => resolve(ctx.generated@, ref_target(ctx.current_path@, pattern@, relative)) is None
                && e.pointer_view() == ref_target(ctx.current_path@, pattern@, relative),
        },
{
    let target = if relative {
        match ctx.current_path.parent() {
            Some(parent) => parent.concat(pattern),
            None => pattern.duplicate(),
        }
    } else {
        pattern.duplicate()
    };
    match resolve_at(&ctx.generated, &target) {
        Some(v) => Ok(v),
        None => Err(GenError::Unresolved { pointer: target }),
    }
}

/// Writes `val` at the current path.
fn write_current(ctx: &mut Ctx, val: JsonValue)
    requires
        assignable(old(ctx).generated@, old(ctx).current_path@),
    ensures
        final(ctx).current_path@ == old(ctx).current_path@,
        final(ctx).generated@ == set_at(old(ctx).generated@, old(ctx).current_path@, val@),
{
    let mut g = JsonValue::Null;
    std::mem::swap(&mut g, &mut ctx.generated);
    ctx.generated = assign(g, &ctx.current_path, val);
}

/// `s` is a name that the utility `u` can give in locale `loc`: a non-empty
/// first name of the locale for `FirstName`, a last name for `LastName`.
pub open spec fn is_fake_name(loc: Locale, u: Util, s: Seq<char>) -> bool {
    match u {
        Util::FirstName => first_names(loc).contains(s) && s.len() > 0,
        Util::LastName => last_names(loc).contains(s) && s.len() > 0,
        Util::Ref { .. } => false,
    }
}

/// What generating `util` at `path` in locale `loc` does to the data
/// `before`, giving `after` and `r`: a name always succeeds, writing a name
/// of its kind in the locale (`is_fake_name`); a reference succeeds
/// exactly when its target resolves, writing a copy of the value there, and
/// otherwise fails at its target, leaving the data as it was.
pub open spec fn util_outcome(
    loc: Locale,
    util: Util,
    path: Seq<Seq<char>>,
    before: SpecJson,
    after: SpecJson,
    r: Result<(), GenError>,
) -> bool {
    match util {
        Util::Ref { pattern, relative } => {
            let t = ref_target(path, pattern@, relative);
            match r {
                Ok(_) => resolve(before, t) is Some && after == set_at(before, path, resolve(before, t)->0),
                Err(e) => resolve(before, t) is None && e.pointer_view() == t && after == before,
            }
        },
        _ => r is Ok && exists|s: Seq<char>| is_fake_name(loc, util, s) && after == #[trigger] set_at(before, path, SpecJson::Str(s)),
    }
}

/// Every field of the object is a fake name.
pub open spec fn all_names(obj: Seq<(String, Declaration)>) -> bool {
    forall|k: int| 0 <= k < obj.len() ==> is_name(#[trigger] obj[k].1)
}

/// The declaration is a fake first or last name.
pub open spec fn is_name(d: Declaration) -> bool {
    match d {
        Declaration::Util(Util::FirstName) => true,
        Declaration::Util(Util::LastName) => true,
        _ => false,
    }
}

/// Generates a utility at the current path: a fake name, or a copy of the
/// value a reference names.
fn generate_util(i: &Info, ctx: &mut Ctx, util: &Util) -> (r: Result<(), GenError>)
    requires
        assignable(old(ctx).generated@, old(ctx).current_path@),
    ensures
        final(ctx).current_path@ == old(ctx).current_path@,
        util_outcome(i.default_locale, *util, old(ctx).current_path@, old(ctx).generated@, final(ctx).generated@, r),
{
    let val = match util {
        Util::FirstName => JsonValue::String(fake_first_name(i.default_locale)),
        Util::LastName => JsonValue::String(fake_last_name(i.default_locale)),
        Util::Ref { pattern, relative } => {
            match resolve_ref(pattern, *relative, ctx) {
                Ok(v) => copy_json(v),
                Err(e) => return Err(e),
            }
        },
    };
    write_current(ctx, val);
    Ok(())
}


/// `v` is a value the field `d` named `name` of the object at `p` is written
/// with when the data is `data`: a copy of what a reference's target holds,
/// a name of its kind in locale `loc` for a fake name, an object for an object (which needs a place in
/// `data`).
pub open spec fn field_value(loc: Locale, p: Seq<Seq<char>>, name: Seq<char>, d: Declaration, data: SpecJson, v: SpecJson) -> bool {
    match d {
        Declaration::Util(Util::Ref { pattern, relative }) => resolve(
            data,
            ref_target(p.push(name), pattern@, relative),
        ) == Some(v),
        Declaration::Util(u) => v matches SpecJson::Str(s) && is_fake_name(loc, u, s),
        Declaration::Object(_) => resolve(data, p.push(name)) is Some && v is Obj,
    }
}

/// The field `d` named `name` of the object at `p` fails when the data is
/// `data`, at pointer `ep`: a reference whose target holds nothing fails at
/// its target; a fake name never fails; an object with no place in `data`
/// fails at its own path.
pub open spec fn field_fails(p: Seq<Seq<char>>, name: Seq<char>, d: Declaration, data: SpecJson, ep: Seq<Seq<char>>) -> bool {
    match d {
        Declaration::Util(Util::Ref { pattern, relative }) => {
            let t = ref_target(p.push(name), pattern@, relative);
            resolve(data, t) is None && ep == t
        },
        Declaration::Util(_) => false,
        Declaration::Object(_) => resolve(data, p.push(name)) is None ==> ep == p.push(name),
    }
}

/// Turn `t` of generating the object at `p` (data `g0` before) writes the
/// field `order[t]` into the object's contents `ys[t]`, giving `ys[t + 1]`.
pub open spec fn trace_step(
    loc: Locale,
    g0: SpecJson,
    p: Seq<Seq<char>>,
    obj: Seq<(String, Declaration)>,
    order: Seq<usize>,
    ys: Seq<SpecJson>,
    t: int,
) -> bool {
    let x = order[t] as int;
    exists|v: SpecJson|
        field_value(loc, p, obj[x].0@, obj[x].1, set_at(g0, p, ys[t]), v) && ys[t + 1] == #[trigger] set_at(
            ys[t],
            seq![obj[x].0@],
            v,
        )
}

/// The contents `ys[0..=n]` of the object at `p` over its first `n` turns:
/// empty at first, then one field written per turn, in `order`.
pub open spec fn object_trace(
    loc: Locale,
    g0: SpecJson,
    p: Seq<Seq<char>>,
    obj: Seq<(String, Declaration)>,
    order: Seq<usize>,
    ys: Seq<SpecJson>,
    n: int,
) -> bool {
    &&& 0 <= n <= order.len()
    &&& ys.len() == n + 1
    &&& ys[0] == SpecJson::Obj(Seq::empty())
    &&& forall|t: int| 0 <= t < n ==> #[trigger] trace_step(loc, g0, p, obj, order, ys, t)
}

/// A run of generating the object `obj` at `p` from data `g0`, with level
/// order `ordering`: the fields are taken in the generation order `order`;
/// on success every turn is done and the data is `g0` with the final
/// contents written at `p`; on failure the turns before the failing one are
/// done and the failing field fails at the error's pointer.
pub open spec fn object_run(
    loc: Locale,
    g0: SpecJson,
    p: Seq<Seq<char>>,
    obj: Seq<(String, Declaration)>,
    ordering: Seq<FieldName>,
    order: Seq<usize>,
    ys: Seq<SpecJson>,
    r: Result<(), GenError>,
    data: SpecJson,
) -> bool {
    &&& is_generation_order(order, field_names(obj), ordering)
    &&& match r {
        Ok(_) => object_trace(loc, g0, p, obj, order, ys, order.len() as int) && data == set_at(
            g0,
            p,
            ys.last(),
        ),
        Err(e) => {
            let n = ys.len() - 1;
            &&& n < order.len()
            &&& object_trace(loc, g0, p, obj, order, ys, n)
            &&& field_fails(p, obj[order[n] as int].0@, obj[order[n] as int].1, set_at(g0, p, ys[n]), e.pointer_view())
        },
    }
}

/// `y` is an object whose member names are distinct and are exactly `names`.
pub open spec fn keys_exactly(y: SpecJson, names: Seq<Seq<char>>) -> bool {
    &&& y is Obj
    &&& keys_of(y->Obj_0).no_duplicates()
    &&& forall|k: Seq<char>| #[trigger] keys_of(y->Obj_0).contains(k) <==> names.contains(k)
}

/// The names of the fields taken in the first `t` turns.
pub open spec fn names_upto(obj: Seq<(String, Declaration)>, order: Seq<usize>, t: int) -> Seq<Seq<char>> {
    order.take(t).map_values(|x: usize| obj[x as int].0@)
}

/// Generates a declaration at the current path. On success the generated data
/// differs from before only by the value written at the current path, which
/// is an object when the declaration is one. It fails only at a pointer that
/// resolves to nothing in the data generated so far.
fn generate_declaration(i: &Info, ctx: &mut Ctx, decl: &Declaration) -> (r: Result<(), GenError>)
    requires
        assignable(old(ctx).generated@, old(ctx).current_path@),
    ensures
        decl matches Declaration::Util(u) ==> final(ctx).current_path@ == old(ctx).current_path@
            && util_outcome(i.default_locale, *u, old(ctx).current_path@, old(ctx).generated@, final(ctx).generated@, r),
        decl matches Declaration::Object(obj) ==> {
            &&& resolve(old(ctx).generated@, old(ctx).current_path@) is None ==> {
                &&& r matches Err(e) && e.pointer_view() == old(ctx).current_path@
                &&& final(ctx).generated@ == old(ctx).generated@
                &&& final(ctx).current_path@ == old(ctx).current_path@
            }
            &&& resolve(old(ctx).generated@, old(ctx).current_path@) is Some ==> exists|order: Seq<usize>, ys: Seq<SpecJson>|
                #[trigger] object_run(i.default_locale, 
                    old(ctx).generated@,
                    old(ctx).current_path@,
                    obj@,
                    level_order_at(i.levels_fields@, old(ctx).current_path@),
                    order,
                    ys,
                    r,
                    final(ctx).generated@,
                )
            &&& resolve(old(ctx).generated@, old(ctx).current_path@) is Some && all_names(obj@) ==> r is Ok
            &&& r is Ok ==> exists|y: SpecJson|
                final(ctx).generated@ == #[trigger] set_at(old(ctx).generated@, old(ctx).current_path@, y)
                    && keys_exactly(y, field_names(obj@))
        },
        r matches Err(e) ==> resolve(final(ctx).generated@, e.pointer_view()) is None,
        r is Ok ==> final(ctx).current_path@ == old(ctx).current_path@ && exists|y: SpecJson|
            final(ctx).generated@ == #[trigger] set_at(old(ctx).generated@, old(ctx).current_path@, y)
                && (decl is Object ==> y is Obj),
    decreases decl,
{
    match decl {
        Declaration::Util(util) => {
            let r = generate_util(i, ctx, util);
            proof {
                if r is Ok {
                    match util {
                        Util::Ref { pattern, relative } => {
                            let t = ref_target(old(ctx).current_path@, pattern@, *relative);
                            let y = resolve(old(ctx).generated@, t)->0;
                            assert(ctx.generated@ == set_at(old(ctx).generated@, old(ctx).current_path@, y));
                        },
                        _ => {},
                    }
                }
            }
            r
        },
        Declaration::Object(obj) => generate_object(i, ctx, obj),
    }
}

/// Generates an object at the current path: the value there (which must
/// exist, so an object inside an object, whose path holds nothing yet at its
/// turn, fails at that path) becomes an empty object, then each field is generated in the order
/// of `order_fields` for the level order of the current path (see
/// `object_run`).
fn generate_object(i: &Info, ctx: &mut Ctx, obj: &Vec<(String, Declaration)>) -> (r: Result<(), GenError>)
    requires
        assignable(old(ctx).generated@, old(ctx).current_path@),
    ensures
        resolve(old(ctx).generated@, old(ctx).current_path@) is None ==> {
            &&& r matches Err(e) && e.pointer_view() == old(ctx).current_path@
            &&& final(ctx).generated@ == old(ctx).generated@
            &&& final(ctx).current_path@ == old(ctx).current_path@
        },
        resolve(old(ctx).generated@, old(ctx).current_path@) is Some ==> exists|order: Seq<usize>, ys: Seq<SpecJson>|
            #[trigger] object_run(i.default_locale, 
                old(ctx).generated@,
                old(ctx).current_path@,
                obj@,
                level_order_at(i.levels_fields@, old(ctx).current_path@),
                order,
                ys,
                r,
                final(ctx).generated@,
            ),
        resolve(old(ctx).generated@, old(ctx).current_path@) is Some && all_names(obj@) ==> r is Ok,
        resolve(old(ctx).generated@, old(ctx).current_path@) is Some && obj@.len() == 0 ==> r is Ok
            && final(ctx).generated@ == set_at(
            old(ctx).generated@,
            old(ctx).current_path@,
            SpecJson::Obj(Seq::empty()),
        ),
        r matches Err(e) ==> resolve(final(ctx).generated@, e.pointer_view()) is None,
        r is Ok ==> final(ctx).current_path@ == old(ctx).current_path@ && exists|y: SpecJson|
            final(ctx).generated@ == #[trigger] set_at(old(ctx).generated@, old(ctx).current_path@, y)
                && keys_exactly(y, field_names(obj@)) && has_members(y, field_names(obj@)),
    decreases obj,
{
    let empty: Vec<Pointer> = Vec::new();
    let ordering: &Vec<Pointer> = match i.levels_fields.get(&ctx.current_path) {
        Some(o) => o,
        None => &empty,
    };
    let order = order_fields(obj, ordering);
    if resolve_at(&ctx.generated, &ctx.current_path).is_none() {
        return Err(GenError::Unresolved { pointer: ctx.current_path.duplicate() });
    }
    let ghost g0 = ctx.generated@;
    let ghost p0 = ctx.current_path@;
    let ghost old_all_names = all_names(obj@);
    let ghost lo = level_order_at(i.levels_fields@, p0);
    assert(names_of(ordering@) == lo);
    let fresh = JsonValue::Object(Vec::new());
    let ghost mut y: SpecJson = fresh@;
    write_current(ctx, fresh);
    let ghost mut ys: Seq<SpecJson> = seq![y];
    proof {
        assert(y == SpecJson::Obj(Seq::empty()));
        assert(keys_of(Seq::<(Seq<char>, SpecJson)>::empty()) =~= Seq::<Seq<char>>::empty());
        assert(names_upto(obj@, order@, 0) =~= Seq::<Seq<char>>::empty());
    }
    let mut t: usize = 0;
    while t < order.len()
        invariant
            p0 == old(ctx).current_path@,
            g0 == old(ctx).generated@,
            lo == level_order_at(i.levels_fields@, p0),
            assignable(g0, p0),
            resolve(g0, p0) is Some,
            ctx.current_path@ == p0,
            ctx.generated@ == set_at(g0, p0, y),
            y is Obj,
            t <= order@.len(),
            is_generation_order(order@, field_names(obj@), lo),
            all_names(obj@) == old_all_names,
            forall|a: int| 0 <= a < t ==> #[trigger] resolve(y, seq![obj@[order@[a] as int].0@]) is Some,
            object_trace(i.default_locale, g0, p0, obj@, order@, ys, t as int),
            ys.last() == y,
            keys_of(y->Obj_0).no_duplicates(),
            forall|kk: Seq<char>| #[trigger] keys_of(y->Obj_0).contains(kk) <==> names_upto(obj@, order@, t as int).contains(kk),
        decreases order@.len() - t,
    {
        let k = order[t];
        let ghost name = obj@[k as int].0@;
        proof {
            lemma_resolve_set_at(g0, p0, y);
            assert(p0.push(name).drop_last() =~= p0);
        }
        ctx.current_path.push_back(obj[k].0.as_str());
        let ghost g1 = ctx.generated@;
        proof {
            if old_all_names {
                assert(is_name(obj@[k as int].1));
            }
        }
        match generate_declaration(i, ctx, &obj[k].1) {
            Err(e) => {
                assert(!old_all_names);
                proof {
                    assert(field_fails(p0, name, obj@[k as int].1, set_at(g0, p0, ys[t as int]), e.pointer_view()));
                    assert(object_run(i.default_locale, g0, p0, obj@, lo, order@, ys, Err::<(), GenError>(e), ctx.generated@));
                }
                return Err(e);
            },
            Ok(()) => {},
        }
        proof {
            let z = choose|z: SpecJson|
                ctx.generated@ == #[trigger] set_at(g1, p0.push(name), z) && (obj@[k as int].1 is Object ==> z is Obj);
            assert(p0.push(name) =~= p0 + seq![name]);
            lemma_set_at_nested(g0, p0, y, seq![name], z);
            lemma_set_at_obj(y, seq![name], z);
            let y2 = set_at(y, seq![name], z);
            assert forall|a: int| 0 <= a < t + 1 implies #[trigger] resolve(y2, seq![obj@[order@[a] as int].0@]) is Some by {
                if a < t {
                    lemma_set_at_keeps_member(y, obj@[order@[a] as int].0@, name, z);
                } else {
                    assert(seq![name].drop_last() =~= Seq::<Seq<char>>::empty());
                    lemma_resolve_set_at(y, seq![name], z);
                }
            }
            // the turn just done
            match obj@[k as int].1 {
                Declaration::Util(Util::Ref { pattern, relative }) => {
                    let tg = ref_target(p0.push(name), pattern@, relative);
                    assert(set_at(g1, p0.push(name), resolve(g1, tg)->0) == ctx.generated@);
                    lemma_set_at_nested(g0, p0, y, seq![name], resolve(g1, tg)->0);
                    assert(z == resolve(g1, tg)->0) by {
                        lemma_resolve_below(g0, p0, set_at(y, seq![name], z), seq![name]);
                        lemma_resolve_below(g0, p0, set_at(y, seq![name], resolve(g1, tg)->0), seq![name]);
                        assert(seq![name].drop_last() =~= Seq::<Seq<char>>::empty());
                        lemma_resolve_set_at(y, seq![name], z);
                        lemma_resolve_set_at(y, seq![name], resolve(g1, tg)->0);
                    }
                    assert(field_value(i.default_locale, p0, name, obj@[k as int].1, set_at(g0, p0, ys[t as int]), z));
                },
                Declaration::Util(u) => {
                    let s = choose|s: Seq<char>| is_fake_name(i.default_locale, u, s) && ctx.generated@ == #[trigger] set_at(g1, p0.push(name), SpecJson::Str(s));
                    lemma_set_at_nested(g0, p0, y, seq![name], SpecJson::Str(s));
                    assert(z == SpecJson::Str(s)) by {
                        lemma_resolve_below(g0, p0, set_at(y, seq![name], z), seq![name]);
                        lemma_resolve_below(g0, p0, set_at(y, seq![name], SpecJson::Str(s)), seq![name]);
                        assert(seq![name].drop_last() =~= Seq::<Seq<char>>::empty());
                        lemma_resolve_set_at(y, seq![name], z);
                        lemma_resolve_set_at(y, seq![name], SpecJson::Str(s));
                    }
                    assert(field_value(i.default_locale, p0, name, obj@[k as int].1, set_at(g0, p0, ys[t as int]), z));
                },
                Declaration::Object(_) => {
                    assert(field_value(i.default_locale, p0, name, obj@[k as int].1, set_at(g0, p0, ys[t as int]), z));
                },
            }
            let ys2 = ys.push(y2);
            assert(trace_step(i.default_locale, g0, p0, obj@, order@, ys2, t as int)) by {
                assert(ys2[t as int] == y);
                assert(ys2[t + 1] == y2);
            }
            assert forall|tt: int| 0 <= tt < t implies #[trigger] trace_step(i.default_locale, g0, p0, obj@, order@, ys2, tt) by {
                assert(trace_step(i.default_locale, g0, p0, obj@, order@, ys, tt));
                assert(ys2[tt] == ys[tt]);
                assert(ys2[tt + 1] == ys[tt + 1]);
            }
            assert(object_trace(i.default_locale, g0, p0, obj@, order@, ys2, t + 1));
            // member names
            lemma_keys_after_set(y, name, z);
            let nu = names_upto(obj@, order@, t as int);
            let nu2 = names_upto(obj@, order@, t + 1);
            assert(nu2 =~= nu.push(name));
            if keys_of(y->Obj_0).contains(name) {
                assert forall|kk: Seq<char>| #[trigger] keys_of(y2->Obj_0).contains(kk) <==> nu2.contains(kk) by {
                    if nu2.contains(kk) {
                        let j = choose|j: int| 0 <= j < nu2.len() && nu2[j] == kk;
                        if j < nu.len() {
                            assert(nu[j] == kk);
                        }
                    }
                    if keys_of(y2->Obj_0).contains(kk) {
                        assert(nu.contains(kk));
                        let j2 = choose|j2: int| 0 <= j2 < nu.len() && nu[j2] == kk;
                        assert(nu2[j2] == kk);
                    }
                }
            } else {
                assert forall|kk: Seq<char>| #[trigger] keys_of(y2->Obj_0).contains(kk) <==> nu2.contains(kk) by {
                    if keys_of(y2->Obj_0).contains(kk) {
                        let j = choose|j: int| 0 <= j < keys_of(y2->Obj_0).len() && keys_of(y2->Obj_0)[j] == kk;
                        if j < keys_of(y->Obj_0).len() {
                            assert(keys_of(y->Obj_0).contains(kk));
                            assert(nu.contains(kk));
                            let j2 = choose|j2: int| 0 <= j2 < nu.len() && nu[j2] == kk;
                            assert(nu2[j2] == kk);
                        } else {
                            assert(nu2[nu.len() as int] == kk);
                        }
                    }
                    if nu2.contains(kk) {
                        let j = choose|j: int| 0 <= j < nu2.len() && nu2[j] == kk;
                        if j < nu.len() {
                            assert(nu[j] == kk);
                            assert(keys_of(y->Obj_0).contains(kk));
                            let j2 = choose|j2: int| 0 <= j2 < keys_of(y->Obj_0).len() && keys_of(y->Obj_0)[j2] == kk;
                            assert(keys_of(y2->Obj_0)[j2] == kk);
                        } else {
                            assert(keys_of(y2->Obj_0)[keys_of(y->Obj_0).len() as int] == kk);
                        }
                    }
                }
                assert(keys_of(y2->Obj_0).no_duplicates()) by {
                    let ks = keys_of(y->Obj_0);
                    let ks2 = keys_of(y2->Obj_0);
                    assert forall|a: int, b: int| 0 <= a < ks2.len() && 0 <= b < ks2.len() && a != b implies ks2[a] != ks2[b] by {
                        if a < ks.len() && b < ks.len() {
                        } else if a < ks.len() {
                            assert(ks2[b] == name);
                            assert(ks2[a] == ks[a]);
                            if ks[a] == name {
                                assert(ks.contains(name));
                            }
                        } else {
                            assert(ks2[a] == name);
                            assert(ks2[b] == ks[b]);
                            if ks[b] == name {
                                assert(ks.contains(name));
                            }
                        }
                    }
                }
            }
            ys = ys2;
            y = y2;
        }
        ctx.current_path.pop_back();
        t = t + 1;
    }
    let n_fields = obj.len();
    proof {
        let names = field_names(obj@);
        assert(n_fields == obj@.len());
        assert forall|k: int| 0 <= k < names.len() implies (#[trigger] resolve(y, seq![names[k]])) is Some by {
            assert(names.len() == obj@.len());
            assert(order@.contains(k as usize));
            let a = choose|a: int| 0 <= a < order@.len() && order@[a] == k as usize;
            assert(resolve(y, seq![obj@[order@[a] as int].0@]) is Some);
            assert(order@[a] as int == k);
            assert(names[k] == obj@[k].0@);
        }
        let nu = names_upto(obj@, order@, t as int);
        assert(order@.take(t as int) =~= order@);
        assert forall|kk: Seq<char>| #[trigger] keys_of(y->Obj_0).contains(kk) <==> names.contains(kk) by {
            if nu.contains(kk) {
                let j = choose|j: int| 0 <= j < nu.len() && nu[j] == kk;
                assert(nu[j] == obj@[order@[j] as int].0@);
                assert(names[order@[j] as int] == kk);
            }
            if names.contains(kk) {
                let x = choose|x: int| 0 <= x < names.len() && names[x] == kk;
                assert(order@.contains(x as usize));
                let a = choose|a: int| 0 <= a < order@.len() && order@[a] == x as usize;
                assert(order@[a] as int == x);
                assert(nu[a] == kk);
            }
        }
        assert(object_run(i.default_locale, g0, p0, obj@, lo, order@, ys, Ok::<(), GenError>(()), ctx.generated@));
        if obj@.len() == 0 {
            if order@.len() > 0 {
                assert(order@[0] < obj@.len());
            }
        }
    }
    Ok(())
}

/// The outcome of generation without its value.
pub open spec fn unit_result(r: Result<JsonValue, GenError>) -> Result<(), GenError> {
    match r {
        Ok(_) => Ok(()),
        Err(e) => Err(e),
    }
}

/// The generated value, or null on failure.
pub open spec fn result_data(r: Result<JsonValue, GenError>) -> SpecJson {
    match r {
        Ok(v) => v@,
        Err(_) => SpecJson::Null,
    }
}

/// Generates fake data for a declaration, from nothing (null) at the root,
/// with the level orders `levels` and names in `locale`. A first (last) name
/// gives a non-empty first (last) name of `locale`; a reference at the root copies the root itself, so only the empty
/// pattern resolves. An object is generated as `object_run` describes: its
/// fields are taken in the generation order of the root's level order, each
/// reference copying what its target holds at its turn; generation succeeds
/// exactly when every turn does, and then the result has exactly the
/// declared names as members.
pub fn generate(levels: Levels, locale: Locale, decl: &Declaration) -> (r: Result<JsonValue, GenError>)
    ensures
        decl matches Declaration::Util(Util::FirstName) ==> (r matches Ok(v) && v@ matches SpecJson::Str(s)
            && first_names(locale).contains(s) && s.len() > 0),
        decl matches Declaration::Util(Util::LastName) ==> (r matches Ok(v) && v@ matches SpecJson::Str(s)
            && last_names(locale).contains(s) && s.len() > 0),
        decl matches Declaration::Util(Util::Ref { pattern, relative }) ==> (r is Ok <==> pattern@.len() == 0),
        decl matches Declaration::Util(Util::Ref { pattern, relative }) ==> (r matches Ok(v) ==> v@ == SpecJson::Null),
        decl matches Declaration::Util(Util::Ref { pattern, relative }) ==> (r matches Err(e) ==> e.pointer_view()
            == pattern@),
        decl matches Declaration::Object(obj) ==> exists|order: Seq<usize>, ys: Seq<SpecJson>|
            #[trigger] object_run(locale, 
                SpecJson::Null,
                Seq::empty(),
                obj@,
                level_order_at(levels@, Seq::empty()),
                order,
                ys,
                unit_result(r),
                result_data(r),
            ),
        decl matches Declaration::Object(obj) ==> (r matches Ok(v) ==> keys_exactly(v@, field_names(obj@))
            && has_members(v@, field_names(obj@))),
        decl matches Declaration::Object(obj) ==> (all_names(obj@) ==> r is Ok),
        decl matches Declaration::Object(obj) ==> (obj@.len() == 0 ==> (r matches Ok(v) && v@ == SpecJson::Obj(
            Seq::empty(),
        ))),
{
    let ghost lv = levels@;
    let i = Info { levels_fields: levels, default_locale: locale };
    let mut ctx = Ctx { current_path: Pointer::root(), generated: JsonValue::Null };
    let r = match decl {
        Declaration::Util(u) => generate_util(&i, &mut ctx, u),
        Declaration::Object(obj) => generate_object(&i, &mut ctx, obj),
    };
    proof {
        assert(Seq::<Seq<char>>::empty() + Seq::<Seq<char>>::empty() =~= Seq::<Seq<char>>::empty());
    }
    let ghost r0 = r;
    let ghost data0 = ctx.generated@;
    let ghost lo = level_order_at(lv, Seq::<Seq<char>>::empty());
    assert(i.levels_fields@ == lv);
    let out = match r {
        Ok(()) => {
            let v = ctx.generated;
            proof {
                if let Declaration::Object(obj) = decl {
                    let (order, ys) = choose|order: Seq<usize>, ys: Seq<SpecJson>|
                        #[trigger] object_run(locale, SpecJson::Null, Seq::empty(), obj@, lo, order, ys, r0, data0);
                    assert(r0 is Ok);
                    let u: () = r0->Ok_0;
                    assert(r0 == Ok::<(), GenError>(u));
                    assert(u == ());
                    assert(unit_result(Ok::<JsonValue, GenError>(v)) == r0);
                    assert(result_data(Ok::<JsonValue, GenError>(v)) == data0);
                    assert(object_run(locale, SpecJson::Null, Seq::empty(), obj@, lo, order, ys,
                        unit_result(Ok::<JsonValue, GenError>(v)), result_data(Ok::<JsonValue, GenError>(v))));
                }
            }
            Ok(v)
        },
        Err(e) => {
            proof {
                if let Declaration::Object(obj) = decl {
                    let (order, ys) = choose|order: Seq<usize>, ys: Seq<SpecJson>|
                        #[trigger] object_run(locale, SpecJson::Null, Seq::empty(), obj@, lo, order, ys, r0, data0);
                    assert(unit_result(Err::<JsonValue, GenError>(e)) == r0);
                    assert(object_run(locale, SpecJson::Null, Seq::empty(), obj@, lo, order, ys,
                        unit_result(Err::<JsonValue, GenError>(e)), result_data(Err::<JsonValue, GenError>(e))));
                }
            }
            Err(e)
        },
    };
    out
}

} // verus!
