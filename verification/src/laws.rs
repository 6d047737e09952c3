//! Properties that relate several operations of the library.

use vstd::prelude::*;
use crate::pointer::{lcp_len, is_common_prefix_len, lemma_lcp_len_unique, encode_pointer, escape_token};
use crate::inspect::{
    FieldName, spec_find_ref_parts, is_level_order, split_chars, spec_ref_to_pointer, lemma_split_chars_nonempty,
    RefSite, level_edges, refs_ok, site_parts, SpecRefError, decl_refs, converts,
};
use crate::parse::{
    InputDeclaration, InputUtil, ShorthandUtil, UtilForm, spec_parse_util, is_ref_pattern, ref_body, is_ident,
    pieces_so_far_ok,
};
use crate::utils::{zipped, padded, somes};
use crate::json::{
    lemma_first_index_bound, SpecJson, resolve, set_at, assignable, lemma_resolve_below, lemma_member_kept,
    lemma_set_at_keeps_member, lemma_set_at_obj, lemma_resolve_set_at,
};
use crate::generate::{
    is_generation_order, field_key, lex_before, object_run, object_trace, trace_step, field_value, field_names,
    ref_target, Declaration, Util, GenError, Locale, first_names, last_names,
};

verus! {

/// The intersection of two pointers does not depend on their order, and is a
/// prefix of both (so stripping it from either succeeds).
pub proof fn law_intersection(a: Seq<Seq<char>>, b: Seq<Seq<char>>)
    ensures
        lcp_len(a, b) == lcp_len(b, a),
        a.take(lcp_len(a, b) as int) == b.take(lcp_len(b, a) as int),
        a.take(lcp_len(a, b) as int).is_prefix_of(a),
        a.take(lcp_len(a, b) as int).is_prefix_of(b),
{
    lemma_lcp_props(a, b);
    lemma_lcp_props(b, a);
    let n = lcp_len(a, b) as int;
    assert(is_common_prefix_len(b, a, n));
    lemma_lcp_len_unique(b, a, n);
    assert(a.take(n).take(n) =~= a.take(n));
}

/// `lcp_len` has the common-prefix property.
proof fn lemma_lcp_props(a: Seq<Seq<char>>, b: Seq<Seq<char>>)
    ensures
        is_common_prefix_len(a, b, lcp_len(a, b) as int),
    decreases a.len(),
{
    if !(a.len() == 0 || b.len() == 0 || a[0] != b[0]) {
        lemma_lcp_props(a.drop_first(), b.drop_first());
        let n = lcp_len(a, b) as int;
        assert(a.take(n) =~= seq![a[0]] + a.drop_first().take(n - 1));
        assert(b.take(n) =~= seq![b[0]] + b.drop_first().take(n - 1));
        if n < a.len() && n < b.len() {
            assert(a[n] == a.drop_first()[n - 1]);
            assert(b[n] == b.drop_first()[n - 1]);
        }
    } else {
        assert(a.take(0) =~= b.take(0));
    }
}

/// A placed reference relates two fields of one level: the field that holds
/// it, which with the level forms a prefix of the current path, and the field
/// it names, one token each. For an absolute reference the level and the
/// named field also form a prefix of the referenced path, and the two fields
/// differ; for a relative one the level and the holding field are the whole
/// current path.
pub proof fn law_ref_parts(current: Seq<Seq<char>>, pat: Seq<Seq<char>>, relative: bool)
    requires
        relative ==> current.len() > 0 && pat.len() > 0,
        spec_find_ref_parts(current, pat, relative) is Ok,
    ensures
        ({
            let (level, pointing, pointed) = spec_find_ref_parts(current, pat, relative)->Ok_0;
            &&& pointing.len() == 1
            &&& pointed.len() == 1
            &&& (level + pointing).is_prefix_of(current)
            &&& relative ==> level + pointing == current && pointed[0] == pat[0]
            &&& !relative ==> (level + pointed).is_prefix_of(pat) && pointing != pointed
        }),
{
    let (level, pointing, pointed) = spec_find_ref_parts(current, pat, relative)->Ok_0;
    if relative {
        assert(current.drop_last() + seq![current.last()] =~= current);
    } else {
        lemma_lcp_props(current, pat);
        let n = lcp_len(current, pat) as int;
        assert((level + pointing) =~= current.take(n + 1));
        assert((level + pointed) =~= pat.take(n + 1));
        assert(pointing[0] != pointed[0]);
    }
}

/// A field is generated after every field it depends on: when the level
/// order of an object satisfies its dependency graph, the generation order
/// puts the field named by an edge's source before the field named by its
/// target.
pub proof fn law_dependencies_generated_first(
    r: Seq<usize>,
    names: Seq<Seq<char>>,
    ordering: Seq<FieldName>,
    e: Set<(FieldName, FieldName)>,
    a: int,
    b: int,
)
    requires
        is_generation_order(r, names, ordering),
        is_level_order(ordering, e),
        0 <= a < r.len(),
        0 <= b < r.len(),
        e.contains((seq![names[r[a] as int]], seq![names[r[b] as int]])),
    ensures
        a < b,
{
    let u = seq![names[r[a] as int]];
    let v = seq![names[r[b] as int]];
    assert(crate::inspect::is_node_of(e, u));
    assert(crate::inspect::is_node_of(e, v));
    assert(ordering.contains(u));
    assert(ordering.contains(v));
    lemma_first_index_bound(ordering, u);
    lemma_first_index_bound(ordering, v);
    let ku = field_key(names[r[a] as int], ordering);
    let kv = field_key(names[r[b] as int], ordering);
    assert(ordering[ku] == u);
    assert(ordering[kv] == v);
    assert(e.contains((ordering[ku], ordering[kv])));
    assert(ku < kv);
    if b < a {
        assert(lex_before(kv, r[b] as int, ku, r[a] as int));
    } else if a == b {
        assert(ku == kv);
    }
}

/// The object contents in a generation trace are objects.
proof fn lemma_trace_obj(
    loc: Locale,
    g0: SpecJson,
    p: Seq<Seq<char>>,
    obj: Seq<(String, Declaration)>,
    order: Seq<usize>,
    ys: Seq<SpecJson>,
    n: int,
    t: int,
)
    requires
        object_trace(loc, g0, p, obj, order, ys, n),
        0 <= t <= n,
    ensures
        ys[t] is Obj,
    decreases t,
{
    if t > 0 {
        lemma_trace_obj(loc, g0, p, obj, order, ys, n, t - 1);
        assert(trace_step(loc, g0, p, obj, order, ys, t - 1));
        let name = obj[order[t - 1] as int].0@;
        let v = choose|v: SpecJson|
            field_value(loc, p, name, obj[order[t - 1] as int].1, set_at(g0, p, ys[t - 1]), v) && ys[t]
                == #[trigger] set_at(ys[t - 1], seq![name], v);
        lemma_set_at_obj(ys[t - 1], seq![name], v);
    }
}

/// A member of the contents stays as it is over turns that write other fields.
proof fn lemma_trace_member(
    loc: Locale,
    g0: SpecJson,
    p: Seq<Seq<char>>,
    obj: Seq<(String, Declaration)>,
    order: Seq<usize>,
    ys: Seq<SpecJson>,
    n: int,
    m: Seq<char>,
    t1: int,
    t2: int,
)
    requires
        object_trace(loc, g0, p, obj, order, ys, n),
        0 <= t1 <= t2 <= n,
        forall|t: int| t1 <= t < t2 ==> obj[#[trigger] order[t] as int].0@ != m,
    ensures
        resolve(ys[t2], seq![m]) == resolve(ys[t1], seq![m]),
    decreases t2 - t1,
{
    if t2 > t1 {
        lemma_trace_member(loc, g0, p, obj, order, ys, n, m, t1, t2 - 1);
        lemma_trace_obj(loc, g0, p, obj, order, ys, n, t2 - 1);
        assert(trace_step(loc, g0, p, obj, order, ys, t2 - 1));
        let name = obj[order[t2 - 1] as int].0@;
        let v = choose|v: SpecJson|
            field_value(loc, p, name, obj[order[t2 - 1] as int].1, set_at(g0, p, ys[t2 - 1]), v) && ys[t2]
                == #[trigger] set_at(ys[t2 - 1], seq![name], v);
        lemma_member_kept(ys[t2 - 1], m, name, v);
    }
}

/// A member present in the contents was written by an earlier turn.
proof fn lemma_trace_written(
    loc: Locale,
    g0: SpecJson,
    p: Seq<Seq<char>>,
    obj: Seq<(String, Declaration)>,
    order: Seq<usize>,
    ys: Seq<SpecJson>,
    n: int,
    m: Seq<char>,
    t: int,
)
    requires
        object_trace(loc, g0, p, obj, order, ys, n),
        0 <= t <= n,
        resolve(ys[t], seq![m]) is Some,
    ensures
        exists|ta: int| 0 <= ta < t && obj[#[trigger] order[ta] as int].0@ == m,
    decreases t,
{
    if t == 0 {
        assert(resolve(ys[0], seq![m]) is None);
    } else {
        let name = obj[order[t - 1] as int].0@;
        if name == m {
            assert(obj[order[t - 1] as int].0@ == m);
        } else {
            lemma_trace_member(loc, g0, p, obj, order, ys, n, m, t - 1, t);
            lemma_trace_written(loc, g0, p, obj, order, ys, n, m, t - 1);
            let ta = choose|ta: int| 0 <= ta < t - 1 && obj[#[trigger] order[ta] as int].0@ == m;
            assert(obj[order[ta] as int].0@ == m);
        }
    }
}

/// A reference copies a field generated before it: in a successful run of
/// generating an object whose field names are distinct, a reference field
/// whose target is a sibling field ends holding the sibling's value, and the
/// sibling was generated at an earlier turn.
pub proof fn law_reference_copies_earlier_field(
    loc: Locale,
    g0: SpecJson,
    p: Seq<Seq<char>>,
    obj: Seq<(String, Declaration)>,
    ordering: Seq<FieldName>,
    order: Seq<usize>,
    ys: Seq<SpecJson>,
    data: SpecJson,
    tb: int,
    xa: int,
)
    requires
        assignable(g0, p),
        object_run(loc, g0, p, obj, ordering, order, ys, Ok::<(), GenError>(()), data),
        field_names(obj).no_duplicates(),
        0 <= tb < order.len(),
        0 <= xa < obj.len(),
        obj[order[tb] as int].1 matches Declaration::Util(Util::Ref { pattern, relative })
            && ref_target(p.push(obj[order[tb] as int].0@), pattern@, relative) == p.push(obj[xa].0@),
    ensures
        exists|ta: int| 0 <= ta < tb && order[ta] == xa,
        resolve(data, p.push(obj[xa].0@)) is Some,
        resolve(data, p.push(obj[order[tb] as int].0@)) == resolve(data, p.push(obj[xa].0@)),
{
    let n = order.len() as int;
    let names = field_names(obj);
    let xb = order[tb] as int;
    let na = obj[xa].0@;
    let nb = obj[xb].0@;
    assert(names.len() == obj.len());
    assert(xb < obj.len());
    assert(trace_step(loc, g0, p, obj, order, ys, tb));
    let v = choose|v: SpecJson|
        field_value(loc, p, nb, obj[xb].1, set_at(g0, p, ys[tb]), v) && ys[tb + 1] == #[trigger] set_at(
            ys[tb],
            seq![nb],
            v,
        );
    assert(p.push(na) =~= p + seq![na]);
    assert(p.push(nb) =~= p + seq![nb]);
    lemma_resolve_below(g0, p, ys[tb], seq![na]);
    assert(resolve(ys[tb], seq![na]) == Some(v));
    lemma_trace_written(loc, g0, p, obj, order, ys, n, na, tb);
    let ta = choose|ta: int| 0 <= ta < tb && obj[#[trigger] order[ta] as int].0@ == na;
    assert(order[ta] < obj.len());
    assert(names[order[ta] as int] == names[xa]);
    assert(order[ta] as int == xa);
    assert(lex_before(
        field_key(names[order[ta] as int], ordering),
        order[ta] as int,
        field_key(names[order[tb] as int], ordering),
        order[tb] as int,
    ));
    assert(xa != xb);
    assert(names[xa] != names[xb]);
    lemma_trace_obj(loc, g0, p, obj, order, ys, n, tb);
    lemma_member_kept(ys[tb], na, nb, v);
    lemma_set_at_keeps_member(ys[tb], na, nb, v);
    assert forall|t: int| tb + 1 <= t < n implies obj[#[trigger] order[t] as int].0@ != na by {
        assert(order[t] < obj.len());
        assert(lex_before(
            field_key(names[order[ta] as int], ordering),
            order[ta] as int,
            field_key(names[order[t] as int], ordering),
            order[t] as int,
        ));
        assert(names[order[t] as int] == obj[order[t] as int].0@);
    }
    assert forall|t: int| tb + 1 <= t < n implies obj[#[trigger] order[t] as int].0@ != nb by {
        assert(order[t] < obj.len());
        assert(lex_before(
            field_key(names[order[tb] as int], ordering),
            order[tb] as int,
            field_key(names[order[t] as int], ordering),
            order[t] as int,
        ));
        assert(names[order[t] as int] == obj[order[t] as int].0@);
    }
    lemma_trace_member(loc, g0, p, obj, order, ys, n, na, tb + 1, n);
    lemma_trace_member(loc, g0, p, obj, order, ys, n, nb, tb + 1, n);
    assert(ys.last() == ys[n]);
    lemma_resolve_below(g0, p, ys[n], seq![na]);
    lemma_resolve_below(g0, p, ys[n], seq![nb]);
}

/// A reference given twice orders its level no more than given once: the
/// dependency edges of every level are the same, and so is whether the
/// references can be placed.
pub proof fn law_repeated_reference(refs: Seq<RefSite>, s: RefSite)
    ensures
        forall|level: Seq<Seq<char>>|
            #[trigger] level_edges(refs.push(s).push(s), level) == level_edges(refs.push(s), level),
        refs_ok(refs.push(s).push(s)) == refs_ok(refs.push(s)),
{
    let r1 = refs.push(s);
    let r2 = r1.push(s);
    assert forall|level: Seq<Seq<char>>|
        #[trigger] level_edges(r2, level) == level_edges(r1, level) by {
        assert forall|e: (FieldName, FieldName)| level_edges(r2, level).contains(e) <==> level_edges(r1, level).contains(e) by {
            if level_edges(r2, level).contains(e) {
                let j = choose|j: int| 0 <= j < r2.len() && #[trigger] site_parts(r2[j]) == Ok::<
                    (Seq<Seq<char>>, FieldName, FieldName),
                    SpecRefError,
                >((level, e.1, e.0));
                if j < r1.len() {
                    assert(site_parts(r1[j]) == site_parts(r2[j]));
                } else {
                    assert(site_parts(r1[refs.len() as int]) == site_parts(r2[j]));
                }
            }
            if level_edges(r1, level).contains(e) {
                let j = choose|j: int| 0 <= j < r1.len() && #[trigger] site_parts(r1[j]) == Ok::<
                    (Seq<Seq<char>>, FieldName, FieldName),
                    SpecRefError,
                >((level, e.1, e.0));
                assert(site_parts(r2[j]) == site_parts(r1[j]));
            }
        }
        assert(level_edges(r2, level) =~= level_edges(r1, level));
    }
    if refs_ok(r1) {
        assert forall|j: int| 0 <= j < r2.len() implies #[trigger] site_parts(r2[j]) is Ok by {
            if j < r1.len() {
                assert(site_parts(r1[j]) is Ok);
            } else {
                assert(site_parts(r1[refs.len() as int]) is Ok);
            }
        }
        assert forall|level: Seq<Seq<char>>| #[trigger] crate::graph::is_acyclic(level_edges(r2, level)) by {
            assert(level_edges(r2, level) == level_edges(r1, level));
        }
    }
    if refs_ok(r2) {
        assert forall|j: int| 0 <= j < r1.len() implies #[trigger] site_parts(r1[j]) is Ok by {
            assert(site_parts(r2[j]) is Ok);
        }
        assert forall|level: Seq<Seq<char>>| #[trigger] crate::graph::is_acyclic(level_edges(r1, level)) by {
            assert(level_edges(r2, level) == level_edges(r1, level));
        }
    }
}

/// A utility written in its short form is inspected as its long form: the
/// two declarations hold the same references and convert to the same
/// declarations, which is all that inspection states of a declaration.
pub proof fn law_util_forms(u: InputUtil, path: Seq<Seq<char>>, d: crate::generate::Declaration)
    ensures
        decl_refs(InputDeclaration::ShorthandUtil(ShorthandUtil(u)), path) == decl_refs(
            InputDeclaration::LonghandUtil(u),
            path,
        ),
        converts(d, InputDeclaration::ShorthandUtil(ShorthandUtil(u))) == converts(
            d,
            InputDeclaration::LonghandUtil(u),
        ),
{
}

/// Padding `s` to length `n` and keeping the `Some` values gives back the
/// first `n` elements of `s`.
proof fn lemma_somes_padded<T>(s: Seq<T>, n: nat)
    ensures
        somes(Seq::new(n, |i: int| padded(s, i))) == s.take(if n <= s.len() { n as int } else { s.len() as int }),
    decreases n,
{
    let q = Seq::new(n, |i: int| padded(s, i));
    if n == 0 {
        assert(s.take(0) =~= Seq::<T>::empty());
    } else {
        let m = (n - 1) as nat;
        lemma_somes_padded(s, m);
        assert(q.drop_last() =~= Seq::new(m, |i: int| padded(s, i)));
        if m < s.len() {
            assert(s.take(m as int + 1) =~= s.take(m as int).push(s[m as int]));
        }
    }
}

/// Zipping to the longer length loses nothing and invents nothing: keeping
/// the `Some` values of either side gives back that side, no pair is empty on
/// both sides, and on each side every present element comes before every
/// missing one.
pub proof fn law_zip_longest_projections<A, B>(l: Seq<A>, r: Seq<B>)
    ensures
        somes(zipped(l, r).map_values(|p: (Option<A>, Option<B>)| p.0)) == l,
        somes(zipped(l, r).map_values(|p: (Option<A>, Option<B>)| p.1)) == r,
        forall|i: int| 0 <= i < zipped(l, r).len() ==> !(#[trigger] zipped(l, r)[i].0 is None && zipped(l, r)[i].1 is None),
        forall|i: int, j: int|
            0 <= i < j < zipped(l, r).len() && (#[trigger] zipped(l, r)[j]).0 is Some ==> (#[trigger] zipped(l, r)[i]).0 is Some,
        forall|i: int, j: int|
            0 <= i < j < zipped(l, r).len() && (#[trigger] zipped(l, r)[j]).1 is Some ==> (#[trigger] zipped(l, r)[i]).1 is Some,
{
    let z = zipped(l, r);
    let n = z.len();
    lemma_somes_padded(l, n);
    lemma_somes_padded(r, n);
    assert(z.map_values(|p: (Option<A>, Option<B>)| p.0) =~= Seq::new(n, |i: int| padded(l, i)));
    assert(z.map_values(|p: (Option<A>, Option<B>)| p.1) =~= Seq::new(n, |i: int| padded(r, i)));
    assert(l.take(l.len() as int) =~= l);
    assert(r.take(r.len() as int) =~= r);
}

/// An absolute reference is placed exactly when neither path is a prefix of
/// the other, and then at the longest common prefix of the two paths: the
/// level is that prefix, the holding field and the named field are the first
/// tokens after it, which differ. A reference to its own path is refused as
/// pointing to itself.
pub proof fn law_absolute_placement(current: Seq<Seq<char>>, pat: Seq<Seq<char>>)
    ensures
        (spec_find_ref_parts(current, pat, false) is Ok) <==> !(current.is_prefix_of(pat) || pat.is_prefix_of(current)),
        (spec_find_ref_parts(current, pat, false) matches Err(SpecRefError::PointingToItself(c, q))) <==> current == pat,
        spec_find_ref_parts(current, pat, false) matches Err(e) ==> (e matches SpecRefError::PointingToItself(c, q)
            && c == current && q == pat) || (e matches SpecRefError::Unrelated(c, q) && c == current && q == pat),
        spec_find_ref_parts(current, pat, false) matches Ok((level, a, b)) ==> {
            &&& level.is_prefix_of(current)
            &&& level.is_prefix_of(pat)
            &&& level.len() < current.len()
            &&& level.len() < pat.len()
            &&& current[level.len() as int] != pat[level.len() as int]
            &&& a == seq![current[level.len() as int]]
            &&& b == seq![pat[level.len() as int]]
        },
{
    lemma_lcp_props(current, pat);
    let n = lcp_len(current, pat) as int;
    if n == current.len() {
        assert(current.take(n) =~= current);
        assert(current.is_prefix_of(pat));
    }
    if n == pat.len() {
        assert(pat.take(n) =~= pat);
        assert(pat.is_prefix_of(current));
    }
    if n == current.len() && n == pat.len() {
        assert(current =~= pat);
    }
    if n < current.len() && n < pat.len() {
        assert(current[n] != pat[n]);
        if current.is_prefix_of(pat) {
            assert(current[n] == pat.take(current.len() as int)[n]);
        }
        if pat.is_prefix_of(current) {
            assert(pat[n] == current.take(pat.len() as int)[n]);
        }
        assert(current != pat);
    }
    if current == pat {
        if n < current.len() {
            assert(current[n] == pat[n]);
        }
    }
}

/// A reference utility, at any path, is the one reference site of its
/// declaration, in either written form; a name has none.
pub proof fn law_util_sites(u: InputUtil, path: Seq<Seq<char>>)
    ensures
        u matches InputUtil::Ref { pattern } ==> decl_refs(InputDeclaration::LonghandUtil(u), path) == seq![(path, pattern@)]
            && decl_refs(InputDeclaration::ShorthandUtil(ShorthandUtil(u)), path) == seq![(path, pattern@)],
        !(u is Ref) ==> decl_refs(InputDeclaration::LonghandUtil(u), path).len() == 0
            && decl_refs(InputDeclaration::ShorthandUtil(ShorthandUtil(u)), path).len() == 0,
{
}

/// `x` is a reference site of one of the fields of an object at `path`.
pub open spec fn site_of_a_field(fields: Seq<(String, InputDeclaration)>, path: Seq<Seq<char>>, x: RefSite) -> bool {
    exists|k: int| 0 <= k < fields.len() && #[trigger] decl_refs(fields[k].1, path.push(fields[k].0@)).contains(x)
}

/// The reference sites of an object are those of its fields, each field taken
/// at the object's path extended by the field's name: every site of a field
/// is a site of the object, and every site of the object is a site of one of
/// its fields.
pub proof fn law_object_sites(fields: Seq<(String, InputDeclaration)>, path: Seq<Seq<char>>)
    ensures
        forall|k: int, j: int|
            0 <= k < fields.len() && 0 <= j < decl_refs(fields[k].1, path.push(fields[k].0@)).len()
                ==> crate::inspect::fields_refs(fields, path).contains(
                #[trigger] decl_refs(fields[k].1, path.push(fields[k].0@))[j],
            ),
        forall|j: int|
            0 <= j < crate::inspect::fields_refs(fields, path).len() ==> site_of_a_field(
                fields,
                path,
                #[trigger] crate::inspect::fields_refs(fields, path)[j],
            ),
    decreases fields.len(),
{
    if fields.len() > 0 {
        let init = fields.drop_last();
        law_object_sites(init, path);
        let a = crate::inspect::fields_refs(init, path);
        let last = fields.last();
        let b = decl_refs(last.1, path.push(last.0@));
        let all = crate::inspect::fields_refs(fields, path);
        assert(all == a + b);
        assert forall|k: int, j: int|
            0 <= k < fields.len() && 0 <= j < decl_refs(fields[k].1, path.push(fields[k].0@)).len()
                implies all.contains(#[trigger] decl_refs(fields[k].1, path.push(fields[k].0@))[j]) by {
            let x = decl_refs(fields[k].1, path.push(fields[k].0@))[j];
            if k < init.len() {
                assert(init[k] == fields[k]);
                assert(a.contains(x));
                let i = choose|i: int| 0 <= i < a.len() && a[i] == x;
                assert(all[i] == x);
            } else {
                assert(all[a.len() + j] == x);
            }
        }
        assert forall|j: int|
            0 <= j < all.len() implies site_of_a_field(fields, path, #[trigger] all[j]) by {
            if j < a.len() {
                assert(all[j] == a[j]);
                assert(site_of_a_field(init, path, a[j]));
                let k = choose|k: int|
                    0 <= k < init.len() && #[trigger] decl_refs(init[k].1, path.push(init[k].0@)).contains(a[j]);
                assert(init[k] == fields[k]);
                assert(decl_refs(fields[k].1, path.push(fields[k].0@)).contains(all[j]));
            } else {
                assert(all[j] == b[j - a.len()]);
                assert(b.contains(all[j]));
                let k = fields.len() - 1;
                assert(fields[k] == last);
                assert(decl_refs(fields[k].1, path.push(fields[k].0@)).contains(all[j]));
            }
        }
        assert(all == crate::inspect::fields_refs(fields, path));
    } else {
        assert(crate::inspect::fields_refs(fields, path).len() == 0);
    }
}

/// Every name field of a generated object holds a name of its kind in the
/// locale asked for: in a successful run over an object with distinct field
/// names, a `FirstName` field ends holding a non-empty first name of `loc`,
/// and a `LastName` field a non-empty last name of `loc`.
pub proof fn law_names_from_locale(
    loc: Locale,
    g0: SpecJson,
    p: Seq<Seq<char>>,
    obj: Seq<(String, Declaration)>,
    ordering: Seq<FieldName>,
    order: Seq<usize>,
    ys: Seq<SpecJson>,
    data: SpecJson,
    x: usize,
)
    requires
        assignable(g0, p),
        object_run(loc, g0, p, obj, ordering, order, ys, Ok::<(), GenError>(()), data),
        field_names(obj).no_duplicates(),
        x < obj.len(),
    ensures
        obj[x as int].1 matches Declaration::Util(Util::FirstName) ==> resolve(data, p.push(obj[x as int].0@)) matches Some(
            SpecJson::Str(s),
        ) && first_names(loc).contains(s) && s.len() > 0,
        obj[x as int].1 matches Declaration::Util(Util::LastName) ==> resolve(data, p.push(obj[x as int].0@)) matches Some(
            SpecJson::Str(s),
        ) && last_names(loc).contains(s) && s.len() > 0,
{
    let n = order.len() as int;
    let names = field_names(obj);
    let nx = obj[x as int].0@;
    assert(names.len() == obj.len());
    assert(order.contains((x as int) as usize));
    let ta = choose|ta: int| 0 <= ta < order.len() && order[ta] == x;
    assert(trace_step(loc, g0, p, obj, order, ys, ta));
    let v = choose|v: SpecJson|
        field_value(loc, p, nx, obj[x as int].1, set_at(g0, p, ys[ta]), v) && ys[ta + 1] == #[trigger] set_at(
            ys[ta],
            seq![nx],
            v,
        );
    lemma_trace_obj(loc, g0, p, obj, order, ys, n, ta);
    assert(seq![nx].drop_last() =~= Seq::<Seq<char>>::empty());
    lemma_resolve_set_at(ys[ta], seq![nx], v);
    assert forall|t: int| ta + 1 <= t < n implies obj[#[trigger] order[t] as int].0@ != nx by {
        assert(order[t] < obj.len());
        assert(lex_before(
            field_key(names[order[ta] as int], ordering),
            order[ta] as int,
            field_key(names[order[t] as int], ordering),
            order[t] as int,
        ));
        assert(names[order[t] as int] == obj[order[t] as int].0@);
        assert(names[x as int] == nx);
    }
    lemma_trace_member(loc, g0, p, obj, order, ys, n, nx, ta + 1, n);
    assert(ys.last() == ys[n]);
    assert(p.push(nx) =~= p + seq![nx]);
    lemma_resolve_below(g0, p, ys[n], seq![nx]);
    assert(resolve(data, p.push(nx)) == Some(v));
    match obj[x as int].1 {
        Declaration::Util(Util::FirstName) => {
            assert(v matches SpecJson::Str(s) && crate::generate::is_fake_name(loc, Util::FirstName, s));
        },
        Declaration::Util(Util::LastName) => {
            assert(v matches SpecJson::Str(s) && crate::generate::is_fake_name(loc, Util::LastName, s));
        },
        _ => {},
    }
}

/// An ASCII letter or `_`.
pub open spec fn letter_or_underscore(c: char) -> bool {
    ('a' <= c && c <= 'z') || ('A' <= c && c <= 'Z') || c == '_'
}

/// An ASCII letter, an ASCII digit or `_`.
pub open spec fn word_char(c: char) -> bool {
    letter_or_underscore(c) || ('0' <= c && c <= '9')
}

/// Character by character, `t` is made of word characters and `/`, with no
/// `/` first or twice in a row, and a letter or `_` first and after each `/`.
pub open spec fn slashed_words_so_far(t: Seq<char>) -> bool {
    forall|i: int|
        0 <= i < t.len() ==> if #[trigger] t[i] == '/' {
            i > 0 && t[i - 1] != '/'
        } else {
            word_char(t[i]) && ((i == 0 || t[i - 1] == '/') ==> letter_or_underscore(t[i]))
        }
}

/// A reference written as words separated by `/`, each a letter or `_`
/// followed by word characters, with an optional leading `/`.
pub open spec fn slashed_words(s: Seq<char>) -> bool {
    let t = if s.len() > 0 && s[0] == '/' { s.drop_first() } else { s };
    &&& t.len() > 0
    &&& t[t.len() - 1] != '/'
    &&& slashed_words_so_far(t)
}

/// The last piece of `t` split at `/` is empty exactly when `t` is empty or
/// ends with `/`.
proof fn lemma_last_piece_empty(t: Seq<char>)
    ensures
        split_chars(t, '/').last().len() == 0 <==> (t.len() == 0 || t.last() == '/'),
{
    if t.len() > 0 {
        lemma_split_chars_nonempty(t.drop_last(), '/');
    }
}

/// The character-by-character condition at the last position of `t`.
pub open spec fn last_char_ok(t: Seq<char>) -> bool {
    let i = t.len() - 1;
    if t[i] == '/' {
        i > 0 && t[i - 1] != '/'
    } else {
        word_char(t[i]) && ((i == 0 || t[i - 1] == '/') ==> letter_or_underscore(t[i]))
    }
}

/// The character condition over `t` is that over `t` without its last
/// character, and the condition at the last one.
proof fn lemma_local_step(t: Seq<char>)
    requires
        t.len() > 0,
    ensures
        slashed_words_so_far(t) <==> slashed_words_so_far(t.drop_last()) && last_char_ok(t),
{
    let t0 = t.drop_last();
    if slashed_words_so_far(t) {
        assert(t[t.len() - 1] == t[t.len() - 1]);
        assert forall|i: int| 0 <= i < t0.len() implies (if #[trigger] t0[i] == '/' {
            i > 0 && t0[i - 1] != '/'
        } else {
            word_char(t0[i]) && ((i == 0 || t0[i - 1] == '/') ==> letter_or_underscore(t0[i]))
        }) by {
            assert(t0[i] == t[i]);
            if i > 0 {
                assert(t0[i - 1] == t[i - 1]);
            }
        }
    }
    if slashed_words_so_far(t0) && last_char_ok(t) {
        assert forall|i: int| 0 <= i < t.len() implies (if #[trigger] t[i] == '/' {
            i > 0 && t[i - 1] != '/'
        } else {
            word_char(t[i]) && ((i == 0 || t[i - 1] == '/') ==> letter_or_underscore(t[i]))
        }) by {
            if i < t0.len() {
                assert(t0[i] == t[i]);
                if i > 0 {
                    assert(t0[i - 1] == t[i - 1]);
                }
            }
        }
    }
}

/// Adding a `/` keeps the pieces identifiers exactly when the piece it ends
/// is a non-empty identifier.
proof fn lemma_pieces_slash(t: Seq<char>)
    requires
        t.len() > 0,
        t.last() == '/',
        pieces_so_far_ok(t.drop_last()) <==> slashed_words_so_far(t.drop_last()),
    ensures
        pieces_so_far_ok(t) <==> slashed_words_so_far(t),
{
    let t0 = t.drop_last();
    lemma_local_step(t);
    lemma_last_piece_empty(t0);
    lemma_split_chars_nonempty(t0, '/');
    let p0 = split_chars(t0, '/');
    let p = split_chars(t, '/');
    assert(p == p0.push(Seq::<char>::empty()));
    assert forall|k: int| 0 <= k < p.len() - 1 implies #[trigger] p[k] == p0[k] by {}
    if t0.len() > 0 {
        assert(t[t.len() - 2] == t0.last());
    }
    if pieces_so_far_ok(t) {
        assert(is_ident(p[p0.len() - 1]));
        assert forall|k: int| 0 <= k < p0.len() - 1 implies is_ident(#[trigger] p0[k]) by {
            assert(is_ident(p[k]));
        }
    }
    if pieces_so_far_ok(t0) && last_char_ok(t) {
        assert forall|k: int| 0 <= k < p.len() - 1 implies is_ident(#[trigger] p[k]) by {
            assert(p[k] == p0[k]);
        }
    }
}

/// Adding a character other than `/` keeps the pieces identifiers exactly
/// when it may continue (or, after a `/` or at the start, begin) a word.
proof fn lemma_pieces_word(t: Seq<char>)
    requires
        t.len() > 0,
        t.last() != '/',
        pieces_so_far_ok(t.drop_last()) <==> slashed_words_so_far(t.drop_last()),
    ensures
        pieces_so_far_ok(t) <==> slashed_words_so_far(t),
{
    let t0 = t.drop_last();
    let c = t.last();
    lemma_local_step(t);
    lemma_last_piece_empty(t0);
    lemma_split_chars_nonempty(t0, '/');
    let p0 = split_chars(t0, '/');
    let p = split_chars(t, '/');
    let l0 = p0.last();
    let l = l0.push(c);
    assert(p == p0.update(p0.len() - 1, l));
    assert(p.last() == l);
    assert forall|k: int| 0 <= k < p.len() - 1 implies #[trigger] p[k] == p0[k] by {}
    if t0.len() > 0 {
        assert(t[t.len() - 2] == t0.last());
    }
    assert(t[t.len() - 1] == c);
    assert(is_ident(l) <==> (if l0.len() == 0 {
        letter_or_underscore(c)
    } else {
        is_ident(l0) && word_char(c)
    })) by {
        if l0.len() == 0 {
            assert(l =~= seq![c]);
        } else {
            assert(l[0] == l0[0]);
            if is_ident(l) {
                assert forall|j: int| 1 <= j < l0.len() implies crate::parse::is_ident_char(#[trigger] l0[j]) by {
                    assert(l[j] == l0[j]);
                }
                assert(l[l.len() - 1] == c);
            }
            if is_ident(l0) && word_char(c) {
                assert forall|j: int| 1 <= j < l.len() implies crate::parse::is_ident_char(#[trigger] l[j]) by {
                    if j < l0.len() {
                        assert(l[j] == l0[j]);
                    }
                }
            }
        }
    }
    if pieces_so_far_ok(t) {
        assert forall|k: int| 0 <= k < p0.len() - 1 implies is_ident(#[trigger] p0[k]) by {
            assert(is_ident(p[k]));
        }
    }
    if pieces_so_far_ok(t0) && last_char_ok(t) {
        assert forall|k: int| 0 <= k < p.len() - 1 implies is_ident(#[trigger] p[k]) by {
            assert(p[k] == p0[k]);
        }
    }
}

/// The pieces read so far are identifiers exactly when the text is, character
/// by character, words separated by single `/`.
proof fn lemma_pieces_local(t: Seq<char>)
    ensures
        pieces_so_far_ok(t) <==> slashed_words_so_far(t),
    decreases t.len(),
{
    if t.len() == 0 {
        assert(split_chars(t, '/') =~= seq![Seq::<char>::empty()]);
    } else {
        lemma_pieces_local(t.drop_last());
        if t.last() == '/' {
            lemma_pieces_slash(t);
        } else {
            lemma_pieces_word(t);
        }
    }
}

/// The shorthand grammar of references: a text that does not begin with
/// `FirstName` or `LastName` is read as a reference to itself exactly when it
/// is words separated by single `/`, each a letter or `_` followed by
/// letters, digits and `_`, with an optional leading `/`; and `FirstName` and
/// `LastName` are read as the names.
pub proof fn law_reference_grammar(s: Seq<char>)
    ensures
        !"FirstName"@.is_prefix_of(s) && !"LastName"@.is_prefix_of(s) ==> (spec_parse_util(s) == Some(
            UtilForm::Ref(s),
        ) <==> slashed_words(s)),
        !"FirstName"@.is_prefix_of(s) && !"LastName"@.is_prefix_of(s) ==> (spec_parse_util(s) is None
            <==> !slashed_words(s)),
        spec_parse_util("FirstName"@) == Some(UtilForm::FirstName),
        spec_parse_util("LastName"@) == Some(UtilForm::LastName),
{
    let t = ref_body(s);
    assert(t == if s.len() > 0 && s[0] == '/' { s.drop_first() } else { s });
    lemma_pieces_local(t);
    lemma_last_piece_empty(t);
    lemma_split_chars_nonempty(t, '/');
    let p = split_chars(t, '/');
    if is_ref_pattern(s) {
        assert(is_ident(p[p.len() - 1]));
        assert forall|k: int| 0 <= k < p.len() - 1 implies is_ident(#[trigger] p[k]) by {}
        assert(pieces_so_far_ok(t));
        assert(p.last().len() > 0);
        assert(t[t.len() - 1] == t.last());
    }
    if slashed_words(s) {
        assert(t[t.len() - 1] == t.last());
        assert(p.last().len() > 0);
        assert(pieces_so_far_ok(t));
        assert forall|k: int| 0 <= k < p.len() implies is_ident(#[trigger] p[k]) by {}
    }
    reveal_strlit("FirstName");
    reveal_strlit("LastName");
    assert(!"FirstName"@.is_prefix_of("LastName"@)) by {
        assert("LastName"@.len() < "FirstName"@.len());
    }
}

/// A reference to a sibling copies it, written either way: in a successful
/// run over an object at `p` with distinct field names, a field holding the
/// relative pattern `name` of a sibling, or the absolute pattern `p + [name]`,
/// ends holding the sibling's value.
pub proof fn law_sibling_reference(
    loc: Locale,
    g0: SpecJson,
    p: Seq<Seq<char>>,
    obj: Seq<(String, Declaration)>,
    ordering: Seq<FieldName>,
    order: Seq<usize>,
    ys: Seq<SpecJson>,
    data: SpecJson,
    tb: int,
    xa: int,
)
    requires
        assignable(g0, p),
        object_run(loc, g0, p, obj, ordering, order, ys, Ok::<(), GenError>(()), data),
        field_names(obj).no_duplicates(),
        0 <= tb < order.len(),
        0 <= xa < obj.len(),
        obj[order[tb] as int].1 matches Declaration::Util(Util::Ref { pattern, relative }) && (if relative {
            pattern@ == seq![obj[xa].0@]
        } else {
            pattern@ == p.push(obj[xa].0@)
        }),
    ensures
        resolve(data, p.push(obj[xa].0@)) is Some,
        resolve(data, p.push(obj[order[tb] as int].0@)) == resolve(data, p.push(obj[xa].0@)),
{
    let nb = obj[order[tb] as int].0@;
    if let Declaration::Util(Util::Ref { pattern, relative }) = obj[order[tb] as int].1 {
        assert(p.push(nb).drop_last() =~= p);
        assert(p + seq![obj[xa].0@] =~= p.push(obj[xa].0@));
        assert(ref_target(p.push(nb), pattern@, relative) == p.push(obj[xa].0@));
    }
    law_reference_copies_earlier_field(loc, g0, p, obj, ordering, order, ys, data, tb, xa);
}

/// Inspection orders every placed reference: when the level orders `lv`
/// model the references `refs`, the level of each placed reference has an
/// order in which the field it names comes before the field that holds it.
pub proof fn law_levels_order_references(
    lv: Seq<(Seq<Seq<char>>, Seq<FieldName>)>,
    refs: Seq<RefSite>,
    j: int,
)
    requires
        crate::inspect::levels_model(lv, refs),
        0 <= j < refs.len(),
        site_parts(refs[j]) is Ok,
    ensures
        ({
            let (level, pointing, pointed) = site_parts(refs[j])->Ok_0;
            exists|k: int, ia: int, ib: int|
                0 <= k < lv.len() && lv[k].0 == level && 0 <= ib < ia < lv[k].1.len() && #[trigger] lv[k].1[ia]
                    == pointing && #[trigger] lv[k].1[ib] == pointed
        }),
{
    let (level, pointing, pointed) = site_parts(refs[j])->Ok_0;
    assert(crate::inspect::level_listed(lv, site_parts(refs[j])->Ok_0.0));
    let k = choose|k: int| 0 <= k < lv.len() && #[trigger] lv[k].0 == level;
    let e = level_edges(refs, level);
    assert(e.contains((pointed, pointing)));
    let o = lv[k].1;
    assert(crate::inspect::is_level_order(o, level_edges(refs, lv[k].0)));
    assert(crate::inspect::is_node_of(e, pointing));
    assert(crate::inspect::is_node_of(e, pointed));
    assert(o.contains(pointing));
    assert(o.contains(pointed));
    let ia = choose|ia: int| 0 <= ia < o.len() && o[ia] == pointing;
    let ib = choose|ib: int| 0 <= ib < o.len() && o[ib] == pointed;
    assert(e.contains((o[ib], o[ia])));
    assert(ib < ia);
}


/// Splitting at `/` and writing the pieces back as a pointer gives the text
/// after a `/`, when the text has no `~`.
proof fn lemma_encode_split(s: Seq<char>)
    requires
        !s.contains('~'),
    ensures
        encode_pointer(split_chars(s, '/')) == seq!['/'] + s,
    decreases s.len(),
{
    if s.len() == 0 {
        assert(split_chars(s, '/') =~= seq![Seq::<char>::empty()]);
        assert(seq![Seq::<char>::empty()].drop_last() =~= Seq::<Seq<char>>::empty());
        assert(seq!['/'] + s =~= seq!['/']);
        assert(encode_pointer(Seq::<Seq<char>>::empty()) =~= Seq::<char>::empty());
        assert(escape_token(Seq::<char>::empty()) =~= Seq::<char>::empty());
        assert(seq![Seq::<char>::empty()].last() == Seq::<char>::empty());
        assert(Seq::<char>::empty() + seq!['/'] + Seq::<char>::empty() =~= seq!['/']);
        assert(encode_pointer(seq![Seq::<char>::empty()]) =~= seq!['/']);
    } else {
        let t = s.drop_last();
        let c = s.last();
        assert(!t.contains('~')) by {
            if t.contains('~') {
                let j = choose|j: int| 0 <= j < t.len() && t[j] == '~';
                assert(s[j] == '~');
            }
        }
        assert(c != '~') by {
            assert(s[s.len() - 1] == c);
        }
        lemma_encode_split(t);
        lemma_split_chars_nonempty(t, '/');
        let r = split_chars(t, '/');
        if c == '/' {
            let r2 = r.push(Seq::<char>::empty());
            assert(r2.drop_last() =~= r);
            assert(escape_token(Seq::<char>::empty()) =~= Seq::<char>::empty());
            assert(seq!['/'] + t + seq!['/'] =~= seq!['/'] + s);
        } else {
            let x = r.last();
            let r2 = r.update(r.len() - 1, x.push(c));
            assert(r2.drop_last() =~= r.drop_last());
            assert(r2.last() == x.push(c));
            assert(x.push(c).drop_last() =~= x);
            assert(escape_token(x.push(c)) == escape_token(x) + seq![c]);
            assert(encode_pointer(r) == encode_pointer(r.drop_last()) + seq!['/'] + escape_token(x));
            assert(seq!['/'] + t + seq![c] =~= seq!['/'] + s);
            assert(encode_pointer(r2) =~= encode_pointer(r.drop_last()) + seq!['/'] + escape_token(x) + seq![c]);
        }
    }
}

/// A text that starts with `/` splits into an empty first piece and more.
proof fn lemma_split_leading_slash(s: Seq<char>)
    requires
        s.len() > 0,
        s[0] == '/',
    ensures
        split_chars(s, '/').len() >= 2,
        split_chars(s, '/')[0] == Seq::<char>::empty(),
    decreases s.len(),
{
    let t = s.drop_last();
    if s.len() == 1 {
        assert(t =~= Seq::<char>::empty());
        assert(split_chars(t, '/') =~= seq![Seq::<char>::empty()]);
    } else {
        assert(t[0] == '/');
        lemma_split_leading_slash(t);
    }
}

/// The string form of pointers joins: `encode(a + b) == encode(a) + encode(b)`.
proof fn lemma_encode_concat(a: Seq<Seq<char>>, b: Seq<Seq<char>>)
    ensures
        encode_pointer(a + b) == encode_pointer(a) + encode_pointer(b),
    decreases b.len(),
{
    if b.len() == 0 {
        assert(a + b =~= a);
        assert(encode_pointer(a) + encode_pointer(b) =~= encode_pointer(a));
    } else {
        assert((a + b).drop_last() =~= a + b.drop_last());
        assert((a + b).last() == b.last());
        lemma_encode_concat(a, b.drop_last());
        assert(encode_pointer(a) + encode_pointer(b) =~= encode_pointer(a) + encode_pointer(b.drop_last()) + seq!['/'] + escape_token(b.last()));
    }
}

/// The string form of the pointer that a reference pattern names is the
/// pattern itself when it is absolute, and the pattern after a `/` when it is
/// relative, provided the pattern holds no `~` (which the string form would
/// write as `~0`).
pub proof fn law_pattern_round_trip(pat: Seq<char>)
    requires
        !pat.contains('~'),
    ensures
        encode_pointer(spec_ref_to_pointer(pat).0) == if spec_ref_to_pointer(pat).1 {
            seq!['/'] + pat
        } else {
            pat
        },
{
    lemma_encode_split(pat);
    if pat.len() > 0 && pat[0] == '/' {
        lemma_split_leading_slash(pat);
        let p = split_chars(pat, '/');
        assert(p =~= seq![p[0]] + p.drop_first());
        lemma_encode_concat(seq![p[0]], p.drop_first());
        assert(seq![p[0]].drop_last() =~= Seq::<Seq<char>>::empty());
        assert(escape_token(p[0]) =~= Seq::<char>::empty());
        assert(encode_pointer(Seq::<Seq<char>>::empty()) =~= Seq::<char>::empty());
        assert(seq![p[0]].last() == p[0]);
        assert(Seq::<char>::empty() + seq!['/'] + Seq::<char>::empty() =~= seq!['/']);
        assert(encode_pointer(seq![p[0]]) =~= seq!['/']);
        assert(seq!['/'] + encode_pointer(p.drop_first()) == seq!['/'] + pat);
        assert(encode_pointer(p.drop_first()) =~= (seq!['/'] + pat).drop_first());
        assert((seq!['/'] + pat).drop_first() =~= pat);
    }
}

} // verus!
