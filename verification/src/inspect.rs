//! Inspection of a declaration: references are resolved into the level they
//! constrain and the two fields of that level they relate.

use vstd::prelude::*;
use crate::pointer::{Pointer, encode_pointer, lcp_len};
use crate::parse::{InputDeclaration, InputUtil};
use crate::generate::{Declaration, Util};
use crate::json::first_index;
use crate::graph::{
    LevelGraph, dag_successors, dag_new, dag_add_node, dag_has_edge, dag_add_edge, dag_toposort,
    is_acyclic, reaches, succ_edges, is_topological_order, lemma_reaches_map, lemma_acyclic_insert,
    lemma_cyclic_insert,
};

verus! {

/// The pieces of `s` between occurrences of `sep`, as `str::split` yields them.
pub open spec fn split_chars(s: Seq<char>, sep: char) -> Seq<Seq<char>>
    decreases s.len(),
{
    if s.len() == 0 {
        seq![Seq::<char>::empty()]
    } else {
        let r = split_chars(s.drop_last(), sep);
        if s.last() == sep {
            r.push(Seq::<char>::empty())
        } else {
            r.update(r.len() - 1, r.last().push(s.last()))
        }
    }
}

/// `split_chars` always yields at least one piece.
pub proof fn lemma_split_chars_nonempty(s: Seq<char>, sep: char)
    ensures
        split_chars(s, sep).len() >= 1,
    decreases s.len(),
{
    if s.len() > 0 {
        lemma_split_chars_nonempty(s.drop_last(), sep);
    }
}

/// Whether a reference pattern is absolute (written with a leading `/`).
pub open spec fn is_absolute_pattern(pat: Seq<char>) -> bool {
    pat.len() > 0 && pat[0] == '/'
}

/// The pointer a pattern names and whether it is relative: an absolute
/// pattern drops the empty piece before its leading `/`.
pub open spec fn spec_ref_to_pointer(pat: Seq<char>) -> (Seq<Seq<char>>, bool) {
    if is_absolute_pattern(pat) {
        (split_chars(pat, '/').drop_first(), false)
    } else {
        (split_chars(pat, '/'), true)
    }
}

/// Splits `s` at every `/`.
fn split_on_slash(s: &str) -> (r: Vec<String>)
    ensures
        r@.map_values(|t: String| t@) == split_chars(s@, '/'),
{
    let n = s.unicode_len();
    let mut toks: Vec<String> = Vec::new();
    let mut start: usize = 0;
    let mut i: usize = 0;
    assert(s@.take(0) =~= Seq::<char>::empty());
    assert(toks@.map_values(|t: String| t@) =~= Seq::<Seq<char>>::empty());
    assert(s@.subrange(0, 0) =~= Seq::<char>::empty());
    assert(split_chars(s@.take(0), '/') =~= toks@.map_values(|t: String| t@).push(
        s@.subrange(0, 0),
    ));
    while i < n
        invariant
            n == s@.len(),
            start <= i <= n,
            split_chars(s@.take(i as int), '/') == toks@.map_values(|t: String| t@).push(
                s@.subrange(start as int, i as int),
            ),
        decreases n - i,
    {
        let c = s.get_char(i);
        let ghost prev = toks@.map_values(|t: String| t@);
        assert(s@.take(i + 1).drop_last() =~= s@.take(i as int));
        assert(s@.take(i + 1).last() == c);
        if c == '/' {
            let piece = s.substring_char(start, i).to_owned();
            toks.push(piece);
            assert(toks@.map_values(|t: String| t@) =~= prev.push(s@.subrange(start as int, i as int)));
            start = i + 1;
            assert(s@.subrange(start as int, start as int) =~= Seq::<char>::empty());
        } else {
            assert(s@.subrange(start as int, i as int).push(c) =~= s@.subrange(start as int, i + 1));
        }
        i = i + 1;
    }
    let last = s.substring_char(start, n).to_owned();
    let ghost prev = toks@.map_values(|t: String| t@);
    toks.push(last);
    assert(toks@.map_values(|t: String| t@) =~= prev.push(s@.subrange(start as int, n as int)));
    assert(s@.take(n as int) =~= s@);
    toks
}

/// The pointer a reference pattern names, and whether the pattern is relative.
pub fn ref_to_pointer(pat: &str) -> (r: (Pointer, bool))
    ensures
        r.0@ == spec_ref_to_pointer(pat@).0,
        r.1 == spec_ref_to_pointer(pat@).1,
{
    let absolute = pat.unicode_len() > 0 && pat.get_char(0) == '/';
    let mut toks = split_on_slash(pat);
    if absolute {
        proof {
            lemma_split_chars_nonempty(pat@, '/');
        }
        let ghost before = toks@.map_values(|t: String| t@);
        toks.remove(0);
        assert(toks@.map_values(|t: String| t@) =~= before.drop_first());
    }
    (Pointer::from_tokens(toks), !absolute)
}


/// Why a reference cannot be placed, as an abstract value.
pub enum SpecRefError {
    /// The reference names the field that holds it.
    PointingToItself(Seq<Seq<char>>, Seq<Seq<char>>),
    /// One of the two paths lies inside the other.
    Unrelated(Seq<Seq<char>>, Seq<Seq<char>>),
}

/// Why a reference cannot be placed: the current path and the referenced path.
#[derive(Debug)]
pub enum RefError {
    /// The reference names the field that holds it.
    PointingToItself { current: Pointer, pattern: Pointer },
    /// One of the two paths lies inside the other.
    Unrelated { current: Pointer, pattern: Pointer },
}

impl View for RefError {
    type V = SpecRefError;

    open spec fn view(&self) -> SpecRefError {
        match self {
            RefError::PointingToItself { current, pattern } => SpecRefError::PointingToItself(
                current@,
                pattern@,
            ),
            RefError::Unrelated { current, pattern } => SpecRefError::Unrelated(
                current@,
                pattern@,
            ),
        }
    }
}

/// The text of an error about a reference from `current` to `pattern`.
pub open spec fn ref_error_text(kind: Seq<char>, current: Seq<Seq<char>>, pattern: Seq<Seq<char>>) -> Seq<char> {
    kind + encode_pointer(current) + " => "@ + encode_pointer(pattern)
}

impl RefError {
    /// The message the error reads as.
    pub fn message(&self) -> (s: String)
        ensures
            s@ == match self@ {
                SpecRefError::PointingToItself(c, p) => ref_error_text("pointing to itself? "@, c, p),
                SpecRefError::Unrelated(c, p) => ref_error_text("this doesn't make sense? "@, c, p),
            },
    {
        let (mut s, current, pattern) = match self {
            RefError::PointingToItself { current, pattern } => (String::from_str("pointing to itself? "), current, pattern),
            RefError::Unrelated { current, pattern } => (String::from_str("this doesn't make sense? "), current, pattern),
        };
        let c = current.to_encoded();
        let p = pattern.to_encoded();
        s.append(c.as_str());
        s.append(" => ");
        s.append(p.as_str());
        s
    }
}

/// Where a reference from `current` to `pat` places its constraint: the level
/// (the path of the object whose fields it orders), the field of that level
/// that holds the reference, and the field of that level it depends on.
pub open spec fn spec_find_ref_parts(current: Seq<Seq<char>>, pat: Seq<Seq<char>>, relative: bool) -> Result<
    (Seq<Seq<char>>, Seq<Seq<char>>, Seq<Seq<char>>),
    SpecRefError,
> {
    if relative {
        Ok((current.drop_last(), seq![current.last()], seq![pat[0]]))
    } else {
        let n = lcp_len(current, pat) as int;
        if n == current.len() && n == pat.len() {
            Err(SpecRefError::PointingToItself(current, pat))
        } else if n == current.len() || n == pat.len() {
            Err(SpecRefError::Unrelated(current, pat))
        } else {
            Ok((current.take(n), seq![current[n]], seq![pat[n]]))
        }
    }
}

/// Places a reference from `current` to `pat` (see `spec_find_ref_parts`).
/// A relative reference is taken from the parent of `current`.
pub fn find_ref_parts(current: &Pointer, pat: &Pointer, relative: bool) -> (r: Result<
    (Pointer, Pointer, Pointer),
    RefError,
>)
    requires
        relative ==> current@.len() > 0 && pat@.len() > 0,
    ensures
        match (r, spec_find_ref_parts(current@, pat@, relative)) {
            (Ok((l, a, b)), Ok((sl, sa, sb))) => l@ == sl && a@ == sa && b@ == sb,
            (Err(e), Err(se)) => e@ == se,
            _ => false,
        },
{
    if relative {
        let common = match current.parent() {
            Some(p) => p,
            None => {
                assert(false);
                Pointer::root()
            },
        };
        let pointing = current.token(current.len() - 1);
        let pointed = pat.token(0);
        return Ok((common, Pointer::from_token(pointing.as_str()), Pointer::from_token(pointed.as_str())));
    }
    let common = current.intersection(pat);
    let n = common.len();
    let pointing_empty = n == current.len();
    let pointed_empty = n == pat.len();
    if pointing_empty && pointed_empty {
        return Err(RefError::PointingToItself { current: current.duplicate(), pattern: pat.duplicate() });
    }
    if pointing_empty || pointed_empty {
        return Err(RefError::Unrelated { current: current.duplicate(), pattern: pat.duplicate() });
    }
    let pointing = Pointer::from_token(current.token(n).as_str());
    let pointed = Pointer::from_token(pat.token(n).as_str());
    Ok((common, pointing, pointed))
}


/// A reference met during inspection: the path of the field that holds it and
/// its pattern.
pub type RefSite = (Seq<Seq<char>>, Seq<char>);

/// A node of a level's dependency graph: a pointer of one token.
pub type FieldName = Seq<Seq<char>>;

/// The references of a utility at `path`.
pub open spec fn util_refs(u: InputUtil, path: Seq<Seq<char>>) -> Seq<RefSite> {
    match u {
        InputUtil::Ref { pattern } => seq![(path, pattern@)],
        _ => Seq::empty(),
    }
}

/// The references of a declaration at `path`, in the order of its fields.
pub open spec fn decl_refs(d: InputDeclaration, path: Seq<Seq<char>>) -> Seq<RefSite>
    decreases d,
{
    match d {
        InputDeclaration::ShorthandUtil(s) => util_refs(s.0, path),
        InputDeclaration::LonghandUtil(u) => util_refs(u, path),
        InputDeclaration::Object(fields) => fields_refs(fields@, path),
    }
}

/// The references of the fields of an object at `path`, field by field.
pub open spec fn fields_refs(fields: Seq<(String, InputDeclaration)>, path: Seq<Seq<char>>) -> Seq<RefSite>
    decreases fields,
{
    if fields.len() == 0 {
        Seq::empty()
    } else {
        fields_refs(fields.drop_last(), path) + decl_refs(
            fields.last().1,
            path.push(fields.last().0@),
        )
    }
}

/// Where a reference site places its constraint (see `spec_find_ref_parts`).
pub open spec fn site_parts(s: RefSite) -> Result<(Seq<Seq<char>>, FieldName, FieldName), SpecRefError> {
    spec_find_ref_parts(s.0, spec_ref_to_pointer(s.1).0, spec_ref_to_pointer(s.1).1)
}

/// A reference site can be placed without failing: a relative reference needs
/// a field to be relative to.
pub open spec fn site_defined(s: RefSite) -> bool {
    spec_ref_to_pointer(s.1).1 ==> s.0.len() > 0
}

/// The dependency edges of level `level` from the references `refs`: an edge
/// `pointed -> pointing` for each reference placed there.
pub open spec fn level_edges(refs: Seq<RefSite>, level: Seq<Seq<char>>) -> Set<(FieldName, FieldName)> {
    Set::new(
        |e: (FieldName, FieldName)|
            exists|j: int| 0 <= j < refs.len() && #[trigger] site_parts(refs[j]) == Ok::<
                (Seq<Seq<char>>, FieldName, FieldName),
                SpecRefError,
            >((level, e.1, e.0)),
    )
}

/// Every reference can be placed, and every level's dependency graph is acyclic.
pub open spec fn refs_ok(refs: Seq<RefSite>) -> bool {
    &&& forall|j: int| 0 <= j < refs.len() ==> #[trigger] site_parts(refs[j]) is Ok
    &&& forall|level: Seq<Seq<char>>| #[trigger] is_acyclic(level_edges(refs, level))
}

/// The inspection of a utility: a reference's pattern becomes a pointer.
pub open spec fn util_converts(out: Util, input: InputUtil) -> bool {
    match input {
        InputUtil::Ref { pattern } => match out {
            Util::Ref { pattern: p, relative } => p@ == spec_ref_to_pointer(pattern@).0
                && relative == spec_ref_to_pointer(pattern@).1,
            _ => false,
        },
        InputUtil::FirstName => out is FirstName,
        InputUtil::LastName => out is LastName,
    }
}

/// `out` is the inspection of `input`: the same shape, utilities converted.
pub open spec fn converts(out: Declaration, input: InputDeclaration) -> bool
    decreases input,
{
    match input {
        InputDeclaration::ShorthandUtil(s) => match out {
            Declaration::Util(u) => util_converts(u, s.0),
            _ => false,
        },
        InputDeclaration::LonghandUtil(i) => match out {
            Declaration::Util(u) => util_converts(u, i),
            _ => false,
        },
        InputDeclaration::Object(fi) => match out {
            Declaration::Object(fo) => fields_convert(fo@, fi@),
            _ => false,
        },
    }
}

/// Field by field, `out` is the inspection of `input`.
pub open spec fn fields_convert(out: Seq<(String, Declaration)>, input: Seq<(String, InputDeclaration)>) -> bool
    decreases input,
{
    &&& out.len() == input.len()
    &&& input.len() > 0 ==> {
        &&& fields_convert(out.drop_last(), input.drop_last())
        &&& out.last().0@ == input.last().0@
        &&& converts(out.last().1, input.last().1)
    }
}


/// The tokens of each pointer.
pub open spec fn names_of(v: Seq<Pointer>) -> Seq<FieldName> {
    v.map_values(|p: Pointer| p@)
}

/// `x` is an endpoint of some edge of `e`.
pub open spec fn is_node_of(e: Set<(FieldName, FieldName)>, x: FieldName) -> bool {
    exists|y: FieldName| e.contains((x, y)) || e.contains((y, x))
}

/// The graph of successor sets `succ` over the nodes `names` is the graph `e`
/// on names: the names are distinct, and an index edge is a name edge.
pub open spec fn graph_models(names: Seq<FieldName>, succ: Seq<Set<int>>, e: Set<(FieldName, FieldName)>) -> bool {
    &&& succ.len() == names.len()
    &&& forall|i: int, j: int|
        #![trigger names[i], names[j]]
        0 <= i < names.len() && 0 <= j < names.len() && i != j ==> names[i] != names[j]
    &&& forall|i: int, k: int|
        0 <= i < succ.len() && #[trigger] succ[i].contains(k) ==> 0 <= k < succ.len()
    &&& forall|i: int, j: int|
        #![trigger succ[i].contains(j)]
        #![trigger e.contains((names[i], names[j]))]
        0 <= i < names.len() && 0 <= j < names.len() ==> (succ[i].contains(j) <==> e.contains(
            (names[i], names[j]),
        ))
    &&& forall|u: FieldName, v: FieldName|
        #[trigger] e.contains((u, v)) ==> names.contains(u) && names.contains(v)
}

/// Every name is an endpoint of some edge.
pub open spec fn names_covered(names: Seq<FieldName>, e: Set<(FieldName, FieldName)>) -> bool {
    forall|i: int| 0 <= i < names.len() ==> is_node_of(e, #[trigger] names[i])
}

/// The position of a name among distinct names.
pub open spec fn index_of(names: Seq<FieldName>, n: FieldName) -> int {
    choose|k: int| 0 <= k < names.len() && names[k] == n
}

proof fn lemma_index_of(names: Seq<FieldName>, succ: Seq<Set<int>>, e: Set<(FieldName, FieldName)>, n: FieldName)
    requires
        graph_models(names, succ, e),
        names.contains(n),
    ensures
        0 <= index_of(names, n) < names.len(),
        names[index_of(names, n)] == n,
{
}

/// A walk between indices is a walk between their names.
proof fn lemma_index_reach_to_names(
    names: Seq<FieldName>,
    succ: Seq<Set<int>>,
    e: Set<(FieldName, FieldName)>,
    i: int,
    j: int,
)
    requires
        graph_models(names, succ, e),
        0 <= i < names.len(),
        0 <= j < names.len(),
        reaches(succ_edges(succ), i, j),
    ensures
        reaches(e, names[i], names[j]),
{
    let m = |x: int| names[x];
    assert forall|x: int, y: int| #[trigger] succ_edges(succ).contains((x, y)) implies e.contains(
        (m(x), m(y)),
    ) by {
        assert(succ[x].contains(y));
    }
    lemma_reaches_map(succ_edges(succ), e, m, i, j);
}

/// A walk between names is a walk between their indices.
proof fn lemma_names_reach_to_index(
    names: Seq<FieldName>,
    succ: Seq<Set<int>>,
    e: Set<(FieldName, FieldName)>,
    i: int,
    j: int,
)
    requires
        graph_models(names, succ, e),
        0 <= i < names.len(),
        0 <= j < names.len(),
        reaches(e, names[i], names[j]),
    ensures
        reaches(succ_edges(succ), i, j),
{
    let m = |n: FieldName| index_of(names, n);
    assert forall|u: FieldName, v: FieldName| #[trigger] e.contains((u, v)) implies succ_edges(
        succ,
    ).contains((m(u), m(v))) by {
        lemma_index_of(names, succ, e, u);
        lemma_index_of(names, succ, e, v);
        let iu = index_of(names, u);
        let iv = index_of(names, v);
        assert(e.contains((names[iu], names[iv])));
        assert(succ[iu].contains(iv));
    }
    lemma_reaches_map(e, succ_edges(succ), m, names[i], names[j]);
    assert(names.contains(names[i]));
    assert(names.contains(names[j]));
    lemma_index_of(names, succ, e, names[i]);
    lemma_index_of(names, succ, e, names[j]);
}

/// The index graph of an acyclic name graph is acyclic.
proof fn lemma_models_acyclic(names: Seq<FieldName>, succ: Seq<Set<int>>, e: Set<(FieldName, FieldName)>)
    requires
        graph_models(names, succ, e),
        is_acyclic(e),
    ensures
        is_acyclic(succ_edges(succ)),
{
    assert forall|x: int, y: int| #[trigger] succ_edges(succ).contains((x, y)) implies !reaches(
        succ_edges(succ),
        y,
        x,
    ) by {
        assert(succ[x].contains(y));
        assert(e.contains((names[x], names[y])));
        if reaches(succ_edges(succ), y, x) {
            lemma_index_reach_to_names(names, succ, e, y, x);
        }
    }
}

/// The dependency graph of one level: the path of the level, the field names
/// that are its nodes (a node's index is its position), and the graph.
pub struct LevelDag {
    level: Pointer,
    names: Vec<Pointer>,
    graph: LevelGraph,
}

impl LevelDag {
    /// The names of the nodes.
    pub closed spec fn names_view(&self) -> Seq<FieldName> {
        names_of(self.names@)
    }

    /// The graph holds the name graph `e`.
    pub closed spec fn models(&self, e: Set<(FieldName, FieldName)>) -> bool {
        &&& graph_models(self.names_view(), dag_successors(self.graph), e)
        &&& names_covered(self.names_view(), e)
        &&& is_acyclic(e)
        &&& self.names@.len() > 0
    }

    /// The graph holds the name graph `e`, which is acyclic; some of its
    /// nodes may have no edge yet.
    pub closed spec fn consistent(&self, e: Set<(FieldName, FieldName)>) -> bool {
        &&& graph_models(self.names_view(), dag_successors(self.graph), e)
        &&& is_acyclic(e)
    }

    /// Holding a graph implies being consistent with it.
    pub proof fn lemma_models_consistent(&self, e: Set<(FieldName, FieldName)>)
        requires
            self.models(e),
        ensures
            self.consistent(e),
    {
    }

    pub closed spec fn level_view(&self) -> Seq<Seq<char>> {
        self.level@
    }
}

/// The position of `name` among `names`, if it is there.
fn find_name(names: &Vec<Pointer>, name: &Pointer) -> (r: Option<usize>)
    ensures
        r matches Some(i) ==> i < names@.len() && names@[i as int]@ == name@,
        r is None ==> !names_of(names@).contains(name@),
{
    let mut i: usize = 0;
    while i < names.len()
        invariant
            i <= names@.len(),
            forall|k: int| 0 <= k < i ==> names@[k]@ != name@,
        decreases names@.len() - i,
    {
        if names[i].equals(name) {
            return Some(i);
        }
        i = i + 1;
    }
    assert forall|k: int| 0 <= k < names@.len() implies #[trigger] names_of(names@)[k] != name@ by {}
    None
}

/// The node of `name` in the graph, added with no edges if it is not there yet.
fn find_or_add_node(
    names: &mut Vec<Pointer>,
    graph: &mut LevelGraph,
    name: &Pointer,
    Ghost(e): Ghost<Set<(FieldName, FieldName)>>,
) -> (i: usize)
    requires
        graph_models(names_of(old(names)@), dag_successors(*old(graph)), e),
    ensures
        graph_models(names_of(final(names)@), dag_successors(*final(graph)), e),
        i < final(names)@.len(),
        final(names)@[i as int]@ == name@,
        forall|n: FieldName| #[trigger] names_of(final(names)@).contains(n)
            <==> names_of(old(names)@).contains(n) || n == name@,
        old(names)@.len() <= final(names)@.len(),
        forall|k: int| 0 <= k < old(names)@.len() ==> #[trigger] final(names)@[k]@ == old(names)@[k]@,
        names_of(old(names)@).contains(name@) ==> *final(names) == *old(names) && *final(graph) == *old(graph),
{
    match find_name(names, name) {
        Some(i) => {
            assert(names_of(names@)[i as int] == name@);
            i
        },
        None => {
            let ghost old_names = names_of(names@);
            let ghost old_succ = dag_successors(*graph);
            let i = dag_add_node(graph);
            names.push(name.duplicate());
            let ghost nn = names_of(names@);
            let ghost ns = dag_successors(*graph);
            assert(nn =~= old_names.push(name@));
            assert forall|n: FieldName| old_names.contains(n) || n == name@ implies #[trigger] nn.contains(n) by {
                if n == name@ {
                    assert(nn[i as int] == n);
                } else {
                    let k = choose|k: int| 0 <= k < old_names.len() && old_names[k] == n;
                    assert(nn[k] == n);
                }
            }
            assert forall|n: FieldName| #[trigger] nn.contains(n) implies old_names.contains(n) || n == name@ by {
                if n != name@ {
                    let k = choose|k: int| 0 <= k < nn.len() && nn[k] == n;
                    assert(old_names[k] == n);
                }
            }
            assert forall|a: int, b: int|
                0 <= a < nn.len() && 0 <= b < nn.len() implies (#[trigger] ns[a].contains(b)
                <==> e.contains((nn[a], nn[b]))) by {
                if a == i as int {
                    assert(!ns[a].contains(b));
                    if e.contains((nn[a], nn[b])) {
                        assert(old_names.contains(nn[a]));
                    }
                } else if b == i as int {
                    if e.contains((nn[a], nn[b])) {
                        assert(old_names.contains(nn[b]));
                    }
                    if ns[a].contains(b) {
                        assert(old_succ[a].contains(b));
                    }
                } else {
                    assert(old_succ[a].contains(b) <==> e.contains((old_names[a], old_names[b])));
                }
            }
            i
        },
    }
}


impl LevelDag {
    /// An empty graph for `level`.
    fn new(level: Pointer) -> (ld: LevelDag)
        ensures
            ld.level_view() == level@,
            graph_models(ld.names_view(), dag_successors(ld.graph), Set::empty()),
            ld.names_view() == Seq::<FieldName>::empty(),
    {
        let ld = LevelDag { level, names: Vec::new(), graph: dag_new() };
        assert(ld.names_view() =~= Seq::<FieldName>::empty());
        ld
    }

    /// Records that the field `pointing` depends on the field `pointed`:
    /// refused when `pointed` already depends on `pointing`, directly or not.
    fn add_dependency(&mut self, pointing: &Pointer, pointed: &Pointer, Ghost(e): Ghost<Set<(FieldName, FieldName)>>) -> (ok: bool)
        requires
            graph_models(old(self).names_view(), dag_successors(old(self).graph), e),
            names_covered(old(self).names_view(), e),
            is_acyclic(e),
        ensures
            final(self).level_view() == old(self).level_view(),
            ok ==> final(self).models(e.insert((pointed@, pointing@))),
            !ok ==> reaches(e, pointing@, pointed@) && final(self).consistent(e),
            forall|n: FieldName| #[trigger] final(self).names_view().contains(n)
                <==> old(self).names_view().contains(n) || n == pointing@ || n == pointed@,
            e.contains((pointed@, pointing@)) ==> ok && *final(self) == *old(self),
    {
        let ghost names0 = self.names_view();
        let ghost self0 = *self;
        proof {
            if e.contains((pointed@, pointing@)) {
                assert(names0.contains(pointing@) && names0.contains(pointed@));
            }
        }
        let ia = find_or_add_node(&mut self.names, &mut self.graph, pointing, Ghost(e));
        let ghost names1 = self.names_view();
        let ib = find_or_add_node(&mut self.names, &mut self.graph, pointed, Ghost(e));
        let ghost names = self.names_view();
        let ghost succ = dag_successors(self.graph);
        assert(names[ia as int] == pointing@);
        assert(names[ib as int] == pointed@);
        assert forall|n: FieldName| #[trigger] names.contains(n) <==> names0.contains(n) || n == pointing@ || n == pointed@ by {
            if names.contains(n) && n != pointed@ {
                assert(names1.contains(n));
            }
            if names0.contains(n) || n == pointing@ {
                assert(names1.contains(n));
            }
        }
        let ghost e2 = e.insert((pointed@, pointing@));
        assert forall|i: int| 0 <= i < names.len() implies is_node_of(e2, #[trigger] names[i]) by {
            let n = names[i];
            assert(names.contains(n));
            if n == pointing@ {
                assert(e2.contains((pointed@, pointing@)));
            } else if n == pointed@ {
                assert(e2.contains((pointed@, pointing@)));
            } else {
                let k = choose|k: int| 0 <= k < names0.len() && names0[k] == n;
                assert(is_node_of(e, names0[k]));
                let y = choose|y: FieldName| e.contains((n, y)) || e.contains((y, n));
                assert(e2.contains((n, y)) || e2.contains((y, n)));
            }
        }
        proof {
            if e.contains((pointed@, pointing@)) {
                assert(*self == self0);
                assert(e.contains((names[ib as int], names[ia as int])));
                assert(succ[ib as int].contains(ia as int));
            }
        }
        if dag_has_edge(&self.graph, ib, ia) {
            assert(e.contains((names[ib as int], names[ia as int])));
            assert(e2 =~= e);
            return true;
        }
        proof {
            lemma_models_acyclic(names, succ, e);
        }
        match dag_add_edge(&mut self.graph, ib, ia) {
            Err(()) => {
                proof {
                    lemma_index_reach_to_names(names, succ, e, ia as int, ib as int);
                }
                false
            },
            Ok(()) => {
                let ghost succ2 = dag_successors(self.graph);
                assert(self.names_view() == names);
                proof {
                    if reaches(e, pointing@, pointed@) {
                        lemma_names_reach_to_index(names, succ, e, ia as int, ib as int);
                    }
                    lemma_acyclic_insert(e, pointed@, pointing@);
                }
                assert forall|i: int, j: int|
                    0 <= i < names.len() && 0 <= j < names.len() implies (#[trigger] succ2[i].contains(j)
                    <==> e2.contains((names[i], names[j]))) by {
                    if i == ib as int && j == ia as int {
                    } else {
                        assert(succ2[i].contains(j) <==> succ[i].contains(j));
                        assert(succ[i].contains(j) <==> e.contains((names[i], names[j])));
                        if names[i] == pointed@ && names[j] == pointing@ {
                            assert(i == ib as int);
                            assert(j == ia as int);
                        }
                    }
                }
                assert forall|i: int, k: int|
                    0 <= i < succ2.len() && #[trigger] succ2[i].contains(k) implies 0 <= k < succ2.len() by {
                    if i == ib as int && k == ia as int {
                    } else {
                        assert(succ[i].contains(k));
                    }
                }
                assert forall|u: FieldName, v: FieldName|
                    #[trigger] e2.contains((u, v)) implies names.contains(u) && names.contains(v) by {
                    if u == pointed@ && v == pointing@ {
                        assert(names[ib as int] == u);
                        assert(names[ia as int] == v);
                    } else {
                        assert(e.contains((u, v)));
                        assert(names0.contains(u) && names0.contains(v));
                        let ku = choose|k: int| 0 <= k < names0.len() && names0[k] == u;
                        let kv = choose|k: int| 0 <= k < names0.len() && names0[k] == v;
                        assert(names[ku] == u);
                        assert(names[kv] == v);
                    }
                }
                true
            },
        }
    }
}


/// Why inspection fails, as an abstract value.
pub enum SpecInspectError {
    /// A reference cannot be placed.
    Ref(SpecRefError),
    /// The dependency `pointed -> pointing` at `level` would close a cycle.
    WouldCycle(Seq<Seq<char>>, FieldName, FieldName),
}

/// Why inspection fails.
#[derive(Debug)]
pub enum InspectError {
    /// A reference cannot be placed.
    Ref(RefError),
    /// The field `pointing` of `level` would depend on `pointed`, which
    /// already depends on it.
    WouldCycle { level: Pointer, pointing: Pointer, pointed: Pointer },
}

impl View for InspectError {
    type V = SpecInspectError;

    open spec fn view(&self) -> SpecInspectError {
        match self {
            InspectError::Ref(e) => SpecInspectError::Ref(e@),
            InspectError::WouldCycle { level, pointing, pointed } => SpecInspectError::WouldCycle(
                level@,
                pointing@,
                pointed@,
            ),
        }
    }
}

impl InspectError {
    /// The message the error reads as.
    pub fn message(&self) -> (s: String)
        ensures
            self matches InspectError::Ref(e) ==> s@ == match e@ {
                SpecRefError::PointingToItself(c, p) => ref_error_text("pointing to itself? "@, c, p),
                SpecRefError::Unrelated(c, p) => ref_error_text("this doesn't make sense? "@, c, p),
            },
            self is WouldCycle ==> s@ == "WouldCycle\n\n"@,
    {
        match self {
            InspectError::Ref(e) => e.message(),
            InspectError::WouldCycle { .. } => String::from_str("WouldCycle\n\n"),
        }
    }
}

/// The failure a reference site causes when it is the first that cannot be
/// placed or closes a cycle.
pub open spec fn site_error(s: RefSite) -> SpecInspectError {
    match site_parts(s) {
        Err(x) => SpecInspectError::Ref(x),
        Ok((level, pointing, pointed)) => SpecInspectError::WouldCycle(level, pointing, pointed),
    }
}

/// Some level graph has been made for `level`.
pub open spec fn has_level(dags: Seq<LevelDag>, level: Seq<Seq<char>>) -> bool {
    exists|k: int| 0 <= k < dags.len() && #[trigger] dags[k].level_view() == level
}

/// The level graphs hold the dependency graphs of the references `refs`, one
/// per level that a reference names.
pub open spec fn state_models(dags: Seq<LevelDag>, refs: Seq<RefSite>) -> bool {
    &&& forall|k1: int, k2: int|
        #![trigger dags[k1].level_view(), dags[k2].level_view()]
        0 <= k1 < dags.len() && 0 <= k2 < dags.len() && k1 != k2 ==> dags[k1].level_view()
            != dags[k2].level_view()
    &&& forall|k: int|
        0 <= k < dags.len() ==> #[trigger] dags[k].models(level_edges(refs, dags[k].level_view()))
    &&& forall|j: int|
        0 <= j < refs.len() ==> has_level(dags, #[trigger] site_parts(refs[j])->Ok_0.0)
}

/// The level graphs hold, each acyclic, the dependency graphs of the
/// references `refs` (a graph may hold nodes that no edge reaches yet).
pub open spec fn state_consistent(dags: Seq<LevelDag>, refs: Seq<RefSite>) -> bool {
    &&& forall|k1: int, k2: int|
        #![trigger dags[k1].level_view(), dags[k2].level_view()]
        0 <= k1 < dags.len() && 0 <= k2 < dags.len() && k1 != k2 ==> dags[k1].level_view()
            != dags[k2].level_view()
    &&& forall|k: int|
        0 <= k < dags.len() ==> #[trigger] dags[k].consistent(level_edges(refs, dags[k].level_view()))
}

/// After a dependency at `level` between the fields `a` and `b` is refused,
/// the level graphs `new` are `old` but for the graph of `level`: that one
/// keeps its place (or comes last, made afresh, when `old` had none) and its
/// nodes are those it had together with `a` and `b`.
pub open spec fn only_nodes_added(
    old: Seq<LevelDag>,
    new: Seq<LevelDag>,
    level: Seq<Seq<char>>,
    a: FieldName,
    b: FieldName,
) -> bool {
    exists|ki: int|
        {
            &&& 0 <= ki < new.len()
            &&& #[trigger] new[ki].level_view() == level
            &&& forall|kk: int| 0 <= kk < new.len() && kk != ki ==> new[kk] == old[kk]
            &&& if ki < old.len() {
                &&& new.len() == old.len()
                &&& old[ki].level_view() == level
                &&& forall|n: FieldName| #[trigger] new[ki].names_view().contains(n)
                    <==> old[ki].names_view().contains(n) || n == a || n == b
            } else {
                &&& ki == old.len()
                &&& new.len() == old.len() + 1
                &&& !has_level(old, level)
                &&& forall|n: FieldName| #[trigger] new[ki].names_view().contains(n) <==> n == a || n == b
            }
        }
}

/// Level graphs that hold the dependency graphs are consistent with them.
proof fn lemma_state_models_consistent(dags: Seq<LevelDag>, refs: Seq<RefSite>)
    requires
        state_models(dags, refs),
    ensures
        state_consistent(dags, refs),
{
    assert forall|k: int| 0 <= k < dags.len() implies #[trigger] dags[k].consistent(
        level_edges(refs, dags[k].level_view()),
    ) by {
        dags[k].lemma_models_consistent(level_edges(refs, dags[k].level_view()));
    }
}

/// Every reference site can be placed without failing.
pub open spec fn sites_defined(refs: Seq<RefSite>) -> bool {
    forall|j: int| 0 <= j < refs.len() ==> #[trigger] site_defined(refs[j])
}

/// Adding a reference adds its edge to its level and changes no other level.
proof fn lemma_level_edges_push(refs: Seq<RefSite>, s: RefSite, level: Seq<Seq<char>>)
    ensures
        level_edges(refs.push(s), level) == (match site_parts(s) {
            Ok((l, a, b)) => if l == level {
                level_edges(refs, level).insert((b, a))
            } else {
                level_edges(refs, level)
            },
            Err(_) => level_edges(refs, level),
        }),
{
    let r2 = refs.push(s);
    let lhs = level_edges(r2, level);
    let rhs = match site_parts(s) {
        Ok((l, a, b)) => if l == level {
            level_edges(refs, level).insert((b, a))
        } else {
            level_edges(refs, level)
        },
        Err(_) => level_edges(refs, level),
    };
    assert forall|e: (FieldName, FieldName)| lhs.contains(e) <==> rhs.contains(e) by {
        if lhs.contains(e) {
            let j = choose|j: int| 0 <= j < r2.len() && #[trigger] site_parts(r2[j]) == Ok::<
                (Seq<Seq<char>>, FieldName, FieldName),
                SpecRefError,
            >((level, e.1, e.0));
            if j < refs.len() {
                assert(site_parts(refs[j]) == site_parts(r2[j]));
            }
        }
        if rhs.contains(e) {
            if level_edges(refs, level).contains(e) {
                let j = choose|j: int| 0 <= j < refs.len() && #[trigger] site_parts(refs[j]) == Ok::<
                    (Seq<Seq<char>>, FieldName, FieldName),
                    SpecRefError,
                >((level, e.1, e.0));
                assert(site_parts(r2[j]) == site_parts(refs[j]));
            } else {
                assert(site_parts(r2[refs.len() as int]) == site_parts(s));
            }
        }
    }
    assert(lhs =~= rhs);
}

/// Inspects a utility at `current`: a reference is placed in its level's
/// dependency graph and its pattern becomes a pointer.
fn inspect_util(
    dags: &mut Vec<LevelDag>,
    current: &Pointer,
    util: &InputUtil,
    Ghost(refs): Ghost<Seq<RefSite>>,
) -> (r: Result<Util, InspectError>)
    requires
        state_models(old(dags)@, refs),
        refs_ok(refs),
        sites_defined(util_refs(*util, current@)),
    ensures
        r matches Ok(u) ==> {
            &&& util_converts(u, *util)
            &&& state_models(final(dags)@, refs + util_refs(*util, current@))
            &&& refs_ok(refs + util_refs(*util, current@))
        },
        util matches InputUtil::Ref { pattern } && refs.contains((current@, pattern@)) ==> r is Ok
            && final(dags)@ == old(dags)@,
        r matches Err(e) ==> {
            &&& util_refs(*util, current@).len() == 1
            &&& !refs_ok(refs + util_refs(*util, current@))
            &&& e@ == site_error(util_refs(*util, current@)[0])
            &&& e is Ref ==> final(dags)@ == old(dags)@
            &&& e@ matches SpecInspectError::WouldCycle(level, a, b) ==> only_nodes_added(
                old(dags)@,
                final(dags)@,
                level,
                a,
                b,
            )
            &&& state_consistent(final(dags)@, refs)
        },
{
    match util {
        InputUtil::FirstName => {
            assert(refs + util_refs(*util, current@) =~= refs);
            Ok(Util::FirstName)
        },
        InputUtil::LastName => {
            assert(refs + util_refs(*util, current@) =~= refs);
            Ok(Util::LastName)
        },
        InputUtil::Ref { pattern } => {
            let ghost site: RefSite = (current@, pattern@);
            let ghost new_refs = refs.push(site);
            assert(refs + util_refs(*util, current@) =~= new_refs);
            assert(site_defined(util_refs(*util, current@)[0]));
            let (pat, relative) = ref_to_pointer(pattern.as_str());
            proof {
                lemma_split_chars_nonempty(pattern@, '/');
            }
            let parts = find_ref_parts(current, &pat, relative);
            let (common, pointing, pointed) = match parts {
                Err(e) => {
                    assert(!(site_parts(new_refs[refs.len() as int]) is Ok));
                    proof {
                        lemma_state_models_consistent(dags@, refs);
                    }
                    return Err(InspectError::Ref(e));
                },
                Ok(t) => t,
            };
            let ghost level = common@;
            let ghost e = level_edges(refs, level);
            proof {
                lemma_level_edges_push(refs, site, level);
            }
            // find the level's graph
            let mut k: usize = 0;
            let mut found = false;
            while k < dags.len() && !found
                invariant
                    level == common@,
                    k <= dags@.len(),
                    found ==> k < dags@.len() && dags@[k as int].level_view() == level,
                    !found ==> forall|k2: int| 0 <= k2 < k ==> dags@[k2].level_view() != level,
                decreases dags@.len() - k, if found { 0int } else { 1int },
            {
                if dags[k].level.equals(&common) {
                    found = true;
                } else {
                    k = k + 1;
                }
            }
            let ghost old_dags = dags@;
            let ghost repeated = refs.contains(site);
            proof {
                if repeated {
                    let j = choose|j: int| 0 <= j < refs.len() && refs[j] == site;
                    assert(site_parts(refs[j]) is Ok);
                    assert(has_level(old_dags, site_parts(refs[j])->Ok_0.0));
                    assert(e.contains((pointed@, pointing@)));
                    if !found {
                        let kk = choose|kk: int| 0 <= kk < old_dags.len() && #[trigger] old_dags[kk].level_view() == level;
                        assert(old_dags[kk].level_view() != level);
                    }
                }
            }
            let mut ld = if found {
                dags.remove(k)
            } else {
                assert forall|j: int| 0 <= j < refs.len() implies #[trigger] site_parts(refs[j])->Ok_0.0 != level by {
                    assert(has_level(old_dags, site_parts(refs[j])->Ok_0.0));
                }
                assert forall|x: (FieldName, FieldName)| !e.contains(x) by {
                    if e.contains(x) {
                        let j = choose|j: int| 0 <= j < refs.len() && #[trigger] site_parts(refs[j]) == Ok::<
                            (Seq<Seq<char>>, FieldName, FieldName),
                            SpecRefError,
                        >((level, x.1, x.0));
                        assert(site_parts(refs[j])->Ok_0.0 == level);
                    }
                }
                assert(e =~= Set::<(FieldName, FieldName)>::empty());
                LevelDag::new(common.duplicate())
            };
            if found {
                assert(ld == old_dags[k as int]);
                assert(ld.models(e));
            }
            let ghost ld_names = ld.names_view();
            let ok = ld.add_dependency(&pointing, &pointed, Ghost(e));
            if !ok {
                proof {
                    lemma_cyclic_insert(e, pointed@, pointing@);
                }
                if found {
                    dags.insert(k, ld);
                } else {
                    dags.push(ld);
                }
                proof {
                    let nd = dags@;
                    let ki: int = if found { k as int } else { old_dags.len() as int };
                    assert(nd[ki].level_view() == level);
                    assert forall|kk: int| 0 <= kk < nd.len() && kk != ki implies nd[kk] == old_dags[kk] by {}
                    if !found {
                        assert(!has_level(old_dags, level));
                    }
                    assert(only_nodes_added(old_dags, nd, level, pointing@, pointed@));
                    assert forall|kk: int| 0 <= kk < nd.len() implies #[trigger] nd[kk].consistent(
                        level_edges(refs, nd[kk].level_view()),
                    ) by {
                        if kk != ki {
                            old_dags[kk].lemma_models_consistent(level_edges(refs, old_dags[kk].level_view()));
                        }
                    }
                }
                return Err(InspectError::WouldCycle { level: common, pointing, pointed });
            }
            if found {
                dags.insert(k, ld);
            } else {
                dags.push(ld);
            }
            let ghost nd = dags@;
            proof {
                let ki: int = if found { k as int } else { old_dags.len() as int };
                assert(nd[ki].level_view() == level);
                assert forall|kk: int| 0 <= kk < nd.len() && kk != ki implies nd[kk] == old_dags[kk] by {}
                assert forall|kk: int| 0 <= kk < nd.len() implies #[trigger] nd[kk].models(
                    level_edges(new_refs, nd[kk].level_view()),
                ) by {
                    lemma_level_edges_push(refs, site, nd[kk].level_view());
                    if kk != ki {
                        assert(nd[kk].level_view() != level);
                    }
                }
                assert forall|j: int| 0 <= j < new_refs.len() implies has_level(
                    nd,
                    #[trigger] site_parts(new_refs[j])->Ok_0.0,
                ) by {
                    if j < refs.len() {
                        assert(new_refs[j] == refs[j]);
                        let l = site_parts(refs[j])->Ok_0.0;
                        assert(has_level(old_dags, l));
                        let kk = choose|kk: int| 0 <= kk < old_dags.len() && #[trigger] old_dags[kk].level_view() == l;
                        assert(nd[kk].level_view() == l);
                    } else {
                        assert(nd[ki].level_view() == level);
                    }
                }
                assert forall|level2: Seq<Seq<char>>| #[trigger] is_acyclic(level_edges(new_refs, level2)) by {
                    lemma_level_edges_push(refs, site, level2);
                    if level2 == level {
                        assert(nd[ki].models(level_edges(new_refs, level)));
                    }
                }
            }
            Ok(Util::Ref { pattern: pat, relative })
        },
    }
}


/// Position `i` of `refs` holds the first reference that cannot be placed or
/// that closes a cycle.
pub open spec fn first_failure(refs: Seq<RefSite>, i: int) -> bool {
    &&& 0 <= i < refs.len()
    &&& refs_ok(refs.take(i))
    &&& !refs_ok(refs.take(i + 1))
}

/// The references of the first fields of an object come first among the
/// references of all its fields.
proof fn lemma_fields_refs_prefix(fs: Seq<(String, InputDeclaration)>, p: Seq<Seq<char>>, k: int)
    requires
        0 <= k <= fs.len(),
    ensures
        fields_refs(fs.take(k), p).is_prefix_of(fields_refs(fs, p)),
    decreases fs.len(),
{
    if k == fs.len() {
        assert(fs.take(k) =~= fs);
    } else {
        assert(fs.drop_last().take(k) =~= fs.take(k));
        lemma_fields_refs_prefix(fs.drop_last(), p, k);
    }
}

/// One more field adds its references after those of the fields before it.
proof fn lemma_fields_refs_step(fs: Seq<(String, InputDeclaration)>, p: Seq<Seq<char>>, i: int)
    requires
        0 <= i < fs.len(),
    ensures
        fields_refs(fs.take(i + 1), p) == fields_refs(fs.take(i), p) + decl_refs(fs[i].1, p.push(fs[i].0@)),
{
    assert(fs.take(i + 1).drop_last() =~= fs.take(i));
    assert(fs.take(i + 1).last() == fs[i]);
}

/// A prefix of references that can all be placed acyclically can itself be.
proof fn lemma_refs_ok_prefix(refs: Seq<RefSite>, n: int)
    requires
        refs_ok(refs),
        0 <= n <= refs.len(),
    ensures
        refs_ok(refs.take(n)),
{
    let t = refs.take(n);
    assert forall|j: int| 0 <= j < t.len() implies #[trigger] site_parts(t[j]) is Ok by {
        assert(t[j] == refs[j]);
        assert(site_parts(refs[j]) is Ok);
    }
    assert forall|level: Seq<Seq<char>>| #[trigger] is_acyclic(level_edges(t, level)) by {
        assert forall|x: (FieldName, FieldName)| level_edges(t, level).contains(x) implies level_edges(
            refs,
            level,
        ).contains(x) by {
            let j = choose|j: int| 0 <= j < t.len() && #[trigger] site_parts(t[j]) == Ok::<
                (Seq<Seq<char>>, FieldName, FieldName),
                SpecRefError,
            >((level, x.1, x.0));
            assert(t[j] == refs[j]);
        }
        assert(is_acyclic(level_edges(refs, level)));
        crate::graph::lemma_acyclic_subset(level_edges(t, level), level_edges(refs, level));
    }
}

/// Inspects a declaration at `path`.
fn inspect_decl(
    dags: &mut Vec<LevelDag>,
    path: &mut Pointer,
    decl: &InputDeclaration,
    Ghost(refs): Ghost<Seq<RefSite>>,
) -> (r: Result<Declaration, InspectError>)
    requires
        state_models(old(dags)@, refs),
        refs_ok(refs),
        sites_defined(decl_refs(*decl, old(path)@)),
    ensures
        r matches Ok(d) ==> {
            &&& converts(d, *decl)
            &&& state_models(final(dags)@, refs + decl_refs(*decl, old(path)@))
            &&& refs_ok(refs + decl_refs(*decl, old(path)@))
            &&& final(path)@ == old(path)@
        },
        r matches Err(e) ==> exists|i: int|
            refs.len() <= i && #[trigger] first_failure(refs + decl_refs(*decl, old(path)@), i)
                && e@ == site_error((refs + decl_refs(*decl, old(path)@))[i])
                && state_consistent(final(dags)@, (refs + decl_refs(*decl, old(path)@)).take(i)),
    decreases decl,
{
    match decl {
        InputDeclaration::ShorthandUtil(s) => {
            let r = inspect_util(dags, path, &s.0, Ghost(refs));
            proof {
                let all = refs + decl_refs(*decl, path@);
                if r is Err {
                    let i = refs.len() as int;
                    assert(all.take(i) =~= refs);
                    assert(all.take(i + 1) =~= all);
                    assert(first_failure(all, i));
                }
            }
            match r {
                Ok(u) => Ok(Declaration::Util(u)),
                Err(e) => Err(e),
            }
        },
        InputDeclaration::LonghandUtil(u) => {
            let r = inspect_util(dags, path, u, Ghost(refs));
            proof {
                let all = refs + decl_refs(*decl, path@);
                if r is Err {
                    let i = refs.len() as int;
                    assert(all.take(i) =~= refs);
                    assert(all.take(i + 1) =~= all);
                    assert(first_failure(all, i));
                }
            }
            match r {
                Ok(u) => Ok(Declaration::Util(u)),
                Err(e) => Err(e),
            }
        },
        InputDeclaration::Object(fields) => {
            match inspect_object(dags, path, fields, Ghost(refs)) {
                Ok(out) => Ok(Declaration::Object(out)),
                Err(e) => Err(e),
            }
        },
    }
}

/// Inspects the fields of an object at `path`, in order.
fn inspect_object(
    dags: &mut Vec<LevelDag>,
    path: &mut Pointer,
    fields: &Vec<(String, InputDeclaration)>,
    Ghost(refs): Ghost<Seq<RefSite>>,
) -> (r: Result<Vec<(String, Declaration)>, InspectError>)
    requires
        state_models(old(dags)@, refs),
        refs_ok(refs),
        sites_defined(fields_refs(fields@, old(path)@)),
    ensures
        r matches Ok(out) ==> {
            &&& fields_convert(out@, fields@)
            &&& state_models(final(dags)@, refs + fields_refs(fields@, old(path)@))
            &&& refs_ok(refs + fields_refs(fields@, old(path)@))
            &&& final(path)@ == old(path)@
        },
        r matches Err(e) ==> exists|i: int|
            refs.len() <= i && #[trigger] first_failure(refs + fields_refs(fields@, old(path)@), i)
                && e@ == site_error((refs + fields_refs(fields@, old(path)@))[i])
                && state_consistent(final(dags)@, (refs + fields_refs(fields@, old(path)@)).take(i)),
    decreases fields,
{
    let ghost path0 = path@;
    let ghost all = refs + fields_refs(fields@, path0);
    let mut out: Vec<(String, Declaration)> = Vec::new();
    let mut i: usize = 0;
    assert(fields@.take(0) =~= Seq::<(String, InputDeclaration)>::empty());
    assert(refs + fields_refs(fields@.take(0), path0) =~= refs);
    while i < fields.len()
        invariant
            i <= fields@.len(),
            path@ == path0,
            path0 == old(path)@,
            all == refs + fields_refs(fields@, path0),
            sites_defined(fields_refs(fields@, path0)),
            state_models(dags@, refs + fields_refs(fields@.take(i as int), path0)),
            refs_ok(refs + fields_refs(fields@.take(i as int), path0)),
            fields_convert(out@, fields@.take(i as int)),
        decreases fields@.len() - i,
    {
        let ghost cur = refs + fields_refs(fields@.take(i as int), path0);
        let ghost sub = decl_refs(fields@[i as int].1, path0.push(fields@[i as int].0@));
        proof {
            lemma_fields_refs_step(fields@, path0, i as int);
            lemma_fields_refs_prefix(fields@, path0, i as int + 1);
            let pre = fields_refs(fields@.take(i as int), path0);
            assert forall|j: int| 0 <= j < sub.len() implies #[trigger] site_defined(sub[j]) by {
                assert(fields_refs(fields@.take(i + 1), path0)[pre.len() + j] == sub[j]);
                assert(fields_refs(fields@, path0)[pre.len() + j] == sub[j]);
            }
            assert(cur + sub =~= refs + fields_refs(fields@.take(i + 1), path0));
        }
        path.push_back(fields[i].0.as_str());
        let r = inspect_decl(dags, path, &fields[i].1, Ghost(cur));
        match r {
            Err(e) => {
                proof {
                    let cur_all = cur + sub;
                    let k = choose|k: int| cur.len() <= k && #[trigger] first_failure(cur_all, k)
                        && e@ == site_error(cur_all[k]) && state_consistent(dags@, cur_all.take(k));
                    assert(cur_all == refs + fields_refs(fields@.take(i + 1), path0));
                    assert(fields_refs(fields@.take(i + 1), path0).is_prefix_of(fields_refs(fields@, path0)));
                    assert(cur_all.len() <= all.len());
                    assert forall|j: int| 0 <= j < cur_all.len() implies cur_all[j] == all[j] by {
                        if j >= refs.len() {
                            assert(cur_all[j] == fields_refs(fields@.take(i + 1), path0)[j - refs.len()]);
                            assert(all[j] == fields_refs(fields@, path0)[j - refs.len()]);
                        }
                    }
                    assert(cur_all.is_prefix_of(all));
                    assert(all.take(k) =~= cur_all.take(k));
                    assert(all.take(k + 1) =~= cur_all.take(k + 1));
                    assert(all[k] == cur_all[k]);
                    assert(first_failure(all, k));
                }
                return Err(e);
            },
            Ok(d) => {
                path.pop_back();
                let ghost prev_out = out@;
                out.push((fields[i].0.clone(), d));
                proof {
                    assert(out@.drop_last() =~= prev_out);
                    assert(fields@.take(i + 1).drop_last() =~= fields@.take(i as int));
                }
                i = i + 1;
            },
        }
    }
    assert(fields@.take(fields@.len() as int) =~= fields@);
    Ok(out)
}


/// `order` lists the nodes of the graph `e` once each, every node after the
/// nodes it has an edge from.
pub open spec fn is_level_order(order: Seq<FieldName>, e: Set<(FieldName, FieldName)>) -> bool {
    &&& forall|i: int, j: int|
        #![trigger order[i], order[j]]
        0 <= i < order.len() && 0 <= j < order.len() && i != j ==> order[i] != order[j]
    &&& forall|x: FieldName| #[trigger] order.contains(x) <==> is_node_of(e, x)
    &&& forall|i: int, j: int|
        0 <= i < order.len() && 0 <= j < order.len() && #[trigger] e.contains((order[i], order[j]))
            ==> i < j
}

/// The levels computed for the references `refs`: one entry per level that a
/// reference names, each with an order of that level's dependency graph.
pub open spec fn levels_model(lv: Seq<(Seq<Seq<char>>, Seq<FieldName>)>, refs: Seq<RefSite>) -> bool {
    &&& forall|k1: int, k2: int|
        #![trigger lv[k1], lv[k2]]
        0 <= k1 < lv.len() && 0 <= k2 < lv.len() && k1 != k2 ==> lv[k1].0 != lv[k2].0
    &&& forall|j: int| 0 <= j < refs.len() ==> level_listed(lv, #[trigger] site_parts(refs[j])->Ok_0.0)
    &&& forall|k: int| 0 <= k < lv.len() ==> level_named(refs, #[trigger] lv[k].0)
    &&& forall|k: int| 0 <= k < lv.len() ==> is_level_order(#[trigger] lv[k].1, level_edges(refs, lv[k].0))
}

/// `level` has an entry in `lv`.
pub open spec fn level_listed(lv: Seq<(Seq<Seq<char>>, Seq<FieldName>)>, level: Seq<Seq<char>>) -> bool {
    exists|k: int| 0 <= k < lv.len() && #[trigger] lv[k].0 == level
}

/// Some reference of `refs` is placed at `level`.
pub open spec fn level_named(refs: Seq<RefSite>, level: Seq<Seq<char>>) -> bool {
    exists|j: int| 0 <= j < refs.len() && #[trigger] site_parts(refs[j])->Ok_0.0 == level
}

/// The paths of the levels.
pub open spec fn level_keys(lv: Seq<(Seq<Seq<char>>, Seq<FieldName>)>) -> Seq<Seq<Seq<char>>> {
    lv.map_values(|e: (Seq<Seq<char>>, Seq<FieldName>)| e.0)
}

proof fn lemma_level_keys(lv: Seq<(Seq<Seq<char>>, Seq<FieldName>)>)
    ensures
        level_keys(lv).len() == lv.len(),
        forall|k: int| 0 <= k < lv.len() ==> #[trigger] level_keys(lv)[k] == lv[k].0,
{
}

/// The order that `lv` gives for the object at `path`: the order of the
/// first entry for `path`, or no order at all.
pub open spec fn level_order_at(lv: Seq<(Seq<Seq<char>>, Seq<FieldName>)>, path: Seq<Seq<char>>) -> Seq<FieldName> {
    let i = first_index(level_keys(lv), path);
    if i < lv.len() {
        lv[i].1
    } else {
        Seq::empty()
    }
}

/// For each level that references constrain, its fields in dependency order.
pub struct Levels {
    entries: Vec<(Pointer, Vec<Pointer>)>,
}

impl View for Levels {
    type V = Seq<(Seq<Seq<char>>, Seq<FieldName>)>;

    closed spec fn view(&self) -> Seq<(Seq<Seq<char>>, Seq<FieldName>)> {
        self.entries@.map_values(|e: (Pointer, Vec<Pointer>)| (e.0@, names_of(e.1@)))
    }
}

impl Levels {
    /// The number of levels.
    pub fn len(&self) -> (n: usize)
        ensures
            n == self@.len(),
    {
        self.entries.len()
    }

    /// The level at position `k` and its order.
    pub fn entry(&self, k: usize) -> (r: (&Pointer, &Vec<Pointer>))
        requires
            k < self@.len(),
        ensures
            r.0@ == self@[k as int].0,
            names_of(r.1@) == self@[k as int].1,
    {
        let e = &self.entries[k];
        (&e.0, &e.1)
    }

    /// The order of the level at `path`, if references constrain it.
    pub fn get(&self, path: &Pointer) -> (r: Option<&Vec<Pointer>>)
        ensures
            r matches Some(v) ==> exists|k: int|
                0 <= k < self@.len() && self@[k].0 == path@ && #[trigger] self@[k].1 == names_of(v@),
            r is None ==> forall|k: int| 0 <= k < self@.len() ==> #[trigger] self@[k].0 != path@,
            names_of(match r { Some(v) => v@, None => Seq::empty() }) == level_order_at(self@, path@),
    {
        proof {
            lemma_level_keys(self@);
        }
        let mut k: usize = 0;
        while k < self.entries.len()
            invariant
                k <= self@.len(),
                forall|k2: int| 0 <= k2 < k ==> #[trigger] self@[k2].0 != path@,
            decreases self@.len() - k,
        {
            if self.entries[k].0.equals(path) {
                assert(self@[k as int].1 == names_of(self.entries@[k as int].1@));
                proof {
                    crate::json::lemma_first_index(level_keys(self@), path@, k as int);
                }
                return Some(&self.entries[k].1);
            }
            k = k + 1;
        }
        proof {
            crate::json::lemma_first_index(level_keys(self@), path@, k as int);
            assert(names_of(Seq::<Pointer>::empty()) =~= Seq::<FieldName>::empty());
        }
        None
    }
}

/// The order of one level: its graph sorted topologically, as names.
fn level_order(ld: &LevelDag, Ghost(e): Ghost<Set<(FieldName, FieldName)>>) -> (order: Vec<Pointer>)
    requires
        ld.models(e),
    ensures
        is_level_order(names_of(order@), e),
{
    let ghost names = ld.names_view();
    let ghost succ = dag_successors(ld.graph);
    proof {
        lemma_models_acyclic(names, succ, e);
    }
    let idx = match dag_toposort(&ld.graph) {
        Ok(v) => v,
        Err(()) => {
            assert(false);
            Vec::new()
        },
    };
    let mut order: Vec<Pointer> = Vec::new();
    let mut i: usize = 0;
    while i < idx.len()
        invariant
            is_topological_order(succ, idx@),
            names == ld.names_view(),
            succ.len() == names.len(),
            i <= idx@.len(),
            order@.len() == i,
            forall|k: int| 0 <= k < i ==> #[trigger] order@[k]@ == names[idx@[k] as int],
        decreases idx@.len() - i,
    {
        order.push(ld.names[idx[i]].duplicate());
        i = i + 1;
    }
    let ghost on = names_of(order@);
    assert forall|a: int, b: int|
        #![trigger on[a], on[b]]
        0 <= a < on.len() && 0 <= b < on.len() && a != b implies on[a] != on[b] by {
        assert(on[a] == names[idx@[a] as int]);
        assert(on[b] == names[idx@[b] as int]);
    }
    assert forall|x: FieldName| #[trigger] on.contains(x) <==> is_node_of(e, x) by {
        if on.contains(x) {
            let a = choose|a: int| 0 <= a < on.len() && on[a] == x;
            assert(on[a] == names[idx@[a] as int]);
            assert(is_node_of(e, names[idx@[a] as int]));
        }
        if is_node_of(e, x) {
            let y = choose|y: FieldName| e.contains((x, y)) || e.contains((y, x));
            assert(names.contains(x));
            let m = choose|m: int| 0 <= m < names.len() && names[m] == x;
            assert(idx@.contains(m as usize));
            let a = choose|a: int| 0 <= a < idx@.len() && idx@[a] == m as usize;
            assert(on[a] == x);
        }
    }
    assert forall|a: int, b: int|
        0 <= a < on.len() && 0 <= b < on.len() && #[trigger] e.contains((on[a], on[b])) implies a < b by {
        assert(on[a] == names[idx@[a] as int]);
        assert(on[b] == names[idx@[b] as int]);
        assert(succ[idx@[a] as int].contains(idx@[b] as int));
    }
    order
}

/// Inspects a declaration: every reference is placed in the dependency graph
/// of its level, and each level's fields are ordered so that a field comes
/// after the fields it references. Fails at the first reference (in the order
/// of the fields) that cannot be placed or that would close a cycle.
pub fn inspect_input_declaration(decl: InputDeclaration) -> (r: Result<(Levels, Declaration), InspectError>)
    requires
        sites_defined(decl_refs(decl, Seq::empty())),
    ensures
        r is Ok <==> refs_ok(decl_refs(decl, Seq::empty())),
        r matches Ok((levels, d)) ==> {
            &&& converts(d, decl)
            &&& levels_model(levels@, decl_refs(decl, Seq::empty()))
        },
        r matches Err(e) ==> exists|i: int|
            #[trigger] first_failure(decl_refs(decl, Seq::empty()), i) && e@ == site_error(
                decl_refs(decl, Seq::empty())[i],
            ),
{
    let ghost refs = decl_refs(decl, Seq::empty());
    let mut dags: Vec<LevelDag> = Vec::new();
    let mut path = Pointer::root();
    assert(Seq::<RefSite>::empty() + refs =~= refs);
    assert forall|level: Seq<Seq<char>>| #[trigger] is_acyclic(level_edges(Seq::<RefSite>::empty(), level)) by {
        assert(level_edges(Seq::<RefSite>::empty(), level) =~= Set::<(FieldName, FieldName)>::empty());
    }
    let d = match inspect_decl(&mut dags, &mut path, &decl, Ghost(Seq::empty())) {
        Ok(d) => d,
        Err(e) => {
            proof {
                let i = choose|i: int| 0 <= i && #[trigger] first_failure(refs, i) && e@ == site_error(refs[i]);
                if refs_ok(refs) {
                    lemma_refs_ok_prefix(refs, i + 1);
                }
            }
            return Err(e);
        },
    };
    let mut entries: Vec<(Pointer, Vec<Pointer>)> = Vec::new();
    let mut k: usize = 0;
    while k < dags.len()
        invariant
            state_models(dags@, refs),
            refs_ok(refs),
            k <= dags@.len(),
            entries@.len() == k,
            forall|k2: int| 0 <= k2 < k ==> #[trigger] entries@[k2].0@ == dags@[k2].level_view(),
            forall|k2: int| 0 <= k2 < k ==> is_level_order(
                #[trigger] names_of(entries@[k2].1@),
                level_edges(refs, dags@[k2].level_view()),
            ),
        decreases dags@.len() - k,
    {
        let order = level_order(&dags[k], Ghost(level_edges(refs, dags@[k as int].level_view())));
        let ghost prev = entries@;
        entries.push((dags[k].level.duplicate(), order));
        proof {
            assert forall|k2: int| 0 <= k2 < k + 1 implies is_level_order(
                #[trigger] names_of(entries@[k2].1@),
                level_edges(refs, dags@[k2].level_view()),
            ) by {
                if k2 < k {
                    assert(entries@[k2] == prev[k2]);
                }
            }
        }
        k = k + 1;
    }
    let levels = Levels { entries };
    proof {
        let lv = levels@;
        assert forall|k2: int| 0 <= k2 < lv.len() implies #[trigger] lv[k2].0 == dags@[k2].level_view()
            && lv[k2].1 == names_of(entries@[k2].1@) by {}
        assert forall|k1: int, k2: int|
            #![trigger lv[k1], lv[k2]]
            0 <= k1 < lv.len() && 0 <= k2 < lv.len() && k1 != k2 implies lv[k1].0 != lv[k2].0 by {
            assert(lv[k1].0 == dags@[k1].level_view());
            assert(lv[k2].0 == dags@[k2].level_view());
        }
        assert forall|j: int| 0 <= j < refs.len() implies level_listed(lv, #[trigger] site_parts(refs[j])->Ok_0.0) by {
            let l = site_parts(refs[j])->Ok_0.0;
            assert(has_level(dags@, l));
            let kk = choose|kk: int| 0 <= kk < dags@.len() && #[trigger] dags@[kk].level_view() == l;
            assert(lv[kk].0 == l);
        }
        assert forall|k: int| 0 <= k < lv.len() implies level_named(refs, #[trigger] lv[k].0) by {
            let l = dags@[k].level_view();
            assert(lv[k].0 == l);
            assert(dags@[k].models(level_edges(refs, l)));
            let n0 = dags@[k].names_view()[0];
            assert(is_node_of(level_edges(refs, l), n0));
            let y = choose|y: FieldName| level_edges(refs, l).contains((n0, y)) || level_edges(refs, l).contains((y, n0));
            if level_edges(refs, l).contains((n0, y)) {
                let j = choose|j: int| 0 <= j < refs.len() && #[trigger] site_parts(refs[j]) == Ok::<
                    (Seq<Seq<char>>, FieldName, FieldName),
                    SpecRefError,
                >((l, y, n0));
                assert(site_parts(refs[j])->Ok_0.0 == l);
            } else {
                let j = choose|j: int| 0 <= j < refs.len() && #[trigger] site_parts(refs[j]) == Ok::<
                    (Seq<Seq<char>>, FieldName, FieldName),
                    SpecRefError,
                >((l, n0, y));
                assert(site_parts(refs[j])->Ok_0.0 == l);
            }
        }
        assert forall|k: int| 0 <= k < lv.len() implies is_level_order(#[trigger] lv[k].1, level_edges(refs, lv[k].0)) by {
            assert(lv[k].0 == dags@[k].level_view());
            assert(lv[k].1 == names_of(entries@[k].1@));
        }
        assert(levels_model(lv, refs));
    }
    assert(converts(d, decl));
    Ok((levels, d))
}

} // verus!
