//! The input form of a declaration and the shorthand grammar of utilities.

use vstd::prelude::*;
use crate::inspect::split_chars;

verus! {

/// A utility as written in the input.
#[derive(Debug, Clone, PartialEq, Eq)]
pub enum InputUtil {
    /// A reference to another field, by a `/`-separated pattern; a leading
    /// `/` makes it absolute.
    Ref { pattern: String },
    /// A fake first name.
    FirstName,
    /// A fake last name.
    LastName,
}

/// A utility written as one string, such as `FirstName` or `/a/b`.
#[derive(Debug, Clone, PartialEq, Eq)]
pub struct ShorthandUtil(pub InputUtil);

/// A declaration as read from the input: a utility in its short or long form,
/// or an object of named declarations, in input order. Input read from a JSON
/// object has distinct names; a name given twice is inspected at each
/// occurrence, and its generated object holds one member for it.
#[derive(Debug, PartialEq, Eq)]
pub enum InputDeclaration {
    ShorthandUtil(ShorthandUtil),
    LonghandUtil(InputUtil),
    Object(Vec<(String, InputDeclaration)>),
}


/// A utility as an abstract value.
pub enum UtilForm {
    Ref(Seq<char>),
    FirstName,
    LastName,
}

impl View for InputUtil {
    type V = UtilForm;

    open spec fn view(&self) -> UtilForm {
        match self {
            InputUtil::Ref { pattern } => UtilForm::Ref(pattern@),
            InputUtil::FirstName => UtilForm::FirstName,
            InputUtil::LastName => UtilForm::LastName,
        }
    }
}

/// A character that may start an identifier: an ASCII letter or `_`.
pub open spec fn is_ident_start(c: char) -> bool {
    ('a' <= c && c <= 'z') || ('A' <= c && c <= 'Z') || c == '_'
}

/// A character that may continue an identifier: an ASCII letter, digit or `_`.
pub open spec fn is_ident_char(c: char) -> bool {
    is_ident_start(c) || ('0' <= c && c <= '9')
}

/// An identifier: a letter or `_`, then letters, digits and `_`.
pub open spec fn is_ident(s: Seq<char>) -> bool {
    &&& s.len() > 0
    &&& is_ident_start(s[0])
    &&& forall|i: int| 1 <= i < s.len() ==> is_ident_char(#[trigger] s[i])
}

/// A reference pattern: identifiers separated by `/`, with an optional
/// leading `/`.
pub open spec fn is_ref_pattern(s: Seq<char>) -> bool {
    forall|k: int|
        0 <= k < split_chars(ref_body(s), '/').len() ==> is_ident(
            #[trigger] split_chars(ref_body(s), '/')[k],
        )
}

/// A pattern without its leading `/`, if it has one.
pub open spec fn ref_body(s: Seq<char>) -> Seq<char> {
    if s.len() > 0 && s[0] == '/' {
        s.drop_first()
    } else {
        s
    }
}

/// What the shorthand grammar reads from `s`: the text `FirstName` or
/// `LastName`; nothing else that begins with one of them; otherwise a
/// reference pattern.
pub open spec fn spec_parse_util(s: Seq<char>) -> Option<UtilForm> {
    if "FirstName"@.is_prefix_of(s) {
        if s == "FirstName"@ { Some(UtilForm::FirstName) } else { None }
    } else if "LastName"@.is_prefix_of(s) {
        if s == "LastName"@ { Some(UtilForm::LastName) } else { None }
    } else if is_ref_pattern(s) {
        Some(UtilForm::Ref(s))
    } else {
        None
    }
}

/// A shorthand utility that the grammar does not accept.
#[derive(Debug, Clone, PartialEq, Eq)]
pub struct ParseError {
    /// The text that was refused.
    pub input: String,
}

/// Whether `lit` is a prefix of `s`.
fn has_prefix(s: &str, lit: &str) -> (b: bool)
    ensures
        b == lit@.is_prefix_of(s@),
{
    let n = lit.unicode_len();
    if n > s.unicode_len() {
        return false;
    }
    let mut i: usize = 0;
    while i < n
        invariant
            n == lit@.len(),
            n <= s@.len(),
            i <= n,
            forall|j: int| 0 <= j < i ==> lit@[j] == s@[j],
        decreases n - i,
    {
        if lit.get_char(i) != s.get_char(i) {
            return false;
        }
        i = i + 1;
    }
    true
}

/// The pieces of `t` between `/` are identifiers, except that the last may
/// still be empty.
pub open spec fn pieces_so_far_ok(t: Seq<char>) -> bool {
    let p = split_chars(t, '/');
    &&& forall|k: int| 0 <= k < p.len() - 1 ==> is_ident(#[trigger] p[k])
    &&& (p.last().len() == 0 || is_ident(p.last()))
}

/// Whether the whole of `s` is a reference pattern.
fn parse_ref(s: &str) -> (b: bool)
    ensures
        b == is_ref_pattern(s@),
{
    let n = s.unicode_len();
    let start: usize = if n > 0 && s.get_char(0) == '/' { 1 } else { 0 };
    let ghost body = s@.skip(start as int);
    let mut ok = true;
    let mut cur_len: usize = 0;
    let mut i: usize = start;
    proof {
        crate::inspect::lemma_split_chars_nonempty(body.take(0), '/');
        assert(body.take(0) =~= Seq::<char>::empty());
    }
    while i < n
        invariant
            n == s@.len(),
            start <= i <= n,
            start <= 1,
            (start == 1) == (s@.len() > 0 && s@[0] == '/'),
            body == s@.skip(start as int),
            split_chars(body.take(i - start), '/').len() >= 1,
            cur_len == split_chars(body.take(i - start), '/').last().len(),
            cur_len <= i,
            ok == pieces_so_far_ok(body.take(i - start)),
        decreases n - i,
    {
        let c = s.get_char(i);
        let ghost t = body.take(i - start);
        let ghost t2 = body.take(i + 1 - start);
        let ghost p = split_chars(t, '/');
        assert(t2.drop_last() =~= t);
        assert(t2.last() == c);
        let ghost p2 = split_chars(t2, '/');
        if c == '/' {
            assert(p2 == p.push(Seq::<char>::empty()));
            assert(p2.drop_last() =~= p);
            proof {
                assert forall|k: int| 0 <= k < p2.len() - 1 implies #[trigger] p2[k] == p[k] by {}
                if ok && cur_len > 0 {
                    assert forall|k: int| 0 <= k < p2.len() - 1 implies is_ident(#[trigger] p2[k]) by {
                        assert(p2[k] == p[k]);
                        if k < p.len() - 1 {
                            assert(is_ident(p[k]));
                        }
                    }
                    assert(pieces_so_far_ok(t2));
                }
                if pieces_so_far_ok(t2) {
                    assert(is_ident(p2[p.len() - 1]));
                    assert forall|k: int| 0 <= k < p.len() - 1 implies is_ident(#[trigger] p[k]) by {
                        assert(is_ident(p2[k]));
                    }
                    assert(pieces_so_far_ok(t));
                }
            }
            ok = ok && cur_len > 0;
            cur_len = 0;
        } else {
            assert(p2 == p.update(p.len() - 1, p.last().push(c)));
            let good = if cur_len == 0 { c == '_' || ('a' <= c && c <= 'z') || ('A' <= c && c <= 'Z') } else {
                c == '_' || ('a' <= c && c <= 'z') || ('A' <= c && c <= 'Z') || ('0' <= c && c <= '9')
            };
            proof {
                let l2 = p.last().push(c);
                assert(p2.last() == l2);
                assert forall|k: int| 0 <= k < p2.len() - 1 implies #[trigger] p2[k] == p[k] by {}
                if cur_len > 0 {
                    assert(is_ident(l2) <==> is_ident(p.last()) && is_ident_char(c)) by {
                        if is_ident(l2) {
                            assert(l2[0] == p.last()[0]);
                            assert forall|j: int| 1 <= j < p.last().len() implies is_ident_char(#[trigger] p.last()[j]) by {
                                assert(l2[j] == p.last()[j]);
                            }
                            assert(l2[l2.len() - 1] == c);
                        }
                        if is_ident(p.last()) && is_ident_char(c) {
                            assert forall|j: int| 1 <= j < l2.len() implies is_ident_char(#[trigger] l2[j]) by {
                                if j < p.last().len() {
                                    assert(l2[j] == p.last()[j]);
                                }
                            }
                        }
                    }
                } else {
                    assert(l2 =~= seq![c]);
                }
                let ok2 = ok && good;
                if ok2 {
                    assert forall|k: int| 0 <= k < p2.len() - 1 implies is_ident(#[trigger] p2[k]) by {
                        assert(is_ident(p[k]));
                    }
                    assert(pieces_so_far_ok(t2));
                }
                if pieces_so_far_ok(t2) {
                    assert forall|k: int| 0 <= k < p.len() - 1 implies is_ident(#[trigger] p[k]) by {
                        assert(is_ident(p2[k]));
                    }
                    assert(is_ident(l2));
                    assert(pieces_so_far_ok(t));
                }
            }
            ok = ok && good;
            cur_len = cur_len + 1;
        }
        i = i + 1;
    }
    proof {
        assert(body.take(n - start) =~= body);
        if start == 1 {
            assert(body =~= s@.drop_first());
        } else {
            assert(body =~= s@);
        }
        assert(ref_body(s@) == body);
        let p = split_chars(body, '/');
        if ok && cur_len > 0 {
            assert forall|k: int| 0 <= k < p.len() implies is_ident(#[trigger] p[k]) by {}
        }
        if is_ref_pattern(s@) {
            assert(p.len() >= 1);
            assert(is_ident(p[p.len() - 1]));
            assert forall|k: int| 0 <= k < p.len() - 1 implies is_ident(#[trigger] p[k]) by {}
        }
    }
    ok && cur_len > 0
}

/// Reads a utility in the shorthand grammar: `FirstName`, `LastName`, or a
/// reference pattern. Text that begins with `FirstName` or `LastName` is read
/// as that name and must end there.
pub fn parse_util(input: &str) -> (r: Result<InputUtil, ParseError>)
    ensures
        r matches Ok(u) ==> spec_parse_util(input@) == Some(u@),
        r matches Err(e) ==> spec_parse_util(input@) is None && e.input@ == input@,
{
    if has_prefix(input, "FirstName") {
        if input.unicode_len() == "FirstName".unicode_len() {
            assert(input@ =~= "FirstName"@);
            return Ok(InputUtil::FirstName);
        }
        return Err(ParseError { input: input.to_owned() });
    }
    if has_prefix(input, "LastName") {
        if input.unicode_len() == "LastName".unicode_len() {
            assert(input@ =~= "LastName"@);
            return Ok(InputUtil::LastName);
        }
        return Err(ParseError { input: input.to_owned() });
    }
    if parse_ref(input) {
        Ok(InputUtil::Ref { pattern: input.to_owned() })
    } else {
        Err(ParseError { input: input.to_owned() })
    }
}

impl ShorthandUtil {
    /// Reads a shorthand utility (see `parse_util`).
    pub fn try_from(input: String) -> (r: Result<ShorthandUtil, ParseError>)
        ensures
            r matches Ok(u) ==> spec_parse_util(input@) == Some(u.0@),
            r matches Err(e) ==> spec_parse_util(input@) is None && e.input@ == input@,
    {
        match parse_util(input.as_str()) {
            Ok(u) => Ok(ShorthandUtil(u)),
            Err(e) => Err(e),
        }
    }
}

} // verus!
