//! JSON pointers (RFC 6901) held as their sequence of decoded tokens.

use vstd::prelude::*;

verus! {

/// The encoded form of one token: `~` is written `~0` and `/` is written `~1`.
pub open spec fn escape_token(t: Seq<char>) -> Seq<char>
    decreases t.len(),
{
    if t.len() == 0 {
        Seq::empty()
    } else {
        let c = t.last();
        escape_token(t.drop_last()) + if c == '~' {
            seq!['~', '0']
        } else if c == '/' {
            seq!['~', '1']
        } else {
            seq![c]
        }
    }
}

/// The string form of a pointer: each token preceded by `/`, in encoded form.
pub open spec fn encode_pointer(toks: Seq<Seq<char>>) -> Seq<char>
    decreases toks.len(),
{
    if toks.len() == 0 {
        Seq::empty()
    } else {
        encode_pointer(toks.drop_last()) + seq!['/'] + escape_token(toks.last())
    }
}

/// Length of the longest common prefix of two token sequences, stated by its
/// defining property.
pub open spec fn is_common_prefix_len(a: Seq<Seq<char>>, b: Seq<Seq<char>>, n: int) -> bool {
    &&& 0 <= n <= a.len()
    &&& n <= b.len()
    &&& a.take(n) == b.take(n)
    &&& (n < a.len() && n < b.len() ==> a[n] != b[n])
}

/// Length of the longest common prefix of two token sequences.
pub open spec fn lcp_len(a: Seq<Seq<char>>, b: Seq<Seq<char>>) -> nat
    decreases a.len(),
{
    if a.len() == 0 || b.len() == 0 || a[0] != b[0] {
        0
    } else {
        1 + lcp_len(a.drop_first(), b.drop_first())
    }
}

/// `lcp_len` is the one length with the common-prefix property.
pub proof fn lemma_lcp_len_unique(a: Seq<Seq<char>>, b: Seq<Seq<char>>, n: int)
    requires
        is_common_prefix_len(a, b, n),
    ensures
        n == lcp_len(a, b),
    decreases a.len(),
{
    if n > 0 {
        assert(a[0] == a.take(n)[0]);
        assert(b[0] == b.take(n)[0]);
        assert(a.drop_first().take(n - 1) =~= a.take(n).drop_first());
        assert(b.drop_first().take(n - 1) =~= b.take(n).drop_first());
        lemma_lcp_len_unique(a.drop_first(), b.drop_first(), n - 1);
    }
}

/// `jsonptr::Token::new(token).encoded()`: the token written in its RFC 6901
/// encoded form, every `~` replaced by `~0` and every `/` by `~1`.
#[verifier::external_body]
fn encode_token(token: &str) -> (res: String)
    ensures
        res@ == escape_token(token@),
{
    jsonptr::Token::new(token).encoded().to_string()
}

/// A JSON pointer, held as its decoded tokens.
#[derive(Debug, Clone, PartialEq, Eq)]
pub struct Pointer {
    tokens: Vec<String>,
}

impl View for Pointer {
    type V = Seq<Seq<char>>;

    closed spec fn view(&self) -> Seq<Seq<char>> {
        self.tokens@.map_values(|t: String| t@)
    }
}

/// Copies a vector of strings.
fn copy_strings(v: &Vec<String>) -> (r: Vec<String>)
    ensures
        r@.map_values(|t: String| t@) == v@.map_values(|t: String| t@),
{
    let mut r: Vec<String> = Vec::new();
    let mut i: usize = 0;
    while i < v.len()
        invariant
            i <= v.len(),
            r@.len() == i,
            forall|j: int| 0 <= j < i ==> r@[j]@ == v@[j]@,
        decreases v.len() - i,
    {
        r.push(v[i].clone());
        i = i + 1;
    }
    assert(r@.map_values(|t: String| t@) =~= v@.map_values(|t: String| t@));
    r
}

impl Pointer {
    /// The root pointer, with no tokens.
    pub fn root() -> (p: Pointer)
        ensures
            p@ == Seq::<Seq<char>>::empty(),
    {
        let p = Pointer { tokens: Vec::new() };
        assert(p@ =~= Seq::<Seq<char>>::empty());
        p
    }

    /// The pointer made of the given decoded tokens.
    pub fn from_tokens(tokens: Vec<String>) -> (p: Pointer)
        ensures
            p@ == tokens@.map_values(|t: String| t@),
    {
        Pointer { tokens }
    }

    /// The pointer made of one decoded token.
    pub fn from_token(token: &str) -> (p: Pointer)
        ensures
            p@ == seq![token@],
    {
        let mut tokens: Vec<String> = Vec::new();
        tokens.push(token.to_owned());
        let p = Pointer { tokens };
        assert(p@ =~= seq![token@]);
        p
    }

    /// A copy of this pointer.
    pub fn duplicate(&self) -> (p: Pointer)
        ensures
            p@ == self@,
    {
        Pointer { tokens: copy_strings(&self.tokens) }
    }

    /// Whether the two pointers have the same tokens.
    pub fn equals(&self, other: &Pointer) -> (b: bool)
        ensures
            b == (self@ == other@),
    {
        if self.tokens.len() != other.tokens.len() {
            return false;
        }
        let mut i: usize = 0;
        while i < self.tokens.len()
            invariant
                self@.len() == other@.len(),
                i <= self@.len(),
                forall|j: int| 0 <= j < i ==> self@[j] == other@[j],
            decreases self@.len() - i,
        {
            if self.tokens[i] != other.tokens[i] {
                assert(self@[i as int] != other@[i as int]);
                return false;
            }
            i = i + 1;
        }
        assert(self@ =~= other@);
        true
    }

    /// The number of tokens.
    pub fn len(&self) -> (n: usize)
        ensures
            n == self@.len(),
    {
        self.tokens.len()
    }

    /// Whether this is the root pointer.
    pub fn is_root(&self) -> (b: bool)
        ensures
            b == (self@.len() == 0),
    {
        self.tokens.len() == 0
    }

    /// The decoded token at position `i`.
    pub fn token(&self, i: usize) -> (t: &String)
        requires
            i < self@.len(),
        ensures
            t@ == self@[i as int],
    {
        &self.tokens[i]
    }

    /// Appends a decoded token.
    pub fn push_back(&mut self, token: &str)
        ensures
            final(self)@ == old(self)@.push(token@),
    {
        self.tokens.push(token.to_owned());
        assert(self@ =~= old(self)@.push(token@));
    }

    /// Removes and returns the last token, if there is one.
    pub fn pop_back(&mut self) -> (t: Option<String>)
        ensures
            old(self)@.len() == 0 ==> t is None && final(self)@ == old(self)@,
            old(self)@.len() > 0 ==> t is Some && t->0@ == old(self)@.last()
                && final(self)@ == old(self)@.drop_last(),
    {
        if self.tokens.len() == 0 {
            return None;
        }
        let t = self.tokens.pop();
        assert(self@ =~= old(self)@.drop_last());
        t
    }

    /// The first token, if there is one.
    pub fn first(&self) -> (t: Option<String>)
        ensures
            self@.len() == 0 ==> t is None,
            self@.len() > 0 ==> t is Some && t->0@ == self@[0],
    {
        if self.tokens.len() == 0 {
            None
        } else {
            Some(self.tokens[0].clone())
        }
    }

    /// The pointer without its last token; `None` for the root.
    pub fn parent(&self) -> (p: Option<Pointer>)
        ensures
            self@.len() == 0 ==> p is None,
            self@.len() > 0 ==> p is Some && p->0@ == self@.drop_last(),
    {
        if self.tokens.len() == 0 {
            None
        } else {
            let mut q = self.duplicate();
            q.pop_back();
            Some(q)
        }
    }

    /// The tokens that follow `prefix`, when `prefix` is a prefix of this pointer.
    pub fn strip_prefix(&self, prefix: &Pointer) -> (r: Option<Pointer>)
        ensures
            prefix@.is_prefix_of(self@) ==> r is Some && r->0@ == self@.skip(prefix@.len() as int),
            !prefix@.is_prefix_of(self@) ==> r is None,
    {
        let n = prefix.tokens.len();
        if n > self.tokens.len() {
            return None;
        }
        let mut i: usize = 0;
        while i < n
            invariant
                n == prefix@.len(),
                n <= self@.len(),
                i <= n,
                forall|j: int| 0 <= j < i ==> prefix@[j] == self@[j],
            decreases n - i,
        {
            if self.tokens[i] != prefix.tokens[i] {
                assert(prefix@[i as int] != self@[i as int]);
                return None;
            }
            i = i + 1;
        }
        let mut rest: Vec<String> = Vec::new();
        let mut k: usize = n;
        while k < self.tokens.len()
            invariant
                n <= k <= self@.len(),
                rest@.len() == k - n,
                forall|j: int| 0 <= j < k - n ==> rest@[j]@ == self@[n + j],
            decreases self@.len() - k,
        {
            rest.push(self.tokens[k].clone());
            k = k + 1;
        }
        let r = Pointer { tokens: rest };
        assert(r@ =~= self@.skip(n as int));
        Some(r)
    }

    /// The longest common prefix of the two pointers, token by token.
    pub fn intersection(&self, other: &Pointer) -> (r: Pointer)
        ensures
            r@.len() == lcp_len(self@, other@),
            is_common_prefix_len(self@, other@, r@.len() as int),
            r@ == self@.take(r@.len() as int),
    {
        let mut toks: Vec<String> = Vec::new();
        let mut i: usize = 0;
        let mut differ = false;
        while !differ && i < self.tokens.len() && i < other.tokens.len()
            invariant
                i <= self@.len(),
                i <= other@.len(),
                toks@.len() == i,
                forall|j: int| 0 <= j < i ==> toks@[j]@ == self@[j] && self@[j] == other@[j],
                differ ==> i < self@.len() && i < other@.len() && self@[i as int] != other@[i as int],
            decreases self@.len() - i, if differ { 0int } else { 1int },
        {
            if self.tokens[i] != other.tokens[i] {
                differ = true;
            } else {
                toks.push(self.tokens[i].clone());
                i = i + 1;
            }
        }
        let r = Pointer { tokens: toks };
        assert(r@ =~= self@.take(i as int));
        assert(self@.take(i as int) =~= other@.take(i as int));
        proof {
            lemma_lcp_len_unique(self@, other@, i as int);
        }
        r
    }

    /// This pointer followed by the tokens of `other`.
    pub fn concat(&self, other: &Pointer) -> (r: Pointer)
        ensures
            r@ == self@ + other@,
    {
        let mut toks = copy_strings(&self.tokens);
        let mut i: usize = 0;
        while i < other.tokens.len()
            invariant
                i <= other@.len(),
                toks@.map_values(|t: String| t@) == self@ + other@.take(i as int),
            decreases other@.len() - i,
        {
            let ghost before = toks@;
            toks.push(other.tokens[i].clone());
            assert(toks@.map_values(|t: String| t@) =~= before.map_values(|t: String| t@).push(other@[i as int]));
            assert(other@.take(i + 1) =~= other@.take(i as int).push(other@[i as int]));
            i = i + 1;
        }
        assert(other@.take(other@.len() as int) =~= other@);
        Pointer { tokens: toks }
    }

    /// The RFC 6901 string form of this pointer.
    pub fn to_encoded(&self) -> (s: String)
        ensures
            s@ == encode_pointer(self@),
    {
        let mut s = String::new();
        let mut i: usize = 0;
        while i < self.tokens.len()
            invariant
                i <= self@.len(),
                s@ == encode_pointer(self@.take(i as int)),
            decreases self@.len() - i,
        {
            let enc = encode_token(self.tokens[i].as_str());
            s.append("/");
            s.append(enc.as_str());
            proof {
                reveal_strlit("/");
                assert(self@.take(i + 1).drop_last() =~= self@.take(i as int));
            }
            i = i + 1;
        }
        assert(self@.take(self@.len() as int) =~= self@);
        s
    }
}

} // verus!
