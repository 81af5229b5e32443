//! Commit identifiers: opaque tokens with byte-wise equality and order.

use vstd::prelude::*;
use vstd::std_specs::cmp::PartialEqSpecImpl;
use vstd::std_specs::convert::FromSpec;
use vstd::std_specs::convert::FromSpecImpl;
use vstd::string::*;
use vstd::utf8::*;

verus! {

/// Number of leading characters of an identifier that a label shows.
pub const SHORT_LEN: usize = 9;

/// Lexicographic comparison of two byte strings from index `i` on, given that
/// they agree before `i`: true when `a` runs out first, or holds the smaller
/// byte at the first index where they differ.
pub open spec fn bytes_less_from(a: Seq<u8>, b: Seq<u8>, i: int) -> bool
    decreases a.len() - i,
{
    if i >= b.len() {
        false
    } else if i >= a.len() {
        true
    } else if a[i] != b[i] {
        a[i] < b[i]
    } else {
        bytes_less_from(a, b, i + 1)
    }
}

/// `a` comes strictly before `b` in lexicographic byte order.
pub open spec fn bytes_less(a: Seq<u8>, b: Seq<u8>) -> bool {
    bytes_less_from(a, b, 0)
}

/// Order of identifiers: the byte order of their UTF-8 encodings.
pub open spec fn id_less(a: Seq<char>, b: Seq<char>) -> bool {
    bytes_less(encode_utf8(a), encode_utf8(b))
}

/// The part of an identifier that a label shows: its first `SHORT_LEN`
/// characters, or all of it when it is shorter.
pub open spec fn short_id(id: Seq<char>) -> Seq<char> {
    if id.len() <= SHORT_LEN {
        id
    } else {
        id.subrange(0, SHORT_LEN as int)
    }
}

/// The byte order is asymmetric.
pub proof fn lemma_bytes_less_asymmetric(a: Seq<u8>, b: Seq<u8>, i: int)
    requires
        bytes_less_from(a, b, i),
    ensures
        !bytes_less_from(b, a, i),
    decreases a.len() - i,
{
    if i < b.len() && i < a.len() && a[i] == b[i] {
        lemma_bytes_less_asymmetric(a, b, i + 1);
    }
}

/// Two byte strings that agree before `i` and are unordered from `i` on are equal.
pub proof fn lemma_bytes_less_total(a: Seq<u8>, b: Seq<u8>, i: int)
    requires
        0 <= i <= a.len(),
        i <= b.len(),
        forall|j: int| 0 <= j < i ==> a[j] == b[j],
        !bytes_less_from(a, b, i),
        !bytes_less_from(b, a, i),
    ensures
        a == b,
    decreases a.len() - i,
{
    if i < a.len() && i < b.len() {
        lemma_bytes_less_total(a, b, i + 1);
    } else {
        assert(a =~= b);
    }
}

/// The byte order is transitive.
pub proof fn lemma_bytes_less_transitive(a: Seq<u8>, b: Seq<u8>, c: Seq<u8>, i: int)
    requires
        0 <= i,
        bytes_less_from(a, b, i),
        bytes_less_from(b, c, i),
    ensures
        bytes_less_from(a, c, i),
    decreases a.len() - i,
{
    if i < a.len() && i < b.len() && i < c.len() && a[i] == b[i] && b[i] == c[i] {
        lemma_bytes_less_transitive(a, b, c, i + 1);
    }
}

/// The order of identifiers is a strict total order: of two identifiers
/// exactly one precedes the other, unless they are the same.
pub proof fn lemma_id_order(a: Seq<char>, b: Seq<char>)
    ensures
        !(id_less(a, b) && id_less(b, a)),
        !id_less(a, a),
        a != b ==> id_less(a, b) || id_less(b, a),
{
    let x = encode_utf8(a);
    let y = encode_utf8(b);
    if bytes_less_from(x, y, 0) {
        lemma_bytes_less_asymmetric(x, y, 0);
    }
    if bytes_less_from(x, x, 0) {
        lemma_bytes_less_asymmetric(x, x, 0);
    }
    if !id_less(a, b) && !id_less(b, a) {
        lemma_bytes_less_total(x, y, 0);
        encode_utf8_decode_utf8(a);
        encode_utf8_decode_utf8(b);
    }
}

/// The order of identifiers is transitive.
pub proof fn lemma_id_order_transitive(a: Seq<char>, b: Seq<char>, c: Seq<char>)
    requires
        id_less(a, b),
        id_less(b, c),
    ensures
        id_less(a, c),
{
    lemma_bytes_less_transitive(encode_utf8(a), encode_utf8(b), encode_utf8(c), 0);
}

/// Identifier of a commit. Its view is the identifier's text.
#[derive(Debug, Hash)]
pub struct Commit(String);

impl View for Commit {
    type V = Seq<char>;

    closed spec fn view(&self) -> Seq<char> {
        self.0@
    }
}

impl Clone for Commit {
    fn clone(&self) -> (copy: Commit)
        ensures
            copy@ == self@,
    {
        Commit(self.0.clone())
    }
}

impl PartialEq for Commit {
    fn eq(&self, other: &Commit) -> (same: bool) {
        self.0 == other.0
    }
}

impl PartialEqSpecImpl for Commit {
    open spec fn obeys_eq_spec() -> bool {
        true
    }

    open spec fn eq_spec(&self, other: &Commit) -> bool {
        self@ == other@
    }
}

impl Eq for Commit {

}

impl From<String> for Commit {
    fn from(id: String) -> (commit: Commit) {
        Commit(id)
    }
}

impl FromSpecImpl<String> for Commit {
    open spec fn obeys_from_spec() -> bool {
        true
    }

    closed spec fn from_spec(id: String) -> Commit {
        Commit(id)
    }
}

impl Commit {
    /// Wraps an identifier.
    pub fn new(id: String) -> (commit: Commit)
        ensures
            commit@ == id@,
    {
        Commit(id)
    }

    /// The identifier's text.
    pub fn as_str(&self) -> (text: &str)
        ensures
            text@ == self@,
    {
        self.0.as_str()
    }

    /// Whether `self` comes strictly before `other` in byte order.
    pub fn precedes(&self, other: &Commit) -> (before: bool)
        ensures
            before == id_less(self@, other@),
    {
        let a = self.0.as_str().as_bytes();
        let b = other.0.as_str().as_bytes();
        let mut i: usize = 0;
        while i < a.len() && i < b.len()
            invariant
                i <= a.len(),
                i <= b.len(),
                a@ == encode_utf8(self@),
                b@ == encode_utf8(other@),
                id_less(self@, other@) == bytes_less_from(a@, b@, i as int),
            decreases a.len() - i,
        {
            if a[i] != b[i] {
                return a[i] < b[i];
            }
            i += 1;
        }
        i < b.len()
    }

    /// The first `SHORT_LEN` characters of the identifier.
    pub fn short(&self) -> (prefix: String)
        ensures
            prefix@ == short_id(self@),
    {
        let text = self.0.as_str();
        let len = text.unicode_len();
        if len <= SHORT_LEN {
            text.to_owned()
        } else {
            text.substring_char(0, SHORT_LEN).to_owned()
        }
    }
}

/// The identifiers of a list of commits.
pub open spec fn ids(commits: Seq<Commit>) -> Seq<Seq<char>> {
    Seq::new(commits.len(), |k: int| commits[k]@)
}

/// What `Commit::from` makes of a string.
pub proof fn lemma_from_string(id: String)
    ensures
        <Commit as FromSpec<String>>::from_spec(id)@ == id@,
{
}

} // verus!
