//! Verified helpers over node names and labels.
//!
//! Node identity is equality of character sequences; ordering between names
//! is byte-wise lexicographic order on their UTF-8 encodings, which is the
//! order the standard library gives `str`.

use vstd::prelude::*;
use vstd::string::StringSliceAdditionalSpecFns;

verus! {

/// Byte-wise lexicographic strict order.
pub open spec fn lex_lt(a: Seq<u8>, b: Seq<u8>) -> bool
    decreases a.len(),
{
    if b.len() == 0 {
        false
    } else if a.len() == 0 {
        true
    } else if a[0] < b[0] {
        true
    } else if a[0] > b[0] {
        false
    } else {
        lex_lt(a.skip(1), b.skip(1))
    }
}

proof fn lemma_lex_lt_step(a: Seq<u8>, b: Seq<u8>)
    requires
        a.len() > 0,
        b.len() > 0,
        a[0] == b[0],
    ensures
        lex_lt(a, b) == lex_lt(a.skip(1), b.skip(1)),
{
}

/// When neither direction of `lex_lt` holds, the sequences are equal.
pub proof fn lemma_lex_trichotomy(a: Seq<u8>, b: Seq<u8>)
    requires
        !lex_lt(a, b),
        !lex_lt(b, a),
    ensures
        a =~= b,
    decreases a.len(),
{
    if a.len() > 0 && b.len() > 0 {
        if a[0] == b[0] {
            lemma_lex_trichotomy(a.skip(1), b.skip(1));
            assert(a =~= seq![a[0]] + a.skip(1));
            assert(b =~= seq![b[0]] + b.skip(1));
        }
    }
}

/// `lex_lt` is transitive.
pub proof fn lemma_lex_lt_trans(a: Seq<u8>, b: Seq<u8>, c: Seq<u8>)
    requires
        lex_lt(a, b),
        lex_lt(b, c),
    ensures
        lex_lt(a, c),
    decreases a.len(),
{
    if c.len() == 0 {
        assert(false);
    } else if b.len() == 0 {
        assert(false);
    } else if a.len() == 0 {
    } else {
        if a[0] < b[0] {
            if b[0] <= c[0] {
            } else {
                assert(false);
            }
        } else if a[0] == b[0] {
            if b[0] < c[0] {
            } else if b[0] == c[0] {
                lemma_lex_lt_trans(a.skip(1), b.skip(1), c.skip(1));
            } else {
                assert(false);
            }
        } else {
            assert(false);
        }
    }
}

/// The bytes of a string value.
pub open spec fn bytes_of(s: String) -> Seq<u8> {
    vstd::utf8::encode_utf8(s@)
}

/// `lex_lt` is a strict order: at most one direction holds.
pub proof fn lemma_lex_lt_asymmetric(a: Seq<u8>, b: Seq<u8>)
    ensures
        !(lex_lt(a, b) && lex_lt(b, a)),
    decreases a.len(),
{
    if a.len() > 0 && b.len() > 0 && a[0] == b[0] {
        lemma_lex_lt_asymmetric(a.skip(1), b.skip(1));
    }
}

/// Strict byte-wise lexicographic comparison of two strings.
pub fn str_lt(a: &str, b: &str) -> (r: bool)
    ensures
        r == lex_lt(a.spec_bytes(), b.spec_bytes()),
{
    let ab: &[u8] = a.as_bytes();
    let bb: &[u8] = b.as_bytes();
    let mut i: usize = 0;
    proof {
        assert(ab@.skip(0) =~= ab@);
        assert(bb@.skip(0) =~= bb@);
    }
    loop
        invariant
            ab@ == a.spec_bytes(),
            bb@ == b.spec_bytes(),
            i <= ab@.len(),
            i <= bb@.len(),
            lex_lt(a.spec_bytes(), b.spec_bytes()) == lex_lt(
                ab@.skip(i as int),
                bb@.skip(i as int),
            ),
        decreases ab@.len() - i,
    {
        if i >= bb.len() {
            return false;
        }
        if i >= ab.len() {
            return true;
        }
        let x = ab[i];
        let y = bb[i];
        if x < y {
            return true;
        }
        if x > y {
            return false;
        }
        proof {
            lemma_lex_lt_step(ab@.skip(i as int), bb@.skip(i as int));
            assert(ab@.skip(i as int).skip(1) =~= ab@.skip(i as int + 1));
            assert(bb@.skip(i as int).skip(1) =~= bb@.skip(i as int + 1));
        }
        i = i + 1;
    }
}

/// What `str::trim` returns: the characters with leading and trailing
/// whitespace removed. The result depends on the characters alone.
pub uninterp spec fn trim_of(s: Seq<char>) -> Seq<char>;

/// Relies on str::trim: strips leading and trailing whitespace, so the
/// result never grows and an empty input stays empty.
#[verifier::external_body]
pub fn trim_str(s: &str) -> (r: String)
    ensures
        r@ == trim_of(s@),
        r@.len() <= s@.len(),
{
    s.trim().to_owned()
}

/// A value whose surrounding whitespace can be stripped.
pub trait Trim: View<V = Seq<char>> + Sized {
    fn trim(self) -> (r: Self)
        ensures
            r@ == trim_of(self@);
}

impl Trim for String {
    fn trim(self) -> (r: String) {
        trim_str(self.as_str())
    }
}

/// A value that can say whether it holds any characters at all.
pub trait IsEmpty: View<V = Seq<char>> {
    fn is_empty(&self) -> (r: bool)
        ensures
            r == (self@.len() == 0);
}

impl IsEmpty for String {
    fn is_empty(&self) -> (r: bool) {
        self.as_str().is_empty()
    }
}

/// A value that can say how many bytes its UTF-8 form takes.
pub trait Len: IsEmpty {
    fn len(&self) -> (r: usize)
        ensures
            r as int == vstd::utf8::encode_utf8(self@).len() as usize as int;
}

impl Len for String {
    fn len(&self) -> (r: usize) {
        let s = self.as_str();
        let n = s.len();
        proof {
            assert(s.spec_bytes() =~= vstd::utf8::encode_utf8(self@));
        }
        n
    }
}

/// The position of the first occurrence of `name` in `names`, if any.
pub fn find_name(names: &Vec<String>, name: &String) -> (r: Option<usize>)
    ensures
        match r {
            Some(i) => i < names@.len() && names@[i as int]@ == name@ && (forall|j: int|
                0 <= j < i ==> names@[j]@ != name@),
            None => forall|j: int| 0 <= j < names@.len() ==> names@[j]@ != name@,
        },
{
    let mut i: usize = 0;
    while i < names.len()
        invariant
            i <= names@.len(),
            forall|j: int| 0 <= j < i ==> names@[j]@ != name@,
        decreases names@.len() - i,
    {
        if names[i] == *name {
            return Some(i);
        }
        i = i + 1;
    }
    None
}

/// The id of `name` in the registry, interning it at the tail on first use.
pub fn intern(names: &mut Vec<String>, name: &String) -> (id: usize)
    ensures
        id < final(names)@.len(),
        final(names)@[id as int]@ == name@,
        forall|j: int| 0 <= j < id ==> final(names)@[j]@ != name@,
        (forall|j: int| 0 <= j < old(names)@.len() ==> old(names)@[j]@ != name@) ==> (final(
            names)@.len() == old(names)@.len() + 1 && id == old(names)@.len()),
        (exists|j: int| 0 <= j < old(names)@.len() && old(names)@[j]@ == name@) ==> final(names)@
            =~= old(names)@,
        forall|j: int| 0 <= j < old(names)@.len() ==> final(names)@[j] == old(names)@[j],
{
    match find_name(names, name) {
        Some(i) => i,
        None => {
            let id = names.len();
            names.push(name.clone());
            id
        },
    }
}

} // verus!
