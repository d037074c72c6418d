//! The opaque values an operation carries: coordinate identifiers and
//! payload atoms. The core never interprets them; all it relies on is their
//! canonical text, which both types keep verbatim, restricted to the
//! characters that keep an operation's text unambiguous.

use vstd::prelude::*;
use crate::grammar::{wf_locator, wf_atom, is_locator_char, is_sigil, is_atom_char};

verus! {

/// Copies the characters of a string slice into a vector.
pub(crate) fn str_chars(s: &str) -> (r: Vec<char>)
    ensures
        r@ == s@,
{
    let n = s.unicode_len();
    let mut v: Vec<char> = Vec::new();
    let mut i: usize = 0;
    proof {
        assert(v@ =~= s@.take(0));
    }
    while i < n
        invariant
            i <= n,
            n == s@.len(),
            v@ == s@.take(i as int),
        decreases n - i,
    {
        v.push(s.get_char(i));
        proof {
            assert(s@.take(i as int).push(s@[i as int]) =~= s@.take(i + 1));
        }
        i += 1;
    }
    proof {
        assert(s@.take(n as int) =~= s@);
    }
    v
}

/// Relies on `String`'s `FromIterator` over `char`: the collected string
/// holds exactly the characters of the vector, in order.
#[verifier::external_body]
pub(crate) fn chars_to_string(v: &Vec<char>) -> (r: String)
    ensures
        r@ == v@,
{
    v.iter().collect()
}

/// Whether a character may appear in a coordinate identifier.
pub fn locator_char(c: char) -> (b: bool)
    ensures
        b == is_locator_char(c),
{
    !(c == ';' || c == '?' || c == '!' || c == ',' || c == '=' || c == '\'' || c == '>' || c == '^'
        || c == '*' || c == '#' || c == '@' || c == ':' || c == ' ')
}

/// Whether a character is an atom sigil.
pub fn sigil_char(c: char) -> (b: bool)
    ensures
        b == is_sigil(c),
{
    c == '=' || c == '\'' || c == '>' || c == '^'
}

/// An opaque, totally ordered identifier with a canonical text form; an
/// operation's four coordinates are locators. The core never reads anything
/// of a locator but its text.
#[derive(Clone, PartialEq, Eq, Debug)]
pub struct Locator {
    text: Vec<char>,
}

impl View for Locator {
    type V = Seq<char>;

    closed spec fn view(&self) -> Seq<char> {
        self.text@
    }
}

impl Locator {
    /// Whether this locator's text is well-formed.
    pub open spec fn wf(&self) -> bool {
        wf_locator(self@)
    }

    /// Reads a locator from its canonical text; text holding a reserved
    /// character, or no character at all, is rejected.
    pub fn new(s: &str) -> (r: Option<Locator>)
        ensures
            match r {
                Some(l) => l@ == s@ && wf_locator(s@),
                None => !wf_locator(s@),
            },
    {
        let v = str_chars(s);
        if v.len() == 0 {
            return None;
        }
        let mut i: usize = 0;
        while i < v.len()
            invariant
                i <= v.len(),
                v@ == s@,
                forall|j: int| 0 <= j < i ==> is_locator_char(#[trigger] v@[j]),
            decreases v.len() - i,
        {
            if !locator_char(v[i]) {
                return None;
            }
            i += 1;
        }
        Some(Locator { text: v })
    }

    /// Wraps characters already known to form a well-formed locator.
    pub(crate) fn from_chars(v: Vec<char>) -> (r: Locator)
        requires
            wf_locator(v@),
        ensures
            r@ == v@,
            r.wf(),
    {
        Locator { text: v }
    }

    /// The canonical text of this locator.
    pub fn to_text(&self) -> (r: String)
        ensures
            r@ == self@,
    {
        chars_to_string(&self.text)
    }

    /// Appends this locator's text to a buffer.
    pub(crate) fn push_onto(&self, out: &mut Vec<char>)
        ensures
            final(out)@ == old(out)@ + self@,
    {
        push_chars(&self.text, out);
    }

    /// Whether two locators are the same identifier: equality is
    /// structural, on the canonical text.
    pub fn same_as(&self, other: &Locator) -> (r: bool)
        ensures
            r == (self@ == other@),
    {
        chars_eq(&self.text, &other.text)
    }
}

/// A payload value with a canonical text form: its sigil names its variant
/// and the rest of the text is its rendering. The core never reads anything
/// of an atom but its text.
#[derive(Clone, PartialEq, Eq, Debug)]
pub struct Atom {
    text: Vec<char>,
}

impl View for Atom {
    type V = Seq<char>;

    closed spec fn view(&self) -> Seq<char> {
        self.text@
    }
}

impl Atom {
    /// Whether this atom's text is well-formed.
    pub open spec fn wf(&self) -> bool {
        wf_atom(self@)
    }

    /// Reads an atom from its canonical text; text that does not open with
    /// a sigil, or holds a space, is rejected.
    pub fn new(s: &str) -> (r: Option<Atom>)
        ensures
            match r {
                Some(a) => a@ == s@ && wf_atom(s@),
                None => !wf_atom(s@),
            },
    {
        let v = str_chars(s);
        if check_atom_chars(&v) {
            Some(Atom { text: v })
        } else {
            None
        }
    }

    /// Wraps characters already known to form a well-formed atom.
    pub(crate) fn from_chars(v: Vec<char>) -> (r: Atom)
        requires
            wf_atom(v@),
        ensures
            r@ == v@,
            r.wf(),
    {
        Atom { text: v }
    }

    /// The canonical text of this atom.
    pub fn to_text(&self) -> (r: String)
        ensures
            r@ == self@,
    {
        chars_to_string(&self.text)
    }

    /// Appends this atom's text to a buffer.
    pub(crate) fn push_onto(&self, out: &mut Vec<char>)
        ensures
            final(out)@ == old(out)@ + self@,
    {
        push_chars(&self.text, out);
    }

    /// Whether two atoms are the same value: equality is structural, on
    /// the canonical text.
    pub fn same_as(&self, other: &Atom) -> (r: bool)
        ensures
            r == (self@ == other@),
    {
        chars_eq(&self.text, &other.text)
    }
}

/// Whether the characters form a well-formed atom text.
pub(crate) fn check_atom_chars(v: &Vec<char>) -> (b: bool)
    ensures
        b == wf_atom(v@),
{
    if v.len() == 0 {
        return false;
    }
    if !sigil_char(v[0]) {
        return false;
    }
    let mut i: usize = 1;
    while i < v.len()
        invariant
            1 <= i <= v.len(),
            forall|j: int| 1 <= j < i ==> is_atom_char(#[trigger] v@[j]),
        decreases v.len() - i,
    {
        if v[i] == ' ' {
            return false;
        }
        i += 1;
    }
    true
}

/// Whether two character vectors hold the same text.
pub(crate) fn chars_eq(a: &Vec<char>, b: &Vec<char>) -> (r: bool)
    ensures
        r == (a@ == b@),
{
    if a.len() != b.len() {
        proof {
            assert(a@ != b@) by {
                if a@ == b@ {
                    assert(a@.len() == b@.len());
                }
            }
        }
        return false;
    }
    let mut i: usize = 0;
    while i < a.len()
        invariant
            i <= a.len(),
            a@.len() == b@.len(),
            forall|j: int| 0 <= j < i ==> a@[j] == b@[j],
        decreases a.len() - i,
    {
        if a[i] != b[i] {
            proof {
                assert(a@ != b@) by {
                    if a@ == b@ {
                        assert(a@[i as int] == b@[i as int]);
                    }
                }
            }
            return false;
        }
        i += 1;
    }
    proof {
        assert(a@ =~= b@);
    }
    true
}

/// Appends the characters of `src` to `out`.
pub(crate) fn push_chars(src: &Vec<char>, out: &mut Vec<char>)
    ensures
        final(out)@ == old(out)@ + src@,
{
    let mut i: usize = 0;
    proof {
        assert(out@ =~= out@ + src@.take(0));
    }
    while i < src.len()
        invariant
            i <= src.len(),
            out@ == old(out)@ + src@.take(i as int),
        decreases src.len() - i,
    {
        out.push(src[i]);
        proof {
            assert(old(out)@ + src@.take(i as int).push(src@[i as int]) =~= old(out)@ + src@.take(
                i + 1,
            ));
        }
        i += 1;
    }
    proof {
        assert(old(out)@ + src@.take(src@.len() as int) =~= old(out)@ + src@);
    }
}

} // verus!
