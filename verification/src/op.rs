//! The operation: four coordinate locators, an ordered payload of atoms and
//! a terminator. Its canonical text form is written by `to_text` and read
//! back by `parse`, which are exact inverses on well-formed operations.

use vstd::prelude::*;
use crate::terminator::{
    Terminator,
    term_symbol,
    term_of,
    is_term_char,
    lemma_terminator_symbol_bijection,
};
use crate::token::{
    Locator,
    Atom,
    str_chars,
    chars_to_string,
    locator_char,
    check_atom_chars,
};
use crate::atoms::{Payload, payload_model};
use crate::grammar::{
    wf_locator,
    wf_atom,
    is_locator_char,
    is_sigil,
    run_end,
    find_sep,
    sep_at,
    split_atoms,
    fmt_atoms,
    fmt_more_atoms,
    lemma_run_end,
    lemma_run_end_exact,
    lemma_find_sep,
    lemma_find_sep_exact,
    lemma_join_split,
    lemma_split_join,
    lemma_fmt_atoms_snoc,
};

verus! {

/// The mathematical content of an operation: the four coordinates and the
/// atoms as their canonical texts, and the terminator.
#[verifier::ext_equal]
pub ghost struct OpView {
    pub ty: Seq<char>,
    pub object: Seq<char>,
    pub event: Seq<char>,
    pub location: Seq<char>,
    pub atoms: Seq<Seq<char>>,
    pub term: Terminator,
}

impl OpView {
    /// Every coordinate and every atom text is well-formed.
    pub open spec fn wf(self) -> bool {
        &&& wf_locator(self.ty)
        &&& wf_locator(self.object)
        &&& wf_locator(self.event)
        &&& wf_locator(self.location)
        &&& forall|k: int| 0 <= k < self.atoms.len() ==> wf_atom(#[trigger] self.atoms[k])
    }
}

/// The canonical text of an operation: each coordinate behind its prefix
/// character, then the atoms joined with `", "`, then the terminator symbol
/// directly after the last atom.
pub open spec fn fmt_op(v: OpView) -> Seq<char> {
    seq!['*'] + v.ty + seq!['#'] + v.object + seq!['@'] + v.event + seq![':'] + v.location
        + fmt_atoms(v.atoms) + seq![term_symbol(v.term)]
}

/// The distinct fault regions a parse can report, so that a caller can tell
/// a broken coordinate from broken payload text or a broken terminator.
#[derive(Clone, Copy, PartialEq, Eq, Structural, Debug)]
pub enum ParseError {
    /// A missing or malformed coordinate prefix, or empty or reserved
    /// coordinate text.
    Coordinate,
    /// A missing or unrecognized terminator symbol.
    Terminator,
    /// Text between the coordinates and the terminator that is not a
    /// well-formed `", "`-separated atom list.
    Atom,
}

/// How text reads back as an operation. Each coordinate is the longest run
/// of coordinate characters after its prefix, the terminator is the last
/// character, and what lies between is split at `", "` into atoms.
pub open spec fn parse_op(s: Seq<char>) -> Result<OpView, ParseError> {
    if s.len() == 0 || s[0] != '*' {
        Err(ParseError::Coordinate)
    } else {
        let e1 = run_end(s, 1);
        if e1 == 1 || e1 == s.len() || s[e1] != '#' {
            Err(ParseError::Coordinate)
        } else {
            let e2 = run_end(s, e1 + 1);
            if e2 == e1 + 1 || e2 == s.len() || s[e2] != '@' {
                Err(ParseError::Coordinate)
            } else {
                let e3 = run_end(s, e2 + 1);
                if e3 == e2 + 1 || e3 == s.len() || s[e3] != ':' {
                    Err(ParseError::Coordinate)
                } else {
                    let e4 = run_end(s, e3 + 1);
                    if e4 == e3 + 1 {
                        Err(ParseError::Coordinate)
                    } else if e4 == s.len() {
                        Err(ParseError::Terminator)
                    } else if !is_term_char(s[s.len() - 1]) {
                        Err(ParseError::Terminator)
                    } else if e4 == s.len() - 1 {
                        Ok(
                            OpView {
                                ty: s.subrange(1, e1),
                                object: s.subrange(e1 + 1, e2),
                                event: s.subrange(e2 + 1, e3),
                                location: s.subrange(e3 + 1, e4),
                                atoms: Seq::empty(),
                                term: term_of(s[s.len() - 1]),
                            },
                        )
                    } else {
                        let pieces = split_atoms(s.subrange(e4, s.len() - 1));
                        if forall|k: int| 0 <= k < pieces.len() ==> wf_atom(#[trigger] pieces[k]) {
                            Ok(
                                OpView {
                                    ty: s.subrange(1, e1),
                                    object: s.subrange(e1 + 1, e2),
                                    event: s.subrange(e2 + 1, e3),
                                    location: s.subrange(e3 + 1, e4),
                                    atoms: pieces,
                                    term: term_of(s[s.len() - 1]),
                                },
                            )
                        } else {
                            Err(ParseError::Atom)
                        }
                    }
                }
            }
        }
    }
}

/// Whatever text reads back as an operation is a well-formed operation
/// whose canonical text is that very text: a successful parse inverts the
/// writer exactly.
pub proof fn lemma_parse_sound(s: Seq<char>)
    requires
        parse_op(s) is Ok,
    ensures
        parse_op(s)->Ok_0.wf(),
        fmt_op(parse_op(s)->Ok_0) == s,
{
    let e1 = run_end(s, 1);
    let e2 = run_end(s, e1 + 1);
    let e3 = run_end(s, e2 + 1);
    let e4 = run_end(s, e3 + 1);
    let last = s.len() - 1;
    lemma_run_end(s, 1);
    lemma_run_end(s, e1 + 1);
    lemma_run_end(s, e2 + 1);
    lemma_run_end(s, e3 + 1);
    let v = parse_op(s)->Ok_0;
    assert(wf_locator(v.ty)) by {
        assert(forall|j: int| 0 <= j < v.ty.len() ==> v.ty[j] == s[1 + j]);
    }
    assert(wf_locator(v.object)) by {
        assert(forall|j: int| 0 <= j < v.object.len() ==> v.object[j] == s[e1 + 1 + j]);
    }
    assert(wf_locator(v.event)) by {
        assert(forall|j: int| 0 <= j < v.event.len() ==> v.event[j] == s[e2 + 1 + j]);
    }
    assert(wf_locator(v.location)) by {
        assert(forall|j: int| 0 <= j < v.location.len() ==> v.location[j] == s[e3 + 1 + j]);
    }
    assert(v.wf());
    // the written text, rebuilt prefix by prefix
    assert(seq!['*'] + v.ty =~= s.subrange(0, e1));
    assert(seq!['*'] + v.ty + seq!['#'] =~= s.subrange(0, e1 + 1));
    assert(seq!['*'] + v.ty + seq!['#'] + v.object =~= s.subrange(0, e2));
    assert(seq!['*'] + v.ty + seq!['#'] + v.object + seq!['@'] =~= s.subrange(0, e2 + 1));
    assert(seq!['*'] + v.ty + seq!['#'] + v.object + seq!['@'] + v.event =~= s.subrange(0, e3));
    assert(seq!['*'] + v.ty + seq!['#'] + v.object + seq!['@'] + v.event + seq![':'] =~= s.subrange(
        0,
        e3 + 1,
    ));
    let p4 = seq!['*'] + v.ty + seq!['#'] + v.object + seq!['@'] + v.event + seq![':']
        + v.location;
    assert(p4 =~= s.subrange(0, e4));
    if e4 == last {
        assert(v.atoms =~= Seq::<Seq<char>>::empty());
        assert(fmt_atoms(v.atoms) =~= Seq::<char>::empty());
        assert(p4 + fmt_atoms(v.atoms) =~= s.subrange(0, last));
    } else {
        let mid = s.subrange(e4, last);
        lemma_join_split(mid);
        assert(fmt_atoms(v.atoms) == mid);
        assert(p4 + fmt_atoms(v.atoms) =~= s.subrange(0, last));
    }
    assert(term_symbol(term_of(s[last])) == s[last]);
    assert(p4 + fmt_atoms(v.atoms) + seq![term_symbol(v.term)] =~= s);
}

/// Law: the canonical text of every well-formed operation reads back as
/// exactly that operation — the round trip through writing and parsing is
/// the identity.
pub proof fn lemma_parse_format(v: OpView)
    requires
        v.wf(),
    ensures
        parse_op(fmt_op(v)) == Ok::<OpView, ParseError>(v),
{
    let s = fmt_op(v);
    let a1 = seq!['*'] + v.ty;
    let a2 = a1 + seq!['#'];
    let a3 = a2 + v.object;
    let a4 = a3 + seq!['@'];
    let a5 = a4 + v.event;
    let a6 = a5 + seq![':'];
    let a7 = a6 + v.location;
    let a8 = a7 + fmt_atoms(v.atoms);
    assert(s == a8 + seq![term_symbol(v.term)]);
    let p1 = 1 + v.ty.len() as int;
    let p2 = p1 + 1 + v.object.len() as int;
    let p3 = p2 + 1 + v.event.len() as int;
    let p4 = p3 + 1 + v.location.len() as int;
    let last = s.len() - 1;
    assert(s.len() == p4 + fmt_atoms(v.atoms).len() + 1);
    assert(s[0] == '*');
    assert(s[p1] == '#');
    assert(s[p2] == '@');
    assert(s[p3] == ':');
    assert(s[last] == term_symbol(v.term));
    assert(is_term_char(term_symbol(v.term)));
    assert(term_of(term_symbol(v.term)) == v.term);
    if v.atoms.len() > 0 {
        assert(fmt_atoms(v.atoms) == v.atoms[0] + fmt_more_atoms(v.atoms.drop_first()));
        assert(wf_atom(v.atoms[0]));
        assert(fmt_atoms(v.atoms).len() > 0);
        assert(fmt_atoms(v.atoms)[0] == v.atoms[0][0]);
        assert(is_sigil(v.atoms[0][0]));
        assert(s[p4] == v.atoms[0][0]);
        assert(!is_locator_char(s[p4]));
    } else {
        assert(fmt_atoms(v.atoms).len() == 0);
        assert(s[p4] == term_symbol(v.term));
        assert(!is_locator_char(s[p4]));
    }
    assert(run_end(s, 1) == p1) by {
        assert(forall|j: int| 1 <= j < p1 ==> s[j] == v.ty[j - 1]);
        assert(forall|j: int| 1 <= j < p1 ==> is_locator_char(#[trigger] s[j]));
        assert(!is_locator_char(s[p1]));
        lemma_run_end_exact(s, 1, p1);
    }
    assert(run_end(s, p1 + 1) == p2) by {
        assert(forall|j: int| p1 + 1 <= j < p2 ==> s[j] == v.object[j - (p1 + 1)]);
        assert(forall|j: int| p1 + 1 <= j < p2 ==> is_locator_char(#[trigger] s[j]));
        assert(!is_locator_char(s[p2]));
        lemma_run_end_exact(s, p1 + 1, p2);
    }
    assert(run_end(s, p2 + 1) == p3) by {
        assert(forall|j: int| p2 + 1 <= j < p3 ==> s[j] == v.event[j - (p2 + 1)]);
        assert(forall|j: int| p2 + 1 <= j < p3 ==> is_locator_char(#[trigger] s[j]));
        assert(!is_locator_char(s[p3]));
        lemma_run_end_exact(s, p2 + 1, p3);
    }
    assert(run_end(s, p3 + 1) == p4) by {
        assert(forall|j: int| p3 + 1 <= j < p4 ==> s[j] == v.location[j - (p3 + 1)]);
        assert(forall|j: int| p3 + 1 <= j < p4 ==> is_locator_char(#[trigger] s[j]));
        assert(!is_locator_char(s[p4]));
        lemma_run_end_exact(s, p3 + 1, p4);
    }
    if v.atoms.len() == 0 {
        assert(p4 == last);
        let parsed = parse_op(s)->Ok_0;
        assert(parsed.ty =~= v.ty);
        assert(parsed.object =~= v.object);
        assert(parsed.event =~= v.event);
        assert(parsed.location =~= v.location);
        assert(parsed.atoms =~= v.atoms);
        assert(parsed =~= v);
    } else {
        assert(p4 < last);
        let mid = s.subrange(p4, last);
        assert(mid =~= fmt_atoms(v.atoms));
        lemma_split_join(v.atoms);
        assert(split_atoms(mid) == v.atoms);
        assert(parse_op(s) is Ok);
        let parsed = parse_op(s)->Ok_0;
        assert(parsed.ty =~= v.ty);
        assert(parsed.object =~= v.object);
        assert(parsed.event =~= v.event);
        assert(parsed.location =~= v.location);
        assert(parsed =~= v);
    }
}

/// Law: the canonical text determines the operation — two well-formed
/// operations with the same text are the same operation, so conforming
/// peers that exchange these texts agree byte for byte.
pub proof fn lemma_fmt_injective(v1: OpView, v2: OpView)
    requires
        v1.wf(),
        v2.wf(),
        fmt_op(v1) == fmt_op(v2),
    ensures
        v1 == v2,
{
    lemma_parse_format(v1);
    lemma_parse_format(v2);
}

/// One operation of the protocol: part of an object's state, an action on
/// an object, a query, or another protocol step. Operations are built once
/// and never changed.
#[derive(PartialEq, Debug)]
pub struct Op {
    /// The kind of object or operation.
    pub ty: Locator,
    /// The object the operation targets.
    pub object: Locator,
    /// The operation's own causal position.
    pub event: Locator,
    /// The prior operation or position this one refers to.
    pub location: Locator,
    /// The payload, order-significant.
    pub atoms: Payload,
    /// The chunk-grouping marker.
    pub term: Terminator,
}

/// The canonical texts of a sequence of atoms, in order.
pub open spec fn views_of(items: Seq<Atom>) -> Seq<Seq<char>> {
    items.map(|i: int, a: Atom| a@)
}

proof fn lemma_views_push(m: Seq<Atom>, a: Atom)
    ensures
        views_of(m.push(a)) == views_of(m).push(a@),
{
    assert(views_of(m.push(a)) =~= views_of(m).push(a@));
}

impl View for Op {
    type V = OpView;

    open spec fn view(&self) -> OpView {
        OpView {
            ty: self.ty@,
            object: self.object@,
            event: self.event@,
            location: self.location@,
            atoms: views_of(payload_model(self.atoms)),
            term: self.term,
        }
    }
}

impl Op {
    /// Whether every part of this operation is well-formed.
    pub open spec fn wf(&self) -> bool {
        self@.wf()
    }

    /// Writes this operation's canonical text.
    pub fn to_text(&self) -> (r: String)
        ensures
            r@ == fmt_op(self@),
    {
        let mut out: Vec<char> = Vec::new();
        out.push('*');
        self.ty.push_onto(&mut out);
        out.push('#');
        self.object.push_onto(&mut out);
        out.push('@');
        self.event.push_onto(&mut out);
        out.push(':');
        self.location.push_onto(&mut out);
        let ghost base = seq!['*'] + self@.ty + seq!['#'] + self@.object + seq!['@'] + self@.event
            + seq![':'] + self@.location;
        proof {
            assert(out@ =~= base);
        }
        let n = self.atoms.len();
        let mut k: usize = 0;
        proof {
            assert(base + fmt_atoms(self@.atoms.take(0)) =~= base);
        }
        while k < n
            invariant
                k <= n,
                n == self@.atoms.len(),
                self@.atoms == views_of(payload_model(self.atoms)),
                n == payload_model(self.atoms).len(),
                out@ == base + fmt_atoms(self@.atoms.take(k as int)),
            decreases n - k,
        {
            proof {
                lemma_fmt_atoms_snoc(self@.atoms, k as int);
            }
            if k > 0 {
                out.push(',');
                out.push(' ');
            }
            let a = self.atoms.get(k);
            proof {
                assert(a@ == self@.atoms[k as int]);
            }
            a.push_onto(&mut out);
            proof {
                assert(out@ =~= base + fmt_atoms(self@.atoms.take(k + 1)));
            }
            k += 1;
        }
        proof {
            assert(self@.atoms.take(n as int) =~= self@.atoms);
        }
        out.push(self.term.symbol());
        proof {
            assert(out@ =~= fmt_op(self@));
        }
        chars_to_string(&out)
    }

    /// Whether two operations are equal: structurally, over the four
    /// coordinates, the atom sequence in order, and the terminator.
    #[verifier::loop_isolation(false)]
    pub fn same_as(&self, other: &Op) -> (r: bool)
        ensures
            r == (self@ == other@),
    {
        if !self.ty.same_as(&other.ty) {
            return false;
        }
        if !self.object.same_as(&other.object) {
            return false;
        }
        if !self.event.same_as(&other.event) {
            return false;
        }
        if !self.location.same_as(&other.location) {
            return false;
        }
        if self.term != other.term {
            return false;
        }
        let n = self.atoms.len();
        if n != other.atoms.len() {
            proof {
                assert(self@.atoms.len() != other@.atoms.len());
            }
            return false;
        }
        let mut k: usize = 0;
        while k < n
            invariant
                k <= n,
                forall|j: int| 0 <= j < k ==> self@.atoms[j] == other@.atoms[j],
            decreases n - k,
        {
            let a = self.atoms.get(k);
            let b = other.atoms.get(k);
            proof {
                assert(a@ == self@.atoms[k as int]);
                assert(b@ == other@.atoms[k as int]);
            }
            if !a.same_as(b) {
                return false;
            }
            k += 1;
        }
        proof {
            assert(self@.atoms =~= other@.atoms);
            assert(self@ =~= other@);
        }
        true
    }
}

/// The first position at or after `from` without a coordinate character.
fn scan_run(cs: &Vec<char>, from: usize) -> (r: usize)
    requires
        from <= cs.len(),
    ensures
        from <= r <= cs.len(),
        r as int == run_end(cs@, from as int),
{
    let mut j = from;
    while j < cs.len() && locator_char(cs[j])
        invariant
            from <= j <= cs.len(),
            forall|t: int| from <= t < j ==> is_locator_char(#[trigger] cs@[t]),
        decreases cs.len() - j,
    {
        j += 1;
    }
    proof {
        lemma_run_end_exact(cs@, from as int, j as int);
    }
    j
}

/// The first position of the `", "` separator, or the length when there is
/// none.
fn scan_sep(r: &Vec<char>) -> (j: usize)
    ensures
        j as int == find_sep(r@, 0),
        j <= r.len(),
{
    let mut i: usize = 0;
    while i < r.len() && i + 1 < r.len() && !(r[i] == ',' && r[i + 1] == ' ')
        invariant
            i <= r.len(),
            forall|t: int| 0 <= t < i ==> !sep_at(r@, t),
        decreases r.len() - i,
    {
        i += 1;
    }
    if i < r.len() && i + 1 < r.len() {
        proof {
            assert(sep_at(r@, i as int));
            lemma_find_sep_exact(r@, 0, i as int);
        }
        i
    } else {
        proof {
            assert forall|t: int| 0 <= t < r@.len() implies !sep_at(r@, t) by {
                if t >= i {
                    assert(t + 1 >= r@.len());
                }
            }
            lemma_find_sep_exact(r@, 0, r@.len() as int);
        }
        r.len()
    }
}

/// Copies the characters at positions `a` to `b` into a fresh vector.
fn copy_range(cs: &Vec<char>, a: usize, b: usize) -> (r: Vec<char>)
    requires
        a <= b <= cs.len(),
    ensures
        r@ == cs@.subrange(a as int, b as int),
{
    let mut r: Vec<char> = Vec::new();
    let mut i = a;
    proof {
        assert(r@ =~= cs@.subrange(a as int, a as int));
    }
    while i < b
        invariant
            a <= i <= b <= cs.len(),
            r@ == cs@.subrange(a as int, i as int),
        decreases b - i,
    {
        r.push(cs[i]);
        proof {
            assert(cs@.subrange(a as int, i as int).push(cs@[i as int]) =~= cs@.subrange(
                a as int,
                i + 1,
            ));
        }
        i += 1;
    }
    r
}

/// Text that parsing rejects is written by no well-formed operation.
proof fn lemma_err_no_wf(s: Seq<char>)
    requires
        parse_op(s) is Err,
    ensures
        forall|v: OpView| v.wf() ==> fmt_op(v) != s,
{
    assert forall|v: OpView| v.wf() implies fmt_op(v) != s by {
        if fmt_op(v) == s {
            lemma_parse_format(v);
        }
    }
}

impl Op {
    /// Reads an operation from its canonical text: the exact inverse of
    /// `to_text`. Text that no well-formed operation writes is rejected,
    /// and the error names the grammar region at fault.
    #[verifier::loop_isolation(false)]
    pub fn parse(s: &str) -> (r: Result<Op, ParseError>)
        ensures
            match r {
                Ok(op) => op.wf() && parse_op(s@) == Ok::<OpView, ParseError>(op@) && fmt_op(op@)
                    == s@,
                Err(e) => parse_op(s@) == Err::<OpView, ParseError>(e) && (forall|v: OpView|
                    v.wf() ==> fmt_op(v) != s@),
            },
    {
        let cs = str_chars(s);
        if cs.len() == 0 || cs[0] != '*' {
            proof {
                lemma_err_no_wf(s@);
            }
            return Err(ParseError::Coordinate);
        }
        let e1 = scan_run(&cs, 1);
        if e1 == 1 || e1 == cs.len() || cs[e1] != '#' {
            proof {
                lemma_err_no_wf(s@);
            }
            return Err(ParseError::Coordinate);
        }
        let e2 = scan_run(&cs, e1 + 1);
        if e2 == e1 + 1 || e2 == cs.len() || cs[e2] != '@' {
            proof {
                lemma_err_no_wf(s@);
            }
            return Err(ParseError::Coordinate);
        }
        let e3 = scan_run(&cs, e2 + 1);
        if e3 == e2 + 1 || e3 == cs.len() || cs[e3] != ':' {
            proof {
                lemma_err_no_wf(s@);
            }
            return Err(ParseError::Coordinate);
        }
        let e4 = scan_run(&cs, e3 + 1);
        if e4 == e3 + 1 {
            proof {
                lemma_err_no_wf(s@);
            }
            return Err(ParseError::Coordinate);
        }
        if e4 == cs.len() {
            proof {
                lemma_err_no_wf(s@);
            }
            return Err(ParseError::Terminator);
        }
        let last = cs.len() - 1;
        let t = match Terminator::from_char(cs[last]) {
            Ok(t) => t,
            Err(_) => {
                proof {
                    lemma_err_no_wf(s@);
                }
                return Err(ParseError::Terminator);
            },
        };
        proof {
            lemma_terminator_symbol_bijection();
            assert(t == term_of(cs@[last as int]));
            lemma_run_end(cs@, 1);
            lemma_run_end(cs@, e1 + 1);
            lemma_run_end(cs@, e2 + 1);
            lemma_run_end(cs@, e3 + 1);
        }
        let tyv = copy_range(&cs, 1, e1);
        proof {
            assert(forall|j: int| 0 <= j < tyv@.len() ==> tyv@[j] == cs@[1 + j]);
        }
        let ty = Locator::from_chars(tyv);
        let obv = copy_range(&cs, e1 + 1, e2);
        proof {
            assert(forall|j: int| 0 <= j < obv@.len() ==> obv@[j] == cs@[e1 + 1 + j]);
        }
        let object = Locator::from_chars(obv);
        let evv = copy_range(&cs, e2 + 1, e3);
        proof {
            assert(forall|j: int| 0 <= j < evv@.len() ==> evv@[j] == cs@[e2 + 1 + j]);
        }
        let event = Locator::from_chars(evv);
        let lov = copy_range(&cs, e3 + 1, e4);
        proof {
            assert(forall|j: int| 0 <= j < lov@.len() ==> lov@[j] == cs@[e3 + 1 + j]);
        }
        let location = Locator::from_chars(lov);
        if e4 == last {
            let op = Op { ty, object, event, location, atoms: Payload::new(), term: t };
            proof {
                assert(op@.atoms =~= Seq::<Seq<char>>::empty());
                assert(op@ =~= parse_op(cs@)->Ok_0);
                lemma_parse_sound(cs@);
            }
            return Ok(op);
        }
        let mid = copy_range(&cs, e4, last);
        let ghost mid0 = mid@;
        let ghost pieces = split_atoms(mid0);
        let mut pay = Payload::new();
        let mut rem = mid;
        proof {
            assert(split_atoms(mid0) =~= views_of(payload_model(pay)) + split_atoms(rem@));
        }
        loop
            invariant
                split_atoms(mid0) == views_of(payload_model(pay)) + split_atoms(rem@),
                forall|k: int|
                    0 <= k < views_of(payload_model(pay)).len() ==> wf_atom(
                        #[trigger] views_of(payload_model(pay))[k],
                    ),
            decreases rem@.len(),
        {
            let j = scan_sep(&rem);
            proof {
                lemma_find_sep(rem@, 0);
            }
            if j < rem.len() {
                // a separator follows this piece; more atoms come after it
                assert(sep_at(rem@, j as int));
                let piece = copy_range(&rem, 0, j);
                proof {
                    assert(piece@ =~= rem@.subrange(0, j as int));
                    assert(split_atoms(rem@) == seq![rem@.subrange(0, j as int)] + split_atoms(
                        rem@.subrange(j + 2, rem@.len() as int),
                    ));
                    assert(pieces[views_of(payload_model(pay)).len() as int] == piece@);
                }
                if !check_atom_chars(&piece) {
                    proof {
                        assert(!wf_atom(pieces[views_of(payload_model(pay)).len() as int]));
                        assert(parse_op(cs@) == Err::<OpView, ParseError>(ParseError::Atom));
                        lemma_err_no_wf(s@);
                    }
                    return Err(ParseError::Atom);
                }
                let rest = copy_range(&rem, j + 2, rem.len());
                let ghost pm = payload_model(pay);
                let ghost piecev = piece@;
                let a = Atom::from_chars(piece);
                pay.push(a);
                proof {
                    lemma_views_push(pm, a);
                    assert(views_of(payload_model(pay)) =~= views_of(pm).push(piecev));
                    assert(rest@ == rem@.subrange(j + 2, rem@.len() as int));
                    assert(split_atoms(mid0) =~= views_of(payload_model(pay)) + split_atoms(
                        rest@,
                    ));
                }
                rem = rest;
            } else {
                // no separator left: the remainder is the last atom
                proof {
                    assert(find_sep(rem@, 0) == rem@.len());
                    assert(split_atoms(rem@) == seq![rem@]);
                    assert(pieces[views_of(payload_model(pay)).len() as int] == rem@);
                }
                if !check_atom_chars(&rem) {
                    proof {
                        assert(!wf_atom(pieces[views_of(payload_model(pay)).len() as int]));
                        assert(parse_op(cs@) == Err::<OpView, ParseError>(ParseError::Atom));
                        lemma_err_no_wf(s@);
                    }
                    return Err(ParseError::Atom);
                }
                let ghost pm = payload_model(pay);
                let ghost remv = rem@;
                let a = Atom::from_chars(rem);
                pay.push(a);
                proof {
                    lemma_views_push(pm, a);
                    assert(views_of(payload_model(pay)) =~= views_of(pm).push(remv));
                    assert(views_of(payload_model(pay)) =~= pieces);
                }
                let op = Op { ty, object, event, location, atoms: pay, term: t };
                proof {
                    assert(mid0 == cs@.subrange(e4 as int, last as int));
                    assert(forall|k: int| 0 <= k < pieces.len() ==> wf_atom(#[trigger] pieces[k]));
                    assert(parse_op(cs@) is Ok);
                    assert(op@ =~= parse_op(cs@)->Ok_0);
                    lemma_parse_sound(cs@);
                }
                return Ok(op);
            }
        }
    }
}

} // verus!
