//! Character classes and text-level helpers of the operation grammar: which
//! characters may appear in a coordinate or an atom, how a run of coordinate
//! characters ends, and how the atom region of an operation is joined with
//! `", "` separators and split back.

use vstd::prelude::*;
use crate::terminator::is_term_char;

verus! {

/// Whether a character is one of the markers that open an atom's text.
pub open spec fn is_sigil(c: char) -> bool {
    c == '=' || c == '\'' || c == '>' || c == '^'
}

/// Whether a character may appear in a coordinate identifier: anything but
/// the coordinate prefixes, the terminator symbols, the atom sigils and the
/// space.
pub open spec fn is_locator_char(c: char) -> bool {
    !is_term_char(c) && !is_sigil(c) && c != '*' && c != '#' && c != '@' && c != ':' && c != ' '
}

/// Whether a character may appear in an atom's text after its sigil: any
/// character but the space, which is reserved for the `", "` separator.
pub open spec fn is_atom_char(c: char) -> bool {
    c != ' '
}

/// A well-formed coordinate identifier: non-empty, coordinate characters only.
pub open spec fn wf_locator(s: Seq<char>) -> bool {
    s.len() > 0 && forall|i: int| 0 <= i < s.len() ==> is_locator_char(#[trigger] s[i])
}

/// A well-formed atom text: a sigil followed by atom characters.
pub open spec fn wf_atom(s: Seq<char>) -> bool {
    s.len() > 0 && is_sigil(s[0]) && forall|i: int| 1 <= i < s.len() ==> is_atom_char(
        #[trigger] s[i],
    )
}

/// The first position at or after `i` that does not hold a coordinate
/// character, or the end of the text.
pub open spec fn run_end(s: Seq<char>, i: int) -> int
    decreases s.len() - i,
{
    if 0 <= i < s.len() && is_locator_char(s[i]) {
        run_end(s, i + 1)
    } else {
        i
    }
}

pub proof fn lemma_run_end(s: Seq<char>, i: int)
    requires
        0 <= i <= s.len(),
    ensures
        i <= run_end(s, i) <= s.len(),
        forall|j: int| i <= j < run_end(s, i) ==> is_locator_char(#[trigger] s[j]),
        run_end(s, i) < s.len() ==> !is_locator_char(s[run_end(s, i)]),
    decreases s.len() - i,
{
    if i < s.len() && is_locator_char(s[i]) {
        lemma_run_end(s, i + 1);
    }
}

/// A run of coordinate characters that ends at a non-coordinate character
/// (or at the end of the text) is exactly what `run_end` finds.
pub proof fn lemma_run_end_exact(s: Seq<char>, i: int, k: int)
    requires
        0 <= i <= k <= s.len(),
        forall|j: int| i <= j < k ==> is_locator_char(#[trigger] s[j]),
        k < s.len() ==> !is_locator_char(s[k]),
    ensures
        run_end(s, i) == k,
    decreases k - i,
{
    if i < k {
        lemma_run_end_exact(s, i + 1, k);
    }
}

/// Whether positions `j`, `j + 1` of `r` hold the `", "` atom separator.
pub open spec fn sep_at(r: Seq<char>, j: int) -> bool {
    0 <= j && j + 1 < r.len() && r[j] == ',' && r[j + 1] == ' '
}

/// The first position at or after `i` where the `", "` separator occurs,
/// or the length of the text if it occurs nowhere at or after `i`.
pub open spec fn find_sep(r: Seq<char>, i: int) -> int
    decreases r.len() - i,
{
    if 0 <= i && i + 1 < r.len() {
        if r[i] == ',' && r[i + 1] == ' ' {
            i
        } else {
            find_sep(r, i + 1)
        }
    } else {
        r.len() as int
    }
}

pub proof fn lemma_find_sep(r: Seq<char>, i: int)
    requires
        0 <= i <= r.len(),
    ensures
        i <= find_sep(r, i) <= r.len(),
        find_sep(r, i) < r.len() ==> sep_at(r, find_sep(r, i)),
        forall|j: int| i <= j < find_sep(r, i) ==> !sep_at(r, j),
    decreases r.len() - i,
{
    if i + 1 < r.len() && !(r[i] == ',' && r[i + 1] == ' ') {
        lemma_find_sep(r, i + 1);
    }
}

/// If no separator occurs at positions `i` to `k`, and `k` is a separator
/// position or no separator fits after it, then `find_sep` finds `k` or the
/// end.
pub proof fn lemma_find_sep_exact(r: Seq<char>, i: int, k: int)
    requires
        0 <= i <= k <= r.len(),
        forall|j: int| i <= j < k ==> !sep_at(r, j),
        k < r.len() ==> sep_at(r, k) || k + 1 == r.len(),
    ensures
        find_sep(r, i) == if k < r.len() && sep_at(r, k) {
            k
        } else {
            r.len() as int
        },
    decreases k - i,
{
    if i < k {
        assert(!sep_at(r, i));
        lemma_find_sep_exact(r, i + 1, k);
        if i + 1 < r.len() {
            assert(find_sep(r, i) == find_sep(r, i + 1));
        } else {
            assert(i + 1 == r.len() && k == r.len());
            assert(find_sep(r, i) == r.len());
        }
    } else {
        if k < r.len() && sep_at(r, k) {
            assert(k + 1 < r.len());
            assert(find_sep(r, k) == k);
        } else {
            assert(find_sep(r, k) == r.len());
        }
    }
}

/// The atom region split at its `", "` separators, in order. Text without a
/// separator is a single piece.
pub open spec fn split_atoms(r: Seq<char>) -> Seq<Seq<char>>
    decreases r.len(),
{
    let j = find_sep(r, 0);
    if 0 <= j && j + 1 < r.len() {
        seq![r.subrange(0, j)] + split_atoms(r.subrange(j + 2, r.len() as int))
    } else {
        seq![r]
    }
}

/// The atom region of an operation's text: the atoms' texts joined with the
/// `", "` separator, and nothing at all for an empty payload.
pub open spec fn fmt_atoms(atoms: Seq<Seq<char>>) -> Seq<char>
    decreases atoms.len(),
{
    if atoms.len() == 0 {
        Seq::empty()
    } else {
        atoms[0] + fmt_more_atoms(atoms.drop_first())
    }
}

/// The text of every atom after the first, each preceded by `", "`.
pub open spec fn fmt_more_atoms(atoms: Seq<Seq<char>>) -> Seq<char>
    decreases atoms.len(),
{
    if atoms.len() == 0 {
        Seq::empty()
    } else {
        seq![',', ' '] + atoms[0] + fmt_more_atoms(atoms.drop_first())
    }
}

/// Extending the tail of a join by one atom appends one `", "` separator
/// and that atom's text.
pub proof fn lemma_fmt_more_snoc(b: Seq<Seq<char>>, k: int)
    requires
        0 <= k < b.len(),
    ensures
        fmt_more_atoms(b.take(k + 1)) == fmt_more_atoms(b.take(k)) + seq![',', ' '] + b[k],
    decreases k,
{
    if k == 0 {
        assert(b.take(0).len() == 0);
        assert(b.take(1).drop_first() =~= b.take(0));
        assert(fmt_more_atoms(b.take(1)) == seq![',', ' '] + b.take(1)[0] + fmt_more_atoms(
            b.take(1).drop_first(),
        ));
        assert(fmt_more_atoms(b.take(1)) =~= fmt_more_atoms(b.take(0)) + seq![',', ' '] + b[0]);
    } else {
        lemma_fmt_more_snoc(b.drop_first(), k - 1);
        assert(b.take(k + 1).drop_first() =~= b.drop_first().take(k));
        assert(b.take(k).drop_first() =~= b.drop_first().take(k - 1));
        assert(b.take(k + 1)[0] == b[0]);
        assert(b.take(k)[0] == b[0]);
        assert(b.drop_first()[k - 1] == b[k]);
        assert(fmt_more_atoms(b.take(k + 1)) == seq![',', ' '] + b[0] + (fmt_more_atoms(
            b.drop_first().take(k - 1),
        ) + seq![',', ' '] + b[k]));
        assert(fmt_more_atoms(b.take(k)) == seq![',', ' '] + b[0] + fmt_more_atoms(
            b.drop_first().take(k - 1),
        ));
        assert(fmt_more_atoms(b.take(k + 1)) =~= fmt_more_atoms(b.take(k)) + seq![',', ' ']
            + b[k]);
    }
}

/// Extending a join by one atom appends that atom's text, preceded by the
/// `", "` separator whenever it is not the first atom.
pub proof fn lemma_fmt_atoms_snoc(a: Seq<Seq<char>>, k: int)
    requires
        0 <= k < a.len(),
    ensures
        fmt_atoms(a.take(k + 1)) == fmt_atoms(a.take(k)) + (if k == 0 {
            a[k]
        } else {
            seq![',', ' '] + a[k]
        }),
{
    if k == 0 {
        assert(a.take(0).len() == 0);
        assert(a.take(1).drop_first() =~= Seq::<Seq<char>>::empty());
        assert(fmt_atoms(a.take(1)) == a.take(1)[0] + fmt_more_atoms(a.take(1).drop_first()));
        assert(fmt_atoms(a.take(1)) =~= fmt_atoms(a.take(0)) + a[0]);
    } else {
        lemma_fmt_more_snoc(a.drop_first(), k - 1);
        assert(a.take(k + 1).drop_first() =~= a.drop_first().take(k));
        assert(a.take(k).drop_first() =~= a.drop_first().take(k - 1));
        assert(a.take(k + 1)[0] == a[0]);
        assert(a.take(k)[0] == a[0]);
        assert(a.drop_first()[k - 1] == a[k]);
        assert(fmt_atoms(a.take(k + 1)) == a[0] + (fmt_more_atoms(a.drop_first().take(k - 1))
            + seq![',', ' '] + a[k]));
        assert(fmt_atoms(a.take(k)) == a[0] + fmt_more_atoms(a.drop_first().take(k - 1)));
        assert(fmt_atoms(a.take(k + 1)) =~= fmt_atoms(a.take(k)) + (seq![',', ' '] + a[k]));
    }
}

/// Joining the pieces that a split produced gives the original text back.
pub proof fn lemma_join_split(r: Seq<char>)
    ensures
        fmt_atoms(split_atoms(r)) == r,
    decreases r.len(),
{
    lemma_find_sep(r, 0);
    let j = find_sep(r, 0);
    if 0 <= j && j + 1 < r.len() {
        let rest = r.subrange(j + 2, r.len() as int);
        lemma_join_split(rest);
        let ps = split_atoms(rest);
        assert(split_atoms(r) == seq![r.subrange(0, j)] + ps);
        assert((seq![r.subrange(0, j)] + ps).drop_first() =~= ps);
        assert(ps.len() > 0);
        assert(fmt_more_atoms(ps) == seq![',', ' '] + ps[0] + fmt_more_atoms(ps.drop_first()));
        assert(fmt_atoms(ps) == ps[0] + fmt_more_atoms(ps.drop_first()));
        assert(fmt_more_atoms(ps) =~= seq![',', ' '] + fmt_atoms(ps));
        assert(fmt_atoms(split_atoms(r)) == r.subrange(0, j) + fmt_more_atoms(ps));
        assert(sep_at(r, j));
        assert(fmt_atoms(split_atoms(r)) =~= r);
    } else {
        assert(split_atoms(r) == seq![r]);
        assert(seq![r].drop_first() =~= Seq::<Seq<char>>::empty());
        assert(fmt_atoms(split_atoms(r)) =~= r);
    }
}

/// Splitting the text that joining well-formed atoms produced gives the
/// atoms back: `", "` can occur nowhere inside an atom, so the separators
/// written by the join are exactly the ones the split finds.
pub proof fn lemma_split_join(atoms: Seq<Seq<char>>)
    requires
        atoms.len() > 0,
        forall|k: int| 0 <= k < atoms.len() ==> wf_atom(#[trigger] atoms[k]),
    ensures
        split_atoms(fmt_atoms(atoms)) == atoms,
    decreases atoms.len(),
{
    let s = fmt_atoms(atoms);
    let p = atoms[0];
    assert(wf_atom(p));
    if atoms.len() == 1 {
        assert(atoms.drop_first().len() == 0);
        assert(s == p + fmt_more_atoms(atoms.drop_first()));
        assert(s =~= p);
        assert forall|j: int| 0 <= j < s.len() implies !sep_at(s, j) by {
            if j + 1 < s.len() {
                assert(s[j + 1] == p[j + 1]);
                if j + 1 >= 1 {
                    assert(is_atom_char(p[j + 1]));
                }
            }
        }
        lemma_find_sep_exact(s, 0, s.len() as int);
        assert(split_atoms(s) == seq![s]);
        assert(seq![s] =~= atoms);
    } else {
        let rest = atoms.drop_first();
        assert(rest.len() > 0);
        assert(forall|k: int| 0 <= k < rest.len() ==> wf_atom(#[trigger] rest[k]));
        lemma_split_join(rest);
        let t = fmt_atoms(rest);
        assert(t.len() > 0) by {
            assert(wf_atom(rest[0]));
            assert(t == rest[0] + fmt_more_atoms(rest.drop_first()));
        }
        assert(fmt_more_atoms(rest) =~= seq![',', ' '] + t);
        assert(s =~= p + seq![',', ' '] + t);
        let n = p.len() as int;
        // no separator before position n: inside `p` the second character of
        // a separator would be a space, and atoms hold none; at the boundary
        // the character after `p` is the comma itself, not a space.
        assert forall|j: int| 0 <= j < n implies !sep_at(s, j) by {
            if j + 1 < n {
                assert(s[j + 1] == p[j + 1]);
                assert(is_atom_char(p[j + 1]));
            } else {
                assert(j + 1 == n);
                assert(s[j + 1] == ',');
            }
        }
        assert(sep_at(s, n)) by {
            assert(s[n] == ',');
            assert(s[n + 1] == ' ');
            assert(n + 1 < s.len());
        }
        lemma_find_sep_exact(s, 0, n);
        assert(find_sep(s, 0) == n);
        assert(s.subrange(0, n) =~= p);
        assert(s.subrange(n + 2, s.len() as int) =~= t);
        assert(split_atoms(s) == seq![p] + split_atoms(t));
        assert(seq![p] + rest =~= atoms);
    }
}

} // verus!
