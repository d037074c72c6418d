//! The four-valued marker that closes every operation and controls how a
//! frame of operations is grouped into chunks.

use vstd::prelude::*;

verus! {

/// The marker written after an operation's payload; its value decides the
/// operation's chunk-grouping role within a frame.
#[derive(Clone, Copy, PartialEq, Eq, Structural, Debug)]
pub enum Terminator {
    /// The operation stands alone; it is not part of any chunk.
    Raw,
    /// The operation opens a new chunk and is that chunk's directive.
    Query,
    /// The operation opens a new chunk and is that chunk's directive;
    /// a header plays a different protocol role than a query but groups
    /// the same way.
    Header,
    /// The operation continues the chunk opened by the most recent query
    /// or header operation.
    Reduced,
}

/// The one-character symbol each terminator is written as.
pub open spec fn term_symbol(t: Terminator) -> char {
    match t {
        Terminator::Raw => ';',
        Terminator::Query => '?',
        Terminator::Header => '!',
        Terminator::Reduced => ',',
    }
}

/// Whether a character is one of the four terminator symbols.
pub open spec fn is_term_char(c: char) -> bool {
    c == ';' || c == '?' || c == '!' || c == ','
}

/// The terminator a symbol denotes; meaningful only when `is_term_char(c)`.
pub open spec fn term_of(c: char) -> Terminator {
    if c == ';' {
        Terminator::Raw
    } else if c == '?' {
        Terminator::Query
    } else if c == '!' {
        Terminator::Header
    } else {
        Terminator::Reduced
    }
}

impl Default for Terminator {
    /// An unspecified terminator means continuation: in a log of operations
    /// the common case after the first operation of a chunk is `Reduced`.
    fn default() -> (r: Terminator)
        ensures
            r == Terminator::Reduced,
    {
        Terminator::Reduced
    }
}

impl Terminator {
    /// The symbol this terminator is written as on the wire.
    pub fn symbol(&self) -> (c: char)
        ensures
            c == term_symbol(*self),
    {
        match self {
            Terminator::Raw => ';',
            Terminator::Query => '?',
            Terminator::Header => '!',
            Terminator::Reduced => ',',
        }
    }

    /// The symbol as a one-character string.
    pub fn to_text(&self) -> (r: String)
        ensures
            r@ == seq![term_symbol(*self)],
    {
        match self {
            Terminator::Raw => {
                proof {
                    reveal_strlit(";");
                }
                let r = String::from_str(";");
                proof {
                    assert(r@ =~= seq![term_symbol(*self)]);
                }
                r
            },
            Terminator::Query => {
                proof {
                    reveal_strlit("?");
                }
                let r = String::from_str("?");
                proof {
                    assert(r@ =~= seq![term_symbol(*self)]);
                }
                r
            },
            Terminator::Header => {
                proof {
                    reveal_strlit("!");
                }
                let r = String::from_str("!");
                proof {
                    assert(r@ =~= seq![term_symbol(*self)]);
                }
                r
            },
            Terminator::Reduced => {
                proof {
                    reveal_strlit(",");
                }
                let r = String::from_str(",");
                proof {
                    assert(r@ =~= seq![term_symbol(*self)]);
                }
                r
            },
        }
    }

    /// Reads a terminator from its single-character symbol; every other
    /// character is rejected.
    pub fn from_char(inp: char) -> (r: Result<Terminator, &'static str>)
        ensures
            match r {
                Ok(t) => inp == term_symbol(t),
                Err(m) => !is_term_char(inp) && m@ == "invalid terminator"@,
            },
    {
        if inp == ';' {
            Ok(Terminator::Raw)
        } else if inp == '?' {
            Ok(Terminator::Query)
        } else if inp == '!' {
            Ok(Terminator::Header)
        } else if inp == ',' {
            Ok(Terminator::Reduced)
        } else {
            Err("invalid terminator")
        }
    }

    /// Reads a terminator from text: exactly the four one-character symbols
    /// are accepted; anything else, the empty string included, is rejected.
    pub fn from_string(inp: &str) -> (r: Result<Terminator, &'static str>)
        ensures
            match r {
                Ok(t) => inp@ == seq![term_symbol(t)],
                Err(m) => !(inp@.len() == 1 && is_term_char(inp@[0])) && m@
                    == "invalid terminator"@,
            },
    {
        if inp.unicode_len() == 1 {
            let c = inp.get_char(0);
            let r = Terminator::from_char(c);
            proof {
                if r is Ok {
                    assert(inp@ =~= seq![term_symbol(r->Ok_0)]);
                }
            }
            r
        } else {
            Err("invalid terminator")
        }
    }
}

/// Law: writing and reading terminator symbols are exact inverses. Each of
/// the four terminators is written as a distinct symbol that reads back as
/// the same terminator, and every terminator symbol, once read, writes back
/// as the same character.
pub proof fn lemma_terminator_symbol_bijection()
    ensures
        forall|t: Terminator| #![auto] is_term_char(term_symbol(t)) && term_of(term_symbol(t)) == t,
        forall|c: char| is_term_char(c) ==> #[trigger] term_symbol(term_of(c)) == c,
{
}

} // verus!
