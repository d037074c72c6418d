use ron_ops::atoms::Payload;
use ron_ops::op::{Op, ParseError};
use ron_ops::terminator::Terminator;
use ron_ops::token::{Atom, Locator};

fn loc(s: &str) -> Locator {
    Locator::new(s).unwrap()
}

fn op(ty: &str, object: &str, event: &str, location: &str, atoms: &[&str], term: Terminator) -> Op {
    let mut pay = Payload::new();
    for a in atoms {
        pay.push(Atom::new(a).unwrap());
    }
    Op {
        ty: loc(ty),
        object: loc(object),
        event: loc(event),
        location: loc(location),
        atoms: pay,
        term,
    }
}

#[test]
fn zero_atoms_text() {
    let o = op("TY", "OBJ", "EV", "RE", &[], Terminator::Raw);
    assert_eq!(o.to_text(), "*TY#OBJ@EV:RE;");
}

#[test]
fn one_atom_no_space_before_reduced_comma() {
    // a single atom followed by the Reduced comma: no space anywhere
    let o = op("A", "B", "C", "D", &["=5"], Terminator::Reduced);
    assert_eq!(o.to_text(), "*A#B@C:D=5,");
}

#[test]
fn two_atoms_separated_with_comma_space() {
    // the separator between atoms is ", "; the terminator follows directly
    let o = op("A", "B", "C", "D", &["=5", "=6"], Terminator::Raw);
    assert_eq!(o.to_text(), "*A#B@C:D=5, =6;");
}

#[test]
fn three_atoms_keep_their_order() {
    let o = op("A", "B", "C", "D", &["=1", "'two'", ">three"], Terminator::Query);
    assert_eq!(o.to_text(), "*A#B@C:D=1, 'two', >three?");
}

#[test]
fn default_terminator_formats_like_reduced() {
    let with_default = op("A", "B", "C", "D", &["=5"], Terminator::default());
    let explicit = op("A", "B", "C", "D", &["=5"], Terminator::Reduced);
    assert_eq!(with_default.to_text(), explicit.to_text());
}

#[test]
fn round_trip_zero_one_and_many_atoms() {
    let terms = [
        Terminator::Raw,
        Terminator::Query,
        Terminator::Header,
        Terminator::Reduced,
    ];
    for term in terms {
        let empty: &[&str] = &[];
        let one: &[&str] = &["=5"];
        let many: &[&str] = &["=5", "'ab'", ">id", "^x"];
        for atoms in [empty, one, many] {
            let o = op("TY", "OBJ", "EV", "RE", atoms, term);
            let text = o.to_text();
            let back = Op::parse(&text).unwrap();
            assert!(back == o);
            assert_eq!(back.to_text(), text);
        }
    }
}

#[test]
fn parse_reads_the_exact_canonical_form() {
    let o = Op::parse("*A#B@C:D=5, =6;").unwrap();
    assert!(o == op("A", "B", "C", "D", &["=5", "=6"], Terminator::Raw));
    let o = Op::parse("*A#B@C:D=5,").unwrap();
    assert!(o == op("A", "B", "C", "D", &["=5"], Terminator::Reduced));
    let o = Op::parse("*A#B@C:D,").unwrap();
    assert!(o == op("A", "B", "C", "D", &[], Terminator::Reduced));
}

#[test]
fn parse_rejects_broken_coordinates() {
    assert_eq!(Op::parse(""), Err(ParseError::Coordinate));
    assert_eq!(Op::parse("A#B@C:D;"), Err(ParseError::Coordinate));
    assert_eq!(Op::parse("*#B@C:D;"), Err(ParseError::Coordinate));
    assert_eq!(Op::parse("*A@C:D;"), Err(ParseError::Coordinate));
    assert_eq!(Op::parse("*A#B@C;"), Err(ParseError::Coordinate));
    assert_eq!(Op::parse("*A#B@C:;"), Err(ParseError::Coordinate));
}

#[test]
fn parse_rejects_broken_terminators() {
    assert_eq!(Op::parse("*A#B@C:D"), Err(ParseError::Terminator));
    assert_eq!(Op::parse("*A#B@C:D=5x"), Err(ParseError::Terminator));
}

#[test]
fn parse_rejects_broken_atom_text() {
    // a space inside the atom region that is not part of a ", " separator
    assert_eq!(Op::parse("*A#B@C:D= 5;"), Err(ParseError::Atom));
    // text after a terminator symbol turns the tail into unusable atoms
    assert_eq!(Op::parse("*A#B@C:D;x;"), Err(ParseError::Atom));
    // an atom without its sigil
    assert_eq!(Op::parse("*A#B@C:D=5, 6;"), Err(ParseError::Atom));
}

#[test]
fn formatting_twice_is_identical() {
    let o = op("TY", "OBJ", "EV", "RE", &["=5", "'a'"], Terminator::Header);
    let first = o.to_text();
    let second = o.to_text();
    assert_eq!(first, second);
    assert_eq!(first, "*TY#OBJ@EV:RE=5, 'a'!");
}

#[test]
fn equality_is_structural() {
    let a = op("A", "B", "C", "D", &["=5", "=6"], Terminator::Raw);
    let b = op("A", "B", "C", "D", &["=5", "=6"], Terminator::Raw);
    assert!(a.same_as(&b));
    assert!(a == b);
    let other_term = op("A", "B", "C", "D", &["=5", "=6"], Terminator::Query);
    assert!(!a.same_as(&other_term));
    let other_order = op("A", "B", "C", "D", &["=6", "=5"], Terminator::Raw);
    assert!(!a.same_as(&other_order));
    let fewer_atoms = op("A", "B", "C", "D", &["=5"], Terminator::Raw);
    assert!(!a.same_as(&fewer_atoms));
    let other_event = op("A", "B", "X", "D", &["=5", "=6"], Terminator::Raw);
    assert!(!a.same_as(&other_event));
    assert!(Locator::new("A").unwrap().same_as(&Locator::new("A").unwrap()));
    assert!(!Locator::new("A").unwrap().same_as(&Locator::new("B").unwrap()));
    assert!(Atom::new("=5").unwrap().same_as(&Atom::new("=5").unwrap()));
    assert!(!Atom::new("=5").unwrap().same_as(&Atom::new("=55").unwrap()));
}

#[test]
fn locator_text_round_trips() {
    let l = Locator::new("1fLDV4+gritzko").unwrap();
    assert_eq!(l.to_text(), "1fLDV4+gritzko");
    assert!(Locator::new("").is_none());
    assert!(Locator::new("a b").is_none());
    assert!(Locator::new("a,b").is_none());
    assert!(Locator::new("a*b").is_none());
    assert!(Locator::new("=a").is_none());
}

#[test]
fn atom_text_round_trips() {
    let a = Atom::new("'hello'").unwrap();
    assert_eq!(a.to_text(), "'hello'");
    assert!(Atom::new("").is_none());
    assert!(Atom::new("5").is_none());
    assert!(Atom::new("= 5").is_none());
    assert!(Atom::new("=5").is_some());
    assert!(Atom::new(">id").is_some());
    assert!(Atom::new("^2").is_some());
}

#[test]
fn payload_keeps_length_and_order() {
    let mut pay = Payload::new();
    assert_eq!(pay.len(), 0);
    pay.push(Atom::new("=1").unwrap());
    pay.push(Atom::new("=2").unwrap());
    assert_eq!(pay.len(), 2);
    assert_eq!(pay.get(0).to_text(), "=1");
    assert_eq!(pay.get(1).to_text(), "=2");
}
