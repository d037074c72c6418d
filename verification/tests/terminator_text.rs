use ron_ops::terminator::Terminator;

#[test]
fn symbols_round_trip() {
    let cases = [";", "?", "!", ","];
    for s in cases {
        let t = Terminator::from_string(s).unwrap();
        assert_eq!(t.to_text(), s);
    }
}

#[test]
fn from_string_maps_each_symbol() {
    assert_eq!(Terminator::from_string(";"), Ok(Terminator::Raw));
    assert_eq!(Terminator::from_string("?"), Ok(Terminator::Query));
    assert_eq!(Terminator::from_string("!"), Ok(Terminator::Header));
    assert_eq!(Terminator::from_string(","), Ok(Terminator::Reduced));
}

#[test]
fn from_char_maps_each_symbol() {
    assert_eq!(Terminator::from_char(';'), Ok(Terminator::Raw));
    assert_eq!(Terminator::from_char('?'), Ok(Terminator::Query));
    assert_eq!(Terminator::from_char('!'), Ok(Terminator::Header));
    assert_eq!(Terminator::from_char(','), Ok(Terminator::Reduced));
}

#[test]
fn from_string_rejects_everything_else() {
    assert_eq!(Terminator::from_string(""), Err("invalid terminator"));
    assert_eq!(Terminator::from_string("x"), Err("invalid terminator"));
    assert_eq!(Terminator::from_string(";;"), Err("invalid terminator"));
    assert_eq!(Terminator::from_string("; "), Err("invalid terminator"));
    assert_eq!(Terminator::from_string("*"), Err("invalid terminator"));
}

#[test]
fn from_char_rejects_other_characters() {
    assert_eq!(Terminator::from_char('x'), Err("invalid terminator"));
    assert_eq!(Terminator::from_char(' '), Err("invalid terminator"));
    assert_eq!(Terminator::from_char('.'), Err("invalid terminator"));
}

#[test]
fn default_is_reduced() {
    assert_eq!(Terminator::default(), Terminator::Reduced);
    assert_eq!(Terminator::default().to_text(), ",");
}

#[test]
fn symbol_returns_the_wire_character() {
    assert_eq!(Terminator::Raw.symbol(), ';');
    assert_eq!(Terminator::Query.symbol(), '?');
    assert_eq!(Terminator::Header.symbol(), '!');
    assert_eq!(Terminator::Reduced.symbol(), ',');
}
