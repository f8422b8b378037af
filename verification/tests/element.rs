use ferricyanide::element::Element;

#[test]
fn symbols_parse() {
    assert_eq!(Element::from_symbol("H"), Element::Hydrogen);
    assert_eq!(Element::from_symbol("He"), Element::Helium);
    assert_eq!(Element::from_symbol("Li"), Element::Lithium);
    assert_eq!(Element::from_symbol("Be"), Element::Beryllium);
    assert_eq!(Element::from_symbol("B"), Element::Boron);
    assert_eq!(Element::from_symbol("C"), Element::Carbon);
    assert_eq!(Element::from_symbol("N"), Element::Nitrogen);
    assert_eq!(Element::from_symbol("O"), Element::Oxygen);
    assert_eq!(Element::from_symbol("F"), Element::Fluorine);
    assert_eq!(Element::from_symbol("Ne"), Element::Neon);
    assert_eq!(Element::from_symbol("S"), Element::Sulfur);
    assert_eq!(Element::from_symbol("P"), Element::Phosphorus);
}

#[test]
fn names_parse() {
    assert_eq!(Element::from_symbol("Hydrogen"), Element::Hydrogen);
    assert_eq!(Element::from_symbol("Helium"), Element::Helium);
    assert_eq!(Element::from_symbol("Lithium"), Element::Lithium);
    assert_eq!(Element::from_symbol("Beryllium"), Element::Beryllium);
    assert_eq!(Element::from_symbol("Boron"), Element::Boron);
    assert_eq!(Element::from_symbol("Carbon"), Element::Carbon);
    assert_eq!(Element::from_symbol("Nitrogen"), Element::Nitrogen);
    assert_eq!(Element::from_symbol("Oxygen"), Element::Oxygen);
    assert_eq!(Element::from_symbol("Fluorine"), Element::Fluorine);
    assert_eq!(Element::from_symbol("Neon"), Element::Neon);
    assert_eq!(Element::from_symbol("Sulfur"), Element::Sulfur);
    assert_eq!(Element::from_symbol("Phosphorus"), Element::Phosphorus);
}

#[test]
fn unknown_symbols_are_other() {
    assert_eq!(Element::from_symbol("Xx"), Element::Other);
    assert_eq!(Element::from_symbol(""), Element::Other);
    assert_eq!(Element::from_symbol("h"), Element::Other);
    assert_eq!(Element::from_symbol("Fe"), Element::Other);
}
