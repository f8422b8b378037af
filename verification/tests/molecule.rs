use ferricyanide::molecule::UnsupportedFormat;

#[test]
fn unsupported_format_message() {
    let e = UnsupportedFormat { format: "pdb".to_string() };
    assert_eq!(e.message(), "Unsupported format pdb");
}
