use toklex::validate_symbol_table;

#[test]
fn test_invalid_symbol_table() {
    let symbols = ["!@", "#$", "%^", "!@#", "$%^"];
    let err = validate_symbol_table(&symbols[..]).unwrap_err();
    let mut first = err.first;
    let mut second = err.second;
    if second.len() < first.len() {
        std::mem::swap(&mut first, &mut second);
    }
    assert_eq!(&first[..], ["!@#", "$%^"]);
    assert_eq!(&second[..], ["!@", "#$", "%^"]);
}

#[test]
fn test_validate_ok() {
    // No symbol is a prefix of another: always accepted.
    assert!(validate_symbol_table(&["->", "<-", "=="]).is_ok());
    assert!(validate_symbol_table(&[]).is_ok());
}

#[test]
fn test_validate_ambiguous_pair() {
    // "->" spells the same text as "-" followed by ">".
    let symbols = ["-", "->", ">"];
    let err = validate_symbol_table(&symbols[..]).unwrap_err();
    let mut first = err.first;
    let mut second = err.second;
    if second.len() < first.len() {
        std::mem::swap(&mut first, &mut second);
    }
    assert_eq!(&first[..], ["->"]);
    assert_eq!(&second[..], ["-", ">"]);
}

#[test]
fn test_validate_prefix_alone_is_fine() {
    // One symbol being a prefix of another is not by itself ambiguous.
    assert!(validate_symbol_table(&["+", "+="]).is_ok());
}

#[test]
fn test_validate_two_symbol_split() {
    // "ab" spells the same text as "a" followed by "b".
    let symbols = ["ab", "a", "b"];
    let err = validate_symbol_table(&symbols[..]).unwrap_err();
    let mut first = err.first;
    let mut second = err.second;
    if second.len() < first.len() {
        std::mem::swap(&mut first, &mut second);
    }
    assert_eq!(&first[..], ["ab"]);
    assert_eq!(&second[..], ["a", "b"]);
}

#[test]
fn test_validate_suffix_longer_than_symbol() {
    // "abc" spells "a" + "b" + "c": after cancelling "a", the dangling
    // suffix "bc" is longer than the next symbol, and the search must
    // shorten it from the front.
    let symbols = ["abc", "a", "b", "c"];
    let err = validate_symbol_table(&symbols[..]).unwrap_err();
    let mut first = err.first;
    let mut second = err.second;
    if second.len() < first.len() {
        std::mem::swap(&mut first, &mut second);
    }
    assert_eq!(&first[..], ["abc"]);
    assert_eq!(&second[..], ["a", "b", "c"]);
}
