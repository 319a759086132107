use network_parser_rs::find_closing_parrent;

#[test]
pub fn test_find_closing_parrent() {
    assert_eq!(
        find_closing_parrent(
            '(',
            String::from("fresfwadaw(freshgsrkjfe(fesagsruih)({[}dwa}daw>dvgtg<>])efsgtdb)hdf")
        ),
        63
    );
}

#[test]
fn test_find_closing_other_brackets() {
    assert_eq!(find_closing_parrent('[', String::from("a[b[c]d]e")), 7);
    assert_eq!(find_closing_parrent('<', String::from("<<>")), 0);
    assert_eq!(find_closing_parrent('{', String::from("}{}")), 0);
    assert_eq!(find_closing_parrent('(', String::from("")), 0);
}
