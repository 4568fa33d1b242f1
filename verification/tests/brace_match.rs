use laplace::parser::brace_match::CodeMask;

#[test]
fn find_real_skips_comments_and_strings() {
    let source = "\"{\" // { \n{}";
    let chars: Vec<char> = source.chars().collect();
    let mask = CodeMask::new(&chars);
    let idx = mask.find_real(&chars, 0, '{').unwrap();
    assert_eq!(idx, source.rfind('{').unwrap());
}

#[test]
fn match_closing_brace_ignores_braces_in_comments_and_strings() {
    let source = "{ \"}\" // }\n}";
    let chars: Vec<char> = source.chars().collect();
    let mask = CodeMask::new(&chars);
    let close = mask.match_closing_brace(&chars, 0).unwrap();
    assert_eq!(close, source.len() - 1);
}
