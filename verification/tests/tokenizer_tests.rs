use peridot_archive::tokenizer::{DeclarationOps, Tokenizer};

#[test]
fn ident_list_reads_comma_separated_names() {
    let mut t = Tokenizer::new("  alpha, beta ,gamma; rest");
    let ids = t.ident_list();
    assert_eq!(ids, vec!["alpha", "beta", "gamma"]);
    assert!(t.declaration_end());
}

#[test]
fn ident_list_is_empty_for_leading_digit() {
    let mut t = Tokenizer::new("1abc");
    let ids = t.ident_list();
    assert!(ids.is_empty());
}

#[test]
fn ident_list_skips_comments() {
    let mut t = Tokenizer::new("// names follow\n a , // inline\n b;");
    let ids = t.ident_list();
    assert_eq!(ids, vec!["a", "b"]);
    assert!(t.declaration_end());
}

#[test]
fn declaration_op_recognizes_all_keywords() {
    let mut t = Tokenizer::new(" FragmentShader VertexShader VertexInput Varyings junk");
    assert_eq!(t.declaration_op(), Some(DeclarationOps::FragmentShader));
    assert_eq!(t.declaration_op(), Some(DeclarationOps::VertexShader));
    assert_eq!(t.declaration_op(), Some(DeclarationOps::VertexInput));
    assert_eq!(t.declaration_op(), Some(DeclarationOps::Varyings));
    assert_eq!(t.declaration_op(), None);
}

#[test]
fn index_number_reads_decimal() {
    let mut t = Tokenizer::new("  42]");
    assert_eq!(t.index_number(), Some(42));
    assert!(t.bracket_end());
    let mut t2 = Tokenizer::new("abc");
    assert_eq!(t2.index_number(), None);
}

#[test]
fn glsl_type_ascription_runs_to_terminator() {
    let mut t = Tokenizer::new(" : vec4 thing;");
    assert_eq!(t.glsl_type_ascription(), Some("vec4 thing"));
    assert!(t.declaration_end());
    let mut t2 = Tokenizer::new("novalue");
    assert_eq!(t2.glsl_type_ascription(), None);
}

#[test]
fn brackets_blocks_and_arrows() {
    let mut t = Tokenizer::new(" { } [ ] ; -> x");
    assert!(t.block_start());
    assert!(t.block_end());
    assert!(t.bracket_start());
    assert!(t.bracket_end());
    assert!(t.declaration_end());
    assert!(t.arrow());
    assert!(!t.arrow());
    assert!(!t.no_chars());
}

#[test]
fn codeblock_reads_to_matching_brace() {
    let mut t = Tokenizer::new(" { outer { inner } more } tail");
    let cb = t.codeblock().unwrap();
    assert_eq!(cb, " outer { inner } more ");
    let ids = t.ident_list();
    assert_eq!(ids, vec!["tail"]);
}

#[test]
fn codeblock_requires_an_opening_brace() {
    let mut t = Tokenizer::new("nothing here");
    assert_eq!(t.codeblock(), None);
}

#[test]
fn no_chars_after_trailing_comment() {
    let mut t = Tokenizer::new("// just a comment");
    assert!(!t.block_start());
    assert!(t.no_chars());
}
