//! Text-surgery and helper behaviour on concrete values.

use gambit::ast::SolAST;
use gambit::bytes::{split_lines, trim_bytes, u64_to_dec};
use gambit::doc::DocValue;
use gambit::run::RunMutations;

fn text(s: &str) -> DocValue {
    DocValue::Text(s.to_string())
}

fn obj(fields: Vec<(&str, DocValue)>) -> DocValue {
    DocValue::Object(fields.into_iter().map(|(k, v)| (k.to_string(), v)).collect())
}

fn spanned(src: &str) -> SolAST {
    SolAST::new(obj(vec![("src", text(src))]), None)
}

#[test]
fn bounds_parse_start_length() {
    let n = spanned("12:34:0");
    assert_eq!(n.try_bounds(), Some((12, 46)));
    assert_eq!(n.get_bounds(), (12, 46));
}

#[test]
fn bounds_reject_malformed() {
    assert_eq!(spanned("x:1:0").try_bounds(), None);
    assert_eq!(spanned("12").try_bounds(), None);
    assert_eq!(spanned(":3:0").try_bounds(), None);
    let no_src = SolAST::new(obj(vec![("name", text("n"))]), None);
    assert_eq!(no_src.try_bounds(), None);
}

#[test]
fn get_text_extracts_span() {
    let n = spanned("2:3:0");
    assert_eq!(n.get_text(b"abcdefg"), b"cde".to_vec());
}

#[test]
fn replace_part_splices() {
    let n = spanned("0:1:0");
    assert_eq!(n.replace_part(b"hello", b"XY", 1, 3), b"hXYlo".to_vec());
}

#[test]
fn replace_in_source_uses_span() {
    let n = spanned("1:2:0");
    assert_eq!(n.replace_in_source(b"hello", b"QQ"), b"hQQlo".to_vec());
}

#[test]
fn comment_out_wraps_span() {
    let n = spanned("2:4:0");
    assert_eq!(n.comment_out(b"{ a(); }"), b"{ /*a();*/ }".to_vec());
}

#[test]
fn comment_out_extends_over_star() {
    // The byte right after the span is `*`: the span grows by one so the
    // inserted comment is not closed early.
    let n = spanned("0:2:0");
    assert_eq!(n.comment_out(b"ab*c"), b"/*ab**/c".to_vec());
}

#[test]
fn replace_multiple_is_position_correct() {
    // Three spans, given out of order, with different length deltas.
    let a = spanned("0:1:0");
    let b = spanned("4:1:0");
    let c = spanned("8:1:0");
    let source = b"a + b + c";
    let out = a.replace_multiple(
        source,
        vec![
            (c, b"ZZZZ".to_vec()),
            (a.duplicate(), b"X".to_vec()),
            (b, b"".to_vec()),
        ],
    );
    assert_eq!(out, b"X +  + ZZZZ".to_vec());
}

#[test]
fn u64_decimal_rendering() {
    assert_eq!(u64_to_dec(0), b"0".to_vec());
    assert_eq!(u64_to_dec(12345), b"12345".to_vec());
    assert_eq!(u64_to_dec(u64::MAX), b"18446744073709551615".to_vec());
}

#[test]
fn trim_and_lines() {
    assert_eq!(trim_bytes(b"  a b \n"), b"a b".to_vec());
    let ls = split_lines(b"a\nbb\n\nc");
    assert_eq!(
        ls,
        vec![b"a".to_vec(), b"bb".to_vec(), b"".to_vec(), b"c".to_vec()]
    );
    assert_eq!(split_lines(b""), Vec::<Vec<u8>>::new());
    assert_eq!(split_lines(b"x\n"), vec![b"x".to_vec()]);
}

#[test]
fn annotation_marks_first_changed_line() {
    let orig = b"a\nb\n";
    let mutant = b"a\nc\n";
    let out = RunMutations::add_mutant_comment(orig, mutant, b"BinaryOpMutation");
    assert_eq!(out, b"a\n/// BinaryOpMutation of: b\nc\n".to_vec());
}

#[test]
fn annotation_keeps_indentation() {
    let orig = b"f\n  x = 1;\n";
    let mutant = b"f\n  x = 2;\n";
    let out = RunMutations::add_mutant_comment(orig, mutant, b"AssignmentMutation");
    assert_eq!(
        out,
        b"f\n  /// AssignmentMutation of: x = 1;\n  x = 2;\n".to_vec()
    );
}

#[test]
fn annotation_without_difference_renormalizes() {
    let out = RunMutations::add_mutant_comment(b"a\nb", b"a\nb", b"RequireMutation");
    assert_eq!(out, b"a\nb\n".to_vec());
}
