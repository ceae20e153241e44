use tinybasic::emitter::Emitter;
use tinybasic::lexer::lex_source;
use tinybasic::parser::Program;

const HEADER: &str = "#include <stdio.h>\nint main(void){\n";
const FOOTER: &str = "return 0;\n}\n";

fn compile(source: &str) -> String {
    let tokens = lex_source(source).expect("the source lexes");
    let mut program = Program::new();
    program.build(tokens).expect("the source parses");
    let mut emitter = Emitter::new();
    emitter.build(program);
    emitter.text()
}

fn body_of(source: &str) -> String {
    let text = compile(source);
    assert!(text.starts_with(HEADER));
    assert!(text.ends_with(FOOTER));
    text[HEADER.len()..text.len() - FOOTER.len()].to_string()
}

#[test]
fn new_emitter_is_empty() {
    assert_eq!(Emitter::new().text(), "");
}

#[test]
fn header_and_footer() {
    let mut emitter = Emitter::new();
    emitter.header();
    assert_eq!(emitter.text(), "#include <stdio.h>\nint main(void){\n");
    emitter.footer();
    assert_eq!(
        emitter.text(),
        "#include <stdio.h>\nint main(void){\nreturn 0;\n}\n"
    );
    let mut emitter = Emitter::new();
    emitter.footer();
    assert_eq!(emitter.text(), "return 0;\n}\n");
}

#[test]
fn empty_program() {
    assert_eq!(
        compile(""),
        "#include <stdio.h>\nint main(void){\nreturn 0;\n}\n"
    );
}

#[test]
fn let_emits_declaration_and_assignment() {
    assert_eq!(
        compile("LET a = 1\n"),
        "#include <stdio.h>\nint main(void){\nfloat a;\na = 1;\nreturn 0;\n}\n"
    );
}

#[test]
fn print_string() {
    assert_eq!(body_of("PRINT \"hi\"\n"), "printf(\"hi\");\n");
}

#[test]
fn print_expression() {
    assert_eq!(
        body_of("LET a = 2\nPRINT a * 3\n"),
        "float a;\na = 2;\nprintf(\"%f\\n\",a*3);\n"
    );
}

#[test]
fn if_wraps_its_body() {
    assert_eq!(
        body_of("LET a = 1\nIF a > 0 THEN\nPRINT \"pos\"\nENDIF\n"),
        "float a;\na = 1;\nif (a>0) {\nprintf(\"pos\");\n}\n"
    );
}

#[test]
fn while_wraps_its_body() {
    assert_eq!(
        body_of("LET a = 3\nWHILE a > 0 REPEAT\nLET a = a - 1\nENDWHILE\n"),
        "float a;\na = 3;\nwhile (a>0) {\na = a-1;\n}\n"
    );
}

#[test]
fn input_is_guarded() {
    assert_eq!(
        body_of("INPUT a\n"),
        "float a;\nif (0 == scanf(\"%f\", &a)) {\na = 0;\nscanf(\"%*s\");\n}\n\n"
    );
}

#[test]
fn label_and_goto() {
    assert_eq!(
        body_of("LABEL top\nGOTO top\n"),
        "top:\ngoto top;\n"
    );
}

#[test]
fn relations_as_c_writes_them() {
    for (relation, rendered) in [
        ("==", "=="),
        ("!=", "!="),
        (">", ">"),
        (">=", ">="),
        ("<", "<"),
        ("<=", "<="),
    ] {
        let source = format!("IF 1 {} 2 THEN\nENDIF\n", relation);
        assert_eq!(body_of(&source), format!("if (1{}2) {{\n}}\n", rendered));
    }
}

#[test]
fn expressions_are_written_without_blanks() {
    assert_eq!(
        body_of("LET a = 1\nLET b = - a + 2 * 3 / + 4 - 5.50\n"),
        "float a;\nfloat b;\na = 1;\nb = -a+2*3/+4-5.50;\n"
    );
}

#[test]
fn adjacent_terms_are_written_side_by_side() {
    assert_eq!(body_of("LET a = 1 2\n"), "float a;\na = 12;\n");
}

#[test]
fn float_literals_are_written_as_in_the_source() {
    assert_eq!(body_of("LET a = 1.0\n"), "float a;\na = 1.0;\n");
    assert_eq!(body_of("LET a = 3.\n"), "float a;\na = 3.;\n");
    assert_eq!(body_of("LET a = 007\n"), "float a;\na = 7;\n");
    assert_eq!(
        body_of("LET a = 2147483647\n"),
        "float a;\na = 2147483647;\n"
    );
    assert_eq!(body_of("LET a = 0\n"), "float a;\na = 0;\n");
    assert_eq!(body_of("LET a = 10\n"), "float a;\na = 10;\n");
}

#[test]
fn one_declaration_for_each_variable() {
    assert_eq!(
        body_of("LET b = 1\nLET a = 2\nLET b = 3\nINPUT a\n"),
        "float b;\nfloat a;\nb = 1;\na = 2;\nb = 3;\nif (0 == scanf(\"%f\", &a)) {\na = 0;\nscanf(\"%*s\");\n}\n\n"
    );
}

#[test]
fn nested_blocks_are_emitted_inside_out() {
    assert_eq!(
        body_of("LET a = 1\nWHILE a < 3 REPEAT\nIF a == 2 THEN\nPRINT \"two\"\nENDIF\nLET a = a + 1\nENDWHILE\n"),
        "float a;\na = 1;\nwhile (a<3) {\nif (a==2) {\nprintf(\"two\");\n}\na = a+1;\n}\n"
    );
}

#[test]
fn as_many_lines_as_statements() {
    let source = "LET a = 1\nPRINT \"one\"\nLET b = a + 2\nPRINT \"two\"\nLET a = b\n";
    let tokens = lex_source(source).unwrap();
    let mut program = Program::new();
    program.build(tokens).unwrap();
    let statements = program.statements().len();
    let symbols = program.symbols().len();
    let mut emitter = Emitter::new();
    emitter.build(program);
    let text = emitter.text();
    assert_eq!(statements, 5);
    assert_eq!(text.lines().count(), 2 + symbols + statements + 2);
    let body = body_of(source);
    assert_eq!(body.lines().count() - symbols, statements);
}

#[test]
fn emitter_adds_to_what_it_holds() {
    let mut emitter = Emitter::new();
    emitter.header();
    let mut program = Program::new();
    program.build(lex_source("PRINT \"x\"\n").unwrap()).unwrap();
    emitter.build(program);
    assert_eq!(
        emitter.text(),
        "#include <stdio.h>\nint main(void){\n#include <stdio.h>\nint main(void){\nprintf(\"x\");\nreturn 0;\n}\n"
    );
}

#[test]
fn output_ends_with_a_line_break() {
    for source in ["", "LET a = 1\n", "PRINT \"x\"\n", "LABEL l\nGOTO l\n"] {
        assert!(compile(source).ends_with('\n'));
    }
}

#[test]
fn string_with_a_line_break_takes_two_lines() {
    // The one-line-per-statement count holds only where no string holds a line break.
    assert_eq!(body_of("PRINT \"a\nb\"\n"), "printf(\"a\nb\");\n");
    assert_eq!(body_of("PRINT \"a\nb\"\n").lines().count(), 2);
}

#[test]
fn text_adds_a_missing_line_break_only() {
    let mut emitter = Emitter::new();
    assert_eq!(emitter.text(), "");
    emitter.footer();
    let once = emitter.text();
    assert!(once.ends_with("}\n"));
    assert!(!once.ends_with("\n\n"));
    assert_eq!(emitter.text(), once);
}
