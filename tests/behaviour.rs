use commentator::canon::{lines_ws_offset, trim_text};
use commentator::output::Format;
use commentator::spec::{spec_for_lang, Spec, StandardSpec};
use commentator::{Comment, Tokenizer};

fn drain<S: Spec>(t: &mut Tokenizer<S>) -> Vec<Comment> {
    let mut out = Vec::new();
    while let Some(c) = t.take() {
        out.push(c);
    }
    out
}

#[test]
fn no_lexeme_gives_no_comment() {
    let mut t = Tokenizer::new(StandardSpec::C);
    t.update(1, "int main() {\n");
    t.update(2, "  return 1 * 2 / 3;\n");
    t.update(3, "}\n");
    t.finish();
    assert!(t.take().is_none());
}

#[test]
fn no_lexeme_shell_gives_no_comment() {
    let mut t = Tokenizer::new(StandardSpec::Bash);
    t.update(1, "echo hello /* not a comment */\n");
    t.finish();
    assert!(t.take().is_none());
}

#[test]
fn block_position_is_cluster_count() {
    let mut t = Tokenizer::new(StandardSpec::C);
    t.update(4, "x = 1; /* c */\n");
    let c = t.take().unwrap();
    assert_eq!(c.line, 4);
    assert_eq!(c.start, 7);
    assert_eq!(c.text, " c ");
}

#[test]
fn block_position_counts_graphemes_not_chars() {
    let mut t = Tokenizer::new(StandardSpec::C);
    // "e" with a combining acute accent is one cluster of two chars.
    t.update(1, "e\u{301}\u{1F44D}/*x*/\n");
    let c = t.take().unwrap();
    assert_eq!(c.start, 2);
    assert_eq!(c.text, "x");
}

#[test]
fn line_comment_starts_after_marker() {
    let mut t = Tokenizer::new(StandardSpec::C);
    t.update(2, "ab // c\n");
    t.finish();
    let c = t.take().unwrap();
    assert_eq!(c.line, 2);
    assert_eq!(c.start, 5);
    assert_eq!(c.text, " c\n");
    assert!(c.inline);
}

#[test]
fn block_comment_three_lines_raw_text() {
    let mut t = Tokenizer::new(StandardSpec::C);
    t.update(1, "/*\n");
    t.update(2, " * body\n");
    t.update(3, " */\n");
    t.finish();
    let all = drain(&mut t);
    assert_eq!(all.len(), 1);
    assert_eq!(all[0].text, "\n * body\n ");
    assert_eq!(all[0].line, 1);
    assert_eq!(all[0].start, 0);
}

#[test]
fn entry_point_raw_and_trimmed() {
    let mut t = Tokenizer::new(StandardSpec::C);
    t.update(1, "/*\n");
    t.update(2, " * Entry point.\n");
    t.update(3, " */\n");
    t.finish();
    let all = drain(&mut t);
    assert_eq!(all.len(), 1);
    assert_eq!(all[0].text, "\n * Entry point.\n ");
    let mut c = all[0].clone();
    c.trim(&StandardSpec::C);
    // Blank lines at both ends are dropped, then the decoration and the
    // shared indentation.
    assert_eq!(c.text, "Entry point.");
    assert_eq!(c.line, 1);
}

#[test]
fn trim_block_body() {
    let mut t = Tokenizer::new(StandardSpec::C);
    t.update(1, "/*\n");
    t.update(2, " * body\n");
    t.update(3, " */\n");
    let mut c = t.take().unwrap();
    c.trim(&StandardSpec::C);
    assert_eq!(c.text, "body");
}

#[test]
fn rust_doc_lines_aggregate() {
    let mut t = Tokenizer::new(StandardSpec::Rust);
    t.update(1, "/// one\n");
    t.update(2, "/// two\n");
    t.update(3, "/// three\n");
    assert!(t.take().is_none());
    t.finish();
    let all = drain(&mut t);
    assert_eq!(all.len(), 1);
    assert_eq!(all[0].text, " one\n two\n three\n");
    assert_eq!(all[0].line, 1);
    assert_eq!(all[0].start, 3);
}

#[test]
fn separated_line_comments_do_not_merge() {
    let mut t = Tokenizer::new(StandardSpec::C);
    t.update(1, "// a\n");
    t.update(2, "code();\n");
    t.update(3, "// b\n");
    let first = t.take().unwrap();
    assert_eq!(first.text, " a\n");
    assert!(t.take().is_none());
    t.finish();
    let second = t.take().unwrap();
    assert_eq!(second.line, 3);
    assert_eq!(second.text, " b\n");
    assert!(t.take().is_none());
}

#[test]
fn provisional_withheld_until_finish() {
    let mut t = Tokenizer::new(StandardSpec::Bash);
    t.update(1, "# a\n");
    assert!(t.take().is_none());
    t.update(2, "# b\n");
    assert!(t.take().is_none());
    t.finish();
    let c = t.take().unwrap();
    assert_eq!(c.text, " a\n b\n");
    assert!(t.take().is_none());
    t.finish();
    assert!(t.take().is_none());
}

#[test]
fn block_supersedes_provisional() {
    let mut t = Tokenizer::new(StandardSpec::C);
    t.update(1, "// a\n");
    t.update(2, "/* b */ // c\n");
    let all = drain(&mut t);
    assert_eq!(all.len(), 2);
    assert_eq!(all[0].text, " a\n");
    assert_eq!(all[1].text, " b ");
    assert_eq!(all[1].start, 0);
    t.finish();
    let c = t.take().unwrap();
    assert_eq!(c.text, " c\n");
    assert_eq!(c.start, 10);
}

#[test]
fn two_blocks_on_one_line() {
    let mut t = Tokenizer::new(StandardSpec::HTML);
    t.update(1, "<!--a--><!--b-->\n");
    let all = drain(&mut t);
    assert_eq!(all.len(), 2);
    assert_eq!(all[0].text, "a");
    assert_eq!(all[1].text, "b");
    assert_eq!(all[1].start, 8);
}

#[test]
fn unterminated_block_is_not_released() {
    let mut t = Tokenizer::new(StandardSpec::C);
    t.update(1, "/* open\n");
    t.update(2, "still\n");
    t.finish();
    assert!(t.take().is_none());
}

#[test]
fn ascii_path_matches_grapheme_path() {
    let mut a = Tokenizer::new(StandardSpec::C);
    let mut b = Tokenizer::new(StandardSpec::C);
    for (n, l) in ["x /* a\n", " b */ y // z\n"].iter().enumerate() {
        a.update(n + 1, l);
        b.update_ascii(n + 1, l);
    }
    a.finish();
    b.finish();
    let ra = drain(&mut a);
    let rb = drain(&mut b);
    assert_eq!(ra.len(), 2);
    assert_eq!(rb.len(), 2);
    for i in 0..2 {
        assert_eq!(ra[i].text, rb[i].text);
        assert_eq!(ra[i].start, rb[i].start);
        assert_eq!(ra[i].line, rb[i].line);
    }
    assert_eq!(ra[0].text, " a\n b ");
    assert_eq!(ra[1].text, " z\n");
}

#[test]
fn markup_widths_and_no_line_comment() {
    let s = StandardSpec::HTML;
    assert_eq!(s.is_begin("<!-- x"), Some(4));
    assert_eq!(s.is_end("-->"), Some(3));
    assert_eq!(s.is_inline("<!-- x"), None);
    assert_eq!(s.is_inline("// x"), None);
    assert_eq!(s.is_inline("# x"), None);
}

#[test]
fn shell_widths_and_no_block_comment() {
    let s = StandardSpec::Bash;
    assert_eq!(s.is_inline("# x"), Some(1));
    assert_eq!(s.is_begin("/* x"), None);
    assert_eq!(s.is_begin("<!-- x"), None);
    assert_eq!(s.is_end("*/"), None);
    assert_eq!(s.is_end("-->"), None);
}

#[test]
fn rust_doc_markers_before_plain() {
    let s = StandardSpec::Rust;
    assert_eq!(s.is_inline("/// x"), Some(3));
    assert_eq!(s.is_inline("//! x"), Some(3));
    assert_eq!(s.is_inline("// x"), Some(2));
    assert_eq!(s.is_begin("/* x"), None);
    assert_eq!(s.trim("/// x"), " x");
    assert_eq!(s.trim("//! x"), " x");
    assert_eq!(s.trim("// x"), " x");
    assert_eq!(s.trim("* x"), " x");
}

#[test]
fn decoration_strips() {
    assert_eq!(StandardSpec::C.trim("* x"), " x");
    assert_eq!(StandardSpec::C.trim("// x"), " x");
    assert_eq!(StandardSpec::C.trim("x"), "x");
    assert_eq!(StandardSpec::Bash.trim("# x"), " x");
    assert_eq!(StandardSpec::HTML.trim("* x"), "* x");
    assert_eq!(StandardSpec::C.is_begin("/**/"), Some(3));
}

#[test]
fn trim_text_exact() {
    let s = StandardSpec::C;
    assert_eq!(trim_text(&s, "\n   * a\n   *   b  \n   \n"), "a\n  b");
    assert_eq!(trim_text(&s, ""), "");
    assert_eq!(trim_text(&s, "  \n \t \n"), "");
    assert_eq!(trim_text(&StandardSpec::Bash, "# x\n#  y\n"), "x\n y");
}

#[test]
fn trim_is_idempotent_on_sample() {
    let s = StandardSpec::C;
    let once = trim_text(&s, "\n * Entry point.\n *   detail\n ");
    assert_eq!(once, "Entry point.\n  detail");
    let twice = trim_text(&s, &once);
    assert_eq!(once, twice);
}

#[test]
fn shared_indent_offset() {
    let v = vec!["   a".to_string(), "  b".to_string(), "    c".to_string()];
    assert_eq!(lines_ws_offset(&v), 2);
    let e: Vec<String> = Vec::new();
    assert_eq!(lines_ws_offset(&e), 0);
}

#[test]
fn language_names() {
    assert_eq!(spec_for_lang("java"), Some(StandardSpec::C));
    assert_eq!(spec_for_lang("cpp"), Some(StandardSpec::C));
    assert_eq!(spec_for_lang("ruby"), Some(StandardSpec::Bash));
    assert_eq!(spec_for_lang("xml"), Some(StandardSpec::HTML));
    assert_eq!(spec_for_lang("rust"), Some(StandardSpec::Rust));
    assert_eq!(spec_for_lang("cobol"), None);
}

#[test]
fn format_names() {
    assert_eq!(Format::parse("json").unwrap(), Format::JSON);
    assert_eq!(Format::parse("plain").unwrap(), Format::Plain);
    let e = Format::parse("xml").unwrap_err();
    assert_eq!(e.msg, "unknown option `xml`");
    assert_eq!(
        e.message(),
        "format parse error: unknown option `xml`. Supported format options are `plain` or `json`"
    );
    let f: Format = "plain".parse().unwrap();
    assert_eq!(f, Format::Plain);
}
