//! Comment lexeme specifications for families of languages.
use vstd::prelude::*;
use vstd::string::*;

verus! {

/// True when `p` is a prefix of `s`.
pub open spec fn has_prefix(s: Seq<char>, p: Seq<char>) -> bool {
    p.len() <= s.len() && s.subrange(0, p.len() as int) == p
}

/// Checks whether `p` is a prefix of `s`, character by character.
pub fn starts_with(s: &str, p: &str) -> (r: bool)
    ensures
        r == has_prefix(s@, p@),
{
    let n = s.unicode_len();
    let m = p.unicode_len();
    if m > n {
        return false;
    }
    let mut i: usize = 0;
    while i < m
        invariant
            m == p@.len(),
            n == s@.len(),
            m <= n,
            i <= m,
            forall|j: int| 0 <= j < i ==> s@[j] == p@[j],
        decreases m - i,
    {
        if s.get_char(i) != p.get_char(i) {
            assert(s@.subrange(0, m as int)[i as int] != p@[i as int]);
            return false;
        }
        i = i + 1;
    }
    assert(s@.subrange(0, m as int) =~= p@);
    true
}

/// Checks whether `a` and `b` hold the same characters.
pub fn same_text(a: &str, b: &str) -> (r: bool)
    ensures
        r == (a@ == b@),
{
    if a.unicode_len() != b.unicode_len() {
        return false;
    }
    let r = starts_with(a, b);
    proof {
        assert(a@ =~= a@.subrange(0, a@.len() as int));
    }
    r
}

/// The family of a language name: C-like for `c`, `java`, `go` and `cpp`;
/// shell-like for `bash`, `sh` and `ruby`; markup for `html` and `xml`;
/// Rust-like for `rust`.
pub open spec fn family_of(name: Seq<char>) -> Option<StandardSpec> {
    if name == "c"@ || name == "java"@ || name == "go"@ || name == "cpp"@ {
        Some(StandardSpec::C)
    } else if name == "bash"@ || name == "sh"@ || name == "ruby"@ {
        Some(StandardSpec::Bash)
    } else if name == "html"@ || name == "xml"@ {
        Some(StandardSpec::HTML)
    } else if name == "rust"@ {
        Some(StandardSpec::Rust)
    } else {
        None
    }
}

/// The comment family of the language called `name`, if it is known.
pub fn spec_for_lang(name: &str) -> (r: Option<StandardSpec>)
    ensures
        r == family_of(name@),
{
    if same_text(name, "c") || same_text(name, "java") || same_text(name, "go") || same_text(name, "cpp") {
        Some(StandardSpec::C)
    } else if same_text(name, "bash") || same_text(name, "sh") || same_text(name, "ruby") {
        Some(StandardSpec::Bash)
    } else if same_text(name, "html") || same_text(name, "xml") {
        Some(StandardSpec::HTML)
    } else if same_text(name, "rust") {
        Some(StandardSpec::Rust)
    } else {
        None
    }
}

/// Comment specification: detects the comment lexemes of a family of languages.
///
/// Every detector looks at the start of a suffix of the current line and
/// returns how many grapheme clusters the matched marker occupies.
pub trait Spec {
    /// Width of the block-comment opener at the start of `src`, if any.
    spec fn begin_lexeme(&self, src: Seq<char>) -> Option<usize>;

    /// Width of the block-comment terminator at the start of `src`, if any.
    spec fn end_lexeme(&self, src: Seq<char>) -> Option<usize>;

    /// Width of the line-comment marker at the start of `src`, if any.
    spec fn inline_lexeme(&self, src: Seq<char>) -> Option<usize>;

    /// `src` without the family's leading decoration.
    spec fn undecorated(&self, src: Seq<char>) -> Seq<char>;

    fn is_begin(&self, src: &str) -> (r: Option<usize>)
        ensures
            r == self.begin_lexeme(src@),
    ;

    fn is_end(&self, src: &str) -> (r: Option<usize>)
        ensures
            r == self.end_lexeme(src@),
    ;

    fn is_inline(&self, src: &str) -> (r: Option<usize>)
        ensures
            r == self.inline_lexeme(src@),
    ;

    fn trim<'a>(&self, src: &'a str) -> (r: &'a str)
        ensures
            r@ == self.undecorated(src@),
    ;
}

/// The comment families this crate knows.
#[derive(Clone, Copy, Debug, PartialEq, Eq, Structural)]
pub enum StandardSpec {
    /// `/* */`, `/** */` and `//` (C, C++, Java, Go, JavaScript).
    C,
    /// `//`, with the doc markers `///` and `//!`.
    Rust,
    /// `<!-- -->` (HTML, XML).
    HTML,
    /// `#` (shell, Ruby, Python).
    Bash,
}

pub open spec fn c_begin(s: Seq<char>) -> Option<usize> {
    if has_prefix(s, seq!['/', '*', '*']) {
        Some(3)
    } else if has_prefix(s, seq!['/', '*']) {
        Some(2)
    } else {
        None
    }
}

pub open spec fn c_end(s: Seq<char>) -> Option<usize> {
    if has_prefix(s, seq!['*', '/']) {
        Some(2)
    } else {
        None
    }
}

pub open spec fn c_inline(s: Seq<char>) -> Option<usize> {
    if has_prefix(s, seq!['/', '/']) {
        Some(2)
    } else {
        None
    }
}

pub open spec fn c_undecorated(s: Seq<char>) -> Seq<char> {
    if has_prefix(s, seq!['*']) {
        s.skip(1)
    } else if has_prefix(s, seq!['/', '/']) {
        s.skip(2)
    } else {
        s
    }
}

pub open spec fn rust_inline(s: Seq<char>) -> Option<usize> {
    if has_prefix(s, seq!['/', '/', '/']) || has_prefix(s, seq!['/', '/', '!']) {
        Some(3)
    } else {
        c_inline(s)
    }
}

pub open spec fn rust_undecorated(s: Seq<char>) -> Seq<char> {
    if has_prefix(s, seq!['/', '/', '/']) || has_prefix(s, seq!['/', '/', '!']) {
        s.skip(3)
    } else {
        c_undecorated(s)
    }
}

pub open spec fn html_begin(s: Seq<char>) -> Option<usize> {
    if has_prefix(s, seq!['<', '!', '-', '-']) {
        Some(4)
    } else {
        None
    }
}

pub open spec fn html_end(s: Seq<char>) -> Option<usize> {
    if has_prefix(s, seq!['-', '-', '>']) {
        Some(3)
    } else {
        None
    }
}

pub open spec fn bash_inline(s: Seq<char>) -> Option<usize> {
    if has_prefix(s, seq!['#']) {
        Some(1)
    } else {
        None
    }
}

pub open spec fn bash_undecorated(s: Seq<char>) -> Seq<char> {
    if has_prefix(s, seq!['#']) {
        s.skip(1)
    } else {
        s
    }
}

fn c_is_begin(src: &str) -> (r: Option<usize>)
    ensures
        r == c_begin(src@),
{
    proof {
        reveal_strlit("/**");
        assert("/**"@ =~= seq!['/', '*', '*']);
        reveal_strlit("/*");
        assert("/*"@ =~= seq!['/', '*']);
    }
    if starts_with(src, "/**") {
        Some(3)
    } else if starts_with(src, "/*") {
        Some(2)
    } else {
        None
    }
}

fn c_is_end(src: &str) -> (r: Option<usize>)
    ensures
        r == c_end(src@),
{
    proof {
        reveal_strlit("*/");
        assert("*/"@ =~= seq!['*', '/']);
    }
    if starts_with(src, "*/") {
        Some(2)
    } else {
        None
    }
}

fn c_is_inline(src: &str) -> (r: Option<usize>)
    ensures
        r == c_inline(src@),
{
    proof {
        reveal_strlit("//");
        assert("//"@ =~= seq!['/', '/']);
    }
    if starts_with(src, "//") {
        Some(2)
    } else {
        None
    }
}

fn c_trim<'a>(src: &'a str) -> (r: &'a str)
    ensures
        r@ == c_undecorated(src@),
{
    proof {
        reveal_strlit("*");
        assert("*"@ =~= seq!['*']);
        reveal_strlit("//");
        assert("//"@ =~= seq!['/', '/']);
    }
    let n = src.unicode_len();
    if starts_with(src, "*") {
        src.substring_char(1, n)
    } else if starts_with(src, "//") {
        src.substring_char(2, n)
    } else {
        src
    }
}

fn rust_is_inline(src: &str) -> (r: Option<usize>)
    ensures
        r == rust_inline(src@),
{
    proof {
        reveal_strlit("///");
        assert("///"@ =~= seq!['/', '/', '/']);
        reveal_strlit("//!");
        assert("//!"@ =~= seq!['/', '/', '!']);
    }
    if starts_with(src, "///") || starts_with(src, "//!") {
        Some(3)
    } else {
        c_is_inline(src)
    }
}

fn rust_trim<'a>(src: &'a str) -> (r: &'a str)
    ensures
        r@ == rust_undecorated(src@),
{
    proof {
        reveal_strlit("///");
        assert("///"@ =~= seq!['/', '/', '/']);
        reveal_strlit("//!");
        assert("//!"@ =~= seq!['/', '/', '!']);
    }
    if starts_with(src, "///") || starts_with(src, "//!") {
        let n = src.unicode_len();
        src.substring_char(3, n)
    } else {
        c_trim(src)
    }
}

fn html_is_begin(src: &str) -> (r: Option<usize>)
    ensures
        r == html_begin(src@),
{
    proof {
        reveal_strlit("<!--");
        assert("<!--"@ =~= seq!['<', '!', '-', '-']);
    }
    if starts_with(src, "<!--") {
        Some(4)
    } else {
        None
    }
}

fn html_is_end(src: &str) -> (r: Option<usize>)
    ensures
        r == html_end(src@),
{
    proof {
        reveal_strlit("-->");
        assert("-->"@ =~= seq!['-', '-', '>']);
    }
    if starts_with(src, "-->") {
        Some(3)
    } else {
        None
    }
}

fn bash_is_inline(src: &str) -> (r: Option<usize>)
    ensures
        r == bash_inline(src@),
{
    proof {
        reveal_strlit("#");
        assert("#"@ =~= seq!['#']);
    }
    if starts_with(src, "#") {
        Some(1)
    } else {
        None
    }
}

fn bash_trim<'a>(src: &'a str) -> (r: &'a str)
    ensures
        r@ == bash_undecorated(src@),
{
    proof {
        reveal_strlit("#");
        assert("#"@ =~= seq!['#']);
    }
    if starts_with(src, "#") {
        let n = src.unicode_len();
        src.substring_char(1, n)
    } else {
        src
    }
}

impl Spec for StandardSpec {
    open spec fn begin_lexeme(&self, src: Seq<char>) -> Option<usize> {
        match self {
            StandardSpec::C => c_begin(src),
            StandardSpec::HTML => html_begin(src),
            _ => None,
        }
    }

    open spec fn end_lexeme(&self, src: Seq<char>) -> Option<usize> {
        match self {
            StandardSpec::C => c_end(src),
            StandardSpec::HTML => html_end(src),
            _ => None,
        }
    }

    open spec fn inline_lexeme(&self, src: Seq<char>) -> Option<usize> {
        match self {
            StandardSpec::C => c_inline(src),
            StandardSpec::Rust => rust_inline(src),
            StandardSpec::Bash => bash_inline(src),
            _ => None,
        }
    }

    open spec fn undecorated(&self, src: Seq<char>) -> Seq<char> {
        match self {
            StandardSpec::C => c_undecorated(src),
            StandardSpec::Rust => rust_undecorated(src),
            StandardSpec::Bash => bash_undecorated(src),
            _ => src,
        }
    }

    fn is_begin(&self, src: &str) -> (r: Option<usize>) {
        match self {
            StandardSpec::C => c_is_begin(src),
            StandardSpec::HTML => html_is_begin(src),
            _ => None,
        }
    }

    fn is_end(&self, src: &str) -> (r: Option<usize>) {
        match self {
            StandardSpec::C => c_is_end(src),
            StandardSpec::HTML => html_is_end(src),
            _ => None,
        }
    }

    fn is_inline(&self, src: &str) -> (r: Option<usize>) {
        match self {
            StandardSpec::C => c_is_inline(src),
            StandardSpec::Rust => rust_is_inline(src),
            StandardSpec::Bash => bash_is_inline(src),
            _ => None,
        }
    }

    fn trim<'a>(&self, src: &'a str) -> (r: &'a str) {
        match self {
            StandardSpec::C => c_trim(src),
            StandardSpec::Rust => rust_trim(src),
            StandardSpec::Bash => bash_trim(src),
            _ => src,
        }
    }
}

/// The markup family has no line comments.
pub proof fn markup_has_no_line_comment(src: Seq<char>)
    ensures
        StandardSpec::HTML.inline_lexeme(src) is None,
{
}

/// The shell family has no block comments: neither opener nor terminator.
pub proof fn shell_has_no_block_comment(src: Seq<char>)
    ensures
        StandardSpec::Bash.begin_lexeme(src) is None,
        StandardSpec::Bash.end_lexeme(src) is None,
{
}

} // verus!
