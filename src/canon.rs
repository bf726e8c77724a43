//! Canonicalization of a comment's text: blank lines at the ends, trailing
//! whitespace, shared indentation and decoration are removed.
use vstd::prelude::*;
use vstd::string::*;
use crate::spec::{Spec, StandardSpec};

verus! {

/// Unicode's White_Space property, as `char::is_whitespace` tests it.
pub open spec fn is_white(c: char) -> bool {
    let u = c as u32;
    (0x9 <= u && u <= 0xd) || u == 0x20 || u == 0x85 || u == 0xa0 || u == 0x1680
        || (0x2000 <= u && u <= 0x200a) || u == 0x2028 || u == 0x2029 || u == 0x202f
        || u == 0x205f || u == 0x3000
}

fn white(c: char) -> (r: bool)
    ensures
        r == is_white(c),
{
    let u = c as u32;
    (0x9 <= u && u <= 0xd) || u == 0x20 || u == 0x85 || u == 0xa0 || u == 0x1680
        || (0x2000 <= u && u <= 0x200a) || u == 0x2028 || u == 0x2029 || u == 0x202f
        || u == 0x205f || u == 0x3000
}

/// The lines of `s`, split at each `'\n'` (an empty text is one empty line).
pub open spec fn split_lines(s: Seq<char>) -> Seq<Seq<char>>
    decreases s.len(),
{
    if s.len() == 0 {
        seq![Seq::empty()]
    } else {
        let p = split_lines(s.drop_last());
        if s.last() == '\n' {
            p.push(Seq::empty())
        } else {
            p.update(p.len() - 1, p.last().push(s.last()))
        }
    }
}

/// The lines joined with `'\n'` between them.
pub open spec fn join_lines(ls: Seq<Seq<char>>) -> Seq<char>
    decreases ls.len(),
{
    if ls.len() == 0 {
        Seq::empty()
    } else if ls.len() == 1 {
        ls[0]
    } else {
        join_lines(ls.drop_last()) + seq!['\n'] + ls.last()
    }
}

/// Where the trailing whitespace of `l[..j]` begins.
pub open spec fn content_end(l: Seq<char>, j: int) -> int
    decreases j,
{
    if 0 < j <= l.len() && is_white(l[j - 1]) {
        content_end(l, j - 1)
    } else {
        j
    }
}

/// `l` without trailing whitespace.
pub open spec fn trim_end(l: Seq<char>) -> Seq<char> {
    l.subrange(0, content_end(l, l.len() as int))
}

/// Where the run of spaces of `l` that reaches index `i` ends.
pub open spec fn spaces_from(l: Seq<char>, i: int) -> int
    decreases l.len() - i,
{
    if 0 <= i < l.len() && l[i] == ' ' {
        spaces_from(l, i + 1)
    } else {
        i
    }
}

/// Number of leading space characters of `l`.
pub open spec fn indent(l: Seq<char>) -> int {
    spaces_from(l, 0)
}

/// The least indentation over the lines (0 for no line).
pub open spec fn min_indent(ls: Seq<Seq<char>>) -> int
    decreases ls.len(),
{
    if ls.len() == 0 {
        0
    } else if ls.len() == 1 {
        indent(ls[0])
    } else {
        let a = min_indent(ls.drop_last());
        let b = indent(ls.last());
        if b < a {
            b
        } else {
            a
        }
    }
}

/// Every line with its first `n` characters removed.
pub open spec fn dedent(ls: Seq<Seq<char>>, n: int) -> Seq<Seq<char>> {
    ls.map_values(|l: Seq<char>| l.skip(n))
}

/// Every line without its shared indentation.
pub open spec fn unindent(ls: Seq<Seq<char>>) -> Seq<Seq<char>> {
    dedent(ls, min_indent(ls))
}

/// Index of the first non-empty line at or after `i`.
pub open spec fn first_filled(ls: Seq<Seq<char>>, i: int) -> int
    decreases ls.len() - i,
{
    if 0 <= i < ls.len() && ls[i].len() == 0 {
        first_filled(ls, i + 1)
    } else {
        i
    }
}

/// One past the last non-empty line of `ls[..j]`.
pub open spec fn filled_end(ls: Seq<Seq<char>>, j: int) -> int
    decreases j,
{
    if 0 < j <= ls.len() && ls[j - 1].len() == 0 {
        filled_end(ls, j - 1)
    } else {
        j
    }
}

/// The lines without the empty lines at either end.
pub open spec fn strip_empty_ends(ls: Seq<Seq<char>>) -> Seq<Seq<char>> {
    let a = ls.skip(first_filled(ls, 0));
    a.subrange(0, filled_end(a, a.len() as int))
}

/// The lines of the canonical form of a comment's text under the family
/// `spec`: blank lines at both ends dropped, trailing whitespace and shared
/// indentation removed, then the decoration and the indentation it hid.
pub open spec fn trimmed_lines<S: Spec>(spec: S, text: Seq<char>) -> Seq<Seq<char>> {
    let a = split_lines(text).map_values(|l: Seq<char>| trim_end(l));
    let b = unindent(strip_empty_ends(a));
    let c = b.map_values(|l: Seq<char>| spec.undecorated(l));
    unindent(c)
}

/// The canonical form of a comment's text under the family `spec`.
pub open spec fn trimmed<S: Spec>(spec: S, text: Seq<char>) -> Seq<char> {
    join_lines(trimmed_lines(spec, text))
}

pub open spec fn views(v: Seq<String>) -> Seq<Seq<char>> {
    v.map_values(|l: String| l@)
}

proof fn lemma_split_nonempty(s: Seq<char>)
    ensures
        split_lines(s).len() >= 1,
    decreases s.len(),
{
    if s.len() > 0 {
        lemma_split_nonempty(s.drop_last());
    }
}

/// The lines of `s`.
fn split(s: &str) -> (r: Vec<String>)
    ensures
        views(r@) == split_lines(s@),
{
    let n = s.unicode_len();
    let mut r: Vec<String> = Vec::new();
    let mut st: usize = 0;
    let mut i: usize = 0;
    proof {
        assert(s@.subrange(0, 0) =~= Seq::<char>::empty());
        assert(views(r@).push(s@.subrange(0, 0)) =~= seq![Seq::<char>::empty()]);
    }
    while i < n
        invariant
            n == s@.len(),
            st <= i <= n,
            split_lines(s@.subrange(0, i as int)) == views(r@).push(s@.subrange(st as int, i as int)),
        decreases n - i,
    {
        let c = s.get_char(i);
        let ghost prev = views(r@);
        proof {
            let t = s@.subrange(0, i + 1);
            assert(t.drop_last() =~= s@.subrange(0, i as int));
            assert(t.last() == c);
        }
        if c == '\n' {
            let l = s.substring_char(st, i);
            r.push(String::from_str(l));
            st = i + 1;
            proof {
                assert(views(r@) =~= prev.push(l@));
                assert(s@.subrange(st as int, i + 1) =~= Seq::<char>::empty());
            }
        } else {
            proof {
                assert(s@.subrange(st as int, i + 1) =~= s@.subrange(st as int, i as int).push(c));
                assert(prev.push(s@.subrange(st as int, i as int)).update(prev.len() as int, s@.subrange(st as int, i + 1)) =~= prev.push(s@.subrange(st as int, i + 1)));
            }
        }
        i = i + 1;
    }
    let l = s.substring_char(st, n);
    r.push(String::from_str(l));
    proof {
        assert(s@.subrange(0, n as int) =~= s@);
        assert(views(r@) =~= split_lines(s@));
    }
    r
}

/// `l` without trailing whitespace.
fn trim_end_line(l: &str) -> (r: String)
    ensures
        r@ == trim_end(l@),
{
    let n = l.unicode_len();
    let mut j: usize = n;
    while j > 0 && white(l.get_char(j - 1))
        invariant
            j <= n,
            n == l@.len(),
            content_end(l@, n as int) == content_end(l@, j as int),
        decreases j,
    {
        j = j - 1;
    }
    String::from_str(l.substring_char(0, j))
}

/// Every line without trailing whitespace.
fn trim_ends(ls: &Vec<String>) -> (r: Vec<String>)
    ensures
        views(r@) == views(ls@).map_values(|l: Seq<char>| trim_end(l)),
{
    let mut r: Vec<String> = Vec::new();
    let mut i: usize = 0;
    while i < ls.len()
        invariant
            i <= ls@.len(),
            r@.len() == i,
            forall|k: int| 0 <= k < i ==> #[trigger] r@[k]@ == trim_end(ls@[k]@),
        decreases ls@.len() - i,
    {
        r.push(trim_end_line(ls[i].as_str()));
        i = i + 1;
    }
    assert(views(r@) =~= views(ls@).map_values(|l: Seq<char>| trim_end(l)));
    r
}

/// The lines without the empty lines at either end.
fn strip_ends(ls: &Vec<String>) -> (r: Vec<String>)
    ensures
        views(r@) == strip_empty_ends(views(ls@)),
{
    let ghost v = views(ls@);
    let n = ls.len();
    let mut f: usize = 0;
    while f < n && ls[f].as_str().unicode_len() == 0
        invariant
            f <= n,
            n == v.len(),
            v == views(ls@),
            first_filled(v, f as int) == first_filled(v, 0),
        decreases n - f,
    {
        f = f + 1;
    }
    let ghost a = v.skip(f as int);
    let mut e: usize = n;
    while e > f && ls[e - 1].as_str().unicode_len() == 0
        invariant
            f <= e <= n,
            n == v.len(),
            v == views(ls@),
            a == v.skip(f as int),
            filled_end(a, a.len() as int) == filled_end(a, e - f),
        decreases e,
    {
        assert(a[e - f - 1] == v[e - 1]);
        e = e - 1;
    }
    let mut r: Vec<String> = Vec::new();
    let mut i: usize = f;
    while i < e
        invariant
            f <= i <= e <= n,
            n == ls@.len(),
            r@.len() == i - f,
            forall|k: int| 0 <= k < i - f ==> #[trigger] r@[k]@ == ls@[f + k]@,
        decreases e - i,
    {
        r.push(ls[i].clone());
        i = i + 1;
    }
    assert(views(r@) =~= strip_empty_ends(v));
    r
}

proof fn lemma_spaces_bound(l: Seq<char>, i: int)
    requires
        0 <= i <= l.len(),
    ensures
        i <= spaces_from(l, i) <= l.len(),
    decreases l.len() - i,
{
    if i < l.len() && l[i] == ' ' {
        lemma_spaces_bound(l, i + 1);
    }
}

proof fn lemma_min_indent_bound(ls: Seq<Seq<char>>, k: int)
    requires
        0 <= k < ls.len(),
    ensures
        0 <= min_indent(ls) <= indent(ls[k]) <= ls[k].len(),
    decreases ls.len(),
{
    lemma_spaces_bound(ls[k], 0);
    if ls.len() > 1 {
        lemma_spaces_bound(ls.last(), 0);
        if k < ls.len() - 1 {
            lemma_min_indent_bound(ls.drop_last(), k);
        } else {
            lemma_min_indent_bound(ls.drop_last(), 0);
        }
    }
}

/// Number of leading spaces of `l`.
fn count_indent(l: &str) -> (r: usize)
    ensures
        r == indent(l@),
{
    let n = l.unicode_len();
    let mut i: usize = 0;
    while i < n && l.get_char(i) == ' '
        invariant
            i <= n,
            n == l@.len(),
            spaces_from(l@, i as int) == spaces_from(l@, 0),
        decreases n - i,
    {
        i = i + 1;
    }
    i
}

/// The least indentation over the lines.
pub fn lines_ws_offset(ls: &Vec<String>) -> (r: usize)
    ensures
        r == min_indent(views(ls@)),
{
    let ghost v = views(ls@);
    if ls.len() == 0 {
        return 0;
    }
    let mut lo = count_indent(ls[0].as_str());
    let mut i: usize = 1;
    proof {
        assert(v.subrange(0, 1).len() == 1);
    }
    while i < ls.len()
        invariant
            1 <= i <= ls@.len(),
            v == views(ls@),
            lo == min_indent(v.subrange(0, i as int)),
        decreases ls@.len() - i,
    {
        let c = count_indent(ls[i].as_str());
        proof {
            assert(v.subrange(0, i + 1).drop_last() =~= v.subrange(0, i as int));
        }
        if c < lo {
            lo = c;
        }
        i = i + 1;
    }
    proof {
        assert(v.subrange(0, ls@.len() as int) =~= v);
    }
    lo
}

/// Every line without its shared indentation.
fn unindent_lines(ls: &Vec<String>) -> (r: Vec<String>)
    ensures
        views(r@) == unindent(views(ls@)),
{
    let ghost v = views(ls@);
    let m = lines_ws_offset(ls);
    let mut r: Vec<String> = Vec::new();
    let mut i: usize = 0;
    while i < ls.len()
        invariant
            i <= ls@.len(),
            v == views(ls@),
            m == min_indent(v),
            r@.len() == i,
            forall|k: int| 0 <= k < i ==> #[trigger] r@[k]@ == ls@[k]@.skip(m as int),
        decreases ls@.len() - i,
    {
        proof {
            lemma_min_indent_bound(v, i as int);
        }
        let l = ls[i].as_str();
        let n = l.unicode_len();
        r.push(String::from_str(l.substring_char(m, n)));
        i = i + 1;
    }
    assert(views(r@) =~= unindent(v));
    r
}

/// Every line without the family's decoration.
fn undecorate<S: Spec>(spec: &S, ls: &Vec<String>) -> (r: Vec<String>)
    ensures
        views(r@) == views(ls@).map_values(|l: Seq<char>| spec.undecorated(l)),
{
    let mut r: Vec<String> = Vec::new();
    let mut i: usize = 0;
    while i < ls.len()
        invariant
            i <= ls@.len(),
            r@.len() == i,
            forall|k: int| 0 <= k < i ==> #[trigger] r@[k]@ == spec.undecorated(ls@[k]@),
        decreases ls@.len() - i,
    {
        r.push(String::from_str(spec.trim(ls[i].as_str())));
        i = i + 1;
    }
    assert(views(r@) =~= views(ls@).map_values(|l: Seq<char>| spec.undecorated(l)));
    r
}

/// The lines joined with `'\n'` between them.
fn join(ls: &Vec<String>) -> (r: String)
    ensures
        r@ == join_lines(views(ls@)),
{
    let ghost v = views(ls@);
    if ls.len() == 0 {
        return String::new();
    }
    proof {
        reveal_strlit("\n");
        assert("\n"@ =~= seq!['\n']);
        assert(v.subrange(0, 1).len() == 1);
    }
    let mut r = ls[0].clone();
    let mut i: usize = 1;
    while i < ls.len()
        invariant
            1 <= i <= ls@.len(),
            v == views(ls@),
            "\n"@ == seq!['\n'],
            r@ == join_lines(v.subrange(0, i as int)),
        decreases ls@.len() - i,
    {
        proof {
            assert(v.subrange(0, i + 1).drop_last() =~= v.subrange(0, i as int));
        }
        r.append("\n");
        r.append(ls[i].as_str());
        i = i + 1;
    }
    proof {
        assert(v.subrange(0, ls@.len() as int) =~= v);
    }
    r
}

/// The canonical form of `text` under the family `spec`.
pub fn trim_text<S: Spec>(spec: &S, text: &str) -> (r: String)
    ensures
        r@ == trimmed(*spec, text@),
{
    let lines = split(text);
    let lines = trim_ends(&lines);
    let lines = strip_ends(&lines);
    let lines = unindent_lines(&lines);
    let lines = undecorate(spec, &lines);
    let lines = unindent_lines(&lines);
    join(&lines)
}

/// A line holds no `'\n'` and does not end in whitespace.
pub open spec fn clean(l: Seq<char>) -> bool {
    &&& forall|j: int| 0 <= j < l.len() ==> l[j] != '\n'
    &&& (l.len() == 0 || !is_white(l.last()))
}

pub open spec fn all_clean(ls: Seq<Seq<char>>) -> bool {
    forall|i: int| 0 <= i < ls.len() ==> #[trigger] clean(ls[i])
}

proof fn lemma_split_no_newline(s: Seq<char>)
    ensures
        forall|i: int|
            0 <= i < split_lines(s).len() ==> forall|j: int|
                0 <= j < (#[trigger] split_lines(s)[i]).len() ==> split_lines(s)[i][j] != '\n',
    decreases s.len(),
{
    if s.len() > 0 {
        lemma_split_no_newline(s.drop_last());
        lemma_split_nonempty(s.drop_last());
        let p = split_lines(s.drop_last());
        if s.last() != '\n' {
            let q = p.update(p.len() - 1, p.last().push(s.last()));
            assert forall|i: int| 0 <= i < q.len() implies forall|j: int|
                0 <= j < (#[trigger] q[i]).len() ==> q[i][j] != '\n' by {
                if i == p.len() - 1 {
                    assert forall|j: int| 0 <= j < q[i].len() implies q[i][j] != '\n' by {
                        if j < p.last().len() {
                            assert(q[i][j] == p[i][j]);
                        }
                    }
                }
            }
        } else {
            let q = p.push(Seq::<char>::empty());
            assert forall|i: int| 0 <= i < q.len() implies forall|j: int|
                0 <= j < (#[trigger] q[i]).len() ==> q[i][j] != '\n' by {
                if i < p.len() {
                    assert(q[i] == p[i]);
                }
            }
        }
    }
}

proof fn lemma_content_end(l: Seq<char>, j: int)
    requires
        0 <= j <= l.len(),
    ensures
        0 <= content_end(l, j) <= j,
        content_end(l, j) == 0 || !is_white(l[content_end(l, j) - 1]),
    decreases j,
{
    if 0 < j && is_white(l[j - 1]) {
        lemma_content_end(l, j - 1);
    }
}

proof fn lemma_trim_end_clean(l: Seq<char>)
    requires
        forall|j: int| 0 <= j < l.len() ==> l[j] != '\n',
    ensures
        clean(trim_end(l)),
{
    lemma_content_end(l, l.len() as int);
}

proof fn lemma_trim_end_of_clean(l: Seq<char>)
    requires
        clean(l),
    ensures
        trim_end(l) == l,
{
    assert(l.subrange(0, l.len() as int) =~= l);
}

proof fn lemma_skip_clean(l: Seq<char>, n: int)
    requires
        clean(l),
        0 <= n <= l.len(),
    ensures
        clean(l.skip(n)),
{
    let r = l.skip(n);
    assert forall|j: int| 0 <= j < r.len() implies r[j] != '\n' by {
        assert(r[j] == l[j + n]);
    }
    if r.len() > 0 {
        assert(r.last() == l.last());
    }
}

proof fn lemma_first_filled(ls: Seq<Seq<char>>, i: int)
    requires
        0 <= i <= ls.len(),
    ensures
        i <= first_filled(ls, i) <= ls.len(),
    decreases ls.len() - i,
{
    if i < ls.len() && ls[i].len() == 0 {
        lemma_first_filled(ls, i + 1);
    }
}

proof fn lemma_filled_end(ls: Seq<Seq<char>>, j: int)
    requires
        0 <= j <= ls.len(),
    ensures
        0 <= filled_end(ls, j) <= j,
    decreases j,
{
    if 0 < j && ls[j - 1].len() == 0 {
        lemma_filled_end(ls, j - 1);
    }
}

proof fn lemma_strip_clean(ls: Seq<Seq<char>>)
    requires
        all_clean(ls),
    ensures
        all_clean(strip_empty_ends(ls)),
{
    lemma_first_filled(ls, 0);
    let f = first_filled(ls, 0);
    let a = ls.skip(f);
    lemma_filled_end(a, a.len() as int);
    let r = strip_empty_ends(ls);
    assert forall|i: int| 0 <= i < r.len() implies #[trigger] clean(r[i]) by {
        assert(r[i] == ls[f + i]);
    }
}

proof fn lemma_unindent_clean(ls: Seq<Seq<char>>)
    requires
        all_clean(ls),
    ensures
        all_clean(unindent(ls)),
        unindent(ls).len() == ls.len(),
{
    let r = unindent(ls);
    assert forall|i: int| 0 <= i < r.len() implies #[trigger] clean(r[i]) by {
        lemma_min_indent_bound(ls, i);
        lemma_skip_clean(ls[i], min_indent(ls));
    }
}

proof fn lemma_undecorated_suffix(spec: StandardSpec, l: Seq<char>)
    ensures
        exists|d: int| 0 <= d <= l.len() && spec.undecorated(l) == l.skip(d),
{
    let u = spec.undecorated(l);
    if u == l {
        assert(l.skip(0) =~= l);
    } else if u == l.skip(1) && 1 <= l.len() {
    } else if u == l.skip(2) && 2 <= l.len() {
    } else {
        assert(u == l.skip(3) && 3 <= l.len());
    }
}

proof fn lemma_undecorate_clean(spec: StandardSpec, ls: Seq<Seq<char>>)
    requires
        all_clean(ls),
    ensures
        all_clean(ls.map_values(|l: Seq<char>| spec.undecorated(l))),
{
    let r = ls.map_values(|l: Seq<char>| spec.undecorated(l));
    assert forall|i: int| 0 <= i < r.len() implies #[trigger] clean(r[i]) by {
        lemma_undecorated_suffix(spec, ls[i]);
        let d = choose|d: int| 0 <= d <= ls[i].len() && spec.undecorated(ls[i]) == ls[i].skip(d);
        lemma_skip_clean(ls[i], d);
    }
}

proof fn lemma_spaces_stop(l: Seq<char>, i: int)
    requires
        0 <= i <= l.len(),
    ensures
        spaces_from(l, i) == l.len() || l[spaces_from(l, i)] != ' ',
    decreases l.len() - i,
{
    lemma_spaces_bound(l, i);
    if i < l.len() && l[i] == ' ' {
        lemma_spaces_stop(l, i + 1);
    }
}

proof fn lemma_min_indent_attained(ls: Seq<Seq<char>>)
    requires
        ls.len() > 0,
    ensures
        exists|k: int| 0 <= k < ls.len() && min_indent(ls) == indent(#[trigger] ls[k]),
    decreases ls.len(),
{
    if ls.len() == 1 {
        assert(min_indent(ls) == indent(ls[0]));
    } else {
        lemma_min_indent_attained(ls.drop_last());
        let k = choose|k: int| 0 <= k < ls.drop_last().len() && min_indent(ls.drop_last()) == indent(#[trigger] ls.drop_last()[k]);
        if indent(ls.last()) < min_indent(ls.drop_last()) {
            assert(min_indent(ls) == indent(ls[ls.len() - 1]));
        } else {
            assert(min_indent(ls) == indent(ls[k]));
        }
    }
}

proof fn lemma_unindent_flush(ls: Seq<Seq<char>>)
    requires
        ls.len() > 0,
    ensures
        min_indent(unindent(ls)) == 0,
{
    lemma_min_indent_attained(ls);
    let k = choose|k: int| 0 <= k < ls.len() && min_indent(ls) == indent(#[trigger] ls[k]);
    let m = min_indent(ls);
    lemma_min_indent_bound(ls, k);
    lemma_spaces_stop(ls[k], 0);
    let r = unindent(ls);
    let l = r[k];
    assert(l == ls[k].skip(m));
    if l.len() > 0 {
        assert(l[0] == ls[k][m]);
    }
    assert(spaces_from(l, 0) == 0);
    lemma_min_indent_bound(r, k);
}

proof fn lemma_split_single(b: Seq<char>)
    requires
        forall|j: int| 0 <= j < b.len() ==> b[j] != '\n',
    ensures
        split_lines(b) == seq![b],
    decreases b.len(),
{
    if b.len() > 0 {
        lemma_split_single(b.drop_last());
        assert(b.drop_last().push(b.last()) =~= b);
        assert(seq![b.drop_last()].update(0, b.drop_last().push(b.last())) =~= seq![b]);
    } else {
        assert(b =~= Seq::<char>::empty());
    }
}

proof fn lemma_split_append(a: Seq<char>, b: Seq<char>)
    requires
        forall|j: int| 0 <= j < b.len() ==> b[j] != '\n',
    ensures
        split_lines(a + seq!['\n'] + b) == split_lines(a).push(b),
    decreases b.len(),
{
    let s = a + seq!['\n'] + b;
    if b.len() == 0 {
        assert(s.drop_last() =~= a);
        assert(b =~= Seq::<char>::empty());
    } else {
        assert(s.drop_last() =~= a + seq!['\n'] + b.drop_last());
        lemma_split_append(a, b.drop_last());
        let p = split_lines(a).push(b.drop_last());
        assert(b.drop_last().push(b.last()) =~= b);
        assert(p.update(p.len() - 1, p.last().push(b.last())) =~= split_lines(a).push(b));
    }
}

proof fn lemma_split_join(ls: Seq<Seq<char>>)
    requires
        ls.len() > 0,
        all_clean(ls),
    ensures
        split_lines(join_lines(ls)) == ls,
    decreases ls.len(),
{
    assert(clean(ls.last()));
    if ls.len() == 1 {
        assert(clean(ls[0]));
        lemma_split_single(ls[0]);
        assert(seq![ls[0]] =~= ls);
    } else {
        let init = ls.drop_last();
        assert forall|i: int| 0 <= i < init.len() implies #[trigger] clean(init[i]) by {
            assert(init[i] == ls[i]);
        }
        lemma_split_join(init);
        lemma_split_append(join_lines(init), ls.last());
        assert(init.push(ls.last()) =~= ls);
    }
}

proof fn lemma_trimmed_lines_clean(spec: StandardSpec, text: Seq<char>)
    ensures
        all_clean(trimmed_lines(spec, text)),
        trimmed_lines(spec, text).len() > 0 ==> min_indent(trimmed_lines(spec, text)) == 0,
{
    let sp = split_lines(text);
    lemma_split_no_newline(text);
    let a = sp.map_values(|l: Seq<char>| trim_end(l));
    assert forall|i: int| 0 <= i < a.len() implies #[trigger] clean(a[i]) by {
        assert(forall|j: int| 0 <= j < sp[i].len() ==> sp[i][j] != '\n');
        lemma_trim_end_clean(sp[i]);
    }
    lemma_strip_clean(a);
    let st = strip_empty_ends(a);
    lemma_unindent_clean(st);
    let b = unindent(st);
    lemma_undecorate_clean(spec, b);
    let c = b.map_values(|l: Seq<char>| spec.undecorated(l));
    lemma_unindent_clean(c);
    if c.len() > 0 {
        lemma_unindent_flush(c);
    }
}

/// Trimming is idempotent: trimming an already trimmed text changes nothing,
/// provided that its lines carry no decoration left to strip and that it
/// neither starts nor ends with an empty line (which a stripped decoration
/// may leave behind, as a lone `*` does).
pub proof fn trim_idempotent(spec: StandardSpec, text: Seq<char>)
    requires
        forall|i: int|
            0 <= i < trimmed_lines(spec, text).len() ==> spec.undecorated(
                #[trigger] trimmed_lines(spec, text)[i],
            ) == trimmed_lines(spec, text)[i],
        trimmed_lines(spec, text).len() > 0 ==> trimmed_lines(spec, text)[0].len() > 0
            && trimmed_lines(spec, text).last().len() > 0,
    ensures
        trimmed(spec, trimmed(spec, text)) == trimmed(spec, text),
{
    let ls = trimmed_lines(spec, text);
    let t = join_lines(ls);
    lemma_trimmed_lines_clean(spec, text);
    if ls.len() == 0 {
        let e = Seq::<char>::empty();
        assert(t == e);
        assert(split_lines(t) == seq![e]);
        let a = split_lines(t).map_values(|l: Seq<char>| trim_end(l));
        assert(trim_end(e) =~= e);
        assert(a =~= seq![e]);
        assert(first_filled(a, 1) == 1);
        assert(first_filled(a, 0) == 1);
        assert(strip_empty_ends(a) =~= Seq::<Seq<char>>::empty());
        assert(unindent(Seq::<Seq<char>>::empty()) =~= Seq::<Seq<char>>::empty());
        let z = Seq::<Seq<char>>::empty();
        assert(z.map_values(|l: Seq<char>| spec.undecorated(l)) =~= z);
        assert(trimmed_lines(spec, t) =~= z);
    } else {
        lemma_split_join(ls);
        let a = split_lines(t).map_values(|l: Seq<char>| trim_end(l));
        assert forall|i: int| 0 <= i < ls.len() implies trim_end(#[trigger] ls[i]) == ls[i] by {
            assert(clean(ls[i]));
            lemma_trim_end_of_clean(ls[i]);
        }
        assert(a =~= ls);
        assert(first_filled(ls, 0) == 0);
        assert(ls.skip(0) =~= ls);
        assert(filled_end(ls, ls.len() as int) == ls.len());
        assert(ls.subrange(0, ls.len() as int) =~= ls);
        assert(strip_empty_ends(a) == ls);
        assert forall|i: int| 0 <= i < ls.len() implies (#[trigger] ls[i]).skip(0) == ls[i] by {
            assert(ls[i].skip(0) =~= ls[i]);
        }
        assert(dedent(ls, 0) =~= ls);
        assert(unindent(ls) == ls);
        let c = ls.map_values(|l: Seq<char>| spec.undecorated(l));
        assert(c =~= ls);
        assert(trimmed_lines(spec, t) == ls);
    }
}

} // verus!
