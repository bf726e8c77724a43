//! The incremental tokenizer: a line-by-line state machine that extracts
//! comment records.
use vstd::prelude::*;
use vstd::string::*;
use crate::spec::Spec;
use crate::canon::{trim_text, trimmed};
use unicode_segmentation::UnicodeSegmentation;

verus! {

/// The extended grapheme clusters of a string, in order.
pub uninterp spec fn graphemes_of(s: Seq<char>) -> Seq<Seq<char>>;

/// Relies on `UnicodeSegmentation::graphemes(s, true)` of unicode_segmentation:
/// the extended grapheme clusters of `s`, each copied into a `String`.
#[verifier::external_body]
fn split_graphemes(s: &str) -> (r: Vec<String>)
    ensures
        r@.map_values(|g: String| g@) == graphemes_of(s@),
{
    s.graphemes(true).map(|g| g.to_string()).collect()
}

/// The pieces of a line, one per cluster, as character sequences.
pub open spec fn pieces(gs: Seq<String>) -> Seq<Seq<char>> {
    gs.map_values(|g: String| g@)
}

/// Concatenation of a sequence of strings.
pub open spec fn concat(gs: Seq<Seq<char>>) -> Seq<char>
    decreases gs.len(),
{
    if gs.len() == 0 {
        Seq::empty()
    } else {
        concat(gs.drop_last()) + gs.last()
    }
}

/// The text of a line from cluster `k` to its end.
pub open spec fn tail(gs: Seq<Seq<char>>, k: int) -> Seq<char> {
    concat(gs.subrange(k, gs.len() as int))
}

/// `k`, but no further than `n`.
pub open spec fn clamp(k: int, n: int) -> int {
    if k < n {
        k
    } else {
        n
    }
}

/// A comment record as a mathematical value.
pub struct CommentView {
    pub line: nat,
    pub start: nat,
    pub text: Seq<char>,
    /// A line comment (`true`) or a block comment (`false`).
    pub inline: bool,
}

/// The tokenizer's state as a mathematical value.
pub struct TokenizerView {
    /// Inside an unterminated block comment; `last` is that comment.
    pub inside: bool,
    /// `last` is a provisional line comment that the next line may extend.
    pub pending: bool,
    /// The comment being accumulated.
    pub last: CommentView,
    /// The last line that extended the provisional line comment.
    pub last_line: nat,
    /// Finalized records, oldest first.
    pub queue: Seq<CommentView>,
}

/// The provisional line comment, if any, becomes final.
pub open spec fn release(st: TokenizerView) -> TokenizerView {
    if st.pending {
        TokenizerView {
            inside: st.inside,
            pending: false,
            last: st.last,
            last_line: st.last_line,
            queue: st.queue.push(st.last),
        }
    } else {
        st
    }
}

/// A block comment opens at `(line, start)`.
pub open spec fn open_block(st: TokenizerView, line: nat, start: nat) -> TokenizerView {
    let r = release(st);
    TokenizerView {
        inside: true,
        pending: false,
        last: CommentView { line, start, text: Seq::empty(), inline: false },
        last_line: r.last_line,
        queue: r.queue,
    }
}

/// The open block comment is terminated and becomes final.
pub open spec fn close_block(st: TokenizerView) -> TokenizerView {
    TokenizerView {
        inside: false,
        pending: st.pending,
        last: st.last,
        last_line: st.last_line,
        queue: st.queue.push(st.last),
    }
}

/// `piece` is appended to the comment being accumulated.
pub open spec fn extend(st: TokenizerView, piece: Seq<char>) -> TokenizerView {
    TokenizerView {
        inside: st.inside,
        pending: st.pending,
        last: CommentView {
            line: st.last.line,
            start: st.last.start,
            text: st.last.text + piece,
            inline: st.last.inline,
        },
        last_line: st.last_line,
        queue: st.queue,
    }
}

/// Whether a line comment on `line` extends the provisional one: it must sit
/// on the line right after the last line that extended it.
pub open spec fn merges(st: TokenizerView, line: nat) -> bool {
    st.pending && line == st.last_line + 1
}

/// A line comment whose text after the marker is `rest` was met on `line`,
/// its text starting at cluster `start`.
pub open spec fn line_comment(st: TokenizerView, line: nat, start: nat, rest: Seq<char>) -> TokenizerView {
    if merges(st, line) {
        TokenizerView { last_line: line, ..extend(st, rest) }
    } else {
        let r = release(st);
        TokenizerView {
            inside: false,
            pending: true,
            last: CommentView { line, start, text: rest, inline: true },
            last_line: line,
            queue: r.queue,
        }
    }
}

/// The state after scanning the clusters `gs` of line `line` from cluster `k` on.
pub open spec fn scan<S: Spec>(
    spec: S,
    st: TokenizerView,
    line: nat,
    gs: Seq<Seq<char>>,
    k: int,
) -> TokenizerView
    decreases 2 * (gs.len() - k) + (if st.inside { 1int } else { 0int }),
{
    if k < 0 || k >= gs.len() {
        st
    } else if st.inside {
        match spec.end_lexeme(tail(gs, k)) {
            Some(o) => scan(spec, close_block(st), line, gs, clamp(k + o, gs.len() as int)),
            None => scan(spec, extend(st, gs[k]), line, gs, k + 1),
        }
    } else {
        match spec.begin_lexeme(tail(gs, k)) {
            Some(o) => scan(
                spec,
                open_block(st, line, k as nat),
                line,
                gs,
                clamp(k + if o == 0 { 1 } else { o as int }, gs.len() as int),
            ),
            None => match spec.inline_lexeme(tail(gs, k)) {
                Some(o) => {
                    let s = clamp(k + o, gs.len() as int);
                    line_comment(st, line, s as nat, tail(gs, s))
                },
                None => scan(spec, st, line, gs, k + 1),
            },
        }
    }
}

/// The state after feeding line `line`, made of the clusters `gs`.
pub open spec fn feed<S: Spec>(spec: S, st: TokenizerView, line: nat, gs: Seq<Seq<char>>) -> TokenizerView {
    scan(spec, st, line, gs, 0)
}

/// The state after the end of input: the provisional line comment becomes
/// final. An unterminated block comment stays open and is never released.
pub open spec fn finished(st: TokenizerView) -> TokenizerView {
    release(st)
}

/// The tokenizer's state invariant: a provisional line comment never
/// coexists with an open block comment.
pub open spec fn well_formed(st: TokenizerView) -> bool {
    !(st.inside && st.pending)
}

/// The state of a new tokenizer.
pub open spec fn initial() -> TokenizerView {
    TokenizerView {
        inside: false,
        pending: false,
        last: CommentView { line: 0, start: 0, text: Seq::empty(), inline: false },
        last_line: 0,
        queue: Seq::empty(),
    }
}

/// Every record opened so far, finalized or not, oldest first.
pub open spec fn records(st: TokenizerView) -> Seq<CommentView> {
    if st.inside || st.pending {
        st.queue.push(st.last)
    } else {
        st.queue
    }
}

/// The state after feeding `lines`, each a line number with its clusters.
pub open spec fn feed_lines<S: Spec>(
    spec: S,
    st: TokenizerView,
    lines: Seq<(nat, Seq<Seq<char>>)>,
) -> TokenizerView
    decreases lines.len(),
{
    if lines.len() == 0 {
        st
    } else {
        let prev = feed_lines(spec, st, lines.drop_last());
        feed(spec, prev, lines.last().0, lines.last().1)
    }
}

/// What a pull returns, and the state after it.
pub open spec fn pulled(st: TokenizerView) -> (Option<CommentView>, TokenizerView) {
    if st.queue.len() == 0 {
        (None, st)
    } else {
        (Some(st.queue[0]), TokenizerView { queue: st.queue.drop_first(), ..st })
    }
}

/// The records that pulling until nothing comes returns, in order.
pub open spec fn drained(st: TokenizerView) -> Seq<CommentView>
    decreases st.queue.len(),
{
    if st.queue.len() == 0 {
        Seq::empty()
    } else {
        seq![st.queue[0]] + drained(pulled(st).1)
    }
}

/// The state after pulling until nothing comes.
pub open spec fn exhausted(st: TokenizerView) -> TokenizerView {
    TokenizerView { queue: Seq::empty(), ..st }
}

/// No comment lexeme starts at any cluster of `gs` from `k` on.
pub open spec fn quiet_from<S: Spec>(spec: S, gs: Seq<Seq<char>>, k: int) -> bool {
    forall|j: int|
        k <= j < gs.len() ==> (#[trigger] spec.begin_lexeme(tail(gs, j))) is None
            && spec.inline_lexeme(tail(gs, j)) is None
}

proof fn lemma_scan_quiet<S: Spec>(spec: S, st: TokenizerView, line: nat, gs: Seq<Seq<char>>, k: int, m: int)
    requires
        !st.inside,
        0 <= k <= m <= gs.len(),
        forall|j: int|
            k <= j < m ==> (#[trigger] spec.begin_lexeme(tail(gs, j))) is None
                && spec.inline_lexeme(tail(gs, j)) is None,
    ensures
        scan(spec, st, line, gs, k) == scan(spec, st, line, gs, m),
    decreases m - k,
{
    if k < m {
        assert(spec.begin_lexeme(tail(gs, k)) is None);
        lemma_scan_quiet(spec, st, line, gs, k + 1, m);
    }
}

/// A line without any comment lexeme leaves a state outside block comments
/// unchanged.
pub proof fn quiet_line_changes_nothing<S: Spec>(spec: S, st: TokenizerView, line: nat, gs: Seq<Seq<char>>)
    requires
        !st.inside,
        quiet_from(spec, gs, 0),
    ensures
        feed(spec, st, line, gs) == st,
{
    lemma_scan_quiet(spec, st, line, gs, 0, gs.len() as int);
}

/// Input in which no comment lexeme occurs yields no comment: after the end
/// of input, nothing is there to pull.
pub proof fn quiet_input_yields_nothing<S: Spec>(spec: S, lines: Seq<(nat, Seq<Seq<char>>)>)
    requires
        forall|i: int| 0 <= i < lines.len() ==> quiet_from(spec, #[trigger] lines[i].1, 0),
    ensures
        feed_lines(spec, initial(), lines) == initial(),
        drained(finished(feed_lines(spec, initial(), lines))).len() == 0,
    decreases lines.len(),
{
    if lines.len() > 0 {
        let init = lines.drop_last();
        assert forall|i: int| 0 <= i < init.len() implies quiet_from(spec, #[trigger] init[i].1, 0) by {
            assert(init[i] == lines[i]);
        }
        quiet_input_yields_nothing(spec, init);
        assert(quiet_from(spec, lines[lines.len() - 1].1, 0));
        quiet_line_changes_nothing(spec, initial(), lines.last().0, lines.last().1);
    }
}

/// The records of `a` keep their place, positions and kind in `b`.
pub open spec fn positions_kept(a: Seq<CommentView>, b: Seq<CommentView>) -> bool {
    &&& a.len() <= b.len()
    &&& forall|i: int| 0 <= i < a.len() ==> (#[trigger] b[i]).line == a[i].line && b[i].start == a[i].start
        && b[i].inline == a[i].inline
}

proof fn lemma_scan_keeps_positions<S: Spec>(spec: S, st: TokenizerView, line: nat, gs: Seq<Seq<char>>, k: int)
    requires
        well_formed(st),
    ensures
        well_formed(scan(spec, st, line, gs, k)),
        positions_kept(records(st), records(scan(spec, st, line, gs, k))),
    decreases 2 * (gs.len() - k) + (if st.inside { 1int } else { 0int }),
{
    let n = gs.len() as int;
    if k < 0 || k >= n {
    } else if st.inside {
        match spec.end_lexeme(tail(gs, k)) {
            Some(o) => {
                let nx = close_block(st);
                assert(records(nx) =~= records(st));
                lemma_scan_keeps_positions(spec, nx, line, gs, clamp(k + o, n));
            },
            None => {
                let nx = extend(st, gs[k]);
                lemma_scan_keeps_positions(spec, nx, line, gs, k + 1);
            },
        }
    } else {
        match spec.begin_lexeme(tail(gs, k)) {
            Some(o) => {
                let nx = open_block(st, line, k as nat);
                assert(records(nx) =~= records(st).push(nx.last));
                lemma_scan_keeps_positions(spec, nx, line, gs, clamp(k + if o == 0 { 1 } else { o as int }, n));
            },
            None => match spec.inline_lexeme(tail(gs, k)) {
                Some(o) => {
                    let s = clamp(k + o, n);
                    let nx = line_comment(st, line, s as nat, tail(gs, s));
                    if !merges(st, line) {
                        assert(records(nx) =~= records(st).push(nx.last));
                    }
                },
                None => {
                    lemma_scan_keeps_positions(spec, st, line, gs, k + 1);
                },
            },
        }
    }
}

/// Position fidelity of block comments: when the first lexeme of a line is a
/// block-comment opener at cluster `k`, the record it opens carries the
/// line's number and `k`, the number of clusters before the opener, and
/// keeps them whatever the rest of the line holds.
pub proof fn block_comment_position<S: Spec>(spec: S, st: TokenizerView, line: nat, gs: Seq<Seq<char>>, k: int)
    requires
        well_formed(st),
        !st.inside,
        0 <= k < gs.len(),
        forall|j: int|
            0 <= j < k ==> (#[trigger] spec.begin_lexeme(tail(gs, j))) is None
                && spec.inline_lexeme(tail(gs, j)) is None,
        spec.begin_lexeme(tail(gs, k)) is Some,
    ensures
        records(feed(spec, st, line, gs)).len() > records(st).len(),
        records(feed(spec, st, line, gs))[records(st).len() as int].line == line,
        records(feed(spec, st, line, gs))[records(st).len() as int].start == k,
        !records(feed(spec, st, line, gs))[records(st).len() as int].inline,
{
    lemma_scan_quiet(spec, st, line, gs, 0, k);
    let o = spec.begin_lexeme(tail(gs, k))->0;
    let nx = open_block(st, line, k as nat);
    assert(records(nx) =~= records(st).push(nx.last));
    lemma_scan_keeps_positions(spec, nx, line, gs, clamp(k + if o == 0 { 1 } else { o as int }, gs.len() as int));
}

/// Position fidelity of line comments: when the first lexeme of a line is a
/// line-comment marker of width `o` at cluster `k`, and it does not extend a
/// provisional comment of the line before, the record it opens carries the
/// line's number and starts right after the marker.
pub proof fn line_comment_position<S: Spec>(spec: S, st: TokenizerView, line: nat, gs: Seq<Seq<char>>, k: int)
    requires
        well_formed(st),
        !st.inside,
        !merges(st, line),
        0 <= k < gs.len(),
        forall|j: int|
            0 <= j <= k ==> (#[trigger] spec.begin_lexeme(tail(gs, j))) is None,
        forall|j: int| 0 <= j < k ==> (#[trigger] spec.inline_lexeme(tail(gs, j))) is None,
        spec.inline_lexeme(tail(gs, k)) is Some,
    ensures
        records(feed(spec, st, line, gs)).len() == records(st).len() + 1,
        records(feed(spec, st, line, gs)).last().line == line,
        records(feed(spec, st, line, gs)).last().start == clamp(
            k + spec.inline_lexeme(tail(gs, k))->0,
            gs.len() as int,
        ),
        records(feed(spec, st, line, gs)).last().inline,
{
    assert forall|j: int|
        0 <= j < k implies (#[trigger] spec.begin_lexeme(tail(gs, j))) is None
            && spec.inline_lexeme(tail(gs, j)) is None by {
        assert(spec.begin_lexeme(tail(gs, j)) is None);
        assert(spec.inline_lexeme(tail(gs, j)) is None);
    }
    lemma_scan_quiet(spec, st, line, gs, 0, k);
    assert(spec.begin_lexeme(tail(gs, k)) is None);
    let nx = scan(spec, st, line, gs, k);
    assert(records(nx) =~= records(st).push(nx.last));
}

proof fn lemma_drained(st: TokenizerView)
    ensures
        drained(st) == st.queue,
    decreases st.queue.len(),
{
    if st.queue.len() > 0 {
        lemma_drained(pulled(st).1);
        assert(drained(st) =~= st.queue);
    }
}

/// Pulling returns the finalized records, oldest first, and withholds the
/// provisional line comment, which stays extendable. After the end of input,
/// that record comes last, once, and then nothing more.
pub proof fn pull_withholds_provisional(st: TokenizerView)
    ensures
        drained(st) == st.queue,
        pulled(exhausted(st)).0 is None,
        exhausted(st).pending == st.pending,
        exhausted(st).last == st.last,
        drained(finished(st)) == (if st.pending { st.queue.push(st.last) } else { st.queue }),
        !finished(st).pending,
        pulled(exhausted(finished(st))).0 is None,
        !exhausted(finished(st)).pending,
{
    lemma_drained(st);
    lemma_drained(finished(st));
}

/// One comment extracted from source code.
#[derive(Clone, Debug)]
pub struct Comment {
    /// 1-based line where the comment starts.
    pub line: usize,
    /// Grapheme clusters before the comment on that line.
    pub start: usize,
    /// The comment's text.
    pub text: String,
    /// A line comment (`true`) or a block comment (`false`).
    pub inline: bool,
}

impl View for Comment {
    type V = CommentView;

    open spec fn view(&self) -> CommentView {
        CommentView {
            line: self.line as nat,
            start: self.start as nat,
            text: self.text@,
            inline: self.inline,
        }
    }
}

impl Comment {
    fn new() -> (r: Comment)
        ensures
            r@ == (CommentView { line: 0, start: 0, text: Seq::empty(), inline: false }),
    {
        Comment { text: String::new(), line: 0, start: 0, inline: false }
    }

    fn begin(&mut self, line: usize, start: usize)
        ensures
            final(self)@ == (CommentView { line: line as nat, start: start as nat, text: Seq::empty(), inline: false }),
    {
        self.text = String::new();
        self.line = line;
        self.start = start;
        self.inline = false;
    }

    fn write(&mut self, buf: &str)
        ensures
            final(self)@ == (CommentView { text: old(self)@.text + buf@, ..old(self)@ }),
    {
        self.text.append(buf);
    }

    /// Replaces the text by its canonical form under the family `spec`.
    pub fn trim<S: Spec>(&mut self, spec: &S)
        ensures
            final(self)@ == (CommentView { text: trimmed(*spec, old(self)@.text), ..old(self)@ }),
    {
        let t = trim_text(spec, self.text.as_str());
        self.text = t;
    }

    fn copy(&self) -> (r: Comment)
        ensures
            r@ == self@,
    {
        Comment { line: self.line, start: self.start, text: self.text.clone(), inline: self.inline }
    }
}

/// Each character of `s` as a piece of its own.
pub open spec fn units(s: Seq<char>) -> Seq<Seq<char>> {
    s.map_values(|c: char| seq![c])
}

/// Concatenation of the clusters `gs[k..]`.
fn concat_from(gs: &Vec<String>, k: usize) -> (r: String)
    requires
        k <= gs@.len(),
    ensures
        r@ == tail(pieces(gs@), k as int),
{
    let ghost g = pieces(gs@);
    let mut r = String::new();
    let mut i: usize = k;
    while i < gs.len()
        invariant
            k <= i <= gs@.len(),
            g == pieces(gs@),
            r@ == concat(g.subrange(k as int, i as int)),
        decreases gs@.len() - i,
    {
        proof {
            assert(g.subrange(k as int, i + 1).drop_last() =~= g.subrange(k as int, i as int));
        }
        r.append(gs[i].as_str());
        i = i + 1;
    }
    r
}

/// Tokenizer for comments: it accepts the lines of a source text one at a
/// time and produces comment records.
pub struct Tokenizer<S: Spec> {
    spec: S,
    result: Vec<Comment>,
    comment: bool,
    pending: bool,
    last: Comment,
    last_line: usize,
}

impl<S: Spec> View for Tokenizer<S> {
    type V = TokenizerView;

    closed spec fn view(&self) -> TokenizerView {
        TokenizerView {
            inside: self.comment,
            pending: self.pending,
            last: self.last@,
            last_line: self.last_line as nat,
            queue: self.result@.map_values(|c: Comment| c@),
        }
    }
}

impl<S: Spec> Tokenizer<S> {
    /// The comment family this tokenizer detects.
    pub closed spec fn family(&self) -> S {
        self.spec
    }

    /// A tokenizer outside any comment, with nothing extracted yet.
    pub fn new(spec: S) -> (r: Self)
        ensures
            r.family() == spec,
            well_formed(r@),
            r@ == (TokenizerView {
                inside: false,
                pending: false,
                last: CommentView { line: 0, start: 0, text: Seq::empty(), inline: false },
                last_line: 0,
                queue: Seq::empty(),
            }),
    {
        let r = Vec::new();
        let t = Tokenizer { spec, result: r, comment: false, pending: false, last: Comment::new(), last_line: 0 };
        proof {
            assert(t@.queue =~= Seq::<CommentView>::empty());
        }
        t
    }

    fn push_last(&mut self)
        ensures
            final(self).spec == old(self).spec,
            final(self)@ == (TokenizerView { queue: old(self)@.queue.push(old(self)@.last), ..old(self)@ }),
    {
        let c = self.last.copy();
        self.result.push(c);
        proof {
            assert(self@.queue =~= old(self)@.queue.push(old(self)@.last));
        }
    }

    fn release_pending(&mut self)
        ensures
            final(self).spec == old(self).spec,
            final(self)@ == release(old(self)@),
    {
        if self.pending {
            self.push_last();
            self.pending = false;
        }
    }

    /// Feeds line `line`, given as its grapheme clusters.
    pub fn update_graphemes(&mut self, line: usize, gs: &Vec<String>)
        requires
            well_formed(old(self)@),
        ensures
            well_formed(final(self)@),
            final(self).family() == old(self).family(),
            final(self)@ == feed(old(self).family(), old(self)@, line as nat, pieces(gs@)),
    {
        let ghost g = pieces(gs@);
        let ghost target = feed(self.spec, self@, line as nat, g);
        proof {
            lemma_scan_keeps_positions(self.spec, self@, line as nat, g, 0);
        }
        let n = gs.len();
        let mut k: usize = 0;
        loop
            invariant_except_break
                scan(self.spec, self@, line as nat, g, k as int) == target,
            invariant
                k <= n,
                n == gs@.len(),
                g == pieces(gs@),
                g.len() == n,
                self.spec == old(self).spec,
                target == feed(old(self).spec, old(self)@, line as nat, g),
            ensures
                self.spec == old(self).spec,
                self@ == target,
            decreases 2 * (n - k) + (if self.comment { 1int } else { 0int }),
        {
            if k >= n {
                break;
            }
            let t = concat_from(gs, k);
            if self.comment {
                match self.spec.is_end(t.as_str()) {
                    Some(o) => {
                        self.push_last();
                        self.comment = false;
                        k = if o < n - k { k + o } else { n };
                    },
                    None => {
                        self.last.write(gs[k].as_str());
                        k = k + 1;
                    },
                }
            } else {
                match self.spec.is_begin(t.as_str()) {
                    Some(o) => {
                        self.release_pending();
                        self.last.begin(line, k);
                        self.comment = true;
                        let w: usize = if o == 0 { 1 } else { o };
                        k = if w < n - k { k + w } else { n };
                    },
                    None => match self.spec.is_inline(t.as_str()) {
                        Some(o) => {
                            let s: usize = if o < n - k { k + o } else { n };
                            let rest = concat_from(gs, s);
                            let ghost st0 = self@;
                            if self.pending && line >= 1 && line - 1 == self.last_line {
                                self.last.write(rest.as_str());
                            } else {
                                self.release_pending();
                                self.last.begin(line, s);
                                self.last.inline = true;
                                self.last.write(rest.as_str());
                                self.pending = true;
                            }
                            self.last_line = line;
                            proof {
                                let want = line_comment(st0, line as nat, s as nat, tail(g, s as int));
                                assert(self@.queue =~= want.queue);
                                assert(self@.last.text =~= want.last.text);
                                assert(self@ == want);
                            }
                            break;
                        },
                        None => {
                            k = k + 1;
                        },
                    },
                }
            }
        }
    }

    /// Feeds line `line` (1-based; successive calls take increasing numbers).
    pub fn update(&mut self, line: usize, buf: &str)
        requires
            well_formed(old(self)@),
        ensures
            well_formed(final(self)@),
            final(self).family() == old(self).family(),
            final(self)@ == feed(old(self).family(), old(self)@, line as nat, graphemes_of(buf@)),
    {
        let gs = split_graphemes(buf);
        self.update_graphemes(line, &gs);
    }

    /// Feeds line `line` of a text known to be ASCII, where every character
    /// is a grapheme cluster of its own.
    pub fn update_ascii(&mut self, line: usize, buf: &str)
        requires
            buf.is_ascii(),
            well_formed(old(self)@),
        ensures
            well_formed(final(self)@),
            final(self).family() == old(self).family(),
            final(self)@ == feed(old(self).family(), old(self)@, line as nat, units(buf@)),
    {
        let n = buf.unicode_len();
        let mut gs: Vec<String> = Vec::new();
        let mut i: usize = 0;
        while i < n
            invariant
                i <= n,
                n == buf@.len(),
                buf.is_ascii(),
                gs@.len() == i,
                forall|k: int| 0 <= k < i ==> #[trigger] gs@[k]@ == seq![buf@[k]],
            decreases n - i,
        {
            let c = buf.substring_ascii(i, i + 1);
            proof {
                assert(c@ =~= seq![buf@[i as int]]);
            }
            gs.push(String::from_str(c));
            i = i + 1;
        }
        proof {
            assert(pieces(gs@) =~= units(buf@));
        }
        self.update_graphemes(line, &gs);
    }

    /// Signals the end of input.
    pub fn finish(&mut self)
        requires
            well_formed(old(self)@),
        ensures
            well_formed(final(self)@),
            final(self).family() == old(self).family(),
            final(self)@ == finished(old(self)@),
    {
        self.release_pending();
    }

    /// Removes and returns the oldest finalized comment, if any.
    pub fn take(&mut self) -> (r: Option<Comment>)
        requires
            well_formed(old(self)@),
        ensures
            well_formed(final(self)@),
            final(self).family() == old(self).family(),
            r is None <==> pulled(old(self)@).0 is None,
            r is Some ==> r->0@ == pulled(old(self)@).0->0,
            final(self)@ == pulled(old(self)@).1,
    {
        if self.result.len() > 0 {
            let c = self.result.remove(0);
            proof {
                assert(self@.queue =~= old(self)@.queue.drop_first());
            }
            Some(c)
        } else {
            None
        }
    }
}

} // verus!
