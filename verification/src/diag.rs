// Source locations and diagnostics.
//
// Several input files become ONE buffer, concatenated, and the map records
// where each one begins; an offset is attributed to a file by a search over
// those starts. So a span still needs no file id, the parser still sees one
// contiguous buffer, and a diagnostic still names the file and line the author
// wrote.
//
// Offsets count characters of the buffer. DDL identifiers and operators are
// ASCII, where a character is a byte.

use vstd::prelude::*;
use crate::text::{dec, decimal, repeat_seq, repeat_str};

verus! {

/// A half-open range `[lo, hi)` of buffer offsets.
#[derive(Debug, Clone, Copy, PartialEq, Eq, Structural)]
pub struct Span {
    pub lo: u32,
    pub hi: u32,
}

impl Span {
    /// A span that never runs backwards: `hi` below `lo` collapses to `lo`.
    pub fn new(lo: u32, hi: u32) -> (s: Span)
        ensures
            s.lo == lo,
            s.hi == (if hi < lo { lo } else { hi }),
    {
        Span { lo, hi: if hi < lo { lo } else { hi } }
    }

    /// The empty span at one offset.
    pub fn at(offset: u32) -> (s: Span)
        ensures
            s.lo == offset,
            s.hi == offset,
    {
        Span { lo: offset, hi: offset }
    }
}

#[derive(Debug, Clone, Copy, PartialEq, Eq, Structural)]
pub enum Severity {
    Error,
    Warning,
}

pub open spec fn severity_label(s: Severity) -> Seq<char> {
    match s {
        Severity::Error => "error"@,
        Severity::Warning => "warning"@,
    }
}

impl Severity {
    /// The word a rendered diagnostic starts with.
    pub fn label(self) -> (r: &'static str)
        ensures
            r@ == severity_label(self),
    {
        match self {
            Severity::Error => "error",
            Severity::Warning => "warning",
        }
    }
}

#[derive(Debug, Clone)]
pub struct Diag {
    pub severity: Severity,
    pub span: Option<Span>,
    pub msg: String,
    /// Optional second line printed under the snippet, for the "and here is
    /// why" half that width-mismatch and scope errors need.
    pub note: Option<String>,
}

impl Diag {
    pub fn error(span: Span, msg: String) -> (d: Diag)
        ensures
            d.severity == Severity::Error,
            d.span == Some(span),
            d.msg@ == msg@,
            d.note.is_none(),
    {
        Diag { severity: Severity::Error, span: Some(span), msg, note: None }
    }

    pub fn error_no_span(msg: String) -> (d: Diag)
        ensures
            d.severity == Severity::Error,
            d.span.is_none(),
            d.msg@ == msg@,
            d.note.is_none(),
    {
        Diag { severity: Severity::Error, span: None, msg, note: None }
    }

    pub fn warning(span: Span, msg: String) -> (d: Diag)
        ensures
            d.severity == Severity::Warning,
            d.span == Some(span),
            d.msg@ == msg@,
            d.note.is_none(),
    {
        Diag { severity: Severity::Warning, span: Some(span), msg, note: None }
    }

    /// The same diagnostic with a note attached, replacing any earlier one.
    pub fn with_note(self, note: String) -> (d: Diag)
        ensures
            d.severity == self.severity,
            d.span == self.span,
            d.msg@ == self.msg@,
            d.note is Some,
            d.note->0@ == note@,
    {
        let mut d = self;
        d.note = Some(note);
        d
    }
}

/// Whether any of `diags` is an error: what decides that a build failed.
pub fn any_fatal(diags: &[Diag]) -> (r: bool)
    ensures
        r <==> exists|i: int| 0 <= i < diags@.len() && (#[trigger] diags@[i]).severity == Severity::Error,
{
    let mut i: usize = 0;
    while i < diags.len()
        invariant
            0 <= i <= diags@.len(),
            forall|k: int| 0 <= k < i ==> (#[trigger] diags@[k]).severity != Severity::Error,
        decreases diags@.len() - i,
    {
        if diags[i].severity == Severity::Error {
            return true;
        }
        i = i + 1;
    }
    false
}

/// What a diagnostic says: its severity, where, its message and its note.
pub open spec fn said(d: Diag) -> (Severity, Option<Span>, Seq<char>, Option<Seq<char>>) {
    (d.severity, d.span, d.msg@, match d.note {
        Some(n) => Some(n@),
        None => None,
    })
}

/// What each of `ds` says, in order.
pub open spec fn saids(ds: Seq<Diag>) -> Seq<(Severity, Option<Span>, Seq<char>, Option<Seq<char>>)> {
    ds.map_values(|d: Diag| said(d))
}

/// An error at `at`, with a note.
pub open spec fn error_with_note(at: Span, msg: Seq<char>, note: Seq<char>) -> (Severity, Option<Span>, Seq<char>, Option<Seq<char>>) {
    (Severity::Error, Some(at), msg, Some(note))
}

/// An error at `at`, with no note.
pub open spec fn error_at(at: Span, msg: Seq<char>) -> (Severity, Option<Span>, Seq<char>, Option<Seq<char>>) {
    (Severity::Error, Some(at), msg, None)
}

/// One input file's place in the concatenated buffer.
pub struct FileInfo {
    pub path: String,
    /// Offset where this file's text begins.
    pub start: u32,
    /// Index into `line_starts` of this file's first line, so a line number
    /// can be reported relative to the file rather than to the buffer.
    pub first_line: usize,
}

/// `t` with a newline added when it is non-empty and does not end in one.
pub open spec fn terminated(t: Seq<char>) -> Seq<char> {
    if t.len() > 0 && t.last() != '\n' {
        t.push('\n')
    } else {
        t
    }
}

/// The buffer the parser reads: the files' texts in order, each one left on a
/// line of its own.
pub open spec fn joined(files: Seq<(String, String, Option<String>)>) -> Seq<char>
    decreases files.len(),
{
    if files.len() == 0 {
        Seq::empty()
    } else {
        terminated(joined(files.drop_last()) + files.last().1@)
    }
}

/// Whether a file's author text is kept for display: only when it is exactly
/// as long as the text the parser reads.
pub open spec fn kept(f: (String, String, Option<String>)) -> bool {
    f.2 is Some && f.2->0@.len() == f.1@.len()
}

/// The text a snippet quotes for one file.
pub open spec fn chosen(f: (String, String, Option<String>)) -> Seq<char> {
    if kept(f) {
        f.2->0@
    } else {
        f.1@
    }
}

/// What the author wrote, laid out at the same offsets as `joined`.
pub open spec fn shown_joined(files: Seq<(String, String, Option<String>)>) -> Seq<char>
    decreases files.len(),
{
    if files.len() == 0 {
        Seq::empty()
    } else {
        let t = joined(files.drop_last()) + files.last().1@;
        shown_joined(files.drop_last()) + chosen(files.last()) + (if terminated(t).len() > t.len() {
            seq!['\n']
        } else {
            Seq::empty()
        })
    }
}

/// `ls` lists, in order, offset 0 and every offset just past a newline among
/// the first `n` characters of `t`, and nothing else.
pub open spec fn starts_upto(ls: Seq<u32>, t: Seq<char>, n: int) -> bool {
    &&& ls.len() >= 1
    &&& ls[0] == 0
    &&& forall|i: int, j: int| 0 <= i < j < ls.len() ==> ls[i] < ls[j]
    &&& forall|j: int| 0 <= j < ls.len() ==> #[trigger] ls[j] <= n
    &&& forall|j: int| 0 < j < ls.len() ==> #[trigger] t[ls[j] - 1] == '\n'
    &&& forall|j: int, k: int|
        #![trigger ls[j], t[k]]
        0 <= j < ls.len() && ls[j] <= k < n && (j + 1 == ls.len() || k + 1 < ls[j + 1]) ==> t[k]
            != '\n'
}

/// The offsets at which the lines of `t` begin.
pub open spec fn line_starts_of(ls: Seq<u32>, t: Seq<char>) -> bool {
    starts_upto(ls, t, t.len() as int)
}

/// Appends the line starts that one piece of text adds to the buffer, the
/// piece beginning at offset `base`; returns whether the buffer now ends in
/// the middle of a line.
fn scan_lines(piece: &str, base: u32, open_line: bool, ls: &mut Vec<u32>, Ghost(t): Ghost<Seq<char>>) -> (still_open: bool)
    requires
        base + piece@.len() < u32::MAX,
        t.len() >= base + piece@.len(),
        t.subrange(base as int, base + piece@.len()) == piece@,
        starts_upto(old(ls)@, t, base as int),
        old(ls)@.last() <= base,
        open_line <==> (base > 0 && t[base - 1] != '\n'),
    ensures
        starts_upto(final(ls)@, t, base + piece@.len()),
        final(ls)@.last() <= base + piece@.len(),
        old(ls)@.is_prefix_of(final(ls)@),
        still_open <==> (base + piece@.len() > 0 && t[base + piece@.len() - 1] != '\n'),
{
    let mut pos: u32 = base;
    let mut open = open_line;
    let ghost ls0 = ls@;
    for c in it: piece.chars()
        invariant
            pos == base + it.index(),
            it.seq() == piece@,
            base + piece@.len() < u32::MAX,
            t.len() >= base + piece@.len(),
            t.subrange(base as int, base + piece@.len()) == piece@,
            starts_upto(ls@, t, pos as int),
            ls@.last() <= pos,
            ls0.is_prefix_of(ls@),
            open <==> (pos > 0 && t[pos - 1] != '\n'),
    {
        assert(t[pos as int] == piece@[it.index() as int]);
        if c == '\n' {
            ls.push(pos + 1);
            open = false;
        } else {
            open = true;
        }
        pos = pos + 1;
    }
    open
}

pub struct SourceMap {
    /// The buffer the parser reads.
    pub text: String,
    /// What the author wrote, when that is not what the parser reads.
    ///
    /// Import resolution replaces each `import` line with a comment of exactly
    /// the same length, so the two buffers agree on every offset -- but a
    /// snippet quoting the comment would show the reader a line they never
    /// typed. `None` when nothing was rewritten.
    pub display: Option<String>,
    /// Offset of the first character of each line.
    pub line_starts: Vec<u32>,
    /// In buffer order, never empty.
    pub files: Vec<FileInfo>,
}

impl SourceMap {
    /// The text a snippet quotes.
    pub open spec fn shown_view(&self) -> Seq<char> {
        match self.display {
            Some(d) => d@,
            None => self.text@,
        }
    }

    /// The map's invariant: the buffer fits its offsets, the display text is
    /// as long as it, `line_starts` are exactly the buffer's line starts, and
    /// every file begins on a line of its own, in buffer order.
    pub open spec fn wf(&self) -> bool {
        &&& self.text@.len() < u32::MAX
        &&& self.shown_view().len() == self.text@.len()
        &&& line_starts_of(self.line_starts@, self.text@)
        &&& self.files@.len() >= 1
        &&& self.files@[0].start == 0
        &&& forall|f: int| #![trigger self.files@[f]] 0 <= f < self.files@.len() ==> {
            &&& self.files@[f].first_line < self.line_starts@.len()
            &&& self.line_starts@[self.files@[f].first_line as int] == self.files@[f].start
        }
        &&& forall|f: int, g: int| 0 <= f < g < self.files@.len()
            ==> #[trigger] self.files@[f].start <= #[trigger] self.files@[g].start
    }
}

/// Offsets of `joined` never shrink as files are added.
proof fn lemma_joined_grows(files: Seq<(String, String, Option<String>)>, i: int)
    requires
        0 <= i <= files.len(),
    ensures
        joined(files.take(i)).len() <= joined(files).len(),
        joined(files.take(i)).is_prefix_of(joined(files)),
    decreases files.len() - i,
{
    if i < files.len() {
        lemma_joined_grows(files, i + 1);
        assert(files.take(i + 1).drop_last() =~= files.take(i));
        let t = joined(files.take(i)) + files.take(i + 1).last().1@;
        assert(joined(files.take(i)).is_prefix_of(t));
        assert(t.is_prefix_of(terminated(t)));
        assert(joined(files.take(i)).is_prefix_of(joined(files.take(i + 1))));
    } else {
        assert(files.take(i) =~= files);
    }
}

/// Two texts that agree on their first `n` characters agree on which line
/// starts lie among them.
proof fn lemma_starts_prefix(ls: Seq<u32>, a: Seq<char>, b: Seq<char>, n: int)
    requires
        0 <= n <= a.len(),
        n <= b.len(),
        forall|k: int| 0 <= k < n ==> a[k] == b[k],
        starts_upto(ls, a, n),
    ensures
        starts_upto(ls, b, n),
{
    assert forall|j: int| 0 < j < ls.len() implies #[trigger] b[ls[j] - 1] == '\n' by {
        assert(ls[0] < ls[j]);
        assert(a[ls[j] - 1] == '\n');
    }
    assert forall|j: int, k: int|
        #![trigger ls[j], b[k]]
        0 <= j < ls.len() && ls[j] <= k < n && (j + 1 == ls.len() || k + 1 < ls[j + 1]) implies b[k]
            != '\n' by {
        assert(a[k] != '\n');
    }
}

/// When the text so far ends a line, the last line start is its end.
proof fn lemma_last_start(ls: Seq<u32>, t: Seq<char>, n: int)
    requires
        0 <= n <= t.len(),
        starts_upto(ls, t, n),
        n == 0 || t[n - 1] == '\n',
    ensures
        ls.last() == n,
{
    let j = ls.len() - 1;
    if ls.len() > 1 {
        assert(ls[0] < ls[j]);
        assert(t[ls[j] - 1] == '\n');
    }
    if ls[j] < n {
        let k = n - 1;
        assert(t[k] != '\n');
    }
}

/// `shown_joined` is laid out at the same offsets as `joined`.
proof fn lemma_shown_len(files: Seq<(String, String, Option<String>)>)
    ensures
        shown_joined(files).len() == joined(files).len(),
    decreases files.len(),
{
    if files.len() > 0 {
        lemma_shown_len(files.drop_last());
    }
}

/// Appends one file's text to the buffer, ending it with a newline when it
/// does not end in one, and records the line starts it adds.
fn append_lines(text: &mut String, ls: &mut Vec<u32>, body: &str) -> (tlen: u32)
    requires
        terminated(old(text)@ + body@).len() < u32::MAX,
        old(text)@.len() == 0 || old(text)@.last() == '\n',
        starts_upto(old(ls)@, old(text)@, old(text)@.len() as int),
        old(ls)@.last() == old(text)@.len(),
    ensures
        final(text)@ == terminated(old(text)@ + body@),
        tlen == final(text)@.len(),
        tlen == 0 || final(text)@[tlen - 1] == '\n',
        starts_upto(final(ls)@, final(text)@, tlen as int),
        final(ls)@.last() == tlen,
        old(ls)@.is_prefix_of(final(ls)@),
{
    let base = text.as_str().unicode_len() as u32;
    let ghost before = text@;
    text.append(body);
    let blen = body.unicode_len();
    let ghost t = terminated(before + body@);
    proof {
        assert(text@.is_prefix_of(t));
        assert(t.subrange(base as int, base + blen) =~= body@);
        lemma_starts_prefix(ls@, before, t, base as int);
    }
    let open = scan_lines(body, base, false, ls, Ghost(t));
    let mut tlen = base + blen as u32;
    if open {
        text.append("\n");
        proof {
            reveal_strlit("\n");
            assert(text@ =~= t);
            assert(t.subrange(tlen as int, tlen + 1) =~= "\n"@);
        }
        let ghost mid = ls@;
        let _ = scan_lines("\n", tlen, true, ls, Ghost(t));
        tlen = tlen + 1;
        proof {
            assert(mid.is_prefix_of(ls@));
        }
    } else {
        proof {
            assert(text@ =~= t);
        }
    }
    proof {
        lemma_last_start(ls@, t, tlen as int);
    }
    tlen
}

/// Appends to the display buffer what the author wrote for one file, or the
/// parser's text where the two differ in length, then pads to `want`.
/// Returns whether the author's text was kept.
fn append_shown(display: &mut String, body: &str, original: &Option<String>, want: u32) -> (k: bool)
    requires
        old(display)@.len() + body@.len() <= want <= old(display)@.len() + body@.len() + 1,
    ensures
        k == (original is Some && original->0@.len() == body@.len()),
        final(display)@ == old(display)@ + (if k { original->0@ } else { body@ }) + (
        if want > old(display)@.len() + body@.len() {
            seq!['\n']
        } else {
            Seq::empty()
        }),
{
    let blen = body.unicode_len();
    let before = display.as_str().unicode_len();
    let mut k = false;
    match original {
        Some(o) => {
            if o.as_str().unicode_len() == blen {
                k = true;
                display.append(o.as_str());
            } else {
                display.append(body);
            }
        },
        None => {
            display.append(body);
        },
    }
    // Whatever went in, both buffers end at the same offset.
    if (before + blen) < want as usize {
        display.append("\n");
        proof {
            reveal_strlit("\n");
        }
    }
    k
}

impl SourceMap {
    /// Several files as one buffer, in the order given, each with the text
    /// the parser should read and, optionally, the text the author wrote.
    ///
    /// A file that does not end in a newline gets one, so the next file starts
    /// on its own line: DDL delimits blocks by indentation, and a last line
    /// running into the next file's first would change which block a
    /// declaration belongs to rather than failing to parse.
    ///
    /// The author's text is quoted only where it is exactly as long as the
    /// parser's; a rewrite that moved text would put every span after it on
    /// the wrong column, so a mismatch falls back to the parser's text. No
    /// files at all make one empty file named `<empty>`.
    pub fn from_rewritten(files: Vec<(String, String, Option<String>)>) -> (m: SourceMap)
        requires
            joined(files@).len() < u32::MAX,
        ensures
            m.wf(),
            m.text@ == joined(files@),
            files@.len() == 0 ==> {
                &&& m.files@.len() == 1
                &&& m.files@[0].path@ == "<empty>"@
                &&& m.display is None
            },
            files@.len() > 0 ==> {
                &&& m.files@.len() == files@.len()
                &&& forall|i: int| #![trigger m.files@[i]] 0 <= i < files@.len() ==> {
                    &&& m.files@[i].path@ == files@[i].0@
                    &&& m.files@[i].start == joined(files@.take(i)).len()
                }
                &&& (m.display is Some <==> exists|i: int| 0 <= i < files@.len() && #[trigger] kept(files@[i]))
                &&& m.display is Some ==> m.display->0@ == shown_joined(files@)
            },
    {
        if files.len() == 0 {
            let mut only: Vec<(String, String, Option<String>)> = Vec::new();
            only.push((String::from_str("<empty>"), String::new(), None));
            proof {
                assert(joined(only@.drop_last()) =~= Seq::<char>::empty());
                assert(joined(only@) =~= Seq::<char>::empty());
            }
            let m = Self::build(only);
            proof {
                reveal_strlit("<empty>");
                assert(files@.take(0) =~= files@);
            }
            return m;
        }
        Self::build(files)
    }

    fn build(files: Vec<(String, String, Option<String>)>) -> (m: SourceMap)
        requires
            files@.len() > 0,
            joined(files@).len() < u32::MAX,
        ensures
            m.wf(),
            m.text@ == joined(files@),
            m.files@.len() == files@.len(),
            forall|i: int| #![trigger m.files@[i]] 0 <= i < files@.len() ==> {
                &&& m.files@[i].path@ == files@[i].0@
                &&& m.files@[i].start == joined(files@.take(i)).len()
            },
            m.display is Some <==> exists|i: int| 0 <= i < files@.len() && #[trigger] kept(files@[i]),
            m.display is Some ==> m.display->0@ == shown_joined(files@),
    {
        let mut text = String::new();
        let mut display = String::new();
        let mut any_rewritten = false;
        let mut line_starts: Vec<u32> = Vec::new();
        line_starts.push(0);
        let mut infos: Vec<FileInfo> = Vec::new();
        let mut tlen: u32 = 0;
        let mut i: usize = 0;
        proof {
            assert(files@.take(0) =~= Seq::<(String, String, Option<String>)>::empty());
        }
        while i < files.len()
            invariant
                0 <= i <= files@.len(),
                joined(files@).len() < u32::MAX,
                text@ == joined(files@.take(i as int)),
                tlen == text@.len(),
                tlen == 0 || text@[tlen - 1] == '\n',
                starts_upto(line_starts@, text@, tlen as int),
                line_starts@.last() == tlen,
                infos@.len() == i,
                forall|k: int| #![trigger infos@[k]] 0 <= k < i ==> {
                    &&& infos@[k].path@ == files@[k].0@
                    &&& infos@[k].start == joined(files@.take(k)).len()
                    &&& infos@[k].first_line < line_starts@.len()
                    &&& line_starts@[infos@[k].first_line as int] == infos@[k].start
                },
                forall|k: int, l: int| 0 <= k < l < i ==> #[trigger] infos@[k].start <= #[trigger] infos@[l].start,
                display@ == shown_joined(files@.take(i as int)),
                any_rewritten <==> exists|k: int| 0 <= k < i && #[trigger] kept(files@[k]),
            decreases files@.len() - i,
        {
            let ghost prev = files@.take(i as int);
            let ghost next = files@.take(i + 1);
            let ghost ls_before = line_starts@;
            proof {
                assert(next.drop_last() =~= prev);
                assert(next.last() == files@[i as int]);
                lemma_joined_grows(files@, i + 1);
                lemma_shown_len(prev);
            }
            let f = &files[i];
            let base = tlen;
            let first_line = line_starts.len() - 1;
            infos.push(FileInfo { path: f.0.clone(), start: base, first_line });
            tlen = append_lines(&mut text, &mut line_starts, f.1.as_str());
            let k = append_shown(&mut display, f.1.as_str(), &f.2, tlen);
            if k {
                any_rewritten = true;
            }
            proof {
                assert(text@ == joined(next));
                assert(display@ =~= shown_joined(next));
                assert(ls_before.is_prefix_of(line_starts@));
                assert forall|k: int| #![trigger infos@[k]] 0 <= k < i + 1 implies {
                    &&& infos@[k].path@ == files@[k].0@
                    &&& infos@[k].start == joined(files@.take(k)).len()
                    &&& infos@[k].first_line < line_starts@.len()
                    &&& line_starts@[infos@[k].first_line as int] == infos@[k].start
                } by {
                    if k < i {
                        assert(line_starts@[infos@[k].first_line as int] == ls_before[infos@[k].first_line as int]);
                    }
                }
                assert(kept(files@[i as int]) == k);
            }
            i = i + 1;
        }
        proof {
            assert(files@.take(files@.len() as int) =~= files@);
            assert(files@.take(0) =~= Seq::<(String, String, Option<String>)>::empty());
            assert(infos@[0].start == 0);
            lemma_shown_len(files@);
        }
        SourceMap {
            text,
            display: if any_rewritten { Some(display) } else { None },
            line_starts,
            files: infos,
        }
    }
}

/// The last index of `s` whose value is at most `x`; 0 when there is none.
pub open spec fn last_at_most(s: Seq<u32>, x: int) -> int
    decreases s.len(),
{
    if s.len() <= 1 {
        0
    } else if s.last() <= x {
        s.len() - 1
    } else {
        last_at_most(s.drop_last(), x)
    }
}

/// In a sequence sorted upwards that starts at or below `x`, `last_at_most`
/// is the one index at or below `x` with everything after it above `x`.
proof fn lemma_last_at_most(s: Seq<u32>, x: int, r: int)
    requires
        s.len() >= 1,
        s[0] <= x,
        forall|i: int, j: int| 0 <= i < j < s.len() ==> #[trigger] s[i] <= #[trigger] s[j],
        0 <= r < s.len(),
        s[r] <= x,
        forall|g: int| r < g < s.len() ==> x < #[trigger] s[g],
    ensures
        last_at_most(s, x) == r,
    decreases s.len(),
{
    if s.len() > 1 {
        if s.last() <= x {
            assert(r == s.len() - 1);
        } else {
            let t = s.drop_last();
            assert(r < s.len() - 1);
            assert forall|i: int, j: int| 0 <= i < j < t.len() implies #[trigger] t[i] <= #[trigger] t[j] by {
                assert(s[i] <= s[j]);
            }
            lemma_last_at_most(t, x, r);
        }
    }
}

/// The last index whose value is at most `x`, found by halving.
fn search_last(s: &Vec<u32>, x: u32) -> (r: usize)
    requires
        s@.len() >= 1,
        s@[0] <= x,
        forall|i: int, j: int| 0 <= i < j < s@.len() ==> #[trigger] s@[i] <= #[trigger] s@[j],
    ensures
        r < s@.len(),
        s@[r as int] <= x,
        forall|g: int| r < g < s@.len() ==> x < #[trigger] s@[g],
        r == last_at_most(s@, x as int),
{
    let mut lo: usize = 0;
    let mut hi: usize = s.len();
    while hi - lo > 1
        invariant
            0 <= lo < hi <= s@.len(),
            s@[lo as int] <= x,
            forall|g: int| hi <= g < s@.len() ==> x < #[trigger] s@[g],
            forall|i: int, j: int| 0 <= i < j < s@.len() ==> #[trigger] s@[i] <= #[trigger] s@[j],
        decreases hi - lo,
    {
        let mid = lo + (hi - lo) / 2;
        if s[mid] <= x {
            lo = mid;
        } else {
            proof {
                assert forall|g: int| mid <= g < s@.len() implies x < #[trigger] s@[g] by {
                    assert(s@[mid as int] <= s@[g] || mid == g);
                }
            }
            hi = mid;
        }
    }
    proof {
        lemma_last_at_most(s@, x as int, lo as int);
    }
    lo
}

/// `s` without trailing newline and carriage-return characters.
pub open spec fn trim_nl(s: Seq<char>) -> Seq<char>
    decreases s.len(),
{
    if s.len() > 0 && (s.last() == '\n' || s.last() == '\r') {
        trim_nl(s.drop_last())
    } else {
        s
    }
}

impl SourceMap {
    /// Where each file begins, in buffer order.
    pub open spec fn starts(&self) -> Seq<u32> {
        Seq::new(self.files@.len(), |i: int| self.files@[i].start)
    }

    /// The file that owns an offset: the last one to begin at or before it.
    pub open spec fn owner(&self, offset: int) -> int {
        last_at_most(self.starts(), offset)
    }

    /// The line that holds an offset, counted over the whole buffer from 0.
    pub open spec fn line_of(&self, offset: int) -> int {
        last_at_most(self.line_starts@, offset)
    }

    /// 1-based line, counted from the start of the owning file, and 1-based
    /// column.
    pub open spec fn line_col_spec(&self, offset: int) -> (int, int) {
        let ix = self.line_of(offset);
        (ix - self.files@[self.owner(offset)].first_line + 1, offset - self.line_starts@[ix] + 1)
    }

    /// The text of line `ix` as a snippet quotes it, without its line break.
    pub open spec fn line_text_spec(&self, ix: int) -> Seq<char> {
        let start = self.line_starts@[ix] as int;
        let end = if ix + 1 < self.line_starts@.len() {
            self.line_starts@[ix + 1] as int
        } else {
            self.shown_view().len() as int
        };
        trim_nl(self.shown_view().subrange(start, end))
    }

    /// The file named on the command line.
    pub open spec fn first_path(&self) -> Seq<char> {
        self.files@[0].path@
    }

    /// One file alone.
    pub fn new(path: String, text: String) -> (m: SourceMap)
        requires
            terminated(text@).len() < u32::MAX,
        ensures
            m.wf(),
            m.text@ == terminated(text@),
            m.files@.len() == 1,
            m.files@[0].path@ == path@,
            m.display is None,
    {
        let ghost tv = text@;
        let mut files: Vec<(String, String)> = Vec::new();
        files.push((path, text));
        let ghost fs = files@;
        proof {
            let p = plain(fs);
            assert(p.len() == 1);
            assert(p.drop_last() =~= Seq::<(String, String, Option<String>)>::empty());
            assert(p.last().1@ == tv);
            assert(Seq::<char>::empty() + tv =~= tv);
            assert(joined(p) == terminated(joined(p.drop_last()) + p.last().1@));
        }
        Self::from_files(files)
    }

    /// Several files as one buffer, in the order given, each quoted as the
    /// parser reads it.
    pub fn from_files(files: Vec<(String, String)>) -> (m: SourceMap)
        requires
            joined(plain(files@)).len() < u32::MAX,
        ensures
            m.wf(),
            m.text@ == joined(plain(files@)),
            m.display is None,
            files@.len() == 0 ==> m.files@.len() == 1 && m.files@[0].path@ == "<empty>"@,
            files@.len() > 0 ==> {
                &&& m.files@.len() == files@.len()
                &&& forall|i: int| #![trigger m.files@[i]] 0 <= i < files@.len() ==> {
                    &&& m.files@[i].path@ == files@[i].0@
                    &&& m.files@[i].start == joined(plain(files@).take(i)).len()
                }
            },
    {
        let mut all: Vec<(String, String, Option<String>)> = Vec::new();
        let ghost fs = files@;
        for f in it: files
            invariant
                it.seq() == fs,
                all@ == plain(fs).take(it.index() as int),
        {
            proof {
                assert(plain(fs).take(it.index() + 1) =~= plain(fs).take(it.index() as int).push((f.0, f.1, None)));
            }
            all.push((f.0, f.1, None));
        }
        proof {
            assert(plain(fs).take(fs.len() as int) =~= plain(fs));
            assert forall|i: int| 0 <= i < all@.len() implies !(#[trigger] kept(all@[i])) by {}
        }
        Self::from_rewritten(all)
    }

    /// The first input file, which is the one named on the command line.
    pub fn path(&self) -> (r: &str)
        requires
            self.wf(),
        ensures
            r@ == self.first_path(),
    {
        self.files[0].path.as_str()
    }

    /// Index of the file that owns an offset.
    pub fn file_at(&self, offset: u32) -> (r: usize)
        requires
            self.wf(),
        ensures
            r == self.owner(offset as int),
            r < self.files@.len(),
            self.files@[r as int].start <= offset,
            forall|g: int| r < g < self.files@.len() ==> offset < #[trigger] self.files@[g].start,
    {
        let ghost st = self.starts();
        let mut lo: usize = 0;
        let mut hi: usize = self.files.len();
        while hi - lo > 1
            invariant
                self.wf(),
                st == self.starts(),
                0 <= lo < hi <= self.files@.len(),
                self.files@[lo as int].start <= offset,
                forall|g: int| hi <= g < self.files@.len() ==> offset < #[trigger] self.files@[g].start,
            decreases hi - lo,
        {
            let mid = lo + (hi - lo) / 2;
            if self.files[mid].start <= offset {
                lo = mid;
            } else {
                proof {
                    assert forall|g: int| mid <= g < self.files@.len() implies offset < #[trigger] self.files@[g].start by {
                        if mid < g {
                            assert(self.files@[mid as int].start <= self.files@[g].start);
                        }
                    }
                }
                hi = mid;
            }
        }
        proof {
            assert forall|i: int, j: int| 0 <= i < j < st.len() implies #[trigger] st[i] <= #[trigger] st[j] by {
                assert(self.files@[i].start <= self.files@[j].start);
            }
            assert forall|g: int| lo < g < st.len() implies offset < #[trigger] st[g] by {
                assert(offset < self.files@[g].start);
            }
            lemma_last_at_most(st, offset as int, lo as int);
        }
        lo
    }

    /// The path a diagnostic at this offset should name.
    pub fn path_at(&self, offset: u32) -> (r: &str)
        requires
            self.wf(),
        ensures
            r@ == self.files@[self.owner(offset as int)].path@,
    {
        let f = self.file_at(offset);
        self.files[f].path.as_str()
    }

    /// The parser's buffer.
    pub fn text(&self) -> (r: &str)
        ensures
            r@ == self.text@,
    {
        self.text.as_str()
    }

    /// The buffer's length.
    pub fn len(&self) -> (r: u32)
        requires
            self.wf(),
        ensures
            r == self.text@.len(),
    {
        self.text.as_str().unicode_len() as u32
    }

    /// Where an address inside the buffer falls, given the buffer's own
    /// address: below the buffer is offset 0, past its end is its length.
    pub open spec fn offset_spec(&self, base: int, here: int) -> int {
        if here < base {
            0
        } else if here - base > self.text@.len() {
            self.text@.len() as int
        } else {
            here - base
        }
    }

    /// Offset of an address the parser handed back, `base` being the
    /// address of the buffer's first byte. Addresses outside the buffer
    /// clamp to it rather than fail: a diagnostic placed at the wrong spot is
    /// still better than none.
    pub fn offset_of(&self, base: usize, here: usize) -> (r: u32)
        requires
            self.wf(),
        ensures
            r == self.offset_spec(base as int, here as int),
            r <= self.text@.len(),
    {
        if here < base {
            return 0;
        }
        let off = here - base;
        let n = self.len();
        if off > n as usize {
            n
        } else {
            off as u32
        }
    }

    /// The span of a token of `len` bytes that starts at address `here`.
    pub fn span_of(&self, base: usize, here: usize, len: u32) -> (s: Span)
        requires
            self.wf(),
            self.offset_spec(base as int, here as int) + len <= u32::MAX,
        ensures
            s.lo == self.offset_spec(base as int, here as int),
            s.hi == s.lo + len,
    {
        let lo = self.offset_of(base, here);
        Span::new(lo, lo + len)
    }

    /// The empty span at the offset of address `here`.
    pub fn span_at_ptr(&self, base: usize, here: usize) -> (s: Span)
        requires
            self.wf(),
        ensures
            s.lo == self.offset_spec(base as int, here as int),
            s.hi == s.lo,
    {
        Span::at(self.offset_of(base, here))
    }

    /// Index into `line_starts` of the line containing an offset.
    pub fn line_ix(&self, offset: u32) -> (r: usize)
        requires
            self.wf(),
        ensures
            r == self.line_of(offset as int),
            r < self.line_starts@.len(),
            self.line_starts@[r as int] <= offset,
            forall|g: int| r < g < self.line_starts@.len() ==> offset < #[trigger] self.line_starts@[g],
    {
        proof {
            assert forall|i: int, j: int| 0 <= i < j < self.line_starts@.len() implies #[trigger] self.line_starts@[i] <= #[trigger] self.line_starts@[j] by {
                assert(self.line_starts@[i] < self.line_starts@[j]);
            }
        }
        search_last(&self.line_starts, offset)
    }
}

/// Files with nothing rewritten.
pub open spec fn plain(files: Seq<(String, String)>) -> Seq<(String, String, Option<String>)> {
    files.map_values(|f: (String, String)| (f.0, f.1, None))
}

/// The first index whose file has path `p`, or -1.
pub open spec fn index_of_path(fs: Seq<FileInfo>, p: Seq<char>) -> int
    decreases fs.len(),
{
    if fs.len() == 0 {
        -1
    } else {
        let r = index_of_path(fs.drop_last(), p);
        if r >= 0 {
            r
        } else if fs.last().path@ == p {
            fs.len() - 1
        } else {
            -1
        }
    }
}

proof fn lemma_index_of_path(fs: Seq<FileInfo>, p: Seq<char>, i: int)
    requires
        0 <= i <= fs.len(),
        forall|k: int| 0 <= k < i ==> (#[trigger] fs[k]).path@ != p,
        i < fs.len() ==> fs[i].path@ == p,
    ensures
        index_of_path(fs, p) == (if i < fs.len() { i } else { -1 }),
    decreases fs.len(),
{
    if fs.len() > 0 {
        let t = fs.drop_last();
        if i < fs.len() - 1 {
            lemma_index_of_path(t, p, i);
        } else {
            assert forall|k: int| 0 <= k < t.len() implies (#[trigger] t[k]).path@ != p by {
                assert(fs[k].path@ != p);
            }
            lemma_index_of_path(t, p, t.len() as int);
        }
    }
}

impl SourceMap {
    /// What `span_in_file` gives for a file-relative position.
    pub open spec fn span_in_file_spec(&self, p: Seq<char>, line_no: int, col: int, len: int) -> Option<Span> {
        let f = index_of_path(self.files@, p);
        if f < 0 || line_no == 0 {
            None
        } else {
            let ix = self.files@[f].first_line + line_no - 1;
            if ix >= self.line_starts@.len() {
                None
            } else {
                let lo = self.line_starts@[ix] + (if col > 0 { col - 1 } else { 0 });
                Some(Span { lo: lo as u32, hi: (lo + len) as u32 })
            }
        }
    }

    /// A span from a file-relative position, which is what a stage running
    /// before the parser has: import resolution knows "line 3 of types.ddl"
    /// and nothing about buffer offsets.
    ///
    /// `None` if no such file or line is in the buffer.
    pub fn span_in_file(&self, path: &str, line_no: u32, col: u32, len: u32) -> (r: Option<Span>)
        requires
            self.wf(),
            self.text@.len() + col + len <= u32::MAX,
        ensures
            r == self.span_in_file_spec(path@, line_no as int, col as int, len as int),
    {
        let want = String::from_str(path);
        let mut i: usize = 0;
        let mut found = false;
        while i < self.files.len() && !found
            invariant
                0 <= i <= self.files@.len(),
                want@ == path@,
                found ==> i < self.files@.len() && self.files@[i as int].path@ == path@,
                forall|k: int| 0 <= k < i ==> (#[trigger] self.files@[k]).path@ != path@,
            decreases self.files@.len() - i, if found { 0int } else { 1int },
        {
            if self.files[i].path == want {
                found = true;
            } else {
                i = i + 1;
            }
        }
        proof {
            lemma_index_of_path(self.files@, path@, i as int);
        }
        if i == self.files.len() || line_no == 0 {
            return None;
        }
        proof {
            let ls = self.line_starts@;
            assert forall|a: int, b: int| 0 <= a < b < ls.len() implies ls[a] < ls[b] by {}
            lemma_starts_grow(ls, ls.len() - 1);
            assert(ls[ls.len() - 1] <= self.text@.len());
            assert(self.files@[i as int].first_line < ls.len());
        }
        let ix: u64 = self.files[i].first_line as u64 + (line_no - 1) as u64;
        if ix >= self.line_starts.len() as u64 {
            return None;
        }
        let start = self.line_starts[ix as usize];
        proof {
            assert(start <= self.text@.len());
        }
        let lo = start + if col > 0 { col - 1 } else { 0 };
        Some(Span::new(lo, lo + len))
    }

    /// 1-based line and column, the line counted from the start of the file
    /// that owns the offset rather than from the start of the buffer.
    pub fn line_col(&self, offset: u32) -> (r: (u32, u32))
        requires
            self.wf(),
            offset < u32::MAX,
        ensures
            r.0 as int == self.line_col_spec(offset as int).0,
            r.1 as int == self.line_col_spec(offset as int).1,
    {
        let line_ix = self.line_ix(offset);
        let f = self.file_at(offset);
        let first = self.files[f].first_line;
        proof {
            // The owning file begins at or before the offset, so its first line does too.
            let fl = first as int;
            assert(self.line_starts@[fl] == self.files@[f as int].start);
            if fl > line_ix {
                assert(self.line_starts@[line_ix as int] < self.line_starts@[fl]);
            }
            assert(line_ix < self.line_starts@.len());
            assert(self.line_starts@[line_ix as int] <= self.text@.len());
            if line_ix > 0 {
                assert(self.line_starts@[0] < self.line_starts@[line_ix as int]);
                lemma_starts_grow(self.line_starts@, line_ix as int);
            }
        }
        let col = offset - self.line_starts[line_ix];
        (((line_ix - first) + 1) as u32, col + 1)
    }
}

/// The `j`th line start lies at least `j` characters in.
proof fn lemma_starts_grow(ls: Seq<u32>, j: int)
    requires
        0 <= j < ls.len(),
        ls[0] == 0,
        forall|a: int, b: int| 0 <= a < b < ls.len() ==> ls[a] < ls[b],
    ensures
        ls[j] >= j,
    decreases j,
{
    if j > 0 {
        lemma_starts_grow(ls, j - 1);
        assert(ls[j - 1] < ls[j]);
    }
}

/// `s` with trailing line breaks removed.
fn trim_end(s: &str) -> (r: &str)
    ensures
        r@ == trim_nl(s@),
{
    let mut e = s.unicode_len();
    proof {
        assert(s@.subrange(0, e as int) =~= s@);
    }
    while e > 0 && (s.get_char(e - 1) == '\n' || s.get_char(e - 1) == '\r')
        invariant
            e <= s@.len(),
            trim_nl(s@.subrange(0, e as int)) == trim_nl(s@),
        decreases e,
    {
        proof {
            assert(s@.subrange(0, e as int).drop_last() =~= s@.subrange(0, e - 1));
        }
        e = e - 1;
    }
    s.substring_char(0, e)
}

/// The note line under a snippet, if there is a note.
pub open spec fn note_text(pad: Seq<char>, note: Option<String>) -> Seq<char> {
    match note {
        Some(n) => "\n"@ + pad + " = note: "@ + n@,
        None => Seq::empty(),
    }
}

impl SourceMap {
    /// How `render` lays out one diagnostic:
    ///
    /// ```text
    /// error: `foo` is not defined
    ///  --> shift.ddl:4:11
    ///   |
    /// 4 |   let y = foo + 1
    ///   |           ^^^
    /// ```
    ///
    /// The underline stops at the end of the line, and is never empty.
    pub open spec fn render_spec(&self, d: Diag) -> Seq<char> {
        let head = severity_label(d.severity) + ": "@ + d.msg@;
        match d.span {
            None => match d.note {
                Some(n) => head + "\n  note: "@ + n@,
                None => head,
            },
            Some(span) => {
                let lc = self.line_col_spec(span.lo as int);
                let line_no = lc.0;
                let col = lc.1;
                let ix = self.line_of(span.lo as int);
                let line = self.line_text_spec(ix);
                let pad = repeat_seq(" "@, dec(line_no as nat).len());
                let line_end = self.line_starts@[ix] + line.len();
                let hi = if span.hi > line_end { line_end } else { span.hi as int };
                let width = if hi > span.lo { hi - span.lo } else { 1 };
                head + "\n"@ + pad + " --> "@ + self.files@[self.owner(span.lo as int)].path@ + ":"@
                    + dec(line_no as nat) + ":"@ + dec(col as nat) + "\n"@ + pad + " |"@ + "\n"@
                    + dec(line_no as nat) + " | "@ + line + "\n"@ + pad + " | "@ + repeat_seq(
                    " "@,
                    (col - 1) as nat,
                ) + repeat_seq("^"@, width as nat) + note_text(pad, d.note)
            },
        }
    }

    /// The text a snippet should quote.
    fn shown(&self) -> (r: &str)
        ensures
            r@ == self.shown_view(),
    {
        match &self.display {
            Some(d) => d.as_str(),
            None => self.text.as_str(),
        }
    }

    /// The text of line `ix` of the buffer, without its line break.
    pub fn line_text_at(&self, ix: usize) -> (r: &str)
        requires
            self.wf(),
            ix < self.line_starts@.len(),
        ensures
            r@ == self.line_text_spec(ix as int),
    {
        let shown = self.shown();
        let start = self.line_starts[ix] as usize;
        let end = if ix < self.line_starts.len() - 1 {
            self.line_starts[ix + 1] as usize
        } else {
            shown.unicode_len()
        };
        proof {
            assert(self.line_starts@[ix as int] <= self.text@.len());
            if ix + 1 < self.line_starts@.len() {
                assert(self.line_starts@[ix as int] < self.line_starts@[ix + 1]);
                assert(self.line_starts@[ix + 1] <= self.text@.len());
            }
        }
        let line = shown.substring_char(start, end);
        trim_end(line)
    }

    /// Renders one diagnostic in the usual caret style; see `render_spec`.
    pub fn render(&self, diag: &Diag) -> (out: String)
        requires
            self.wf(),
            diag.span is Some ==> diag.span->0.lo < u32::MAX,
        ensures
            out@ == self.render_spec(*diag),
    {
        let mut out = String::from_str(diag.severity.label());
        out.append(": ");
        out.append(diag.msg.as_str());
        let span = match diag.span {
            Some(span) => span,
            None => {
                match &diag.note {
                    Some(note) => {
                        out.append("\n  note: ");
                        out.append(note.as_str());
                    },
                    None => {},
                }
                return out;
            },
        };
        let (line_no, col) = self.line_col(span.lo);
        let line_ix = self.line_ix(span.lo);
        let line = self.line_text_at(line_ix);
        let number = decimal(line_no as u64);
        let pad = repeat_str(" ", number.as_str().unicode_len());
        out.append("\n");
        out.append(pad.as_str());
        out.append(" --> ");
        out.append(self.path_at(span.lo));
        out.append(":");
        out.append(number.as_str());
        out.append(":");
        out.append(decimal(col as u64).as_str());
        out.append("\n");
        out.append(pad.as_str());
        out.append(" |");
        out.append("\n");
        out.append(number.as_str());
        out.append(" | ");
        out.append(line);
        // Clamp the underline to this line: a span may legitimately run past
        // the end of it (an unterminated construct), and an underline longer
        // than the text it marks reads as a rendering bug.
        proof {
            assert(self.line_starts@[line_ix as int] <= self.text@.len());
            lemma_trim_len(self.shown_view().subrange(
                self.line_starts@[line_ix as int] as int,
                if line_ix + 1 < self.line_starts@.len() {
                    self.line_starts@[line_ix + 1] as int
                } else {
                    self.shown_view().len() as int
                },
            ));
            if line_ix + 1 < self.line_starts@.len() {
                assert(self.line_starts@[line_ix + 1] <= self.text@.len());
            }
        }
        let line_end = self.line_starts[line_ix] + line.unicode_len() as u32;
        let hi = if span.hi > line_end { line_end } else { span.hi };
        let width = if hi > span.lo { (hi - span.lo) as usize } else { 1 };
        out.append("\n");
        out.append(pad.as_str());
        out.append(" | ");
        out.append(repeat_str(" ", (col - 1) as usize).as_str());
        out.append(repeat_str("^", width).as_str());
        match &diag.note {
            Some(note) => {
                out.append("\n");
                out.append(pad.as_str());
                out.append(" = note: ");
                out.append(note.as_str());
            },
            None => {},
        }
        out
    }
}

proof fn lemma_trim_len(s: Seq<char>)
    ensures
        trim_nl(s).len() <= s.len(),
    decreases s.len(),
{
    if s.len() > 0 && (s.last() == '\n' || s.last() == '\r') {
        lemma_trim_len(s.drop_last());
    }
}

/// A diagnostic `render` can place: its span, if any, starts below the
/// largest offset.
pub open spec fn renderable(d: Diag) -> bool {
    d.span is Some ==> d.span->0.lo < u32::MAX
}

impl SourceMap {
    /// The diagnostics rendered in order, a blank line between each two.
    pub open spec fn render_all_spec(&self, diags: Seq<Diag>) -> Seq<char>
        decreases diags.len(),
    {
        if diags.len() == 0 {
            Seq::empty()
        } else if diags.len() == 1 {
            self.render_spec(diags[0])
        } else {
            self.render_all_spec(diags.drop_last()) + "\n\n"@ + self.render_spec(diags.last())
        }
    }

    pub fn render_all(&self, diags: &[Diag]) -> (out: String)
        requires
            self.wf(),
            forall|i: int| 0 <= i < diags@.len() ==> renderable(#[trigger] diags@[i]),
        ensures
            out@ == self.render_all_spec(diags@),
    {
        let mut out = String::new();
        let mut i: usize = 0;
        while i < diags.len()
            invariant
                self.wf(),
                0 <= i <= diags@.len(),
                forall|k: int| 0 <= k < diags@.len() ==> renderable(#[trigger] diags@[k]),
                out@ == self.render_all_spec(diags@.take(i as int)),
            decreases diags@.len() - i,
        {
            proof {
                assert(diags@.take(i + 1).drop_last() =~= diags@.take(i as int));
                assert(renderable(diags@[i as int]));
            }
            if i > 0 {
                out.append("\n\n");
            }
            let r = self.render(&diags[i]);
            out.append(r.as_str());
            proof {
                if i == 0 {
                    assert(out@ =~= self.render_spec(diags@[0]));
                }
            }
            i = i + 1;
        }
        proof {
            assert(diags@.take(diags@.len() as int) =~= diags@);
        }
        out
    }
}

/// Collects diagnostics for one compilation.
pub struct DiagSink<'a> {
    pub map: &'a SourceMap,
    pub diags: Vec<Diag>,
}

impl<'a> DiagSink<'a> {
    pub fn new(map: &'a SourceMap) -> (s: DiagSink<'a>)
        ensures
            *s.map == *map,
            s.diags@.len() == 0,
    {
        DiagSink { map, diags: Vec::new() }
    }

    /// The map diagnostics are placed against.
    pub fn map(&self) -> (m: &'a SourceMap)
        ensures
            *m == *self.map,
    {
        self.map
    }

    /// Records an error at a span.
    pub fn err_span(&mut self, span: Span, msg: String)
        ensures
            *final(self).map == *old(self).map,
            final(self).diags@.len() == old(self).diags@.len() + 1,
            final(self).diags@.drop_last() == old(self).diags@,
            final(self).diags@.last().severity == Severity::Error,
            final(self).diags@.last().span == Some(span),
            final(self).diags@.last().msg@ == msg@,
            final(self).diags@.last().note is None,
    {
        self.diags.push(Diag::error(span, msg));
        proof {
            assert(self.diags@.drop_last() =~= old(self).diags@);
        }
    }

    /// Records an error at a token of `len` bytes starting at address `here`.
    pub fn err_at(&mut self, base: usize, here: usize, len: u32, msg: String)
        requires
            old(self).map.wf(),
            old(self).map.offset_spec(base as int, here as int) + len <= u32::MAX,
        ensures
            *final(self).map == *old(self).map,
            final(self).diags@.len() == old(self).diags@.len() + 1,
            final(self).diags@.drop_last() == old(self).diags@,
            final(self).diags@.last().severity == Severity::Error,
            final(self).diags@.last().span == Some(Span {
                lo: old(self).map.offset_spec(base as int, here as int) as u32,
                hi: (old(self).map.offset_spec(base as int, here as int) + len) as u32,
            }),
            final(self).diags@.last().msg@ == msg@,
            final(self).diags@.last().note is None,
    {
        let span = self.map.span_of(base, here, len);
        self.err_span(span, msg);
    }

    /// Records a warning at a token of `len` bytes starting at address `here`.
    pub fn warn_at(&mut self, base: usize, here: usize, len: u32, msg: String)
        requires
            old(self).map.wf(),
            old(self).map.offset_spec(base as int, here as int) + len <= u32::MAX,
        ensures
            *final(self).map == *old(self).map,
            final(self).diags@.len() == old(self).diags@.len() + 1,
            final(self).diags@.drop_last() == old(self).diags@,
            final(self).diags@.last().severity == Severity::Warning,
            final(self).diags@.last().span == Some(Span {
                lo: old(self).map.offset_spec(base as int, here as int) as u32,
                hi: (old(self).map.offset_spec(base as int, here as int) + len) as u32,
            }),
            final(self).diags@.last().msg@ == msg@,
            final(self).diags@.last().note is None,
    {
        let span = self.map.span_of(base, here, len);
        self.diags.push(Diag::warning(span, msg));
        proof {
            assert(self.diags@.drop_last() =~= old(self).diags@);
        }
    }

    /// Records an error at a span, with a note under it.
    pub(crate) fn err_note(&mut self, span: Span, msg: String, note: String)
        ensures
            *final(self).map == *old(self).map,
            saids(final(self).diags@) == saids(old(self).diags@).push(error_with_note(span, msg@, note@)),
    {
        self.diags.push(Diag::error(span, msg).with_note(note));
        proof {
            assert(saids(self.diags@) =~= saids(old(self).diags@).push(error_with_note(span, msg@, note@)));
        }
    }

    /// Records a diagnostic as it is.
    pub fn push(&mut self, diag: Diag)
        ensures
            *final(self).map == *old(self).map,
            final(self).diags@ == old(self).diags@.push(diag),
    {
        self.diags.push(diag);
    }

    /// Whether any recorded diagnostic is an error.
    pub fn has_errors(&self) -> (r: bool)
        ensures
            r <==> exists|i: int| 0 <= i < self.diags@.len() && (#[trigger] self.diags@[i]).severity == Severity::Error,
    {
        let mut i: usize = 0;
        while i < self.diags.len()
            invariant
                0 <= i <= self.diags@.len(),
                forall|k: int| 0 <= k < i ==> (#[trigger] self.diags@[k]).severity != Severity::Error,
            decreases self.diags@.len() - i,
        {
            if self.diags[i].severity == Severity::Error {
                return true;
            }
            i = i + 1;
        }
        false
    }

    /// What has been recorded, in order.
    pub fn diags(&self) -> (r: &[Diag])
        ensures
            r@ == self.diags@,
    {
        self.diags.as_slice()
    }

    pub fn into_diags(self) -> (r: Vec<Diag>)
        ensures
            r@ == self.diags@,
    {
        self.diags
    }

    /// Every recorded diagnostic, rendered against the map.
    pub fn render(&self) -> (out: String)
        requires
            self.map.wf(),
            forall|i: int| 0 <= i < self.diags@.len() ==> renderable(#[trigger] self.diags@[i]),
        ensures
            out@ == self.map.render_all_spec(self.diags@),
    {
        self.map.render_all(self.diags.as_slice())
    }
}

/// The number of newlines among `t[a..b)`.
pub open spec fn count_nl(t: Seq<char>, a: int, b: int) -> nat
    decreases b - a,
{
    if b <= a {
        0
    } else {
        count_nl(t, a, b - 1) + (if t[b - 1] == '\n' { 1nat } else { 0nat })
    }
}

/// Between a line start and an offset, one more line begins for every
/// newline passed.
proof fn lemma_lines_count_newlines(ls: Seq<u32>, t: Seq<char>, a: int, b: int)
    requires
        line_starts_of(ls, t),
        0 <= a < ls.len(),
        ls[a] <= b <= t.len(),
    ensures
        last_at_most(ls, b) - a == count_nl(t, ls[a] as int, b),
    decreases b - ls[a],
{
    assert forall|i: int, j: int| 0 <= i < j < ls.len() implies #[trigger] ls[i] <= #[trigger] ls[j] by {
        assert(ls[i] < ls[j]);
    }
    if b == ls[a] {
        assert forall|g: int| a < g < ls.len() implies b < #[trigger] ls[g] by {
            assert(ls[a] < ls[g]);
        }
        lemma_last_at_most(ls, b, a);
    } else {
        lemma_lines_count_newlines(ls, t, a, b - 1);
        let j = last_at_most(ls, b - 1);
        // `j` is the line holding `b - 1`.
        assert(0 <= j < ls.len() && ls[j] <= b - 1 && forall|g: int| j < g < ls.len() ==> b - 1 < #[trigger] ls[g]) by {
            lemma_last_at_most_is(ls, b - 1);
        }
        if t[b - 1] == '\n' {
            assert(j + 1 < ls.len()) by {
                if j + 1 == ls.len() {
                    assert(t[b - 1] != '\n');
                }
            }
            assert(ls[j + 1] == b) by {
                if ls[j + 1] > b {
                    assert(t[b - 1] != '\n');
                }
            }
            assert forall|g: int| j + 1 < g < ls.len() implies b < #[trigger] ls[g] by {
                assert(ls[j + 1] < ls[g]);
            }
            lemma_last_at_most(ls, b, j + 1);
        } else {
            assert forall|g: int| j < g < ls.len() implies b < #[trigger] ls[g] by {
                if ls[g] == b {
                    assert(t[ls[g] - 1] == '\n');
                }
            }
            lemma_last_at_most(ls, b, j);
        }
    }
}

/// `last_at_most` of a sorted sequence that starts at or below `x` is the
/// index its name promises.
proof fn lemma_last_at_most_is(s: Seq<u32>, x: int)
    requires
        s.len() >= 1,
        s[0] <= x,
        forall|i: int, j: int| 0 <= i < j < s.len() ==> #[trigger] s[i] <= #[trigger] s[j],
    ensures
        0 <= last_at_most(s, x) < s.len(),
        s[last_at_most(s, x)] <= x,
        forall|g: int| last_at_most(s, x) < g < s.len() ==> x < #[trigger] s[g],
    decreases s.len(),
{
    if s.len() > 1 && s.last() > x {
        let t = s.drop_last();
        assert forall|i: int, j: int| 0 <= i < j < t.len() implies #[trigger] t[i] <= #[trigger] t[j] by {
            assert(s[i] <= s[j]);
        }
        lemma_last_at_most_is(t, x);
        let r = last_at_most(s, x);
        assert forall|g: int| r < g < s.len() implies x < #[trigger] s[g] by {
            if g < t.len() {
                assert(t[g] == s[g]);
            }
        }
    }
}

/// Offsets inside a file's range are attributed to that file.
pub proof fn law_offset_names_its_file(m: &SourceMap, f: int, offset: int)
    requires
        m.wf(),
        0 <= f < m.files@.len(),
        m.files@[f].start <= offset,
        f + 1 == m.files@.len() || offset < m.files@[f + 1].start,
    ensures
        m.owner(offset) == f,
{
    let st = m.starts();
    assert forall|i: int, j: int| 0 <= i < j < st.len() implies #[trigger] st[i] <= #[trigger] st[j] by {
        assert(m.files@[i].start <= m.files@[j].start);
    }
    assert forall|g: int| f < g < st.len() implies offset < #[trigger] st[g] by {
        assert(m.files@[f + 1].start <= m.files@[g].start);
    }
    lemma_last_at_most(st, offset, f);
}

/// Line numbers count from the start of the file that owns the offset: the
/// line is one more than the newlines between the file's start and the
/// offset, and the column is one more than the characters since the last
/// newline.
#[verifier::spinoff_prover]
#[verifier::rlimit(50)]
pub proof fn law_line_col_counts_newlines(m: &SourceMap, offset: int)
    requires
        m.wf(),
        0 <= offset <= m.text@.len(),
    ensures
        m.line_col_spec(offset).0 == 1 + count_nl(m.text@, m.files@[m.owner(offset)].start as int, offset),
        m.line_col_spec(offset).1 >= 1,
        ({
            let c = m.line_col_spec(offset).1;
            &&& offset - c + 1 == 0 || m.text@[offset - c] == '\n'
            &&& forall|k: int| offset - c + 1 <= k < offset ==> #[trigger] m.text@[k] != '\n'
        }),
{
    let ls = m.line_starts@;
    let f = m.owner(offset);
    let st = m.starts();
    assert forall|i: int, j: int| 0 <= i < j < st.len() implies #[trigger] st[i] <= #[trigger] st[j] by {
        assert(m.files@[i].start <= m.files@[j].start);
    }
    lemma_last_at_most_is(st, offset);
    let a = m.files@[f].first_line as int;
    assert(ls[a] == m.files@[f].start);
    lemma_lines_count_newlines(ls, m.text@, a, offset);
    assert forall|i: int, j: int| 0 <= i < j < ls.len() implies #[trigger] ls[i] <= #[trigger] ls[j] by {
        assert(ls[i] < ls[j]);
    }
    lemma_last_at_most_is(ls, offset);
    let j = m.line_of(offset);
    if j > 0 {
        assert(m.text@[ls[j] - 1] == '\n');
    }
    assert forall|k: int| ls[j] <= k < offset implies #[trigger] m.text@[k] != '\n' by {
        if j + 1 < ls.len() {
            assert(offset < ls[j + 1]);
        }
        assert(ls[j] <= k && k < m.text@.len());
    }
}

/// No file runs into the next: every file after an empty buffer begins just
/// past a newline.
pub proof fn law_files_start_on_their_own_line(m: &SourceMap, f: int)
    requires
        m.wf(),
        0 <= f < m.files@.len(),
    ensures
        m.files@[f].start == 0 || m.text@[m.files@[f].start - 1] == '\n',
{
    let a = m.files@[f].first_line as int;
    if a > 0 {
        assert(m.text@[m.line_starts@[a] - 1] == '\n');
    } else {
        assert(m.line_starts@[0] == 0);
    }
}

/// Each file's text sits in the buffer at the start recorded for it, and
/// every offset of that text is attributed to that file.
pub proof fn law_file_text_in_place(files: Seq<(String, String, Option<String>)>, m: &SourceMap, i: int, k: int)
    requires
        m.wf(),
        m.text@ == joined(files),
        m.files@.len() == files.len(),
        forall|g: int| #![trigger m.files@[g]] 0 <= g < files.len() ==> m.files@[g].start == joined(files.take(g)).len(),
        0 <= i < files.len(),
        0 <= k < files[i].1@.len(),
    ensures
        m.text@[m.files@[i].start + k] == files[i].1@[k],
        m.owner(m.files@[i].start + k) == i,
{
    let before = joined(files.take(i));
    let upto = joined(files.take(i + 1));
    assert(files.take(i + 1).drop_last() =~= files.take(i));
    assert(upto == terminated(before + files[i].1@));
    lemma_joined_grows(files, i + 1);
    assert(upto.is_prefix_of(m.text@));
    assert(m.text@[before.len() + k] == upto[before.len() + k]);
    if i + 1 < files.len() {
        assert(m.files@[i + 1].start == upto.len());
    }
    law_offset_names_its_file(m, i, m.files@[i].start + k);
}


/// The parser's side of each file: its path and the text it reads.
pub open spec fn parser_texts(fs: Seq<(String, String, Option<String>)>) -> Seq<(String, String)> {
    fs.map_values(|f: (String, String, Option<String>)| (f.0, f.1))
}

proof fn lemma_joined_plain(fs: Seq<(String, String, Option<String>)>)
    ensures
        joined(plain(parser_texts(fs))) == joined(fs),
    decreases fs.len(),
{
    if fs.len() > 0 {
        let y = plain(parser_texts(fs));
        assert(y.drop_last() =~= plain(parser_texts(fs.drop_last())));
        assert(y.last().1 == fs.last().1);
        lemma_joined_plain(fs.drop_last());
    }
}

proof fn lemma_starts_eq_at(a: Seq<u32>, b: Seq<u32>, t: Seq<char>, i: int)
    requires
        line_starts_of(a, t),
        line_starts_of(b, t),
        0 <= i < a.len(),
        i < b.len(),
    ensures
        a[i] == b[i],
    decreases i,
{
    if i > 0 {
        lemma_starts_eq_at(a, b, t, i - 1);
        if a[i] < b[i] {
            assert(a[i - 1] < a[i]);
            assert(t[a[i] - 1] == '\n');
            assert(t[a[i] - 1] != '\n');
        }
        if b[i] < a[i] {
            assert(b[i - 1] < b[i]);
            assert(t[b[i] - 1] == '\n');
            assert(t[b[i] - 1] != '\n');
        }
    }
}

/// A buffer has one list of line starts.
proof fn lemma_starts_unique(a: Seq<u32>, b: Seq<u32>, t: Seq<char>)
    requires
        line_starts_of(a, t),
        line_starts_of(b, t),
    ensures
        a == b,
{
    assert forall|i: int| 0 <= i < a.len() && i < b.len() implies a[i] == b[i] by {
        lemma_starts_eq_at(a, b, t, i);
    }
    if a.len() > b.len() {
        let i = b.len() as int;
        lemma_starts_eq_at(a, b, t, i - 1);
        assert(a[i - 1] < a[i]);
        assert(t[a[i] - 1] == '\n');
        assert(t[a[i] - 1] != '\n');
    }
    if b.len() > a.len() {
        let i = a.len() as int;
        lemma_starts_eq_at(a, b, t, i - 1);
        assert(b[i - 1] < b[i]);
        assert(t[b[i] - 1] == '\n');
        assert(t[b[i] - 1] != '\n');
    }
    assert(a =~= b);
}

/// A map built from rewritten files reads as the map of the parser's texts
/// alone: the same buffer, so the same length, and every offset falls on the
/// same line and column of the same file. Only what a snippet quotes
/// differs.
pub proof fn law_rewritten_reads_as_plain(fs: Seq<(String, String, Option<String>)>, m: &SourceMap, p: &SourceMap, offset: int)
    requires
        fs.len() > 0,
        m.wf(),
        p.wf(),
        m.text@ == joined(fs),
        m.files@.len() == fs.len(),
        forall|i: int| #![trigger m.files@[i]] 0 <= i < fs.len() ==>
            m.files@[i].path@ == fs[i].0@ && m.files@[i].start == joined(fs.take(i)).len(),
        p.text@ == joined(plain(parser_texts(fs))),
        p.files@.len() == fs.len(),
        forall|i: int| #![trigger p.files@[i]] 0 <= i < fs.len() ==>
            p.files@[i].path@ == fs[i].0@ && p.files@[i].start == joined(plain(parser_texts(fs)).take(i)).len(),
    ensures
        m.text@ == p.text@,
        m.line_col_spec(offset) == p.line_col_spec(offset),
        m.owner(offset) == p.owner(offset),
        m.files@[m.owner(offset)].path@ == p.files@[p.owner(offset)].path@,
{
    lemma_joined_plain(fs);
    lemma_starts_unique(m.line_starts@, p.line_starts@, m.text@);
    assert forall|i: int| 0 <= i < fs.len() implies #[trigger] m.files@[i].start == p.files@[i].start by {
        assert(plain(parser_texts(fs)).take(i) =~= plain(parser_texts(fs.take(i))));
        lemma_joined_plain(fs.take(i));
    }
    assert(m.starts() =~= p.starts());
    assert forall|i: int| 0 <= i < fs.len() implies #[trigger] m.files@[i].first_line == p.files@[i].first_line by {
        let x = m.files@[i].first_line as int;
        let y = p.files@[i].first_line as int;
        if x < y {
            assert(m.line_starts@[x] < m.line_starts@[y]);
        }
        if y < x {
            assert(m.line_starts@[y] < m.line_starts@[x]);
        }
    }
    let o = m.owner(offset);
    lemma_last_at_most_in(m.starts(), offset);
    assert(m.files@[o].first_line == p.files@[o].first_line);
}

proof fn lemma_last_at_most_in(s: Seq<u32>, x: int)
    requires
        s.len() >= 1,
    ensures
        0 <= last_at_most(s, x) < s.len(),
    decreases s.len(),
{
    if s.len() > 1 && s.last() > x {
        lemma_last_at_most_in(s.drop_last(), x);
    }
}


proof fn lemma_shown_grows(files: Seq<(String, String, Option<String>)>, i: int)
    requires
        0 <= i <= files.len(),
    ensures
        shown_joined(files.take(i)).is_prefix_of(shown_joined(files)),
    decreases files.len() - i,
{
    if i < files.len() {
        lemma_shown_grows(files, i + 1);
        assert(files.take(i + 1).drop_last() =~= files.take(i));
        let t = joined(files.take(i)) + files.take(i + 1).last().1@;
        let a = shown_joined(files.take(i));
        let b = shown_joined(files.take(i + 1));
        assert(b == a + chosen(files.take(i + 1).last()) + (if terminated(t).len() > t.len() { seq!['\n'] } else { Seq::empty() }));
        assert(a.is_prefix_of(b));
    } else {
        assert(files.take(i) =~= files);
    }
}

/// A snippet of a rewritten file set quotes, at every offset of file `i`, the
/// author's text where it is exactly as long as the parser's, and the
/// parser's text otherwise.
pub proof fn law_snippet_quotes_the_kept_text(files: Seq<(String, String, Option<String>)>, m: &SourceMap, i: int, k: int)
    requires
        m.wf(),
        m.text@ == joined(files),
        m.files@.len() == files.len(),
        forall|g: int| #![trigger m.files@[g]] 0 <= g < files.len() ==> m.files@[g].start == joined(files.take(g)).len(),
        m.display is Some <==> exists|j: int| 0 <= j < files.len() && #[trigger] kept(files[j]),
        m.display is Some ==> m.display->0@ == shown_joined(files),
        0 <= i < files.len(),
        0 <= k < files[i].1@.len(),
    ensures
        m.shown_view()[m.files@[i].start + k] == chosen(files[i])[k],
{
    law_file_text_in_place(files, m, i, k);
    if m.display is Some {
        let before = files.take(i);
        let upto = files.take(i + 1);
        assert(upto.drop_last() =~= before);
        assert(upto.last() == files[i]);
        lemma_shown_len(before);
        lemma_shown_grows(files, i + 1);
        let t = joined(before) + files[i].1@;
        let sb = shown_joined(before);
        assert(shown_joined(upto) == sb + chosen(files[i]) + (if terminated(t).len() > t.len() { seq!['\n'] } else { Seq::empty() }));
        assert(chosen(files[i]).len() == files[i].1@.len());
        assert(shown_joined(upto)[sb.len() + k] == chosen(files[i])[k]);
        assert(m.display->0@[sb.len() + k] == shown_joined(upto)[sb.len() + k]);
    } else {
        if kept(files[i]) {
            assert(exists|j: int| 0 <= j < files.len() && #[trigger] kept(files[j]));
        }
    }
}

} // verus!
