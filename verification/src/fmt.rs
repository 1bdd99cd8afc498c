// `ddl fmt`.
//
// A formatter is worth more in this language than in most, because a DDL block
// is delimited by indentation: getting the whitespace wrong does not raise a
// syntax error, it changes which block a statement belongs to.
//
// So it is text, not a syntax-tree round trip: the parser drops comments, and
// re-emitting from the tree would delete every one of them. And it does not
// re-indent: only the parser knows which deeper lines are blocks and which
// are the continuation lines of a wrapped parameter list, and it throws that
// away. Indentation is left entirely alone and this does hygiene: the changes
// that cannot mean anything.
//
// It still proves it changed nothing. The file is parsed before and after and
// the syntax trees compared, and a difference means the original is left
// exactly as it was.

use vstd::prelude::*;
use crate::text::push_char;

verus! {

/// What formatting a file did.
#[derive(Debug, PartialEq, Eq)]
pub enum Outcome {
    /// Already formatted; nothing to write.
    Unchanged,
    /// Formatted, and the syntax tree is unchanged.
    Changed(String),
    /// Formatting it would have changed what it means, or could not be shown
    /// not to, so it was left alone.
    Refused(String),
}

/// Unicode white space, as `char::is_whitespace` has it.
pub open spec fn is_ws(c: char) -> bool {
    ||| c == ' '
    ||| ('\u{9}' <= c <= '\u{d}')
    ||| c == '\u{85}'
    ||| c == '\u{a0}'
    ||| c == '\u{1680}'
    ||| ('\u{2000}' <= c <= '\u{200a}')
    ||| c == '\u{2028}'
    ||| c == '\u{2029}'
    ||| c == '\u{202f}'
    ||| c == '\u{205f}'
    ||| c == '\u{3000}'
}

fn ws(c: char) -> (r: bool)
    ensures
        r == is_ws(c),
{
    c == ' ' || ('\u{9}' <= c && c <= '\u{d}') || c == '\u{85}' || c == '\u{a0}' || c == '\u{1680}'
        || ('\u{2000}' <= c && c <= '\u{200a}') || c == '\u{2028}' || c == '\u{2029}' || c
        == '\u{202f}' || c == '\u{205f}' || c == '\u{3000}'
}

/// `s` without trailing white space.
pub open spec fn trim_ws(s: Seq<char>) -> Seq<char>
    decreases s.len(),
{
    if s.len() > 0 && is_ws(s.last()) {
        trim_ws(s.drop_last())
    } else {
        s
    }
}

/// The pieces of `t` between newlines: one more than it has newlines.
pub open spec fn split_nl(t: Seq<char>) -> Seq<Seq<char>>
    decreases t.len(),
{
    if t.len() == 0 {
        seq![Seq::empty()]
    } else {
        let prev = split_nl(t.drop_last());
        if t.last() == '\n' {
            prev.push(Seq::empty())
        } else {
            prev.update(prev.len() - 1, prev.last().push(t.last()))
        }
    }
}

/// The lines of `t`, as `str::lines` gives them: the final line ending is
/// optional, so a text ending in a newline has no empty last line. (A `\r`
/// before the newline stays on the line; the trimming below removes it.)
pub open spec fn lines_of(t: Seq<char>) -> Seq<Seq<char>> {
    if split_nl(t).last().len() == 0 {
        split_nl(t).drop_last()
    } else {
        split_nl(t)
    }
}

/// One line's step of the hygiene: the text so far and whether it ends in a
/// blank line, or `None` once a tab has been seen.
pub open spec fn tidy_step(acc: Option<(Seq<char>, bool)>, raw: Seq<char>) -> Option<(Seq<char>, bool)> {
    match acc {
        None => None,
        Some((out, in_blank)) => {
            let line = trim_ws(raw);
            if line.len() == 0 {
                // A run of blank lines collapses to one.
                Some((if in_blank { out } else { out.push('\n') }, true))
            } else if line.contains('\t') {
                None
            } else {
                Some((out + line + seq!['\n'], false))
            }
        },
    }
}

pub open spec fn tidy_lines(ls: Seq<Seq<char>>) -> Option<(Seq<char>, bool)>
    decreases ls.len(),
{
    if ls.len() == 0 {
        Some((Seq::empty(), false))
    } else {
        tidy_step(tidy_lines(ls.drop_last()), ls.last())
    }
}

/// `s` with blank lines at its end dropped, down to one newline.
pub open spec fn drop_blank_tail(s: Seq<char>) -> Seq<char>
    decreases s.len(),
{
    if s.len() >= 2 && s.last() == '\n' && s[s.len() - 2] == '\n' {
        drop_blank_tail(s.drop_last())
    } else {
        s
    }
}

/// Whitespace hygiene: trailing white space goes from every line, a run of
/// blank lines becomes one, blank lines at the end go, and the text ends in
/// exactly one newline. Indentation is not touched. `None` when a line holds
/// a tab: fixing one means choosing a width, and choosing wrong moves the line
/// into another block.
pub open spec fn tidy_spec(t: Seq<char>) -> Option<Seq<char>> {
    match tidy_lines(lines_of(t)) {
        None => None,
        Some((out, _)) => {
            let o = drop_blank_tail(out);
            Some(if o.len() > 0 && o.last() != '\n' { o.push('\n') } else { o })
        },
    }
}

/// Feeds one raw line through the hygiene step.
fn take_line(out: &mut Vec<char>, in_blank: &mut bool, raw: &Vec<char>) -> (ok: bool)
    ensures
        match tidy_step(Some((old(out)@, *old(in_blank))), raw@) {
            None => !ok,
            Some((o, b)) => ok && final(out)@ == o && *final(in_blank) == b,
        },
{
    let mut e = raw.len();
    proof {
        assert(raw@.take(e as int) =~= raw@);
    }
    while e > 0 && ws(raw[e - 1])
        invariant
            e <= raw@.len(),
            trim_ws(raw@.take(e as int)) == trim_ws(raw@),
        decreases e,
    {
        proof {
            assert(raw@.take(e as int).drop_last() =~= raw@.take(e - 1));
        }
        e = e - 1;
    }
    let ghost line = raw@.take(e as int);
    proof {
        assert(trim_ws(line) == line);
    }
    if e == 0 {
        // A run of blank lines collapses. More than one is never
        // information, and unlike indentation a blank line cannot change
        // which block anything belongs to.
        if !*in_blank {
            out.push('\n');
        }
        *in_blank = true;
        return true;
    }
    // The compiler rejects tabs outright: it counts spaces for indentation,
    // so a tab silently changes which block a line is in.
    let mut k: usize = 0;
    while k < e
        invariant
            k <= e <= raw@.len(),
            line == raw@.take(e as int),
            trim_ws(raw@) == line,
            forall|j: int| 0 <= j < k ==> raw@[j] != '\t',
        decreases e - k,
    {
        if raw[k] == '\t' {
            proof {
                assert(line[k as int] == '\t');
                assert(line.contains('\t'));
                assert(trim_ws(raw@) == line);
                assert(line.len() > 0);
            }
            return false;
        }
        k = k + 1;
    }
    proof {
        assert(!line.contains('\t')) by {
            if line.contains('\t') {
                let j = choose|j: int| 0 <= j < line.len() && line[j] == '\t';
                assert(raw@[j] != '\t');
            }
        }
    }
    let ghost before = out@;
    let mut k: usize = 0;
    while k < e
        invariant
            k <= e <= raw@.len(),
            line == raw@.take(e as int),
            trim_ws(raw@) == line,
            !line.contains('\t'),
            out@ == before + line.take(k as int),
        decreases e - k,
    {
        out.push(raw[k]);
        proof {
            assert(line.take(k + 1) =~= line.take(k as int).push(raw@[k as int]));
        }
        k = k + 1;
    }
    proof {
        assert(line.take(e as int) =~= line);
    }
    out.push('\n');
    *in_blank = false;
    true
}

/// Whitespace hygiene; see `tidy_spec`.
pub fn tidy(text: &str) -> (r: Option<String>)
    ensures
        match tidy_spec(text@) {
            None => r is None,
            Some(t) => r is Some && r->0@ == t,
        },
{
    let mut out: Vec<char> = Vec::new();
    let mut in_blank = false;
    let mut ok = true;
    let mut cur: Vec<char> = Vec::new();
    let ghost mut done: Seq<Seq<char>> = Seq::empty();
    proof {
        assert(text@.take(0) =~= Seq::<char>::empty());
    }
    for c in it: text.chars()
        invariant
            it.seq() == text@,
            split_nl(text@.take(it.index() as int)) == done.push(cur@),
            ok ==> tidy_lines(done) == Some((out@, in_blank)),
            !ok ==> tidy_lines(done) is None,
    {
        let ghost i = it.index() as int;
        proof {
            assert(text@.take(i + 1).drop_last() =~= text@.take(i));
            assert(text@.take(i + 1).last() == c);
        }
        if c == '\n' {
            if ok {
                ok = take_line(&mut out, &mut in_blank, &cur);
            }
            proof {
                assert(done.push(cur@).drop_last() =~= done);
                done = done.push(cur@);
            }
            cur = Vec::new();
            proof {
                assert(split_nl(text@.take(i + 1)) =~= done.push(cur@));
            }
        } else {
            let ghost old_cur = cur@;
            cur.push(c);
            proof {
                assert(split_nl(text@.take(i + 1)) =~= done.push(cur@));
            }
        }
    }
    proof {
        assert(text@.take(text@.len() as int) =~= text@);
    }
    if cur.len() > 0 {
        if ok {
            ok = take_line(&mut out, &mut in_blank, &cur);
        }
        proof {
            assert(lines_of(text@) == done.push(cur@));
            assert(done.push(cur@).drop_last() =~= done);
        }
    } else {
        proof {
            assert(lines_of(text@) =~= done);
        }
    }
    if !ok {
        return None;
    }
    // Exactly one trailing newline. A file with none runs its last line into
    // whatever follows it in the buffer, which for a multi-file build is the
    // next file.
    let mut n = out.len();
    proof {
        assert(out@.take(n as int) =~= out@);
    }
    while n >= 2 && out[n - 1] == '\n' && out[n - 2] == '\n'
        invariant
            n <= out@.len(),
            drop_blank_tail(out@.take(n as int)) == drop_blank_tail(out@),
        decreases n,
    {
        proof {
            assert(out@.take(n as int).drop_last() =~= out@.take(n - 1));
        }
        n = n - 1;
    }
    let ghost kept = out@.take(n as int);
    proof {
        assert(drop_blank_tail(kept) == kept);
    }
    let mut s = String::new();
    let mut k: usize = 0;
    while k < n
        invariant
            k <= n <= out@.len(),
            kept == out@.take(n as int),
            s@ == kept.take(k as int),
        decreases n - k,
    {
        push_char(&mut s, out[k]);
        proof {
            assert(kept.take(k + 1) =~= kept.take(k as int).push(out@[k as int]));
        }
        k = k + 1;
    }
    proof {
        assert(kept.take(n as int) =~= kept);
    }
    if n > 0 && out[n - 1] != '\n' {
        push_char(&mut s, '\n');
    }
    Some(s)
}

/// Whether two parses show the same program: both parsed, to the same tree.
pub open spec fn same_tree(before: Option<String>, after: Option<String>) -> bool {
    before is Some && after is Some && before->0@ == after->0@
}

/// Formats source text, or explains why it will not.
///
/// `syntax_of` is the parser: the syntax tree of a text, printed, or `None`
/// if it does not parse. A formatter for an indentation-delimited language
/// that cannot show it preserved the program is a formatter nobody should
/// run, so the result is `Changed` only when the text and its tidied form
/// parse to the same tree; a file that does not parse cannot be shown to be
/// unharmed, so it is not touched.
pub fn format_source<F: Fn(&str) -> Option<String>>(text: &str, syntax_of: F) -> (r: Outcome)
    requires
        forall|s: &str| #[trigger] call_requires(syntax_of, (s,)),
    ensures
        tidy_spec(text@) is None ==> r is Refused,
        r is Unchanged <==> tidy_spec(text@) == Some(text@),
        match r {
            Outcome::Changed(f) => {
                &&& tidy_spec(text@) == Some(f@)
                &&& f@ != text@
                &&& exists|b: Option<String>, a: Option<String>, s: &str|
                    #![trigger call_ensures(syntax_of, (text,), b), call_ensures(syntax_of, (s,), a)]
                    s@ == f@ && call_ensures(syntax_of, (text,), b) && call_ensures(syntax_of, (s,), a)
                        && same_tree(b, a)
            },
            Outcome::Refused(_) => tidy_spec(text@) is Some && tidy_spec(text@)->0 != text@ ==> exists|
                b: Option<String>,
                a: Option<String>,
                s: &str,
            |
                #![trigger call_ensures(syntax_of, (text,), b), call_ensures(syntax_of, (s,), a)]
                s@ == tidy_spec(text@)->0 && call_ensures(syntax_of, (text,), b) && call_ensures(
                    syntax_of,
                    (s,),
                    a,
                ) && !same_tree(b, a),
            Outcome::Unchanged => true,
        },
{
    let formatted = match tidy(text) {
        Some(f) => f,
        None => {
            return Outcome::Refused(
                String::from_str("it contains a tab, and the width to replace it with is a guess"),
            );
        },
    };
    if formatted == String::from_str(text) {
        return Outcome::Unchanged;
    }
    let before = syntax_of(text);
    let after = syntax_of(formatted.as_str());
    let same = match (&before, &after) {
        (Some(b), Some(a)) => *b == *a,
        _ => false,
    };
    if same {
        Outcome::Changed(formatted)
    } else {
        match (&before, &after) {
            (Some(_), Some(_)) => Outcome::Refused(
                String::from_str("formatting it would have changed what it parses to"),
            ),
            _ => Outcome::Refused(String::from_str("it does not parse")),
        }
    }
}

/// Lines joined, each ending in a newline.
pub open spec fn join_lines(e: Seq<Seq<char>>) -> Seq<char>
    decreases e.len(),
{
    if e.len() == 0 {
        Seq::empty()
    } else {
        join_lines(e.drop_last()) + e.last() + seq!['\n']
    }
}

/// Lines as hygiene leaves them: no newline, no tab and no trailing white
/// space in any, and never two blank ones in a row.
pub open spec fn clean(e: Seq<Seq<char>>) -> bool {
    &&& forall|i: int| 0 <= i < e.len() ==> !(#[trigger] e[i]).contains('\n') && !e[i].contains('\t') && trim_ws(e[i]) == e[i]
    &&& forall|i: int| 0 <= i < e.len() - 1 ==> !(#[trigger] e[i].len() == 0 && e[i + 1].len() == 0)
}

/// The lines hygiene emits for `ls`, blank ones included.
pub open spec fn out_lines(ls: Seq<Seq<char>>) -> Seq<Seq<char>>
    decreases ls.len(),
{
    if ls.len() == 0 {
        Seq::empty()
    } else {
        let prev = out_lines(ls.drop_last());
        let line = trim_ws(ls.last());
        if line.len() == 0 {
            if prev.len() > 0 && prev.last().len() == 0 {
                prev
            } else {
                prev.push(Seq::empty())
            }
        } else {
            prev.push(line)
        }
    }
}

/// Blank lines at the end dropped, but for a lone blank line.
pub open spec fn trim_blank(e: Seq<Seq<char>>) -> Seq<Seq<char>>
    decreases e.len(),
{
    if e.len() >= 2 && e.last().len() == 0 {
        trim_blank(e.drop_last())
    } else {
        e
    }
}

proof fn lemma_trim_ws_idem(s: Seq<char>)
    ensures
        trim_ws(trim_ws(s)) == trim_ws(s),
        trim_ws(s) == s.take(trim_ws(s).len() as int),
        trim_ws(s).len() <= s.len(),
    decreases s.len(),
{
    if s.len() > 0 && is_ws(s.last()) {
        lemma_trim_ws_idem(s.drop_last());
        assert(s.drop_last().take(trim_ws(s).len() as int) =~= s.take(trim_ws(s).len() as int));
    } else {
        assert(s.take(s.len() as int) =~= s);
    }
}

/// A prefix of a piece without a character has none either.
proof fn lemma_prefix_lacks(s: Seq<char>, n: int, c: char)
    requires
        0 <= n <= s.len(),
        !s.contains(c),
    ensures
        !s.take(n).contains(c),
{
    if s.take(n).contains(c) {
        let i = choose|i: int| 0 <= i < s.take(n).len() && s.take(n)[i] == c;
        assert(s[i] == c);
    }
}

/// No piece between newlines holds one.
proof fn lemma_split_no_nl(t: Seq<char>)
    ensures
        split_nl(t).len() >= 1,
        forall|i: int| 0 <= i < split_nl(t).len() ==> !(#[trigger] split_nl(t)[i]).contains('\n'),
    decreases t.len(),
{
    if t.len() > 0 {
        lemma_split_no_nl(t.drop_last());
        let prev = split_nl(t.drop_last());
        if t.last() != '\n' {
            let l = prev.last().push(t.last());
            assert forall|i: int| 0 <= i < split_nl(t).len() implies !(#[trigger] split_nl(t)[i]).contains('\n') by {
                if i == prev.len() - 1 {
                    if l.contains('\n') {
                        let j = choose|j: int| 0 <= j < l.len() && l[j] == '\n';
                        if j < prev.last().len() {
                            assert(prev.last()[j] == '\n');
                        }
                    }
                } else {
                    assert(split_nl(t)[i] == prev[i]);
                }
            }
        } else {
            assert forall|i: int| 0 <= i < split_nl(t).len() implies !(#[trigger] split_nl(t)[i]).contains('\n') by {
                if i < prev.len() {
                    assert(split_nl(t)[i] == prev[i]);
                }
            }
        }
    }
}

/// Splitting joined lines gives them back, and an empty piece after the
/// last newline.
proof fn lemma_split_join(e: Seq<Seq<char>>)
    requires
        forall|i: int| 0 <= i < e.len() ==> !(#[trigger] e[i]).contains('\n'),
    ensures
        split_nl(join_lines(e)) == e.push(Seq::empty()),
    decreases e.len(),
{
    if e.len() > 0 {
        let p = e.drop_last();
        lemma_split_join(p);
        lemma_split_append(join_lines(p), e.last());
        assert(split_nl(join_lines(p) + e.last()) == p.push(e.last()));
        let t = join_lines(e);
        assert(t.drop_last() =~= join_lines(p) + e.last());
        assert(p.push(e.last()).push(Seq::empty()) =~= e.push(Seq::empty()));
    } else {
        assert(split_nl(Seq::<char>::empty()) =~= seq![Seq::<char>::empty()]);
    }
}

/// Appending a piece with no newline to a text that ends in one extends its
/// last, empty, piece.
proof fn lemma_split_append(t: Seq<char>, l: Seq<char>)
    requires
        split_nl(t).last().len() == 0,
        !l.contains('\n'),
    ensures
        split_nl(t + l) == split_nl(t).drop_last().push(l),
    decreases l.len(),
{
    if l.len() == 0 {
        assert(t + l =~= t);
        lemma_split_no_nl(t);
        assert(split_nl(t).last() =~= l);
        assert(split_nl(t).drop_last().push(l) =~= split_nl(t));
    } else {
        let l0 = l.drop_last();
        assert(!l0.contains('\n')) by {
            if l0.contains('\n') {
                let j = choose|j: int| 0 <= j < l0.len() && l0[j] == '\n';
                assert(l[j] == '\n');
            }
        }
        lemma_split_append(t, l0);
        assert((t + l).drop_last() =~= t + l0);
        assert(l.last() != '\n');
        lemma_split_no_nl(t + l0);
        let prev = split_nl(t + l0);
        assert(split_nl(t + l) == prev.update(prev.len() - 1, prev.last().push(l.last())));
        assert(l0.push(l.last()) =~= l);
        assert(prev.last() == l0);
        assert(split_nl(t + l) =~= split_nl(t).drop_last().push(l));
    }
}

proof fn lemma_join_ends(e: Seq<Seq<char>>)
    ensures
        e.len() > 0 ==> join_lines(e).len() > 0 && join_lines(e).last() == '\n',
        e.len() == 0 ==> join_lines(e).len() == 0,
{
}

proof fn lemma_clean_prefix(e: Seq<Seq<char>>, n: int)
    requires
        clean(e),
        0 <= n <= e.len(),
    ensures
        clean(e.take(n)),
{
    let p = e.take(n);
    assert forall|i: int| 0 <= i < p.len() implies !(#[trigger] p[i]).contains('\n') && !p[i].contains('\t') && trim_ws(p[i]) == p[i] by {
        assert(p[i] == e[i]);
    }
    assert forall|i: int| 0 <= i < p.len() - 1 implies !(#[trigger] p[i].len() == 0 && p[i + 1].len() == 0) by {
        assert(p[i] == e[i] && p[i + 1] == e[i + 1]);
    }
}

/// What the hygiene writes is its lines joined, and those lines are clean.
proof fn lemma_tidy_lines_out(ls: Seq<Seq<char>>)
    requires
        forall|i: int| 0 <= i < ls.len() ==> !(#[trigger] ls[i]).contains('\n'),
        tidy_lines(ls) is Some,
    ensures
        ({
            let (out, in_blank) = tidy_lines(ls)->Some_0;
            let e = out_lines(ls);
            &&& out == join_lines(e)
            &&& in_blank == (e.len() > 0 && e.last().len() == 0)
            &&& clean(e)
        }),
    decreases ls.len(),
{
    if ls.len() > 0 {
        let p = ls.drop_last();
        assert forall|i: int| 0 <= i < p.len() implies !(#[trigger] p[i]).contains('\n') by {
            assert(p[i] == ls[i]);
        }
        assert(tidy_lines(p) is Some);
        lemma_tidy_lines_out(p);
        let e0 = out_lines(p);
        let e = out_lines(ls);
        let raw = ls.last();
        let line = trim_ws(raw);
        lemma_trim_ws_idem(raw);
        lemma_prefix_lacks(raw, line.len() as int, '\n');
        assert(!raw.contains('\n')) by {
            assert(raw == ls[ls.len() - 1]);
        }
        if line.len() == 0 {
            if e0.len() > 0 && e0.last().len() == 0 {
                assert(e == e0);
            } else {
                assert(e == e0.push(Seq::empty()));
                assert(e.drop_last() =~= e0);
                assert(join_lines(e) =~= join_lines(e0) + Seq::<char>::empty() + seq!['\n']);
                assert(join_lines(e0).push('\n') =~= join_lines(e0) + Seq::<char>::empty() + seq!['\n']);
                assert forall|i: int| 0 <= i < e.len() implies !(#[trigger] e[i]).contains('\n') && !e[i].contains('\t') && trim_ws(e[i]) == e[i] by {
                    if i < e0.len() {
                        assert(e[i] == e0[i]);
                    } else {
                        assert(e[i] =~= Seq::<char>::empty());
                    }
                }
                assert forall|i: int| 0 <= i < e.len() - 1 implies !(#[trigger] e[i].len() == 0 && e[i + 1].len() == 0) by {
                    if i < e0.len() - 1 {
                        assert(e[i] == e0[i] && e[i + 1] == e0[i + 1]);
                    } else {
                        assert(e[i] == e0[i]);
                    }
                }
            }
        } else {
            assert(e == e0.push(line));
            assert(e.drop_last() =~= e0);
            assert(!line.contains('\t'));
            assert forall|i: int| 0 <= i < e.len() implies !(#[trigger] e[i]).contains('\n') && !e[i].contains('\t') && trim_ws(e[i]) == e[i] by {
                if i < e0.len() {
                    assert(e[i] == e0[i]);
                }
            }
            assert forall|i: int| 0 <= i < e.len() - 1 implies !(#[trigger] e[i].len() == 0 && e[i + 1].len() == 0) by {
                if i < e0.len() - 1 {
                    assert(e[i] == e0[i] && e[i + 1] == e0[i + 1]);
                }
            }
        }
    }
}

/// Clean lines go through the hygiene unchanged.
proof fn lemma_tidy_clean(e: Seq<Seq<char>>)
    requires
        clean(e),
    ensures
        tidy_lines(e) == Some((join_lines(e), e.len() > 0 && e.last().len() == 0)),
    decreases e.len(),
{
    if e.len() > 0 {
        let p = e.drop_last();
        lemma_clean_prefix(e, e.len() - 1);
        assert(e.take(e.len() - 1) =~= p);
        lemma_tidy_clean(p);
        let l = e.last();
        assert(trim_ws(l) == l);
        if l.len() == 0 {
            if p.len() > 0 {
                assert(!(e[e.len() - 2].len() == 0 && e[e.len() - 1].len() == 0));
                assert(p.last() == e[e.len() - 2]);
            }
            assert(join_lines(p).push('\n') =~= join_lines(p) + l + seq!['\n']);
        } else {
            assert(!l.contains('\t'));
        }
    }
}

/// Dropping the blank lines at the end of joined clean lines.
proof fn lemma_drop_tail(e: Seq<Seq<char>>)
    requires
        clean(e),
    ensures
        drop_blank_tail(join_lines(e)) == join_lines(trim_blank(e)),
        clean(trim_blank(e)),
        trim_blank(trim_blank(e)) == trim_blank(e),
    decreases e.len(),
{
    let j = join_lines(e);
    if e.len() >= 2 && e.last().len() == 0 {
        let p = e.drop_last();
        lemma_clean_prefix(e, e.len() - 1);
        assert(e.take(e.len() - 1) =~= p);
        lemma_drop_tail(p);
        assert(j =~= join_lines(p) + e.last() + seq!['\n']);
        assert(e.last() =~= Seq::<char>::empty());
        assert(j.drop_last() =~= join_lines(p));
        lemma_join_ends(p);
        assert(j[j.len() - 2] == '\n');
    } else {
        if e.len() >= 1 {
            let p = e.drop_last();
            let l = e.last();
            assert(j =~= join_lines(p) + l + seq!['\n']);
            if l.len() > 0 {
                assert(j[j.len() - 2] == l.last());
                assert(l[l.len() - 1] == l.last());
                assert(e[e.len() - 1] == l);
                assert(l.last() != '\n');
            } else {
                assert(e.len() == 1);
                assert(j.len() == 1);
            }
        }
    }
}

/// Hygiene is done in one pass: formatting a formatted file changes
/// nothing, so a file `fmt` has written is one it leaves alone.
pub proof fn law_tidy_is_idempotent(t: Seq<char>)
    requires
        tidy_spec(t) is Some,
    ensures
        tidy_spec(tidy_spec(t)->0) == tidy_spec(t),
{
    let ls = lines_of(t);
    lemma_split_no_nl(t);
    assert forall|i: int| 0 <= i < ls.len() implies !(#[trigger] ls[i]).contains('\n') by {
        assert(ls[i] == split_nl(t)[i]);
    }
    lemma_tidy_lines_out(ls);
    let e = out_lines(ls);
    lemma_drop_tail(e);
    let e2 = trim_blank(e);
    let o = join_lines(e2);
    lemma_join_ends(e2);
    assert(tidy_spec(t) == Some(o));
    lemma_split_join(e2);
    assert(split_nl(o).drop_last() =~= e2);
    assert(lines_of(o) == e2);
    lemma_tidy_clean(e2);
    lemma_drop_tail(e2);
    assert(drop_blank_tail(o) == o);
}

/// `l` is `raw` without some of its trailing white space and nothing else.
pub open spec fn trimmed_from(l: Seq<char>, raw: Seq<char>) -> bool {
    &&& l.len() <= raw.len()
    &&& raw.take(l.len() as int) == l
    &&& forall|i: int| l.len() <= i < raw.len() ==> is_ws(#[trigger] raw[i])
}

proof fn lemma_trim_ws_tail(s: Seq<char>)
    ensures
        trimmed_from(trim_ws(s), s),
    decreases s.len(),
{
    lemma_trim_ws_idem(s);
    if s.len() > 0 && is_ws(s.last()) {
        lemma_trim_ws_tail(s.drop_last());
        assert forall|i: int| trim_ws(s).len() <= i < s.len() implies is_ws(#[trigger] s[i]) by {
            if i < s.len() - 1 {
                assert(s[i] == s.drop_last()[i]);
            }
        }
    }
}

/// Every line hygiene emits is blank or trimmed from an input line.
proof fn lemma_out_lines_from(ls: Seq<Seq<char>>)
    ensures
        forall|i: int| 0 <= i < out_lines(ls).len() ==> (#[trigger] out_lines(ls)[i]).len() == 0 || exists|k: int|
            0 <= k < ls.len() && trimmed_from(out_lines(ls)[i], ls[k]),
    decreases ls.len(),
{
    if ls.len() > 0 {
        let p = ls.drop_last();
        lemma_out_lines_from(p);
        let e0 = out_lines(p);
        let e = out_lines(ls);
        lemma_trim_ws_tail(ls.last());
        assert forall|i: int| 0 <= i < e.len() implies (#[trigger] e[i]).len() == 0 || exists|k: int|
            0 <= k < ls.len() && trimmed_from(e[i], ls[k]) by {
            if i < e0.len() {
                assert(e[i] == e0[i]);
                if e0[i].len() != 0 {
                    let k = choose|k: int| 0 <= k < p.len() && trimmed_from(e0[i], p[k]);
                    assert(ls[k] == p[k]);
                }
            } else if e[i].len() != 0 {
                assert(ls[ls.len() - 1] == ls.last());
                assert(e[i] == trim_ws(ls.last()));
                assert(trimmed_from(e[i], ls[ls.len() - 1]));
            }
        }
    }
}

proof fn lemma_trim_blank_from(e: Seq<Seq<char>>)
    ensures
        trim_blank(e).len() <= e.len(),
        forall|i: int| 0 <= i < trim_blank(e).len() ==> #[trigger] trim_blank(e)[i] == e[i],
    decreases e.len(),
{
    if e.len() >= 2 && e.last().len() == 0 {
        lemma_trim_blank_from(e.drop_last());
    }
}

/// Hygiene does not re-indent: every non-blank line of the formatted text
/// is a line of the original with trailing white space removed and nothing
/// else -- its indentation and its text are exactly as they were.
pub proof fn law_tidy_keeps_indentation(t: Seq<char>)
    requires
        tidy_spec(t) is Some,
    ensures
        forall|i: int| 0 <= i < lines_of(tidy_spec(t)->0).len() ==> (#[trigger] lines_of(tidy_spec(t)->0)[i]).len() == 0
            || exists|k: int| 0 <= k < lines_of(t).len() && trimmed_from(lines_of(tidy_spec(t)->0)[i], lines_of(t)[k]),
{
    let ls = lines_of(t);
    lemma_split_no_nl(t);
    assert forall|i: int| 0 <= i < ls.len() implies !(#[trigger] ls[i]).contains('\n') by {
        assert(ls[i] == split_nl(t)[i]);
    }
    lemma_tidy_lines_out(ls);
    let e = out_lines(ls);
    lemma_drop_tail(e);
    let e2 = trim_blank(e);
    let o = join_lines(e2);
    lemma_join_ends(e2);
    assert(tidy_spec(t) == Some(o));
    lemma_split_join(e2);
    assert(split_nl(o).drop_last() =~= e2);
    assert(lines_of(o) == e2);
    lemma_out_lines_from(ls);
    lemma_trim_blank_from(e);
    assert forall|i: int| 0 <= i < e2.len() implies (#[trigger] e2[i]).len() == 0 || exists|k: int|
        0 <= k < ls.len() && trimmed_from(e2[i], ls[k]) by {
        assert(e2[i] == e[i]);
    }
}

} // verus!
