//! Line handling shared by the gemtext item constructors: splitting at
//! newlines, the `lines` view of a text, escaping of line starts and the
//! folding of several lines into one.

use itertools::Itertools;
use vstd::prelude::*;

verus! {

// ---------------------------------------------------------------------------
// Specification
// ---------------------------------------------------------------------------

/// `prefix` is an initial segment of `s`.
pub open spec fn starts_with(s: Seq<char>, prefix: Seq<char>) -> bool {
    prefix.len() <= s.len() && s.subrange(0, prefix.len() as int) == prefix
}

/// `s` begins with one of `starts`.
pub open spec fn starts_with_any_of(s: Seq<char>, starts: Seq<Seq<char>>) -> bool {
    exists|i: int| 0 <= i < starts.len() && starts_with(s, #[trigger] starts[i])
}

/// The pieces of `s` between its `'\n'` characters; there is always at least one.
pub open spec fn split_on_newlines(s: Seq<char>) -> Seq<Seq<char>>
    decreases s.len(),
{
    if s.len() == 0 {
        seq![Seq::<char>::empty()]
    } else {
        let init = split_on_newlines(s.drop_last());
        if s.last() == '\n' {
            init.push(Seq::<char>::empty())
        } else {
            init.update(init.len() - 1, init.last().push(s.last()))
        }
    }
}

/// `l` without one trailing carriage return.
pub open spec fn strip_cr(l: Seq<char>) -> Seq<char> {
    if l.len() > 0 && l.last() == '\r' {
        l.drop_last()
    } else {
        l
    }
}

/// The lines of `s` as `str::lines` yields them: pieces ended by `"\n"` or
/// `"\r\n"`, where a final line ending adds no empty line.
pub open spec fn lines(s: Seq<char>) -> Seq<Seq<char>> {
    let segs = split_on_newlines(s);
    let body = segs.drop_last().map_values(|l: Seq<char>| strip_cr(l));
    if segs.last().len() == 0 {
        body
    } else {
        body.push(segs.last())
    }
}

/// The non-empty members of `ls`, in order.
pub open spec fn drop_empty(ls: Seq<Seq<char>>) -> Seq<Seq<char>>
    decreases ls.len(),
{
    if ls.len() == 0 {
        ls
    } else {
        let init = drop_empty(ls.drop_last());
        if ls.last().len() == 0 {
            init
        } else {
            init.push(ls.last())
        }
    }
}

/// The members of `parts` with `sep` between each two neighbours.
pub open spec fn join(parts: Seq<Seq<char>>, sep: Seq<char>) -> Seq<char>
    decreases parts.len(),
{
    if parts.len() == 0 {
        Seq::empty()
    } else if parts.len() == 1 {
        parts[0]
    } else {
        join(parts.drop_last(), sep) + sep + parts.last()
    }
}

/// `s` folded onto one line: unchanged when it holds neither `'\r'` nor
/// `'\n'`, else its non-empty lines joined by single spaces.
pub open spec fn collapse_newlines(s: Seq<char>) -> Seq<char> {
    if !s.contains('\n') && !s.contains('\r') {
        s
    } else {
        join(drop_empty(lines(s)), seq![' '])
    }
}

/// `line` made safe to stand as one line that none of `starts` opens:
/// unchanged when it has no `'\n'` and no such start, else its first piece
/// before any `'\n'`, behind a space when it had such a start.
pub open spec fn escape_line(line: Seq<char>, starts: Seq<Seq<char>>) -> Seq<char> {
    let special = starts_with_any_of(line, starts);
    if !line.contains('\n') && !special {
        line
    } else if special {
        seq![' '] + split_on_newlines(line)[0]
    } else {
        split_on_newlines(line)[0]
    }
}

/// No member of `starts` is empty or opens with a space.
pub open spec fn starts_are_visible(starts: Seq<Seq<char>>) -> bool {
    forall|i: int| 0 <= i < starts.len() ==> #[trigger] starts[i].len() > 0 && starts[i][0] != ' '
}

// ---------------------------------------------------------------------------
// Lemmas
// ---------------------------------------------------------------------------

/// Splitting yields at least one piece, none of which holds `'\n'`, and the
/// first piece is a prefix of the input.
pub proof fn lemma_split_shape(s: Seq<char>)
    ensures
        split_on_newlines(s).len() >= 1,
        forall|j: int|
            0 <= j < split_on_newlines(s).len() ==> !(#[trigger] split_on_newlines(s)[j]).contains(
                '\n',
            ),
        split_on_newlines(s)[0].len() <= s.len(),
        split_on_newlines(s)[0] == s.subrange(0, split_on_newlines(s)[0].len() as int),
        split_on_newlines(s).len() == 1 ==> split_on_newlines(s)[0] == s,
    decreases s.len(),
{
    if s.len() > 0 {
        lemma_split_shape(s.drop_last());
        let init = split_on_newlines(s.drop_last());
        let r = split_on_newlines(s);
        if s.last() == '\n' {
            assert forall|j: int| 0 <= j < r.len() implies !(#[trigger] r[j]).contains('\n') by {
                if j < init.len() {
                    assert(r[j] == init[j]);
                } else {
                    assert(r[j] == Seq::<char>::empty());
                }
            }
            assert(r[0] == init[0]);
            assert(s.drop_last().subrange(0, init[0].len() as int) == s.subrange(
                0,
                init[0].len() as int,
            ));
        } else {
            let last = init.last().push(s.last());
            assert forall|j: int| 0 <= j < r.len() implies !(#[trigger] r[j]).contains('\n') by {
                if j < init.len() - 1 {
                    assert(r[j] == init[j]);
                } else {
                    assert(r[j] == last);
                    assert(!init[init.len() - 1].contains('\n'));
                    if last.contains('\n') {
                        let k = choose|k: int| 0 <= k < last.len() && last[k] == '\n';
                        if k < last.len() - 1 {
                            assert(init.last()[k] == '\n');
                        }
                    }
                }
            }
            if init.len() == 1 {
                assert(r[0] == last);
                assert(last =~= s);
                assert(s.subrange(0, s.len() as int) =~= s);
            } else {
                assert(r[0] == init[0]);
                assert(s.drop_last().subrange(0, init[0].len() as int) =~= s.subrange(
                    0,
                    init[0].len() as int,
                ));
            }
        }
    }
}

/// A text without `'\n'` splits into itself alone.
pub proof fn lemma_split_single(s: Seq<char>)
    requires
        !s.contains('\n'),
    ensures
        split_on_newlines(s) == seq![s],
    decreases s.len(),
{
    if s.len() > 0 {
        assert(!s.drop_last().contains('\n')) by {
            if s.drop_last().contains('\n') {
                let k = choose|k: int| 0 <= k < s.drop_last().len() && s.drop_last()[k] == '\n';
                assert(s[k] == '\n');
            }
        }
        lemma_split_single(s.drop_last());
        assert(s.last() != '\n') by {
            assert(s[s.len() - 1] == s.last());
        }
        assert(s.drop_last().push(s.last()) =~= s);
    } else {
        assert(s =~= Seq::<char>::empty());
    }
}

/// A prefix of `t` that opens with `p` lets `t` open with `p` as well.
pub proof fn lemma_starts_with_prefix(t: Seq<char>, u: Seq<char>, p: Seq<char>)
    requires
        u.len() <= t.len(),
        u == t.subrange(0, u.len() as int),
        starts_with(u, p),
    ensures
        starts_with(t, p),
{
    assert(t.subrange(0, p.len() as int) =~= u.subrange(0, p.len() as int));
}

/// None of `ls` holds a `'\n'`.
pub open spec fn all_single_lines(ls: Seq<Seq<char>>) -> bool {
    forall|j: int| 0 <= j < ls.len() ==> !(#[trigger] ls[j]).contains('\n')
}

/// Every line that `lines` yields is free of `'\n'`.
pub proof fn lemma_lines_single(s: Seq<char>)
    ensures
        all_single_lines(lines(s)),
{
    lemma_split_shape(s);
    let segs = split_on_newlines(s);
    let body = segs.drop_last().map_values(|l: Seq<char>| strip_cr(l));
    assert forall|j: int| 0 <= j < body.len() implies !(#[trigger] body[j]).contains('\n') by {
        let seg = segs[j];
        assert(!seg.contains('\n'));
        if body[j].contains('\n') {
            let k = choose|k: int| 0 <= k < body[j].len() && body[j][k] == '\n';
            assert(seg[k] == '\n');
        }
    }
    if segs.last().len() != 0 {
        let r = body.push(segs.last());
        assert forall|j: int| 0 <= j < r.len() implies !(#[trigger] r[j]).contains('\n') by {
            if j < body.len() {
                assert(r[j] == body[j]);
            } else {
                assert(r[j] == segs[segs.len() - 1]);
            }
        }
    }
}

/// Dropping the empty members keeps every member free of `'\n'`.
pub proof fn lemma_drop_empty_single(ls: Seq<Seq<char>>)
    requires
        all_single_lines(ls),
    ensures
        all_single_lines(drop_empty(ls)),
    decreases ls.len(),
{
    if ls.len() > 0 {
        assert(all_single_lines(ls.drop_last())) by {
            assert forall|j: int| 0 <= j < ls.drop_last().len() implies !(
            #[trigger] ls.drop_last()[j]).contains('\n') by {
                assert(ls.drop_last()[j] == ls[j]);
            }
        }
        lemma_drop_empty_single(ls.drop_last());
        let init = drop_empty(ls.drop_last());
        if ls.last().len() != 0 {
            let r = init.push(ls.last());
            assert forall|j: int| 0 <= j < r.len() implies !(#[trigger] r[j]).contains('\n') by {
                if j < init.len() {
                    assert(r[j] == init[j]);
                } else {
                    assert(r[j] == ls[ls.len() - 1]);
                }
            }
        }
    }
}

/// Joining `'\n'`-free parts with a `'\n'`-free separator gives a `'\n'`-free text.
pub proof fn lemma_join_single(parts: Seq<Seq<char>>, sep: Seq<char>)
    requires
        all_single_lines(parts),
        !sep.contains('\n'),
    ensures
        !join(parts, sep).contains('\n'),
    decreases parts.len(),
{
    if parts.len() == 1 {
        assert(!parts[0].contains('\n'));
    } else if parts.len() > 1 {
        assert(all_single_lines(parts.drop_last())) by {
            assert forall|j: int| 0 <= j < parts.drop_last().len() implies !(
            #[trigger] parts.drop_last()[j]).contains('\n') by {
                assert(parts.drop_last()[j] == parts[j]);
            }
        }
        lemma_join_single(parts.drop_last(), sep);
        let a = join(parts.drop_last(), sep);
        let b = parts[parts.len() - 1];
        assert(!b.contains('\n'));
        let r = a + sep + b;
        if r.contains('\n') {
            let k = choose|k: int| 0 <= k < r.len() && r[k] == '\n';
            if k < a.len() {
                assert(a[k] == '\n');
            } else if k < a.len() + sep.len() {
                assert(sep[k - a.len()] == '\n');
            } else {
                assert(b[k - a.len() - sep.len()] == '\n');
            }
        }
    }
}

/// Folding a text onto one line leaves no `'\n'` in it.
pub proof fn lemma_collapse_newlines_one_line(s: Seq<char>)
    ensures
        !collapse_newlines(s).contains('\n'),
{
    if s.contains('\n') || s.contains('\r') {
        lemma_lines_single(s);
        lemma_drop_empty_single(lines(s));
        lemma_join_single(drop_empty(lines(s)), seq![' ']);
    }
}

/// An escaped line holds no `'\n'` and opens with none of the starts that it
/// was escaped against, provided none of them is empty or opens with a space.
pub proof fn lemma_escape_line_clean(line: Seq<char>, starts: Seq<Seq<char>>)
    requires
        starts_are_visible(starts),
    ensures
        !escape_line(line, starts).contains('\n'),
        !starts_with_any_of(escape_line(line, starts), starts),
{
    lemma_split_shape(line);
    let seg = split_on_newlines(line)[0];
    let special = starts_with_any_of(line, starts);
    assert(!seg.contains('\n'));
    if !line.contains('\n') && !special {
    } else if special {
        let r = seq![' '] + seg;
        assert(!r.contains('\n')) by {
            if r.contains('\n') {
                let k = choose|k: int| 0 <= k < r.len() && r[k] == '\n';
                assert(k > 0);
                assert(seg[k - 1] == '\n');
            }
        }
        assert forall|i: int| 0 <= i < starts.len() implies !starts_with(r, #[trigger] starts[i]) by {
            if starts_with(r, starts[i]) {
                assert(r.subrange(0, starts[i].len() as int)[0] == r[0]);
            }
        }
    } else {
        assert forall|i: int| 0 <= i < starts.len() implies !starts_with(seg, #[trigger] starts[i]) by {
            if starts_with(seg, starts[i]) {
                lemma_starts_with_prefix(line, seg, starts[i]);
            }
        }
    }
}

/// Appending a `'\n'`-free text extends the last piece of a split.
pub proof fn lemma_split_append_line(x: Seq<char>, t: Seq<char>)
    requires
        !t.contains('\n'),
    ensures
        split_on_newlines(x + t) == split_on_newlines(x).update(
            split_on_newlines(x).len() - 1,
            split_on_newlines(x).last() + t,
        ),
    decreases t.len(),
{
    lemma_split_shape(x);
    let sx = split_on_newlines(x);
    if t.len() == 0 {
        assert(x + t =~= x);
        assert(sx.last() + t =~= sx.last());
        assert(sx.update(sx.len() - 1, sx.last() + t) =~= sx);
    } else {
        let c = t.last();
        assert(c != '\n') by {
            assert(t[t.len() - 1] == c);
        }
        assert(!t.drop_last().contains('\n')) by {
            if t.drop_last().contains('\n') {
                let k = choose|k: int| 0 <= k < t.drop_last().len() && t.drop_last()[k] == '\n';
                assert(t[k] == '\n');
            }
        }
        lemma_split_append_line(x, t.drop_last());
        assert((x + t).drop_last() =~= x + t.drop_last());
        assert((x + t).last() == c);
        assert((sx.last() + t.drop_last()).push(c) =~= sx.last() + t);
        assert(split_on_newlines(x + t) =~= sx.update(sx.len() - 1, sx.last() + t));
    }
}

/// Texts of one line each, each followed by a newline.
pub open spec fn newline_terminated(ls: Seq<Seq<char>>) -> Seq<char>
    decreases ls.len(),
{
    if ls.len() == 0 {
        Seq::empty()
    } else {
        newline_terminated(ls.drop_last()) + ls.last() + seq!['\n']
    }
}

/// Lines of one line each, each followed by a newline, split back at the
/// newlines into themselves and the empty rest.
pub proof fn lemma_split_newline_terminated(ls: Seq<Seq<char>>)
    requires
        all_single_lines(ls),
    ensures
        split_on_newlines(newline_terminated(ls)) == ls.push(Seq::<char>::empty()),
    decreases ls.len(),
{
    if ls.len() == 0 {
        assert(split_on_newlines(Seq::<char>::empty()) =~= seq![Seq::<char>::empty()]);
        assert(ls.push(Seq::<char>::empty()) =~= seq![Seq::<char>::empty()]);
    } else {
        let init = ls.drop_last();
        assert(all_single_lines(init)) by {
            assert forall|j: int| 0 <= j < init.len() implies !(#[trigger] init[j]).contains(
                '\n',
            ) by {
                assert(init[j] == ls[j]);
            }
        }
        lemma_split_newline_terminated(init);
        let r = newline_terminated(init);
        let last = ls[ls.len() - 1];
        assert(!last.contains('\n'));
        lemma_split_append_line(r, last);
        let sr = split_on_newlines(r);
        assert(sr.last() + last =~= last);
        assert(sr.update(sr.len() - 1, last) =~= ls);
        let y = r + last;
        assert(newline_terminated(ls) =~= y.push('\n'));
        assert(y.push('\n').drop_last() =~= y);
        assert(split_on_newlines(y.push('\n')) =~= split_on_newlines(y).push(Seq::<char>::empty()));
    }
}

/// Appending newline-terminated lines distributes over concatenation.
pub proof fn lemma_newline_terminated_append(a: Seq<Seq<char>>, b: Seq<Seq<char>>)
    ensures
        newline_terminated(a + b) == newline_terminated(a) + newline_terminated(b),
    decreases b.len(),
{
    if b.len() == 0 {
        assert(a + b =~= a);
        assert(newline_terminated(a) + newline_terminated(b) =~= newline_terminated(a));
    } else {
        lemma_newline_terminated_append(a, b.drop_last());
        assert((a + b).drop_last() =~= a + b.drop_last());
        assert((a + b).last() == b.last());
        assert(newline_terminated(a + b) =~= newline_terminated(a) + newline_terminated(b));
    }
}

/// Escaping a line that is already escaped changes nothing.
pub proof fn lemma_escape_line_idempotent(line: Seq<char>, starts: Seq<Seq<char>>)
    requires
        starts_are_visible(starts),
    ensures
        escape_line(escape_line(line, starts), starts) == escape_line(line, starts),
{
    lemma_escape_line_clean(line, starts);
}

/// Folding a text that is already folded onto one line changes nothing.
pub proof fn lemma_collapse_newlines_idempotent(s: Seq<char>)
    ensures
        collapse_newlines(collapse_newlines(s)) == collapse_newlines(s),
{
    let c = collapse_newlines(s);
    lemma_collapse_newlines_one_line(s);
    if c.contains('\r') {
        lemma_split_single(c);
        let segs = split_on_newlines(c);
        assert(segs.drop_last() =~= Seq::<Seq<char>>::empty());
        assert(c.len() > 0);
        assert(lines(c) =~= seq![c]);
        let one = seq![c];
        assert(one.drop_last() =~= Seq::<Seq<char>>::empty());
        assert(drop_empty(one.drop_last()) =~= Seq::<Seq<char>>::empty());
        assert(drop_empty(one) =~= seq![c]);
    }
}

/// A one-line text is escaped by a leading space exactly when it opens
/// with one of the starts, and is kept as it is otherwise.
pub proof fn lemma_escape_single_line(line: Seq<char>, starts: Seq<Seq<char>>)
    requires
        !line.contains('\n'),
    ensures
        escape_line(line, starts) == if starts_with_any_of(line, starts) {
            seq![' '] + line
        } else {
            line
        },
{
    lemma_split_single(line);
    assert(seq![line][0] == line);
}

/// A character that `s` does not hold is in none of its pieces.
pub proof fn lemma_split_avoids(s: Seq<char>, c: char)
    requires
        c != '\n',
        !s.contains(c),
    ensures
        forall|j: int|
            0 <= j < split_on_newlines(s).len() ==> !(#[trigger] split_on_newlines(s)[j]).contains(c),
    decreases s.len(),
{
    lemma_split_shape(s);
    if s.len() > 0 {
        assert(!s.drop_last().contains(c)) by {
            if s.drop_last().contains(c) {
                let k = choose|k: int| 0 <= k < s.drop_last().len() && s.drop_last()[k] == c;
                assert(s[k] == c);
            }
        }
        lemma_split_avoids(s.drop_last(), c);
        lemma_split_shape(s.drop_last());
        let init = split_on_newlines(s.drop_last());
        let r = split_on_newlines(s);
        assert(s[s.len() - 1] == s.last());
        if s.last() == '\n' {
            assert forall|j: int| 0 <= j < r.len() implies !(#[trigger] r[j]).contains(c) by {
                if j < init.len() {
                    assert(r[j] == init[j]);
                } else {
                    assert(r[j] == Seq::<char>::empty());
                }
            }
        } else {
            let last = init.last().push(s.last());
            assert forall|j: int| 0 <= j < r.len() implies !(#[trigger] r[j]).contains(c) by {
                if j < init.len() - 1 {
                    assert(r[j] == init[j]);
                } else {
                    assert(r[j] == last);
                    assert(!init[init.len() - 1].contains(c));
                    if last.contains(c) {
                        let k = choose|k: int| 0 <= k < last.len() && last[k] == c;
                        if k < last.len() - 1 {
                            assert(init.last()[k] == c);
                        }
                    }
                }
            }
        }
    }
}

/// Joining the pieces of a split with `'\n'` gives back the text.
pub proof fn lemma_join_split(s: Seq<char>)
    ensures
        join(split_on_newlines(s), seq!['\n']) == s,
    decreases s.len(),
{
    if s.len() == 0 {
        assert(split_on_newlines(s) =~= seq![Seq::<char>::empty()]);
        assert(seq![Seq::<char>::empty()][0] == Seq::<char>::empty());
        assert(s =~= Seq::<char>::empty());
    } else {
        lemma_join_split(s.drop_last());
        lemma_split_shape(s.drop_last());
        let init = split_on_newlines(s.drop_last());
        let r = split_on_newlines(s);
        if s.last() == '\n' {
            assert(r.drop_last() =~= init);
            assert(r.last() == Seq::<char>::empty());
            assert(join(r, seq!['\n']) =~= s.drop_last() + seq!['\n']);
            assert(s.drop_last() + seq!['\n'] =~= s);
        } else {
            let last = init.last().push(s.last());
            if init.len() == 1 {
                assert(r.len() == 1);
                assert(r[0] == last);
                assert(join(init, seq!['\n']) == init[0]);
                assert(last =~= s);
            } else {
                assert(r.drop_last() =~= init.drop_last());
                assert(r.last() == last);
                assert(join(init, seq!['\n']) == join(init.drop_last(), seq!['\n']) + seq!['\n']
                    + init.last());
                assert(join(r, seq!['\n']) =~= join(init, seq!['\n']).push(s.last()));
                assert(s.drop_last().push(s.last()) =~= s);
            }
        }
    }
}

/// The lines of a text without carriage returns are its pieces between
/// newlines, empty ones included: joined with `'\n'` (and a final `'\n'`
/// where the text ends with one) they give back the text, none of them holds
/// a newline, an empty text has no line and any other text at least one.
pub proof fn lemma_lines_rejoin(s: Seq<char>)
    requires
        !s.contains('\r'),
    ensures
        all_single_lines(lines(s)),
        s.len() == 0 ==> lines(s).len() == 0,
        s.len() > 0 ==> lines(s).len() >= 1,
        s.len() > 0 && s.last() == '\n' ==> join(lines(s), seq!['\n']) + seq!['\n'] == s,
        s.len() == 0 || s.last() != '\n' ==> join(lines(s), seq!['\n']) == s,
{
    lemma_lines_single(s);
    lemma_split_shape(s);
    lemma_split_avoids(s, '\r');
    lemma_join_split(s);
    let segs = split_on_newlines(s);
    let body = segs.drop_last().map_values(|l: Seq<char>| strip_cr(l));
    assert(body =~= segs.drop_last()) by {
        assert forall|j: int| 0 <= j < body.len() implies body[j] == segs.drop_last()[j] by {
            assert(!segs[j].contains('\r'));
            if segs[j].len() > 0 {
                assert(segs[j][segs[j].len() - 1] == segs[j].last());
            }
        }
    }
    if segs.last().len() == 0 {
        assert(lines(s) =~= segs.drop_last());
        if s.len() == 0 {
            assert(segs.len() == 1) by {
                assert(segs =~= seq![Seq::<char>::empty()]);
            }
        } else {
            assert(segs.len() >= 2) by {
                if segs.len() == 1 {
                    assert(segs[0] == s);
                }
            }
            assert(join(segs, seq!['\n']) =~= join(segs.drop_last(), seq!['\n']) + seq!['\n']);
            // the last piece is empty, so the text ends with the newline before it
            assert(s.last() == '\n') by {
                assert(s =~= join(segs.drop_last(), seq!['\n']) + seq!['\n']);
                assert(s[s.len() - 1] == '\n');
            }
        }
    } else {
        assert(lines(s) =~= segs);
        if s.len() > 0 && s.last() == '\n' {
            // then the last piece would be empty
            assert(s.drop_last().push('\n') =~= s);
            assert(false);
        }
    }
}

// ---------------------------------------------------------------------------
// Executable code
// ---------------------------------------------------------------------------

/// Whether `c` occurs in `s`.
pub(crate) fn contains_char(s: &str, c: char) -> (res: bool)
    ensures
        res == s@.contains(c),
{
    let n = s.unicode_len();
    let mut i: usize = 0;
    while i < n
        invariant
            n == s@.len(),
            i <= n,
            forall|k: int| 0 <= k < i ==> s@[k] != c,
        decreases n - i,
    {
        if s.get_char(i) == c {
            return true;
        }
        i += 1;
    }
    false
}

/// Whether `s` opens with `prefix`.
pub(crate) fn starts_with_str(s: &str, prefix: &str) -> (res: bool)
    ensures
        res == starts_with(s@, prefix@),
{
    let n = s.unicode_len();
    let m = prefix.unicode_len();
    if m > n {
        return false;
    }
    let mut i: usize = 0;
    while i < m
        invariant
            n == s@.len(),
            m == prefix@.len(),
            m <= n,
            i <= m,
            forall|k: int| 0 <= k < i ==> s@[k] == prefix@[k],
        decreases m - i,
    {
        if s.get_char(i) != prefix.get_char(i) {
            assert(s@.subrange(0, m as int)[i as int] != prefix@[i as int]);
            return false;
        }
        i += 1;
    }
    assert(s@.subrange(0, m as int) =~= prefix@);
    true
}

/// Whether `s` opens with one of `starts`.
pub(crate) fn starts_with_any(s: &str, starts: &[&str]) -> (res: bool)
    ensures
        res == starts_with_any_of(s@, starts@.map_values(|p: &str| p@)),
{
    let ghost views = starts@.map_values(|p: &str| p@);
    let mut i: usize = 0;
    while i < starts.len()
        invariant
            i <= starts@.len(),
            views == starts@.map_values(|p: &str| p@),
            forall|k: int| 0 <= k < i ==> !starts_with(s@, #[trigger] views[k]),
        decreases starts@.len() - i,
    {
        if starts_with_str(s, starts[i]) {
            assert(starts_with(s@, views[i as int]));
            return true;
        }
        i += 1;
    }
    false
}

/// The pieces of `s` between its `'\n'` characters.
pub(crate) fn split_newlines(s: &str) -> (res: Vec<String>)
    ensures
        res.deep_view() == split_on_newlines(s@),
{
    let n = s.unicode_len();
    let mut pieces: Vec<String> = Vec::new();
    let mut start: usize = 0;
    let mut i: usize = 0;
    assert(s@.subrange(0, 0) =~= Seq::<char>::empty());
    assert(pieces.deep_view().push(s@.subrange(0, 0)) =~= seq![Seq::<char>::empty()]);
    while i < n
        invariant
            n == s@.len(),
            start <= i <= n,
            pieces.deep_view().push(s@.subrange(start as int, i as int)) == split_on_newlines(
                s@.subrange(0, i as int),
            ),
        decreases n - i,
    {
        let ghost before = pieces.deep_view();
        assert(s@.subrange(0, i + 1).drop_last() =~= s@.subrange(0, i as int));
        assert(s@.subrange(0, i + 1).last() == s@[i as int]);
        if s.get_char(i) == '\n' {
            let piece = String::from_str(s.substring_char(start, i));
            pieces.push(piece);
            start = i + 1;
            assert(pieces.deep_view() =~= before.push(piece@));
            assert(s@.subrange(start as int, (i + 1) as int) =~= Seq::<char>::empty());
            assert(pieces.deep_view().push(s@.subrange(start as int, (i + 1) as int))
                =~= split_on_newlines(s@.subrange(0, i + 1)));
        } else {
            assert(s@.subrange(start as int, (i + 1) as int) =~= s@.subrange(
                start as int,
                i as int,
            ).push(s@[i as int]));
            assert(pieces.deep_view().push(s@.subrange(start as int, (i + 1) as int))
                =~= split_on_newlines(s@.subrange(0, i + 1)));
        }
        i += 1;
    }
    let ghost before = pieces.deep_view();
    let last = String::from_str(s.substring_char(start, n));
    pieces.push(last);
    assert(pieces.deep_view() =~= before.push(last@));
    assert(s@.subrange(0, n as int) =~= s@);
    pieces
}

/// `line` without one trailing carriage return.
fn strip_cr_str(line: &str) -> (res: String)
    ensures
        res@ == strip_cr(line@),
{
    let n = line.unicode_len();
    if n > 0 && line.get_char(n - 1) == '\r' {
        let res = String::from_str(line.substring_char(0, n - 1));
        assert(line@.subrange(0, n - 1) =~= line@.drop_last());
        res
    } else {
        String::from_str(line)
    }
}

/// The lines of `s`, as `str::lines` yields them.
pub(crate) fn text_lines(s: &str) -> (res: Vec<String>)
    ensures
        res.deep_view() == lines(s@),
{
    let segs = split_newlines(s);
    proof {
        lemma_split_shape(s@);
    }
    let k = segs.len();
    let ghost sv = segs.deep_view();
    assert(sv.len() == k);
    let mut out: Vec<String> = Vec::new();
    let mut j: usize = 0;
    while j + 1 < k
        invariant
            k == segs@.len(),
            k >= 1,
            sv == segs.deep_view(),
            j + 1 <= k,
            out.deep_view() =~= sv.subrange(0, j as int).map_values(|l: Seq<char>| strip_cr(l)),
        decreases k - j,
    {
        let ghost before = out.deep_view();
        let line = strip_cr_str(segs[j].as_str());
        out.push(line);
        assert(sv[j as int] == segs@[j as int]@);
        assert(out.deep_view() =~= before.push(line@));
        j += 1;
        assert(sv.subrange(0, j as int).map_values(|l: Seq<char>| strip_cr(l)) =~= before.push(
            strip_cr(sv[j - 1]),
        ));
    }
    assert(sv.subrange(0, j as int) =~= sv.drop_last());
    let last = segs[k - 1].as_str();
    assert(last@ == sv.last());
    if last.unicode_len() > 0 {
        let ghost before = out.deep_view();
        let l = String::from_str(last);
        out.push(l);
        assert(out.deep_view() =~= before.push(l@));
    }
    out
}

/// `line` made to stand as one line that none of `escape_starts` opens.
pub(crate) fn lossy_escaped_line(line: &str, escape_starts: &[&str]) -> (res: String)
    ensures
        res@ == escape_line(line@, escape_starts@.map_values(|p: &str| p@)),
{
    let contains_newline = contains_char(line, '\n');
    let has_special_start = starts_with_any(line, escape_starts);

    if !contains_newline && !has_special_start {
        return String::from_str(line);
    }
    let mut escaped = String::new();
    if has_special_start {
        escaped.append(" ");
        proof {
            reveal_strlit(" ");
        }
    }
    let pieces = split_newlines(line);
    proof {
        lemma_split_shape(line@);
    }
    assert(pieces@[0]@ == split_on_newlines(line@)[0]);
    escaped.append(pieces[0].as_str());
    escaped
}

/// The members of `parts` joined by single spaces.
#[verifier::external_body]
fn join_with_space(parts: &Vec<String>) -> (res: String)
    ensures
        res@ == join(parts.deep_view(), seq![' ']),
{
    parts.iter().join(" ")
}

/// `text` folded onto one line.
pub(crate) fn strip_newlines(text: &str) -> (res: String)
    ensures
        res@ == collapse_newlines(text@),
{
    let has_cr = contains_char(text, '\r');
    let has_lf = contains_char(text, '\n');
    if !has_cr && !has_lf {
        return String::from_str(text);
    }
    let all = text_lines(text);
    let ghost lv = all.deep_view();
    let mut kept: Vec<String> = Vec::new();
    let mut j: usize = 0;
    assert(lv.subrange(0, 0) =~= Seq::<Seq<char>>::empty());
    while j < all.len()
        invariant
            lv == all.deep_view(),
            j <= all@.len(),
            kept.deep_view() == drop_empty(lv.subrange(0, j as int)),
        decreases all@.len() - j,
    {
        let ghost before = kept.deep_view();
        assert(lv.subrange(0, j + 1).drop_last() =~= lv.subrange(0, j as int));
        assert(lv[j as int] == all@[j as int]@);
        let part = all[j].as_str();
        if part.unicode_len() > 0 {
            let p = String::from_str(part);
            kept.push(p);
            assert(kept.deep_view() =~= before.push(p@));
        }
        j += 1;
    }
    assert(lv.subrange(0, j as int) =~= lv);
    join_with_space(&kept)
}

} // verus!
