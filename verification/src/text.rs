//! Splitting and joining of character sequences.
//!
//! The codec works line by line and word by word, so everything here is
//! phrased over `Seq<char>`: splitting at a separator character (or at any
//! whitespace character), joining with a separator, and the lemmas that make
//! the two inverse to each other.

use vstd::prelude::*;

verus! {

/// The predicate "is exactly the character `sep`", as a spec closure.
pub open spec fn char_eq_pred(sep: char) -> spec_fn(char) -> bool {
    |c: char| c == sep
}

/// Whether `c` is a Unicode whitespace character (the set recognised by
/// `char::is_whitespace`).
pub open spec fn is_ws_char(c: char) -> bool {
    let u = c as int;
    u == 9 || u == 10 || u == 11 || u == 12 || u == 13 || u == 32 || u == 0x85 || u == 0xA0
        || u == 0x1680 || (0x2000 <= u && u <= 0x200A) || u == 0x2028 || u == 0x2029 || u == 0x202F
        || u == 0x205F || u == 0x3000
}

/// The whitespace predicate as a spec closure.
pub open spec fn ws_pred() -> spec_fn(char) -> bool {
    |c: char| is_ws_char(c)
}

/// The predicate "is a non-empty sequence", as a spec closure.
pub open spec fn nonempty_pred() -> spec_fn(Seq<char>) -> bool {
    |w: Seq<char>| w.len() > 0
}

/// No character of `s` satisfies `p`.
pub open spec fn seq_clean(s: Seq<char>, p: spec_fn(char) -> bool) -> bool {
    forall|j: int| 0 <= j < s.len() ==> !p(s[j])
}

/// No character of any element of `ps` satisfies `p`.
pub open spec fn parts_clean(ps: Seq<Seq<char>>, p: spec_fn(char) -> bool) -> bool {
    forall|i: int| 0 <= i < ps.len() ==> seq_clean(#[trigger] ps[i], p)
}

/// Split `s` at every character satisfying `p`. The separators themselves are
/// dropped; `n` separators yield `n + 1` (possibly empty) parts.
pub open spec fn split_on(s: Seq<char>, p: spec_fn(char) -> bool) -> Seq<Seq<char>>
    decreases s.len(),
{
    if s.len() == 0 {
        seq![Seq::<char>::empty()]
    } else {
        let rest = split_on(s.drop_last(), p);
        if p(s.last()) {
            rest.push(Seq::<char>::empty())
        } else {
            rest.update(rest.len() - 1, rest.last().push(s.last()))
        }
    }
}

/// Join the parts with a single `sep` between consecutive parts.
pub open spec fn join_with(ps: Seq<Seq<char>>, sep: char) -> Seq<char>
    decreases ps.len(),
{
    if ps.len() == 0 {
        Seq::<char>::empty()
    } else if ps.len() == 1 {
        ps[0]
    } else {
        join_with(ps.drop_last(), sep) + seq![sep] + ps.last()
    }
}

/// How many characters of `s` satisfy `p`.
pub open spec fn count_matching(s: Seq<char>, p: spec_fn(char) -> bool) -> nat
    decreases s.len(),
{
    if s.len() == 0 {
        0
    } else {
        count_matching(s.drop_last(), p) + if p(s.last()) {
            1nat
        } else {
            0nat
        }
    }
}

/// Splitting yields one part more than there are separators; in particular
/// the result is never empty.
pub proof fn lemma_split_on_len(s: Seq<char>, p: spec_fn(char) -> bool)
    ensures
        split_on(s, p).len() == count_matching(s, p) + 1,
    decreases s.len(),
{
    if s.len() > 0 {
        lemma_split_on_len(s.drop_last(), p);
    }
}

/// No part produced by `split_on(s, p)` contains a character satisfying `p`.
pub proof fn lemma_split_on_clean(s: Seq<char>, p: spec_fn(char) -> bool)
    ensures
        parts_clean(split_on(s, p), p),
    decreases s.len(),
{
    if s.len() > 0 {
        lemma_split_on_clean(s.drop_last(), p);
        lemma_split_on_len(s.drop_last(), p);
        let rest = split_on(s.drop_last(), p);
        if p(s.last()) {
            assert(forall|i: int|
                0 <= i < rest.push(Seq::<char>::empty()).len() ==> seq_clean(
                    #[trigger] rest.push(Seq::<char>::empty())[i],
                    p,
                ));
        } else {
            let upd = rest.update(rest.len() - 1, rest.last().push(s.last()));
            assert(seq_clean(rest.last().push(s.last()), p));
            assert(forall|i: int| 0 <= i < upd.len() ==> seq_clean(#[trigger] upd[i], p));
        }
    }
}

/// Splitting keeps every part clean of any predicate the whole sequence was
/// clean of.
pub proof fn lemma_split_on_preserves_clean(
    s: Seq<char>,
    p: spec_fn(char) -> bool,
    q: spec_fn(char) -> bool,
)
    requires
        seq_clean(s, q),
    ensures
        parts_clean(split_on(s, p), q),
    decreases s.len(),
{
    if s.len() > 0 {
        assert(seq_clean(s.drop_last(), q));
        lemma_split_on_preserves_clean(s.drop_last(), p, q);
        lemma_split_on_len(s.drop_last(), p);
        let rest = split_on(s.drop_last(), p);
        if p(s.last()) {
            assert(forall|i: int|
                0 <= i < rest.push(Seq::<char>::empty()).len() ==> seq_clean(
                    #[trigger] rest.push(Seq::<char>::empty())[i],
                    q,
                ));
        } else {
            let upd = rest.update(rest.len() - 1, rest.last().push(s.last()));
            assert(!q(s.last()));
            assert(seq_clean(rest.last().push(s.last()), q));
            assert(forall|i: int| 0 <= i < upd.len() ==> seq_clean(#[trigger] upd[i], q));
        }
    }
}

/// A sequence with no separator in it splits into exactly itself.
pub proof fn lemma_split_on_no_sep(s: Seq<char>, p: spec_fn(char) -> bool)
    requires
        seq_clean(s, p),
    ensures
        split_on(s, p) == seq![s],
    decreases s.len(),
{
    if s.len() == 0 {
        assert(s =~= Seq::<char>::empty());
        assert(split_on(s, p) =~= seq![s]);
    } else {
        assert(seq_clean(s.drop_last(), p));
        lemma_split_on_no_sep(s.drop_last(), p);
        assert(!p(s.last()));
        let rest = split_on(s.drop_last(), p);
        assert(rest == seq![s.drop_last()]);
        assert(rest.update(0, s.drop_last().push(s.last())) =~= seq![s.drop_last().push(s.last())]);
        assert(s.drop_last().push(s.last()) =~= s);
    }
}

/// Joining the parts of a split restores the original sequence, provided the
/// split predicate holds of exactly the join separator.
pub proof fn lemma_join_split(s: Seq<char>, p: spec_fn(char) -> bool, sep: char)
    requires
        forall|c: char| #[trigger] p(c) <==> c == sep,
    ensures
        join_with(split_on(s, p), sep) == s,
    decreases s.len(),
{
    if s.len() == 0 {
        assert(join_with(split_on(s, p), sep) =~= s);
    } else {
        lemma_join_split(s.drop_last(), p, sep);
        lemma_split_on_len(s.drop_last(), p);
        let rest = split_on(s.drop_last(), p);
        if p(s.last()) {
            let whole = rest.push(Seq::<char>::empty());
            assert(whole.len() >= 2);
            assert(whole.drop_last() =~= rest);
            assert(whole.last() =~= Seq::<char>::empty());
            assert(join_with(whole, sep) == join_with(rest, sep) + seq![sep]
                + Seq::<char>::empty());
            assert(s.last() == sep);
            assert(join_with(whole, sep) =~= s);
        } else {
            let upd = rest.update(rest.len() - 1, rest.last().push(s.last()));
            if rest.len() == 1 {
                assert(upd =~= seq![rest[0].push(s.last())]);
                assert(join_with(upd, sep) == rest[0].push(s.last()));
                assert(join_with(rest, sep) == rest[0]);
                assert(join_with(upd, sep) =~= s);
            } else {
                assert(upd.len() == rest.len());
                assert(upd.drop_last() =~= rest.drop_last());
                assert(upd.last() == rest.last().push(s.last()));
                assert(join_with(upd, sep) == join_with(rest.drop_last(), sep) + seq![sep]
                    + rest.last().push(s.last()));
                assert(join_with(rest, sep) == join_with(rest.drop_last(), sep) + seq![sep]
                    + rest.last());
                assert(join_with(upd, sep) =~= join_with(rest, sep).push(s.last()));
                assert(join_with(rest, sep).push(s.last()) =~= s);
            }
        }
    }
}

/// Splitting `a ++ [sep] ++ b`, where `b` is clean, appends `b` as one more
/// part after the parts of `a`.
pub proof fn lemma_split_append_clean_right(
    a: Seq<char>,
    b: Seq<char>,
    sep: char,
    p: spec_fn(char) -> bool,
)
    requires
        p(sep),
        seq_clean(b, p),
    ensures
        split_on(a + seq![sep] + b, p) == split_on(a, p).push(b),
    decreases b.len(),
{
    lemma_split_on_len(a, p);
    if b.len() == 0 {
        let s = a + seq![sep] + b;
        assert(s =~= a.push(sep));
        assert(s.len() > 0);
        assert(s.drop_last() =~= a);
        assert(s.last() == sep);
        assert(split_on(s, p) == split_on(a, p).push(Seq::<char>::empty()));
        assert(b =~= Seq::<char>::empty());
    } else {
        assert(seq_clean(b.drop_last(), p));
        lemma_split_append_clean_right(a, b.drop_last(), sep, p);
        let s = a + seq![sep] + b;
        let s0 = a + seq![sep] + b.drop_last();
        assert(s.len() > 0);
        assert(s.drop_last() =~= s0);
        assert(s.last() == b.last());
        assert(!p(s.last()));
        let rest = split_on(s0, p);
        assert(rest == split_on(a, p).push(b.drop_last()));
        lemma_split_on_len(s0, p);
        assert(split_on(s, p) == rest.update(rest.len() - 1, rest.last().push(b.last())));
        assert(rest.last() == b.drop_last());
        assert(b.drop_last().push(b.last()) =~= b);
        assert(rest.update(rest.len() - 1, b) =~= split_on(a, p).push(b));
    }
}

/// Splitting `a ++ [sep] ++ b`, where `a` is clean, prepends `a` as one part
/// before the parts of `b`.
pub proof fn lemma_split_append_clean_left(
    a: Seq<char>,
    b: Seq<char>,
    sep: char,
    p: spec_fn(char) -> bool,
)
    requires
        p(sep),
        seq_clean(a, p),
    ensures
        split_on(a + seq![sep] + b, p) == seq![a] + split_on(b, p),
    decreases b.len(),
{
    if b.len() == 0 {
        let s = a + seq![sep] + b;
        assert(s =~= a.push(sep));
        assert(s.drop_last() =~= a);
        assert(s.last() == sep);
        lemma_split_on_no_sep(a, p);
        assert(split_on(s, p) == seq![a].push(Seq::<char>::empty()));
        assert(split_on(b, p) == seq![Seq::<char>::empty()]);
        assert(seq![a].push(Seq::<char>::empty()) =~= seq![a] + split_on(b, p));
    } else {
        lemma_split_append_clean_left(a, b.drop_last(), sep, p);
        let s = a + seq![sep] + b;
        let s0 = a + seq![sep] + b.drop_last();
        assert(s.len() > 0);
        assert(s.drop_last() =~= s0);
        assert(s.last() == b.last());
        let rest = split_on(s0, p);
        assert(rest == seq![a] + split_on(b.drop_last(), p));
        lemma_split_on_len(b.drop_last(), p);
        lemma_split_on_len(s0, p);
        let inner = split_on(b.drop_last(), p);
        if p(b.last()) {
            assert(split_on(s, p) == rest.push(Seq::<char>::empty()));
            assert(split_on(b, p) == inner.push(Seq::<char>::empty()));
            assert(rest.push(Seq::<char>::empty()) =~= seq![a] + inner.push(
                Seq::<char>::empty(),
            ));
        } else {
            assert(split_on(s, p) == rest.update(rest.len() - 1, rest.last().push(b.last())));
            assert(split_on(b, p) == inner.update(inner.len() - 1, inner.last().push(b.last())));
            assert(rest.last() == inner.last());
            assert(rest.update(rest.len() - 1, rest.last().push(b.last())) =~= seq![a]
                + inner.update(inner.len() - 1, inner.last().push(b.last())));
        }
    }
}

/// Splitting a join restores the parts, provided every part is clean and the
/// separator satisfies the split predicate.
pub proof fn lemma_split_join(ps: Seq<Seq<char>>, sep: char, p: spec_fn(char) -> bool)
    requires
        ps.len() >= 1,
        parts_clean(ps, p),
        p(sep),
    ensures
        split_on(join_with(ps, sep), p) == ps,
    decreases ps.len(),
{
    if ps.len() == 1 {
        assert(join_with(ps, sep) == ps[0]);
        lemma_split_on_no_sep(ps[0], p);
        assert(seq![ps[0]] =~= ps);
    } else {
        assert(parts_clean(ps.drop_last(), p));
        lemma_split_join(ps.drop_last(), sep, p);
        assert(join_with(ps, sep) == join_with(ps.drop_last(), sep) + seq![sep] + ps.last());
        assert(seq_clean(ps.last(), p));
        lemma_split_append_clean_right(join_with(ps.drop_last(), sep), ps.last(), sep, p);
        assert(split_on(join_with(ps, sep), p) == ps.drop_last().push(ps.last()));
        assert(ps.drop_last().push(ps.last()) =~= ps);
    }
}

/// Unfolding of `join_with` at a pushed part.
pub proof fn lemma_join_push(ps: Seq<Seq<char>>, x: Seq<char>, sep: char)
    ensures
        ps.len() == 0 ==> join_with(ps.push(x), sep) == x,
        ps.len() > 0 ==> join_with(ps.push(x), sep) == join_with(ps, sep) + seq![sep] + x,
{
    let whole = ps.push(x);
    if ps.len() == 0 {
        assert(join_with(whole, sep) == whole[0]);
    } else {
        assert(whole.len() >= 2);
        assert(whole.drop_last() =~= ps);
        assert(whole.last() == x);
    }
}

/// A join is clean of `q` when every part is and the separator is not a
/// `q`-character.
pub proof fn lemma_join_clean(ps: Seq<Seq<char>>, sep: char, q: spec_fn(char) -> bool)
    requires
        parts_clean(ps, q),
        !q(sep),
    ensures
        seq_clean(join_with(ps, sep), q),
    decreases ps.len(),
{
    if ps.len() == 0 {
    } else if ps.len() == 1 {
        assert(seq_clean(ps[0], q));
    } else {
        assert(parts_clean(ps.drop_last(), q));
        lemma_join_clean(ps.drop_last(), sep, q);
        assert(seq_clean(ps.last(), q));
        let j = join_with(ps.drop_last(), sep) + seq![sep] + ps.last();
        assert(seq_clean(j, q));
    }
}

/// A join of at least two parts is non-empty.
pub proof fn lemma_join_len(ps: Seq<Seq<char>>, sep: char)
    ensures
        ps.len() >= 2 ==> join_with(ps, sep).len() >= 1,
{
    if ps.len() >= 2 {
        assert(join_with(ps, sep).len() >= 1);
    }
}

/// The lines of a text: split at newlines, with one trailing empty part
/// dropped (so a single trailing newline does not produce an extra empty
/// line, as with `str::lines`).
pub open spec fn lines_of(s: Seq<char>) -> Seq<Seq<char>> {
    let ps = split_on(s, char_eq_pred('\n'));
    if ps.len() >= 1 && ps.last().len() == 0 {
        ps.drop_last()
    } else {
        ps
    }
}

/// The words of a line: split at single space characters. Consecutive spaces
/// yield empty words.
pub open spec fn words_of(line: Seq<char>) -> Seq<Seq<char>> {
    split_on(line, char_eq_pred(' '))
}

/// The canonical form of a text: its lines joined by single newlines. This is
/// what a decode of an encode gives back.
pub open spec fn normalize_text(s: Seq<char>) -> Seq<char> {
    join_with(lines_of(s), '\n')
}

/// Split at whitespace, keeping only non-empty words (as `str::split_whitespace`).
pub open spec fn split_ws_spec(s: Seq<char>) -> Seq<Seq<char>> {
    split_on(s, ws_pred()).filter(nonempty_pred())
}

/// Splitting a space-join at whitespace restores the parts, provided every
/// part is non-empty and free of whitespace.
pub proof fn lemma_split_ws_join(ps: Seq<Seq<char>>)
    requires
        parts_clean(ps, ws_pred()),
        forall|i: int| 0 <= i < ps.len() ==> (#[trigger] ps[i]).len() > 0,
    ensures
        split_ws_spec(join_with(ps, ' ')) == ps,
    decreases ps.len(),
{
    reveal(Seq::filter);
    if ps.len() == 0 {
        assert(join_with(ps, ' ') =~= Seq::<char>::empty());
        let single = seq![Seq::<char>::empty()];
        assert(split_on(Seq::<char>::empty(), ws_pred()) == single);
        assert(single.drop_last() =~= Seq::<Seq<char>>::empty());
        assert(Seq::<Seq<char>>::empty().filter(nonempty_pred()) =~= Seq::<Seq<char>>::empty());
        assert(!nonempty_pred()(single.last()));
        assert(single.filter(nonempty_pred()) =~= Seq::<Seq<char>>::empty());
        assert(split_ws_spec(join_with(ps, ' ')) =~= ps);
    } else if ps.len() == 1 {
        assert(join_with(ps, ' ') == ps[0]);
        lemma_split_on_no_sep(ps[0], ws_pred());
        let single = seq![ps[0]];
        assert(single.drop_last() =~= Seq::<Seq<char>>::empty());
        assert(Seq::<Seq<char>>::empty().filter(nonempty_pred()) =~= Seq::<Seq<char>>::empty());
        assert(nonempty_pred()(single.last()));
        assert(single.filter(nonempty_pred()) =~= Seq::<Seq<char>>::empty().push(ps[0]));
        assert(split_ws_spec(ps[0]) =~= ps);
    } else {
        assert(parts_clean(ps.drop_last(), ws_pred()));
        lemma_split_ws_join(ps.drop_last());
        assert(join_with(ps, ' ') == join_with(ps.drop_last(), ' ') + seq![' '] + ps.last());
        assert(is_ws_char(' '));
        assert(seq_clean(ps.last(), ws_pred()));
        lemma_split_append_clean_right(join_with(ps.drop_last(), ' '), ps.last(), ' ', ws_pred());
        let raw0 = split_on(join_with(ps.drop_last(), ' '), ws_pred());
        assert(split_on(join_with(ps, ' '), ws_pred()) == raw0.push(ps.last()));
        assert(nonempty_pred()(ps.last()));
        raw0.lemma_filter_push(ps.last(), nonempty_pred());
        assert(raw0.push(ps.last()).filter(nonempty_pred()) == raw0.filter(nonempty_pred()).push(
            ps.last(),
        ));
        assert(raw0.filter(nonempty_pred()) == ps.drop_last());
        assert(ps.drop_last().push(ps.last()) =~= ps);
    }
}

/// The summed length of all parts.
pub open spec fn total_len(ps: Seq<Seq<char>>) -> nat
    decreases ps.len(),
{
    if ps.len() == 0 {
        0
    } else {
        total_len(ps.drop_last()) + ps.last().len()
    }
}

/// A join's length: all parts, plus one separator between consecutive parts.
pub proof fn lemma_join_with_total(ps: Seq<Seq<char>>, sep: char)
    requires
        ps.len() >= 1,
    ensures
        join_with(ps, sep).len() == total_len(ps) + ps.len() - 1,
    decreases ps.len(),
{
    if ps.len() == 1 {
        assert(ps.drop_last().len() == 0);
    } else {
        lemma_join_with_total(ps.drop_last(), sep);
    }
}

/// No more characters match than there are characters.
pub proof fn lemma_count_matching_le(s: Seq<char>, p: spec_fn(char) -> bool)
    ensures
        count_matching(s, p) <= s.len(),
    decreases s.len(),
{
    if s.len() > 0 {
        lemma_count_matching_le(s.drop_last(), p);
    }
}

/// Dropping a trailing part can only shorten the total.
pub proof fn lemma_total_len_drop_last(ps: Seq<Seq<char>>)
    requires
        ps.len() >= 1,
    ensures
        total_len(ps.drop_last()) <= total_len(ps),
{
}

/// The views of a sequence of character vectors.
pub open spec fn views_of(vs: Seq<Vec<char>>) -> Seq<Seq<char>> {
    vs.map_values(|v: Vec<char>| v@)
}

/// Whether `c` is a Unicode whitespace character.
pub fn is_ws_char_exec(c: char) -> (b: bool)
    ensures
        b == is_ws_char(c),
{
    let u = c as u32;
    u == 9 || u == 10 || u == 11 || u == 12 || u == 13 || u == 32 || u == 0x85 || u == 0xA0
        || u == 0x1680 || (0x2000 <= u && u <= 0x200A) || u == 0x2028 || u == 0x2029 || u == 0x202F
        || u == 0x205F || u == 0x3000
}

/// Split `s` at every occurrence of the character `sep`.
pub fn split_by(s: &Vec<char>, sep: char) -> (r: Vec<Vec<char>>)
    ensures
        views_of(r@) == split_on(s@, char_eq_pred(sep)),
{
    let ghost p = char_eq_pred(sep);
    let mut parts: Vec<Vec<char>> = Vec::new();
    let mut cur: Vec<char> = Vec::new();
    proof {
        assert(s@.take(0) =~= Seq::<char>::empty());
        assert(views_of(parts@).push(cur@) =~= split_on(s@.take(0), p));
    }
    let mut i: usize = 0;
    while i < s.len()
        invariant
            i <= s.len(),
            views_of(parts@).push(cur@) == split_on(s@.take(i as int), p),
            p == char_eq_pred(sep),
        decreases s.len() - i,
    {
        let ghost prev = s@.take(i as int);
        let ghost pparts = parts@;
        let ghost pcur = cur@;
        let c = s[i];
        if c == sep {
            parts.push(cur);
            cur = Vec::new();
        } else {
            cur.push(c);
        }
        i = i + 1;
        proof {
            let now = s@.take(i as int);
            assert(now.len() > 0);
            assert(now.drop_last() =~= prev);
            assert(now.last() == c);
            let rest = split_on(prev, p);
            lemma_split_on_len(prev, p);
            if c == sep {
                assert(split_on(now, p) == rest.push(Seq::<char>::empty()));
                assert(views_of(parts@) =~= views_of(pparts).push(pcur));
                assert(views_of(parts@).push(cur@) =~= rest.push(Seq::<char>::empty()));
            } else {
                assert(split_on(now, p) == rest.update(rest.len() - 1, rest.last().push(c)));
                assert(views_of(parts@) == views_of(pparts));
                assert(views_of(parts@).push(cur@) =~= rest.update(
                    rest.len() - 1,
                    rest.last().push(c),
                ));
            }
        }
    }
    parts.push(cur);
    proof {
        assert(s@.take(s@.len() as int) =~= s@);
        assert(views_of(parts@) =~= split_on(s@, p));
    }
    parts
}

/// Split `s` at every whitespace character, keeping the empty parts.
fn split_by_ws_raw(s: &Vec<char>) -> (r: Vec<Vec<char>>)
    ensures
        views_of(r@) == split_on(s@, ws_pred()),
{
    let ghost p = ws_pred();
    let mut parts: Vec<Vec<char>> = Vec::new();
    let mut cur: Vec<char> = Vec::new();
    proof {
        assert(s@.take(0) =~= Seq::<char>::empty());
        assert(views_of(parts@).push(cur@) =~= split_on(s@.take(0), p));
    }
    let mut i: usize = 0;
    while i < s.len()
        invariant
            i <= s.len(),
            views_of(parts@).push(cur@) == split_on(s@.take(i as int), p),
            p == ws_pred(),
        decreases s.len() - i,
    {
        let ghost prev = s@.take(i as int);
        let ghost pparts = parts@;
        let ghost pcur = cur@;
        let c = s[i];
        if is_ws_char_exec(c) {
            parts.push(cur);
            cur = Vec::new();
        } else {
            cur.push(c);
        }
        i = i + 1;
        proof {
            let now = s@.take(i as int);
            assert(now.len() > 0);
            assert(now.drop_last() =~= prev);
            assert(now.last() == c);
            let rest = split_on(prev, p);
            lemma_split_on_len(prev, p);
            if is_ws_char(c) {
                assert(split_on(now, p) == rest.push(Seq::<char>::empty()));
                assert(views_of(parts@) =~= views_of(pparts).push(pcur));
                assert(views_of(parts@).push(cur@) =~= rest.push(Seq::<char>::empty()));
            } else {
                assert(split_on(now, p) == rest.update(rest.len() - 1, rest.last().push(c)));
                assert(views_of(parts@) == views_of(pparts));
                assert(views_of(parts@).push(cur@) =~= rest.update(
                    rest.len() - 1,
                    rest.last().push(c),
                ));
            }
        }
    }
    parts.push(cur);
    proof {
        assert(s@.take(s@.len() as int) =~= s@);
        assert(views_of(parts@) =~= split_on(s@, p));
    }
    parts
}

/// Split `s` at whitespace, keeping only the non-empty words.
pub fn split_whitespace_exec(s: &Vec<char>) -> (r: Vec<Vec<char>>)
    ensures
        views_of(r@) == split_ws_spec(s@),
{
    let raw = split_by_ws_raw(s);
    let mut out: Vec<Vec<char>> = Vec::new();
    proof {
        reveal(Seq::filter);
        assert(views_of(raw@).take(0) =~= Seq::<Seq<char>>::empty());
        assert(views_of(out@) =~= Seq::<Seq<char>>::empty().filter(nonempty_pred()));
    }
    let mut i: usize = 0;
    while i < raw.len()
        invariant
            i <= raw.len(),
            views_of(raw@) == split_on(s@, ws_pred()),
            views_of(out@) == views_of(raw@).take(i as int).filter(nonempty_pred()),
        decreases raw.len() - i,
    {
        let ghost pout = out@;
        if raw[i].len() > 0 {
            let w = raw[i].clone();
            assert(w@ == raw@[i as int]@);
            out.push(w);
        }
        i = i + 1;
        proof {
            let vs = views_of(raw@);
            vs.lemma_take_succ_push(i - 1);
            vs.take(i - 1).lemma_filter_push(vs[i - 1], nonempty_pred());
            if vs[i - 1].len() > 0 {
                assert(views_of(out@) =~= views_of(pout).push(vs[i - 1]));
            } else {
                assert(views_of(out@) == views_of(pout));
            }
        }
    }
    proof {
        assert(views_of(raw@).take(raw@.len() as int) =~= views_of(raw@));
    }
    out
}

/// Join the parts with a single `sep` between consecutive parts.
pub fn join_by(ps: &Vec<Vec<char>>, sep: char) -> (r: Vec<char>)
    ensures
        r@ == join_with(views_of(ps@), sep),
{
    let ghost vs = views_of(ps@);
    let mut out: Vec<char> = Vec::new();
    proof {
        assert(vs.take(0) =~= Seq::<Seq<char>>::empty());
        assert(out@ =~= join_with(vs.take(0), sep));
    }
    let mut i: usize = 0;
    while i < ps.len()
        invariant
            i <= ps.len(),
            vs == views_of(ps@),
            out@ == join_with(vs.take(i as int), sep),
        decreases ps.len() - i,
    {
        let ghost base = out@;
        if i != 0 {
            out.push(sep);
        }
        let part = &ps[i];
        let mut k: usize = 0;
        while k < part.len()
            invariant
                k <= part.len(),
                part@ == ps@[i as int]@,
                i < ps.len(),
                out@ == base + (if i == 0 {
                    Seq::<char>::empty()
                } else {
                    seq![sep]
                }) + part@.take(k as int),
            decreases part.len() - k,
        {
            out.push(part[k]);
            k = k + 1;
            proof {
                assert(part@.take(k as int) =~= part@.take(k - 1).push(part@[k - 1]));
                assert(out@ =~= base + (if i == 0 {
                    Seq::<char>::empty()
                } else {
                    seq![sep]
                }) + part@.take(k as int));
            }
        }
        proof {
            assert(part@.take(part@.len() as int) =~= part@);
            vs.lemma_take_succ_push(i as int);
            lemma_join_push(vs.take(i as int), vs[i as int], sep);
            if i == 0 {
                assert(vs.take(0).len() == 0);
                assert(out@ =~= base + Seq::<char>::empty() + part@);
                assert(out@ =~= join_with(vs.take(1), sep));
            } else {
                assert(out@ =~= join_with(vs.take(i as int), sep) + seq![sep] + vs[i as int]);
                assert(out@ =~= join_with(vs.take(i + 1), sep));
            }
        }
        i = i + 1;
    }
    proof {
        assert(vs.take(ps@.len() as int) =~= vs);
    }
    out
}

/// The lines of the text, as `lines_of`.
pub fn lines_exec(s: &Vec<char>) -> (r: Vec<Vec<char>>)
    ensures
        views_of(r@) == lines_of(s@),
{
    let mut ps = split_by(s, '\n');
    proof {
        lemma_split_on_len(s@, char_eq_pred('\n'));
        assert(views_of(ps@).len() == ps@.len());
    }
    let last_empty = ps[ps.len() - 1].len() == 0;
    if last_empty {
        let ghost before = ps@;
        ps.pop();
        proof {
            assert(views_of(ps@) =~= views_of(before).drop_last());
        }
    }
    ps
}

} // verus!
