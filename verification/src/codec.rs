//! The encoder and decoder.
//!
//! An encoded document is `<MARKER><dictionary words, space-joined><MARKER><body>`.
//! In the body a word `<MARKER><digits>` is a reference into the dictionary,
//! and `<MARKER><anything else>` is an escaped literal word.

use vstd::prelude::*;
use vstd::string::StrSliceExecFns;

use crate::digits::{all_digits, dec_digits, digits_value, push_dec_digits};
use crate::text::{
    char_eq_pred, join_by, join_with, lines_exec, lines_of, split_by, split_on,
    split_whitespace_exec, split_ws_spec, views_of, words_of,
};

verus! {

/// The reserved marker character: header delimiter, reference prefix and
/// escape prefix.
pub const ENCODING_CHAR: char = '@';

/// The words of a sequence of lines, in reading order.
pub open spec fn words_of_lines(ls: Seq<Seq<char>>) -> Seq<Seq<char>>
    decreases ls.len(),
{
    if ls.len() == 0 {
        Seq::<Seq<char>>::empty()
    } else {
        words_of_lines(ls.drop_last()) + words_of(ls.last())
    }
}

/// All words of the text, line by line.
pub open spec fn all_words(t: Seq<char>) -> Seq<Seq<char>> {
    words_of_lines(lines_of(t))
}

/// How many of the words equal `w`.
pub open spec fn count_words(ws: Seq<Seq<char>>, w: Seq<char>) -> nat
    decreases ws.len(),
{
    if ws.len() == 0 {
        0
    } else {
        count_words(ws.drop_last(), w) + if ws.last() == w {
            1nat
        } else {
            0nat
        }
    }
}

/// How often the word `w` occurs in the text `t`.
pub open spec fn word_count(t: Seq<char>, w: Seq<char>) -> nat {
    count_words(all_words(t), w)
}

/// The distinct words, each at its first occurrence.
pub open spec fn distinct_words(ws: Seq<Seq<char>>) -> Seq<Seq<char>>
    decreases ws.len(),
{
    if ws.len() == 0 {
        Seq::<Seq<char>>::empty()
    } else {
        let d = distinct_words(ws.drop_last());
        if d.contains(ws.last()) {
            d
        } else {
            d.push(ws.last())
        }
    }
}

/// The distinct words of the text in first-seen order, with their counts:
/// what `count_popularity` computes.
pub open spec fn freq_words(t: Seq<char>) -> Seq<Seq<char>> {
    distinct_words(all_words(t))
}

/// A word is worth a dictionary entry iff it occurs more than once and is
/// not made of decimal digits alone (a purely numeric word would be
/// ambiguous with a reference identifier on decode; the empty word counts as
/// purely numeric and is never included).
pub open spec fn good_word(t: Seq<char>, w: Seq<char>) -> bool {
    word_count(t, w) > 1 && !all_digits(w)
}

/// The goodness filter as a spec closure.
pub open spec fn good_pred(t: Seq<char>) -> spec_fn(Seq<char>) -> bool {
    |w: Seq<char>| good_word(t, w)
}

/// The dictionary of the text: its good words in first-seen order; the
/// identifier of a word is its position here.
pub open spec fn dict_of(t: Seq<char>) -> Seq<Seq<char>> {
    distinct_words(all_words(t)).filter(good_pred(t))
}

/// One encoded word: a reference for a dictionary word, an escape for a word
/// with a leading marker, anything else unchanged.
pub open spec fn encode_word(dict: Seq<Seq<char>>, w: Seq<char>) -> Seq<char> {
    if dict.contains(w) {
        seq![ENCODING_CHAR] + dec_digits(dict.index_of(w) as nat)
    } else if w.len() > 0 && w[0] == ENCODING_CHAR {
        seq![ENCODING_CHAR] + w
    } else {
        w
    }
}

/// Word encoding as a spec closure.
pub open spec fn enc_word_fn(dict: Seq<Seq<char>>) -> spec_fn(Seq<char>) -> Seq<char> {
    |w: Seq<char>| encode_word(dict, w)
}

/// One encoded line: each word encoded, re-joined with single spaces.
pub open spec fn encode_line(dict: Seq<Seq<char>>, line: Seq<char>) -> Seq<char> {
    join_with(words_of(line).map_values(enc_word_fn(dict)), ' ')
}

/// Line encoding as a spec closure.
pub open spec fn enc_line_fn(dict: Seq<Seq<char>>) -> spec_fn(Seq<char>) -> Seq<char> {
    |line: Seq<char>| encode_line(dict, line)
}

/// The whole encoded document: marker, header, marker, body.
pub open spec fn spec_encode(t: Seq<char>) -> Seq<char> {
    let dict = dict_of(t);
    seq![ENCODING_CHAR] + join_with(dict, ' ') + seq![ENCODING_CHAR] + join_with(
        lines_of(t).map_values(enc_line_fn(dict)),
        '\n',
    )
}

/// One decoded word. A marker followed by digits is a reference: resolved if
/// in range, the empty word if out of range. A marker followed by anything
/// else restores the remainder literally.
pub open spec fn decode_word(dict: Seq<Seq<char>>, w: Seq<char>) -> Seq<char> {
    if w.len() == 0 || w[0] != ENCODING_CHAR {
        w
    } else {
        let rest = w.skip(1);
        if rest.len() > 0 && all_digits(rest) {
            if digits_value(rest) < dict.len() {
                dict[digits_value(rest)]
            } else {
                Seq::<char>::empty()
            }
        } else {
            rest
        }
    }
}

/// Word decoding as a spec closure.
pub open spec fn dec_word_fn(dict: Seq<Seq<char>>) -> spec_fn(Seq<char>) -> Seq<char> {
    |w: Seq<char>| decode_word(dict, w)
}

/// One decoded line: each word decoded, re-joined with single spaces.
pub open spec fn decode_line(dict: Seq<Seq<char>>, line: Seq<char>) -> Seq<char> {
    join_with(words_of(line).map_values(dec_word_fn(dict)), ' ')
}

/// Line decoding as a spec closure.
pub open spec fn dec_line_fn(dict: Seq<Seq<char>>) -> spec_fn(Seq<char>) -> Seq<char> {
    |line: Seq<char>| decode_line(dict, line)
}

/// The whole decode. `None` is the framing error: fewer than two marker
/// characters in the document. Otherwise the first marker-delimited segment
/// is discarded, the second is the dictionary header, and everything after
/// the second marker is the body.
pub open spec fn spec_decode(s: Seq<char>) -> Option<Seq<char>> {
    let segs = split_on(s, char_eq_pred(ENCODING_CHAR));
    if segs.len() < 3 {
        None
    } else {
        let dict = split_ws_spec(segs[1]);
        let body = join_with(segs.skip(2), ENCODING_CHAR);
        Some(join_with(lines_of(body).map_values(dec_line_fn(dict)), '\n'))
    }
}

/// The framing error: the document lacks the two marker delimiters that
/// bound the dictionary header.
#[derive(Clone, Debug)]
pub struct DecodingError;

/// Decode an encoded document back to its text. Fails with `DecodingError`
/// exactly when the document holds fewer than two marker characters; an
/// out-of-range reference merely decodes to the empty word.
pub fn decode_text(contents: &String) -> (r: Result<String, DecodingError>)
    ensures
        match r {
            Ok(s) => spec_decode(contents@) == Some(s@),
            Err(_) => spec_decode(contents@) is None,
        },
        (r is Err) <==> crate::text::count_matching(contents@, char_eq_pred(ENCODING_CHAR)) < 2,
{
    let ghost t = contents@;
    let chars = str_to_chars(contents.as_str());
    let segs = split_by(&chars, ENCODING_CHAR);
    let ghost sv = views_of(segs@);
    proof {
        crate::text::lemma_split_on_len(t, char_eq_pred(ENCODING_CHAR));
        assert(sv.len() == segs@.len());
    }
    if segs.len() < 3 {
        return Err(DecodingError);
    }

    // The dictionary: the whitespace-separated words of the header segment.
    let dict = split_whitespace_exec(&segs[1]);
    let ghost dictv = views_of(dict@);
    proof {
        assert(segs@[1]@ == sv[1]);
        assert(dictv == split_ws_spec(sv[1]));
    }

    // The body: everything after the second marker, interior markers restored.
    let mut tail: Vec<Vec<char>> = Vec::new();
    proof {
        assert(views_of(tail@) =~= sv.subrange(2, 2));
    }
    let mut k: usize = 2;
    while k < segs.len()
        invariant
            2 <= k <= segs@.len(),
            sv == views_of(segs@),
            views_of(tail@) == sv.subrange(2, k as int),
        decreases segs.len() - k,
    {
        let ghost before = views_of(tail@);
        let p = segs[k].clone();
        proof {
            assert(p@ == sv[k as int]);
        }
        tail.push(p);
        k = k + 1;
        proof {
            assert(views_of(tail@) =~= before.push(sv[k - 1]));
            assert(sv.subrange(2, k as int) =~= sv.subrange(2, k - 1).push(sv[k - 1]));
        }
    }
    proof {
        assert(sv.subrange(2, sv.len() as int) =~= sv.skip(2));
    }
    let body = join_by(&tail, ENCODING_CHAR);
    proof {
        assert(body@ == join_with(sv.skip(2), ENCODING_CHAR));
    }

    // Decode the body line by line, word by word.
    let blines = lines_exec(&body);
    let ghost lv = views_of(blines@);
    let ghost dec_lines = lv.map_values(dec_line_fn(dictv));
    let mut out: Vec<char> = Vec::new();
    proof {
        assert(dec_lines.take(0) =~= Seq::<Seq<char>>::empty());
        assert(out@ =~= join_with(dec_lines.take(0), '\n'));
    }
    let mut i: usize = 0;
    while i < blines.len()
        invariant
            i <= blines.len(),
            dictv == views_of(dict@),
            lv == views_of(blines@),
            dec_lines == lv.map_values(dec_line_fn(dictv)),
            out@ == join_with(dec_lines.take(i as int), '\n'),
        decreases blines.len() - i,
    {
        if i != 0 {
            out.push('\n');
        }
        let ghost mid = out@;
        let words = split_by(&blines[i], ' ');
        let ghost wv = views_of(words@);
        let ghost dec_words = wv.map_values(dec_word_fn(dictv));
        proof {
            assert(blines@[i as int]@ == lv[i as int]);
            assert(wv == words_of(lv[i as int]));
            assert(dec_words.take(0) =~= Seq::<Seq<char>>::empty());
            assert(mid =~= mid + join_with(dec_words.take(0), ' '));
        }
        let mut j: usize = 0;
        while j < words.len()
            invariant
                j <= words.len(),
                dictv == views_of(dict@),
                wv == views_of(words@),
                dec_words == wv.map_values(dec_word_fn(dictv)),
                out@ == mid + join_with(dec_words.take(j as int), ' '),
            decreases words.len() - j,
        {
            if j != 0 {
                out.push(' ');
            }
            let ghost basej = out@;
            let ghost w_spec = wv[j as int];
            proof {
                assert(words@[j as int]@ == w_spec);
                assert(dec_words[j as int] == decode_word(dictv, w_spec));
            }
            let dw = decode_word_exec(&dict, &words[j]);
            proof {
                assert(out@ =~= basej + dw@.take(0));
            }
            let mut x: usize = 0;
            while x < dw.len()
                invariant
                    x <= dw.len(),
                    out@ == basej + dw@.take(x as int),
                decreases dw.len() - x,
            {
                out.push(dw[x]);
                x = x + 1;
                proof {
                    assert(dw@.take(x as int) =~= dw@.take(x - 1).push(dw@[x - 1]));
                    assert(out@ =~= basej + dw@.take(x as int));
                }
            }
            proof {
                assert(dw@.take(dw@.len() as int) =~= dw@);
                assert(out@ =~= basej + decode_word(dictv, w_spec));
                dec_words.lemma_take_succ_push(j as int);
                crate::text::lemma_join_push(dec_words.take(j as int), dec_words[j as int], ' ');
                if j == 0 {
                    assert(basej =~= mid);
                    assert(out@ =~= mid + join_with(dec_words.take(1), ' '));
                } else {
                    assert(basej =~= mid + join_with(dec_words.take(j as int), ' ') + seq![' ']);
                    assert(out@ =~= mid + (join_with(dec_words.take(j as int), ' ') + seq![' ']
                        + dec_words[j as int]));
                    assert(out@ =~= mid + join_with(dec_words.take(j + 1), ' '));
                }
            }
            j = j + 1;
        }
        proof {
            assert(dec_words.take(words@.len() as int) =~= dec_words);
            assert(join_with(dec_words, ' ') == decode_line(dictv, lv[i as int]));
            assert(dec_lines[i as int] == decode_line(dictv, lv[i as int]));
            dec_lines.lemma_take_succ_push(i as int);
            crate::text::lemma_join_push(dec_lines.take(i as int), dec_lines[i as int], '\n');
            if i == 0 {
                assert(mid =~= Seq::<char>::empty());
                assert(out@ =~= join_with(dec_lines.take(1), '\n'));
            } else {
                assert(mid =~= join_with(dec_lines.take(i as int), '\n') + seq!['\n']);
                assert(out@ =~= join_with(dec_lines.take(i as int), '\n') + seq!['\n']
                    + dec_lines[i as int]);
                assert(out@ =~= join_with(dec_lines.take(i + 1), '\n'));
            }
        }
        i = i + 1;
    }
    proof {
        assert(dec_lines.take(blines@.len() as int) =~= dec_lines);
        assert(out@ == join_with(dec_lines, '\n'));
        assert(spec_decode(t) == Some(out@));
    }
    Ok(chars_to_string(&out))
}

/// A word of the distinct list occurs among the source words, and conversely.
pub proof fn lemma_distinct_contains(ws: Seq<Seq<char>>, w: Seq<char>)
    ensures
        distinct_words(ws).contains(w) <==> ws.contains(w),
    decreases ws.len(),
{
    if ws.len() > 0 {
        lemma_distinct_contains(ws.drop_last(), w);
        let d = distinct_words(ws.drop_last());
        if ws.contains(w) {
            if ws.last() == w {
                if d.contains(w) {
                    assert(distinct_words(ws).contains(w));
                } else {
                    assert(d.push(w)[d.len() as int] == w);
                    assert(distinct_words(ws).contains(w));
                }
            } else {
                let i = choose|i: int| 0 <= i < ws.len() && ws[i] == w;
                assert(ws.drop_last()[i] == w);
                assert(ws.drop_last().contains(w));
                assert(d.contains(w));
                if !d.contains(ws.last()) {
                    assert(d.push(ws.last()).contains(w)) by {
                        let j = choose|j: int| 0 <= j < d.len() && d[j] == w;
                        assert(d.push(ws.last())[j] == w);
                    }
                }
            }
        } else {
            assert(!ws.drop_last().contains(w)) by {
                if ws.drop_last().contains(w) {
                    let i = choose|i: int| 0 <= i < ws.drop_last().len() && ws.drop_last()[i] == w;
                    assert(ws[i] == w);
                }
            }
            assert(ws.last() != w);
            if !d.contains(ws.last()) {
                assert(!d.push(ws.last()).contains(w)) by {
                    if d.push(ws.last()).contains(w) {
                        let j = choose|j: int|
                            0 <= j < d.len() + 1 && d.push(ws.last())[j] == w;
                        assert(j < d.len() ==> d[j] == w);
                    }
                }
            }
        }
    }
}

/// The distinct list has no repeated word.
pub proof fn lemma_distinct_no_dup(ws: Seq<Seq<char>>)
    ensures
        forall|i: int, j: int|
            0 <= i < j < distinct_words(ws).len() ==> distinct_words(ws)[i] != distinct_words(
                ws,
            )[j],
    decreases ws.len(),
{
    if ws.len() > 0 {
        lemma_distinct_no_dup(ws.drop_last());
        let d = distinct_words(ws.drop_last());
        if !d.contains(ws.last()) {
            assert(forall|i: int| 0 <= i < d.len() ==> d[i] != ws.last());
            assert(forall|i: int, j: int|
                0 <= i < j < d.push(ws.last()).len() ==> d.push(ws.last())[i] != d.push(
                    ws.last(),
                )[j]);
        }
    }
}

/// A word occurs among the words iff its count is positive.
pub proof fn lemma_count_words_pos(ws: Seq<Seq<char>>, w: Seq<char>)
    ensures
        count_words(ws, w) > 0 <==> ws.contains(w),
    decreases ws.len(),
{
    if ws.len() > 0 {
        lemma_count_words_pos(ws.drop_last(), w);
        if ws.last() == w {
            assert(ws.contains(w));
        } else {
            assert(ws.drop_last().contains(w) <==> ws.contains(w)) by {
                if ws.drop_last().contains(w) {
                    let i = choose|i: int| 0 <= i < ws.drop_last().len() && ws.drop_last()[i] == w;
                    assert(ws[i] == w);
                }
                if ws.contains(w) {
                    let i = choose|i: int| 0 <= i < ws.len() && ws[i] == w;
                    assert(i < ws.len() - 1);
                    assert(ws.drop_last()[i] == w);
                }
            }
        }
    }
}

/// Unfolding of `count_words` at a pushed word.
pub proof fn lemma_count_words_push(ws: Seq<Seq<char>>, x: Seq<char>, w: Seq<char>)
    ensures
        count_words(ws.push(x), w) == count_words(ws, w) + if x == w {
            1nat
        } else {
            0nat
        },
{
    assert(ws.push(x).drop_last() =~= ws);
}

/// Unfolding of `distinct_words` at a pushed word.
pub proof fn lemma_distinct_push(ws: Seq<Seq<char>>, x: Seq<char>)
    ensures
        distinct_words(ws.push(x)) == if distinct_words(ws).contains(x) {
            distinct_words(ws)
        } else {
            distinct_words(ws).push(x)
        },
{
    assert(ws.push(x).drop_last() =~= ws);
}

/// A word's count never exceeds the number of words.
pub proof fn lemma_count_words_le(ws: Seq<Seq<char>>, w: Seq<char>)
    ensures
        count_words(ws, w) <= ws.len(),
    decreases ws.len(),
{
    if ws.len() > 0 {
        lemma_count_words_le(ws.drop_last(), w);
    }
}

/// Unfolding the words of a line prefix by one line.
pub proof fn lemma_words_of_lines_take_succ(ls: Seq<Seq<char>>, i: int)
    requires
        0 <= i < ls.len(),
    ensures
        words_of_lines(ls.take(i + 1)) == words_of_lines(ls.take(i)) + words_of(ls[i]),
{
    let b = ls.take(i + 1);
    assert(b.drop_last() =~= ls.take(i));
    assert(b.last() == ls[i]);
}

/// A prefix of the lines has no more words than all of them.
pub proof fn lemma_words_of_lines_prefix_le(ls: Seq<Seq<char>>, i: int)
    requires
        0 <= i <= ls.len(),
    ensures
        words_of_lines(ls.take(i)).len() <= words_of_lines(ls).len(),
    decreases ls.len() - i,
{
    if i < ls.len() {
        lemma_words_of_lines_take_succ(ls, i);
        lemma_words_of_lines_prefix_le(ls, i + 1);
    } else {
        assert(ls.take(i) =~= ls);
    }
}

/// The lines hold at most one word per character, plus one word per line.
pub proof fn lemma_words_of_lines_len(ls: Seq<Seq<char>>)
    ensures
        words_of_lines(ls).len() <= crate::text::total_len(ls) + ls.len(),
    decreases ls.len(),
{
    if ls.len() > 0 {
        lemma_words_of_lines_len(ls.drop_last());
        crate::text::lemma_split_on_len(ls.last(), char_eq_pred(' '));
        crate::text::lemma_count_matching_le(ls.last(), char_eq_pred(' '));
    }
}

/// A text of `n` characters has at most `n + 1` words.
pub proof fn lemma_all_words_bound(t: Seq<char>)
    ensures
        all_words(t).len() <= t.len() + 1,
{
    let p = char_eq_pred('\n');
    let ps = split_on(t, p);
    crate::text::lemma_split_on_len(t, p);
    assert(forall|c: char| #[trigger] p(c) <==> c == '\n');
    crate::text::lemma_join_split(t, p, '\n');
    crate::text::lemma_join_with_total(ps, '\n');
    assert(crate::text::total_len(ps) + ps.len() - 1 == t.len());
    if ps.len() >= 1 && ps.last().len() == 0 {
        assert(lines_of(t) == ps.drop_last());
        lemma_words_of_lines_len(ps.drop_last());
        crate::text::lemma_total_len_drop_last(ps);
    } else {
        assert(lines_of(t) == ps);
        lemma_words_of_lines_len(ps);
    }
}

/// Relies on `String::push`: appends the one character `c` to the string.
#[verifier::external_body]
fn push_char(s: &mut String, c: char)
    ensures
        final(s)@ == old(s)@.push(c),
{
    s.push(c);
}

/// The characters of `s`, in order.
fn str_to_chars(s: &str) -> (r: Vec<char>)
    ensures
        r@ == s@,
{
    let n = s.unicode_len();
    let mut v: Vec<char> = Vec::new();
    proof {
        assert(v@ =~= s@.take(0));
    }
    let mut i: usize = 0;
    while i < n
        invariant
            i <= n,
            n == s@.len(),
            v@ == s@.take(i as int),
        decreases n - i,
    {
        let c = s.get_char(i);
        v.push(c);
        i = i + 1;
        proof {
            assert(s@.take(i as int) =~= s@.take(i - 1).push(s@[i - 1]));
        }
    }
    proof {
        assert(s@.take(n as int) =~= s@);
    }
    v
}

/// A string holding exactly the characters of `v`.
fn chars_to_string(v: &Vec<char>) -> (r: String)
    ensures
        r@ == v@,
{
    let mut s = String::new();
    proof {
        assert(s@ =~= v@.take(0));
    }
    let mut i: usize = 0;
    while i < v.len()
        invariant
            i <= v.len(),
            s@ == v@.take(i as int),
        decreases v.len() - i,
    {
        push_char(&mut s, v[i]);
        i = i + 1;
        proof {
            assert(v@.take(i as int) =~= v@.take(i - 1).push(v@[i - 1]));
        }
    }
    proof {
        assert(v@.take(v@.len() as int) =~= v@);
    }
    s
}

/// Character-wise equality of two vectors.
fn vec_eq(a: &Vec<char>, b: &Vec<char>) -> (r: bool)
    ensures
        r == (a@ == b@),
{
    if a.len() != b.len() {
        return false;
    }
    let mut i: usize = 0;
    while i < a.len()
        invariant
            i <= a.len(),
            a@.len() == b@.len(),
            forall|j: int| 0 <= j < i ==> a@[j] == b@[j],
        decreases a.len() - i,
    {
        if a[i] != b[i] {
            return false;
        }
        i = i + 1;
    }
    proof {
        assert(a@ =~= b@);
    }
    true
}

/// The views of the words of a frequency-map entry list.
pub open spec fn pair_words(entries: Seq<(Vec<char>, u64)>) -> Seq<Seq<char>> {
    entries.map_values(|p: (Vec<char>, u64)| p.0@)
}

/// The first entry holding the word `w`, if any.
fn find_entry(fm: &Vec<(Vec<char>, u64)>, w: &Vec<char>) -> (r: Option<usize>)
    ensures
        match r {
            Some(k) => k < fm@.len() && fm@[k as int].0@ == w@,
            None => forall|j: int| 0 <= j < fm@.len() ==> fm@[j].0@ != w@,
        },
{
    let mut i: usize = 0;
    while i < fm.len()
        invariant
            i <= fm.len(),
            forall|j: int| 0 <= j < i ==> fm@[j].0@ != w@,
        decreases fm.len() - i,
    {
        if vec_eq(&fm[i].0, w) {
            return Some(i);
        }
        i = i + 1;
    }
    None
}

/// The identifier of `w` in a duplicate-free dictionary, if present.
fn find_in_dict(dict: &Vec<Vec<char>>, w: &Vec<char>) -> (r: Option<usize>)
    requires
        forall|i: int, j: int|
            #![trigger dict@[i], dict@[j]]
            0 <= i < j < dict@.len() ==> dict@[i]@ != dict@[j]@,
    ensures
        match r {
            Some(k) => views_of(dict@).contains(w@) && k == views_of(dict@).index_of(w@),
            None => !views_of(dict@).contains(w@),
        },
{
    let ghost vs = views_of(dict@);
    let mut i: usize = 0;
    while i < dict.len()
        invariant
            i <= dict.len(),
            vs == views_of(dict@),
            forall|j: int| 0 <= j < i ==> vs[j] != w@,
            forall|a: int, b: int|
                #![trigger dict@[a], dict@[b]]
                0 <= a < b < dict@.len() ==> dict@[a]@ != dict@[b]@,
        decreases dict.len() - i,
    {
        if vec_eq(&dict[i], w) {
            proof {
                assert(vs[i as int] == w@);
                assert(vs.contains(w@));
                let k0 = vs.index_of(w@);
                assert(0 <= k0 < vs.len() && vs[k0] == w@);
                assert(vs.len() == dict@.len());
                assert(vs[k0] == dict@[k0]@);
                assert(vs[i as int] == dict@[i as int]@);
                if k0 < i as int {
                    assert(dict@[k0]@ != dict@[i as int]@);
                } else if k0 > i as int {
                    assert(k0 < dict@.len());
                    assert(dict@[i as int]@ == w@ && dict@[k0]@ == w@);
                    assert(dict@[i as int]@ != dict@[k0]@);
                }
                assert(k0 == i as int);
            }
            return Some(i);
        }
        i = i + 1;
    }
    proof {
        if vs.contains(w@) {
            let k0 = choose|k0: int| 0 <= k0 < vs.len() && vs[k0] == w@;
            assert(vs[k0] != w@);
        }
    }
    None
}

/// Every element of a filtered sequence occurs in the source.
pub proof fn lemma_filter_elems(d: Seq<Seq<char>>, p: spec_fn(Seq<char>) -> bool)
    ensures
        forall|i: int| 0 <= i < d.filter(p).len() ==> d.contains(#[trigger] d.filter(p)[i]),
    decreases d.len(),
{
    reveal(Seq::filter);
    if d.len() > 0 {
        let dl = d.drop_last();
        lemma_filter_elems(dl, p);
        assert forall|i: int| 0 <= i < d.filter(p).len() implies d.contains(
            #[trigger] d.filter(p)[i],
        ) by {
            if i < dl.filter(p).len() {
                assert(d.filter(p)[i] == dl.filter(p)[i]);
                assert(dl.contains(dl.filter(p)[i]));
                let j = choose|j: int| 0 <= j < dl.len() && dl[j] == dl.filter(p)[i];
                assert(d[j] == d.filter(p)[i]);
            } else {
                assert(d.filter(p)[i] == d.last());
                assert(d[d.len() - 1] == d.filter(p)[i]);
            }
        }
    }
}

/// Filtering a duplicate-free sequence leaves it duplicate-free.
pub proof fn lemma_filter_no_dup(d: Seq<Seq<char>>, p: spec_fn(Seq<char>) -> bool)
    requires
        forall|i: int, j: int| #![trigger d[i], d[j]] 0 <= i < j < d.len() ==> d[i] != d[j],
    ensures
        forall|i: int, j: int|
            #![trigger d.filter(p)[i], d.filter(p)[j]]
            0 <= i < j < d.filter(p).len() ==> d.filter(p)[i] != d.filter(p)[j],
    decreases d.len(),
{
    reveal(Seq::filter);
    if d.len() > 0 {
        let dl = d.drop_last();
        assert(forall|i: int, j: int|
            #![trigger dl[i], dl[j]]
            0 <= i < j < dl.len() ==> dl[i] != dl[j]);
        lemma_filter_no_dup(dl, p);
        lemma_filter_elems(dl, p);
        if p(d.last()) {
            assert(d.filter(p) == dl.filter(p).push(d.last()));
            assert forall|i: int, j: int|
                0 <= i < j < d.filter(p).len() implies #[trigger] d.filter(p)[i]
                != #[trigger] d.filter(p)[j] by {
                if j < dl.filter(p).len() {
                } else {
                    assert(d.filter(p)[j] == d.last());
                    assert(dl.contains(dl.filter(p)[i]));
                    let m = choose|m: int| 0 <= m < dl.len() && dl[m] == dl.filter(p)[i];
                    assert(d[m] == dl.filter(p)[i]);
                    assert(d[m] != d[d.len() - 1]);
                    assert(d.filter(p)[i] == dl.filter(p)[i]);
                }
            }
        } else {
            assert(d.filter(p) == dl.filter(p));
        }
    }
}

/// The dictionary holds exactly the words of the text that occur more than
/// once and are not purely numeric, each exactly once.
pub proof fn lemma_dict_membership(t: Seq<char>, w: Seq<char>)
    ensures
        dict_of(t).contains(w) <==> (all_words(t).contains(w) && good_word(t, w)),
{
    broadcast use vstd::prelude::Seq::lemma_filter_pred;
    broadcast use vstd::prelude::Seq::lemma_filter_contains;

    let d = distinct_words(all_words(t));
    lemma_distinct_contains(all_words(t), w);
    lemma_filter_elems(d, good_pred(t));
    if d.filter(good_pred(t)).contains(w) {
        let i = choose|i: int|
            0 <= i < d.filter(good_pred(t)).len() && d.filter(good_pred(t))[i] == w;
        assert(d.contains(d.filter(good_pred(t))[i]));
        assert(good_pred(t)(d.filter(good_pred(t))[i]));
        assert(good_word(t, w));
    }
    if d.contains(w) && good_word(t, w) {
        let i = choose|i: int| 0 <= i < d.len() && d[i] == w;
        assert(good_pred(t)(d[i]));
        assert(d.filter(good_pred(t)).contains(d[i]));
    }
}

/// The dictionary never holds the same word twice.
pub proof fn lemma_dict_no_dup(t: Seq<char>)
    ensures
        forall|i: int, j: int|
            #![trigger dict_of(t)[i], dict_of(t)[j]]
            0 <= i < j < dict_of(t).len() ==> dict_of(t)[i] != dict_of(t)[j],
{
    lemma_distinct_no_dup(all_words(t));
    lemma_filter_no_dup(distinct_words(all_words(t)), good_pred(t));
}

/// The distinct words of `chars` with their occurrence counts, in first-seen
/// order.
fn frequency_map(chars: &Vec<char>) -> (fm: Vec<(Vec<char>, u64)>)
    requires
        chars@.len() < usize::MAX,
    ensures
        pair_words(fm@) == freq_words(chars@),
        forall|k: int|
            0 <= k < fm@.len() ==> (#[trigger] fm@[k]).1 as nat == word_count(chars@, fm@[k].0@),
{
    let ghost t = chars@;
    let lines = lines_exec(chars);
    let ghost lv = views_of(lines@);
    let mut fm: Vec<(Vec<char>, u64)> = Vec::new();
    proof {
        assert(lv.take(0) =~= Seq::<Seq<char>>::empty());
        assert(pair_words(fm@) =~= distinct_words(words_of_lines(lv.take(0))));
    }
    let mut i: usize = 0;
    while i < lines.len()
        invariant
            i <= lines.len(),
            t == chars@,
            t.len() < usize::MAX,
            lv == lines_of(t),
            lv == views_of(lines@),
            pair_words(fm@) == distinct_words(words_of_lines(lv.take(i as int))),
            forall|k: int|
                0 <= k < fm@.len() ==> (#[trigger] fm@[k]).1 as nat == count_words(
                    words_of_lines(lv.take(i as int)),
                    fm@[k].0@,
                ),
        decreases lines.len() - i,
    {
        let words = split_by(&lines[i], ' ');
        let ghost wv = views_of(words@);
        proof {
            assert(lines@[i as int]@ == lv[i as int]);
            assert(wv == words_of(lv[i as int]));
            let ghost base = words_of_lines(lv.take(i as int));
            assert(base + wv.take(0) =~= base);
        }
        let mut j: usize = 0;
        while j < words.len()
            invariant
                j <= words.len(),
                i < lines@.len(),
                t == chars@,
                t.len() < usize::MAX,
                lv == lines_of(t),
                lv.len() == lines@.len(),
                wv == views_of(words@),
                wv == words_of(lv[i as int]),
                pair_words(fm@) == distinct_words(
                    words_of_lines(lv.take(i as int)) + wv.take(j as int),
                ),
                forall|k: int|
                    0 <= k < fm@.len() ==> (#[trigger] fm@[k]).1 as nat == count_words(
                        words_of_lines(lv.take(i as int)) + wv.take(j as int),
                        fm@[k].0@,
                    ),
            decreases words.len() - j,
        {
            let ghost processed = words_of_lines(lv.take(i as int)) + wv.take(j as int);
            let ghost w_spec = wv[j as int];
            proof {
                assert(words@[j as int]@ == wv[j as int]);
                assert(wv.take(j + 1) =~= wv.take(j as int).push(w_spec));
                assert(words_of_lines(lv.take(i as int)) + wv.take(j + 1) =~= processed.push(
                    w_spec,
                ));
                // the count of any word among the processed words is bounded by
                // the total word count of the text
                lemma_words_of_lines_take_succ(lv, i as int);
                lemma_words_of_lines_prefix_le(lv, i + 1);
                lemma_all_words_bound(t);
                assert(processed.len() == words_of_lines(lv.take(i as int)).len() + j);
                assert(words_of_lines(lv.take(i + 1)) == words_of_lines(lv.take(i as int))
                    + words_of(lv[i as int]));
                assert(processed.len() < words_of_lines(lv.take(i + 1)).len());
                assert(processed.len() < all_words(t).len());
                assert(processed.len() < t.len() + 1);
            }
            match find_entry(&fm, &words[j]) {
                Some(k) => {
                    proof {
                        lemma_count_words_le(processed, w_spec);
                        assert(fm@[k as int].1 as nat == count_words(processed, fm@[k as int].0@));
                        assert(fm@[k as int].1 as nat <= processed.len());
                        assert(fm@[k as int].1 < u64::MAX);
                    }
                    let ghost old_fm = fm@;
                    let c = fm[k].1;
                    fm[k].1 = c + 1;
                    proof {
                        assert(fm@ == old_fm.update(k as int, (old_fm[k as int].0, (c + 1) as u64)));
                        assert(pair_words(fm@) =~= pair_words(old_fm));
                        assert(pair_words(old_fm)[k as int] == w_spec);
                        assert(distinct_words(processed).contains(w_spec));
                        lemma_distinct_push(processed, w_spec);
                        assert(pair_words(fm@) == distinct_words(processed.push(w_spec)));
                        lemma_distinct_no_dup(processed);
                        assert forall|k2: int| 0 <= k2 < fm@.len() implies (#[trigger] fm@[k2]).1
                            as nat == count_words(processed.push(w_spec), fm@[k2].0@) by {
                            lemma_count_words_push(processed, w_spec, fm@[k2].0@);
                            if k2 != k as int {
                                assert(pair_words(old_fm)[k2] == old_fm[k2].0@);
                                assert(distinct_words(processed)[k2] != distinct_words(
                                    processed,
                                )[k as int]);
                                assert(fm@[k2].0@ != w_spec);
                            }
                        }
                    }
                },
                None => {
                    let ghost old_fm = fm@;
                    let w = words[j].clone();
                    proof {
                        assert(w@ == w_spec);
                    }
                    fm.push((w, 1));
                    proof {
                        assert(pair_words(fm@) =~= pair_words(old_fm).push(w_spec));
                        assert(!distinct_words(processed).contains(w_spec)) by {
                            if distinct_words(processed).contains(w_spec) {
                                let idx = choose|idx: int|
                                    0 <= idx < distinct_words(processed).len() && distinct_words(
                                        processed,
                                    )[idx] == w_spec;
                                assert(pair_words(old_fm)[idx] == w_spec);
                                assert(old_fm[idx].0@ == w_spec);
                            }
                        }
                        lemma_distinct_push(processed, w_spec);
                        assert(pair_words(fm@) == distinct_words(processed.push(w_spec)));
                        lemma_distinct_contains(processed, w_spec);
                        lemma_count_words_pos(processed, w_spec);
                        assert(count_words(processed, w_spec) == 0);
                        assert forall|k2: int| 0 <= k2 < fm@.len() implies (#[trigger] fm@[k2]).1
                            as nat == count_words(processed.push(w_spec), fm@[k2].0@) by {
                            lemma_count_words_push(processed, w_spec, fm@[k2].0@);
                            if k2 < old_fm.len() {
                                assert(fm@[k2] == old_fm[k2]);
                                assert(old_fm[k2].0@ != w_spec);
                            } else {
                                assert(fm@[k2].0@ == w_spec);
                                assert(fm@[k2].1 == 1u64);
                            }
                        }
                    }
                },
            }
            j = j + 1;
        }
        proof {
            assert(wv.take(words@.len() as int) =~= wv);
            lemma_words_of_lines_take_succ(lv, i as int);
            assert(words_of_lines(lv.take(i as int)) + wv =~= words_of_lines(lv.take(i + 1)));
        }
        i = i + 1;
    }
    proof {
        assert(lv.take(lines@.len() as int) =~= lv);
        assert(words_of_lines(lv) == all_words(t));
    }
    fm
}

/// Whether a word earns a dictionary entry: it occurs more than once and is
/// not made of decimal digits alone.
pub fn is_good_for_encoding(word: &str, popularity: u64) -> (r: bool)
    ensures
        r == (popularity > 1 && !all_digits(word@)),
{
    let chars = str_to_chars(word);
    let digits_only = crate::digits::all_digits_exec(&chars);
    !digits_only && popularity > 1
}

/// The frequency map of the text: each distinct word, in first-seen order,
/// with the number of its occurrences.
pub fn count_popularity(contents: &String) -> (r: Vec<(String, u64)>)
    requires
        contents@.len() < usize::MAX,
    ensures
        r@.len() == freq_words(contents@).len(),
        forall|k: int|
            0 <= k < r@.len() ==> (#[trigger] r@[k]).0@ == freq_words(contents@)[k] && r@[k].1
                as nat == word_count(contents@, freq_words(contents@)[k]),
{
    let ghost t = contents@;
    let chars = str_to_chars(contents.as_str());
    let fm = frequency_map(&chars);
    let mut out: Vec<(String, u64)> = Vec::new();
    let mut i: usize = 0;
    while i < fm.len()
        invariant
            i <= fm.len(),
            pair_words(fm@) == freq_words(t),
            forall|k: int|
                0 <= k < fm@.len() ==> (#[trigger] fm@[k]).1 as nat == word_count(t, fm@[k].0@),
            out@.len() == i,
            forall|k: int|
                0 <= k < i ==> (#[trigger] out@[k]).0@ == fm@[k].0@ && out@[k].1 == fm@[k].1,
        decreases fm.len() - i,
    {
        let s = chars_to_string(&fm[i].0);
        let c = fm[i].1;
        out.push((s, c));
        i = i + 1;
    }
    proof {
        assert forall|k: int| 0 <= k < out@.len() implies (#[trigger] out@[k]).0@ == freq_words(
            t,
        )[k] && out@[k].1 as nat == word_count(t, freq_words(t)[k]) by {
            assert(pair_words(fm@)[k] == fm@[k].0@);
        }
    }
    out
}

/// Encode the text: marker, space-joined dictionary, marker, then every line
/// with dictionary words replaced by marker-prefixed identifiers and literal
/// marker-initial words escaped by one extra marker. Encoding never fails;
/// the output always begins with the marker.
pub fn encode_text(contents: &String) -> (r: String)
    requires
        contents@.len() < usize::MAX,
    ensures
        r@ == spec_encode(contents@),
        r@.len() >= 2,
        r@[0] == ENCODING_CHAR,
{
    let ghost t = contents@;
    let chars = str_to_chars(contents.as_str());
    let lines = lines_exec(&chars);
    let ghost lv = views_of(lines@);
    let fm = frequency_map(&chars);

    // Build the dictionary: the good entries of the frequency map, in order.
    let mut dict: Vec<Vec<char>> = Vec::new();
    proof {
        reveal(Seq::filter);
        assert(pair_words(fm@).take(0) =~= Seq::<Seq<char>>::empty());
        assert(views_of(dict@) =~= Seq::<Seq<char>>::empty());
        assert(Seq::<Seq<char>>::empty().filter(good_pred(t)) =~= Seq::<Seq<char>>::empty());
    }
    let mut k: usize = 0;
    while k < fm.len()
        invariant
            k <= fm.len(),
            t == contents@,
            pair_words(fm@) == freq_words(t),
            forall|k2: int|
                0 <= k2 < fm@.len() ==> (#[trigger] fm@[k2]).1 as nat == word_count(
                    t,
                    fm@[k2].0@,
                ),
            views_of(dict@) == pair_words(fm@).take(k as int).filter(good_pred(t)),
        decreases fm.len() - k,
    {
        let ghost pw = pair_words(fm@);
        let digits_only = crate::digits::all_digits_exec(&fm[k].0);
        let keep = fm[k].1 > 1 && !digits_only;
        proof {
            assert(pw[k as int] == fm@[k as int].0@);
            assert(good_pred(t)(pw[k as int]) == keep);
            pw.take(k as int).lemma_filter_push(pw[k as int], good_pred(t));
            assert(pw.take(k + 1) =~= pw.take(k as int).push(pw[k as int]));
        }
        if keep {
            let ghost before = views_of(dict@);
            let w = fm[k].0.clone();
            dict.push(w);
            proof {
                assert(views_of(dict@) =~= before.push(pw[k as int]));
            }
        }
        k = k + 1;
    }
    let ghost dv = views_of(dict@);
    proof {
        assert(pair_words(fm@).take(fm@.len() as int) =~= pair_words(fm@));
        assert(dv == dict_of(t));
        lemma_dict_no_dup(t);
        assert forall|a: int, b: int|
            #![trigger dict@[a], dict@[b]]
            0 <= a < b < dict@.len() implies dict@[a]@ != dict@[b]@ by {
            assert(views_of(dict@)[a] == dict@[a]@);
            assert(views_of(dict@)[b] == dict@[b]@);
            assert(dict_of(t)[a] != dict_of(t)[b]);
        }
    }

    // Emit the header.
    let mut out: Vec<char> = Vec::new();
    out.push(ENCODING_CHAR);
    proof {
        assert(dv.take(0) =~= Seq::<Seq<char>>::empty());
        assert(out@ =~= seq![ENCODING_CHAR] + join_with(dv.take(0), ' '));
    }
    let mut k: usize = 0;
    while k < dict.len()
        invariant
            k <= dict.len(),
            dv == views_of(dict@),
            out@ == seq![ENCODING_CHAR] + join_with(dv.take(k as int), ' '),
        decreases dict.len() - k,
    {
        let ghost base = out@;
        if k != 0 {
            out.push(' ');
        }
        let part = &dict[k];
        let mut x: usize = 0;
        while x < part.len()
            invariant
                x <= part.len(),
                part@ == dict@[k as int]@,
                k < dict@.len(),
                out@ == base + (if k == 0 {
                    Seq::<char>::empty()
                } else {
                    seq![' ']
                }) + part@.take(x as int),
            decreases part.len() - x,
        {
            out.push(part[x]);
            x = x + 1;
            proof {
                assert(part@.take(x as int) =~= part@.take(x - 1).push(part@[x - 1]));
                assert(out@ =~= base + (if k == 0 {
                    Seq::<char>::empty()
                } else {
                    seq![' ']
                }) + part@.take(x as int));
            }
        }
        proof {
            assert(part@.take(part@.len() as int) =~= part@);
            dv.lemma_take_succ_push(k as int);
            crate::text::lemma_join_push(dv.take(k as int), dv[k as int], ' ');
            assert(dv[k as int] == dict@[k as int]@);
            if k == 0 {
                assert(out@ =~= seq![ENCODING_CHAR] + join_with(dv.take(1), ' '));
            } else {
                assert(out@ =~= seq![ENCODING_CHAR] + (join_with(dv.take(k as int), ' ')
                    + seq![' '] + dv[k as int]));
                assert(out@ =~= seq![ENCODING_CHAR] + join_with(dv.take(k + 1), ' '));
            }
        }
        k = k + 1;
    }
    proof {
        assert(dv.take(dict@.len() as int) =~= dv);
    }
    out.push(ENCODING_CHAR);
    let ghost head = seq![ENCODING_CHAR] + join_with(dv, ' ') + seq![ENCODING_CHAR];
    proof {
        assert(out@ =~= head);
    }

    // Emit the body, line by line and word by word.
    let ghost enc_lines = lv.map_values(enc_line_fn(dv));
    proof {
        assert(enc_lines.take(0) =~= Seq::<Seq<char>>::empty());
        assert(out@ =~= head + join_with(enc_lines.take(0), '\n'));
    }
    let mut i: usize = 0;
    while i < lines.len()
        invariant
            i <= lines.len(),
            t == contents@,
            dv == views_of(dict@),
            lv == views_of(lines@),
            enc_lines == lv.map_values(enc_line_fn(dv)),
            forall|a: int, b: int|
                #![trigger dict@[a], dict@[b]]
                0 <= a < b < dict@.len() ==> dict@[a]@ != dict@[b]@,
            out@ == head + join_with(enc_lines.take(i as int), '\n'),
        decreases lines.len() - i,
    {
        if i != 0 {
            out.push('\n');
        }
        let ghost mid = out@;
        let words = split_by(&lines[i], ' ');
        let ghost wv = views_of(words@);
        let ghost enc_words = wv.map_values(enc_word_fn(dv));
        proof {
            assert(lines@[i as int]@ == lv[i as int]);
            assert(wv == words_of(lv[i as int]));
            assert(enc_words.take(0) =~= Seq::<Seq<char>>::empty());
            assert(mid =~= mid + join_with(enc_words.take(0), ' '));
        }
        let mut j: usize = 0;
        while j < words.len()
            invariant
                j <= words.len(),
                dv == views_of(dict@),
                wv == views_of(words@),
                enc_words == wv.map_values(enc_word_fn(dv)),
                forall|a: int, b: int|
                    #![trigger dict@[a], dict@[b]]
                    0 <= a < b < dict@.len() ==> dict@[a]@ != dict@[b]@,
                out@ == mid + join_with(enc_words.take(j as int), ' '),
            decreases words.len() - j,
        {
            if j != 0 {
                out.push(' ');
            }
            let ghost basej = out@;
            let ghost w_spec = wv[j as int];
            proof {
                assert(words@[j as int]@ == w_spec);
                assert(enc_words[j as int] == encode_word(dv, w_spec));
            }
            match find_in_dict(&dict, &words[j]) {
                Some(id) => {
                    out.push(ENCODING_CHAR);
                    push_dec_digits(&mut out, id);
                    proof {
                        assert(dv.contains(w_spec));
                        assert(id == dv.index_of(w_spec));
                        assert(encode_word(dv, w_spec) == seq![ENCODING_CHAR] + dec_digits(
                            dv.index_of(w_spec) as nat,
                        ));
                        assert(out@ =~= basej + encode_word(dv, w_spec));
                    }
                },
                None => {
                    let w = &words[j];
                    let escape = w.len() > 0 && w[0] == ENCODING_CHAR;
                    if escape {
                        out.push(ENCODING_CHAR);
                    }
                    let ghost base2 = basej + (if escape {
                        seq![ENCODING_CHAR]
                    } else {
                        Seq::<char>::empty()
                    });
                    proof {
                        assert(out@ =~= base2 + w@.take(0));
                    }
                    let mut x: usize = 0;
                    while x < w.len()
                        invariant
                            x <= w.len(),
                            out@ == base2 + w@.take(x as int),
                        decreases w.len() - x,
                    {
                        out.push(w[x]);
                        x = x + 1;
                        proof {
                            assert(w@.take(x as int) =~= w@.take(x - 1).push(w@[x - 1]));
                            assert(out@ =~= base2 + w@.take(x as int));
                        }
                    }
                    proof {
                        assert(w@.take(w@.len() as int) =~= w@);
                        assert(!dv.contains(w_spec));
                        if escape {
                            assert(encode_word(dv, w_spec) == seq![ENCODING_CHAR] + w_spec);
                        } else {
                            assert(encode_word(dv, w_spec) == w_spec);
                            assert(base2 =~= basej);
                        }
                        assert(out@ =~= basej + encode_word(dv, w_spec));
                    }
                },
            }
            proof {
                enc_words.lemma_take_succ_push(j as int);
                crate::text::lemma_join_push(enc_words.take(j as int), enc_words[j as int], ' ');
                if j == 0 {
                    assert(basej =~= mid);
                    assert(out@ =~= mid + join_with(enc_words.take(1), ' '));
                } else {
                    assert(basej =~= mid + join_with(enc_words.take(j as int), ' ') + seq![' ']);
                    assert(out@ =~= mid + (join_with(enc_words.take(j as int), ' ') + seq![' ']
                        + enc_words[j as int]));
                    assert(out@ =~= mid + join_with(enc_words.take(j + 1), ' '));
                }
            }
            j = j + 1;
        }
        proof {
            assert(enc_words.take(words@.len() as int) =~= enc_words);
            assert(join_with(enc_words, ' ') == encode_line(dv, lv[i as int]));
            assert(enc_lines[i as int] == encode_line(dv, lv[i as int]));
            enc_lines.lemma_take_succ_push(i as int);
            crate::text::lemma_join_push(enc_lines.take(i as int), enc_lines[i as int], '\n');
            if i == 0 {
                assert(mid =~= head);
                assert(out@ =~= head + join_with(enc_lines.take(1), '\n'));
            } else {
                assert(mid =~= head + join_with(enc_lines.take(i as int), '\n') + seq!['\n']);
                assert(out@ =~= head + (join_with(enc_lines.take(i as int), '\n') + seq!['\n']
                    + enc_lines[i as int]));
                assert(out@ =~= head + join_with(enc_lines.take(i + 1), '\n'));
            }
        }
        i = i + 1;
    }
    proof {
        assert(enc_lines.take(lines@.len() as int) =~= enc_lines);
        assert(out@ == head + join_with(enc_lines, '\n'));
        assert(out@ =~= spec_encode(t));
        assert(out@[0] == ENCODING_CHAR);
        assert(out@.len() >= 2);
    }
    chars_to_string(&out)
}

/// One decoded word, as `decode_word`.
fn decode_word_exec(dict: &Vec<Vec<char>>, w: &Vec<char>) -> (r: Vec<char>)
    ensures
        r@ == decode_word(views_of(dict@), w@),
{
    if w.len() == 0 {
        let r = w.clone();
        proof {
            assert(r@ =~= decode_word(views_of(dict@), w@));
        }
        return r;
    }
    if w[0] != ENCODING_CHAR {
        let r = w.clone();
        proof {
            assert(r@ =~= decode_word(views_of(dict@), w@));
        }
        return r;
    }
    let mut rest: Vec<char> = Vec::new();
    proof {
        assert(rest@ =~= w@.subrange(1, 1));
    }
    let mut i: usize = 1;
    while i < w.len()
        invariant
            1 <= i <= w.len(),
            rest@ == w@.subrange(1, i as int),
        decreases w.len() - i,
    {
        rest.push(w[i]);
        i = i + 1;
        proof {
            assert(w@.subrange(1, i as int) =~= w@.subrange(1, i - 1).push(w@[i - 1]));
        }
    }
    proof {
        assert(rest@ =~= w@.skip(1));
    }
    if rest.len() > 0 && crate::digits::all_digits_exec(&rest) {
        match crate::digits::parse_digits(&rest) {
            Some(v) => {
                if v < dict.len() as u64 {
                    let entry = dict[v as usize].clone();
                    proof {
                        assert(entry@ == views_of(dict@)[digits_value(w@.skip(1))]);
                    }
                    entry
                } else {
                    Vec::new()
                }
            },
            None => {
                let n = dict.len();
                proof {
                    assert(digits_value(w@.skip(1)) > u64::MAX);
                    assert(views_of(dict@).len() == n as int);
                }
                Vec::new()
            },
        }
    } else {
        rest
    }
}

} // verus!

