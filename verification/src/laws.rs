//! The invertibility of the codec, proved once and for all.
//!
//! The central statement is `lemma_round_trip`: decoding an encoded text
//! gives back the text, up to joining its lines with single newlines. It
//! holds whenever no dictionary word contains the marker or a whitespace
//! character (a word containing either would corrupt the header framing),
//! and the text does not end in an empty line (a trailing newline is not
//! preserved).

use vstd::prelude::*;

use crate::codec::{
    all_words, dec_line_fn, dec_word_fn, decode_line, decode_word, dict_of, distinct_words,
    enc_line_fn, enc_word_fn, encode_line, encode_word, good_pred, good_word, spec_decode,
    spec_encode, ENCODING_CHAR,
};
use crate::digits::{
    all_digits, dec_digits, digits_value, is_digit_char, lemma_dec_digits, lemma_digit_char_plain,
};
use crate::text::{
    char_eq_pred, is_ws_char, join_with, lines_of, normalize_text, parts_clean, seq_clean,
    split_on, split_ws_spec, words_of, ws_pred,
};

verus! {

/// Decoding inverts encoding word by word, against any dictionary.
pub proof fn lemma_word_round_trip(dict: Seq<Seq<char>>, w: Seq<char>)
    ensures
        decode_word(dict, encode_word(dict, w)) == w,
{
    if dict.contains(w) {
        let i = dict.index_of(w);
        assert(0 <= i < dict.len() && dict[i] == w);
        let enc = seq![ENCODING_CHAR] + dec_digits(i as nat);
        lemma_dec_digits(i as nat);
        assert(enc.len() >= 2);
        assert(enc[0] == ENCODING_CHAR);
        let rest = enc.skip(1);
        assert(rest =~= dec_digits(i as nat));
        assert(rest.len() > 0 && all_digits(rest));
        assert(digits_value(rest) == i);
        assert(decode_word(dict, enc) == dict[i]);
    } else if w.len() > 0 && w[0] == ENCODING_CHAR {
        let enc = seq![ENCODING_CHAR] + w;
        assert(enc[0] == ENCODING_CHAR);
        let rest = enc.skip(1);
        assert(rest =~= w);
        assert('@' as int == 64);
        assert(!is_digit_char(w[0]));
        assert(!all_digits(rest));
        assert(decode_word(dict, enc) == rest);
    } else {
        if w.len() == 0 {
            assert(decode_word(dict, w) == w);
        } else {
            assert(w[0] != ENCODING_CHAR);
            assert(decode_word(dict, w) == w);
        }
    }
}

/// An encoded word never contains a space or a newline, provided the word
/// itself does not.
pub proof fn lemma_encode_word_clean(dict: Seq<Seq<char>>, w: Seq<char>)
    requires
        seq_clean(w, char_eq_pred(' ')),
        seq_clean(w, char_eq_pred('\n')),
    ensures
        seq_clean(encode_word(dict, w), char_eq_pred(' ')),
        seq_clean(encode_word(dict, w), char_eq_pred('\n')),
{
    if dict.contains(w) {
        let i = dict.index_of(w);
        lemma_dec_digits(i as nat);
        let enc = seq![ENCODING_CHAR] + dec_digits(i as nat);
        assert forall|j: int| 0 <= j < enc.len() implies !char_eq_pred(' ')(#[trigger] enc[j])
            && !char_eq_pred('\n')(enc[j]) by {
            if j == 0 {
                assert(enc[j] == ENCODING_CHAR);
            } else {
                assert(enc[j] == dec_digits(i as nat)[j - 1]);
                assert(is_digit_char(enc[j]));
                lemma_digit_char_plain(enc[j]);
                assert(is_ws_char(' ') && is_ws_char('\n'));
            }
        }
    } else if w.len() > 0 && w[0] == ENCODING_CHAR {
        let enc = seq![ENCODING_CHAR] + w;
        assert forall|j: int| 0 <= j < enc.len() implies !char_eq_pred(' ')(#[trigger] enc[j])
            && !char_eq_pred('\n')(enc[j]) by {
            if j == 0 {
                assert(enc[j] == ENCODING_CHAR);
            } else {
                assert(enc[j] == w[j - 1]);
            }
        }
    } else {
    }
}

/// Decoding inverts encoding line by line, against any dictionary.
pub proof fn lemma_line_round_trip(dict: Seq<Seq<char>>, line: Seq<char>)
    requires
        seq_clean(line, char_eq_pred('\n')),
    ensures
        decode_line(dict, encode_line(dict, line)) == line,
{
    let sp = char_eq_pred(' ');
    let ws = words_of(line);
    let ew = ws.map_values(enc_word_fn(dict));
    crate::text::lemma_split_on_len(line, sp);
    assert(ws.len() >= 1);
    assert(ew.len() >= 1);
    crate::text::lemma_split_on_clean(line, sp);
    crate::text::lemma_split_on_preserves_clean(line, sp, char_eq_pred('\n'));
    assert forall|x: int| 0 <= x < ew.len() implies seq_clean(#[trigger] ew[x], sp) by {
        assert(ew[x] == encode_word(dict, ws[x]));
        lemma_encode_word_clean(dict, ws[x]);
    }
    crate::text::lemma_split_join(ew, ' ', sp);
    assert(words_of(encode_line(dict, line)) == ew);
    let dw = ew.map_values(dec_word_fn(dict));
    assert forall|x: int| 0 <= x < dw.len() implies #[trigger] dw[x] == ws[x] by {
        assert(ew[x] == encode_word(dict, ws[x]));
        assert(dw[x] == decode_word(dict, ew[x]));
        lemma_word_round_trip(dict, ws[x]);
    }
    assert(dw =~= ws);
    crate::text::lemma_join_split(line, sp, ' ');
    assert(decode_line(dict, encode_line(dict, line)) == join_with(ws, ' '));
}

/// An encoded line never contains a newline, provided the line does not.
pub proof fn lemma_encode_line_clean(dict: Seq<Seq<char>>, line: Seq<char>)
    requires
        seq_clean(line, char_eq_pred('\n')),
    ensures
        seq_clean(encode_line(dict, line), char_eq_pred('\n')),
{
    let sp = char_eq_pred(' ');
    let nl = char_eq_pred('\n');
    let ws = words_of(line);
    let ew = ws.map_values(enc_word_fn(dict));
    crate::text::lemma_split_on_clean(line, sp);
    crate::text::lemma_split_on_preserves_clean(line, sp, nl);
    assert forall|x: int| 0 <= x < ew.len() implies seq_clean(#[trigger] ew[x], nl) by {
        assert(ew[x] == encode_word(dict, ws[x]));
        lemma_encode_word_clean(dict, ws[x]);
    }
    crate::text::lemma_join_clean(ew, ' ', nl);
}

/// An encoded line of a non-empty line is non-empty.
pub proof fn lemma_encode_line_nonempty(dict: Seq<Seq<char>>, line: Seq<char>)
    requires
        line.len() > 0,
    ensures
        encode_line(dict, line).len() > 0,
{
    let sp = char_eq_pred(' ');
    let ws = words_of(line);
    let ew = ws.map_values(enc_word_fn(dict));
    crate::text::lemma_split_on_len(line, sp);
    assert(ws.len() >= 1);
    if ws.len() >= 2 {
        crate::text::lemma_join_len(ew, ' ');
    } else {
        crate::text::lemma_join_split(line, sp, ' ');
        assert(join_with(ws, ' ') == ws[0]);
        assert(ws[0] == line);
        assert(ew[0] == encode_word(dict, line));
        let e = encode_word(dict, line);
        if dict.contains(line) {
            lemma_dec_digits(dict.index_of(line) as nat);
            assert(e.len() > 0);
        } else if line[0] == ENCODING_CHAR {
            assert(e.len() > 0);
        } else {
            assert(e == line);
        }
        assert(encode_line(dict, line) == ew[0]);
    }
}

/// The round trip: decoding an encoded text restores the text with its lines
/// joined by single newlines. This needs two provisos. No dictionary word may
/// contain the marker or a whitespace character: such a word (a repeated,
/// not purely numeric word like `"a@b"` or `"a\tb"`) would corrupt the
/// space-separated dictionary header. And the text must not end in an empty
/// line: one trailing newline is not preserved.
pub proof fn lemma_round_trip(t: Seq<char>)
    requires
        lines_of(t).len() > 0,
        lines_of(t).last().len() > 0,
        forall|k: int, c: int|
            #![trigger dict_of(t)[k][c]]
            0 <= k < dict_of(t).len() && 0 <= c < dict_of(t)[k].len() ==> dict_of(t)[k][c]
                != ENCODING_CHAR && !is_ws_char(dict_of(t)[k][c]),
    ensures
        spec_decode(spec_encode(t)) == Some(normalize_text(t)),
{
    broadcast use vstd::prelude::Seq::lemma_filter_pred;

    let dict = dict_of(t);
    let mp = char_eq_pred(ENCODING_CHAR);
    let nl = char_eq_pred('\n');
    let hdr = join_with(dict, ' ');
    let lv = lines_of(t);
    let enc_lines = lv.map_values(enc_line_fn(dict));
    let body = join_with(enc_lines, '\n');
    let enc = spec_encode(t);
    assert(enc == seq![ENCODING_CHAR] + hdr + seq![ENCODING_CHAR] + body);

    // Dictionary words are non-empty, marker-free and whitespace-free.
    assert forall|k: int| 0 <= k < dict.len() implies (#[trigger] dict[k]).len() > 0
        && seq_clean(dict[k], mp) && seq_clean(dict[k], ws_pred()) by {
        assert(good_pred(t)(distinct_words(all_words(t)).filter(good_pred(t))[k]));
        assert(good_word(t, dict[k]));
        assert(!all_digits(dict[k]));
        if dict[k].len() == 0 {
            assert(all_digits(dict[k]));
        }
        assert forall|c: int| 0 <= c < dict[k].len() implies !mp(#[trigger] dict[k][c])
            && !ws_pred()(dict[k][c]) by {
            assert(dict_of(t)[k][c] != ENCODING_CHAR && !is_ws_char(dict_of(t)[k][c]));
        }
    }
    assert(parts_clean(dict, mp));
    assert(parts_clean(dict, ws_pred()));

    // The header contains no marker, so the document splits at exactly the
    // two framing markers followed by the splits of the body.
    crate::text::lemma_join_clean(dict, ' ', mp);
    assert(seq_clean(hdr, mp));
    let rest = hdr + seq![ENCODING_CHAR] + body;
    crate::text::lemma_split_append_clean_left(Seq::<char>::empty(), rest, ENCODING_CHAR, mp);
    assert(enc =~= Seq::<char>::empty() + seq![ENCODING_CHAR] + rest);
    assert(split_on(enc, mp) == seq![Seq::<char>::empty()] + split_on(rest, mp));
    crate::text::lemma_split_append_clean_left(hdr, body, ENCODING_CHAR, mp);
    assert(split_on(rest, mp) == seq![hdr] + split_on(body, mp));
    let segs = split_on(enc, mp);
    crate::text::lemma_split_on_len(body, mp);
    assert(segs =~= seq![Seq::<char>::empty(), hdr] + split_on(body, mp));
    assert(segs.len() >= 3);
    assert(segs[1] == hdr);
    assert(segs.skip(2) =~= split_on(body, mp));
    crate::text::lemma_join_split(body, mp, ENCODING_CHAR);
    assert(join_with(segs.skip(2), ENCODING_CHAR) == body);

    // The header parses back to the dictionary.
    crate::text::lemma_split_ws_join(dict);
    assert(split_ws_spec(hdr) == dict);

    // The body splits back into the encoded lines.
    crate::text::lemma_split_on_clean(t, nl);
    assert forall|i: int| 0 <= i < lv.len() implies seq_clean(#[trigger] lv[i], nl) by {
        let ps = split_on(t, nl);
        if lv == ps {
            assert(lv[i] == ps[i]);
        } else {
            assert(lv == ps.drop_last());
            assert(lv[i] == ps[i]);
        }
    }
    assert forall|i: int| 0 <= i < enc_lines.len() implies seq_clean(#[trigger] enc_lines[i], nl)
        by {
        assert(enc_lines[i] == encode_line(dict, lv[i]));
        lemma_encode_line_clean(dict, lv[i]);
    }
    assert(parts_clean(enc_lines, nl));
    crate::text::lemma_split_join(enc_lines, '\n', nl);
    assert(split_on(body, nl) == enc_lines);
    assert(enc_lines.last() == encode_line(dict, lv[lv.len() - 1]));
    lemma_encode_line_nonempty(dict, lv[lv.len() - 1]);
    assert(enc_lines.last().len() > 0);
    assert(lines_of(body) == enc_lines);

    // Each encoded line decodes back to its line.
    let dec_lines = enc_lines.map_values(dec_line_fn(dict));
    assert forall|i: int| 0 <= i < dec_lines.len() implies #[trigger] dec_lines[i] == lv[i] by {
        assert(enc_lines[i] == encode_line(dict, lv[i]));
        assert(dec_lines[i] == decode_line(dict, enc_lines[i]));
        lemma_line_round_trip(dict, lv[i]);
    }
    assert(dec_lines =~= lv);
    assert(spec_decode(enc) == Some(join_with(lv, '\n')));
}

/// Escape correctness: a literal word with a leading marker that is not in
/// the dictionary is encoded as exactly one extra leading marker before the
/// word, and decodes back to the word unchanged.
pub proof fn lemma_escape_round_trip(dict: Seq<Seq<char>>, w: Seq<char>)
    requires
        w.len() > 0,
        w[0] == ENCODING_CHAR,
        !dict.contains(w),
    ensures
        encode_word(dict, w) == seq![ENCODING_CHAR] + w,
        decode_word(dict, encode_word(dict, w)) == w,
{
    lemma_word_round_trip(dict, w);
}

/// An out-of-range reference decodes to the empty word; it is not an error.
pub proof fn lemma_out_of_range_reference(dict: Seq<Seq<char>>, w: Seq<char>)
    requires
        w.len() > 1,
        w[0] == ENCODING_CHAR,
        all_digits(w.skip(1)),
        digits_value(w.skip(1)) >= dict.len(),
    ensures
        decode_word(dict, w) == Seq::<char>::empty(),
{
    crate::digits::lemma_digits_value_nonneg(w.skip(1));
}

} // verus!
