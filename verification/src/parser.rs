//! The grammar of the specialty list written inside a course title's parentheses,
//! such as `екон.+мен.` or `a, bbc., c`.

use vstd::prelude::*;
use crate::text::{
    chars_of, lemma_run_len_is_run, run_len, scan, slice_string, trim, trimmed, CharClass,
    ParseFailure,
};

verus! {

/// Length of the specialty token at the start of `s`.
pub open spec fn word_len(s: Seq<char>) -> nat {
    run_len(s, CharClass::Word.pred())
}

/// Length of the separator run at the start of `s`.
pub open spec fn sep_len(s: Seq<char>) -> nat {
    run_len(s, CharClass::Separator.pred())
}

/// The tokens that follow a token: each is preceded by a separator run. Returns the
/// tokens and the input left over, which starts right after the last token.
pub open spec fn tail_tokens(t: Seq<char>) -> (Seq<Seq<char>>, Seq<char>)
    decreases t.len(),
{
    let m = sep_len(t);
    let u = t.skip(m as int);
    let n = word_len(u);
    if m == 0 || n == 0 {
        (seq![], t)
    } else {
        proof {
            lemma_run_len_is_run(t, CharClass::Separator.pred());
            lemma_run_len_is_run(u, CharClass::Word.pred());
        }
        let r = tail_tokens(u.skip(n as int));
        (seq![u.take(n as int)] + r.0, r.1)
    }
}

/// A separated list of tokens at the start of `s`, and what is left of `s` after it.
pub open spec fn tokens(s: Seq<char>) -> (Seq<Seq<char>>, Seq<char>) {
    let n = word_len(s);
    if n == 0 {
        (seq![], s)
    } else {
        let r = tail_tokens(s.skip(n as int));
        (seq![s.take(n as int)] + r.0, r.1)
    }
}

/// The specialty tokens of a parenthesised part of a title, with the part trimmed
/// first, and the unparsed rest.
pub open spec fn title_tokens(value: Seq<char>) -> (Seq<Seq<char>>, Seq<char>) {
    tokens(trimmed(value))
}

/// The characters of each string.
pub open spec fn strings_view(v: Seq<String>) -> Seq<Seq<char>> {
    v.map_values(|w: String| w@)
}

/// The run of letters at the start of `input` and the rest after it; fails, with the
/// whole input, when `input` does not start with a letter.
pub fn alphabetic(input: &str) -> (r: Result<(&str, &str), ParseFailure>)
    ensures
        run_len(input@, CharClass::Letter.pred()) == 0 <==> r is Err,
        r matches Err(e) ==> e.input@ == input@,
        r matches Ok((rest, letters)) ==> {
            let n = run_len(input@, CharClass::Letter.pred()) as int;
            &&& letters@ == input@.take(n)
            &&& rest@ == input@.skip(n)
        },
{
    let v = chars_of(input);
    let n = scan(&v, 0, &CharClass::Letter);
    assert(v@.skip(0) =~= v@);
    if n == 0 {
        Err(ParseFailure { input: input.to_owned() })
    } else {
        Ok((input.substring_char(n, v.len()), input.substring_char(0, n)))
    }
}

/// Splits the specialty list of a parenthesised part of a title into its tokens:
/// after trimming, tokens made of letters and `.` separated by runs of ` `, `,` and
/// `+`. Returns the input left unparsed and the tokens; it never fails.
pub fn parse_title_specialties(value: &str) -> (r: Result<(&str, Vec<String>), ParseFailure>)
    ensures
        r matches Ok((rest, items)) && rest@ == title_tokens(value@).1 && strings_view(items@)
            == title_tokens(value@).0,
{
    let t = trim(value);
    let v = chars_of(t);
    let len = v.len();
    let mut words: Vec<String> = Vec::new();
    let first = scan(&v, 0, &CharClass::Word);
    assert(v@.skip(0) =~= v@);
    if first == 0 {
        assert(t@.subrange(0, len as int) =~= t@);
        return Ok((t.substring_char(0, len), words));
    }
    words.push(slice_string(t, 0, first));
    let mut pos = first;
    assert(strings_view(words@) =~= seq![v@.take(first as int)]);
    loop
        invariant
            pos <= len == v@.len(),
            v@ == t@,
            tokens(v@).0 == strings_view(words@) + tail_tokens(v@.skip(pos as int)).0,
            tokens(v@).1 == tail_tokens(v@.skip(pos as int)).1,
        ensures
            pos <= len,
            tokens(v@).0 == strings_view(words@),
            tokens(v@).1 == v@.skip(pos as int),
        decreases len - pos,
    {
        let ghost cur = v@.skip(pos as int);
        let sep_end = scan(&v, pos, &CharClass::Separator);
        if sep_end == pos {
            break;
        }
        assert(cur.skip((sep_end - pos) as int) =~= v@.skip(sep_end as int));
        let word_end = scan(&v, sep_end, &CharClass::Word);
        if word_end == sep_end {
            break;
        }
        let ghost u = v@.skip(sep_end as int);
        assert(u.take((word_end - sep_end) as int) =~= v@.subrange(sep_end as int, word_end as int));
        assert(u.skip((word_end - sep_end) as int) =~= v@.skip(word_end as int));
        let ghost old_words = strings_view(words@);
        words.push(slice_string(t, sep_end, word_end));
        assert(strings_view(words@) =~= old_words.push(v@.subrange(sep_end as int, word_end as int)));
        pos = word_end;
    }
    assert(t@.subrange(pos as int, len as int) =~= v@.skip(pos as int));
    Ok((t.substring_char(pos, len), words))
}


/// Every token is non-empty and made only of letters and `.`.
pub open spec fn all_words(toks: Seq<Seq<char>>) -> bool {
    forall|i: int| 0 <= i < toks.len() ==> #[trigger] toks[i].len() > 0 && forall|j: int|
        0 <= j < toks[i].len() ==> CharClass::Word.holds(#[trigger] toks[i][j])
}

proof fn lemma_tail_tokens_words(t: Seq<char>)
    ensures
        all_words(tail_tokens(t).0),
    decreases t.len(),
{
    let m = sep_len(t);
    let u = t.skip(m as int);
    let n = word_len(u);
    lemma_run_len_is_run(t, CharClass::Separator.pred());
    lemma_run_len_is_run(u, CharClass::Word.pred());
    if m > 0 && n > 0 {
        lemma_tail_tokens_words(u.skip(n as int));
        let first = u.take(n as int);
        let r = tail_tokens(u.skip(n as int)).0;
        let all = seq![first] + r;
        assert forall|i: int| 0 <= i < all.len() implies #[trigger] all[i].len() > 0 && forall|j: int|
            0 <= j < all[i].len() ==> CharClass::Word.holds(#[trigger] all[i][j]) by {
            if i == 0 {
                assert(all[0] == first);
                assert forall|j: int| 0 <= j < first.len() implies CharClass::Word.holds(#[trigger] first[j]) by {
                    assert(CharClass::Word.pred()(u[j]));
                }
            } else {
                assert(all[i] == r[i - 1]);
            }
        }
    }
}

/// Every specialty token of a title part is non-empty and made only of letters and `.`.
pub proof fn law_tokens_are_words(value: Seq<char>)
    ensures
        all_words(title_tokens(value).0),
{
    let s = trimmed(value);
    let n = word_len(s);
    lemma_run_len_is_run(s, CharClass::Word.pred());
    if n > 0 {
        lemma_tail_tokens_words(s.skip(n as int));
        let first = s.take(n as int);
        let r = tail_tokens(s.skip(n as int)).0;
        let all = seq![first] + r;
        assert forall|i: int| 0 <= i < all.len() implies #[trigger] all[i].len() > 0 && forall|j: int|
            0 <= j < all[i].len() ==> CharClass::Word.holds(#[trigger] all[i][j]) by {
            if i == 0 {
                assert(all[0] == first);
                assert forall|j: int| 0 <= j < first.len() implies CharClass::Word.holds(#[trigger] first[j]) by {
                    assert(CharClass::Word.pred()(s[j]));
                }
            } else {
                assert(all[i] == r[i - 1]);
            }
        }
    }
}
} // verus!
