//! Character classes, scanning and the handful of string operations the
//! timetable grammar is written with.

use vstd::prelude::*;

verus! {

/// The error of a failed parse: the part of the input at which parsing stopped.
#[derive(Debug, PartialEq, Eq)]
pub struct ParseFailure {
    pub input: String,
}

/// What a list-producing parse gives: the strings' characters, or where it failed.
pub open spec fn list_outcome(r: Result<Vec<String>, ParseFailure>) -> Result<Seq<Seq<char>>, Seq<char>> {
    match r {
        Ok(v) => Ok(v@.map_values(|w: String| w@)),
        Err(e) => Err(e.input@),
    }
}

/// What a string-producing parse gives: the string's characters, or where it failed.
pub open spec fn text_outcome(r: Result<String, ParseFailure>) -> Result<Seq<char>, Seq<char>> {
    match r {
        Ok(v) => Ok(v@),
        Err(e) => Err(e.input@),
    }
}

/// Characters with the Unicode `White_Space` property (what `char::is_whitespace`
/// and `str::trim` go by).
pub open spec fn is_white_space(c: char) -> bool {
    ||| ('\u{9}' <= c && c <= '\u{d}')
    ||| c == ' '
    ||| c == '\u{85}'
    ||| c == '\u{a0}'
    ||| c == '\u{1680}'
    ||| ('\u{2000}' <= c && c <= '\u{200a}')
    ||| c == '\u{2028}'
    ||| c == '\u{2029}'
    ||| c == '\u{202f}'
    ||| c == '\u{205f}'
    ||| c == '\u{3000}'
}

/// Length of the longest prefix of `s` whose characters all satisfy `p`.
pub open spec fn run_len(s: Seq<char>, p: spec_fn(char) -> bool) -> nat
    decreases s.len(),
{
    if s.len() == 0 || !p(s[0]) {
        0
    } else {
        1 + run_len(s.drop_first(), p)
    }
}

/// Length of the longest suffix of `s` whose characters all satisfy `p`.
pub open spec fn back_run_len(s: Seq<char>, p: spec_fn(char) -> bool) -> nat
    decreases s.len(),
{
    if s.len() == 0 || !p(s.last()) {
        0
    } else {
        1 + back_run_len(s.drop_last(), p)
    }
}

/// A run of `p`-characters that starts the sequence and cannot be extended.
pub open spec fn is_run(s: Seq<char>, p: spec_fn(char) -> bool, n: int) -> bool {
    &&& 0 <= n <= s.len()
    &&& forall|j: int| 0 <= j < n ==> #[trigger] p(s[j])
    &&& (n == s.len() || !p(s[n]))
}

pub proof fn lemma_run_len(s: Seq<char>, p: spec_fn(char) -> bool, n: int)
    requires
        is_run(s, p, n),
    ensures
        run_len(s, p) == n,
    decreases n,
{
    if n > 0 {
        assert(p(s[0]));
        assert forall|j: int| 0 <= j < n - 1 implies #[trigger] p(s.drop_first()[j]) by {
            assert(p(s[j + 1]));
        }
        if n < s.len() {
            assert(s.drop_first()[n - 1] == s[n]);
        }
        lemma_run_len(s.drop_first(), p, n - 1);
    }
}

pub proof fn lemma_run_len_is_run(s: Seq<char>, p: spec_fn(char) -> bool)
    ensures
        is_run(s, p, run_len(s, p) as int),
    decreases s.len(),
{
    if s.len() > 0 && p(s[0]) {
        lemma_run_len_is_run(s.drop_first(), p);
        let n = run_len(s, p) as int;
        assert forall|j: int| 0 <= j < n implies #[trigger] p(s[j]) by {
            if j > 0 {
                assert(s[j] == s.drop_first()[j - 1]);
            }
        }
        if n < s.len() {
            assert(s[n] == s.drop_first()[n - 1]);
        }
    }
}

/// A run of `p`-characters that ends the sequence and cannot be extended backwards.
pub open spec fn is_back_run(s: Seq<char>, p: spec_fn(char) -> bool, n: int) -> bool {
    &&& 0 <= n <= s.len()
    &&& forall|j: int| s.len() - n <= j < s.len() ==> #[trigger] p(s[j])
    &&& (n == s.len() || !p(s[s.len() - n - 1]))
}

pub proof fn lemma_back_run_len(s: Seq<char>, p: spec_fn(char) -> bool, n: int)
    requires
        is_back_run(s, p, n),
    ensures
        back_run_len(s, p) == n,
    decreases n,
{
    if n > 0 {
        assert(p(s[s.len() - 1]));
        let t = s.drop_last();
        assert forall|j: int| t.len() - (n - 1) <= j < t.len() implies #[trigger] p(t[j]) by {
            assert(p(s[j]));
        }
        if n < s.len() {
            assert(t[t.len() - (n - 1) - 1] == s[s.len() - n - 1]);
        }
        lemma_back_run_len(t, p, n - 1);
    }
}

pub open spec fn white_space_pred() -> spec_fn(char) -> bool {
    |c: char| is_white_space(c)
}

/// `s` with leading and trailing white space removed (`str::trim`).
pub open spec fn trimmed(s: Seq<char>) -> Seq<char> {
    let a = run_len(s, white_space_pred());
    let t = s.skip(a as int);
    t.take(t.len() - back_run_len(t, white_space_pred()))
}

pub fn is_white_space_char(c: char) -> (r: bool)
    ensures
        r == is_white_space(c),
{
    ('\u{9}' <= c && c <= '\u{d}') || c == ' ' || c == '\u{85}' || c == '\u{a0}' || c
        == '\u{1680}' || ('\u{2000}' <= c && c <= '\u{200a}') || c == '\u{2028}' || c
        == '\u{2029}' || c == '\u{202f}' || c == '\u{205f}' || c == '\u{3000}'
}

/// The characters of `s`, one per element.
pub fn chars_of(s: &str) -> (v: Vec<char>)
    ensures
        v@ == s@,
{
    let n = s.unicode_len();
    let mut v: Vec<char> = Vec::new();
    let mut i: usize = 0;
    while i < n
        invariant
            n == s@.len(),
            i <= n,
            v@ == s@.take(i as int),
        decreases n - i,
    {
        v.push(s.get_char(i));
        i = i + 1;
        assert(v@ =~= s@.take(i as int));
    }
    assert(s@.take(n as int) =~= s@);
    v
}

/// Bounds `(start, end)` of the trimmed part of `s`, in characters.
pub fn trim_bounds(s: &Vec<char>) -> (r: (usize, usize))
    ensures
        r.0 <= r.1 <= s@.len(),
        s@.subrange(r.0 as int, r.1 as int) == trimmed(s@),
{
    let n = s.len();
    let mut a: usize = 0;
    while a < n && is_white_space_char(s[a])
        invariant
            a <= n == s@.len(),
            forall|j: int| 0 <= j < a ==> is_white_space(s@[j]),
        decreases n - a,
    {
        a = a + 1;
    }
    proof {
        assert(is_run(s@, white_space_pred(), a as int));
        lemma_run_len(s@, white_space_pred(), a as int);
    }
    let mut b: usize = n;
    while b > a && is_white_space_char(s[b - 1])
        invariant
            a <= b <= n == s@.len(),
            forall|j: int| b <= j < n ==> is_white_space(s@[j]),
        decreases b - a,
    {
        b = b - 1;
    }
    proof {
        let t = s@.skip(a as int);
        assert(is_back_run(t, white_space_pred(), (n - b) as int)) by {
            assert forall|j: int| t.len() - (n - b) <= j < t.len() implies #[trigger] white_space_pred()(t[j]) by {
                assert(t[j] == s@[j + a]);
            }
            if b > a {
                assert(t[t.len() - (n - b) - 1] == s@[b - 1]);
            }
        }
        lemma_back_run_len(t, white_space_pred(), (n - b) as int);
        assert(s@.subrange(a as int, b as int) =~= t.take(t.len() - (n - b)));
    }
    (a, b)
}

/// `str::trim`: the part of `s` without leading and trailing white space.
pub fn trim(s: &str) -> (r: &str)
    ensures
        r@ == trimmed(s@),
{
    let v = chars_of(s);
    let (a, b) = trim_bounds(&v);
    s.substring_char(a, b)
}


/// What `str::to_lowercase` returns for a string: its lowercase equivalent under
/// the Unicode `Lowercase` property, as the standard library computes it.
pub uninterp spec fn lowercase_of(s: Seq<char>) -> Seq<char>;

/// What `char::to_lowercase` yields for one character, as a string.
pub uninterp spec fn char_lowercase_of(c: char) -> Seq<char>;

/// What `char::is_alphabetic` answers: whether `c` has the Unicode `Alphabetic` property.
pub uninterp spec fn alphabetic_char(c: char) -> bool;

/// Calls `str::to_lowercase`. Claimed: the result is `lowercase_of` of the argument;
/// the Unicode case tables behind it are left unstated.
#[verifier::external_body]
pub(crate) fn to_lowercase(s: &str) -> (r: String)
    ensures
        r@ == lowercase_of(s@),
{
    s.to_lowercase()
}

/// Calls `char::to_lowercase` and collects the characters it yields. Claimed: the
/// result is `char_lowercase_of(c)`; the case tables are left unstated.
#[verifier::external_body]
pub(crate) fn char_to_lowercase(c: char) -> (r: String)
    ensures
        r@ == char_lowercase_of(c),
{
    c.to_lowercase().collect()
}

/// Calls `char::is_alphabetic`. Claimed: the answer is `alphabetic_char(c)`; the
/// Unicode property table behind it is left unstated.
#[verifier::external_body]
pub(crate) fn is_alphabetic(c: char) -> (r: bool)
    ensures
        r == alphabetic_char(c),
{
    c.is_alphabetic()
}

/// `char::is_digit(10)`: an ASCII decimal digit.
pub open spec fn is_decimal_digit(c: char) -> bool {
    '0' <= c && c <= '9'
}

/// The classes of characters the timetable grammar scans for.
pub enum CharClass {
    /// Anything but `(`.
    NotOpenParen,
    /// Anything but `)`.
    NotCloseParen,
    /// Letters (Unicode `Alphabetic`) and `.`: the characters of a specialty token.
    Word,
    /// ` `, `,` and `+`: what separates specialty tokens.
    Separator,
    /// ASCII digits, `-` and `,`: the characters of a group number.
    GroupMark,
    /// Letters (Unicode `Alphabetic`).
    Letter,
}

impl CharClass {
    pub open spec fn holds(self, c: char) -> bool {
        match self {
            CharClass::NotOpenParen => c != '(',
            CharClass::NotCloseParen => c != ')',
            CharClass::Word => alphabetic_char(c) || c == '.',
            CharClass::Separator => c == ' ' || c == ',' || c == '+',
            CharClass::GroupMark => is_decimal_digit(c) || c == '-' || c == ',',
            CharClass::Letter => alphabetic_char(c),
        }
    }

    pub open spec fn pred(self) -> spec_fn(char) -> bool {
        |c: char| self.holds(c)
    }

    pub fn test(&self, c: char) -> (r: bool)
        ensures
            r == self.holds(c),
    {
        match self {
            CharClass::NotOpenParen => c != '(',
            CharClass::NotCloseParen => c != ')',
            CharClass::Word => is_alphabetic(c) || c == '.',
            CharClass::Separator => c == ' ' || c == ',' || c == '+',
            CharClass::GroupMark => ('0' <= c && c <= '9') || c == '-' || c == ',',
            CharClass::Letter => is_alphabetic(c),
        }
    }
}

/// Length of the run of `class` characters in `s` from position `from` on.
pub open spec fn run_from(s: Seq<char>, from: int, class: CharClass) -> nat {
    run_len(s.skip(from), class.pred())
}

/// Scans the run of `class` characters that starts at `from`; returns where it ends.
pub fn scan(s: &Vec<char>, from: usize, class: &CharClass) -> (r: usize)
    requires
        from <= s@.len(),
    ensures
        from <= r <= s@.len(),
        r - from == run_from(s@, from as int, *class),
        forall|j: int| from <= j < r ==> class.holds(#[trigger] s@[j]),
        r == s@.len() || !class.holds(s@[r as int]),
{
    let n = s.len();
    let mut i = from;
    while i < n && class.test(s[i])
        invariant
            from <= i <= n == s@.len(),
            forall|j: int| from <= j < i ==> class.holds(#[trigger] s@[j]),
        decreases n - i,
    {
        i = i + 1;
    }
    proof {
        let t = s@.skip(from as int);
        assert(is_run(t, class.pred(), (i - from) as int)) by {
            assert forall|j: int| 0 <= j < i - from implies #[trigger] class.pred()(t[j]) by {
                assert(t[j] == s@[j + from]);
            }
            if i < n {
                assert(t[i - from] == s@[i as int]);
            }
        }
        lemma_run_len(t, class.pred(), (i - from) as int);
    }
    i
}

/// The characters `s[from..to]` as a string.
pub fn slice_string(s: &str, from: usize, to: usize) -> (r: String)
    requires
        from <= to <= s@.len(),
    ensures
        r@ == s@.subrange(from as int, to as int),
{
    s.substring_char(from, to).to_owned()
}

} // verus!
