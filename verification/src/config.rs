//! The configuration of specialties and what it decides about course titles: which
//! specialties a title names, how its group is written, and the title without the
//! specialty lists.

use vstd::prelude::*;
use crate::parser::{parse_title_specialties, strings_view, title_tokens};
use crate::text::{
    chars_of, lemma_run_len, lemma_run_len_is_run, run_len, scan, slice_string, to_lowercase,
    CharClass, ParseFailure, lowercase_of, list_outcome, text_outcome, trimmed, char_lowercase_of,
    char_to_lowercase, trim, is_run,
};
use crate::strmap::StrMap;

verus! {

/// A specialty: its name and the aliases it also goes by.
pub struct SpecialtyConfig {
    pub aliases: Vec<String>,
    pub name: String,
}

/// The characters of a [`SpecialtyConfig`].
pub struct SpecialtyView {
    pub name: Seq<char>,
    pub aliases: Seq<Seq<char>>,
}

impl View for SpecialtyConfig {
    type V = SpecialtyView;

    open spec fn view(&self) -> SpecialtyView {
        SpecialtyView { name: self.name@, aliases: strings_view(self.aliases@) }
    }
}

/// `s` without one trailing `.`, if it ends with one.
pub open spec fn without_final_dot(s: Seq<char>) -> Seq<char> {
    if s.len() > 0 && s.last() == '.' {
        s.drop_last()
    } else {
        s
    }
}

/// `p` occurs in `s` as a contiguous part.
pub open spec fn occurs_in(p: Seq<char>, s: Seq<char>) -> bool {
    exists|i: int| 0 <= i && i + p.len() <= s.len() && #[trigger] s.subrange(i, i + p.len()) == p
}

/// Whether `potential` names the specialty: without a final `.` and in lower case, it
/// occurs in the lower-case name, or it is one of the aliases.
pub open spec fn alias_matches(specialty: SpecialtyView, potential: Seq<char>) -> bool {
    let p = lowercase_of(without_final_dot(potential));
    occurs_in(p, lowercase_of(specialty.name)) || specialty.aliases.contains(p)
}

/// Whether `needle` occurs in `hay`.
fn occurs(needle: &Vec<char>, hay: &Vec<char>) -> (r: bool)
    ensures
        r == occurs_in(needle@, hay@),
{
    let m = needle.len();
    let n = hay.len();
    if m > n {
        return false;
    }
    let mut i: usize = 0;
    while i <= n - m
        invariant
            m == needle@.len(),
            n == hay@.len(),
            m <= n,
            i <= n - m + 1,
            forall|k: int| 0 <= k < i ==> #[trigger] hay@.subrange(k, k + m) != needle@,
        decreases n - m + 1 - i,
    {
        let mut j: usize = 0;
        while j < m && hay[i + j] == needle[j]
            invariant
                m == needle@.len(),
                n == hay@.len(),
                i + m <= n,
                j <= m,
                forall|t: int| 0 <= t < j ==> hay@[i + t] == needle@[t],
            decreases m - j,
        {
            j = j + 1;
        }
        if j == m {
            assert(hay@.subrange(i as int, i + m) =~= needle@);
            return true;
        }
        assert(hay@.subrange(i as int, i + m)[j as int] != needle@[j as int]);
        i = i + 1;
    }
    false
}

impl SpecialtyConfig {
    /// Whether `potential_alias` names this specialty. A final `.` is ignored, and
    /// case too: the alias matches when it occurs in the name, or is one of the aliases.
    pub fn matches(&self, potential_alias: &str) -> (r: bool)
        ensures
            r == alias_matches(self@, potential_alias@),
    {
        let v = chars_of(potential_alias);
        let len = v.len();
        let clean = if len > 0 && v[len - 1] == '.' {
            potential_alias.substring_char(0, len - 1)
        } else {
            potential_alias
        };
        assert(clean@ == without_final_dot(potential_alias@)) by {
            if len > 0 && v@[len - 1] == '.' {
                assert(potential_alias@.subrange(0, len - 1) =~= potential_alias@.drop_last());
            }
        }
        let clean_name = to_lowercase(self.name.as_str());
        let clean_alias = to_lowercase(clean);
        if occurs(&chars_of(clean_alias.as_str()), &chars_of(clean_name.as_str())) {
            return true;
        }
        let n = self.aliases.len();
        let mut i: usize = 0;
        while i < n
            invariant
                n == self.aliases@.len(),
                i <= n,
                clean_alias@ == lowercase_of(without_final_dot(potential_alias@)),
                forall|k: int| 0 <= k < i ==> #[trigger] self.aliases@[k]@ != clean_alias@,
            decreases n - i,
        {
            if self.aliases[i] == clean_alias {
                assert(self@.aliases[i as int] == clean_alias@);
                return true;
            }
            i = i + 1;
        }
        assert(!self@.aliases.contains(clean_alias@)) by {
            if self@.aliases.contains(clean_alias@) {
                let k = choose|k: int| 0 <= k < self@.aliases.len() && self@.aliases[k] == clean_alias@;
                assert(self.aliases@[k]@ == clean_alias@);
            }
        }
        false
    }
}

/// The name of the first specialty that `alias` names, if any.
pub open spec fn first_match(specialties: Seq<SpecialtyView>, alias: Seq<char>) -> Option<Seq<char>>
    decreases specialties.len(),
{
    if specialties.len() == 0 {
        None
    } else if alias_matches(specialties[0], alias) {
        Some(specialties[0].name)
    } else {
        first_match(specialties.drop_first(), alias)
    }
}

/// The specialties and the one a title falls back to.
pub struct ConfigParams {
    pub default_specialty: String,
    pub specialties_configs: Vec<SpecialtyConfig>,
}

/// The characters of a [`ConfigParams`].
pub struct ConfigView {
    pub default_specialty: Seq<char>,
    pub specialties: Seq<SpecialtyView>,
}

impl View for ConfigParams {
    type V = ConfigView;

    open spec fn view(&self) -> ConfigView {
        ConfigView {
            default_specialty: self.default_specialty@,
            specialties: self.specialties_configs@.map_values(|c: SpecialtyConfig| c@),
        }
    }
}

impl ConfigParams {
    /// The name of the first specialty that `alias` names.
    pub fn name_for_alias(&self, alias: &str) -> (r: Option<String>)
        ensures
            r matches Some(name) ==> first_match(self@.specialties, alias@) == Some(name@),
            r is None ==> first_match(self@.specialties, alias@) is None,
    {
        let ghost all = self@.specialties;
        let n = self.specialties_configs.len();
        let mut i: usize = 0;
        assert(all.skip(0) =~= all);
        while i < n
            invariant
                n == all.len(),
                all == self@.specialties,
                i <= n,
                first_match(all, alias@) == first_match(all.skip(i as int), alias@),
            decreases n - i,
        {
            assert(all.skip(i as int)[0] == self.specialties_configs@[i as int]@);
            assert(all.skip(i as int).drop_first() =~= all.skip(i + 1));
            if self.specialties_configs[i].matches(alias) {
                return Some(self.specialties_configs[i].name.clone());
            }
            i = i + 1;
        }
        assert(all.skip(n as int) =~= Seq::<SpecialtyView>::empty());
        None
    }
}


/// The names that tokens pick out, in order, skipping tokens that name nothing.
pub open spec fn known_names(specialties: Seq<SpecialtyView>, items: Seq<Seq<char>>) -> Seq<Seq<char>>
    decreases items.len(),
{
    if items.len() == 0 {
        Seq::empty()
    } else {
        known_names(specialties, items.drop_last()) + match first_match(specialties, items.last()) {
            Some(name) => seq![name],
            None => Seq::empty(),
        }
    }
}

/// `names` followed by what a parse of the rest gives; a failure stays a failure.
pub open spec fn prepend_names(
    names: Seq<Seq<char>>,
    r: Result<Seq<Seq<char>>, Seq<char>>,
) -> Result<Seq<Seq<char>>, Seq<char>> {
    match r {
        Ok(more) => Ok(names + more),
        Err(e) => Err(e),
    }
}

/// The specialties named in the parenthesised parts of a title, in order: each part
/// runs from a `(` to the next `)` (or to the end), and its tokens are looked up.
/// Fails where a part starts the remaining text with `(`, or where a `(` is followed by
/// `)` or by nothing; the failure carries the remaining text at that point.
pub open spec fn named_specialties(specialties: Seq<SpecialtyView>, value: Seq<char>) -> Result<
    Seq<Seq<char>>,
    Seq<char>,
>
    decreases value.len(),
{
    if value.len() == 0 {
        Ok(Seq::empty())
    } else {
        let n = run_len(value, CharClass::NotOpenParen.pred());
        proof {
            lemma_run_len_is_run(value, CharClass::NotOpenParen.pred());
        }
        if n == 0 {
            Err(value)
        } else if n == value.len() {
            Ok(Seq::empty())
        } else {
            let after = value.skip((n + 1) as int);
            let m = run_len(after, CharClass::NotCloseParen.pred());
            proof {
                lemma_run_len_is_run(after, CharClass::NotCloseParen.pred());
            }
            if m == 0 {
                Err(after)
            } else {
                prepend_names(
                    known_names(specialties, title_tokens(after.take(m as int)).0),
                    named_specialties(specialties, after.skip(m as int)),
                )
            }
        }
    }
}

/// What identifying the specialties of `title` gives: the named specialties, or the
/// default specialty when none is named.
pub open spec fn identified(config: ConfigView, title: Seq<char>) -> Result<Seq<Seq<char>>, Seq<char>> {
    match named_specialties(config.specialties, title) {
        Ok(names) => Ok(
            if names.len() == 0 {
                seq![config.default_specialty]
            } else {
                names
            },
        ),
        Err(e) => Err(e),
    }
}

/// The name of some configured specialty.
pub open spec fn is_specialty_name(config: ConfigView, name: Seq<char>) -> bool {
    exists|k: int| 0 <= k < config.specialties.len() && #[trigger] config.specialties[k].name == name
}

/// Identifying is defined on `title`: when it falls back to the default specialty,
/// that default is one of the configured specialties.
pub open spec fn identify_defined(config: ConfigView, title: Seq<char>) -> bool {
    named_specialties(config.specialties, title) matches Ok(names) && names.len() == 0
        ==> is_specialty_name(config, config.default_specialty)
}

pub proof fn lemma_first_match_is_name(specialties: Seq<SpecialtyView>, alias: Seq<char>)
    ensures
        first_match(specialties, alias) matches Some(name) ==> exists|k: int|
            0 <= k < specialties.len() && #[trigger] specialties[k].name == name,
    decreases specialties.len(),
{
    if specialties.len() > 0 && !alias_matches(specialties[0], alias) {
        lemma_first_match_is_name(specialties.drop_first(), alias);
        if let Some(name) = first_match(specialties, alias) {
            let k = choose|k: int| 0 <= k < specialties.len() - 1 && #[trigger] specialties.drop_first()[k].name == name;
            assert(specialties[k + 1].name == name);
        }
    }
}

pub proof fn lemma_known_names_are_names(config: ConfigView, items: Seq<Seq<char>>)
    ensures
        forall|i: int| 0 <= i < known_names(config.specialties, items).len() ==>
            is_specialty_name(config, #[trigger] known_names(config.specialties, items)[i]),
    decreases items.len(),
{
    if items.len() > 0 {
        lemma_known_names_are_names(config, items.drop_last());
        lemma_first_match_is_name(config.specialties, items.last());
        let pre = known_names(config.specialties, items.drop_last());
        let all = known_names(config.specialties, items);
        assert forall|i: int| 0 <= i < all.len() implies is_specialty_name(config, #[trigger] all[i]) by {
            if i < pre.len() {
                assert(all[i] == pre[i]);
            }
        }
    }
}

pub proof fn lemma_named_specialties_are_names(config: ConfigView, value: Seq<char>)
    ensures
        named_specialties(config.specialties, value) matches Ok(names) ==> forall|i: int|
            0 <= i < names.len() ==> is_specialty_name(config, #[trigger] names[i]),
    decreases value.len(),
{
    if value.len() > 0 {
        lemma_run_len_is_run(value, CharClass::NotOpenParen.pred());
        let n = run_len(value, CharClass::NotOpenParen.pred());
        if 0 < n < value.len() {
            let after = value.skip((n + 1) as int);
            lemma_run_len_is_run(after, CharClass::NotCloseParen.pred());
            let m = run_len(after, CharClass::NotCloseParen.pred());
            if m > 0 {
                let names = known_names(config.specialties, title_tokens(after.take(m as int)).0);
                lemma_known_names_are_names(config, title_tokens(after.take(m as int)).0);
                lemma_named_specialties_are_names(config, after.skip(m as int));
                if let Ok(more) = named_specialties(config.specialties, after.skip(m as int)) {
                    assert forall|i: int| 0 <= i < (names + more).len() implies is_specialty_name(
                        config,
                        #[trigger] (names + more)[i],
                    ) by {
                        if i < names.len() {
                            assert((names + more)[i] == names[i]);
                        } else {
                            assert((names + more)[i] == more[i - names.len()]);
                        }
                    }
                }
            }
        }
    }
}

impl ConfigParams {
    /// The specialties named in the parenthesised parts of `title`, without the
    /// fallback to the default.
    fn named_specialties_of(&self, title: &str) -> (r: Result<Vec<String>, ParseFailure>)
        ensures
            list_outcome(r) == named_specialties(self@.specialties, title@),
    {
        let ghost cfgs = self@.specialties;
        let v = chars_of(title);
        let len = v.len();
        let mut result: Vec<String> = Vec::new();
        let mut pos: usize = 0;
        assert(v@.skip(0) =~= v@);
        assert(strings_view(result@) =~= Seq::<Seq<char>>::empty());
        loop
            invariant
                pos <= len == v@.len(),
                v@ == title@,
                cfgs == self@.specialties,
                named_specialties(cfgs, v@) == prepend_names(
                    strings_view(result@),
                    named_specialties(cfgs, v@.skip(pos as int)),
                ),
            ensures
                named_specialties(cfgs, v@) == Ok::<Seq<Seq<char>>, Seq<char>>(strings_view(result@)),
            decreases len - pos,
        {
            let ghost cur = v@.skip(pos as int);
            if pos == len {
                assert(cur =~= Seq::<char>::empty());
                assert(strings_view(result@) + Seq::<Seq<char>>::empty() =~= strings_view(result@));
                break;
            }
            let a = scan(&v, pos, &CharClass::NotOpenParen);
            if a == pos {
                assert(title@.subrange(pos as int, len as int) =~= cur);
                return Err(ParseFailure { input: slice_string(title, pos, len) });
            }
            if a == len {
                assert(strings_view(result@) + Seq::<Seq<char>>::empty() =~= strings_view(result@));
                break;
            }
            let b = a + 1;
            assert(cur.skip((a - pos) + 1) =~= v@.skip(b as int));
            let c = scan(&v, b, &CharClass::NotCloseParen);
            if c == b {
                assert(title@.subrange(b as int, len as int) =~= v@.skip(b as int));
                return Err(ParseFailure { input: slice_string(title, b, len) });
            }
            assert(v@.skip(b as int).take((c - b) as int) =~= v@.subrange(b as int, c as int));
            assert(v@.skip(b as int).skip((c - b) as int) =~= v@.skip(c as int));
            let internal = title.substring_char(b, c);
            let items = match parse_title_specialties(internal) {
                Ok((_, items)) => items,
                Err(e) => return Err(e),
            };
            let ghost base = strings_view(result@);
            let ghost toks = strings_view(items@);
            let mut j: usize = 0;
            assert(toks.take(0) =~= Seq::<Seq<char>>::empty());
            assert(base + Seq::<Seq<char>>::empty() =~= base);
            while j < items.len()
                invariant
                    j <= items@.len(),
                    toks == strings_view(items@),
                    cfgs == self@.specialties,
                    strings_view(result@) == base + known_names(cfgs, toks.take(j as int)),
                decreases items@.len() - j,
            {
                assert(toks.take(j + 1).drop_last() =~= toks.take(j as int));
                let ghost before = strings_view(result@);
                match self.name_for_alias(items[j].as_str()) {
                    Some(name) => {
                        result.push(name);
                        assert(strings_view(result@) =~= before.push(name@));
                    },
                    None => {},
                }
                j = j + 1;
                assert(strings_view(result@) =~= base + known_names(cfgs, toks.take(j as int)));
            }
            assert(toks.take(items@.len() as int) =~= toks);
            proof {
                if let Ok(more) = named_specialties(cfgs, v@.skip(c as int)) {
                    assert(base + known_names(cfgs, toks) + more =~= base + (known_names(cfgs, toks) + more));
                }
            }
            pos = c;
        }
        Ok(result)
    }

    /// Whether the default specialty is one of the configured ones.
    fn default_is_known(&self) -> (r: bool)
        ensures
            r == is_specialty_name(self@, self@.default_specialty),
    {
        let n = self.specialties_configs.len();
        let mut i: usize = 0;
        while i < n
            invariant
                n == self@.specialties.len(),
                i <= n,
                forall|k: int| 0 <= k < i ==> #[trigger] self@.specialties[k].name != self@.default_specialty,
            decreases n - i,
        {
            if self.specialties_configs[i].name == self.default_specialty {
                assert(self@.specialties[i as int].name == self@.default_specialty);
                return true;
            }
            i = i + 1;
        }
        false
    }

    /// The specialties that `title` names, or the default one when it names none.
    fn identify_specialties_impl(&self, title: &str) -> (r: Result<Vec<String>, ParseFailure>)
        requires
            identify_defined(self@, title@),
        ensures
            list_outcome(r) == identified(self@, title@),
            r matches Ok(names) ==> names@.len() > 0 && forall|i: int| 0 <= i < names@.len()
                ==> is_specialty_name(self@, #[trigger] names@[i]@),
    {
        proof {
            lemma_named_specialties_are_names(self@, title@);
        }
        match self.named_specialties_of(title) {
            Ok(mut names) => {
                if names.len() == 0 {
                    names.push(self.default_specialty.clone());
                    assert(strings_view(names@) =~= seq![self@.default_specialty]);
                } else {
                    assert forall|i: int| 0 <= i < names@.len() implies is_specialty_name(
                        self@,
                        #[trigger] names@[i]@,
                    ) by {
                        assert(strings_view(names@)[i] == names@[i]@);
                    }
                }
                Ok(names)
            },
            Err(e) => Err(e),
        }
    }
}

/// Some token of the parenthesised text names a specialty.
pub open spec fn names_inside(specialties: Seq<SpecialtyView>, text: Seq<char>) -> bool {
    let toks = title_tokens(text).0;
    exists|i: int| 0 <= i < toks.len() && #[trigger] first_match(specialties, toks[i]) is Some
}

/// `text` followed by what a parse of the rest gives; a failure stays a failure.
pub open spec fn prepend_text(text: Seq<char>, r: Result<Seq<char>, Seq<char>>) -> Result<Seq<char>, Seq<char>> {
    match r {
        Ok(more) => Ok(text + more),
        Err(e) => Err(e),
    }
}

/// The title with every parenthesised part that names a specialty dropped, together
/// with one space right after it; other parenthesised parts are kept. Fails where a
/// `(` is followed by `)` or by nothing (carrying the text after the `(`), or where a
/// part is not closed (carrying the empty text).
pub open spec fn normalized(specialties: Seq<SpecialtyView>, rest: Seq<char>) -> Result<Seq<char>, Seq<char>>
    decreases rest.len(),
{
    if rest.len() == 0 {
        Ok(Seq::empty())
    } else {
        let n = run_len(rest, CharClass::NotOpenParen.pred());
        proof {
            lemma_run_len_is_run(rest, CharClass::NotOpenParen.pred());
        }
        let chunk = rest.take(n as int);
        if n == rest.len() {
            Ok(chunk)
        } else {
            let after = rest.skip((n + 1) as int);
            let m = run_len(after, CharClass::NotCloseParen.pred());
            proof {
                lemma_run_len_is_run(after, CharClass::NotCloseParen.pred());
            }
            if m == 0 {
                Err(after)
            } else if m == after.len() {
                Err(Seq::empty())
            } else {
                let internal = after.take(m as int);
                let next = after.skip((m + 1) as int);
                if !names_inside(specialties, internal) {
                    prepend_text(
                        chunk + seq!['('] + internal + seq![')'],
                        normalized(specialties, next),
                    )
                } else if next.len() > 0 && next[0] == ' ' {
                    prepend_text(chunk, normalized(specialties, next.drop_first()))
                } else {
                    prepend_text(chunk, normalized(specialties, next))
                }
            }
        }
    }
}

/// The word `лекція` (a lecture), written instead of a group number.
pub open spec fn lecture_word() -> Seq<char> {
    seq!['\u{43b}', '\u{435}', '\u{43a}', '\u{446}', '\u{456}', '\u{44f}']
}

/// `s` starts with `лекція` in any case, compared character by character.
pub open spec fn starts_with_lecture(s: Seq<char>) -> bool {
    &&& s.len() >= 6
    &&& forall|i: int| 0 <= i < 6 ==> char_lowercase_of(#[trigger] s[i]) == char_lowercase_of(lecture_word()[i])
}

/// The group number at the start of `s` and the rest after it: `лекція` in any case,
/// or else a run of ASCII digits, `-` and `,`. Fails, with all of `s`, when neither
/// starts it.
pub open spec fn group_number_split(s: Seq<char>) -> Result<(Seq<char>, Seq<char>), Seq<char>> {
    if starts_with_lecture(s) {
        Ok((s.skip(6), s.take(6)))
    } else {
        let n = run_len(s, CharClass::GroupMark.pred());
        if n == 0 {
            Err(s)
        } else {
            Ok((s.skip(n as int), s.take(n as int)))
        }
    }
}

/// Every specialty mapped to the group number of the trimmed `group`.
pub open spec fn grouped(specialties: Seq<Seq<char>>, group: Seq<char>) -> Result<
    Map<Seq<char>, Seq<char>>,
    Seq<char>,
> {
    match group_number_split(trimmed(group)) {
        Ok((_, number)) => Ok(Map::new(|k: Seq<char>| specialties.contains(k), |k: Seq<char>| number)),
        Err(e) => Err(e),
    }
}

/// What a parse into a map gives: the map's contents, or where it failed.
pub open spec fn map_outcome(r: Result<StrMap<String>, ParseFailure>) -> Result<
    Map<Seq<char>, Seq<char>>,
    Seq<char>,
> {
    match r {
        Ok(m) => Ok(m@),
        Err(e) => Err(e.input@),
    }
}

/// The `k`-th character of `лекція`.
fn lecture_char(k: usize) -> (c: char)
    requires
        k < 6,
    ensures
        c == lecture_word()[k as int],
{
    match k {
        0 => '\u{43b}',
        1 => '\u{435}',
        2 => '\u{43a}',
        3 => '\u{446}',
        4 => '\u{456}',
        _ => '\u{44f}',
    }
}

/// Whether `v` starts with `лекція` in any case.
fn starts_with_lecture_chars(v: &Vec<char>) -> (r: bool)
    ensures
        r == starts_with_lecture(v@),
{
    if v.len() < 6 {
        return false;
    }
    let mut k: usize = 0;
    while k < 6
        invariant
            v@.len() >= 6,
            k <= 6,
            forall|i: int| 0 <= i < k ==> char_lowercase_of(#[trigger] v@[i]) == char_lowercase_of(lecture_word()[i]),
        decreases 6 - k,
    {
        let lower = char_to_lowercase(v[k]);
        let expected = char_to_lowercase(lecture_char(k));
        if lower != expected {
            return false;
        }
        k = k + 1;
    }
    true
}

/// The group number at the start of `input` (`лекція` in any case, or a run of ASCII
/// digits, `-` and `,`) and the rest of `input` after it.
pub fn parse_group_number(input: &str) -> (r: Result<(&str, &str), ParseFailure>)
    ensures
        match group_number_split(input@) {
            Ok((rest, number)) => r matches Ok((rest2, number2)) && rest2@ == rest && number2@ == number,
            Err(e) => r matches Err(e2) && e2.input@ == e,
        },
{
    let v = chars_of(input);
    let len = v.len();
    if starts_with_lecture_chars(&v) {
        return Ok((input.substring_char(6, len), input.substring_char(0, 6)));
    }
    let n = scan(&v, 0, &CharClass::GroupMark);
    assert(v@.skip(0) =~= v@);
    if n == 0 {
        return Err(ParseFailure { input: input.to_owned() });
    }
    Ok((input.substring_char(n, len), input.substring_char(0, n)))
}

impl ConfigParams {
    /// Whether some token of the parenthesised `text` names a specialty.
    pub fn has_course_names_inside(&self, text: &str) -> (r: bool)
        ensures
            r == names_inside(self@.specialties, text@),
    {
        let items = match parse_title_specialties(text) {
            Ok((_, items)) => items,
            Err(_) => return false,
        };
        let ghost toks = strings_view(items@);
        let mut i: usize = 0;
        while i < items.len()
            invariant
                i <= items@.len(),
                toks == strings_view(items@),
                toks == title_tokens(text@).0,
                forall|k: int| 0 <= k < i ==> #[trigger] first_match(self@.specialties, toks[k]) is None,
            decreases items@.len() - i,
        {
            if self.name_for_alias(items[i].as_str()).is_some() {
                assert(first_match(self@.specialties, toks[i as int]) is Some);
                return true;
            }
            i = i + 1;
        }
        false
    }

    /// The title without the parenthesised parts that name specialties.
    #[verifier::rlimit(60)]
    fn normalize_title_impl(&self, title: &str) -> (r: Result<String, ParseFailure>)
        ensures
            text_outcome(r) == normalized(self@.specialties, title@),
    {
        let ghost cfgs = self@.specialties;
        let v = chars_of(title);
        let len = v.len();
        let mut text = String::new();
        let mut pos: usize = 0;
        assert(v@.skip(0) =~= v@);
        proof {
            reveal_strlit("(");
            reveal_strlit(")");
        }
        loop
            invariant_except_break
                normalized(cfgs, v@) == prepend_text(text@, normalized(cfgs, v@.skip(pos as int))),
            invariant
                pos <= len == v@.len(),
                v@ == title@,
                cfgs == self@.specialties,
                "("@ == seq!['('],
                ")"@ == seq![')'],
            ensures
                normalized(cfgs, v@) == Ok::<Seq<char>, Seq<char>>(text@),
            decreases len - pos,
        {
            let ghost cur = v@.skip(pos as int);
            if pos == len {
                assert(cur =~= Seq::<char>::empty());
                assert(text@ + Seq::<char>::empty() =~= text@);
                break;
            }
            let a = scan(&v, pos, &CharClass::NotOpenParen);
            assert(cur.take((a - pos) as int) =~= v@.subrange(pos as int, a as int));
            assert(cur.len() == len - pos);
            assert(a == len ==> normalized(cfgs, cur) == Ok::<Seq<char>, Seq<char>>(v@.subrange(pos as int, a as int)));
            let ghost before = text@;
            text.append(title.substring_char(pos, a));
            assert(cur.take((a - pos) as int) =~= v@.subrange(pos as int, a as int));
            if a == len {
                break;
            }
            let b = a + 1;
            assert(cur.skip((a - pos) + 1) =~= v@.skip(b as int));
            let c = scan(&v, b, &CharClass::NotCloseParen);
            if c == b {
                assert(title@.subrange(b as int, len as int) =~= v@.skip(b as int));
                return Err(ParseFailure { input: slice_string(title, b, len) });
            }
            if c == len {
                assert(title@.subrange(len as int, len as int) =~= Seq::<char>::empty());
                return Err(ParseFailure { input: slice_string(title, len, len) });
            }
            assert(v@.skip(b as int).take((c - b) as int) =~= v@.subrange(b as int, c as int));
            assert(v@.skip(b as int).skip((c - b) + 1) =~= v@.skip(c + 1));
            let internal = title.substring_char(b, c);
            let next = c + 1;
            let ghost chunk = v@.subrange(pos as int, a as int);
            if !self.has_course_names_inside(internal) {
                text.append("(");
                text.append(internal);
                text.append(")");
                proof {
                    if let Ok(more) = normalized(cfgs, v@.skip(next as int)) {
                        assert(before + (chunk + seq!['('] + internal@ + seq![')'] + more) =~= text@ + more);
                    }
                }
                pos = next;
            } else {
                proof {
                    if let Ok(more) = normalized(cfgs, v@.skip(next as int)) {
                        assert(before + (chunk + more) =~= text@ + more);
                    }
                }
                if next < len && v[next] == ' ' {
                    assert(v@.skip(next as int).drop_first() =~= v@.skip(next + 1));
                    proof {
                        if let Ok(more) = normalized(cfgs, v@.skip(next + 1)) {
                            assert(before + (chunk + more) =~= text@ + more);
                        }
                    }
                    pos = next + 1;
                } else {
                    pos = next;
                }
            }
        }
        Ok(text)
    }
}

/// What decides the parts of a course title: the specialties it names, the groups it
/// is held for, and the title without the specialty lists.
pub trait CourseChecker {
    /// Identifying the specialties of `title` is defined (it would not abort).
    spec fn identify_allowed(&self, title: Seq<char>) -> bool;

    /// The specialties of `title`, or where parsing it failed.
    spec fn identify_spec(&self, title: Seq<char>) -> Result<Seq<Seq<char>>, Seq<char>>;

    /// Each specialty with the group that `group` names, or where parsing it failed.
    spec fn groups_spec(&self, specialties: Seq<Seq<char>>, group: Seq<char>) -> Result<
        Map<Seq<char>, Seq<char>>,
        Seq<char>,
    >;

    /// The normalised `title`, or where parsing it failed.
    spec fn normalize_spec(&self, title: Seq<char>) -> Result<Seq<char>, Seq<char>>;

    fn identify_sepecialties(&self, title: &str) -> (r: Result<Vec<String>, ParseFailure>)
        requires
            self.identify_allowed(title@),
        ensures
            list_outcome(r) == self.identify_spec(title@),
    ;

    fn parse_groups(&self, specialties: &Vec<String>, group: &str) -> (r: Result<
        StrMap<String>,
        ParseFailure,
    >)
        ensures
            map_outcome(r) == self.groups_spec(strings_view(specialties@), group@),
    ;

    fn normalize_title(&self, title: &str) -> (r: Result<String, ParseFailure>)
        ensures
            text_outcome(r) == self.normalize_spec(title@),
    ;
}

impl CourseChecker for ConfigParams {
    open spec fn identify_allowed(&self, title: Seq<char>) -> bool {
        identify_defined(self@, title)
    }

    open spec fn identify_spec(&self, title: Seq<char>) -> Result<Seq<Seq<char>>, Seq<char>> {
        identified(self@, title)
    }

    open spec fn groups_spec(&self, specialties: Seq<Seq<char>>, group: Seq<char>) -> Result<
        Map<Seq<char>, Seq<char>>,
        Seq<char>,
    > {
        grouped(specialties, group)
    }

    open spec fn normalize_spec(&self, title: Seq<char>) -> Result<Seq<char>, Seq<char>> {
        normalized(self@.specialties, title)
    }

    /// The specialties that `title` names in its parenthesised parts, or the default
    /// specialty when it names none.
    fn identify_sepecialties(&self, title: &str) -> (r: Result<Vec<String>, ParseFailure>) {
        self.identify_specialties_impl(title)
    }

    /// Maps every specialty to the group number written in `group` (trimmed).
    fn parse_groups(&self, specialties: &Vec<String>, group: &str) -> (r: Result<
        StrMap<String>,
        ParseFailure,
    >) {
        let group = trim(group);
        let number = match parse_group_number(group) {
            Ok((_, number)) => number,
            Err(e) => return Err(e),
        };
        let ghost keys = strings_view(specialties@);
        let ghost num = number@;
        let mut map: StrMap<String> = StrMap::new();
        let mut i: usize = 0;
        assert(map@ =~= Map::new(|k: Seq<char>| keys.take(0).contains(k), |k: Seq<char>| num));
        while i < specialties.len()
            invariant
                i <= specialties@.len(),
                keys == strings_view(specialties@),
                num == number@,
                map@ == Map::new(|k: Seq<char>| keys.take(i as int).contains(k), |k: Seq<char>| num),
            decreases specialties@.len() - i,
        {
            let key = specialties[i].clone();
            map.insert(key, number.to_owned());
            let ghost before = keys.take(i as int);
            let ghost after = keys.take(i + 1);
            assert forall|k: Seq<char>| after.contains(k) <==> (before.contains(k) || k == keys[i as int]) by {
                if after.contains(k) && k != keys[i as int] {
                    let t = choose|t: int| 0 <= t < after.len() && #[trigger] after[t] == k;
                    assert(before[t] == k);
                }
                if before.contains(k) {
                    let t = choose|t: int| 0 <= t < before.len() && #[trigger] before[t] == k;
                    assert(after[t] == k);
                }
                if k == keys[i as int] {
                    assert(after[i as int] == k);
                }
            }
            i = i + 1;
            assert(map@ =~= Map::new(|k: Seq<char>| keys.take(i as int).contains(k), |k: Seq<char>| num));
        }
        assert(keys.take(specialties@.len() as int) =~= keys);
        Ok(map)
    }

    /// The title without the parenthesised parts that name specialties.
    fn normalize_title(&self, title: &str) -> (r: Result<String, ParseFailure>) {
        self.normalize_title_impl(title)
    }
}

impl ConfigParams {
    /// Identifies the specialties of `title` where that is defined; `None` where it is
    /// not (the title names no specialty and the default is not a configured one).
    pub fn try_identify_specialties(&self, title: &str) -> (r: Option<Result<Vec<String>, ParseFailure>>)
        ensures
            r is None <==> !identify_defined(self@, title@),
            r matches Some(x) ==> list_outcome(x) == identified(self@, title@),
    {
        if self.identify_is_defined(title) {
            Some(self.identify_sepecialties(title))
        } else {
            None
        }
    }

    /// Whether identifying the specialties of `title` is defined: it is unless the title
    /// names no specialty and the default is not a configured one.
    pub fn identify_is_defined(&self, title: &str) -> (r: bool)
        ensures
            r == identify_defined(self@, title@),
    {
        match self.named_specialties_of(title) {
            Ok(names) => names.len() > 0 || self.default_is_known(),
            Err(_) => true,
        }
    }
}

/// A title always comes out with at least one specialty, and every specialty it comes
/// out with is a configured one, wherever identifying it is defined.
pub proof fn law_identified_specialties_are_configured(config: ConfigView, title: Seq<char>)
    requires
        identify_defined(config, title),
    ensures
        identified(config, title) matches Ok(names) ==> names.len() > 0 && forall|i: int|
            0 <= i < names.len() ==> is_specialty_name(config, #[trigger] names[i]),
{
    lemma_named_specialties_are_names(config, title);
}

/// A title without a `(` names no specialty, so it falls back to the default one.
pub proof fn law_title_without_parentheses_gets_default(config: ConfigView, title: Seq<char>)
    requires
        forall|i: int| 0 <= i < title.len() ==> title[i] != '(',
    ensures
        identified(config, title) == Ok::<Seq<Seq<char>>, Seq<char>>(seq![config.default_specialty]),
{
    if title.len() > 0 {
        lemma_run_len(title, CharClass::NotOpenParen.pred(), title.len() as int);
    }
}

/// A title without a `(` is left as it is by normalisation.
pub proof fn law_title_without_parentheses_is_kept(specialties: Seq<SpecialtyView>, title: Seq<char>)
    requires
        forall|i: int| 0 <= i < title.len() ==> title[i] != '(',
    ensures
        normalized(specialties, title) == Ok::<Seq<char>, Seq<char>>(title),
{
    if title.len() > 0 {
        lemma_run_len(title, CharClass::NotOpenParen.pred(), title.len() as int);
        assert(title.take(title.len() as int) =~= title);
    } else {
        assert(title =~= Seq::<char>::empty());
    }
}

/// An alias matches with or without a period at its end.
pub proof fn law_alias_matches_with_or_without_period(specialty: SpecialtyView, alias: Seq<char>)
    requires
        alias.len() == 0 || alias.last() != '.',
    ensures
        alias_matches(specialty, alias.push('.')) == alias_matches(specialty, alias),
{
    assert(alias.push('.').drop_last() =~= alias);
}

/// An alias that, in lower case, occurs in the lower-case name of a specialty matches it.
pub proof fn law_lowercase_part_of_name_matches(specialty: SpecialtyView, alias: Seq<char>, at: int)
    requires
        0 <= at,
        at + lowercase_of(without_final_dot(alias)).len() <= lowercase_of(specialty.name).len(),
        lowercase_of(specialty.name).subrange(at, at + lowercase_of(without_final_dot(alias)).len())
            == lowercase_of(without_final_dot(alias)),
    ensures
        alias_matches(specialty, alias),
{
    let p = lowercase_of(without_final_dot(alias));
    assert(lowercase_of(specialty.name).subrange(at, at + p.len()) == p);
}

/// Without a final period, an alias is taken as it is; with one, that period is dropped.
pub proof fn law_final_period_is_dropped(alias: Seq<char>)
    ensures
        alias.len() > 0 && alias.last() == '.' ==> without_final_dot(alias) == alias.take(alias.len() - 1),
        !(alias.len() > 0 && alias.last() == '.') ==> without_final_dot(alias) == alias,
{
    if alias.len() > 0 {
        assert(alias.drop_last() =~= alias.take(alias.len() - 1));
    }
}

/// When the parenthesised parts name no specialty, the default one is used.
pub proof fn law_default_when_none_found(config: ConfigView, title: Seq<char>)
    requires
        named_specialties(config.specialties, title) == Ok::<Seq<Seq<char>>, Seq<char>>(Seq::empty()),
    ensures
        identified(config, title) == Ok::<Seq<Seq<char>>, Seq<char>>(seq![config.default_specialty]),
{
}

/// Matching ignores case: two aliases with the same lower-case form (without a final
/// period) match the same specialties.
pub proof fn law_alias_matching_ignores_case(specialty: SpecialtyView, a: Seq<char>, b: Seq<char>)
    requires
        lowercase_of(without_final_dot(a)) == lowercase_of(without_final_dot(b)),
    ensures
        alias_matches(specialty, a) == alias_matches(specialty, b),
{
}

/// An alias that matches several specialties is taken for the first of them.
pub proof fn law_first_match_is_first(specialties: Seq<SpecialtyView>, alias: Seq<char>)
    ensures
        first_match(specialties, alias) matches Some(name) ==> exists|k: int|
            0 <= k < specialties.len() && #[trigger] alias_matches(specialties[k], alias)
                && specialties[k].name == name && forall|j: int| 0 <= j < k ==> !alias_matches(
                #[trigger] specialties[j],
                alias,
            ),
        first_match(specialties, alias) is None <==> forall|k: int| 0 <= k < specialties.len()
            ==> !alias_matches(#[trigger] specialties[k], alias),
    decreases specialties.len(),
{
    if specialties.len() > 0 {
        let rest = specialties.drop_first();
        law_first_match_is_first(rest, alias);
        if alias_matches(specialties[0], alias) {
            assert(alias_matches(specialties[0], alias) && specialties[0].name == first_match(specialties, alias).unwrap());
        } else {
            if let Some(name) = first_match(rest, alias) {
                let k = choose|k: int| 0 <= k < rest.len() && #[trigger] alias_matches(rest[k], alias)
                    && rest[k].name == name && forall|j: int| 0 <= j < k ==> !alias_matches(#[trigger] rest[j], alias);
                assert(specialties[k + 1] == rest[k]);
                assert forall|j: int| 0 <= j < k + 1 implies !alias_matches(#[trigger] specialties[j], alias) by {
                    if j > 0 {
                        assert(specialties[j] == rest[j - 1]);
                    }
                }
            } else {
                assert forall|k: int| 0 <= k < specialties.len() implies !alias_matches(#[trigger] specialties[k], alias) by {
                    if k > 0 {
                        assert(specialties[k] == rest[k - 1]);
                    }
                }
            }
            if exists|k: int| 0 <= k < specialties.len() && alias_matches(#[trigger] specialties[k], alias) {
                let k = choose|k: int| 0 <= k < specialties.len() && alias_matches(#[trigger] specialties[k], alias);
                assert(rest[k - 1] == specialties[k]);
            }
        }
    }
}

proof fn lemma_prepend_text_assoc(a: Seq<char>, b: Seq<char>, r: Result<Seq<char>, Seq<char>>)
    ensures
        prepend_text(a + b, r) == prepend_text(a, prepend_text(b, r)),
{
    if let Ok(more) = r {
        assert(a + b + more =~= a + (b + more));
    }
}

/// Text without `(` in front of the rest passes through normalisation unchanged.
proof fn lemma_normalized_plain_prefix(specialties: Seq<SpecialtyView>, chunk: Seq<char>, r: Seq<char>)
    requires
        forall|i: int| 0 <= i < chunk.len() ==> chunk[i] != '(',
    ensures
        normalized(specialties, chunk + r) == prepend_text(chunk, normalized(specialties, r)),
{
    let x = chunk + r;
    let p = CharClass::NotOpenParen.pred();
    lemma_run_len_is_run(r, p);
    let nr = run_len(r, p) as int;
    assert(is_run(x, p, chunk.len() + nr)) by {
        assert forall|j: int| 0 <= j < chunk.len() + nr implies #[trigger] p(x[j]) by {
            if j < chunk.len() {
                assert(x[j] == chunk[j]);
            } else {
                assert(x[j] == r[j - chunk.len()]);
            }
        }
        if chunk.len() + nr < x.len() {
            assert(x[chunk.len() + nr] == r[nr]);
        }
    }
    lemma_run_len(x, p, chunk.len() + nr);
    if r.len() == 0 {
        assert(x =~= chunk);
        if chunk.len() > 0 {
            assert(x.take(x.len() as int) =~= chunk);
        }
        assert(chunk + Seq::<char>::empty() =~= chunk);
    } else if nr == r.len() {
        assert(x.take(x.len() as int) =~= chunk + r.take(nr));
        assert(r.take(nr) =~= r);
    } else {
        assert(x.take(chunk.len() + nr) =~= chunk + r.take(nr));
        assert(x.skip(chunk.len() + nr + 1) =~= r.skip(nr + 1));
        let after = r.skip(nr + 1);
        lemma_run_len_is_run(after, CharClass::NotCloseParen.pred());
        let m = run_len(after, CharClass::NotCloseParen.pred()) as int;
        if 0 < m < after.len() {
            let internal = after.take(m);
            let next = after.skip(m + 1);
            if !names_inside(specialties, internal) {
                lemma_prepend_text_assoc(chunk, r.take(nr) + seq!['('] + internal + seq![')'], normalized(specialties, next));
                assert(chunk + r.take(nr) + seq!['('] + internal + seq![')'] =~= chunk + (r.take(nr) + seq!['('] + internal + seq![')']));
            } else if next.len() > 0 && next[0] == ' ' {
                lemma_prepend_text_assoc(chunk, r.take(nr), normalized(specialties, next.drop_first()));
            } else {
                lemma_prepend_text_assoc(chunk, r.take(nr), normalized(specialties, next));
            }
        }
    }
}

/// A kept parenthesised part in front of the rest passes through normalisation unchanged.
proof fn lemma_normalized_kept_part(specialties: Seq<SpecialtyView>, internal: Seq<char>, r: Seq<char>)
    requires
        internal.len() > 0,
        forall|i: int| 0 <= i < internal.len() ==> internal[i] != ')',
        !names_inside(specialties, internal),
    ensures
        normalized(specialties, seq!['('] + internal + seq![')'] + r) == prepend_text(
            seq!['('] + internal + seq![')'],
            normalized(specialties, r),
        ),
{
    let y = seq!['('] + internal + seq![')'] + r;
    let p = CharClass::NotOpenParen.pred();
    let q = CharClass::NotCloseParen.pred();
    assert(y[0] == '(');
    assert(is_run(y, p, 0));
    lemma_run_len(y, p, 0);
    let after = y.skip(1);
    assert(after =~= internal + seq![')'] + r);
    assert(is_run(after, q, internal.len() as int)) by {
        assert forall|j: int| 0 <= j < internal.len() implies #[trigger] q(after[j]) by {
            assert(after[j] == internal[j]);
        }
        assert(after[internal.len() as int] == ')');
    }
    lemma_run_len(after, q, internal.len() as int);
    assert(after.take(internal.len() as int) =~= internal);
    assert(after.skip(internal.len() + 1 as int) =~= r);
    assert(y.take(0) + seq!['('] + internal + seq![')'] =~= seq!['('] + internal + seq![')']);
}

/// Normalising a normalised title changes nothing: the parts it kept still name no
/// specialty, and the parts it dropped are gone.
pub proof fn law_normalize_is_idempotent(specialties: Seq<SpecialtyView>, title: Seq<char>)
    ensures
        normalized(specialties, title) matches Ok(s) ==> normalized(specialties, s) == Ok::<
            Seq<char>,
            Seq<char>,
        >(s),
    decreases title.len(),
{
    if title.len() > 0 {
        let p = CharClass::NotOpenParen.pred();
        let q = CharClass::NotCloseParen.pred();
        lemma_run_len_is_run(title, p);
        let n = run_len(title, p) as int;
        let chunk = title.take(n);
        assert forall|i: int| 0 <= i < chunk.len() implies chunk[i] != '(' by {
            assert(p(title[i]));
        }
        if n == title.len() {
            law_title_without_parentheses_is_kept(specialties, chunk);
        } else {
            let after = title.skip(n + 1);
            lemma_run_len_is_run(after, q);
            let m = run_len(after, q) as int;
            if 0 < m < after.len() {
                let internal = after.take(m);
                let next = after.skip(m + 1);
                if !names_inside(specialties, internal) {
                    law_normalize_is_idempotent(specialties, next);
                    if let Ok(s2) = normalized(specialties, next) {
                        let kept = seq!['('] + internal + seq![')'];
                        assert forall|i: int| 0 <= i < internal.len() implies internal[i] != ')' by {
                            assert(q(after[i]));
                        }
                        lemma_normalized_kept_part(specialties, internal, s2);
                        lemma_normalized_plain_prefix(specialties, chunk, kept + s2);
                        assert(chunk + seq!['('] + internal + seq![')'] + s2 =~= chunk + (kept + s2));
                    }
                } else {
                    let rest = if next.len() > 0 && next[0] == ' ' {
                        next.drop_first()
                    } else {
                        next
                    };
                    law_normalize_is_idempotent(specialties, rest);
                    if let Ok(s2) = normalized(specialties, rest) {
                        lemma_normalized_plain_prefix(specialties, chunk, s2);
                    }
                }
            }
        }
    }
}

/// An alias whose lower-case, dot-less form is one of a specialty's listed aliases
/// matches that specialty.
pub proof fn law_listed_alias_matches(specialty: SpecialtyView, alias: Seq<char>)
    requires
        specialty.aliases.contains(lowercase_of(without_final_dot(alias))),
    ensures
        alias_matches(specialty, alias),
{
}

/// An alias matches nothing but by the name or the listed aliases.
pub proof fn law_alias_matches_only_by_name_or_list(specialty: SpecialtyView, alias: Seq<char>)
    requires
        !occurs_in(lowercase_of(without_final_dot(alias)), lowercase_of(specialty.name)),
        forall|k: int| 0 <= k < specialty.aliases.len() ==> #[trigger] specialty.aliases[k] != lowercase_of(
            without_final_dot(alias),
        ),
    ensures
        !alias_matches(specialty, alias),
{
}

/// When the group parses, every given specialty, and nothing else, is mapped to its
/// group number; it fails exactly when the trimmed group does not start with a number.
pub proof fn law_groups_cover_exactly_the_specialties(
    config: ConfigParams,
    specialties: Seq<Seq<char>>,
    group: Seq<char>,
)
    ensures
        config.groups_spec(specialties, group) is Ok <==> group_number_split(trimmed(group)) is Ok,
        config.groups_spec(specialties, group) matches Ok(m) ==> {
            &&& forall|k: Seq<char>| #[trigger] m.contains_key(k) <==> specialties.contains(k)
            &&& forall|i: int| 0 <= i < specialties.len() ==> (m.contains_key(#[trigger] specialties[i])
                && (group_number_split(trimmed(group)) matches Ok((_, number)) && m[specialties[i]]
                == number))
        },
{
    if let Ok(m) = config.groups_spec(specialties, group) {
        assert forall|i: int| 0 <= i < specialties.len() implies (m.contains_key(#[trigger] specialties[i])
            && (group_number_split(trimmed(group)) matches Ok((_, number)) && m[specialties[i]] == number)) by {
            assert(specialties.contains(specialties[i]));
        }
    }
}

/// A token at any place of a part that names a specialty makes the part name one.
pub proof fn law_any_naming_token_counts(specialties: Seq<SpecialtyView>, text: Seq<char>, i: int)
    requires
        0 <= i < title_tokens(text).0.len(),
        first_match(specialties, title_tokens(text).0[i]) is Some,
    ensures
        names_inside(specialties, text),
{
}

/// A part none of whose tokens names a specialty names none.
pub proof fn law_part_without_naming_tokens(specialties: Seq<SpecialtyView>, text: Seq<char>)
    requires
        forall|i: int| 0 <= i < title_tokens(text).0.len() ==> #[trigger] first_match(
            specialties,
            title_tokens(text).0[i],
        ) is None,
    ensures
        !names_inside(specialties, text),
{
}

/// A naming parenthesised part in front of the rest is dropped by normalisation, with
/// one space right after it.
proof fn lemma_normalized_dropped_part(specialties: Seq<SpecialtyView>, internal: Seq<char>, r: Seq<char>)
    requires
        internal.len() > 0,
        forall|i: int| 0 <= i < internal.len() ==> internal[i] != ')',
        names_inside(specialties, internal),
    ensures
        normalized(specialties, seq!['('] + internal + seq![')'] + r) == normalized(
            specialties,
            if r.len() > 0 && r[0] == ' ' {
                r.drop_first()
            } else {
                r
            },
        ),
{
    let y = seq!['('] + internal + seq![')'] + r;
    let p = CharClass::NotOpenParen.pred();
    let q = CharClass::NotCloseParen.pred();
    assert(y[0] == '(');
    assert(is_run(y, p, 0));
    lemma_run_len(y, p, 0);
    let after = y.skip(1);
    assert(after =~= internal + seq![')'] + r);
    assert(is_run(after, q, internal.len() as int)) by {
        assert forall|j: int| 0 <= j < internal.len() implies #[trigger] q(after[j]) by {
            assert(after[j] == internal[j]);
        }
        assert(after[internal.len() as int] == ')');
    }
    lemma_run_len(after, q, internal.len() as int);
    assert(after.take(internal.len() as int) =~= internal);
    assert(after.skip(internal.len() + 1 as int) =~= r);
    assert(y.take(0) =~= Seq::<char>::empty());
    let rest = if r.len() > 0 && r[0] == ' ' {
        r.drop_first()
    } else {
        r
    };
    if let Ok(more) = normalized(specialties, rest) {
        assert(Seq::<char>::empty() + more =~= more);
    }
}

/// A parenthesised part with a token that names a specialty, at any place, is dropped
/// from the title together with one space after it; the text before it is kept.
pub proof fn law_naming_part_is_dropped(
    config: ConfigParams,
    chunk: Seq<char>,
    internal: Seq<char>,
    r: Seq<char>,
    i: int,
)
    requires
        forall|j: int| 0 <= j < chunk.len() ==> chunk[j] != '(',
        internal.len() > 0,
        forall|j: int| 0 <= j < internal.len() ==> internal[j] != ')',
        0 <= i < title_tokens(internal).0.len(),
        first_match(config@.specialties, title_tokens(internal).0[i]) is Some,
    ensures
        config.normalize_spec(chunk + seq!['('] + internal + seq![')'] + r) == prepend_text(
            chunk,
            config.normalize_spec(
                if r.len() > 0 && r[0] == ' ' {
                    r.drop_first()
                } else {
                    r
                },
            ),
        ),
{
    let part = seq!['('] + internal + seq![')'] + r;
    lemma_normalized_dropped_part(config@.specialties, internal, r);
    lemma_normalized_plain_prefix(config@.specialties, chunk, part);
    assert(chunk + seq!['('] + internal + seq![')'] + r =~= chunk + part);
}

/// A parenthesised part none of whose tokens names a specialty is kept in the title.
pub proof fn law_part_naming_nothing_is_kept(
    config: ConfigParams,
    chunk: Seq<char>,
    internal: Seq<char>,
    r: Seq<char>,
)
    requires
        forall|j: int| 0 <= j < chunk.len() ==> chunk[j] != '(',
        internal.len() > 0,
        forall|j: int| 0 <= j < internal.len() ==> internal[j] != ')',
        forall|j: int| 0 <= j < title_tokens(internal).0.len() ==> #[trigger] first_match(
            config@.specialties,
            title_tokens(internal).0[j],
        ) is None,
    ensures
        config.normalize_spec(chunk + seq!['('] + internal + seq![')'] + r) == prepend_text(
            chunk + seq!['('] + internal + seq![')'],
            config.normalize_spec(r),
        ),
{
    let kept = seq!['('] + internal + seq![')'];
    lemma_normalized_kept_part(config@.specialties, internal, r);
    lemma_normalized_plain_prefix(config@.specialties, chunk, kept + r);
    lemma_prepend_text_assoc(chunk, kept, normalized(config@.specialties, r));
    assert(chunk + seq!['('] + internal + seq![')'] + r =~= chunk + (kept + r));
    assert(chunk + seq!['('] + internal + seq![')'] =~= chunk + kept);
}

/// Parts compose: the specialties named in a title are those named by the tokens of its
/// first parenthesised part, followed by those named in the rest of the title; a part
/// that names nothing adds nothing and keeps the later parts.
pub proof fn law_parts_compose(
    specialties: Seq<SpecialtyView>,
    chunk: Seq<char>,
    internal: Seq<char>,
    r: Seq<char>,
)
    requires
        chunk.len() > 0,
        forall|j: int| 0 <= j < chunk.len() ==> chunk[j] != '(',
        internal.len() > 0,
        forall|j: int| 0 <= j < internal.len() ==> internal[j] != ')',
        r.len() == 0 || r[0] == ')',
    ensures
        named_specialties(specialties, chunk + seq!['('] + internal + r) == prepend_names(
            known_names(specialties, title_tokens(internal).0),
            named_specialties(specialties, r),
        ),
{
    let v = chunk + seq!['('] + internal + r;
    let p = CharClass::NotOpenParen.pred();
    let q = CharClass::NotCloseParen.pred();
    assert(is_run(v, p, chunk.len() as int)) by {
        assert forall|j: int| 0 <= j < chunk.len() implies #[trigger] p(v[j]) by {
            assert(v[j] == chunk[j]);
        }
        assert(v[chunk.len() as int] == '(');
    }
    lemma_run_len(v, p, chunk.len() as int);
    let after = v.skip(chunk.len() + 1 as int);
    assert(after =~= internal + r);
    assert(is_run(after, q, internal.len() as int)) by {
        assert forall|j: int| 0 <= j < internal.len() implies #[trigger] q(after[j]) by {
            assert(after[j] == internal[j]);
        }
        if r.len() > 0 {
            assert(after[internal.len() as int] == r[0]);
        }
    }
    lemma_run_len(after, q, internal.len() as int);
    assert(after.take(internal.len() as int) =~= internal);
    assert(after.skip(internal.len() as int) =~= r);
}

/// The names that the tokens of a part pick out never depend on the tokens that pick out
/// nothing: the names of two lists of tokens are the names of each, in order.
pub proof fn law_known_names_concat(
    specialties: Seq<SpecialtyView>,
    a: Seq<Seq<char>>,
    b: Seq<Seq<char>>,
)
    ensures
        known_names(specialties, a + b) == known_names(specialties, a) + known_names(specialties, b),
    decreases b.len(),
{
    if b.len() == 0 {
        assert(a + b =~= a);
        assert(known_names(specialties, a) + Seq::<Seq<char>>::empty() =~= known_names(specialties, a));
    } else {
        assert((a + b).drop_last() =~= a + b.drop_last());
        assert((a + b).last() == b.last());
        law_known_names_concat(specialties, a, b.drop_last());
        let tail = match first_match(specialties, b.last()) {
            Some(name) => seq![name],
            None => Seq::<Seq<char>>::empty(),
        };
        assert(known_names(specialties, a) + known_names(specialties, b.drop_last()) + tail
            =~= known_names(specialties, a) + (known_names(specialties, b.drop_last()) + tail));
    }
}

/// A token that names a specialty contributes that name.
pub proof fn law_naming_token_contributes(specialties: Seq<SpecialtyView>, items: Seq<Seq<char>>, i: int)
    requires
        0 <= i < items.len(),
        first_match(specialties, items[i]) is Some,
    ensures
        known_names(specialties, items).contains(first_match(specialties, items[i]).unwrap()),
{
    let a = items.take(i);
    let b = items.skip(i);
    assert(items =~= a + b);
    law_known_names_concat(specialties, a, b);
    let c = seq![items[i]];
    let d = b.skip(1);
    assert(b =~= c + d);
    law_known_names_concat(specialties, c, d);
    assert(c.drop_last() =~= Seq::<Seq<char>>::empty());
    assert(known_names(specialties, c.drop_last()) == Seq::<Seq<char>>::empty());
    assert(c.last() == items[i]);
    let name = first_match(specialties, items[i]).unwrap();
    assert(known_names(specialties, c) =~= Seq::<Seq<char>>::empty() + seq![name]);
    assert(known_names(specialties, c) =~= seq![name]);
    let all = known_names(specialties, items);
    let ka = known_names(specialties, a);
    assert(all == ka + (seq![name] + known_names(specialties, d)));
    assert(all[ka.len() as int] == name);
}

/// The group number is a non-empty prefix of the text: `лекція` in any case (compared
/// character by character), or else the longest run of ASCII digits, `-` and `,`. The
/// parse fails exactly when the text starts with neither.
pub proof fn law_group_number_is_a_prefix(s: Seq<char>)
    ensures
        group_number_split(s) matches Ok((rest, number)) ==> {
            &&& number + rest == s
            &&& number.len() > 0
            &&& if s.len() >= 6 && forall|i: int| 0 <= i < 6 ==> #[trigger] char_lowercase_of(s[i]) == char_lowercase_of(
                lecture_word()[i],
            ) {
                number.len() == 6
            } else {
                &&& forall|j: int| 0 <= j < number.len() ==> ('0' <= #[trigger] number[j] <= '9' || number[j] == '-' || number[j] == ',')
                &&& (rest.len() == 0 || !('0' <= rest[0] <= '9' || rest[0] == '-' || rest[0] == ','))
            }
        },
        group_number_split(s) is Err <==> !(s.len() >= 6 && forall|i: int| 0 <= i < 6 ==> #[trigger] char_lowercase_of(s[i]) == char_lowercase_of(
            lecture_word()[i],
        )) && (s.len() == 0 || !('0' <= s[0] <= '9' || s[0] == '-' || s[0] == ',')),
        group_number_split(s) matches Err(e) ==> e == s,
{
    let p = CharClass::GroupMark.pred();
    lemma_run_len_is_run(s, p);
    let n = run_len(s, p) as int;
    if let Ok((rest, number)) = group_number_split(s) {
        if starts_with_lecture(s) {
            assert(number + rest =~= s);
        } else {
            assert(number + rest =~= s);
            assert forall|j: int| 0 <= j < number.len() implies ('0' <= #[trigger] number[j] <= '9' || number[j] == '-' || number[j] == ',') by {
                assert(p(s[j]));
            }
            if rest.len() > 0 {
                assert(rest[0] == s[n]);
            }
        }
    } else {
        if s.len() > 0 {
            assert(!p(s[0]));
        }
    }
    if s.len() > 0 && ('0' <= s[0] <= '9' || s[0] == '-' || s[0] == ',') {
        assert(p(s[0]));
    }
}

/// A title that starts with `(` cannot be read for its specialties: the failure carries
/// the whole title.
pub proof fn law_title_starting_with_parenthesis_fails(specialties: Seq<SpecialtyView>, title: Seq<char>)
    requires
        title.len() > 0,
        title[0] == '(',
    ensures
        named_specialties(specialties, title) == Err::<Seq<Seq<char>>, Seq<char>>(title),
{
    assert(is_run(title, CharClass::NotOpenParen.pred(), 0));
    lemma_run_len(title, CharClass::NotOpenParen.pred(), 0);
}

} // verus!
