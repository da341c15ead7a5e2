//! Templates to try for a person of whom the initials and the last digits
//! of an identification number are known.

use vstd::prelude::*;
use vstd::string::StrSliceExecFns;
use vstd::string::StringExecFns;

verus! {

/// What `str::to_lowercase` makes of the characters `s`.
pub uninterp spec fn lowercase_of(s: Seq<char>) -> Seq<char>;

/// What `str::to_uppercase` makes of the characters `s`.
pub uninterp spec fn uppercase_of(s: Seq<char>) -> Seq<char>;

/// Whether `char::is_numeric` holds of `c`.
pub uninterp spec fn is_numeric_of(c: char) -> bool;

/// `str::to_lowercase`: the lower case form of a text, by the rules of
/// Unicode. The result depends on the text alone.
#[verifier::external_body]
fn to_lowercase(text: &str) -> (lower: String)
    ensures
        lower@ == lowercase_of(text@),
{
    text.to_lowercase()
}

/// `str::to_uppercase`: the upper case form of a text, by the rules of
/// Unicode. The result depends on the text alone.
#[verifier::external_body]
fn to_uppercase(text: &str) -> (upper: String)
    ensures
        upper@ == uppercase_of(text@),
{
    text.to_uppercase()
}

/// `char::is_numeric`: whether Unicode counts a character as a number. The
/// result depends on the character alone.
#[verifier::external_body]
fn is_numeric(c: char) -> (numeric: bool)
    ensures
        numeric == is_numeric_of(c),
{
    c.is_numeric()
}

/// The characters of `s` that are numeric, in order.
pub open spec fn numeric_only(s: Seq<char>) -> Seq<char>
    decreases s.len(),
{
    if s.len() == 0 {
        Seq::empty()
    } else if is_numeric_of(s.last()) {
        numeric_only(s.drop_last()).push(s.last())
    } else {
        numeric_only(s.drop_last())
    }
}

/// The last `n` items of `s`, or all of `s` where it has no more than `n`.
pub open spec fn last_up_to<T>(s: Seq<T>, n: nat) -> Seq<T> {
    if s.len() <= n {
        s
    } else {
        s.skip(s.len() - n)
    }
}

/// The characters of `text` at the places `places`.
pub open spec fn picked(text: Seq<char>, places: Seq<usize>) -> Seq<char> {
    Seq::new(places.len(), |k: int| text[places[k] as int])
}

/// The places of the numeric characters of `text`, in order.
pub fn numeric_places(text: &str) -> (places: Vec<usize>)
    ensures
        forall|k: int| 0 <= k < places.len() ==> #[trigger] places[k] < text@.len(),
        picked(text@, places@) == numeric_only(text@),
{
    let length: usize = text.unicode_len();
    let mut places: Vec<usize> = Vec::new();
    let mut i: usize = 0;
    assert(text@.take(0) =~= Seq::<char>::empty());
    assert(picked(text@, places@) =~= Seq::<char>::empty());
    while i < length
        invariant
            i <= length == text@.len(),
            forall|k: int| 0 <= k < places.len() ==> #[trigger] places[k] < i,
            picked(text@, places@) == numeric_only(text@.take(i as int)),
        decreases length - i,
    {
        let ghost before = places@;
        proof {
            assert(text@.take(i + 1).drop_last() =~= text@.take(i as int));
            assert(text@.take(i + 1).last() == text@[i as int]);
        }
        if is_numeric(text.get_char(i)) {
            places.push(i);
            assert(picked(text@, places@) =~= picked(text@, before).push(text@[i as int]));
        }
        i += 1;
    }
    assert(text@.take(length as int) =~= text@);
    places
}

/// The characters of `text` at the last `n` of the places `places`, or at
/// all of them where there are no more than `n`.
pub fn pick_last(text: &str, places: &Vec<usize>, n: usize) -> (picks: String)
    requires
        forall|j: int| 0 <= j < places.len() ==> #[trigger] places[j] < text@.len(),
    ensures
        picks@ == last_up_to(picked(text@, places@), n as nat),
{
    let length: usize = text.unicode_len();
    let start: usize = if places.len() <= n {
        0
    } else {
        places.len() - n
    };
    let ghost all = picked(text@, places@);
    let mut picks: String = String::new();
    let mut k: usize = start;
    while k < places.len()
        invariant
            start <= k <= places.len(),
            length == text@.len(),
            forall|j: int| 0 <= j < places.len() ==> #[trigger] places[j] < text@.len(),
            all == picked(text@, places@),
            picks@ == all.subrange(start as int, k as int),
        decreases places.len() - k,
    {
        let place: usize = places[k];
        let one: &str = text.substring_char(place, place + 1);
        picks.append(one);
        proof {
            assert(one@ =~= seq![all[k as int]]);
            assert(picks@ =~= all.subrange(start as int, k + 1));
        }
        k += 1;
    }
    proof {
        assert(all.subrange(start as int, places.len() as int) =~= last_up_to(all, n as nat));
    }
    picks
}

/// The last four numeric characters of `text`, in their order; all of them
/// where there are fewer.
pub fn last_four_digits(text: &str) -> (digits: String)
    ensures
        digits@ == last_up_to(numeric_only(text@), 4),
{
    let places: Vec<usize> = numeric_places(text);
    pick_last(text, &places, 4)
}

/// The range template `{0-n}` with four, five or six nines for `n`.
pub open spec fn wide_range(which: int) -> Seq<char> {
    if which == 0 {
        "{0-9999}"@
    } else if which == 1 {
        "{0-99999}"@
    } else {
        "{0-999999}"@
    }
}

/// The template of the one number `digits`: `{digits-digits}`.
pub open spec fn fixed_range(digits: Seq<char>) -> Seq<char> {
    "{"@ + digits + "-"@ + digits + "}"@
}

/// The templates for the initials `combos` and the digits `digits`: the
/// digits alone; then every number of up to four, five and six digits; then
/// each of the initials followed by such a number; then each of the
/// initials followed by the digits.
pub open spec fn templates(combos: Seq<Seq<char>>, digits: Seq<char>) -> Seq<Seq<char>> {
    seq![fixed_range(digits), wide_range(0), wide_range(1), wide_range(2)] + Seq::new(
        3 * combos.len(),
        |i: int| combos[i / 3] + wide_range(i % 3),
    ) + Seq::new(combos.len(), |i: int| combos[i] + fixed_range(digits))
}

/// The texts of some strings.
pub open spec fn texts(strings: Seq<String>) -> Seq<Seq<char>> {
    Seq::new(strings.len(), |i: int| strings[i]@)
}

/// The four ways of writing two initials in lower and upper case: both
/// lower, both upper, upper then lower, lower then upper.
pub open spec fn initials(
    lower_first: Seq<char>,
    upper_first: Seq<char>,
    lower_last: Seq<char>,
    upper_last: Seq<char>,
) -> Seq<Seq<char>> {
    seq![
        lower_first + lower_last,
        upper_first + upper_last,
        upper_first + lower_last,
        lower_first + upper_last,
    ]
}

/// `first` followed by `second`.
fn joined(first: &str, second: &str) -> (both: String)
    ensures
        both@ == first@ + second@,
{
    let mut both: String = String::from_str(first);
    both.append(second);
    both
}

/// The templates for the initials `combos` and the digits `ssn_digits`.
pub fn templates_for(combos: &Vec<String>, ssn_digits: &str) -> (patterns: Vec<String>)
    ensures
        texts(patterns@) == templates(texts(combos@), ssn_digits@),
{
    let mut fixed: String = String::from_str("{");
    fixed.append(ssn_digits);
    fixed.append("-");
    fixed.append(ssn_digits);
    fixed.append("}");
    let mut patterns: Vec<String> = Vec::new();
    patterns.push(fixed.clone());
    patterns.push(String::from_str("{0-9999}"));
    patterns.push(String::from_str("{0-99999}"));
    patterns.push(String::from_str("{0-999999}"));
    let ghost head = texts(patterns@);
    let ghost names = texts(combos@);
    assert(head =~= seq![fixed_range(ssn_digits@), wide_range(0), wide_range(1), wide_range(2)]);
    let mut i: usize = 0;
    while i < combos.len()
        invariant
            i <= combos.len(),
            names == texts(combos@),
            fixed@ == fixed_range(ssn_digits@),
            texts(patterns@) == head + Seq::new(
                3 * i as nat,
                |k: int| names[k / 3] + wide_range(k % 3),
            ),
        decreases combos.len() - i,
    {
        let ghost before = texts(patterns@);
        let combo: &str = combos[i].as_str();
        patterns.push(joined(combo, "{0-9999}"));
        patterns.push(joined(combo, "{0-99999}"));
        patterns.push(joined(combo, "{0-999999}"));
        proof {
            assert(combo@ == names[i as int]);
            assert(texts(patterns@) =~= before.push(combo@ + wide_range(0)).push(
                combo@ + wide_range(1),
            ).push(combo@ + wide_range(2)));
            assert(texts(patterns@) =~= head + Seq::new(
                3 * (i + 1) as nat,
                |k: int| names[k / 3] + wide_range(k % 3),
            ));
        }
        i += 1;
    }
    let ghost middle = texts(patterns@);
    let mut j: usize = 0;
    while j < combos.len()
        invariant
            j <= combos.len(),
            names == texts(combos@),
            fixed@ == fixed_range(ssn_digits@),
            texts(patterns@) == middle + Seq::new(
                j as nat,
                |k: int| names[k] + fixed_range(ssn_digits@),
            ),
        decreases combos.len() - j,
    {
        let ghost before = texts(patterns@);
        patterns.push(joined(combos[j].as_str(), fixed.as_str()));
        proof {
            assert(texts(patterns@) =~= before.push(names[j as int] + fixed_range(ssn_digits@)));
            assert(texts(patterns@) =~= middle + Seq::new(
                (j + 1) as nat,
                |k: int| names[k] + fixed_range(ssn_digits@),
            ));
        }
        j += 1;
    }
    patterns
}

/// The templates for a person with the initials `first` and `last`, each in
/// lower and in upper case, and the digits `ssn_digits`.
pub fn build_patterns(first: &str, last: &str, ssn_digits: &str) -> (patterns: Vec<String>)
    ensures
        texts(patterns@) == templates(
            initials(
                lowercase_of(first@),
                uppercase_of(first@),
                lowercase_of(last@),
                uppercase_of(last@),
            ),
            ssn_digits@,
        ),
{
    let lower_first: String = to_lowercase(first);
    let upper_first: String = to_uppercase(first);
    let lower_last: String = to_lowercase(last);
    let upper_last: String = to_uppercase(last);
    let mut combos: Vec<String> = Vec::new();
    combos.push(joined(lower_first.as_str(), lower_last.as_str()));
    combos.push(joined(upper_first.as_str(), upper_last.as_str()));
    combos.push(joined(upper_first.as_str(), lower_last.as_str()));
    combos.push(joined(lower_first.as_str(), upper_last.as_str()));
    assert(texts(combos@) =~= initials(
        lowercase_of(first@),
        uppercase_of(first@),
        lowercase_of(last@),
        uppercase_of(last@),
    ));
    templates_for(&combos, ssn_digits)
}

} // verus!
