//! Character-level string helpers and the bot's text formatting.
use vstd::prelude::*;
use vstd::string::StringExecFns;

verus! {

broadcast use vstd::string::group_string_axioms;

/// Calls std's `<String as FromIterator<&char>>::from_iter` on the characters:
/// the string made of them in order. Claimed: its view is exactly `chars@`.
#[verifier::external_body]
pub(crate) fn string_from_chars(chars: &Vec<char>) -> (s: String)
    ensures
        s@ == chars@,
{
    String::from_iter(chars.iter())
}

/// The characters of a string slice, in order.
pub fn chars_of(s: &str) -> (v: Vec<char>)
    ensures
        v@ == s@,
{
    let mut v: Vec<char> = Vec::new();
    for c in it: s.chars()
        invariant
            v@ == it.seq().take(it.index() as int),
            it.seq() == s@,
    {
        v.push(c);
    }
    v
}


/// The character of the decimal digit `d` (`0 <= d < 10`).
pub open spec fn digit_char(d: int) -> char {
    (48 + d) as char
}

/// The decimal notation of `n`, without leading zeros.
pub open spec fn decimal(n: nat) -> Seq<char>
    decreases n,
{
    if n < 10 {
        seq![digit_char(n as int)]
    } else {
        decimal(n / 10).push(digit_char((n % 10) as int))
    }
}

/// `cents` written as dollars: `$`, the whole dollars, `.`, and the
/// remaining cents as two digits.
pub open spec fn currency_text(cents: nat) -> Seq<char> {
    seq!['$'] + decimal(cents / 100) + seq![
        '.',
        digit_char(((cents % 100) / 10) as int),
        digit_char((cents % 10) as int),
    ]
}

fn digit(d: u64) -> (c: char)
    requires
        d < 10,
    ensures
        c == digit_char(d as int),
{
    let b: u8 = d as u8;
    (48 + b) as char
}

/// Appends the decimal notation of `n` to `out`.
fn push_decimal(n: u64, out: &mut Vec<char>)
    ensures
        final(out)@ == old(out)@ + decimal(n as nat),
    decreases n,
{
    if n >= 10 {
        push_decimal(n / 10, out);
    }
    out.push(digit(n % 10));
    proof {
        if n < 10 {
            assert(old(out)@.push(digit_char(n as int)) =~= old(out)@ + decimal(n as nat));
        } else {
            assert(decimal(n as nat) == decimal((n / 10) as nat).push(digit_char((n % 10) as int)));
            assert(old(out)@ + decimal((n / 10) as nat) + seq![digit_char((n % 10) as int)]
                =~= old(out)@ + decimal(n as nat));
        }
    }
}

/// Converts an amount of cents into `$xx.xx` format.
pub fn currency_string(cents: u64) -> (s: String)
    ensures
        s@ == currency_text(cents as nat),
{
    let dollars = cents / 100;
    let cents_remainder = cents % 100;
    let mut out: Vec<char> = Vec::new();
    out.push('$');
    push_decimal(dollars, &mut out);
    out.push('.');
    out.push(digit(cents_remainder / 10));
    out.push(digit(cents_remainder % 10));
    assert(out@ =~= currency_text(cents as nat));
    string_from_chars(&out)
}


/// What std's `char::to_uppercase` yields for `c`: its Unicode uppercase
/// mapping, one or more characters.
pub uninterp spec fn uppercase_of(c: char) -> Seq<char>;

/// What std's `str::to_lowercase` returns for a string: its Unicode lowercase
/// mapping.
pub uninterp spec fn lowercase_of(s: Seq<char>) -> Seq<char>;

/// An ASCII character.
pub open spec fn is_ascii_char(c: char) -> bool {
    (c as u32) < 128
}

/// All characters of `s` are ASCII.
pub open spec fn is_ascii_text(s: Seq<char>) -> bool {
    forall|i: int| 0 <= i < s.len() ==> is_ascii_char(#[trigger] s[i])
}

/// The ASCII uppercase of `c`: `a`–`z` become `A`–`Z`, anything else stays.
pub open spec fn ascii_upper(c: char) -> char {
    if 'a' <= c <= 'z' {
        ((c as int) - 32) as char
    } else {
        c
    }
}

/// The ASCII lowercase of `c`: `A`–`Z` become `a`–`z`, anything else stays.
pub open spec fn ascii_lower(c: char) -> char {
    if 'A' <= c <= 'Z' {
        ((c as int) + 32) as char
    } else {
        c
    }
}

/// Characters that std's lowercase mapping leaves as they are: ASCII
/// characters other than `A`–`Z`; the Latin-1 lowercase letters `ß`–`ÿ`
/// (with `÷`); and characters without case: the arrows, mathematical
/// operators and technical symbols (U+2190–U+23FF), the box drawing, block,
/// geometric shapes, miscellaneous symbols and dingbats (U+2500–U+27BF, with
/// `★` and `♥`), the kana (U+3040–U+30FF) and the unified CJK ideographs
/// (U+4E00–U+9FFF, with `龍`, `王`, `弐`, `壱`).
pub open spec fn keeps_lowercase(c: char) -> bool {
    ||| is_ascii_char(c) && !('A' <= c <= 'Z')
    ||| '\u{df}' <= c <= '\u{ff}'
    ||| '\u{2190}' <= c <= '\u{23ff}'
    ||| '\u{2500}' <= c <= '\u{27bf}'
    ||| '\u{3040}' <= c <= '\u{30ff}'
    ||| '\u{4e00}' <= c <= '\u{9fff}'
}

/// Every character of `s` is ASCII or kept as it is by the lowercase mapping.
pub open spec fn is_plain_text(s: Seq<char>) -> bool {
    forall|i: int| 0 <= i < s.len() ==> is_ascii_char(#[trigger] s[i]) || keeps_lowercase(s[i])
}

/// Calls std's `char::to_uppercase` and collects the characters it yields
/// into a `String`. Claimed: the result is the uppercase mapping of `c`
/// (named `uppercase_of`), which the documentation says has at least one
/// character; for an ASCII character it is that character's ASCII
/// uppercase, one character (std's `to_ascii_uppercase` documents itself as
/// the ASCII part of this mapping: `a`–`z` to `A`–`Z`, every other character
/// without an uppercase mapping left as it is).
#[verifier::external_body]
fn char_to_uppercase(c: char) -> (s: String)
    ensures
        s@ == uppercase_of(c),
        s@.len() >= 1,
        is_ascii_char(c) ==> s@ == seq![ascii_upper(c)],
{
    c.to_uppercase().to_string()
}

/// Calls std's `str::to_lowercase`. Claimed: the result is the lowercase
/// mapping of `s` (named `lowercase_of`), a function of the text alone; the
/// documentation defines it by Unicode's `Lowercase` property, so no
/// character of the result is an ASCII capital `A`–`Z`; ASCII text is mapped
/// character by character to its ASCII lowercase, and characters that are
/// already lowercase or have no case are left as they are, so text made of
/// such characters and ASCII is mapped character by character to its ASCII
/// lowercase. Unicode's lowercase mapping is defined character by character,
/// and the only mapping that depends on its context, which std applies (its
/// documentation shows it), is that of the capital sigma `Σ` at the end of a
/// word; so the lowercase of a text without `Σ` is the lowercase of any first
/// part of it followed by the lowercase of the rest. Nothing else is claimed.
#[verifier::external_body]
pub(crate) fn str_to_lowercase(s: &str) -> (r: String)
    ensures
        r@ == lowercase_of(s@),
        forall|i: int| 0 <= i < r@.len() ==> !('A' <= #[trigger] r@[i] <= 'Z'),
        is_ascii_text(s@) ==> r@ == s@.map_values(|c: char| ascii_lower(c)),
        (forall|i: int| 0 <= i < s@.len() ==> keeps_lowercase(#[trigger] s@[i])) ==> r@ == s@,
        is_plain_text(s@) ==> r@ == s@.map_values(|c: char| ascii_lower(c)),
        !s@.contains('Σ') ==> forall|i: int|
            0 <= i <= s@.len() ==> r@ == #[trigger] lowercase_of(s@.take(i)) + lowercase_of(s@.skip(i)),
{
    s.to_lowercase()
}

/// The characters that separate the words of a title.
pub open spec fn is_word_separator(c: char) -> bool {
    c == ' ' || c == '-'
}

/// Position `i` of `s` begins a word: it is the first position, or follows a
/// space or a hyphen.
pub open spec fn begins_word(s: Seq<char>, i: int) -> bool {
    i == 0 || is_word_separator(s[i - 1])
}

/// `s` with the first character of every word replaced by its uppercase
/// mapping; words are separated by spaces or hyphens.
pub open spec fn title_case(s: Seq<char>) -> Seq<char>
    decreases s.len(),
{
    if s.len() == 0 {
        Seq::empty()
    } else {
        title_case(s.drop_last()) + if begins_word(s, s.len() - 1) {
            uppercase_of(s.last())
        } else {
            seq![s.last()]
        }
    }
}

/// `s` with the first character of every word replaced by its ASCII
/// uppercase.
pub open spec fn ascii_title_case(s: Seq<char>) -> Seq<char> {
    Seq::new(s.len(), |i: int| if begins_word(s, i) { ascii_upper(s[i]) } else { s[i] })
}

proof fn lemma_title_case_ascii(s: Seq<char>)
    requires
        is_ascii_text(s),
        forall|j: int|
            0 <= j < s.len() && begins_word(s, j) ==> uppercase_of(#[trigger] s[j]) == seq![
                ascii_upper(s[j]),
            ],
    ensures
        title_case(s) == ascii_title_case(s),
    decreases s.len(),
{
    if s.len() > 0 {
        let p = s.drop_last();
        assert forall|j: int| 0 <= j < p.len() implies begins_word(p, j) == begins_word(s, j) by {
            if j > 0 {
                assert(p[j - 1] == s[j - 1]);
            }
        }
        assert forall|j: int|
            0 <= j < p.len() && begins_word(p, j) implies uppercase_of(#[trigger] p[j]) == seq![
                ascii_upper(p[j]),
            ] by {
            assert(p[j] == s[j]);
            assert(begins_word(s, j));
        }
        lemma_title_case_ascii(p);
        let n = s.len() - 1;
        assert(s[n] == s.last());
        assert(title_case(s) =~= ascii_title_case(s));
    }
}

/// Title case conversion that capitalizes the words of `s`, where words are
/// separated by spaces or hyphens.
pub fn to_title_case(s: &str) -> (r: String)
    ensures
        r@ == title_case(s@),
        is_ascii_text(s@) ==> r@ == ascii_title_case(s@),
{
    let chars = chars_of(s);
    let mut result: Vec<char> = Vec::new();
    let mut capitalize_next = true;
    let mut i: usize = 0;
    while i < chars.len()
        invariant
            chars@ == s@,
            i <= chars.len(),
            result@ == title_case(s@.take(i as int)),
            capitalize_next == begins_word(s@, i as int),
            forall|j: int|
                0 <= j < i && begins_word(s@, j) && is_ascii_char(s@[j]) ==> uppercase_of(
                    #[trigger] s@[j],
                ) == seq![ascii_upper(s@[j])],
        decreases chars.len() - i,
    {
        let c = chars[i];
        let ghost before = result@;
        if capitalize_next {
            let upper = char_to_uppercase(c);
            let upper_chars = chars_of(upper.as_str());
            let mut j: usize = 0;
            while j < upper_chars.len()
                invariant
                    j <= upper_chars.len(),
                    result@ == before + upper_chars@.take(j as int),
                decreases upper_chars.len() - j,
            {
                result.push(upper_chars[j]);
                assert(upper_chars@.take(j + 1) =~= upper_chars@.take(j as int).push(upper_chars@[j as int]));
                j = j + 1;
            }
            assert(upper_chars@.take(j as int) =~= upper_chars@);
            capitalize_next = false;
        } else {
            result.push(c);
        }
        if c == ' ' || c == '-' {
            capitalize_next = true;
        }
        proof {
            let t = s@.take(i + 1);
            assert(t.drop_last() =~= s@.take(i as int));
            assert(t.last() == c);
            assert(begins_word(t, i as int) == begins_word(s@, i as int));
            assert(result@ =~= title_case(t));
        }
        i = i + 1;
    }
    assert(s@.take(i as int) =~= s@);
    proof {
        if is_ascii_text(s@) {
            lemma_title_case_ascii(s@);
        }
    }
    string_from_chars(&result)
}

/// std's `char::is_whitespace`: the characters with the Unicode `White_Space`
/// property.
pub open spec fn is_whitespace(c: char) -> bool {
    ||| '\u{9}' <= c <= '\u{d}'
    ||| c == ' '
    ||| c == '\u{85}'
    ||| c == '\u{a0}'
    ||| c == '\u{1680}'
    ||| '\u{2000}' <= c <= '\u{200a}'
    ||| c == '\u{2028}'
    ||| c == '\u{2029}'
    ||| c == '\u{202f}'
    ||| c == '\u{205f}'
    ||| c == '\u{3000}'
}

/// `s` without its leading whitespace.
pub open spec fn trim_start(s: Seq<char>) -> Seq<char>
    decreases s.len(),
{
    if s.len() > 0 && is_whitespace(s[0]) {
        trim_start(s.drop_first())
    } else {
        s
    }
}

/// `s` without its trailing whitespace.
pub open spec fn trim_end(s: Seq<char>) -> Seq<char>
    decreases s.len(),
{
    if s.len() > 0 && is_whitespace(s.last()) {
        trim_end(s.drop_last())
    } else {
        s
    }
}

/// `s` without leading and trailing whitespace, as std's `str::trim` gives it.
pub open spec fn trimmed(s: Seq<char>) -> Seq<char> {
    trim_end(trim_start(s))
}

proof fn lemma_trim_start(s: Seq<char>) -> (a: int)
    ensures
        0 <= a <= s.len(),
        trim_start(s) == s.skip(a),
        forall|j: int| 0 <= j < a ==> is_whitespace(#[trigger] s[j]),
        a < s.len() ==> !is_whitespace(s[a]),
    decreases s.len(),
{
    if s.len() > 0 && is_whitespace(s[0]) {
        let a0 = lemma_trim_start(s.drop_first());
        assert(s.drop_first().skip(a0) =~= s.skip(a0 + 1));
        assert forall|j: int| 0 <= j < a0 + 1 implies is_whitespace(#[trigger] s[j]) by {
            if j > 0 {
                assert(s[j] == s.drop_first()[j - 1]);
            }
        }
        a0 + 1
    } else {
        assert(s.skip(0) =~= s);
        0
    }
}

proof fn lemma_trim_end(s: Seq<char>) -> (b: int)
    ensures
        0 <= b <= s.len(),
        trim_end(s) == s.take(b),
        forall|j: int| b <= j < s.len() ==> is_whitespace(#[trigger] s[j]),
        b > 0 ==> !is_whitespace(s[b - 1]),
    decreases s.len(),
{
    if s.len() > 0 && is_whitespace(s.last()) {
        let b0 = lemma_trim_end(s.drop_last());
        assert(s.drop_last().take(b0) =~= s.take(b0));
        assert forall|j: int| b0 <= j < s.len() implies is_whitespace(#[trigger] s[j]) by {
            if j < s.len() - 1 {
                assert(s[j] == s.drop_last()[j]);
            }
        }
        b0
    } else {
        assert(s.take(s.len() as int) =~= s);
        s.len() as int
    }
}

/// Among ASCII characters, exactly the space and the controls tab to carriage
/// return are whitespace; letters, digits, hyphens and other punctuation are
/// not.
pub proof fn law_ascii_whitespace(c: char)
    requires
        is_ascii_char(c),
    ensures
        is_whitespace(c) <==> (c == ' ' || '\u{9}' <= c <= '\u{d}'),
{
}

/// Trimming removes exactly the whitespace at both ends: what is left is a
/// stretch of the text that neither starts nor ends with whitespace, and
/// everything before and after it is whitespace.
pub proof fn law_trimmed(s: Seq<char>)
    ensures
        exists|a: int, b: int|
            #![trigger s.subrange(a, b)]
            0 <= a <= b <= s.len() && trimmed(s) == s.subrange(a, b) && (forall|j: int|
                0 <= j < a ==> is_whitespace(#[trigger] s[j])) && (forall|j: int|
                b <= j < s.len() ==> is_whitespace(#[trigger] s[j])) && (a < b ==> !is_whitespace(s[a])
                && !is_whitespace(s[b - 1])),
{
    let a = lemma_trim_start(s);
    let rest = s.skip(a);
    let b0 = lemma_trim_end(rest);
    let b = a + b0;
    assert(rest.take(b0) =~= s.subrange(a, b));
    assert forall|j: int| b <= j < s.len() implies is_whitespace(#[trigger] s[j]) by {
        assert(s[j] == rest[j - a]);
    }
    if a < b {
        assert(s[b - 1] == rest[b0 - 1]);
    }
    assert(s.subrange(a, b) == s.subrange(a, b));
}

fn is_whitespace_char(c: char) -> (b: bool)
    ensures
        b == is_whitespace(c),
{
    ('\u{9}' <= c && c <= '\u{d}') || c == ' ' || c == '\u{85}' || c == '\u{a0}' || c == '\u{1680}'
        || ('\u{2000}' <= c && c <= '\u{200a}') || c == '\u{2028}' || c == '\u{2029}'
        || c == '\u{202f}' || c == '\u{205f}' || c == '\u{3000}'
}

/// The characters of `s` without leading and trailing whitespace.
pub fn trim_chars(s: &Vec<char>) -> (r: Vec<char>)
    ensures
        r@ == trimmed(s@),
{
    let mut lo: usize = 0;
    assert(s@.skip(0) =~= s@);
    while lo < s.len() && is_whitespace_char(s[lo])
        invariant
            lo <= s.len(),
            trim_start(s@) == trim_start(s@.skip(lo as int)),
        decreases s.len() - lo,
    {
        assert(s@.skip(lo as int).drop_first() =~= s@.skip(lo + 1));
        lo = lo + 1;
    }
    let ghost front = s@.skip(lo as int);
    assert(trim_start(front) == front);
    let mut hi: usize = s.len();
    while hi > lo && is_whitespace_char(s[hi - 1])
        invariant
            lo <= hi <= s.len(),
            front == s@.skip(lo as int),
            trim_end(front) == trim_end(s@.subrange(lo as int, hi as int)),
        decreases hi,
    {
        assert(s@.subrange(lo as int, hi as int).drop_last() =~= s@.subrange(lo as int, hi - 1));
        hi = hi - 1;
    }
    let ghost kept = s@.subrange(lo as int, hi as int);
    assert(trim_end(kept) == kept);
    assert(s@.subrange(lo as int, s.len() as int) =~= front);
    let mut r: Vec<char> = Vec::new();
    let mut k: usize = lo;
    while k < hi
        invariant
            lo <= k <= hi <= s.len(),
            r@ == s@.subrange(lo as int, k as int),
        decreases hi - k,
    {
        r.push(s[k]);
        assert(s@.subrange(lo as int, k + 1) =~= s@.subrange(lo as int, k as int).push(s@[k as int]));
        k = k + 1;
    }
    r
}

/// The characters kept in a normalized item name: ASCII letters and digits,
/// `&`, and the few other letters that occur in skin names.
pub open spec fn is_name_char(c: char) -> bool {
    ||| 'a' <= c <= 'z'
    ||| 'A' <= c <= 'Z'
    ||| '0' <= c <= '9'
    ||| c == '&'
    ||| c == 'ö'
    ||| c == '龍'
    ||| c == '王'
    ||| c == '弐'
    ||| c == '壱'
}

/// The normalized form of an item name: lowercased, then reduced to its name
/// characters.
pub open spec fn normalized_name(s: Seq<char>) -> Seq<char> {
    lowercase_of(s).filter(|c: char| is_name_char(c))
}

/// Calls `regex::Regex::new(pattern)` and then `Regex::replace_all(text,
/// replacement)` on the compiled regex. Claimed only for the one pattern the
/// library uses, the negated character class `[^a-zA-Z0-9&ö龍王弐壱]+`, which
/// compiles, with an empty replacement: every run of characters outside the
/// class is deleted, so what is left is exactly the characters of `text` that
/// lie in the class, in their order.
#[verifier::external_body]
fn regex_replace_all(pattern: &str, text: &str, replacement: &str) -> (r: String)
    requires
        pattern@ == "[^a-zA-Z0-9&ö龍王弐壱]+"@,
        replacement@ == Seq::<char>::empty(),
    ensures
        r@ == text@.filter(|c: char| is_name_char(c)),
{
    regex::Regex::new(pattern).unwrap().replace_all(text, replacement).into_owned()
}

proof fn lemma_filter_has_no_whitespace(s: Seq<char>)
    ensures
        trimmed(s.filter(|c: char| is_name_char(c))) == s.filter(|c: char| is_name_char(c)),
{
    let f = s.filter(|c: char| is_name_char(c));
    if f.len() > 0 {
        s.lemma_filter_pred(|c: char| is_name_char(c), 0);
        s.lemma_filter_pred(|c: char| is_name_char(c), f.len() - 1);
        assert(!is_whitespace(f[0]));
        assert(!is_whitespace(f.last()));
    }
}

/// A character of a normalized name: a name character other than a capital.
pub open spec fn is_normal_char(c: char) -> bool {
    is_name_char(c) && !('A' <= c <= 'Z')
}

/// All characters of `s` are characters of a normalized name.
pub open spec fn is_normal_text(s: Seq<char>) -> bool {
    forall|i: int| 0 <= i < s.len() ==> is_normal_char(#[trigger] s[i])
}

/// The normalized form of an ASCII name: its ASCII lowercase, reduced to its
/// name characters.
pub open spec fn ascii_normalized(s: Seq<char>) -> Seq<char> {
    s.map_values(|c: char| ascii_lower(c)).filter(|c: char| is_name_char(c))
}

proof fn lemma_filter_keeps_all(s: Seq<char>)
    requires
        forall|i: int| 0 <= i < s.len() ==> is_name_char(#[trigger] s[i]),
    ensures
        s.filter(|c: char| is_name_char(c)) == s,
    decreases s.len(),
{
    if s.len() > 0 {
        let p = s.drop_last();
        assert forall|i: int| 0 <= i < p.len() implies is_name_char(#[trigger] p[i]) by {
            assert(p[i] == s[i]);
        }
        lemma_filter_keeps_all(p);
        assert(s == p.push(s.last()));
        p.lemma_filter_push(s.last(), |c: char| is_name_char(c));
    }
}

/// Removes the formatting of a CS2 item name: lowercases it and keeps only its
/// name characters. The result is itself normalized (lowercase name
/// characters only), and a name that is normalized already comes back
/// unchanged, so normalizing twice is normalizing once.
pub fn normalize_item_name(s: &str) -> (r: String)
    ensures
        r@ == normalized_name(s@),
        is_normal_text(r@),
        is_normal_text(s@) ==> r@ == s@,
        is_ascii_text(s@) ==> r@ == ascii_normalized(s@),
        is_plain_text(s@) ==> r@ == ascii_normalized(s@),
        !s@.contains('Σ') ==> forall|i: int|
            0 <= i <= s@.len() ==> r@ == #[trigger] normalized_name(s@.take(i)) + normalized_name(s@.skip(i)),
{
    let lower = str_to_lowercase(s);
    let nothing = "";
    proof {
        reveal_strlit("");
    }
    assert(nothing@.len() == 0);
    assert(nothing@ =~= Seq::<char>::empty());
    let filtered = regex_replace_all("[^a-zA-Z0-9&ö龍王弐壱]+", lower.as_str(), nothing);
    let trimmed_chars = trim_chars(&chars_of(filtered.as_str()));
    proof {
        let low = lowercase_of(s@);
        let f = low.filter(|c: char| is_name_char(c));
        lemma_filter_has_no_whitespace(low);
        assert forall|i: int| 0 <= i < f.len() implies is_normal_char(#[trigger] f[i]) by {
            low.lemma_filter_pred(|c: char| is_name_char(c), i);
            assert(f.contains(f[i]));
            low.lemma_filter_contains_rev(|c: char| is_name_char(c), f[i]);
            let k = choose|k: int| 0 <= k < low.len() && low[k] == f[i];
            assert(!('A' <= low[k] <= 'Z'));
        }
        if !s@.contains('Σ') {
            assert forall|i: int| 0 <= i <= s@.len() implies low.filter(|c: char| is_name_char(c))
                == #[trigger] normalized_name(s@.take(i)) + normalized_name(s@.skip(i)) by {
                assert(low == lowercase_of(s@.take(i)) + lowercase_of(s@.skip(i)));
                Seq::filter_distributes_over_add(
                    lowercase_of(s@.take(i)),
                    lowercase_of(s@.skip(i)),
                    |c: char| is_name_char(c),
                );
            }
        }
        if is_normal_text(s@) {
            assert forall|i: int| 0 <= i < s@.len() implies keeps_lowercase(#[trigger] s@[i]) by {
                assert(is_normal_char(s@[i]));
            }
            assert(low == s@);
            assert forall|i: int| 0 <= i < s@.len() implies is_name_char(#[trigger] s@[i]) by {
                assert(is_normal_char(s@[i]));
            }
            lemma_filter_keeps_all(s@);
        }
    }
    string_from_chars(&trimmed_chars)
}

/// Normalizing a concatenation of ASCII names normalizes each part: the
/// separators between parts vanish.
pub proof fn law_ascii_normalize_concat(a: Seq<char>, b: Seq<char>)
    ensures
        ascii_normalized(a + b) == ascii_normalized(a) + ascii_normalized(b),
{
    let f = |c: char| ascii_lower(c);
    assert((a + b).map_values(f) =~= a.map_values(f) + b.map_values(f));
    Seq::filter_distributes_over_add(a.map_values(f), b.map_values(f), |c: char| is_name_char(c));
}

/// A character without case that is not a name character leaves no trace in
/// a normalized name: `★ Karambit | Fade` normalizes as `Karambit | Fade`.
pub proof fn law_normalize_drops_symbols(c: char, t: Seq<char>)
    requires
        keeps_lowercase(c),
        !is_name_char(c),
    ensures
        ascii_normalized(seq![c] + t) == ascii_normalized(t),
{
    law_ascii_normalize_concat(seq![c], t);
    let f = |x: char| ascii_lower(x);
    assert(seq![c].map_values(f) =~= seq![c]);
    assert(seq![c].drop_last() =~= Seq::<char>::empty());
    Seq::<char>::empty().lemma_filter_push(c, |x: char| is_name_char(x));
    assert(seq![c] == Seq::<char>::empty().push(c));
    assert(ascii_normalized(seq![c]) =~= Seq::<char>::empty());
    assert(Seq::<char>::empty() + ascii_normalized(t) =~= ascii_normalized(t));
}

/// The ASCII case of a name does not matter to its normalized form.
pub proof fn law_ascii_normalize_ignores_case(s: Seq<char>)
    requires
        is_ascii_text(s),
    ensures
        is_ascii_text(s.map_values(|c: char| ascii_upper(c))),
        is_ascii_text(s.map_values(|c: char| ascii_lower(c))),
        ascii_normalized(s.map_values(|c: char| ascii_upper(c))) == ascii_normalized(s),
        ascii_normalized(s.map_values(|c: char| ascii_lower(c))) == ascii_normalized(s),
{
    let up = s.map_values(|c: char| ascii_upper(c));
    let low = s.map_values(|c: char| ascii_lower(c));
    assert forall|i: int| 0 <= i < s.len() implies is_ascii_char(#[trigger] up[i]) && is_ascii_char(
        low[i],
    ) && ascii_lower(up[i]) == ascii_lower(s[i]) && ascii_lower(low[i]) == ascii_lower(s[i]) by {
        let c = s[i];
        assert(is_ascii_char(c));
        if 'a' <= c <= 'z' {
            assert(((c as int - 32) as char) as int == c as int - 32);
        }
        if 'A' <= c <= 'Z' {
            assert(((c as int + 32) as char) as int == c as int + 32);
        }
    }
    assert(up.map_values(|c: char| ascii_lower(c)) =~= s.map_values(|c: char| ascii_lower(c)));
    assert(low.map_values(|c: char| ascii_lower(c)) =~= s.map_values(|c: char| ascii_lower(c)));
}

/// Title case leaves ASCII text ASCII, changes only the case of its
/// characters, and applied twice gives what it gives once.
pub proof fn law_ascii_title_case(s: Seq<char>)
    requires
        is_ascii_text(s),
    ensures
        is_ascii_text(ascii_title_case(s)),
        ascii_title_case(s).len() == s.len(),
        forall|i: int| 0 <= i < s.len() ==> ascii_lower(#[trigger] ascii_title_case(s)[i]) == ascii_lower(s[i]),
        ascii_title_case(ascii_title_case(s)) == ascii_title_case(s),
{
    let t = ascii_title_case(s);
    assert forall|i: int| 0 <= i < s.len() implies is_ascii_char(#[trigger] t[i]) && ascii_lower(t[i])
        == ascii_lower(s[i]) && ascii_upper(t[i]) == ascii_upper(s[i]) && (is_word_separator(t[i])
        == is_word_separator(s[i])) && (t[i] == s[i] || t[i] == ascii_upper(s[i])) by {
        let c = s[i];
        assert(is_ascii_char(c));
        if 'a' <= c <= 'z' {
            assert(((c as int - 32) as char) as int == c as int - 32);
            let u = ((c as int - 32) as char);
            assert(((u as int + 32) as char) as int == u as int + 32);
            assert(((u as int + 32) as char) == c);
        }
    }
    assert forall|i: int| 0 <= i < s.len() implies begins_word(t, i) == begins_word(s, i) by {
        if i > 0 {
            assert(is_word_separator(t[i - 1]) == is_word_separator(s[i - 1]));
        }
    }
    assert(ascii_title_case(t) =~= t);
}

/// The decimal notation of `n` as a string.
pub fn decimal_string(n: u64) -> (s: String)
    ensures
        s@ == decimal(n as nat),
{
    let mut out: Vec<char> = Vec::new();
    push_decimal(n, &mut out);
    assert(out@ =~= decimal(n as nat));
    string_from_chars(&out)
}

/// Whether two strings hold the same text.
pub fn same_text(a: &str, b: &str) -> (r: bool)
    ensures
        r == (a@ == b@),
{
    a.to_owned() == b.to_owned()
}

/// Whether `s` starts with `prefix`.
pub fn has_prefix(s: &str, prefix: &str) -> (r: bool)
    ensures
        r == (prefix@.len() <= s@.len() && s@.take(prefix@.len() as int) == prefix@),
{
    let sc = chars_of(s);
    let pc = chars_of(prefix);
    if pc.len() > sc.len() {
        return false;
    }
    let mut i: usize = 0;
    while i < pc.len()
        invariant
            sc@ == s@,
            pc@ == prefix@,
            pc.len() <= sc.len(),
            i <= pc.len(),
            forall|j: int| 0 <= j < i ==> sc@[j] == pc@[j],
        decreases pc.len() - i,
    {
        if sc[i] != pc[i] {
            assert(s@.take(prefix@.len() as int)[i as int] != prefix@[i as int]);
            return false;
        }
        i = i + 1;
    }
    assert(s@.take(prefix@.len() as int) =~= prefix@);
    true
}

/// The parts joined into one sequence, with `sep` between consecutive parts.
pub open spec fn joined(parts: Seq<Seq<char>>, sep: Seq<char>) -> Seq<char>
    decreases parts.len(),
{
    if parts.len() == 0 {
        Seq::empty()
    } else if parts.len() == 1 {
        parts[0]
    } else {
        joined(parts.drop_last(), sep) + sep + parts.last()
    }
}

/// Joins the strings, with `sep` between consecutive ones.
pub fn join(parts: &Vec<String>, sep: &str) -> (s: String)
    ensures
        s@ == joined(parts@.map_values(|p: String| p@), sep@),
{
    let ghost views = parts@.map_values(|p: String| p@);
    let mut s = String::new();
    let mut i: usize = 0;
    while i < parts.len()
        invariant
            views == parts@.map_values(|p: String| p@),
            i <= parts.len(),
            s@ == joined(views.take(i as int), sep@),
        decreases parts.len() - i,
    {
        assert(views.take(i + 1).drop_last() =~= views.take(i as int));
        assert(views.take(i + 1).last() == parts@[i as int]@);
        if i > 0 {
            s.append(sep);
        } else {
            assert(views.take(1) =~= seq![parts@[0]@]);
        }
        s.append(parts[i].as_str());
        i = i + 1;
    }
    assert(views.take(parts.len() as int) =~= views);
    s
}


/// The texts of a vector of strings.
pub open spec fn texts(v: Seq<String>) -> Seq<Seq<char>> {
    v.map_values(|s: String| s@)
}

/// The texts of a vector after a push: the old texts and the new one.
pub proof fn lemma_texts_push(v: Seq<String>, s: String)
    ensures
        texts(v.push(s)) == texts(v).push(s@),
{
    assert(texts(v.push(s)) =~= texts(v).push(s@));
}

/// Mapping one more element of a prefix appends its image.
pub proof fn lemma_map_take_push<A, B>(s: Seq<A>, i: int, f: spec_fn(A) -> B)
    requires
        0 <= i < s.len(),
    ensures
        s.take(i + 1).map_values(f) == s.take(i).map_values(f).push(f(s[i])),
{
    assert(s.take(i + 1).map_values(f) =~= s.take(i).map_values(f).push(f(s[i])));
}


/// A normalized item name holds name characters only.
pub proof fn law_normalized_name_chars(s: Seq<char>)
    ensures
        forall|i: int| 0 <= i < normalized_name(s).len() ==> is_name_char(#[trigger] normalized_name(s)[i]),
{
    assert forall|i: int| 0 <= i < normalized_name(s).len() implies is_name_char(
        #[trigger] normalized_name(s)[i],
    ) by {
        lowercase_of(s).lemma_filter_pred(|c: char| is_name_char(c), i);
    }
}

/// A currency text starts with a dollar sign and ends with a dot and two
/// digits, the cents below a dollar.
pub proof fn law_currency_text_shape(cents: nat)
    ensures
        currency_text(cents)[0] == '$',
        currency_text(cents).len() >= 5,
        currency_text(cents)[currency_text(cents).len() - 3] == '.',
        currency_text(cents)[currency_text(cents).len() - 2] == digit_char(((cents % 100) / 10) as int),
        currency_text(cents)[currency_text(cents).len() - 1] == digit_char((cents % 10) as int),
{
    lemma_decimal_nonempty(cents / 100);
}

/// The number a digit character stands for.
pub open spec fn digit_value(c: char) -> int {
    (c as int) - 48
}

/// The number written by the decimal digits `s`.
pub open spec fn decimal_value(s: Seq<char>) -> int
    decreases s.len(),
{
    if s.len() == 0 {
        0
    } else {
        decimal_value(s.drop_last()) * 10 + digit_value(s.last())
    }
}

/// The number of cents a currency text `$d.cc` stands for.
pub open spec fn currency_value(t: Seq<char>) -> int {
    decimal_value(t.subrange(1, t.len() - 3)) * 100 + digit_value(t[t.len() - 2]) * 10 + digit_value(
        t[t.len() - 1],
    )
}

proof fn lemma_digit_value(d: int)
    requires
        0 <= d < 10,
    ensures
        digit_value(digit_char(d)) == d,
{
    assert(((48 + d) as char) as int == 48 + d);
}

proof fn lemma_decimal_value(n: nat)
    ensures
        decimal_value(decimal(n)) == n,
    decreases n,
{
    if n < 10 {
        lemma_digit_value(n as int);
        let d = decimal(n);
        assert(d.drop_last() =~= Seq::<char>::empty());
        assert(d.last() == digit_char(n as int));
        assert(decimal_value(d) == decimal_value(d.drop_last()) * 10 + digit_value(d.last()));
    } else {
        lemma_digit_value((n % 10) as int);
        lemma_decimal_value(n / 10);
        let d = decimal(n);
        assert(d.drop_last() =~= decimal(n / 10));
        assert(d.last() == digit_char((n % 10) as int));
        assert(decimal_value(d) == decimal_value(d.drop_last()) * 10 + digit_value(d.last()));
        assert(n == (n / 10) * 10 + n % 10) by (nonlinear_arith);
    }
}

/// Reading a currency text back gives the amount it was written from.
pub proof fn law_currency_round_trip(cents: nat)
    ensures
        currency_value(currency_text(cents)) == cents,
{
    let t = currency_text(cents);
    lemma_decimal_nonempty(cents / 100);
    lemma_decimal_value(cents / 100);
    lemma_digit_value(((cents % 100) / 10) as int);
    lemma_digit_value((cents % 10) as int);
    assert(t.subrange(1, t.len() - 3) =~= decimal(cents / 100));
    assert(t[t.len() - 2] == digit_char(((cents % 100) / 10) as int));
    assert(t[t.len() - 1] == digit_char((cents % 10) as int));
    assert(cents == (cents / 100) * 100 + ((cents % 100) / 10) * 10 + cents % 10) by (nonlinear_arith);
}

/// Distinct amounts are written differently.
pub proof fn law_currency_injective(a: nat, b: nat)
    requires
        a != b,
    ensures
        currency_text(a) != currency_text(b),
{
    law_currency_round_trip(a);
    law_currency_round_trip(b);
}

proof fn lemma_decimal_nonempty(n: nat)
    ensures
        decimal(n).len() >= 1,
    decreases n,
{
    if n >= 10 {
        lemma_decimal_nonempty(n / 10);
    }
}

} // verus!
