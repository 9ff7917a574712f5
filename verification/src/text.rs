//! Text: file names, decimal numbers and lists.
use vstd::prelude::*;

verus! {

/// The lowercase equivalent of a text, as Unicode defines it.
pub uninterp spec fn unicode_lowercase(text: Seq<char>) -> Seq<char>;

/// Whether a text holds ASCII characters only.
pub open spec fn all_ascii(text: Seq<char>) -> bool {
    forall|i: int| 0 <= i < text.len() ==> (#[trigger] text[i] as int) < 128
}

/// The lowercase form of an ASCII character.
pub open spec fn ascii_lowercase_char(c: char) -> char {
    if 'A' <= c && c <= 'Z' {
        ((c as int) + 32) as char
    } else {
        c
    }
}

/// The lowercase form of an ASCII text.
pub open spec fn ascii_lowercase(text: Seq<char>) -> Seq<char> {
    Seq::new(text.len(), |i: int| ascii_lowercase_char(text[i]))
}

/// The lowercase form of a text: that of its ASCII characters, and of others as
/// Unicode defines it.
pub open spec fn lowercase(text: Seq<char>) -> Seq<char> {
    if all_ascii(text) {
        ascii_lowercase(text)
    } else {
        unicode_lowercase(text)
    }
}

/// Calls `str::to_lowercase`. The result is the lowercase equivalent of the
/// text; of an ASCII text it is the text with the letters A to Z in lower case.
/// What it is for other texts is left to Unicode.
#[verifier::external_body]
pub(crate) fn to_lowercase(text: &str) -> (r: String)
    ensures
        r@ == unicode_lowercase(text@),
        all_ascii(text@) ==> r@ == ascii_lowercase(text@),
{
    text.to_lowercase()
}

/// Whether `text` holds `part` at position `at`.
pub open spec fn part_at(text: Seq<char>, part: Seq<char>, at: int) -> bool {
    0 <= at && at + part.len() <= text.len() && text.subrange(at, at + part.len()) == part
}

/// Whether `text` begins with `part`.
pub open spec fn begins_with(text: Seq<char>, part: Seq<char>) -> bool {
    part_at(text, part, 0)
}

/// Whether `text` ends with `part`.
pub open spec fn ends_with(text: Seq<char>, part: Seq<char>) -> bool {
    part_at(text, part, text.len() - part.len())
}

/// Whether `text` holds `part` anywhere.
pub open spec fn holds(text: Seq<char>, part: Seq<char>) -> bool {
    exists|at: int| #[trigger] part_at(text, part, at)
}

/// Whether `text` holds `part` at position `at`.
fn is_part_at(text: &str, part: &str, at: usize) -> (r: bool)
    requires
        at + part@.len() <= text@.len(),
    ensures
        r == part_at(text@, part@, at as int),
{
    let n: usize = text.unicode_len();
    let k: usize = part.unicode_len();
    let mut i: usize = 0;
    while i < k
        invariant
            i <= k,
            n == text@.len(),
            k == part@.len(),
            at + k <= n,
            forall|j: int| 0 <= j < i ==> text@[at + j] == #[trigger] part@[j],
        decreases k - i,
    {
        if text.get_char(at + i) != part.get_char(i) {
            assert(text@.subrange(at as int, at + k)[i as int] != part@[i as int]);
            return false;
        }
        i = i + 1;
    }
    assert(text@.subrange(at as int, at + k) =~= part@);
    true
}

/// Whether `text` begins with `part`.
pub fn has_prefix(text: &str, part: &str) -> (r: bool)
    ensures
        r == begins_with(text@, part@),
{
    let n: usize = text.unicode_len();
    let k: usize = part.unicode_len();
    k <= n && is_part_at(text, part, 0)
}

/// Whether `text` ends with `part`.
pub fn has_suffix(text: &str, part: &str) -> (r: bool)
    ensures
        r == ends_with(text@, part@),
{
    let n: usize = text.unicode_len();
    let k: usize = part.unicode_len();
    k <= n && is_part_at(text, part, n - k)
}

/// Whether `text` holds `part` anywhere.
pub fn has_part(text: &str, part: &str) -> (r: bool)
    ensures
        r == holds(text@, part@),
{
    let n: usize = text.unicode_len();
    let k: usize = part.unicode_len();
    if k > n {
        return false;
    }
    let mut at: usize = 0;
    while at < n - k
        invariant
            at <= n - k,
            k <= n,
            n == text@.len(),
            k == part@.len(),
            forall|j: int| 0 <= j < at ==> !#[trigger] part_at(text@, part@, j),
        decreases n - k - at,
    {
        if is_part_at(text, part, at) {
            return true;
        }
        at = at + 1;
    }
    is_part_at(text, part, n - k)
}

/// The character of a digit.
pub open spec fn digit_char(d: int) -> char {
    if d == 0 {
        '0'
    } else if d == 1 {
        '1'
    } else if d == 2 {
        '2'
    } else if d == 3 {
        '3'
    } else if d == 4 {
        '4'
    } else if d == 5 {
        '5'
    } else if d == 6 {
        '6'
    } else if d == 7 {
        '7'
    } else if d == 8 {
        '8'
    } else {
        '9'
    }
}

/// The decimal digits of a number.
pub open spec fn digits(n: int) -> Seq<char>
    decreases n,
{
    if n < 10 {
        seq![digit_char(n)]
    } else {
        digits(n / 10).push(digit_char(n % 10))
    }
}

/// The text of one digit.
fn digit(d: usize) -> (r: &'static str)
    requires
        d < 10,
    ensures
        r@ == seq![digit_char(d as int)],
{
    proof {
        reveal_strlit("0");
        reveal_strlit("1");
        reveal_strlit("2");
        reveal_strlit("3");
        reveal_strlit("4");
        reveal_strlit("5");
        reveal_strlit("6");
        reveal_strlit("7");
        reveal_strlit("8");
        reveal_strlit("9");
    }
    let r: &'static str = match d {
        0 => "0",
        1 => "1",
        2 => "2",
        3 => "3",
        4 => "4",
        5 => "5",
        6 => "6",
        7 => "7",
        8 => "8",
        _ => "9",
    };
    assert(r@ =~= seq![digit_char(d as int)]);
    r
}

/// A number in decimal.
pub fn decimal(n: usize) -> (r: String)
    ensures
        r@ == digits(n as int),
    decreases n,
{
    if n < 10 {
        digit(n).to_string()
    } else {
        let mut s: String = decimal(n / 10);
        s.append(digit(n % 10));
        s
    }
}

/// Position of the last dot before position `k`, or -1.
pub open spec fn last_dot(text: Seq<char>, k: int) -> int
    decreases k,
{
    if k <= 0 {
        -1
    } else if text[k - 1] == '.' {
        k - 1
    } else {
        last_dot(text, k - 1)
    }
}

/// A file name without its last extension.
pub open spec fn stem(name: Seq<char>) -> Seq<char> {
    let dot = last_dot(name, name.len() as int);
    if dot < 0 {
        name
    } else {
        name.subrange(0, dot)
    }
}

/// A file name without its last extension.
pub fn base_name(name: &str) -> (r: String)
    ensures
        r@ == stem(name@),
{
    let n: usize = name.unicode_len();
    let mut k: usize = n;
    while k > 0
        invariant
            k <= n,
            n == name@.len(),
            last_dot(name@, n as int) == last_dot(name@, k as int),
        decreases k,
    {
        if name.get_char(k - 1) == '.' {
            return name.substring_char(0, k - 1).to_string();
        }
        k = k - 1;
    }
    name.to_string()
}

/// A name with a dot and an extension added, which has no dot of its own, has
/// that name as its stem.
pub proof fn stem_drops_what_was_added(name: Seq<char>, ext: Seq<char>)
    requires
        !ext.contains('.'),
    ensures
        stem(name + seq!['.'] + ext) == name,
{
    let whole = name + seq!['.'] + ext;
    lemma_last_dot_above(whole, name.len() as int, whole.len() as int);
    assert(whole.subrange(0, name.len() as int) =~= name);
}

proof fn lemma_last_dot_above(text: Seq<char>, dot: int, k: int)
    requires
        0 <= dot < k <= text.len(),
        text[dot] == '.',
        forall|i: int| dot < i < text.len() ==> text[i] != '.',
    ensures
        last_dot(text, k) == dot,
    decreases k,
{
    if k - 1 > dot {
        lemma_last_dot_above(text, dot, k - 1);
    }
}

/// Texts with a separator between each two.
pub open spec fn joined(parts: Seq<Seq<char>>, separator: Seq<char>) -> Seq<char>
    decreases parts.len(),
{
    if parts.len() == 0 {
        Seq::empty()
    } else if parts.len() == 1 {
        parts[0]
    } else {
        joined(parts.drop_last(), separator) + separator + parts.last()
    }
}

/// The texts of a list.
pub open spec fn texts(parts: Seq<String>) -> Seq<Seq<char>> {
    Seq::new(parts.len(), |i: int| parts[i]@)
}

/// Joins texts with a separator between each two.
pub fn join(parts: &Vec<String>, separator: &str) -> (r: String)
    ensures
        r@ == joined(texts(parts@), separator@),
{
    if parts.len() == 0 {
        return String::new();
    }
    let mut out: String = parts[0].as_str().to_string();
    let mut i: usize = 1;
    let ghost all = texts(parts@);
    assert(all.take(1) =~= seq![parts@[0]@]);
    while i < parts.len()
        invariant
            1 <= i <= parts.len(),
            all == texts(parts@),
            out@ == joined(all.take(i as int), separator@),
        decreases parts.len() - i,
    {
        out.append(separator);
        out.append(parts[i].as_str());
        assert(all.take(i + 1).drop_last() =~= all.take(i as int));
        assert(out@ =~= joined(all.take(i + 1), separator@));
        i = i + 1;
    }
    assert(all.take(i as int) =~= all);
    out
}

/// A text with each space replaced by a hyphen.
pub open spec fn hyphenated(text: Seq<char>) -> Seq<char> {
    Seq::new(
        text.len(),
        |i: int|
            if text[i] == ' ' {
                '-'
            } else {
                text[i]
            },
    )
}

/// Replaces each space by a hyphen.
pub fn hyphenate(text: &str) -> (r: String)
    ensures
        r@ == hyphenated(text@),
{
    proof {
        reveal_strlit("-");
        reveal_strlit("");
    }
    let n: usize = text.unicode_len();
    let mut out: String = "".to_string();
    let mut i: usize = 0;
    while i < n
        invariant
            i <= n,
            n == text@.len(),
            "-"@ == seq!['-'],
            out@ == hyphenated(text@).take(i as int),
        decreases n - i,
    {
        if text.get_char(i) == ' ' {
            out.append("-");
        } else {
            out.append(text.substring_char(i, i + 1));
        }
        assert(out@ =~= hyphenated(text@).take(i + 1));
        i = i + 1;
    }
    assert(out@ =~= hyphenated(text@));
    out
}

/// A text begins with, ends with or holds another where it is made of that and
/// of texts around it.
pub proof fn parts_are_what_texts_are_made_of(text: Seq<char>, part: Seq<char>, before: Seq<char>, after: Seq<char>)
    ensures
        begins_with(part + after, part),
        ends_with(before + part, part),
        holds(before + part + after, part),
        begins_with(text, part) ==> exists|rest: Seq<char>| text == #[trigger] (part + rest),
        ends_with(text, part) ==> exists|rest: Seq<char>| text == #[trigger] (rest + part),
        holds(text, part) ==> exists|a: Seq<char>, b: Seq<char>| text == #[trigger] (a + part + b),
{
    assert((part + after).subrange(0, part.len() as int) =~= part);
    let n = before.len() as int;
    assert((before + part).subrange(n, n + part.len()) =~= part);
    assert((before + part + after).subrange(n, n + part.len()) =~= part);
    assert(part_at(before + part + after, part, n));
    if begins_with(text, part) {
        let rest = text.skip(part.len() as int);
        assert(text =~= text.subrange(0, part.len() as int) + rest);
        assert(text == part + rest);
    }
    if ends_with(text, part) {
        let at = text.len() - part.len();
        let rest = text.take(at);
        assert(text =~= rest + text.subrange(at, at + part.len()));
        assert(text == rest + part);
    }
    if holds(text, part) {
        let at = choose|at: int| #[trigger] part_at(text, part, at);
        let (a, b) = (text.take(at), text.skip(at + part.len()));
        assert(text =~= a + text.subrange(at, at + part.len()) + b);
        assert(text == a + part + b);
    }
}

/// A number is read back from its digits: the last digit is its remainder by
/// ten, those before it are the digits of its quotient, and there are none in
/// front of a number below ten.
pub proof fn digits_spell_the_number(n: int)
    requires
        0 <= n,
    ensures
        digits(n).len() >= 1,
        digits(n).last() as int == 48 + n % 10,
        n < 10 ==> digits(n).len() == 1,
        n >= 10 ==> digits(n).drop_last() == digits(n / 10),
        digits(n)[0] == '0' ==> n == 0,
    decreases n,
{
    if n >= 10 {
        digits_spell_the_number(n / 10);
        assert(digits(n).drop_last() =~= digits(n / 10));
        assert(digits(n)[0] == digits(n / 10)[0]);
    }
}

/// Different numbers have different digits.
pub proof fn digits_tell_numbers_apart(a: int, b: int)
    requires
        0 <= a,
        0 <= b,
        digits(a) == digits(b),
    ensures
        a == b,
    decreases a,
{
    digits_spell_the_number(a);
    digits_spell_the_number(b);
    if a >= 10 && b >= 10 {
        digits_tell_numbers_apart(a / 10, b / 10);
    } else if a >= 10 {
        digits_spell_the_number(a / 10);
    } else if b >= 10 {
        digits_spell_the_number(b / 10);
    }
}

/// A name without a dot is its own stem.
pub proof fn stem_keeps_names_without_a_dot(name: Seq<char>)
    requires
        !name.contains('.'),
    ensures
        stem(name) == name,
{
    lemma_no_dot(name, name.len() as int);
}

proof fn lemma_no_dot(text: Seq<char>, k: int)
    requires
        k <= text.len(),
        !text.contains('.'),
    ensures
        last_dot(text, k) == -1,
    decreases k,
{
    if k > 0 {
        assert(text.contains(text[k - 1]));
        lemma_no_dot(text, k - 1);
    }
}

/// Joining two lists in one is joining each, with the separator between; no
/// texts join to the empty one, and one text to itself.
pub proof fn joining_lists_in_parts(a: Seq<Seq<char>>, b: Seq<Seq<char>>, separator: Seq<char>)
    requires
        a.len() > 0,
        b.len() > 0,
    ensures
        joined(a + b, separator) == joined(a, separator) + separator + joined(b, separator),
        joined(Seq::empty(), separator) == Seq::<char>::empty(),
        joined(seq![a[0]], separator) == a[0],
    decreases b.len(),
{
    if b.len() == 1 {
        assert((a + b).drop_last() =~= a);
        assert((a + b).last() == b[0]);
    } else {
        joining_lists_in_parts(a, b.drop_last(), separator);
        assert((a + b).drop_last() =~= a + b.drop_last());
        assert((a + b).last() == b.last());
        assert(joined(a + b, separator) =~= joined(a, separator) + separator + joined(b, separator));
    }
}

/// A hyphen stands for each space, and nothing else is changed.
pub proof fn hyphens_replace_spaces(text: Seq<char>, i: int)
    requires
        0 <= i < text.len(),
    ensures
        hyphenated(text).len() == text.len(),
        text[i] == ' ' ==> hyphenated(text)[i] == '-',
        text[i] != ' ' ==> hyphenated(text)[i] == text[i],
        !hyphenated(text).contains(' '),
{
}

} // verus!
