//! Text as sequences of characters: splitting, trimming, searching, joining and decimal numbers.
//!
//! A string's view is the sequence of its characters, and every operation here is stated over
//! such sequences. Splitting and trimming work on characters rather than on byte offsets, so no
//! operation can cut a character in two.
use vstd::prelude::*;
use vstd::string::*;
use vstd::utf8::*;

verus! {

/// The characters of each string of a list.
pub open spec fn views(strings: Seq<String>) -> Seq<Seq<char>> {
    strings.map_values(|s: String| s@)
}

/// The pieces of `s` between the occurrences of `sep`, in order; an empty text is one empty
/// piece.
pub open spec fn split(s: Seq<char>, sep: char) -> Seq<Seq<char>>
    decreases s.len(),
{
    if s.len() == 0 {
        seq![Seq::empty()]
    } else {
        let before = split(s.drop_last(), sep);
        if s.last() == sep {
            before.push(Seq::empty())
        } else {
            before.drop_last().push(before.last().push(s.last()))
        }
    }
}

/// The parts in order, with `sep` between each two.
pub open spec fn joined(parts: Seq<Seq<char>>, sep: Seq<char>) -> Seq<char>
    decreases parts.len(),
{
    if parts.len() == 0 {
        Seq::empty()
    } else if parts.len() == 1 {
        parts[0]
    } else {
        joined(parts.drop_last(), sep) + sep + parts.last()
    }
}

/// Whether a character has the Unicode `White_Space` property.
pub open spec fn is_white_space(c: char) -> bool {
    ||| '\u{9}' <= c <= '\u{d}'
    ||| c == '\u{20}'
    ||| c == '\u{85}'
    ||| c == '\u{a0}'
    ||| c == '\u{1680}'
    ||| '\u{2000}' <= c <= '\u{200a}'
    ||| c == '\u{2028}'
    ||| c == '\u{2029}'
    ||| c == '\u{202f}'
    ||| c == '\u{205f}'
    ||| c == '\u{3000}'
}

/// `s` without the white space at its two ends.
pub open spec fn trimmed(s: Seq<char>) -> Seq<char>
    decreases s.len(),
{
    if s.len() == 0 {
        s
    } else if is_white_space(s.first()) {
        trimmed(s.drop_first())
    } else if is_white_space(s.last()) {
        trimmed(s.drop_last())
    } else {
        s
    }
}

/// Whether `needle` stands in `s` at position `at`.
pub open spec fn stands_at(needle: Seq<char>, s: Seq<char>, at: int) -> bool {
    &&& 0 <= at
    &&& at + needle.len() <= s.len()
    &&& s.subrange(at, at + needle.len()) == needle
}

/// Whether `needle` stands anywhere in `s`.
pub open spec fn occurs(needle: Seq<char>, s: Seq<char>) -> bool {
    exists|at: int| stands_at(needle, s, at)
}

/// The decimal digit for a number below ten.
pub open spec fn digit(n: nat) -> char
    recommends
        n < 10,
{
    ('0' as u32 + n) as char
}

/// A number in decimal, without leading zeros.
pub open spec fn decimal(n: nat) -> Seq<char>
    decreases n,
{
    if n < 10 {
        seq![digit(n)]
    } else {
        decimal(n / 10).push(digit(n % 10))
    }
}

/// The upper-case form of an ASCII character.
pub open spec fn ascii_upper(c: char) -> char {
    if 'a' <= c <= 'z' {
        (c as u32 - 32) as char
    } else {
        c
    }
}

/// What `str::to_uppercase` makes of a text that is not all ASCII.
pub uninterp spec fn unicode_uppercase(s: Seq<char>) -> Seq<char>;

/// A text in upper case.
pub open spec fn uppercase(s: Seq<char>) -> Seq<char> {
    if is_ascii_chars(s) {
        s.map_values(|c: char| ascii_upper(c))
    } else {
        unicode_uppercase(s)
    }
}

/// `String::push` adds one character at the end of the string.
pub assume_specification[ String::push ](s: &mut String, c: char)
    ensures
        final(s)@ == old(s)@.push(c),
;

/// `str::to_uppercase` gives the upper-case form of a text, by Unicode's tables. The form is a
/// function of the text alone; of a text that is all ASCII it is the text with `a` to `z`
/// replaced by `A` to `Z`.
pub assume_specification[ str::to_uppercase ](s: &str) -> (upper: String)
    ensures
        upper@ == (if is_ascii_chars(s@) {
            s@.map_values(|c: char| ascii_upper(c))
        } else {
            unicode_uppercase(s@)
        }),
;

/// The characters of a string, in order.
pub fn chars_of(s: &str) -> (chars: Vec<char>)
    ensures
        chars@ == s@,
{
    let mut chars: Vec<char> = Vec::new();
    for c in it: s.chars()
        invariant
            chars@ == it.seq().take(it.index()),
            it.seq() == s@,
    {
        chars.push(c);
    }
    chars
}

/// The string made of the given characters.
pub fn string_of(chars: &[char]) -> (s: String)
    ensures
        s@ == chars@,
{
    let mut s: String = String::new();
    for i in 0..chars.len()
        invariant
            s@ == chars@.take(i as int),
    {
        s.push(chars[i]);
    }
    assert(chars@.take(chars.len() as int) == chars@);
    s
}

/// Whether two texts are the same.
pub fn same(a: &str, b: &str) -> (equal: bool)
    ensures
        equal == (a@ == b@),
{
    let left: &[u8] = a.as_bytes();
    let right: &[u8] = b.as_bytes();
    proof {
        encode_utf8_decode_utf8(a@);
        encode_utf8_decode_utf8(b@);
    }
    if left.len() != right.len() {
        return false;
    }
    for i in 0..left.len()
        invariant
            left@.len() == right@.len(),
            left@ == encode_utf8(a@),
            right@ == encode_utf8(b@),
            forall|j: int| 0 <= j < i ==> left@[j] == right@[j],
    {
        if left[i] != right[i] {
            return false;
        }
    }
    assert(left@ == right@);
    true
}

/// Whether a text is one of a list.
pub fn listed(name: &str, strings: &Vec<String>) -> (found: bool)
    ensures
        found == views(strings@).contains(name@),
{
    for i in 0..strings.len()
        invariant
            forall|j: int| 0 <= j < i ==> views(strings@)[j] != name@,
    {
        assert(views(strings@)[i as int] == strings@[i as int]@);
        if same(strings[i].as_str(), name) {
            return true;
        }
    }
    false
}

/// Splitting loses nothing and cuts everywhere it can: the pieces joined by the separator are the
/// text again, and no piece holds the separator.
pub proof fn split_is_undone_by_joining(s: Seq<char>, sep: char)
    ensures
        split(s, sep).len() > 0,
        joined(split(s, sep), seq![sep]) == s,
        forall|i: int| 0 <= i < split(s, sep).len() ==> !(#[trigger] split(s, sep)[i]).contains(sep),
    decreases s.len(),
{
    let pieces = split(s, sep);
    if s.len() == 0 {
        assert(pieces[0] == s);
    } else {
        let before = split(s.drop_last(), sep);
        split_is_undone_by_joining(s.drop_last(), sep);
        assert(s == s.drop_last().push(s.last()));
        assert(pieces.drop_last() == if s.last() == sep { before } else { before.drop_last() });
        assert forall|i: int| 0 <= i < pieces.len() implies !(#[trigger] pieces[i]).contains(sep) by {
            if s.last() != sep && i == pieces.len() - 1 {
                let grown = before.last().push(s.last());
                assert(pieces[i] == grown);
                if grown.contains(sep) {
                    let k = choose|k: int| 0 <= k < grown.len() && grown[k] == sep;
                    assert(before.last()[k] == sep);
                    assert(before[before.len() - 1].contains(sep));
                }
            } else if i < before.len() {
                assert(pieces[i] == before[i]);
            }
        }
        if s.last() == sep {
            assert(joined(pieces, seq![sep]) == joined(before, seq![sep]) + seq![sep]
                + Seq::<char>::empty());
        } else if before.len() == 1 {
            assert(before[0] == s.drop_last());
            assert(pieces[0] == s);
        } else {
            let lead = joined(before.drop_last(), seq![sep]) + seq![sep];
            assert(s.drop_last() == lead + before.last());
            assert(joined(pieces, seq![sep]) == lead + before.last().push(s.last()));
        }
    }
}

/// A text without the separator is one piece.
pub proof fn split_of_one_piece(s: Seq<char>, sep: char)
    requires
        !s.contains(sep),
    ensures
        split(s, sep) == seq![s],
    decreases s.len(),
{
    if s.len() > 0 {
        assert(s[s.len() - 1] != sep);
        assert(!s.drop_last().contains(sep)) by {
            assert forall|i: int| 0 <= i < s.drop_last().len() implies s.drop_last()[i] != sep by {
                assert(s[i] != sep);
            }
        }
        split_of_one_piece(s.drop_last(), sep);
        assert(s == s.drop_last().push(s.last()));
    } else {
        assert(s == Seq::<char>::empty());
    }
}

/// What stands before a separator and what stands behind it are split on their own.
pub proof fn split_at_a_separator(before: Seq<char>, sep: char, after: Seq<char>)
    ensures
        split(before.push(sep) + after, sep) == split(before, sep) + split(after, sep),
    decreases after.len(),
{
    let all = before.push(sep) + after;
    if after.len() == 0 {
        assert(all == before.push(sep));
        assert(all.drop_last() == before);
        assert(split(after, sep) == seq![Seq::<char>::empty()]);
    } else {
        assert(all.drop_last() == before.push(sep) + after.drop_last());
        split_at_a_separator(before, sep, after.drop_last());
        split_is_undone_by_joining(after.drop_last(), sep);
        let lead = split(before, sep);
        let tail = split(after.drop_last(), sep);
        assert((lead + tail).last() == tail.last());
        assert((lead + tail).drop_last() == lead + tail.drop_last());
    }
}

proof fn decimal_is_not_empty(n: nat)
    ensures
        decimal(n).len() > 0,
{
}

/// Different numbers have different decimals.
pub proof fn decimal_is_injective(a: nat, b: nat)
    requires
        decimal(a) == decimal(b),
    ensures
        a == b,
    decreases a,
{
    decimal_is_not_empty(a / 10);
    decimal_is_not_empty(b / 10);
    assert(decimal(a).last() == digit(a % 10));
    assert(decimal(b).last() == digit(b % 10));
    assert(a % 10 == b % 10);
    if a >= 10 && b >= 10 {
        assert(decimal(a).drop_last() == decimal(a / 10));
        assert(decimal(b).drop_last() == decimal(b / 10));
        decimal_is_injective(a / 10, b / 10);
    }
}

/// A decimal is made of digits.
pub proof fn decimal_is_digits(n: nat)
    ensures
        decimal(n).len() > 0,
        forall|i: int| 0 <= i < decimal(n).len() ==> '0' <= #[trigger] decimal(n)[i] <= '9',
    decreases n,
{
    if n >= 10 {
        decimal_is_digits(n / 10);
    }
}

/// Copies the part of `chars` from `from` up to `to`.
pub fn part(chars: &Vec<char>, from: usize, to: usize) -> (s: String)
    requires
        from <= to <= chars@.len(),
    ensures
        s@ == chars@.subrange(from as int, to as int),
{
    let mut s: String = String::new();
    for i in from..to
        invariant
            from <= to <= chars@.len(),
            s@ == chars@.subrange(from as int, i as int),
    {
        s.push(chars[i]);
    }
    s
}

/// The pieces of a text between the occurrences of a separator.
pub fn split_at(s: &str, sep: char) -> (pieces: Vec<String>)
    ensures
        views(pieces@) == split(s@, sep),
        pieces@.len() > 0,
{
    let chars: Vec<char> = chars_of(s);
    let mut pieces: Vec<String> = Vec::new();
    let mut piece: String = String::new();
    assert(views(pieces@).push(piece@) == split(chars@.take(0), sep));
    for i in 0..chars.len()
        invariant
            views(pieces@).push(piece@) == split(chars@.take(i as int), sep),
    {
        let ghost before = views(pieces@).push(piece@);
        assert(chars@.take(i + 1).drop_last() == chars@.take(i as int));
        assert(before.drop_last() == views(pieces@));
        let ghost done = pieces@;
        let c: char = chars[i];
        if c == sep {
            pieces.push(piece);
            piece = String::new();
            assert(views(pieces@) == before);
        } else {
            piece.push(c);
        }
    }
    assert(chars@.take(chars@.len() as int) == chars@);
    let ghost before = views(pieces@).push(piece@);
    pieces.push(piece);
    assert(views(pieces@) == before);
    pieces
}

/// Whether a character is white space.
pub fn white_space(c: char) -> (white: bool)
    ensures
        white == is_white_space(c),
{
    ('\u{9}' <= c && c <= '\u{d}') || c == '\u{20}' || c == '\u{85}' || c == '\u{a0}' || c
        == '\u{1680}' || ('\u{2000}' <= c && c <= '\u{200a}') || c == '\u{2028}' || c == '\u{2029}'
        || c == '\u{202f}' || c == '\u{205f}' || c == '\u{3000}'
}

/// A text without the white space at its two ends.
pub fn trim(s: &str) -> (inner: String)
    ensures
        inner@ == trimmed(s@),
{
    let chars: Vec<char> = chars_of(s);
    let mut from: usize = 0;
    let mut to: usize = chars.len();
    assert(chars@.subrange(0, chars@.len() as int) == chars@);
    while from < to && white_space(chars[from])
        invariant
            from <= to == chars@.len(),
            trimmed(chars@) == trimmed(chars@.subrange(from as int, to as int)),
        decreases to - from,
    {
        assert(chars@.subrange(from as int, to as int).drop_first() == chars@.subrange(
            from + 1,
            to as int,
        ));
        from = from + 1;
    }
    while from < to && white_space(chars[to - 1])
        invariant
            from <= to <= chars@.len(),
            from < to ==> !is_white_space(chars@[from as int]),
            trimmed(chars@) == trimmed(chars@.subrange(from as int, to as int)),
        decreases to - from,
    {
        assert(chars@.subrange(from as int, to as int).drop_last() == chars@.subrange(
            from as int,
            to - 1,
        ));
        to = to - 1;
    }
    part(&chars, from, to)
}

/// Whether `needle` stands anywhere in `s`.
pub fn holds(s: &str, needle: &str) -> (found: bool)
    ensures
        found == occurs(needle@, s@),
{
    let text: Vec<char> = chars_of(s);
    let word: Vec<char> = chars_of(needle);
    if word.len() > text.len() {
        return false;
    }
    let last: usize = text.len() - word.len();
    let mut at: usize = 0;
    while at <= last
        invariant
            text@ == s@,
            word@ == needle@,
            last == text@.len() - word@.len(),
            at <= last + 1,
            forall|j: int| 0 <= j < at ==> !stands_at(needle@, s@, j),
        decreases last + 1 - at,
    {
        let mut matched: usize = 0;
        while matched < word.len() && text[at + matched] == word[matched]
            invariant
                at + word.len() <= text.len(),
                matched <= word@.len(),
                text@.subrange(at as int, at + matched) == word@.take(matched as int),
            decreases word@.len() - matched,
        {
            matched = matched + 1;
        }
        if matched == word.len() {
            assert(word@.take(matched as int) == word@);
            assert(stands_at(needle@, s@, at as int));
            return true;
        }
        assert(!stands_at(needle@, s@, at as int)) by {
            assert(s@.subrange(at as int, at + needle@.len())[matched as int] == text@[at
                + matched]);
        }
        if at == last {
            return false;
        }
        at = at + 1;
    }
    false
}

/// A number in decimal.
pub fn decimal_of(n: u128) -> (s: String)
    ensures
        s@ == decimal(n as nat),
    decreases n,
{
    let ones: u128 = n % 10;
    let c: char = if ones == 0 {
        '0'
    } else if ones == 1 {
        '1'
    } else if ones == 2 {
        '2'
    } else if ones == 3 {
        '3'
    } else if ones == 4 {
        '4'
    } else if ones == 5 {
        '5'
    } else if ones == 6 {
        '6'
    } else if ones == 7 {
        '7'
    } else if ones == 8 {
        '8'
    } else {
        '9'
    };
    if n < 10 {
        let mut s: String = String::new();
        s.push(c);
        s
    } else {
        let mut s: String = decimal_of(n / 10);
        s.push(c);
        s
    }
}

/// The parts of a list in order, with a separator between each two.
pub fn join(parts: &Vec<String>, sep: &str) -> (s: String)
    ensures
        s@ == joined(views(parts@), sep@),
{
    let mut s: String = String::new();
    let ghost all = views(parts@);
    for i in 0..parts.len()
        invariant
            all == views(parts@),
            s@ == joined(all.take(i as int), sep@),
    {
        let ghost next = all.take(i + 1);
        assert(next.drop_last() == all.take(i as int));
        assert(next.last() == parts@[i as int]@);
        if i > 0 {
            s.append(sep);
            s.append(parts[i].as_str());
        } else {
            s.append(parts[i].as_str());
            assert(s@ == next[0]);
        }
    }
    assert(all.take(parts@.len() as int) == all);
    s
}

/// Joining keeps every part as it is and puts the separator between each two, and nowhere else.
pub proof fn joining_puts_the_separator_between(
    a: Seq<Seq<char>>,
    b: Seq<Seq<char>>,
    part: Seq<char>,
    sep: Seq<char>,
)
    ensures
        joined(Seq::empty(), sep) == Seq::<char>::empty(),
        joined(seq![part], sep) == part,
        a.len() > 0 && b.len() > 0 ==> joined(a + b, sep) == joined(a, sep) + sep + joined(b, sep),
    decreases b.len(),
{
    assert(seq![part][0] == part);
    if a.len() > 0 && b.len() > 0 {
        let all = a + b;
        assert(all.drop_last() == a + b.drop_last());
        assert(all.last() == b.last());
        if b.len() == 1 {
            assert(a + b.drop_last() == a);
            assert(b[0] == b.last());
        } else {
            joining_puts_the_separator_between(a, b.drop_last(), part, sep);
            assert(joined(a, sep) + sep + joined(b.drop_last(), sep) + sep + b.last() == joined(
                a,
                sep,
            ) + sep + (joined(b.drop_last(), sep) + sep + b.last()));
        }
    }
}

/// Whether every character of a text is white space.
pub open spec fn is_blank(s: Seq<char>) -> bool {
    forall|i: int| 0 <= i < s.len() ==> is_white_space(#[trigger] s[i])
}

/// Trimming takes off white space at the two ends, all of it, and nothing else.
pub proof fn trimming_takes_off_white_space(s: Seq<char>) -> (ends: (Seq<char>, Seq<char>))
    ensures
        s == ends.0 + trimmed(s) + ends.1,
        is_blank(ends.0),
        is_blank(ends.1),
        trimmed(s).len() > 0 ==> !is_white_space(trimmed(s).first()) && !is_white_space(
            trimmed(s).last(),
        ),
    decreases s.len(),
{
    let none = Seq::<char>::empty();
    if s.len() == 0 {
        assert(s == none + trimmed(s) + none);
        (none, none)
    } else if is_white_space(s.first()) {
        let (a, b) = trimming_takes_off_white_space(s.drop_first());
        let before = seq![s.first()] + a;
        assert(s == seq![s.first()] + s.drop_first());
        assert(s == before + trimmed(s) + b);
        assert forall|i: int| 0 <= i < before.len() implies is_white_space(#[trigger] before[i]) by {
            if i > 0 {
                assert(before[i] == a[i - 1]);
            }
        }
        (before, b)
    } else if is_white_space(s.last()) {
        let (a, b) = trimming_takes_off_white_space(s.drop_last());
        let after = b + seq![s.last()];
        assert(s == s.drop_last() + seq![s.last()]);
        assert(s == a + trimmed(s) + after);
        assert forall|i: int| 0 <= i < after.len() implies is_white_space(#[trigger] after[i]) by {
            if i < b.len() {
                assert(after[i] == b[i]);
            }
        }
        (a, after)
    } else {
        assert(s == none + trimmed(s) + none);
        (none, none)
    }
}

/// The number that a text of decimal digits is.
pub open spec fn number_in(s: Seq<char>) -> int
    decreases s.len(),
{
    if s.len() == 0 {
        0
    } else {
        number_in(s.drop_last()) * 10 + (s.last() as int - 48)
    }
}

/// A decimal is the number that it was made of, in digits, and has no leading zero.
pub proof fn decimals_are_the_number(n: nat)
    ensures
        number_in(decimal(n)) == n,
        decimal(n).len() > 0,
        forall|i: int| 0 <= i < decimal(n).len() ==> '0' <= #[trigger] decimal(n)[i] <= '9',
        decimal(n).first() == '0' ==> n == 0 && decimal(n).len() == 1,
    decreases n,
{
    decimal_is_digits(n);
    if n < 10 {
        assert(decimal(n).drop_last() == Seq::<char>::empty());
        assert(number_in(decimal(n).drop_last()) == 0);
    } else {
        decimals_are_the_number(n / 10);
        assert(decimal(n).drop_last() == decimal(n / 10));
        assert(decimal(n).first() == decimal(n / 10).first());
    }
}

/// A text stands in another where the other is that text with something, or nothing, on either
/// side.
pub proof fn what_occurs_has_two_sides(needle: Seq<char>, s: Seq<char>)
    ensures
        occurs(needle, s) <==> exists|a: Seq<char>, b: Seq<char>| s == #[trigger] (a + needle + b),
{
    if occurs(needle, s) {
        let at = choose|at: int| stands_at(needle, s, at);
        let a = s.take(at);
        let b = s.skip(at + needle.len());
        assert(s == a + needle + b);
    }
    if exists|a: Seq<char>, b: Seq<char>| s == #[trigger] (a + needle + b) {
        let (a, b) = choose|a: Seq<char>, b: Seq<char>| s == #[trigger] (a + needle + b);
        let at = a.len() as int;
        assert(s.subrange(at, at + needle.len()) == needle);
        assert(stands_at(needle, s, at));
    }
}

/// A text of lower-case letters is the same letters in upper case: each stands as far behind `A` as
/// it stood behind `a`.
pub proof fn letters_are_raised_one_by_one(s: Seq<char>)
    requires
        forall|i: int| 0 <= i < s.len() ==> 'a' <= #[trigger] s[i] <= 'z',
    ensures
        uppercase(s).len() == s.len(),
        forall|i: int|
            0 <= i < s.len() ==> #[trigger] uppercase(s)[i] as int - 'A' as int == s[i] as int
                - 'a' as int,
{
    assert forall|i: int| 0 <= i < s.len() implies '\0' <= #[trigger] s[i] <= '\u{7f}' by {
        assert('a' <= s[i] <= 'z');
    }
    assert(is_ascii_chars(s));
    assert forall|i: int| 0 <= i < s.len() implies #[trigger] uppercase(s)[i] as int - 'A' as int
        == s[i] as int - 'a' as int by {
        assert('a' <= s[i] <= 'z');
        assert(uppercase(s)[i] == ascii_upper(s[i]));
    }
}

} // verus!
