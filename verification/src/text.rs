//! Text: lines, words and decimal numbers.

use vstd::prelude::*;
use vstd::utf8::{decode_utf8, encode_utf8, encode_utf8_decode_utf8, valid_utf8};

verus! {

/// The characters that separate words (the Unicode property White_Space).
pub open spec fn blank(c: char) -> bool {
    ||| 0x9 <= c as u32 <= 0xD
    ||| c as u32 == 0x20
    ||| c as u32 == 0x85
    ||| c as u32 == 0xA0
    ||| c as u32 == 0x1680
    ||| 0x2000 <= c as u32 <= 0x200A
    ||| c as u32 == 0x2028
    ||| c as u32 == 0x2029
    ||| c as u32 == 0x202F
    ||| c as u32 == 0x205F
    ||| c as u32 == 0x3000
}

/// Whether a character separates words.
pub fn is_blank(c: char) -> (b: bool)
    ensures
        b == blank(c),
{
    let x: u32 = c as u32;
    (0x9 <= x && x <= 0xD) || x == 0x20 || x == 0x85 || x == 0xA0 || x == 0x1680 || (0x2000 <= x
        && x <= 0x200A) || x == 0x2028 || x == 0x2029 || x == 0x202F || x == 0x205F || x == 0x3000
}

/// The pieces between the separators. There is always one piece more than there are
/// separators.
pub open spec fn pieces(text: Seq<char>, separator: char) -> Seq<Seq<char>>
    decreases text.len(),
{
    if text.len() == 0 {
        seq![Seq::empty()]
    } else {
        let earlier = pieces(text.drop_last(), separator);
        if text.last() == separator {
            earlier.push(Seq::empty())
        } else {
            earlier.drop_last().push(earlier.last().push(text.last()))
        }
    }
}

/// The words of a line: what stands between blanks.
pub open spec fn words_of(line: Seq<char>) -> Seq<Seq<char>>
    decreases line.len(),
{
    if line.len() == 0 {
        Seq::empty()
    } else {
        let rest = line.drop_last();
        let earlier = words_of(rest);
        if blank(line.last()) {
            earlier
        } else if rest.len() == 0 || blank(rest.last()) {
            earlier.push(seq![line.last()])
        } else {
            earlier.drop_last().push(earlier.last().push(line.last()))
        }
    }
}

/// All characters are decimal digits.
pub open spec fn all_digits(word: Seq<char>) -> bool {
    forall|i: int| 0 <= i < word.len() ==> '0' <= #[trigger] word[i] <= '9'
}

/// The number that decimal digits spell.
pub open spec fn digits_value(word: Seq<char>) -> nat
    decreases word.len(),
{
    if word.len() == 0 {
        0
    } else {
        10 * digits_value(word.drop_last()) + (word.last() as u32 - '0' as u32) as nat
    }
}

/// The digits of a number word: what follows a plus sign, if there is one.
pub open spec fn unsigned_part(word: Seq<char>) -> Seq<char> {
    if word.len() > 0 && word[0] == '+' {
        word.skip(1)
    } else {
        word
    }
}

/// The number that a word spells, where it spells one that fits.
pub open spec fn number_of(word: Seq<char>) -> Option<usize> {
    let digits = unsigned_part(word);
    if digits.len() > 0 && all_digits(digits) && digits_value(digits) <= usize::MAX {
        Some(digits_value(digits) as usize)
    } else {
        None
    }
}

/// More digits make no smaller number.
proof fn lemma_value_grows(word: Seq<char>, k: int)
    requires
        0 <= k <= word.len(),
        all_digits(word),
    ensures
        digits_value(word.take(k)) <= digits_value(word),
    decreases word.len() - k,
{
    if k < word.len() {
        lemma_value_grows(word, k + 1);
        assert(word.take(k + 1).drop_last() =~= word.take(k));
    } else {
        assert(word.take(k) =~= word);
    }
}

/// Reads a decimal number.
pub fn parse_number(word: &[char]) -> (number: Option<usize>)
    ensures
        number == number_of(word@),
{
    let ghost digits = unsigned_part(word@);
    let from: usize = if word.len() > 0 && word[0] == '+' {
        1
    } else {
        0
    };
    assert(digits =~= word@.skip(from as int));
    if from == word.len() {
        return None;
    }
    let mut value: usize = 0;
    let mut i: usize = from;
    assert(digits.take(0) =~= Seq::<char>::empty());
    while i < word.len()
        invariant
            from <= i <= word.len(),
            digits == word@.skip(from as int),
            forall|k: int| 0 <= k < i - from ==> '0' <= #[trigger] digits[k] <= '9',
            value == digits_value(digits.take(i - from)),
            digits == unsigned_part(word@),
        decreases word.len() - i,
    {
        let c: char = word[i];
        let ghost k = i - from;
        proof {
            assert(digits[k] == c);
            assert(digits.take(k + 1).drop_last() =~= digits.take(k));
            assert(digits.take(k + 1).last() == c);
        }
        if c < '0' || c > '9' {
            return None;
        }
        let digit: usize = (c as u32 - '0' as u32) as usize;
        if value > (usize::MAX - digit) / 10 {
            proof {
                if all_digits(digits) {
                    lemma_value_grows(digits, k + 1);
                }
            }
            return None;
        }
        value = value * 10 + digit;
        i = i + 1;
    }
    assert(digits.take(digits.len() as int) =~= digits);
    Some(value)
}

/// The characters of lists, list by list.
pub open spec fn spelled(words: Seq<Vec<char>>) -> Seq<Seq<char>> {
    Seq::new(words.len(), |i: int| words[i]@)
}

/// Splits a line into words.
pub fn split_words(line: &[char]) -> (words: Vec<Vec<char>>)
    ensures
        spelled(words@) == words_of(line@),
{
    let mut words: Vec<Vec<char>> = Vec::new();
    let mut i: usize = 0;
    let mut in_word: bool = false;
    proof {
        assert(line@.take(0) =~= Seq::<char>::empty());
        assert(spelled(words@) =~= words_of(line@.take(0)));
    }
    while i < line.len()
        invariant
            i <= line.len(),
            spelled(words@) == words_of(line@.take(i as int)),
            in_word == (i > 0 && !blank(line@[i - 1])),
            in_word ==> words@.len() > 0,
        decreases line.len() - i,
    {
        let c: char = line[i];
        let ghost before = spelled(words@);
        proof {
            assert(line@.take(i + 1).drop_last() =~= line@.take(i as int));
            assert(line@.take(i + 1).last() == c);
        }
        if is_blank(c) {
            in_word = false;
        } else if !in_word {
            let mut word: Vec<char> = Vec::new();
            word.push(c);
            assert(word@ =~= seq![c]);
            words.push(word);
            assert(spelled(words@) =~= before.push(seq![c]));
            in_word = true;
        } else {
            let last: usize = words.len() - 1;
            words[last].push(c);
            assert(spelled(words@) =~= before.drop_last().push(before.last().push(c)));
        }
        i = i + 1;
    }
    assert(line@.take(line@.len() as int) =~= line@);
    words
}

/// Splits text at a separator.
pub fn split_at_each(text: &[char], separator: char) -> (parts: Vec<Vec<char>>)
    ensures
        spelled(parts@) == pieces(text@, separator),
{
    let mut parts: Vec<Vec<char>> = Vec::new();
    parts.push(Vec::new());
    let mut i: usize = 0;
    proof {
        assert(text@.take(0) =~= Seq::<char>::empty());
        assert(spelled(parts@)[0] =~= Seq::<char>::empty());
        assert(spelled(parts@) =~= pieces(text@.take(0), separator));
    }
    while i < text.len()
        invariant
            i <= text.len(),
            parts@.len() > 0,
            spelled(parts@) == pieces(text@.take(i as int), separator),
        decreases text.len() - i,
    {
        let c: char = text[i];
        let ghost before = spelled(parts@);
        proof {
            assert(text@.take(i + 1).drop_last() =~= text@.take(i as int));
            assert(text@.take(i + 1).last() == c);
        }
        if c == separator {
            let none: Vec<char> = Vec::new();
            assert(none@ =~= Seq::<char>::empty());
            parts.push(none);
            assert(spelled(parts@) =~= before.push(Seq::empty()));
        } else {
            let last: usize = parts.len() - 1;
            parts[last].push(c);
            assert(spelled(parts@) =~= before.drop_last().push(before.last().push(c)));
        }
        i = i + 1;
    }
    assert(text@.take(text@.len() as int) =~= text@);
    parts
}

/// The characters of a string.
pub fn chars_of(text: &str) -> (chars: Vec<char>)
    ensures
        chars@ == text@,
{
    let mut chars: Vec<char> = Vec::new();
    for c in it: text.chars()
        invariant
            chars@ == text@.take(it.index() as int),
            it.seq() == text@,
    {
        chars.push(c);
        assert(text@.take(it.index() + 1) =~= text@.take(it.index() as int).push(c));
    }
    assert(text@.take(text@.len() as int) =~= text@);
    chars
}

/// `std::str::from_utf8`: the string whose bytes these are, where they are valid UTF-8, and
/// nothing otherwise.
#[verifier::external_body]
fn from_utf8(bytes: &[u8]) -> (text: Option<&str>)
    ensures
        text is Some <==> valid_utf8(bytes@),
        text is Some ==> encode_utf8(text->0@) == bytes@,
{
    std::str::from_utf8(bytes).ok()
}

/// The characters that bytes spell in UTF-8, if they spell any.
pub fn decode(bytes: &[u8]) -> (chars: Option<Vec<char>>)
    ensures
        chars is Some <==> valid_utf8(bytes@),
        chars is Some ==> chars->0@ == decode_utf8(bytes@),
{
    match from_utf8(bytes) {
        Some(text) => {
            proof {
                encode_utf8_decode_utf8(text@);
            }
            Some(chars_of(text))
        },
        None => None,
    }
}

/// The character of a decimal digit.
pub open spec fn digit_char(d: nat) -> char {
    (d + '0' as u32) as char
}

/// The decimal digits of a number, without leading zeros.
pub open spec fn decimal_of(n: nat) -> Seq<char>
    decreases n,
{
    if n < 10 {
        seq![digit_char(n)]
    } else {
        decimal_of(n / 10).push(digit_char(n % 10))
    }
}

/// A number that is written down in decimal digits is read back.
pub proof fn decimal_round_trip(n: nat)
    ensures
        decimal_of(n).len() > 0,
        all_digits(decimal_of(n)),
        digits_value(decimal_of(n)) == n,
        n <= usize::MAX ==> number_of(decimal_of(n)) == Some(n as usize),
    decreases n,
{
    let word = decimal_of(n);
    if n < 10 {
        assert(word.drop_last() =~= Seq::<char>::empty());
        assert(digits_value(word.drop_last()) == 0);
    } else {
        decimal_round_trip(n / 10);
        let rest = decimal_of(n / 10);
        assert(word.drop_last() =~= rest);
        assert forall|i: int| 0 <= i < word.len() implies '0' <= #[trigger] word[i] <= '9' by {
            if i < rest.len() {
                assert(word[i] == rest[i]);
            }
        }
    }
    assert('0' <= word[0] <= '9');
}

/// `String::push`: one character more at the end.
#[verifier::external_body]
fn push_char(text: &mut String, c: char)
    ensures
        final(text)@ == old(text)@.push(c),
{
    text.push(c);
}

/// The character of a decimal digit.
fn digit(d: u32) -> (c: char)
    requires
        d < 10,
    ensures
        c == digit_char(d as nat),
{
    match d {
        0 => '0',
        1 => '1',
        2 => '2',
        3 => '3',
        4 => '4',
        5 => '5',
        6 => '6',
        7 => '7',
        8 => '8',
        _ => '9',
    }
}

/// Appends a number in decimal digits.
pub fn push_decimal(text: &mut String, n: u128)
    ensures
        final(text)@ == old(text)@ + decimal_of(n as nat),
    decreases n,
{
    let ghost before = text@;
    if n < 10 {
        push_char(text, digit(n as u32));
        assert(text@ =~= before + decimal_of(n as nat));
    } else {
        push_decimal(text, n / 10);
        push_char(text, digit((n % 10) as u32));
        assert(text@ =~= before + decimal_of(n as nat));
    }
}

/// The characters that separate words, one by one: tab, line feed, vertical tab, form feed,
/// carriage return, space, and those of other scripts.
pub proof fn blanks_are(c: char)
    ensures
        blank(c) <==> {
            ||| c == '\t' || c == '\n' || c == '\u{b}' || c == '\u{c}' || c == '\r' || c == ' '
            ||| c == '\u{85}' || c == '\u{a0}' || c == '\u{1680}'
            ||| c == '\u{2000}' || c == '\u{2001}' || c == '\u{2002}' || c == '\u{2003}'
            ||| c == '\u{2004}' || c == '\u{2005}' || c == '\u{2006}' || c == '\u{2007}'
            ||| c == '\u{2008}' || c == '\u{2009}' || c == '\u{200a}'
            ||| c == '\u{2028}' || c == '\u{2029}' || c == '\u{202f}' || c == '\u{205f}'
            ||| c == '\u{3000}'
        },
{
}

/// All characters separate words.
pub open spec fn all_blank(text: Seq<char>) -> bool {
    forall|i: int| 0 <= i < text.len() ==> blank(#[trigger] text[i])
}

/// No character separates words, and there is one.
pub open spec fn is_word(text: Seq<char>) -> bool {
    &&& text.len() > 0
    &&& forall|i: int| 0 <= i < text.len() ==> !blank(#[trigger] text[i])
}

/// Parts with a separator between any two of them.
pub open spec fn rejoined(parts: Seq<Seq<char>>, separator: char) -> Seq<char>
    decreases parts.len(),
{
    if parts.len() == 0 {
        Seq::empty()
    } else if parts.len() == 1 {
        parts[0]
    } else {
        rejoined(parts.drop_last(), separator).push(separator) + parts.last()
    }
}

/// More text without a separator makes the last piece longer.
proof fn lemma_pieces_longer(text: Seq<char>, more: Seq<char>, separator: char)
    requires
        !more.contains(separator),
    ensures
        pieces(text, separator).len() > 0,
        pieces(text + more, separator) == pieces(text, separator).drop_last().push(
            pieces(text, separator).last() + more,
        ),
    decreases text.len() + more.len(),
{
    lemma_pieces_some(text, separator);
    let before = pieces(text, separator);
    if more.len() == 0 {
        assert(text + more =~= text);
        assert(before.last() + more =~= before.last());
        assert(before =~= before.drop_last().push(before.last()));
    } else {
        let rest = more.drop_last();
        assert(!rest.contains(separator)) by {
            if rest.contains(separator) {
                let i = choose|i: int| 0 <= i < rest.len() && rest[i] == separator;
                assert(more[i] == separator);
            }
        }
        lemma_pieces_longer(text, rest, separator);
        assert((text + more).drop_last() =~= text + rest);
        assert(more[more.len() - 1] == more.last());
        assert(more.contains(more.last()));
        let mid = pieces(text + rest, separator);
        assert(mid.drop_last() =~= before.drop_last());
        assert((before.last() + rest).push(more.last()) =~= before.last() + more);
    }
}

/// There is always a piece.
proof fn lemma_pieces_some(text: Seq<char>, separator: char)
    ensures
        pieces(text, separator).len() > 0,
    decreases text.len(),
{
    if text.len() > 0 {
        lemma_pieces_some(text.drop_last(), separator);
    }
}

/// Text that is cut at a separator: the pieces of what stands before it, and then those of what
/// stands behind it.
pub proof fn pieces_of_two(a: Seq<char>, b: Seq<char>, separator: char)
    ensures
        pieces(a.push(separator) + b, separator) == pieces(a, separator) + pieces(b, separator),
    decreases b.len(),
{
    let head = a.push(separator);
    lemma_pieces_some(a, separator);
    if b.len() == 0 {
        assert(head + b =~= head);
        assert(head.drop_last() =~= a);
        assert(pieces(head, separator) =~= pieces(a, separator) + pieces(b, separator));
    } else {
        let rest = b.drop_last();
        pieces_of_two(a, rest, separator);
        lemma_pieces_some(rest, separator);
        assert((head + b).drop_last() =~= head + rest);
        assert((head + b).last() == b.last());
        let left = pieces(a, separator);
        let right = pieces(rest, separator);
        if b.last() == separator {
            assert((left + right).push(Seq::empty()) =~= left + right.push(Seq::empty()));
        } else {
            assert((left + right).last() == right.last());
            assert((left + right).drop_last().push(right.last().push(b.last())) =~= left
                + right.drop_last().push(right.last().push(b.last())));
        }
    }
}

/// Text without a separator is one piece.
pub proof fn one_piece(text: Seq<char>, separator: char)
    requires
        !text.contains(separator),
    ensures
        pieces(text, separator) == seq![text],
{
    lemma_pieces_longer(Seq::empty(), text, separator);
    assert(Seq::<char>::empty() + text =~= text);
    assert(pieces(text, separator) =~= seq![text]);
}

/// Parts without a separator in them, put together with one between any two, are cut into the
/// same parts again.
pub proof fn parts_are_found(parts: Seq<Seq<char>>, separator: char)
    requires
        parts.len() > 0,
        forall|i: int| 0 <= i < parts.len() ==> !(#[trigger] parts[i]).contains(separator),
    ensures
        pieces(rejoined(parts, separator), separator) == parts,
    decreases parts.len(),
{
    let last = parts.last();
    assert(!parts[parts.len() - 1].contains(separator));
    one_piece(last, separator);
    if parts.len() == 1 {
        assert(parts =~= seq![last]);
    } else {
        let rest = parts.drop_last();
        assert forall|i: int| 0 <= i < rest.len() implies !(#[trigger] rest[i]).contains(
            separator,
        ) by {
            assert(!parts[i].contains(separator));
        }
        parts_are_found(rest, separator);
        pieces_of_two(rejoined(rest, separator), last, separator);
        assert(parts =~= rest + seq![last]);
    }
}

/// Words of text whose two parts meet at a blank: those of the one, and then those of the other.
pub proof fn words_of_two(a: Seq<char>, b: Seq<char>)
    requires
        a.len() == 0 || b.len() == 0 || blank(a.last()) || blank(b[0]),
    ensures
        words_of(a + b) == words_of(a) + words_of(b),
    decreases b.len(),
{
    if b.len() == 0 {
        assert(a + b =~= a);
        assert(words_of(a) + words_of(b) =~= words_of(a));
    } else if a.len() == 0 {
        assert(a + b =~= b);
        assert(words_of(a) + words_of(b) =~= words_of(b));
    } else {
        let rest = b.drop_last();
        let c = b.last();
        if rest.len() > 0 {
            assert(rest[0] == b[0]);
        }
        words_of_two(a, rest);
        assert((a + b).drop_last() =~= a + rest);
        assert((a + b).last() == c);
        let left = words_of(a);
        let right = words_of(rest);
        if blank(c) {
        } else if rest.len() == 0 {
            assert((a + rest) =~= a);
            assert(b[0] == c);
            assert(blank(a.last()));
            assert(left.push(seq![c]) =~= left + right.push(seq![c]));
        } else {
            assert((a + rest).last() == rest.last());
            if blank(rest.last()) {
                assert((left + right).push(seq![c]) =~= left + right.push(seq![c]));
            } else {
                lemma_open_word(rest);
                assert((left + right).last() == right.last());
                assert((left + right).drop_last().push(right.last().push(c)) =~= left
                    + right.drop_last().push(right.last().push(c)));
            }
        }
    }
}

/// Text that does not end in a blank has a word.
proof fn lemma_open_word(text: Seq<char>)
    requires
        text.len() > 0,
        !blank(text.last()),
    ensures
        words_of(text).len() > 0,
    decreases text.len(),
{
    let rest = text.drop_last();
    if rest.len() > 0 && !blank(rest.last()) {
        lemma_open_word(rest);
    }
}

/// Blanks have no words.
pub proof fn blanks_have_no_words(text: Seq<char>)
    requires
        all_blank(text),
    ensures
        words_of(text).len() == 0,
    decreases text.len(),
{
    if text.len() > 0 {
        let rest = text.drop_last();
        assert forall|i: int| 0 <= i < rest.len() implies blank(#[trigger] rest[i]) by {
            assert(blank(text[i]));
        }
        assert(blank(text[text.len() - 1]));
        blanks_have_no_words(rest);
    }
}

/// A word is one word.
pub proof fn one_word(text: Seq<char>)
    requires
        is_word(text),
    ensures
        words_of(text) == seq![text],
    decreases text.len(),
{
    let rest = text.drop_last();
    assert(!blank(text[text.len() - 1]));
    if rest.len() == 0 {
        assert(text =~= seq![text.last()]);
        assert(words_of(rest) =~= Seq::<Seq<char>>::empty());
        assert(words_of(text) =~= seq![text]);
    } else {
        assert forall|i: int| 0 <= i < rest.len() implies !blank(#[trigger] rest[i]) by {
            assert(!blank(text[i]));
        }
        one_word(rest);
        assert(!blank(rest[rest.len() - 1]));
        assert(rest.push(text.last()) =~= text);
        assert(words_of(text) =~= seq![text]);
    }
}

/// The words of text that begins with a word, behind blanks or not: that word, and then the
/// words of what follows it.
pub proof fn first_word_of(lead: Seq<char>, word: Seq<char>, tail: Seq<char>)
    requires
        all_blank(lead),
        is_word(word),
        tail.len() == 0 || blank(tail[0]),
    ensures
        words_of(lead + word + tail) == seq![word] + words_of(tail),
{
    blanks_have_no_words(lead);
    one_word(word);
    if lead.len() > 0 {
        assert(blank(lead[lead.len() - 1]));
    }
    words_of_two(lead, word);
    words_of_two(lead + word, tail);
    assert(words_of(lead) + seq![word] =~= seq![word]);
}

/// So many zeros.
pub open spec fn zeros(n: nat) -> Seq<char> {
    Seq::new(n, |i: int| '0')
}

/// The characters of the digits.
pub proof fn digit_chars_are()
    ensures
        digit_char(0) == '0' && digit_char(1) == '1' && digit_char(2) == '2' && digit_char(3)
            == '3' && digit_char(4) == '4' && digit_char(5) == '5' && digit_char(6) == '6'
            && digit_char(7) == '7' && digit_char(8) == '8' && digit_char(9) == '9',
{
}

/// Ten times a number and one digit more is written with that digit at the end.
pub proof fn decimal_of_more(q: nat, d: nat)
    requires
        d < 10,
    ensures
        q > 0 ==> decimal_of(10 * q + d) == decimal_of(q).push(digit_char(d)),
        decimal_of(d) == seq![digit_char(d)],
{
}

/// Only zero is written with a zero in front.
pub proof fn decimal_has_no_leading_zero(n: nat)
    ensures
        n > 0 ==> decimal_of(n)[0] != '0',
    decreases n,
{
    decimal_round_trip(n);
    if n >= 10 {
        decimal_has_no_leading_zero(n / 10);
        decimal_round_trip(n / 10);
        assert(decimal_of(n)[0] == decimal_of(n / 10)[0]);
    }
}

/// Digits are zeros and then the number that they spell.
proof fn lemma_digits_spell(word: Seq<char>) -> (z: nat)
    requires
        word.len() > 0,
        all_digits(word),
    ensures
        word == zeros(z) + decimal_of(digits_value(word)),
    decreases word.len(),
{
    let rest = word.drop_last();
    let c = word.last();
    assert('0' <= word[word.len() - 1] <= '9');
    let d = (c as u32 - '0' as u32) as nat;
    assert(digit_char(d) == c);
    assert(word =~= rest.push(c));
    if rest.len() == 0 {
        assert(digits_value(rest) == 0);
        assert(word =~= zeros(0) + decimal_of(d));
        0
    } else {
        assert forall|i: int| 0 <= i < rest.len() implies '0' <= #[trigger] rest[i] <= '9' by {
            assert('0' <= word[i] <= '9');
        }
        let z = lemma_digits_spell(rest);
        let r = digits_value(rest);
        if r > 0 {
            assert(word =~= zeros(z) + decimal_of(r).push(c));
            z
        } else {
            assert(decimal_of(0) =~= seq!['0']);
            assert(word =~= zeros(z + 1) + decimal_of(d));
            z + 1
        }
    }
}

/// Zeros in front count for nothing.
proof fn lemma_zeros_count_nothing(z: nat, n: nat)
    ensures
        all_digits(zeros(z) + decimal_of(n)),
        digits_value(zeros(z) + decimal_of(n)) == n,
    decreases n,
{
    decimal_round_trip(n);
    let word = zeros(z) + decimal_of(n);
    assert forall|i: int| 0 <= i < word.len() implies '0' <= #[trigger] word[i] <= '9' by {
        if i >= z {
            assert(word[i] == decimal_of(n)[i - z]);
        }
    }
    if n < 10 {
        lemma_zeros_are_nothing(z);
        assert(word.drop_last() =~= zeros(z));
        assert(word.last() == digit_char(n));
    } else {
        lemma_zeros_count_nothing(z, n / 10);
        assert(word.drop_last() =~= zeros(z) + decimal_of(n / 10));
        assert(word.last() == digit_char(n % 10));
    }
}

/// Zeros alone spell zero.
proof fn lemma_zeros_are_nothing(z: nat)
    ensures
        digits_value(zeros(z)) == 0,
    decreases z,
{
    if z > 0 {
        lemma_zeros_are_nothing((z - 1) as nat);
        assert(zeros(z).drop_last() =~= zeros((z - 1) as nat));
    }
}

/// A word spells a number exactly where it is that number in decimal digits, with any zeros in
/// front, and a plus sign before them or not.
pub proof fn number_words_are(word: Seq<char>, n: usize)
    ensures
        number_of(word) == Some(n) <==> exists|z: nat|
            word == #[trigger] zeros(z) + decimal_of(n as nat) || word == seq!['+'] + (zeros(z)
                + decimal_of(n as nat)),
{
    let digits = unsigned_part(word);
    if number_of(word) == Some(n) {
        let z = lemma_digits_spell(digits);
        assert(digits == zeros(z) + decimal_of(n as nat));
        if word[0] == '+' {
            assert(word =~= seq!['+'] + (zeros(z) + decimal_of(n as nat)));
        }
    }
    if exists|z: nat|
        word == #[trigger] zeros(z) + decimal_of(n as nat) || word == seq!['+'] + (zeros(z)
            + decimal_of(n as nat)) {
        let z = choose|z: nat|
            word == #[trigger] zeros(z) + decimal_of(n as nat) || word == seq!['+'] + (zeros(z)
                + decimal_of(n as nat));
        lemma_zeros_count_nothing(z, n as nat);
        decimal_round_trip(n as nat);
        let plain = zeros(z) + decimal_of(n as nat);
        assert('0' <= plain[0] <= '9');
        if word == plain {
            assert(digits == plain);
        } else {
            assert(word[0] == '+');
            assert(digits =~= plain);
        }
    }
}

/// A number in decimal digits is a word.
pub proof fn decimal_is_word(n: nat)
    ensures
        is_word(decimal_of(n)),
        decimal_of(n)[0] != '#' && decimal_of(n)[0] != '%',
{
    decimal_round_trip(n);
    assert forall|i: int| 0 <= i < decimal_of(n).len() implies !blank(
        #[trigger] decimal_of(n)[i],
    ) by {
        assert('0' <= decimal_of(n)[i] <= '9');
    }
    assert('0' <= decimal_of(n)[0] <= '9');
}

} // verus!
