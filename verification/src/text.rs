//! Text building blocks: ASCII case, decimal numbers, words, joining, padding.

use vstd::prelude::*;
use vstd::string::*;

verus! {

/// `String::push` appends one character.
pub assume_specification[ String::push ](s: &mut String, c: char)
    ensures
        final(s)@ == old(s)@.push(c),
;

/// The characters with the Unicode property `White_Space`.
pub open spec fn white(c: char) -> bool {
    ||| '\u{9}' <= c <= '\u{d}'
    ||| c == ' '
    ||| c == '\u{85}'
    ||| c == '\u{a0}'
    ||| c == '\u{1680}'
    ||| '\u{2000}' <= c <= '\u{200a}'
    ||| c == '\u{2028}'
    ||| c == '\u{2029}'
    ||| c == '\u{202f}'
    ||| c == '\u{205f}'
    ||| c == '\u{3000}'
}

/// `char::is_whitespace` reports the Unicode property `White_Space`, which the
/// character database gives to the characters of `white`.
pub assume_specification[ char::is_whitespace ](c: char) -> (r: bool)
    ensures
        r == white(c),
;

/// The texts of a list of strings.
pub open spec fn texts(list: Seq<String>) -> Seq<Seq<char>> {
    list.map_values(|s: String| s@)
}

/// The characters of a text.
pub fn chars_of(s: &str) -> (r: Vec<char>)
    ensures
        r@ == s@,
{
    let mut r: Vec<char> = Vec::new();
    for c in it: s.chars()
        invariant
            it.seq() == s@,
            r@ == s@.take(it.index() as int),
    {
        r.push(c);
    }
    r
}

pub open spec fn digit(d: nat) -> char {
    ('0' as u8 + d) as char
}

/// A number in decimal, without leading zeros.
pub open spec fn decimal(n: nat) -> Seq<char>
    decreases n,
{
    if n < 10 {
        seq![digit(n)]
    } else {
        decimal(n / 10).push(digit(n % 10))
    }
}

pub fn decimal_text(n: u32) -> (r: String)
    ensures
        r@ == decimal(n as nat),
    decreases n,
{
    let mut r = if n < 10 {
        String::new()
    } else {
        decimal_text(n / 10)
    };
    r.push((48u8 + (n % 10) as u8) as char);
    r
}

/// The value of a digit character, if it is one.
pub open spec fn digit_value(c: char) -> Option<nat> {
    if '0' <= c <= '9' {
        Some((c as u32 - '0' as u32) as nat)
    } else {
        None
    }
}

pub open spec fn all_digits(s: Seq<char>) -> bool {
    forall|i: int| 0 <= i < s.len() ==> digit_value(#[trigger] s[i]) is Some
}

/// The number that a run of digits spells.
pub open spec fn digits_value(s: Seq<char>) -> nat
    decreases s.len(),
{
    if s.len() == 0 {
        0
    } else {
        digits_value(s.drop_last()) * 10 + digit_value(s.last()).unwrap_or(0)
    }
}

/// A text without one leading plus sign.
pub open spec fn unsigned_part(s: Seq<char>) -> Seq<char> {
    if s.len() > 0 && s[0] == '+' {
        s.drop_first()
    } else {
        s
    }
}

/// The unsigned 32-bit number that a text spells: an optional plus sign and at
/// least one digit, nothing else, and no more than the type can hold.
pub open spec fn number_in(s: Seq<char>) -> Option<u32> {
    let body = unsigned_part(s);
    if body.len() > 0 && all_digits(body) && digits_value(body) <= u32::MAX {
        Some(digits_value(body) as u32)
    } else {
        None
    }
}

proof fn lemma_prefix_value(s: Seq<char>, n: int)
    requires
        0 <= n <= s.len(),
    ensures
        digits_value(s.take(n)) <= digits_value(s),
    decreases s.len() - n,
{
    if n < s.len() {
        assert(s.take(n + 1).drop_last() =~= s.take(n));
        lemma_prefix_value(s, n + 1);
    } else {
        assert(s.take(n) =~= s);
    }
}

/// Parse an unsigned decimal number.
pub fn parse_u32(text: &str) -> (r: Option<u32>)
    ensures
        r == number_in(text@),
{
    let chars = chars_of(text);
    let start: usize = if chars.len() > 0 && chars[0] == '+' {
        1
    } else {
        0
    };
    let ghost body = unsigned_part(text@);
    assert(body =~= chars@.skip(start as int));
    if start == chars.len() {
        return None;
    }
    let mut i: usize = start;
    let mut value: u64 = 0;
    while i < chars.len()
        invariant
            start <= i <= chars@.len(),
            start <= 1,
            body == chars@.skip(start as int),
            body == unsigned_part(text@),
            all_digits(body.take(i - start)),
            value == digits_value(body.take(i - start)),
            value <= u32::MAX,
        decreases chars@.len() - i,
    {
        let c = chars[i];
        assert(c == body[i - start]);
        if !('0' <= c && c <= '9') {
            assert(digit_value(body[i - start]) is None);
            return None;
        }
        assert(body.take(i + 1 - start).drop_last() =~= body.take(i - start));
        value = value * 10 + (c as u64 - '0' as u64);
        proof {
            assert forall|j: int| 0 <= j < i + 1 - start implies digit_value(
                #[trigger] body.take(i + 1 - start)[j],
            ) is Some by {
                if j < i - start {
                    assert(body.take(i + 1 - start)[j] == body.take(i - start)[j]);
                }
            }
        }
        if value > 0xffff_ffff {
            proof {
                lemma_prefix_value(body, i + 1 - start);
            }
            return None;
        }
        i += 1;
    }
    assert(body.take(i - start) =~= body);
    Some(value as u32)
}

/// ASCII lower case of a character; others stay.
pub open spec fn lower_char(c: char) -> char {
    if 'A' <= c <= 'Z' {
        (c as u8 + 32) as char
    } else {
        c
    }
}

/// A text with its ASCII letters in lower case.
pub open spec fn lower(s: Seq<char>) -> Seq<char> {
    s.map_values(|c: char| lower_char(c))
}

fn lower_of(c: char) -> (r: char)
    ensures
        r == lower_char(c),
{
    if 'A' <= c && c <= 'Z' {
        (c as u8 + 32) as char
    } else {
        c
    }
}

/// Whether a text is `word` when the case of ASCII letters is ignored in it;
/// `word` itself is taken as it stands.
pub fn is_word(text: &str, word: &str) -> (r: bool)
    ensures
        r == (lower(text@) == word@),
{
    let a = chars_of(text);
    let b = chars_of(word);
    if a.len() != b.len() {
        return false;
    }
    let mut i: usize = 0;
    while i < a.len()
        invariant
            i <= a@.len(),
            a@ == text@,
            b@ == word@,
            a@.len() == b@.len(),
            forall|j: int| 0 <= j < i ==> lower_char(a@[j]) == #[trigger] b@[j],
        decreases a@.len() - i,
    {
        if lower_of(a[i]) != b[i] {
            assert(lower(text@)[i as int] != word@[i as int]);
            return false;
        }
        i += 1;
    }
    assert(lower(text@) =~= word@);
    true
}

/// Whether two texts are the same.
pub fn same_text(a: &str, b: &str) -> (r: bool)
    ensures
        r == (a@ == b@),
{
    let x = chars_of(a);
    let y = chars_of(b);
    if x.len() != y.len() {
        return false;
    }
    let mut i: usize = 0;
    while i < x.len()
        invariant
            i <= x@.len(),
            x@ == a@,
            y@ == b@,
            x@.len() == y@.len(),
            forall|j: int| 0 <= j < i ==> x@[j] == #[trigger] y@[j],
        decreases x@.len() - i,
    {
        if x[i] != y[i] {
            return false;
        }
        i += 1;
    }
    assert(a@ =~= b@);
    true
}

/// A list of texts with `sep` between neighbours.
pub open spec fn joined(list: Seq<Seq<char>>, sep: Seq<char>) -> Seq<char>
    decreases list.len(),
{
    if list.len() == 0 {
        Seq::empty()
    } else if list.len() == 1 {
        list[0]
    } else {
        joined(list.drop_last(), sep) + sep + list.last()
    }
}

/// Join a list of strings.
pub fn join(list: &Vec<String>, sep: &str) -> (r: String)
    ensures
        r@ == joined(texts(list@), sep@),
{
    let mut r = String::new();
    let mut i: usize = 0;
    while i < list.len()
        invariant
            i <= list@.len(),
            r@ == joined(texts(list@).take(i as int), sep@),
        decreases list@.len() - i,
    {
        if i > 0 {
            r.append(sep);
        }
        r.append(list[i].as_str());
        assert(texts(list@).take(i + 1).drop_last() =~= texts(list@).take(i as int));
        assert(texts(list@).take(i + 1).last() == list@[i as int]@);
        i += 1;
        assert(i == 1 ==> r@ =~= list@[0]@);
    }
    assert(texts(list@).take(i as int) =~= texts(list@));
    r
}

/// The words of a text: its longest runs without white space, in order.
pub open spec fn words(s: Seq<char>) -> Seq<Seq<char>>
    decreases s.len(),
{
    if s.len() == 0 {
        Seq::empty()
    } else {
        let before = words(s.drop_last());
        let c = s.last();
        if white(c) {
            before
        } else if s.len() >= 2 && !white(s[s.len() - 2]) {
            before.drop_last().push(before.last().push(c))
        } else {
            before.push(seq![c])
        }
    }
}

proof fn lemma_words_start(s: Seq<char>)
    requires
        s.len() > 0,
        !white(s.last()),
    ensures
        words(s).len() > 0,
{
}

/// The words of a text without white space: the text itself, unless it is empty.
pub proof fn lemma_words_whole(s: Seq<char>)
    requires
        forall|i: int| 0 <= i < s.len() ==> !white(#[trigger] s[i]),
    ensures
        s.len() == 0 ==> words(s) == Seq::<Seq<char>>::empty(),
        s.len() > 0 ==> words(s) == seq![s],
    decreases s.len(),
{
    if s.len() > 0 {
        let rest = s.drop_last();
        assert forall|i: int| 0 <= i < rest.len() implies !white(#[trigger] rest[i]) by {
            assert(rest[i] == s[i]);
        }
        lemma_words_whole(rest);
        assert(!white(s[s.len() - 1]));
        if s.len() >= 2 {
            assert(!white(s[s.len() - 2]));
            assert(words(rest) == seq![rest]);
            assert(rest.push(s.last()) =~= s);
            assert(words(s) =~= seq![s]);
        } else {
            assert(rest =~= Seq::empty());
            assert(seq![s.last()] =~= s);
            assert(words(s) =~= seq![s]);
        }
    }
}

/// White space parts words: those of a text around a white character are those of
/// the text before it, then those of the text behind it.
pub proof fn lemma_words_parted(a: Seq<char>, c: char, b: Seq<char>)
    requires
        white(c),
    ensures
        words(a.push(c) + b) == words(a) + words(b),
    decreases b.len(),
{
    let s = a.push(c) + b;
    if b.len() == 0 {
        assert(s =~= a.push(c));
        assert(s.drop_last() =~= a);
        assert(words(a) + words(b) =~= words(a));
    } else {
        let rest = b.drop_last();
        lemma_words_parted(a, c, rest);
        assert(s.drop_last() =~= a.push(c) + rest);
        assert(s.last() == b.last());
        if !white(b.last()) {
            if b.len() >= 2 {
                assert(s[s.len() - 2] == b[b.len() - 2]);
                if !white(b[b.len() - 2]) {
                    assert(rest.last() == b[b.len() - 2]);
                    lemma_words_start(rest);
                    let before = words(a) + words(rest);
                    assert(before.last() == words(rest).last());
                    assert(before.drop_last() =~= words(a) + words(rest).drop_last());
                }
            } else {
                assert(s[s.len() - 2] == c);
            }
        }
        assert(words(s) =~= words(a) + words(b));
    }
}

/// Joining parts neighbours by the separator, and puts nothing around them.
pub proof fn lemma_joined_push(list: Seq<Seq<char>>, sep: Seq<char>, w: Seq<char>)
    ensures
        joined(list.push(w), sep) == if list.len() == 0 {
            w
        } else {
            joined(list, sep) + sep + w
        },
{
    assert(list.push(w).drop_last() =~= list);
}

proof fn lemma_joined_extend(list: Seq<Seq<char>>, sep: Seq<char>, c: char)
    requires
        list.len() > 0,
    ensures
        joined(list.drop_last().push(list.last().push(c)), sep) == joined(list, sep).push(c),
{
    lemma_joined_push(list.drop_last(), sep, list.last().push(c));
    lemma_joined_push(list.drop_last(), sep, list.last());
    assert(list.drop_last().push(list.last()) =~= list);
    assert(joined(list.drop_last(), sep) + sep + list.last().push(c) =~= (joined(
        list.drop_last(),
        sep,
    ) + sep + list.last()).push(c));
}

/// A text with its words parted by single spaces and nothing around them.
pub fn squeeze(text: &str) -> (r: String)
    ensures
        r@ == joined(words(text@), seq![' ']),
{
    let chars = chars_of(text);
    let mut r = String::new();
    let mut i: usize = 0;
    let mut in_word = false;
    let mut started = false;
    while i < chars.len()
        invariant
            i <= chars@.len(),
            chars@ == text@,
            in_word == (i > 0 && !white(chars@[i - 1])),
            started == (words(chars@.take(i as int)).len() > 0),
            r@ == joined(words(chars@.take(i as int)), seq![' ']),
        decreases chars@.len() - i,
    {
        let c = chars[i];
        let ghost before = chars@.take(i as int);
        let ghost next = chars@.take(i + 1);
        assert(next.drop_last() =~= before);
        if c.is_whitespace() {
            in_word = false;
        } else {
            if in_word {
                proof {
                    assert(before.last() == chars@[i - 1]);
                    lemma_words_start(before);
                    lemma_joined_extend(words(before), seq![' '], c);
                }
            } else {
                proof {
                    lemma_joined_push(words(before), seq![' '], seq![c]);
                }
                if started {
                    r.push(' ');
                }
            }
            r.push(c);
            assert(r@ =~= joined(words(next), seq![' ']));
            in_word = true;
            started = true;
        }
        i += 1;
    }
    assert(chars@.take(i as int) =~= text@);
    r
}

/// A text filled up with spaces on the right to at least `width` characters.
pub open spec fn padded(s: Seq<char>, width: nat) -> Seq<char> {
    if s.len() >= width {
        s
    } else {
        s + Seq::new((width - s.len()) as nat, |i: int| ' ')
    }
}

/// Pad a text on the right.
pub fn pad(text: &str, width: usize) -> (r: String)
    ensures
        r@ == padded(text@, width as nat),
{
    let mut r = text.to_owned();
    let mut n: usize = text.unicode_len();
    let ghost len = text@.len();
    while n < width
        invariant
            len == text@.len(),
            n >= len,
            n <= width || n == len,
            r@ == text@ + Seq::new((n - len) as nat, |i: int| ' '),
        decreases width - n,
    {
        r.push(' ');
        n += 1;
        assert(r@ =~= text@ + Seq::new((n - len) as nat, |i: int| ' '));
    }
    assert(r@ =~= padded(text@, width as nat));
    r
}

/// A text of at most 16 characters stays; of a longer one the first 15
/// characters and an ellipsis remain.
pub open spec fn shortened(s: Seq<char>) -> Seq<char> {
    if s.len() > 16 {
        s.take(15).push('\u{2026}')
    } else {
        s
    }
}

/// Shorten the text of a long address so that band labels remain readable.
pub fn shorten_ip(text: &str) -> (r: String)
    ensures
        r@ == shortened(text@),
{
    if text.unicode_len() > 16 {
        let mut r = text.substring_char(0, 15).to_owned();
        r.push('\u{2026}');
        r
    } else {
        text.to_owned()
    }
}

/// A text of up to 16 characters stays; of a longer one the first 15 are kept,
/// with one ellipsis behind them.
pub proof fn lemma_shortened_head(s: Seq<char>)
    ensures
        s.len() <= 16 ==> shortened(s) == s,
        s.len() > 16 ==> shortened(s).len() == 16 && shortened(s).take(15) == s.take(15) && shortened(
            s,
        )[15] == '\u{2026}',
{
    if s.len() > 16 {
        assert(shortened(s).take(15) =~= s.take(15));
    }
}

/// Padding keeps a text and puts only spaces behind it, as many as are missing.
pub proof fn lemma_padded_text(s: Seq<char>, width: nat)
    ensures
        padded(s, width).len() == if s.len() >= width {
            s.len()
        } else {
            width
        },
        padded(s, width).take(s.len() as int) == s,
        forall|i: int| s.len() <= i < padded(s, width).len() ==> #[trigger] padded(s, width)[i] == ' ',
{
    assert(padded(s, width).take(s.len() as int) =~= s);
}

/// Lower case changes the ASCII capitals, each into its small letter, and no other
/// character.
pub proof fn lemma_lower_text(s: Seq<char>, i: int)
    requires
        0 <= i < s.len(),
    ensures
        lower(s).len() == s.len(),
        'A' <= s[i] <= 'Z' ==> lower(s)[i] as u32 == s[i] as u32 + 32,
        !('A' <= s[i] <= 'Z') ==> lower(s)[i] == s[i],
{
}

/// A text with anything but digits behind an optional plus sign is no number, nor
/// is one without digits; a plus sign before digits and zeros in front of them
/// change nothing.
pub proof fn lemma_number_form(s: Seq<char>, i: int)
    ensures
        0 <= i < s.len() && !('0' <= s[i] <= '9') && !(i == 0 && s[0] == '+') ==> number_in(s) is None,
        s.len() == 0 || s == seq!['+'] ==> number_in(s) is None,
        s.len() > 0 && s[0] != '+' ==> number_in(seq!['+'] + s) == number_in(s),
        s.len() > 0 && s[0] != '+' ==> number_in(seq!['0'] + s) == number_in(s),
{
    let body = unsigned_part(s);
    if 0 <= i < s.len() && !('0' <= s[i] <= '9') && !(i == 0 && s[0] == '+') {
        if s[0] == '+' {
            assert(body[i - 1] == s[i]);
        } else {
            assert(body[i] == s[i]);
        }
    }
    if s == seq!['+'] {
        assert(body =~= Seq::empty());
    }
    if s.len() > 0 && s[0] != '+' {
        assert(unsigned_part(seq!['+'] + s) =~= s);
        let zero = seq!['0'] + s;
        assert(unsigned_part(zero) =~= zero);
        lemma_leading_zero(s);
        if all_digits(s) {
            assert forall|j: int| 0 <= j < zero.len() implies digit_value(#[trigger] zero[j]) is Some by {
                if j > 0 {
                    assert(zero[j] == s[j - 1]);
                }
            }
        } else {
            let j = choose|j: int| 0 <= j < s.len() && !(digit_value(#[trigger] s[j]) is Some);
            assert(zero[j + 1] == s[j]);
        }
    }
}

proof fn lemma_leading_zero(s: Seq<char>)
    ensures
        digits_value(seq!['0'] + s) == digits_value(s),
    decreases s.len(),
{
    let zero = seq!['0'] + s;
    if s.len() == 0 {
        assert(zero.drop_last() =~= Seq::empty());
        assert(digits_value(zero.drop_last()) == 0);
        assert(digit_value('0') == Some(0nat));
    } else {
        lemma_leading_zero(s.drop_last());
        assert(zero.drop_last() =~= seq!['0'] + s.drop_last());
    }
}

/// A shortened text never has more than 16 characters, and shortening it again
/// changes nothing.
pub proof fn lemma_shortened_stays(s: Seq<char>)
    ensures
        shortened(s).len() <= 16,
        shortened(shortened(s)) == shortened(s),
{
}

proof fn lemma_decimal_digits(n: nat)
    ensures
        decimal(n).len() > 0,
        all_digits(decimal(n)),
        digits_value(decimal(n)) == n,
    decreases n,
{
    reveal_with_fuel(digits_value, 2);
    if n < 10 {
        assert(decimal(n).drop_last() =~= Seq::empty());
        assert(decimal(n).last() == digit(n));
        assert(digit_value(digit(n)) == Some(n));
    } else {
        lemma_decimal_digits(n / 10);
        assert(decimal(n).drop_last() =~= decimal(n / 10));
        assert(digit_value(digit(n % 10)) == Some(n % 10));
    }
}

/// A number written in decimal is read back as that number.
pub proof fn lemma_number_round_trip(n: u32)
    ensures
        number_in(decimal(n as nat)) == Some(n),
{
    lemma_decimal_digits(n as nat);
    assert(digit_value('+') is None);
    assert(unsigned_part(decimal(n as nat)) =~= decimal(n as nat));
}

} // verus!
