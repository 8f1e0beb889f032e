//! Text as sequences of characters: decimal numbers, splitting, searching and replacing.

use vstd::prelude::*;
use vstd::string::*;

verus! {

/// The character of a decimal digit.
pub open spec fn digit(d: int) -> char {
    ('0' as u32 + d) as char
}

/// Whether a character is one of `0` to `9`.
pub open spec fn is_digit(c: char) -> bool {
    '0' <= c && c <= '9'
}

/// A natural number in decimal, without leading zeros.
pub open spec fn decimal(n: nat) -> Seq<char>
    decreases n,
{
    if n < 10 {
        seq![digit(n as int)]
    } else {
        decimal(n / 10).push(digit((n % 10) as int))
    }
}

/// An integer in decimal, with `-` in front of a negative one.
pub open spec fn signed_decimal(i: int) -> Seq<char> {
    if i < 0 {
        seq!['-'] + decimal((-i) as nat)
    } else {
        decimal(i as nat)
    }
}

/// `n` zeros.
pub open spec fn zeros(n: nat) -> Seq<char> {
    Seq::new(n, |k: int| '0')
}

/// A natural number in decimal, filled up with leading zeros to at least `width` digits.
pub open spec fn padded(n: nat, width: nat) -> Seq<char> {
    let body = decimal(n);
    if body.len() < width {
        zeros((width - body.len()) as nat) + body
    } else {
        body
    }
}

/// An integer in decimal, filled up with zeros behind the sign to at least `width` characters.
pub open spec fn signed_padded(i: int, width: nat) -> Seq<char> {
    if i < 0 {
        seq!['-'] + padded((-i) as nat, if width > 0 { (width - 1) as nat } else { 0 })
    } else {
        padded(i as nat, width)
    }
}

/// Whether all characters are decimal digits.
pub open spec fn all_digits(s: Seq<char>) -> bool {
    forall|k: int| 0 <= k < s.len() ==> is_digit(#[trigger] s[k])
}

/// The value of a run of decimal digits.
pub open spec fn digits_value(s: Seq<char>) -> int
    decreases s.len(),
{
    if s.len() == 0 {
        0
    } else {
        digits_value(s.drop_last()) * 10 + (s.last() as u32 - '0' as u32)
    }
}

/// The integer that a text denotes: an optional sign and at least one digit, nothing else.
pub open spec fn integer_value(s: Seq<char>) -> Option<int> {
    let signed = s.len() > 0 && (s[0] == '+' || s[0] == '-');
    let body = if signed {
        s.skip(1)
    } else {
        s
    };
    if body.len() == 0 || !all_digits(body) {
        None
    } else if s[0] == '-' {
        Some(-digits_value(body))
    } else {
        Some(digits_value(body))
    }
}

/// The 64-bit integer that a text denotes.
pub open spec fn i64_value(s: Seq<char>) -> Option<i64> {
    match integer_value(s) {
        Some(v) => if i64::MIN <= v <= i64::MAX {
            Some(v as i64)
        } else {
            None
        },
        None => None,
    }
}

/// Whether a character occurs nowhere in a text.
pub open spec fn lacks(s: Seq<char>, c: char) -> bool {
    forall|k: int| 0 <= k < s.len() ==> #[trigger] s[k] != c
}

/// The parts of a text between the occurrences of a separator; always at least one.
pub open spec fn split(s: Seq<char>, sep: char) -> Seq<Seq<char>>
    decreases s.len(),
{
    if s.len() == 0 {
        seq![Seq::<char>::empty()]
    } else {
        let front = split(s.drop_last(), sep);
        if s.last() == sep {
            front.push(Seq::<char>::empty())
        } else {
            front.drop_last().push(front.last().push(s.last()))
        }
    }
}

/// The parts with the separator put between them again.
pub open spec fn joined(parts: Seq<Seq<char>>, sep: char) -> Seq<char>
    decreases parts.len(),
{
    if parts.len() == 0 {
        Seq::<char>::empty()
    } else if parts.len() == 1 {
        parts[0]
    } else {
        joined(parts.drop_last(), sep) + seq![sep] + parts.last()
    }
}

/// A text with every occurrence of a pattern, found from the left, replaced.
pub open spec fn replaced(s: Seq<char>, pattern: Seq<char>, by: Seq<char>) -> Seq<char>
    decreases s.len(),
{
    if pattern.len() == 0 || s.len() < pattern.len() {
        s
    } else if pattern.is_prefix_of(s) {
        by + replaced(s.skip(pattern.len() as int), pattern, by)
    } else {
        seq![s[0]] + replaced(s.skip(1), pattern, by)
    }
}

/// The part of a text behind the last occurrence of a separator.
pub open spec fn after_last(s: Seq<char>, sep: char) -> Seq<char> {
    split(s, sep).last()
}

/// What a list of strings holds.
pub open spec fn texts(v: Seq<String>) -> Seq<Seq<char>> {
    v.map_values(|t: String| t@)
}

/// The characters of a text, one by one.
pub fn chars_of(s: &str) -> (chars: Vec<char>)
    ensures
        chars@ == s@,
{
    let mut chars: Vec<char> = Vec::new();
    for c in it: s.chars()
        invariant
            it.seq() == s@,
            chars@ == s@.take(it.index() as int),
    {
        chars.push(c);
    }
    assert(s@.take(s@.len() as int) =~= s@);
    chars
}

/// The digit `d` as a text.
fn digit_text(d: u64) -> (t: String)
    requires
        d < 10,
    ensures
        t@ == seq![digit(d as int)],
{
    let all = "0123456789";
    proof {
        reveal_strlit("0123456789");
    }
    let t = all.substring_char(d as usize, d as usize + 1).to_owned();
    assert(t@ =~= seq![digit(d as int)]);
    t
}

/// Writes a natural number in decimal.
pub fn decimal_text(n: u64) -> (t: String)
    ensures
        t@ == decimal(n as nat),
    decreases n,
{
    if n < 10 {
        digit_text(n)
    } else {
        let mut t = decimal_text(n / 10);
        let last = digit_text(n % 10);
        t.append(last.as_str());
        assert(t@ =~= decimal(n as nat));
        t
    }
}

/// Writes an integer in decimal.
pub fn signed_text(i: i64) -> (t: String)
    ensures
        t@ == signed_decimal(i as int),
{
    if i >= 0 {
        decimal_text(i as u64)
    } else {
        let mut t = "-".to_owned();
        proof {
            reveal_strlit("-");
        }
        let magnitude: u64 = (-(i as i128)) as u64;
        t.append(decimal_text(magnitude).as_str());
        assert(t@ =~= signed_decimal(i as int));
        t
    }
}

/// Writes a natural number in decimal with at least `width` digits.
pub fn padded_text(n: u64, width: usize) -> (t: String)
    ensures
        t@ == padded(n as nat, width as nat),
{
    let body = decimal_text(n);
    let len = body.as_str().unicode_len();
    let mut t = String::new();
    let mut k: usize = len;
    while k < width
        invariant
            len == decimal(n as nat).len(),
            len <= k,
            len < width ==> k <= width,
            k > len ==> k <= width,
            t@ == zeros((k - len) as nat),
        decreases width - k,
    {
        t.append("0");
        proof {
            reveal_strlit("0");
        }
        assert(t@ =~= zeros((k + 1 - len) as nat));
        k = k + 1;
    }
    t.append(body.as_str());
    assert(t@ =~= padded(n as nat, width as nat));
    t
}

/// Writes an integer in decimal with at least `width` characters, the sign counted.
pub fn signed_padded_text(i: i64, width: usize) -> (t: String)
    ensures
        t@ == signed_padded(i as int, width as nat),
{
    if i >= 0 {
        padded_text(i as u64, width)
    } else {
        let mut t = "-".to_owned();
        proof {
            reveal_strlit("-");
        }
        let magnitude: u64 = (-(i as i128)) as u64;
        let rest: usize = if width > 0 {
            width - 1
        } else {
            0
        };
        t.append(padded_text(magnitude, rest).as_str());
        assert(t@ =~= signed_padded(i as int, width as nat));
        t
    }
}

/// A longer run of digits is worth no less.
proof fn lemma_digits_grow(s: Seq<char>, n: int)
    requires
        all_digits(s),
        0 <= n <= s.len(),
    ensures
        0 <= digits_value(s.take(n)) <= digits_value(s),
    decreases s.len(),
{
    if s.len() == 0 {
        assert(s.take(n) =~= s);
    } else if n == s.len() {
        assert(s.take(n) =~= s);
        lemma_digits_grow(s.drop_last(), n - 1);
        assert(is_digit(s[s.len() - 1]));
    } else {
        assert(s.take(n) =~= s.drop_last().take(n));
        lemma_digits_grow(s.drop_last(), n);
        assert(is_digit(s[s.len() - 1]));
    }
}

/// Reads a 64-bit integer: an optional sign and decimal digits, nothing else.
pub fn parse_i64(s: &str) -> (r: Option<i64>)
    ensures
        r == i64_value(s@),
{
    let chars = chars_of(s);
    let len = chars.len();
    if len == 0 {
        return None;
    }
    let negative = chars[0] == '-';
    let start: usize = if negative || chars[0] == '+' {
        1
    } else {
        0
    };
    let ghost body = s@.skip(start as int);
    proof {
        if start == 0 {
            assert(body =~= s@);
        }
    }
    if start == len {
        return None;
    }
    let mut value: i128 = 0;
    let mut k: usize = start;
    assert(body.take(0) =~= Seq::<char>::empty());
    while k < len
        invariant
            chars@ == s@,
            len == s@.len(),
            start <= k <= len,
            start <= 1,
            body == s@.skip(start as int),
            body.len() > 0,
            start == 1 <==> (s@[0] == '+' || s@[0] == '-'),
            integer_value(s@) is Some ==> all_digits(body) && integer_value(s@)->0 == if s@[0]
                == '-' {
                -digits_value(body)
            } else {
                digits_value(body)
            },
            integer_value(s@) is Some <==> all_digits(body),
            forall|j: int| 0 <= j < k - start ==> is_digit(#[trigger] body[j]),
            value == digits_value(body.take(k - start)),
            0 <= value <= 0x8000_0000_0000_0000,
        decreases len - k,
    {
        let c = chars[k];
        assert(c == body[k - start]);
        if c < '0' || c > '9' {
            return None;
        }
        value = value * 10 + (c as u32 as i128 - '0' as u32 as i128);
        proof {
            assert(body.take(k + 1 - start).drop_last() =~= body.take(k - start));
            assert(body.take(k + 1 - start).last() == c);
        }
        if value > 0x8000_0000_0000_0000 {
            proof {
                if all_digits(body) {
                    lemma_digits_grow(body, k + 1 - start);
                }
            }
            return None;
        }
        k = k + 1;
    }
    assert(body.take(len - start) =~= body);
    if negative {
        Some((-value) as i64)
    } else if value <= 0x7fff_ffff_ffff_ffff {
        Some(value as i64)
    } else {
        None
    }
}

/// The parts of a text between the occurrences of a separator.
pub fn split_on(s: &str, sep: char) -> (parts: Vec<String>)
    ensures
        texts(parts@) == split(s@, sep),
        parts@.len() >= 1,
{
    let chars = chars_of(s);
    let len = chars.len();
    let mut parts: Vec<String> = Vec::new();
    let mut start: usize = 0;
    let mut k: usize = 0;
    assert(s@.take(0) =~= Seq::<char>::empty());
    assert(texts(parts@).push(s@.subrange(0, 0)) =~= split(s@.take(0), sep));
    while k < len
        invariant
            chars@ == s@,
            len == s@.len(),
            start <= k <= len,
            texts(parts@).push(s@.subrange(start as int, k as int)) == split(
                s@.take(k as int),
                sep,
            ),
        decreases len - k,
    {
        let ghost before = texts(parts@);
        let ghost current = s@.subrange(start as int, k as int);
        assert(s@.take(k + 1).drop_last() =~= s@.take(k as int));
        assert(before.push(current).drop_last() =~= before);
        if chars[k] == sep {
            parts.push(s.substring_char(start, k).to_owned());
            start = k + 1;
            assert(texts(parts@) =~= before.push(current));
            assert(s@.subrange(start as int, k + 1) =~= Seq::<char>::empty());
        } else {
            assert(s@.subrange(start as int, k + 1) =~= current.push(s@[k as int]));
        }
        k = k + 1;
    }
    let ghost before = texts(parts@);
    let ghost current = s@.subrange(start as int, len as int);
    parts.push(s.substring_char(start, len).to_owned());
    assert(texts(parts@) =~= before.push(current));
    assert(s@.take(len as int) =~= s@);
    parts
}

/// Whether a text begins with another.
pub fn begins_with(s: &str, prefix: &str) -> (r: bool)
    ensures
        r == prefix@.is_prefix_of(s@),
{
    let n = s.unicode_len();
    let m = prefix.unicode_len();
    if m > n {
        return false;
    }
    let head = s.substring_char(0, m).to_owned();
    let want = prefix.to_owned();
    proof {
        if prefix@.is_prefix_of(s@) {
            assert(head@ =~= want@);
        }
    }
    head == want
}

/// Whether a text ends with another.
pub fn finishes_with(s: &str, suffix: &str) -> (r: bool)
    ensures
        r == suffix@.is_suffix_of(s@),
{
    let n = s.unicode_len();
    let m = suffix.unicode_len();
    if m > n {
        return false;
    }
    let tail = s.substring_char(n - m, n).to_owned();
    let want = suffix.to_owned();
    proof {
        if suffix@.is_suffix_of(s@) {
            assert(tail@ =~= want@);
        }
    }
    tail == want
}

/// Whether two texts are the same.
pub fn same_text(a: &str, b: &str) -> (r: bool)
    ensures
        r == (a@ == b@),
{
    a.to_owned() == b.to_owned()
}

/// Replaces every occurrence of a pattern, found from the left.
pub fn replace_all(s: &str, pattern: &str, by: &str) -> (t: String)
    requires
        pattern@.len() > 0,
    ensures
        t@ == replaced(s@, pattern@, by@),
{
    let n = s.unicode_len();
    let m = pattern.unicode_len();
    let want = pattern.to_owned();
    let mut t = String::new();
    let mut k: usize = 0;
    assert(s@.skip(0) =~= s@);
    assert(t@ + replaced(s@, pattern@, by@) =~= replaced(s@, pattern@, by@));
    while m <= n - k
        invariant
            n == s@.len(),
            m == pattern@.len(),
            m > 0,
            want@ == pattern@,
            k <= n,
            t@ + replaced(s@.skip(k as int), pattern@, by@) == replaced(s@, pattern@, by@),
        decreases n - k,
    {
        let ghost rest = s@.skip(k as int);
        let window = s.substring_char(k, k + m).to_owned();
        let ghost before = t@;
        if window == want {
            assert(rest.take(m as int) =~= window@);
            assert(forall|j: int| 0 <= j < m ==> rest[j] == window@[j]);
            assert(pattern@.is_prefix_of(rest));
            t.append(by);
            assert(s@.skip(k + m) =~= rest.skip(m as int));
            assert(t@ + replaced(s@.skip(k + m), pattern@, by@) =~= before + replaced(
                rest,
                pattern@,
                by@,
            ));
            k = k + m;
        } else {
            assert(!pattern@.is_prefix_of(rest)) by {
                if pattern@.is_prefix_of(rest) {
                    assert(window@ =~= pattern@);
                }
            }
            t.append(s.substring_char(k, k + 1));
            assert(s@.skip(k + 1) =~= rest.skip(1));
            assert(s@.subrange(k as int, k + 1) =~= seq![rest[0]]);
            assert(t@ + replaced(s@.skip(k + 1), pattern@, by@) =~= before + replaced(
                rest,
                pattern@,
                by@,
            ));
            k = k + 1;
        }
    }
    let ghost before = t@;
    t.append(s.substring_char(k, n));
    assert(s@.subrange(k as int, n as int) =~= s@.skip(k as int));
    t
}

/// Adds a text to a list.
pub fn push_text(list: &mut Vec<String>, t: &str)
    ensures
        texts(final(list)@) == texts(old(list)@).push(t@),
{
    let ghost before = texts(list@);
    list.push(t.to_owned());
    assert(texts(list@) =~= before.push(t@));
}

/// Puts two texts together.
pub fn concat(a: &str, b: &str) -> (t: String)
    ensures
        t@ == a@ + b@,
{
    let mut t = a.to_owned();
    t.append(b);
    t
}

/// Splitting gives at least one part, and no part holds the separator.
pub proof fn lemma_split_parts(s: Seq<char>, sep: char)
    ensures
        split(s, sep).len() >= 1,
        forall|k: int| 0 <= k < split(s, sep).len() ==> lacks(#[trigger] split(s, sep)[k], sep),
    decreases s.len(),
{
    if s.len() > 0 {
        lemma_split_parts(s.drop_last(), sep);
        let front = split(s.drop_last(), sep);
        assert forall|k: int| 0 <= k < split(s, sep).len() implies lacks(
            #[trigger] split(s, sep)[k],
            sep,
        ) by {
            if s.last() == sep {
                if k < front.len() {
                    assert(split(s, sep)[k] == front[k]);
                }
            } else if k < front.len() - 1 {
                assert(split(s, sep)[k] == front[k]);
            } else {
                assert(lacks(front.last(), sep));
                assert(split(s, sep)[k] == front.last().push(s.last()));
            }
        }
    }
}

/// A text without the separator is its own only part.
pub proof fn lemma_split_whole(s: Seq<char>, sep: char)
    requires
        lacks(s, sep),
    ensures
        split(s, sep) == seq![s],
    decreases s.len(),
{
    if s.len() == 0 {
        assert(s =~= Seq::<char>::empty());
    } else {
        assert(lacks(s.drop_last(), sep)) by {
            assert forall|k: int| 0 <= k < s.drop_last().len() implies #[trigger] s.drop_last()[k]
                != sep by {
                assert(s[k] != sep);
            }
        }
        lemma_split_whole(s.drop_last(), sep);
        assert(s[s.len() - 1] != sep);
        assert(s.drop_last().push(s.last()) =~= s);
        assert(split(s, sep) =~= seq![s]);
    }
}

/// The parts of two texts with the separator between them are the parts of both.
pub proof fn lemma_split_concat(a: Seq<char>, sep: char, b: Seq<char>)
    ensures
        split(a + seq![sep] + b, sep) == split(a, sep) + split(b, sep),
    decreases b.len(),
{
    let whole = a + seq![sep] + b;
    lemma_split_parts(a, sep);
    lemma_split_parts(b, sep);
    if b.len() == 0 {
        assert(whole.drop_last() =~= a);
        assert(split(whole, sep) =~= split(a, sep) + split(b, sep));
    } else {
        let front = b.drop_last();
        lemma_split_concat(a, sep, front);
        lemma_split_parts(front, sep);
        assert(whole.drop_last() =~= a + seq![sep] + front);
        assert(split(whole, sep) =~= split(a, sep) + split(b, sep));
    }
}

/// Putting parts together and splitting again gives the parts back.
pub proof fn lemma_split_joined(parts: Seq<Seq<char>>, sep: char)
    requires
        parts.len() >= 1,
        forall|k: int| 0 <= k < parts.len() ==> lacks(#[trigger] parts[k], sep),
    ensures
        split(joined(parts, sep), sep) == parts,
    decreases parts.len(),
{
    if parts.len() == 1 {
        lemma_split_whole(parts[0], sep);
        assert(seq![parts[0]] =~= parts);
    } else {
        let front = parts.drop_last();
        assert forall|k: int| 0 <= k < front.len() implies lacks(#[trigger] front[k], sep) by {
            assert(front[k] == parts[k]);
        }
        lemma_split_joined(front, sep);
        lemma_split_concat(joined(front, sep), sep, parts.last());
        lemma_split_whole(parts[parts.len() - 1], sep);
        assert(front + seq![parts.last()] =~= parts);
    }
}

/// The decimal form of a number is a run of digits worth that number.
pub proof fn lemma_decimal(n: nat)
    ensures
        decimal(n).len() >= 1,
        all_digits(decimal(n)),
        digits_value(decimal(n)) == n,
    decreases n,
{
    if n < 10 {
        let d = decimal(n);
        assert(d.drop_last() =~= Seq::<char>::empty());
        assert(digits_value(d.drop_last()) == 0);
    } else {
        lemma_decimal(n / 10);
        let d = decimal(n);
        assert(d.drop_last() =~= decimal(n / 10));
        assert(d.last() == digit((n % 10) as int));
    }
}

/// A filled up number is a run of digits.
pub proof fn lemma_padded(n: nat, width: nat)
    ensures
        all_digits(padded(n, width)),
        padded(n, width).len() >= width,
        padded(n, width).len() >= 1,
{
    lemma_decimal(n);
}

/// Leading zeros add nothing.
proof fn lemma_leading_zeros(n: nat, s: Seq<char>)
    ensures
        digits_value(zeros(n) + s) == digits_value(s),
    decreases n + s.len(),
{
    let whole = zeros(n) + s;
    if s.len() > 0 {
        lemma_leading_zeros(n, s.drop_last());
        assert(whole.drop_last() =~= zeros(n) + s.drop_last());
        assert(whole.last() == s.last());
    } else if n > 0 {
        lemma_leading_zeros((n - 1) as nat, s);
        assert(whole.drop_last() =~= zeros((n - 1) as nat) + s);
        assert(whole.last() == '0');
    } else {
        assert(whole =~= s);
    }
}

/// A filled up number is worth that number.
pub proof fn lemma_padded_value(n: nat, width: nat)
    ensures
        digits_value(padded(n, width)) == n,
{
    lemma_decimal(n);
    let body = decimal(n);
    if body.len() < width {
        lemma_leading_zeros((width - body.len()) as nat, body);
    }
}

/// Two and three digits are enough for numbers below a hundred and a thousand.
pub proof fn lemma_padded_width(n: nat)
    ensures
        n < 100 ==> padded(n, 2).len() == 2,
        n < 1000 ==> padded(n, 3).len() == 3,
{
    reveal_with_fuel(decimal, 3);
}

/// A run of digits holds no other character.
pub proof fn lemma_digits_lack(s: Seq<char>, c: char)
    requires
        all_digits(s),
        !is_digit(c),
    ensures
        lacks(s, c),
{
    assert forall|k: int| 0 <= k < s.len() implies #[trigger] s[k] != c by {
        assert(is_digit(s[k]));
    }
}

/// Reading a written integer gives it back.
pub proof fn lemma_signed_decimal(i: i64)
    ensures
        i64_value(signed_decimal(i as int)) == Some(i),
{
    let s = signed_decimal(i as int);
    if i < 0 {
        lemma_decimal((-i) as nat);
        assert(s.skip(1) =~= decimal((-i) as nat));
    } else {
        lemma_decimal(i as nat);
        assert(is_digit(s[0]));
    }
}

/// A pattern at the end of a text that lacks the second character of the pattern is the only
/// occurrence of it.
pub proof fn lemma_replaced_suffix(s: Seq<char>, pattern: Seq<char>)
    requires
        pattern.len() >= 2,
        pattern[0] != pattern[1],
        lacks(s, pattern[1]),
    ensures
        replaced(s + pattern, pattern, Seq::<char>::empty()) == s,
    decreases s.len(),
{
    let whole = s + pattern;
    let empty = Seq::<char>::empty();
    if s.len() == 0 {
        assert(whole =~= pattern);
        assert(whole.skip(pattern.len() as int) =~= empty);
        assert(pattern.is_prefix_of(whole));
        assert(replaced(empty, pattern, empty) == empty);
        assert(empty + empty =~= s);
    } else {
        assert(whole[1] != pattern[1]) by {
            if s.len() > 1 {
                assert(s[1] != pattern[1]);
            }
        }
        assert(!pattern.is_prefix_of(whole));
        let rest = s.skip(1);
        assert(lacks(rest, pattern[1])) by {
            assert forall|k: int| 0 <= k < rest.len() implies #[trigger] rest[k] != pattern[1] by {
                assert(s[k + 1] != pattern[1]);
            }
        }
        lemma_replaced_suffix(rest, pattern);
        assert(whole.skip(1) =~= rest + pattern);
        assert(seq![whole[0]] + rest =~= s);
    }
}

/// What two texts lack, their concatenation lacks.
pub proof fn lemma_lacks_concat(a: Seq<char>, b: Seq<char>, c: char)
    requires
        lacks(a, c),
        lacks(b, c),
    ensures
        lacks(a + b, c),
{
    assert forall|k: int| 0 <= k < (a + b).len() implies #[trigger] (a + b)[k] != c by {
        if k < a.len() {
            assert(a[k] != c);
        } else {
            assert(b[k - a.len()] != c);
        }
    }
}

/// The value of a run of digits is made digit by digit: one more digit makes ten times as much
/// and the digit.
pub proof fn law_digit_values(s: Seq<char>, c: char)
    ensures
        digits_value(Seq::<char>::empty()) == 0,
        digits_value(s.push(c)) == 10 * digits_value(s) + (c as u32 - '0' as u32),
{
    assert(s.push(c).drop_last() =~= s);
}

/// A number in decimal consists of digits, is worth the number, and has no leading zero.
pub proof fn law_decimal_says_its_number(n: nat)
    ensures
        decimal(n).len() >= 1,
        forall|k: int| 0 <= k < decimal(n).len() ==> '0' <= #[trigger] decimal(n)[k] <= '9',
        digits_value(decimal(n)) == n,
        n > 0 ==> decimal(n)[0] != '0',
        n == 0 ==> decimal(n) == seq!['0'],
    decreases n,
{
    lemma_decimal(n);
    assert forall|k: int| 0 <= k < decimal(n).len() implies '0' <= #[trigger] decimal(n)[k]
        <= '9' by {
        assert(is_digit(decimal(n)[k]));
    }
    if n >= 10 {
        law_decimal_says_its_number(n / 10);
        assert(decimal(n)[0] == decimal(n / 10)[0]);
    }
}

/// A negative integer is written as `-` and its magnitude, any other as the number that it is.
pub proof fn law_signs_are_written(n: nat)
    ensures
        signed_decimal(n as int) == decimal(n),
        n > 0 ==> signed_decimal(-n) == seq!['-'] + decimal(n),
{
}

/// A number that is filled up consists of digits, is worth the number, and is as long as was
/// asked for, or as the number is where that is longer.
pub proof fn law_padding_keeps_the_number(n: nat, width: nat)
    ensures
        forall|k: int|
            0 <= k < padded(n, width).len() ==> '0' <= #[trigger] padded(n, width)[k] <= '9',
        digits_value(padded(n, width)) == n,
        padded(n, width).len() == if decimal(n).len() < width {
            width
        } else {
            decimal(n).len()
        },
        signed_padded(n as int, width) == padded(n, width),
        n > 0 && width > 0 ==> signed_padded(-n, width) == seq!['-'] + padded(
            n,
            (width - 1) as nat,
        ),
        n > 0 && width == 0 ==> signed_padded(-n, width) == seq!['-'] + padded(n, 0),
{
    lemma_padded(n, width);
    lemma_padded_value(n, width);
    assert forall|k: int| 0 <= k < padded(n, width).len() implies '0' <= #[trigger] padded(
        n,
        width,
    )[k] <= '9' by {
        assert(is_digit(padded(n, width)[k]));
    }
}

/// A run of digits is read as the integer that it is worth, with a sign in front or without, as
/// long as that fits 64 bits.
pub proof fn law_digits_are_read(s: Seq<char>)
    requires
        s.len() > 0,
        forall|k: int| 0 <= k < s.len() ==> '0' <= #[trigger] s[k] <= '9',
    ensures
        i64_value(s) == if digits_value(s) <= 0x7fff_ffff_ffff_ffff {
            Some(digits_value(s) as i64)
        } else {
            None
        },
        i64_value(seq!['+'] + s) == i64_value(s),
        i64_value(seq!['-'] + s) == if digits_value(s) <= 0x8000_0000_0000_0000 {
            Some((-digits_value(s)) as i64)
        } else {
            None
        },
{
    assert(all_digits(s));
    lemma_digits_grow(s, 0);
    assert(is_digit(s[0]));
    assert((seq!['+'] + s).skip(1) =~= s);
    assert((seq!['-'] + s).skip(1) =~= s);
}

/// A text that is no digits behind at most one sign is not read as an integer.
pub proof fn law_other_texts_are_no_integers(s: Seq<char>, k: int)
    ensures
        s.len() == 0 ==> i64_value(s) is None,
        s.len() == 1 && (s[0] == '+' || s[0] == '-') ==> i64_value(s) is None,
        s.len() > 0 && !('0' <= s[0] <= '9') && s[0] != '+' && s[0] != '-' ==> i64_value(s) is None,
        1 <= k < s.len() && !('0' <= s[k] <= '9') ==> i64_value(s) is None,
{
    if 1 <= k < s.len() && !('0' <= s[k] <= '9') {
        assert(s.skip(1)[k - 1] == s[k]);
        assert(!is_digit(s[k]));
    }
    if s.len() > 0 && !('0' <= s[0] <= '9') {
        assert(!is_digit(s[0]));
    }
}

/// A written integer is read as that integer.
pub proof fn law_written_integers_are_read_back(i: i64)
    ensures
        i64_value(signed_decimal(i as int)) == Some(i),
{
    lemma_signed_decimal(i);
}

/// Parts are put together one after the other, with the separator between them.
pub proof fn law_parts_are_put_together(parts: Seq<Seq<char>>, part: Seq<char>, sep: char)
    ensures
        joined(seq![part], sep) == part,
        parts.len() > 0 ==> joined(parts.push(part), sep) == joined(parts, sep) + seq![sep] + part,
{
    assert(parts.push(part).drop_last() =~= parts);
}

/// A text is taken apart into parts without the separator, which put together make the text, and
/// parts that were put together are what they are taken apart into.
pub proof fn law_split_undoes_joined(s: Seq<char>, parts: Seq<Seq<char>>, sep: char)
    ensures
        split(s, sep).len() >= 1,
        joined(split(s, sep), sep) == s,
        forall|k: int, j: int|
            0 <= k < split(s, sep).len() && 0 <= j < split(s, sep)[k].len() ==> #[trigger] split(
                s,
                sep,
            )[k][j] != sep,
        parts.len() > 0 && (forall|k: int, j: int|
            0 <= k < parts.len() && 0 <= j < parts[k].len() ==> #[trigger] parts[k][j] != sep)
            ==> split(joined(parts, sep), sep) == parts,
{
    lemma_split_parts(s, sep);
    lemma_joined_split(s, sep);
    assert forall|k: int, j: int|
        0 <= k < split(s, sep).len() && 0 <= j < split(s, sep)[k].len() implies #[trigger] split(
        s,
        sep,
    )[k][j] != sep by {
        assert(lacks(split(s, sep)[k], sep));
    }
    if parts.len() > 0 && (forall|k: int, j: int|
        0 <= k < parts.len() && 0 <= j < parts[k].len() ==> #[trigger] parts[k][j] != sep) {
        assert forall|k: int| 0 <= k < parts.len() implies lacks(#[trigger] parts[k], sep) by {
            assert forall|j: int| 0 <= j < parts[k].len() implies #[trigger] parts[k][j] != sep by {
            }
        }
        lemma_split_joined(parts, sep);
    }
}

/// The parts of a text put together make the text.
proof fn lemma_joined_split(s: Seq<char>, sep: char)
    ensures
        joined(split(s, sep), sep) == s,
    decreases s.len(),
{
    if s.len() == 0 {
        assert(s =~= Seq::<char>::empty());
    } else {
        let rest = s.drop_last();
        let front = split(rest, sep);
        lemma_joined_split(rest, sep);
        lemma_split_parts(rest, sep);
        if s.last() == sep {
            let whole = front.push(Seq::<char>::empty());
            assert(whole.drop_last() =~= front);
            assert(joined(whole, sep) =~= s);
        } else {
            let last = front.last().push(s.last());
            let whole = front.drop_last().push(last);
            assert(whole.drop_last() =~= front.drop_last());
            assert(joined(whole, sep) =~= joined(front, sep).push(s.last()));
            assert(joined(whole, sep) =~= s);
        }
    }
}

/// What follows the last separator of a text holds no separator, and is all of a text without
/// one.
pub proof fn law_after_last(a: Seq<char>, b: Seq<char>, sep: char)
    requires
        forall|k: int| 0 <= k < b.len() ==> #[trigger] b[k] != sep,
    ensures
        after_last(b, sep) == b,
        after_last(a + seq![sep] + b, sep) == b,
{
    lemma_split_whole(b, sep);
    lemma_split_parts(a, sep);
    lemma_split_concat(a, sep, b);
}

/// A text in which a pattern does not occur is left as it is.
pub proof fn law_nothing_to_replace(s: Seq<char>, pattern: Seq<char>, by: Seq<char>)
    requires
        pattern.len() > 0,
        forall|k: int|
            0 <= k <= s.len() - pattern.len() ==> #[trigger] s.subrange(k, k + pattern.len())
                != pattern,
    ensures
        replaced(s, pattern, by) == s,
    decreases s.len(),
{
    if s.len() >= pattern.len() {
        let rest = s.skip(1);
        assert(s.subrange(0, 0int + pattern.len()) != pattern);
        assert(!pattern.is_prefix_of(s)) by {
            if pattern.is_prefix_of(s) {
                assert(s.subrange(0, 0int + pattern.len()) =~= pattern);
            }
        }
        assert forall|k: int| 0 <= k <= rest.len() - pattern.len() implies #[trigger] rest.subrange(
            k,
            k + pattern.len(),
        ) != pattern by {
            assert(rest.subrange(k, k + pattern.len()) =~= s.subrange(
                k + 1,
                (k + 1) + pattern.len(),
            ));
        }
        law_nothing_to_replace(rest, pattern, by);
        assert(seq![s[0]] + rest =~= s);
    }
}

/// The first occurrence of a pattern is replaced, what stands before it is left as it is, and
/// behind it the same goes on.
pub proof fn law_first_occurrence_is_replaced(
    front: Seq<char>,
    pattern: Seq<char>,
    back: Seq<char>,
    by: Seq<char>,
)
    requires
        pattern.len() > 0,
        forall|k: int|
            0 <= k < front.len() ==> #[trigger] (front + pattern + back).subrange(
                k,
                k + pattern.len(),
            ) != pattern,
    ensures
        replaced(front + pattern + back, pattern, by) == front + by + replaced(back, pattern, by),
    decreases front.len(),
{
    let whole = front + pattern + back;
    if front.len() == 0 {
        assert(pattern.is_prefix_of(whole));
        assert(whole.skip(pattern.len() as int) =~= back);
        assert(front + by + replaced(back, pattern, by) =~= by + replaced(back, pattern, by));
    } else {
        let rest = front.skip(1);
        let next = rest + pattern + back;
        assert(whole.skip(1) =~= next);
        assert(whole.subrange(0, 0int + pattern.len()) != pattern);
        assert(!pattern.is_prefix_of(whole)) by {
            if pattern.is_prefix_of(whole) {
                assert(whole.subrange(0, 0int + pattern.len()) =~= pattern);
            }
        }
        assert forall|k: int| 0 <= k < rest.len() implies #[trigger] next.subrange(
            k,
            k + pattern.len(),
        ) != pattern by {
            assert(next.subrange(k, k + pattern.len()) =~= whole.subrange(
                k + 1,
                (k + 1) + pattern.len(),
            ));
        }
        law_first_occurrence_is_replaced(rest, pattern, back, by);
        assert(seq![whole[0]] + (rest + by + replaced(back, pattern, by)) =~= front + by
            + replaced(back, pattern, by));
    }
}

/// A list of strings holds the text of each string, in their order.
pub proof fn law_texts(v: Seq<String>, k: int)
    ensures
        texts(v).len() == v.len(),
        0 <= k < v.len() ==> texts(v)[k] == v[k]@,
{
}

/// A text lacks a character where none of its characters is that one.
pub proof fn law_lacking_a_character(s: Seq<char>, c: char)
    ensures
        lacks(s, c) <==> (forall|k: int| 0 <= k < s.len() ==> #[trigger] s[k] != c),
{
}

} // verus!
