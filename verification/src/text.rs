//! Building text out of literals and numbers.
use vstd::prelude::*;

verus! {

/// The character of one decimal or hexadecimal digit.
pub open spec fn digit_char(d: int) -> char {
    if d == 0 { '0' } else if d == 1 { '1' } else if d == 2 { '2' } else if d == 3 { '3' }
    else if d == 4 { '4' } else if d == 5 { '5' } else if d == 6 { '6' } else if d == 7 { '7' }
    else if d == 8 { '8' } else if d == 9 { '9' } else if d == 10 { 'a' } else if d == 11 { 'b' }
    else if d == 12 { 'c' } else if d == 13 { 'd' } else if d == 14 { 'e' } else { 'f' }
}

/// `n` in decimal, without leading zeros.
pub open spec fn decimal(n: nat) -> Seq<char>
    decreases n,
{
    if n < 10 {
        seq![digit_char(n as int)]
    } else {
        decimal(n / 10).push(digit_char((n % 10) as int))
    }
}

/// The last `width` hexadecimal digits of `n`, with leading zeros.
pub open spec fn hex(n: nat, width: nat) -> Seq<char>
    decreases width,
{
    if width == 0 {
        Seq::empty()
    } else {
        hex(n / 16, (width - 1) as nat).push(digit_char((n % 16) as int))
    }
}

/// The text of one digit.
fn digit_str(d: u64) -> (s: &'static str)
    requires
        d < 16,
    ensures
        s@ == seq![digit_char(d as int)],
{
    proof {
        reveal_strlit("0");
        reveal_strlit("1");
        reveal_strlit("2");
        reveal_strlit("3");
        reveal_strlit("4");
        reveal_strlit("5");
        reveal_strlit("6");
        reveal_strlit("7");
        reveal_strlit("8");
        reveal_strlit("9");
        reveal_strlit("a");
        reveal_strlit("b");
        reveal_strlit("c");
        reveal_strlit("d");
        reveal_strlit("e");
        reveal_strlit("f");
    }
    if d == 0 { "0" } else if d == 1 { "1" } else if d == 2 { "2" } else if d == 3 { "3" }
    else if d == 4 { "4" } else if d == 5 { "5" } else if d == 6 { "6" } else if d == 7 { "7" }
    else if d == 8 { "8" } else if d == 9 { "9" } else if d == 10 { "a" } else if d == 11 { "b" }
    else if d == 12 { "c" } else if d == 13 { "d" } else if d == 14 { "e" } else { "f" }
}

/// Appends `n` in decimal.
pub fn push_decimal(text: &mut String, n: u64)
    ensures
        final(text)@ == old(text)@ + decimal(n as nat),
    decreases n,
{
    let ghost before = text@;
    if n >= 10 {
        push_decimal(text, n / 10);
    }
    text.append(digit_str(n % 10));
    proof {
        if n >= 10 {
            assert(text@ =~= before + decimal(n as nat));
        } else {
            assert(text@ =~= before + decimal(n as nat));
        }
    }
}

/// Appends the last `width` hexadecimal digits of `n`.
pub fn push_hex(text: &mut String, n: u64, width: usize)
    ensures
        final(text)@ == old(text)@ + hex(n as nat, width as nat),
    decreases width,
{
    let ghost before = text@;
    if width > 0 {
        push_hex(text, n / 16, width - 1);
        text.append(digit_str(n % 16));
    }
    assert(text@ =~= before + hex(n as nat, width as nat));
}

/// `n` in hexadecimal, without leading zeros.
pub open spec fn hexadecimal(n: nat) -> Seq<char>
    decreases n,
{
    if n < 16 {
        seq![digit_char(n as int)]
    } else {
        hexadecimal(n / 16).push(digit_char((n % 16) as int))
    }
}

/// A number that may be negative, in decimal.
pub open spec fn signed_decimal(n: int) -> Seq<char> {
    if n < 0 { "-"@ + decimal((-n) as nat) } else { decimal(n as nat) }
}

/// Appends `n` in hexadecimal.
pub fn push_hexadecimal(text: &mut String, n: u64)
    ensures
        final(text)@ == old(text)@ + hexadecimal(n as nat),
    decreases n,
{
    let ghost before = text@;
    if n >= 16 {
        push_hexadecimal(text, n / 16);
    }
    text.append(digit_str(n % 16));
    assert(text@ =~= before + hexadecimal(n as nat));
}

/// Appends a number that may be negative, in decimal.
pub fn push_signed(text: &mut String, n: i32)
    ensures
        final(text)@ == old(text)@ + signed_decimal(n as int),
{
    let ghost before = text@;
    if n < 0 {
        text.append("-");
        push_decimal(text, (-(n as i64)) as u64);
    } else {
        push_decimal(text, n as u64);
    }
    assert(text@ =~= before + signed_decimal(n as int));
}

/// An owned copy of a piece of text.
pub fn owned(text: &str) -> (s: String)
    ensures
        s@ == text@,
{
    text.to_owned()
}

/// Decimal numbers are read back unambiguously: different numbers have different texts.
pub proof fn decimal_injective(a: nat, b: nat)
    requires
        decimal(a) == decimal(b),
    ensures
        a == b,
    decreases a + b,
{
    lemma_digit_char_injective((a % 10) as int, (b % 10) as int);
    if a < 10 && b < 10 {
        assert(decimal(a)[0] == digit_char(a as int));
        assert(decimal(b)[0] == digit_char(b as int));
        lemma_digit_char_injective(a as int, b as int);
    } else if a >= 10 && b >= 10 {
        assert(decimal(a).drop_last() =~= decimal(a / 10));
        assert(decimal(b).drop_last() =~= decimal(b / 10));
        assert(decimal(a).last() == digit_char((a % 10) as int));
        assert(decimal(b).last() == digit_char((b % 10) as int));
        decimal_injective(a / 10, b / 10);
    } else {
        lemma_decimal_nonempty(a / 10);
        lemma_decimal_nonempty(b / 10);
        if a < 10 {
            assert(decimal(a).len() == 1);
            assert(decimal(b).len() == decimal(b / 10).len() + 1);
        } else {
            assert(decimal(b).len() == 1);
            assert(decimal(a).len() == decimal(a / 10).len() + 1);
        }
    }
}

proof fn lemma_digit_char_injective(a: int, b: int)
    ensures
        0 <= a < 16 && 0 <= b < 16 && digit_char(a) == digit_char(b) ==> a == b,
{
}

proof fn lemma_decimal_nonempty(n: nat)
    ensures
        decimal(n).len() > 0,
    decreases n,
{
    if n >= 10 {
        lemma_decimal_nonempty(n / 10);
    }
}

/// The value of a decimal digit.
pub open spec fn digit_value(c: char) -> Option<nat> {
    if '0' <= c && c <= '9' { Some((c as int - '0' as int) as nat) } else { None }
}

/// The number that decimal digits stand for, if all characters are digits.
pub open spec fn digits_value(digits: Seq<char>) -> Option<nat>
    decreases digits.len(),
{
    if digits.len() == 0 {
        Some(0)
    } else {
        match (digits_value(digits.drop_last()), digit_value(digits.last())) {
            (Some(high), Some(low)) => Some(high * 10 + low),
            _ => None,
        }
    }
}

/// The number that a text stands for: decimal digits, at least one, perhaps behind a plus
/// sign, with a value of at most `max`.
pub open spec fn parsed(text: Seq<char>, max: nat) -> Option<nat> {
    let digits = if text.len() > 0 && text[0] == '+' { text.skip(1) } else { text };
    if digits.len() == 0 {
        None
    } else {
        match digits_value(digits) {
            Some(n) => if n <= max { Some(n) } else { None },
            None => None,
        }
    }
}

proof fn lemma_digits_prefix(digits: Seq<char>, n: int)
    requires
        0 <= n <= digits.len(),
    ensures
        digits_value(digits.take(n)) is None ==> digits_value(digits) is None,
        digits_value(digits) is Some ==> digits_value(digits.take(n)) is Some
            && digits_value(digits.take(n))->0 <= digits_value(digits)->0,
    decreases digits.len() - n,
{
    if n < digits.len() {
        lemma_digits_prefix(digits, n + 1);
        assert(digits.take(n + 1).drop_last() =~= digits.take(n));
    } else {
        assert(digits.take(n) =~= digits);
    }
}

/// Reads a number.
pub fn parse(text: &str, max: u64) -> (r: Option<u64>)
    ensures
        match parsed(text@, max as nat) {
            Some(n) => r == Some(n as u64),
            None => r is None,
        },
{
    let len: usize = text.unicode_len();
    let skip: usize = if len > 0 && text.get_char(0) == '+' { 1 } else { 0 };
    let ghost digits = if text@.len() > 0 && text@[0] == '+' { text@.skip(1) } else { text@ };
    assert(digits =~= text@.skip(skip as int));
    if len == skip {
        return None;
    }
    let mut n: u64 = 0;
    let mut i: usize = skip;
    assert(digits.take(0) =~= Seq::<char>::empty());
    while i < len
        invariant
            skip <= i <= len == text@.len(),
            digits == text@.skip(skip as int),
            parsed(text@, max as nat) == (match digits_value(digits) {
                Some(n) => if n <= max { Some(n) } else { None },
                None => None,
            }),
            digits_value(digits.take(i - skip)) == Some(n as nat),
            n <= max,
        decreases len - i,
    {
        let c: char = text.get_char(i);
        proof {
            assert(digits.take(i - skip + 1).drop_last() =~= digits.take(i - skip));
            assert(digits.take(i - skip + 1).last() == c);
            lemma_digits_prefix(digits, i - skip + 1);
        }
        if !('0' <= c && c <= '9') {
            return None;
        }
        let low: u64 = (c as u32 - '0' as u32) as u64;
        assert(digit_value(c) == Some(low as nat));
        match n.checked_mul(10) {
            Some(shifted) => match shifted.checked_add(low) {
                Some(next) => {
                    if next > max {
                        return None;
                    }
                    n = next;
                },
                None => {
                    return None;
                },
            },
            None => {
                return None;
            },
        }
        i = i + 1;
    }
    assert(digits.take(len - skip) =~= digits);
    Some(n)
}

/// Whether two texts agree up to `k`, where `a` ends or has the smaller character.
pub open spec fn falls_behind(a: Seq<char>, b: Seq<char>, k: int) -> bool {
    &&& 0 <= k <= a.len()
    &&& k < b.len()
    &&& forall|i: int| 0 <= i < k ==> #[trigger] a[i] == b[i]
    &&& k == a.len() || (a[k] as u32) < (b[k] as u32)
}

/// Whether `a` stands before `b` in the order of a dictionary.
pub open spec fn precedes(a: Seq<char>, b: Seq<char>) -> bool {
    exists|k: int| falls_behind(a, b, k)
}

/// The dictionary order is strict: no text stands before itself, of two texts at most one stands
/// before the other, and what stands before a text stands before all behind it.
pub proof fn precedes_is_strict_order(a: Seq<char>, b: Seq<char>, c: Seq<char>)
    ensures
        !precedes(a, a),
        precedes(a, b) && precedes(b, c) ==> precedes(a, c),
        precedes(a, b) ==> !precedes(b, a),
{
    if precedes(a, b) {
        let k = choose|k: int| falls_behind(a, b, k);
        if precedes(b, c) {
            let m = choose|m: int| falls_behind(b, c, m);
            if k <= m {
                assert(falls_behind(a, c, k));
            } else {
                assert(a[m] == b[m]);
                assert(falls_behind(a, c, m));
            }
        }
        if precedes(b, a) {
            let m = choose|m: int| falls_behind(b, a, m);
            if k < m {
                assert(b[k] == a[k]);
            } else if m < k {
                assert(a[m] == b[m]);
            }
        }
    }
}

/// Whether `a` stands before `b`. Of two texts that differ, one does.
pub fn text_precedes(a: &str, b: &str) -> (r: bool)
    ensures
        r == precedes(a@, b@),
        !r && a@ != b@ ==> precedes(b@, a@),
{
    let a_len: usize = a.unicode_len();
    let b_len: usize = b.unicode_len();
    let mut i: usize = 0;
    while i < a_len && i < b_len && a.get_char(i) == b.get_char(i)
        invariant
            i <= a_len == a@.len(),
            i <= b_len == b@.len(),
            forall|j: int| 0 <= j < i ==> #[trigger] a@[j] == b@[j],
        decreases a_len - i,
    {
        i = i + 1;
    }
    let r: bool = i < b_len && (i == a_len || (a.get_char(i) as u32) < (b.get_char(i) as u32));
    proof {
        if r {
            assert(falls_behind(a@, b@, i as int));
        } else {
            if i < a_len {
                assert(falls_behind(b@, a@, i as int));
                precedes_is_strict_order(b@, a@, a@);
            } else {
                assert(a@ =~= b@);
                precedes_is_strict_order(a@, a@, a@);
            }
        }
    }
    r
}

/// Whether a text is `1`, or `true` in any mix of large and small letters.
pub open spec fn reads_true(text: Seq<char>) -> bool {
    (text.len() == 1 && text[0] == '1') || {
        &&& text.len() == 4
        &&& text[0] == 't' || text[0] == 'T'
        &&& text[1] == 'r' || text[1] == 'R'
        &&& text[2] == 'u' || text[2] == 'U'
        &&& text[3] == 'e' || text[3] == 'E'
    }
}

/// Whether the part of a text from `from` up to `to` is `1` or `true`.
pub fn part_reads_true(text: &str, from: usize, to: usize) -> (b: bool)
    requires
        from <= to <= text@.len(),
    ensures
        b == reads_true(text@.subrange(from as int, to as int)),
{
    if to - from == 1 {
        return text.get_char(from) == '1';
    }
    if to - from != 4 {
        return false;
    }
    let c0: char = text.get_char(from);
    let c1: char = text.get_char(from + 1);
    let c2: char = text.get_char(from + 2);
    let c3: char = text.get_char(from + 3);
    (c0 == 't' || c0 == 'T') && (c1 == 'r' || c1 == 'R') && (c2 == 'u' || c2 == 'U') && (c3 == 'e'
        || c3 == 'E')
}

/// Whether a character is white space.
pub open spec fn is_space(c: char) -> bool {
    let n = c as u32;
    ||| 0x9 <= n <= 0xd
    ||| n == 0x20
    ||| n == 0x85
    ||| n == 0xa0
    ||| n == 0x1680
    ||| 0x2000 <= n <= 0x200a
    ||| n == 0x2028
    ||| n == 0x2029
    ||| n == 0x202f
    ||| n == 0x205f
    ||| n == 0x3000
}

fn char_is_space(c: char) -> (b: bool)
    ensures
        b == is_space(c),
{
    let n: u32 = c as u32;
    (0x9 <= n && n <= 0xd) || n == 0x20 || n == 0x85 || n == 0xa0 || n == 0x1680 || (0x2000 <= n
        && n <= 0x200a) || n == 0x2028 || n == 0x2029 || n == 0x202f || n == 0x205f || n == 0x3000
}

/// A text without white space at its beginning.
pub open spec fn trimmed_start(text: Seq<char>) -> Seq<char>
    decreases text.len(),
{
    if text.len() > 0 && is_space(text[0]) {
        trimmed_start(text.skip(1))
    } else {
        text
    }
}

/// A text without white space at its end.
pub open spec fn trimmed_end(text: Seq<char>) -> Seq<char>
    decreases text.len(),
{
    if text.len() > 0 && is_space(text.last()) {
        trimmed_end(text.drop_last())
    } else {
        text
    }
}

fn trim_start_at(text: &str) -> (from: usize)
    ensures
        from <= text@.len(),
        trimmed_start(text@) == text@.skip(from as int),
{
    let len: usize = text.unicode_len();
    let mut from: usize = 0;
    assert(text@.skip(0) =~= text@);
    while from < len && char_is_space(text.get_char(from))
        invariant
            from <= len == text@.len(),
            trimmed_start(text@) == trimmed_start(text@.skip(from as int)),
        decreases len - from,
    {
        assert(text@.skip(from as int).skip(1) =~= text@.skip(from + 1));
        from = from + 1;
    }
    from
}

fn trim_end_at(text: &str, from: usize) -> (to: usize)
    requires
        from <= text@.len(),
    ensures
        from <= to <= text@.len(),
        trimmed_end(text@.skip(from as int)) == text@.subrange(from as int, to as int),
{
    let len: usize = text.unicode_len();
    let mut to: usize = len;
    assert(text@.subrange(from as int, to as int) =~= text@.skip(from as int));
    while to > from && char_is_space(text.get_char(to - 1))
        invariant
            from <= to <= len == text@.len(),
            trimmed_end(text@.skip(from as int)) == trimmed_end(
                text@.subrange(from as int, to as int),
            ),
        decreases to,
    {
        assert(text@.subrange(from as int, to as int).drop_last() =~= text@.subrange(
            from as int,
            to - 1,
        ));
        to = to - 1;
    }
    to
}

/// Whether a text, without white space around it, is `1` or `true`.
pub fn trimmed_reads_true(text: &str) -> (b: bool)
    ensures
        b == reads_true(trimmed_end(trimmed_start(text@))),
{
    let from: usize = trim_start_at(text);
    let to: usize = trim_end_at(text, from);
    part_reads_true(text, from, to)
}

proof fn lemma_digit_value(d: int)
    requires
        0 <= d < 10,
    ensures
        digit_value(digit_char(d)) == Some(d as nat),
        digit_char(d) != '+',
{
}

proof fn lemma_digits_of_decimal(n: nat)
    ensures
        digits_value(decimal(n)) == Some(n),
        decimal(n).len() > 0,
        decimal(n)[0] != '+',
    decreases n,
{
    let all = decimal(n);
    if n < 10 {
        lemma_digit_value(n as int);
        assert(all.drop_last() =~= Seq::empty());
        assert(digits_value(all.drop_last()) == Some(0nat));
        assert(all.last() == digit_char(n as int));
    } else {
        lemma_digits_of_decimal(n / 10);
        lemma_digit_value((n % 10) as int);
        assert(all.drop_last() =~= decimal(n / 10));
        assert(all.last() == digit_char((n % 10) as int));
        assert(all[0] == decimal(n / 10)[0]);
    }
}

/// A number that is written is read back, as long as it is not too large; a plus sign before it
/// changes nothing.
pub proof fn written_numbers_are_read_back(n: nat, max: nat)
    ensures
        n <= max ==> parsed(decimal(n), max) == Some(n),
        n > max ==> parsed(decimal(n), max) is None,
        parsed(seq!['+'] + decimal(n), max) == parsed(decimal(n), max),
{
    lemma_digits_of_decimal(n);
    let signed = seq!['+'] + decimal(n);
    assert(signed.skip(1) =~= decimal(n));
}

proof fn lemma_other_characters(digits: Seq<char>, k: int)
    requires
        0 <= k < digits.len(),
        !('0' <= digits[k] && digits[k] <= '9'),
    ensures
        digits_value(digits) is None,
    decreases digits.len(),
{
    if k < digits.len() - 1 {
        assert(digits.drop_last()[k] == digits[k]);
        lemma_other_characters(digits.drop_last(), k);
    }
}

/// Nothing else is read as a number: no empty text, no sign alone, and no text with a character
/// that is not a digit, but for the sign before all others.
pub proof fn other_texts_are_no_numbers(text: Seq<char>, max: nat, k: int)
    ensures
        text.len() == 0 ==> parsed(text, max) is None,
        text == seq!['+'] ==> parsed(text, max) is None,
        0 < k < text.len() && !('0' <= text[k] && text[k] <= '9') ==> parsed(text, max) is None,
        text.len() > 0 && text[0] != '+' && !('0' <= text[0] && text[0] <= '9') ==> parsed(
            text,
            max,
        ) is None,
{
    let digits = if text.len() > 0 && text[0] == '+' { text.skip(1) } else { text };
    if 0 < k < text.len() && !('0' <= text[k] && text[k] <= '9') {
        if text[0] == '+' {
            assert(digits[k - 1] == text[k]);
            lemma_other_characters(digits, k - 1);
        } else {
            lemma_other_characters(digits, k);
        }
    }
    if text.len() > 0 && text[0] != '+' && !('0' <= text[0] && text[0] <= '9') {
        lemma_other_characters(digits, 0);
    }
}

/// Numbers that have the same hexadecimal digits, as many as they need, are the same.
pub proof fn hexadecimal_digits_tell_numbers_apart(a: nat, b: nat, width: nat)
    requires
        a < vstd::arithmetic::power::pow(16, width),
        b < vstd::arithmetic::power::pow(16, width),
        hex(a, width) == hex(b, width),
    ensures
        a == b,
    decreases width,
{
    vstd::arithmetic::power::lemma_pow0(16);
    if width > 0 {
        let less = (width - 1) as nat;
        vstd::arithmetic::power::lemma_pow_adds(16, 1, less);
        vstd::arithmetic::power::lemma_pow1(16);
        let p = vstd::arithmetic::power::pow(16, less);
        assert(a / 16 < p && b / 16 < p);
        assert(hex(a, width).drop_last() =~= hex(a / 16, less));
        assert(hex(b, width).drop_last() =~= hex(b / 16, less));
        assert(hex(a, width).last() == digit_char((a % 16) as int));
        assert(hex(b, width).last() == digit_char((b % 16) as int));
        lemma_digit_char_injective((a % 16) as int, (b % 16) as int);
        hexadecimal_digits_tell_numbers_apart(a / 16, b / 16, less);
    }
}

/// Trimming takes white space from both ends and nothing else: what it leaves is a part of the
/// text that neither begins nor ends with white space, and all around it is white space.
pub proof fn trimming_takes_white_space_only(text: Seq<char>) -> (at: (int, int))
    ensures
        ({
            let left = trimmed_end(trimmed_start(text));
            &&& 0 <= at.0 <= at.1 <= text.len()
            &&& left == text.subrange(at.0, at.1)
            &&& left.len() > 0 ==> !is_space(left[0]) && !is_space(left.last())
            &&& forall|i: int|
                0 <= i < at.0 || at.1 <= i < text.len() ==> is_space(#[trigger] text[i])
        }),
{
    let from = lemma_trimmed_start(text);
    let rest = text.skip(from);
    let to = lemma_trimmed_end(rest);
    let left = trimmed_end(rest);
    assert(left =~= text.subrange(from, from + to));
    assert forall|i: int| 0 <= i < from || from + to <= i < text.len() implies is_space(
        #[trigger] text[i],
    ) by {
        if i >= from {
            assert(rest[i - from] == text[i]);
        }
    }
    if left.len() > 0 {
        assert(left[0] == rest[0]);
    }
    (from, from + to)
}

proof fn lemma_trimmed_start(text: Seq<char>) -> (from: int)
    ensures
        0 <= from <= text.len(),
        trimmed_start(text) == text.skip(from),
        from < text.len() ==> !is_space(text[from]),
        forall|i: int| 0 <= i < from ==> is_space(#[trigger] text[i]),
    decreases text.len(),
{
    if text.len() > 0 && is_space(text[0]) {
        let rest = text.skip(1);
        let from = lemma_trimmed_start(rest);
        assert(rest.skip(from) =~= text.skip(from + 1));
        assert forall|i: int| 0 <= i < from + 1 implies is_space(#[trigger] text[i]) by {
            if i > 0 {
                assert(rest[i - 1] == text[i]);
            }
        }
        if from + 1 < text.len() {
            assert(rest[from] == text[from + 1]);
        }
        from + 1
    } else {
        assert(text.skip(0) =~= text);
        0
    }
}

proof fn lemma_trimmed_end(text: Seq<char>) -> (to: int)
    ensures
        0 <= to <= text.len(),
        trimmed_end(text) == text.take(to),
        to > 0 ==> !is_space(text[to - 1]),
        forall|i: int| to <= i < text.len() ==> is_space(#[trigger] text[i]),
    decreases text.len(),
{
    if text.len() > 0 && is_space(text.last()) {
        let rest = text.drop_last();
        let to = lemma_trimmed_end(rest);
        assert(rest.take(to) =~= text.take(to));
        assert forall|i: int| to <= i < text.len() implies is_space(#[trigger] text[i]) by {
            if i < rest.len() {
                assert(rest[i] == text[i]);
            }
        }
        to
    } else {
        assert(text.take(text.len() as int) =~= text);
        text.len() as int
    }
}

/// Digits are written from the highest to the lowest: one more digit at the end is ten times the
/// number, or sixteen times, and the digit.
pub proof fn digits_are_written_in_order(n: nat, d: nat, width: nat)
    ensures
        d < 10 ==> decimal(d) == seq![digit_char(d as int)],
        d < 10 && n > 0 ==> decimal(n * 10 + d) == decimal(n).push(digit_char(d as int)),
        d < 16 ==> hexadecimal(d) == seq![digit_char(d as int)],
        d < 16 && n > 0 ==> hexadecimal(n * 16 + d) == hexadecimal(n).push(digit_char(d as int)),
        hex(n, 0) == Seq::<char>::empty(),
        d < 16 ==> hex(n * 16 + d, width + 1) == hex(n, width).push(digit_char(d as int)),
        hex(n, width).len() == width,
    decreases width,
{
    if width > 0 {
        digits_are_written_in_order(n / 16, n % 16, (width - 1) as nat);
    }
}

/// The digits are the ten numerals and the first six small letters, in this order.
pub proof fn digits_follow_each_other(d: int)
    ensures
        0 <= d < 10 ==> digit_char(d) as int == '0' as int + d,
        10 <= d < 16 ==> digit_char(d) as int == 'a' as int + d - 10,
        0 <= d < 10 ==> digit_value(digit_char(d)) == Some(d as nat),
{
}

/// What reads as true is the numeral one, or four letters that spell the word, each large or
/// small.
pub proof fn true_is_spelled_out(text: Seq<char>)
    ensures
        reads_true(seq!['1']),
        reads_true(text) ==> text.len() == 1 || text.len() == 4,
        text.len() == 1 ==> (reads_true(text) <==> text[0] == '1'),
        text.len() == 4 ==> (reads_true(text) <==> {
            &&& text[0] as int == 't' as int || text[0] as int == 't' as int - 32
            &&& text[1] as int == 'r' as int || text[1] as int == 'r' as int - 32
            &&& text[2] as int == 'u' as int || text[2] as int == 'u' as int - 32
            &&& text[3] as int == 'e' as int || text[3] as int == 'e' as int - 32
        }),
{
}

/// Of two texts that differ, one stands before the other: the one that ends first, where the
/// other one goes on, or else the one with the smaller character where they first differ.
pub proof fn dictionaries_order_all_texts(a: Seq<char>, b: Seq<char>, k: int)
    requires
        0 <= k <= a.len(),
        0 <= k <= b.len(),
        forall|i: int| 0 <= i < k ==> #[trigger] a[i] == b[i],
    ensures
        k == a.len() && k < b.len() ==> precedes(a, b) && !precedes(b, a),
        k == b.len() && k < a.len() ==> precedes(b, a) && !precedes(a, b),
        k < a.len() && k < b.len() && (a[k] as u32) < (b[k] as u32) ==> precedes(a, b) && !precedes(
            b,
            a,
        ),
{
    if k < b.len() && (k == a.len() || (a[k] as u32) < (b[k] as u32)) {
        assert(falls_behind(a, b, k));
        precedes_is_strict_order(a, b, a);
    }
    if k == b.len() && k < a.len() {
        assert forall|i: int| 0 <= i < k implies #[trigger] b[i] == a[i] by {
            assert(a[i] == b[i]);
        }
        assert(falls_behind(b, a, k));
        precedes_is_strict_order(b, a, b);
    }
}

/// A negative number is its positive counterpart behind a sign.
pub proof fn negative_numbers_have_a_sign(n: int)
    ensures
        n >= 0 ==> signed_decimal(n) == decimal(n as nat),
        n < 0 ==> signed_decimal(n) == "-"@ + decimal((-n) as nat),
{
}

} // verus!
