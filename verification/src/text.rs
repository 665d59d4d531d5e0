//! Character-level helpers: segments, affixes, trimming and decimal numbers.

use vstd::prelude::*;

verus! {

/// `String::push` appends one character at the end of the string.
pub assume_specification[ String::push ](s: &mut String, c: char)
    ensures
        final(s)@ == old(s)@.push(c),
;

/// The part of `s` behind its last `:` that is no part of a `::`; all of `s` where
/// there is none. Of three in a row the last two are the `::`.
pub open spec fn after_last_single_colon(s: Seq<char>) -> Seq<char>
    decreases s.len(),
{
    if s.len() == 0 {
        s
    } else if s.last() == ':' && s.len() >= 2 && s[s.len() - 2] == ':' {
        after_last_single_colon(s.take(s.len() - 2)) + seq![':', ':']
    } else if s.last() == ':' {
        Seq::empty()
    } else {
        after_last_single_colon(s.drop_last()).push(s.last())
    }
}

/// The part of `s` behind its last `::`; all of `s` where `::` does not occur.
pub open spec fn after_last_path_sep(s: Seq<char>) -> Seq<char>
    decreases s.len(),
{
    if s.len() < 2 {
        s
    } else if s.last() == ':' && s[s.len() - 2] == ':' {
        Seq::empty()
    } else {
        after_last_path_sep(s.drop_last()).push(s.last())
    }
}

/// Whether `c` has the Unicode property White_Space.
pub open spec fn is_white_space(c: char) -> bool {
    ||| '\u{9}' <= c <= '\u{d}'
    ||| c == ' '
    ||| c == '\u{85}'
    ||| c == '\u{a0}'
    ||| c == '\u{1680}'
    ||| '\u{2000}' <= c <= '\u{200a}'
    ||| c == '\u{2028}'
    ||| c == '\u{2029}'
    ||| c == '\u{202f}'
    ||| c == '\u{205f}'
    ||| c == '\u{3000}'
}

/// `s` without the white space at its two ends.
pub open spec fn trimmed(s: Seq<char>) -> Seq<char>
    decreases s.len(),
{
    if s.len() > 0 && is_white_space(s.first()) {
        trimmed(s.drop_first())
    } else if s.len() > 0 && is_white_space(s.last()) {
        trimmed(s.drop_last())
    } else {
        s
    }
}

/// Whether `s` is one decimal digit or more, and nothing else.
pub open spec fn is_digits(s: Seq<char>) -> bool {
    &&& s.len() > 0
    &&& forall|i: int| 0 <= i < s.len() ==> '0' <= #[trigger] s[i] <= '9'
}

/// The number that the decimal digits `s` spell.
pub open spec fn digits_value(s: Seq<char>) -> nat
    decreases s.len(),
{
    if s.len() == 0 {
        0
    } else {
        (10 * digits_value(s.drop_last()) + (s.last() as int - '0' as int)) as nat
    }
}

/// The number that `s` spells: decimal digits behind at most one sign.
pub open spec fn signed_value(s: Seq<char>) -> Option<int> {
    if is_digits(s) {
        Some(digits_value(s) as int)
    } else if s.len() > 0 && s[0] == '+' && is_digits(s.drop_first()) {
        Some(digits_value(s.drop_first()) as int)
    } else if s.len() > 0 && s[0] == '-' && is_digits(s.drop_first()) {
        Some(-(digits_value(s.drop_first()) as int))
    } else {
        None
    }
}

/// The number that `s` spells where it is in the range of `i64`.
pub open spec fn i64_value(s: Seq<char>) -> Option<i64> {
    match signed_value(s) {
        Some(v) => if i64::MIN <= v <= i64::MAX {
            Some(v as i64)
        } else {
            None
        },
        None => None,
    }
}

/// The decimal digit of `d`.
pub open spec fn digit(d: nat) -> char {
    ('0' as int + d) as char
}

/// The decimal digits of `n`, without leading zeros.
pub open spec fn decimal(n: nat) -> Seq<char>
    decreases n,
{
    if n < 10 {
        seq![digit(n)]
    } else {
        decimal(n / 10).push(digit(n % 10))
    }
}

/// The decimal digits of `n` with a comma before every group of three.
pub open spec fn grouped(n: nat) -> Seq<char>
    decreases n,
{
    if n < 1000 {
        decimal(n)
    } else {
        grouped(n / 1000) + seq![',', digit(n / 100 % 10), digit(n / 10 % 10), digit(n % 10)]
    }
}

/// `grouped` for a signed number: a minus sign stands before a negative one.
pub open spec fn signed_grouped(n: int) -> Seq<char> {
    if n < 0 {
        seq!['-'] + grouped((-n) as nat)
    } else {
        grouped(n as nat)
    }
}

/// The characters of `s`.
pub fn chars_of(s: &str) -> (chars: Vec<char>)
    ensures
        chars@ == s@,
{
    let mut chars: Vec<char> = Vec::new();
    for c in it: s.chars()
        invariant
            chars@ == it.seq().take(it.index() as int),
            it.seq() == s@,
    {
        chars.push(c);
    }
    chars
}

/// Whether the two strings hold the same characters.
pub fn same_text(a: &str, b: &str) -> (r: bool)
    ensures
        r == (a@ == b@),
{
    let x: Vec<char> = chars_of(a);
    let y: Vec<char> = chars_of(b);
    assert(x@.subrange(0, x@.len() as int) =~= x@);
    x.len() == y.len() && ends_with(&x, &y)
}

/// Whether `tail` stands at the end of `s`.
pub fn ends_with(s: &Vec<char>, tail: &Vec<char>) -> (r: bool)
    ensures
        r == tail@.is_suffix_of(s@),
{
    if tail.len() > s.len() {
        return false;
    }
    let base: usize = s.len() - tail.len();
    let mut i: usize = 0;
    while i < tail.len()
        invariant
            i <= tail.len(),
            base + tail.len() == s.len(),
            forall|k: int| 0 <= k < i ==> #[trigger] tail@[k] == s@[base + k],
        decreases tail.len() - i,
    {
        if tail[i] != s[base + i] {
            assert(tail@[i as int] != s@.subrange(base as int, s@.len() as int)[i as int]);
            return false;
        }
        i += 1;
    }
    assert(tail@ =~= s@.subrange(base as int, s@.len() as int));
    true
}

/// Whether `c` occurs in `s`.
pub fn has_char(s: &Vec<char>, c: char) -> (r: bool)
    ensures
        r == s@.contains(c),
{
    let mut i: usize = 0;
    while i < s.len()
        invariant
            i <= s.len(),
            forall|k: int| 0 <= k < i ==> s@[k] != c,
        decreases s.len() - i,
    {
        if s[i] == c {
            assert(s@[i as int] == c);
            return true;
        }
        i += 1;
    }
    false
}

/// `s` without the white space at its two ends.
pub fn trim(s: &str) -> (r: &str)
    ensures
        r@ == trimmed(s@),
{
    let chars: Vec<char> = chars_of(s);
    let mut from: usize = 0;
    let mut to: usize = chars.len();
    assert(s@.subrange(0, to as int) =~= s@);
    while from < to && white_space(chars[from])
        invariant
            from <= to == chars.len(),
            chars@ == s@,
            trimmed(s@) == trimmed(s@.subrange(from as int, to as int)),
        decreases to - from,
    {
        assert(s@.subrange(from as int, to as int).drop_first() =~= s@.subrange(
            from + 1,
            to as int,
        ));
        from += 1;
    }
    while from < to && white_space(chars[to - 1])
        invariant
            from <= to <= chars.len(),
            chars@ == s@,
            from < to ==> !is_white_space(s@[from as int]),
            trimmed(s@) == trimmed(s@.subrange(from as int, to as int)),
        decreases to - from,
    {
        assert(s@.subrange(from as int, to as int).drop_last() =~= s@.subrange(
            from as int,
            to - 1,
        ));
        to -= 1;
    }
    s.substring_char(from, to)
}

/// Whether `c` has the Unicode property White_Space.
pub fn white_space(c: char) -> (r: bool)
    ensures
        r == is_white_space(c),
{
    ('\u{9}' <= c && c <= '\u{d}') || c == ' ' || c == '\u{85}' || c == '\u{a0}' || c == '\u{1680}'
        || ('\u{2000}' <= c && c <= '\u{200a}') || c == '\u{2028}' || c == '\u{2029}' || c
        == '\u{202f}' || c == '\u{205f}' || c == '\u{3000}'
}

/// Whether all of `s` from `from` on is decimal digits, and at least one.
fn digits_from(s: &Vec<char>, from: usize) -> (r: bool)
    requires
        from <= s.len(),
    ensures
        r == is_digits(s@.skip(from as int)),
{
    let mut i: usize = from;
    while i < s.len()
        invariant
            from <= i <= s.len(),
            forall|k: int| from <= k < i ==> '0' <= #[trigger] s@[k] <= '9',
        decreases s.len() - i,
    {
        if s[i] < '0' || s[i] > '9' {
            assert(s@.skip(from as int)[i - from] == s@[i as int]);
            return false;
        }
        i += 1;
    }
    from < s.len()
}

/// The longer of two runs of digits that start alike spells no smaller number.
proof fn lemma_digits_value_grows(s: Seq<char>, k: int)
    requires
        is_digits(s),
        0 <= k <= s.len(),
    ensures
        digits_value(s.take(k)) <= digits_value(s),
    decreases s.len() - k,
{
    if k < s.len() {
        lemma_digits_value_grows(s, k + 1);
        assert(s.take(k + 1).drop_last() =~= s.take(k));
        assert('0' <= s[k] <= '9');
    } else {
        assert(s.take(k) =~= s);
    }
}

/// Reads a decimal number: an optional sign, then one digit or more.
///
/// `None` where `s` is no such number or is out of the range of `i64`.
pub fn parse_i64(s: &str) -> (r: Option<i64>)
    ensures
        r == i64_value(s@),
{
    let chars: Vec<char> = chars_of(s);
    assert(s@.skip(0) =~= s@);
    let signed: bool = chars.len() > 0 && (chars[0] == '+' || chars[0] == '-');
    let negative: bool = chars.len() > 0 && chars[0] == '-';
    let from: usize = if signed {
        1
    } else {
        0
    };
    let ghost run = s@.skip(from as int);
    proof {
        if signed {
            assert(run =~= s@.drop_first());
            assert(!is_digits(s@)) by {
                assert(!('0' <= s@[0] <= '9'));
            }
        }
    }
    if !digits_from(&chars, from) {
        return None;
    }
    let mut value: i128 = 0;
    let mut i: usize = from;
    assert(run.take(0) =~= Seq::<char>::empty());
    while i < chars.len()
        invariant
            from <= i <= chars.len(),
            chars@ == s@,
            run == s@.skip(from as int),
            is_digits(run),
            value == digits_value(run.take(i - from)),
            0 <= value <= 0x8000_0000_0000_0000,
            signed_value(s@) == Some(
                if negative {
                    -(digits_value(run) as int)
                } else {
                    digits_value(run) as int
                },
            ),
        decreases chars.len() - i,
    {
        assert('0' <= run[i - from] <= '9');
        let d: u32 = chars[i] as u32 - '0' as u32;
        assert(run.take(i + 1 - from).drop_last() =~= run.take(i - from));
        value = value * 10 + d as i128;
        if value > 0x8000_0000_0000_0000 {
            proof {
                lemma_digits_value_grows(run, i + 1 - from);
            }
            return None;
        }
        i += 1;
    }
    assert(run.take(i - from) =~= run);
    let result: i128 = if negative {
        -value
    } else {
        value
    };
    if result > i64::MAX as i128 {
        None
    } else {
        Some(result as i64)
    }
}

/// The decimal digit of `d`.
fn digit_char(d: u64) -> (c: char)
    requires
        d < 10,
    ensures
        c == digit(d as nat),
{
    ('0' as u8 + d as u8) as char
}

/// Appends the decimal digit of `d` to `out`.
pub fn push_digit(out: &mut String, d: u64)
    requires
        d < 10,
    ensures
        final(out)@ == old(out)@.push(digit(d as nat)),
{
    out.push(digit_char(d));
}

/// Appends the decimal digits of `n` to `out`.
pub fn push_decimal(out: &mut String, n: u64)
    ensures
        final(out)@ == old(out)@ + decimal(n as nat),
    decreases n,
{
    if n >= 10 {
        push_decimal(out, n / 10);
    }
    push_digit(out, n % 10);
    assert(out@ =~= old(out)@ + decimal(n as nat));
}

/// Appends the decimal digits of `n`, grouped by threes, to `out`.
pub fn push_grouped(out: &mut String, n: u64)
    ensures
        final(out)@ == old(out)@ + grouped(n as nat),
    decreases n,
{
    if n < 1000 {
        push_decimal(out, n);
    } else {
        push_grouped(out, n / 1000);
        out.push(',');
        push_digit(out, n / 100 % 10);
        push_digit(out, n / 10 % 10);
        push_digit(out, n % 10);
        assert(out@ =~= old(out)@ + grouped(n as nat));
    }
}

/// Appends `n`, its digits grouped by threes, to `out`.
pub fn push_signed_grouped(out: &mut String, n: i64)
    ensures
        final(out)@ == old(out)@ + signed_grouped(n as int),
{
    if n < 0 {
        out.push('-');
        push_grouped(out, (-(n as i128)) as u64);
        assert(out@ =~= old(out)@ + signed_grouped(n as int));
    } else {
        push_grouped(out, n as u64);
    }
}

/// The part of `s` behind its last `:` that is no part of a `::`.
pub fn segment_after_single_colon(s: &str) -> (r: &str)
    ensures
        r@ == after_last_single_colon(s@),
{
    let chars: Vec<char> = chars_of(s);
    let n: usize = chars.len();
    let mut i: usize = n;
    assert(s@.take(n as int) =~= s@);
    while i > 0 && !(chars[i - 1] == ':' && (i < 2 || chars[i - 2] != ':'))
        invariant
            i <= n,
            n == chars.len(),
            chars@ == s@,
            after_last_single_colon(s@) =~= after_last_single_colon(s@.take(i as int)) + s@.skip(
                i as int,
            ),
        decreases i,
    {
        let ghost head = s@.take(i as int);
        if chars[i - 1] == ':' {
            i -= 2;
            assert(head.take(head.len() - 2) =~= s@.take(i as int));
            assert(seq![':', ':'] + s@.skip(i + 2) =~= s@.skip(i as int));
        } else {
            i -= 1;
            assert(head.drop_last() =~= s@.take(i as int));
            assert(seq![head.last()] + s@.skip(i + 1) =~= s@.skip(i as int));
        }
    }
    assert(after_last_single_colon(s@.take(i as int)).len() == 0);
    s.substring_char(i, n)
}

/// The part of `s` behind its last `::`.
pub fn segment_after_path_sep(s: &str) -> (r: &str)
    ensures
        r@ == after_last_path_sep(s@),
{
    let chars: Vec<char> = chars_of(s);
    let n: usize = chars.len();
    let mut i: usize = n;
    assert(s@.take(n as int) =~= s@);
    while i >= 2 && !(chars[i - 1] == ':' && chars[i - 2] == ':')
        invariant
            i <= n,
            n == chars.len(),
            chars@ == s@,
            after_last_path_sep(s@) =~= after_last_path_sep(s@.take(i as int)) + s@.skip(i as int),
        decreases i,
    {
        let ghost head = s@.take(i as int);
        i -= 1;
        assert(head.drop_last() =~= s@.take(i as int));
        assert(seq![head.last()] + s@.skip(i + 1) =~= s@.skip(i as int));
    }
    if i < 2 {
        assert(s@.take(i as int) + s@.skip(i as int) =~= s@);
        s
    } else {
        s.substring_char(i, n)
    }
}

/// What stands behind a single `:` is found again where it holds no single `:`.
pub proof fn lemma_behind_single_colon(head: Seq<char>, tail: Seq<char>)
    requires
        head.len() > 0,
        head.last() == ':',
        head.len() >= 2 ==> head[head.len() - 2] != ':',
        after_last_single_colon(tail) == tail,
    ensures
        after_last_single_colon(head + tail) == tail,
    decreases tail.len(),
{
    let s = head + tail;
    if tail.len() == 0 {
        assert(s =~= head);
    } else if tail.last() == ':' {
        let front = tail.take(tail.len() - 2);
        let kept = after_last_single_colon(front);
        assert((kept + seq![':', ':']).take(kept.len() as int) =~= kept);
        assert(front =~= kept);
        lemma_behind_single_colon(head, front);
        assert(s.take(s.len() - 2) =~= head + front);
        assert(front + seq![':', ':'] =~= tail);
    } else {
        let front = tail.drop_last();
        let kept = after_last_single_colon(front);
        assert(kept.push(tail.last()).drop_last() =~= kept);
        lemma_behind_single_colon(head, front);
        assert(s.drop_last() =~= head + front);
        assert(front.push(tail.last()) =~= tail);
    }
}

/// White space is the twenty-five characters with that property, by code point.
pub proof fn white_space_by_code_point(c: char)
    ensures
        is_white_space(c) <==> {
            let n = c as int;
            ||| 9 <= n <= 13
            ||| n == 32 || n == 133 || n == 160 || n == 5760
            ||| 8192 <= n <= 8202
            ||| n == 8232 || n == 8233 || n == 8239 || n == 8287 || n == 12288
        },
{
}

/// Trimming cuts a text to the part from `ends.0` to `ends.1`: all before and all
/// behind is white space, and neither end of the part is.
pub proof fn trimming_cuts_only_white_space(s: Seq<char>) -> (ends: (int, int))
    ensures
        0 <= ends.0 <= ends.1 <= s.len(),
        trimmed(s) == s.subrange(ends.0, ends.1),
        forall|i: int| 0 <= i < ends.0 ==> is_white_space(#[trigger] s[i]),
        forall|i: int| ends.1 <= i < s.len() ==> is_white_space(#[trigger] s[i]),
        ends.0 < ends.1 ==> !is_white_space(s[ends.0]) && !is_white_space(s[ends.1 - 1]),
        ends.0 == ends.1 ==> forall|i: int| 0 <= i < s.len() ==> is_white_space(#[trigger] s[i]),
    decreases s.len(),
{
    if s.len() > 0 && is_white_space(s.first()) {
        let rest = s.drop_first();
        let inner = trimming_cuts_only_white_space(rest);
        assert forall|i: int| 1 <= i < s.len() implies rest[i - 1] == #[trigger] s[i] by {}
        assert(s.subrange(inner.0 + 1, inner.1 + 1) =~= rest.subrange(inner.0, inner.1));
        (inner.0 + 1, inner.1 + 1)
    } else if s.len() > 0 && is_white_space(s.last()) {
        let rest = s.drop_last();
        let inner = trimming_cuts_only_white_space(rest);
        assert forall|i: int| 0 <= i < s.len() - 1 implies rest[i] == #[trigger] s[i] by {}
        assert(s.subrange(inner.0, inner.1) =~= rest.subrange(inner.0, inner.1));
        inner
    } else {
        assert(s.subrange(0, s.len() as int) =~= s);
        (0, s.len() as int)
    }
}

/// Digits are the characters from `0` to `9`, and a digit at the end of a number
/// adds itself to ten times the number before it.
pub proof fn digits_spell_a_number(s: Seq<char>, d: nat)
    requires
        d < 10,
    ensures
        is_digits(s) <==> s.len() > 0 && forall|i: int|
            0 <= i < s.len() ==> 48 <= (#[trigger] s[i]) as int <= 57,
        digit(d) as int == 48 + d,
        digits_value(Seq::empty()) == 0,
        digits_value(s.push(digit(d))) == 10 * digits_value(s) + d,
{
    assert(s.push(digit(d)).drop_last() =~= s);
}

/// The digits of a number spell that number, and do not start with a needless zero.
pub proof fn decimal_reads_back(n: nat)
    ensures
        is_digits(decimal(n)),
        digits_value(decimal(n)) == n,
        n > 0 ==> decimal(n)[0] != '0',
        n == 0 ==> decimal(n).len() == 1,
    decreases n,
{
    if n < 10 {
        digits_spell_a_number(Seq::empty(), n);
        assert(Seq::<char>::empty().push(digit(n)) =~= decimal(n));
    } else {
        decimal_reads_back(n / 10);
        digits_spell_a_number(decimal(n / 10), n % 10);
        let head = decimal(n / 10);
        assert forall|i: int| 0 <= i < head.len() + 1 implies '0' <= #[trigger] decimal(n)[i]
            <= '9' by {
            if i < head.len() {
                assert('0' <= head[i] <= '9');
            }
        }
    }
}

/// A text is read as a number exactly where it is digits behind at most one sign and
/// in the range of 64 bits; then it is the number that it spells.
pub proof fn numbers_are_read_exactly(s: Seq<char>)
    ensures
        is_digits(s) ==> i64_value(s) == (if digits_value(s) <= 0x7fff_ffff_ffff_ffff {
            Some(digits_value(s) as i64)
        } else {
            None
        }),
        is_digits(s) ==> i64_value(seq!['+'] + s) == i64_value(s),
        is_digits(s) ==> i64_value(seq!['-'] + s) == (if digits_value(s)
            <= 0x8000_0000_0000_0000 {
            Some((-digits_value(s)) as i64)
        } else {
            None
        }),
        i64_value(s) is Some ==> is_digits(s) || (s.len() > 1 && (s[0] == '+' || s[0] == '-')
            && is_digits(s.drop_first())),
{
    let plus = seq!['+'] + s;
    let minus = seq!['-'] + s;
    assert(plus.drop_first() =~= s);
    assert(minus.drop_first() =~= s);
    assert(!('0' <= plus[0] <= '9'));
    assert(!('0' <= minus[0] <= '9'));
}

/// A filter keeps all of a text whose characters it keeps.
proof fn lemma_filter_all(s: Seq<char>, keep: spec_fn(char) -> bool)
    requires
        forall|i: int| 0 <= i < s.len() ==> keep(#[trigger] s[i]),
    ensures
        s.filter(keep) == s,
    decreases s.len(),
{
    reveal(Seq::filter);
    if s.len() > 0 {
        assert(forall|i: int| 0 <= i < s.len() - 1 ==> s.drop_last()[i] == s[i]);
        assert(keep(s[s.len() - 1]));
        lemma_filter_all(s.drop_last(), keep);
        assert(s.drop_last().push(s.last()) =~= s);
    }
}

/// A filter on a text with one character more.
proof fn lemma_filter_push(s: Seq<char>, c: char, keep: spec_fn(char) -> bool)
    ensures
        s.push(c).filter(keep) == (if keep(c) {
            s.filter(keep).push(c)
        } else {
            s.filter(keep)
        }),
{
    reveal(Seq::filter);
    assert(s.push(c).drop_last() =~= s);
}

/// Grouping adds commas to the digits and nothing else: without them the digits of
/// the number are left, and a comma stands exactly before each third digit from the
/// right, where a digit stands before it.
pub proof fn grouping_only_adds_commas(n: nat)
    ensures
        grouped(n).filter(|c: char| c != ',') == decimal(n),
        forall|i: int|
            0 <= i < grouped(n).len() ==> ((#[trigger] grouped(n)[i] == ',') <==> (grouped(n).len()
                - i) % 4 == 0),
        grouped(n).len() % 4 != 0,
    decreases n,
{
    let keep = |c: char| c != ',';
    decimal_reads_back(n);
    let d = decimal(n);
    if n < 1000 {
        assert forall|i: int| 0 <= i < d.len() implies keep(#[trigger] d[i]) by {
            assert('0' <= d[i] <= '9');
        }
        lemma_filter_all(d, keep);
        reveal_with_fuel(decimal, 4);
        assert forall|i: int| 0 <= i < d.len() implies (#[trigger] d[i] == ',') == ((d.len() - i)
            % 4 == 0) by {
            assert('0' <= d[i] <= '9');
        }
    } else {
        grouping_only_adds_commas(n / 1000);
        let head = grouped(n / 1000);
        let a = digit(n / 100 % 10);
        let b = digit(n / 10 % 10);
        let c = digit(n % 10);
        let one = head.push(',');
        let two = one.push(a);
        let three = two.push(b);
        let four = three.push(c);
        assert(four =~= grouped(n));
        digits_spell_a_number(Seq::empty(), n / 100 % 10);
        digits_spell_a_number(Seq::empty(), n / 10 % 10);
        digits_spell_a_number(Seq::empty(), n % 10);
        lemma_filter_push(head, ',', keep);
        lemma_filter_push(one, a, keep);
        lemma_filter_push(two, b, keep);
        lemma_filter_push(three, c, keep);
        lemma_last_three_digits(n);
        assert forall|i: int| 0 <= i < four.len() implies (#[trigger] four[i] == ',') == ((
        four.len() - i) % 4 == 0) by {
            if i < head.len() {
                assert(four[i] == head[i]);
            }
        }
    }
}

/// The last three digits of a number.
proof fn lemma_last_three_digits(n: nat)
    requires
        n >= 1000,
    ensures
        decimal(n) == decimal(n / 1000).push(digit(n / 100 % 10)).push(digit(n / 10 % 10)).push(
            digit(n % 10),
        ),
{
    assert(n / 10 / 10 == n / 100);
    assert(n / 100 / 10 == n / 1000);
    assert(decimal(n / 10) == decimal(n / 100).push(digit(n / 10 % 10)));
    assert(decimal(n / 100) == decimal(n / 1000).push(digit(n / 100 % 10)));
}

/// A minus sign stands before a negative number; all else is its size.
pub proof fn signed_grouping_shows_the_sign(n: int)
    ensures
        n >= 0 ==> signed_grouped(n) == grouped(n as nat),
        n < 0 ==> signed_grouped(n).len() == grouped((-n) as nat).len() + 1 && signed_grouped(n)[0]
            == '-' && signed_grouped(n).skip(1) == grouped((-n) as nat),
{
    if n < 0 {
        assert(signed_grouped(n).skip(1) =~= grouped((-n) as nat));
    }
}

/// The last `::` segment is the end of the text: it starts at the front or right
/// behind a `::`, and no `::` stands further right.
pub proof fn last_segment_follows_the_last_separator(s: Seq<char>)
    ensures
        ({
            let k = s.len() - after_last_path_sep(s).len();
            &&& 0 <= k
            &&& after_last_path_sep(s) == s.skip(k)
            &&& k == 0 || (k >= 2 && s[k - 1] == ':' && s[k - 2] == ':')
            &&& forall|i: int|
                0 <= i && k - 1 <= i < s.len() - 1 ==> !(#[trigger] s[i] == ':' && s[i + 1] == ':')
        }),
    decreases s.len(),
{
    if s.len() < 2 {
        assert(s.skip(0) =~= s);
    } else if s.last() == ':' && s[s.len() - 2] == ':' {
        assert(s.skip(s.len() as int) =~= Seq::<char>::empty());
    } else {
        let head = s.drop_last();
        last_segment_follows_the_last_separator(head);
        let k = head.len() - after_last_path_sep(head).len();
        assert(s.skip(k) =~= head.skip(k).push(s.last()));
        assert forall|i: int| 0 <= i && k - 1 <= i < s.len() - 1 implies !(#[trigger] s[i] == ':'
            && s[i + 1] == ':') by {
            if i < head.len() - 1 {
                assert(head[i] == s[i] && head[i + 1] == s[i + 1]);
            }
        }
    }
}

/// Whether every `:` of `s` stands next to exactly one other.
pub open spec fn colons_paired(s: Seq<char>) -> bool {
    forall|i: int|
        0 <= i < s.len() && #[trigger] s[i] == ':' ==> (i > 0 && s[i - 1] == ':') != (i + 1
            < s.len() && s[i + 1] == ':')
}

/// A text whose colons all come in twos has no single one to cut at. Where such a
/// text stands behind a `:` that follows no other, it is what is left.
pub proof fn text_behind_a_single_colon_is_left(head: Seq<char>, tail: Seq<char>)
    requires
        colons_paired(tail),
        head.len() > 0 ==> head.last() != ':',
    ensures
        after_last_single_colon(tail) == tail,
        after_last_single_colon(head.push(':') + tail) == tail,
{
    lemma_paired_is_whole(tail);
    lemma_behind_single_colon(head.push(':'), tail);
}

/// A text whose colons all come in twos has no single one.
proof fn lemma_paired_is_whole(s: Seq<char>)
    requires
        colons_paired(s),
    ensures
        after_last_single_colon(s) == s,
    decreases s.len(),
{
    if s.len() > 0 {
        if s.last() == ':' {
            assert(s[s.len() - 1] == ':');
            assert(s[s.len() - 2] == ':');
            let front = s.take(s.len() - 2);
            assert forall|i: int| 0 <= i < front.len() && #[trigger] front[i] == ':' implies (i > 0
                && front[i - 1] == ':') != (i + 1 < front.len() && front[i + 1] == ':') by {
                assert(s[i] == ':');
                if i + 1 == front.len() {
                    assert((s.len() - 2 > 0 && s[s.len() - 3] == ':') != (s[s.len() - 1] == ':'));
                }
            }
            lemma_paired_is_whole(front);
            assert(front + seq![':', ':'] =~= s);
        } else {
            let front = s.drop_last();
            assert forall|i: int| 0 <= i < front.len() && #[trigger] front[i] == ':' implies (i > 0
                && front[i - 1] == ':') != (i + 1 < front.len() && front[i + 1] == ':') by {
                assert(s[i] == ':');
            }
            lemma_paired_is_whole(front);
            assert(front.push(s.last()) =~= s);
        }
    }
}

} // verus!
