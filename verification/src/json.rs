//! JSON string literals and numbers.
use vstd::prelude::*;
use vstd::string::StringExecFns;

verus! {

/// `String::push` appends one character.
pub assume_specification[ String::push ](s: &mut String, c: char)
    ensures
        final(s)@ == old(s)@.push(c),
;

/// The lower-case hexadecimal digit of `d`.
pub open spec fn hex_of(d: int) -> char {
    if d == 0 {
        '0'
    } else if d == 1 {
        '1'
    } else if d == 2 {
        '2'
    } else if d == 3 {
        '3'
    } else if d == 4 {
        '4'
    } else if d == 5 {
        '5'
    } else if d == 6 {
        '6'
    } else if d == 7 {
        '7'
    } else if d == 8 {
        '8'
    } else if d == 9 {
        '9'
    } else if d == 10 {
        'a'
    } else if d == 11 {
        'b'
    } else if d == 12 {
        'c'
    } else if d == 13 {
        'd'
    } else if d == 14 {
        'e'
    } else {
        'f'
    }
}

/// Digits of different values differ.
pub proof fn lemma_hex_injective(d: int, e: int)
    requires
        0 <= d < 16,
        0 <= e < 16,
        hex_of(d) == hex_of(e),
    ensures
        d == e,
{
}

/// A character inside a JSON string: quotes and backslashes behind a
/// backslash, control characters as a four digit escape, others as they are.
pub open spec fn json_char(c: char) -> Seq<char> {
    if c == '"' {
        seq!['\\', '"']
    } else if c == '\\' {
        seq!['\\', '\\']
    } else if (c as int) < 0x20 {
        seq!['\\', 'u', '0', '0', hex_of(c as int / 16), hex_of(c as int % 16)]
    } else {
        seq![c]
    }
}

/// The characters of `s` inside a JSON string.
pub open spec fn json_chars(s: Seq<char>) -> Seq<char>
    decreases s.len(),
{
    if s.len() == 0 {
        Seq::empty()
    } else {
        json_chars(s.drop_last()) + json_char(s.last())
    }
}

/// `s` as a JSON string.
pub open spec fn json_str(s: Seq<char>) -> Seq<char> {
    seq!['"'] + json_chars(s) + seq!['"']
}

/// The lower-case hexadecimal digit of `d`.
pub fn hex_digit(d: u32) -> (c: char)
    requires
        d < 16,
    ensures
        c == hex_of(d as int),
{
    match d {
        0 => '0',
        1 => '1',
        2 => '2',
        3 => '3',
        4 => '4',
        5 => '5',
        6 => '6',
        7 => '7',
        8 => '8',
        9 => '9',
        10 => 'a',
        11 => 'b',
        12 => 'c',
        13 => 'd',
        14 => 'e',
        _ => 'f',
    }
}

/// Appends one character of a JSON string.
fn push_json_char(out: &mut String, c: char)
    ensures
        final(out)@ == old(out)@ + json_char(c),
{
    if c == '"' {
        out.push('\\');
        out.push('"');
    } else if c == '\\' {
        out.push('\\');
        out.push('\\');
    } else if (c as u32) < 0x20 {
        let b: u32 = c as u32;
        out.push('\\');
        out.push('u');
        out.push('0');
        out.push('0');
        out.push(hex_digit(b / 16));
        out.push(hex_digit(b % 16));
    } else {
        out.push(c);
    }
    proof {
        assert(out@ =~= old(out)@ + json_char(c));
    }
}

/// Appends `s` to `out` as a JSON string.
pub fn push_json_str(out: &mut String, s: &str)
    ensures
        final(out)@ == old(out)@ + json_str(s@),
{
    let ghost start = out@;
    out.push('"');
    proof {
        assert(out@ =~= start + seq!['"'] + json_chars(s@.take(0)));
    }
    for c in it: s.chars()
        invariant
            it.seq() == s@,
            out@ == start + seq!['"'] + json_chars(s@.take(it.index() as int)),
    {
        let ghost before = out@;
        let ghost k = it.index() as int;
        push_json_char(out, c);
        proof {
            assert(s@.take(k + 1).drop_last() =~= s@.take(k));
            assert(s@.take(k + 1).last() == c);
            assert(out@ =~= start + seq!['"'] + json_chars(s@.take(k + 1)));
        }
    }
    proof {
        assert(s@.take(s@.len() as int) =~= s@);
    }
    out.push('"');
    proof {
        assert(out@ =~= start + json_str(s@));
    }
}

// ---- reading back -------------------------------------------------------------------

/// The value of a lower-case hexadecimal digit.
pub open spec fn hex_value(c: char) -> int {
    if '0' <= c && c <= '9' {
        c as int - '0' as int
    } else {
        c as int - 'a' as int + 10
    }
}

/// One character read from the inside of a JSON string at `at`, and the
/// position after it.
pub open spec fn json_read(t: Seq<char>, at: int) -> (char, int) {
    if t[at] != '\\' {
        (t[at], at + 1)
    } else if t[at + 1] == 'u' {
        (
            (0x1000 * hex_value(t[at + 2]) + 0x100 * hex_value(t[at + 3]) + 0x10 * hex_value(
                t[at + 4],
            ) + hex_value(t[at + 5])) as char,
            at + 6,
        )
    } else {
        (t[at + 1], at + 2)
    }
}

/// Every character of a JSON string reads back as itself, and no quote that
/// would end the string early stands where one is read.
pub proof fn law_json_char_reads_back(before: Seq<char>, c: char, after: Seq<char>)
    ensures
        ({
            let t = before + json_char(c) + after;
            &&& json_read(t, before.len() as int) == (c, (before.len() + json_char(c).len()) as int)
            &&& t[before.len() as int] != '"'
        }),
{
    let t = before + json_char(c) + after;
    let at = before.len() as int;
    assert forall|i: int| 0 <= i < json_char(c).len() implies t[at + i] == #[trigger] json_char(
        c,
    )[i] by {}
    if c == '"' || c == '\\' {
        assert(json_char(c)[0] == '\\');
        assert(json_char(c)[1] == c);
    } else if (c as int) < 0x20 {
        assert(json_char(c)[0] == '\\');
        assert(json_char(c)[1] == 'u');
        assert(json_char(c)[2] == '0');
        assert(json_char(c)[3] == '0');
        assert(json_char(c)[4] == hex_of(c as int / 16));
        assert(json_char(c)[5] == hex_of(c as int % 16));
    } else {
        assert(json_char(c)[0] == c);
    }
}

/// The characters read from the inside of a JSON string, from `at` up to the
/// quote that ends it.
pub open spec fn json_text(t: Seq<char>, at: int) -> Seq<char>
    decreases t.len() - at,
{
    if at < 0 || at >= t.len() || t[at] == '"' {
        Seq::empty()
    } else {
        let (c, next) = json_read(t, at);
        if at < next <= t.len() {
            seq![c] + json_text(t, next)
        } else {
            Seq::empty()
        }
    }
}

proof fn lemma_json_chars_concat(a: Seq<char>, b: Seq<char>)
    ensures
        json_chars(a + b) == json_chars(a) + json_chars(b),
    decreases b.len(),
{
    if b.len() == 0 {
        assert(a + b =~= a);
        assert(json_chars(a) + json_chars(b) =~= json_chars(a));
    } else {
        assert((a + b).drop_last() =~= a + b.drop_last());
        lemma_json_chars_concat(a, b.drop_last());
        assert(json_chars(a) + (json_chars(b.drop_last()) + json_char(b.last())) =~= (json_chars(a)
            + json_chars(b.drop_last())) + json_char(b.last()));
    }
}

proof fn lemma_json_text_from(s: Seq<char>, k: int)
    requires
        0 <= k <= s.len(),
    ensures
        json_text(json_str(s), (1 + json_chars(s.take(k)).len()) as int) == s.skip(k),
    decreases s.len() - k,
{
    let t = json_str(s);
    let at = (1 + json_chars(s.take(k)).len()) as int;
    if k == s.len() {
        assert(s.take(k) =~= s);
        assert(t[at] == '"');
        assert(s.skip(k) =~= Seq::<char>::empty());
    } else {
        lemma_json_text_from(s, k + 1);
        let c = s[k];
        let head = seq!['"'] + json_chars(s.take(k));
        let tail = json_chars(s.skip(k + 1)) + seq!['"'];
        assert(s.take(k + 1).drop_last() =~= s.take(k));
        lemma_json_chars_concat(s.take(k + 1), s.skip(k + 1));
        assert(s.take(k + 1) + s.skip(k + 1) =~= s);
        assert(json_chars(s.take(k + 1)) =~= json_chars(s.take(k)) + json_char(c));
        assert(t =~= head + json_char(c) + tail);
        law_json_char_reads_back(head, c, tail);
        assert(seq![c] + s.skip(k + 1) =~= s.skip(k));
    }
}

/// A JSON string reads back as the text it was written from.
pub proof fn law_json_string_reads_back(s: Seq<char>)
    ensures
        json_text(json_str(s), 1) == s,
{
    lemma_json_text_from(s, 0);
    assert(s.take(0) =~= Seq::<char>::empty());
    assert(s.skip(0) =~= s);
}

// ---- numbers ------------------------------------------------------------------------

/// `v` in decimal, without leading zeros.
pub open spec fn decimal(v: int) -> Seq<char>
    decreases v,
{
    if v < 10 {
        seq![hex_of(v)]
    } else {
        decimal(v / 10).push(hex_of(v % 10))
    }
}

/// `v` in hexadecimal, in exactly `digits` digits.
pub open spec fn hexadecimal(v: int, digits: nat) -> Seq<char>
    decreases digits,
{
    if digits == 0 {
        Seq::empty()
    } else {
        hexadecimal(v / 16, (digits - 1) as nat).push(hex_of(v % 16))
    }
}

/// Appends `v` in decimal.
pub fn push_decimal(out: &mut String, v: u64)
    ensures
        final(out)@ == old(out)@ + decimal(v as int),
    decreases v,
{
    if v >= 10 {
        push_decimal(out, v / 10);
    }
    out.push(hex_digit((v % 10) as u32));
    proof {
        assert(out@ =~= old(out)@ + decimal(v as int));
    }
}

/// Appends `v` in `digits` hexadecimal digits.
pub fn push_hexadecimal(out: &mut String, v: u64, digits: u32)
    ensures
        final(out)@ == old(out)@ + hexadecimal(v as int, digits as nat),
    decreases digits,
{
    if digits > 0 {
        push_hexadecimal(out, v / 16, digits - 1);
        out.push(hex_digit((v % 16) as u32));
    }
    proof {
        assert(out@ =~= old(out)@ + hexadecimal(v as int, digits as nat));
    }
}

/// The value that a sequence of digits stands for in a base.
pub open spec fn digits_value(s: Seq<char>, base: int) -> int
    decreases s.len(),
{
    if s.len() == 0 {
        0
    } else {
        digits_value(s.drop_last(), base) * base + hex_value(s.last())
    }
}

/// Decimal numbers read back as themselves.
pub proof fn law_decimal_reads_back(v: int)
    requires
        0 <= v,
    ensures
        digits_value(decimal(v), 10) == v,
    decreases v,
{
    if v >= 10 {
        law_decimal_reads_back(v / 10);
        assert(decimal(v).drop_last() =~= decimal(v / 10));
    } else {
        assert(decimal(v).drop_last() =~= Seq::<char>::empty());
        assert(digits_value(decimal(v).drop_last(), 10) == 0);
    }
}

} // verus!
