//! Text helpers: trimming white space and writing numbers in decimal.

use vstd::prelude::*;

verus! {

/// Whether `c` has the Unicode property `White_Space`.
pub open spec fn is_whitespace(c: char) -> bool {
    let n = c as int;
    ||| 0x09 <= n <= 0x0d
    ||| n == 0x20
    ||| n == 0x85
    ||| n == 0xa0
    ||| n == 0x1680
    ||| 0x2000 <= n <= 0x200a
    ||| n == 0x2028
    ||| n == 0x2029
    ||| n == 0x202f
    ||| n == 0x205f
    ||| n == 0x3000
}

/// `s` without the white space in front.
pub open spec fn trimmed_start(s: Seq<char>) -> Seq<char>
    decreases s.len(),
{
    if s.len() > 0 && is_whitespace(s[0]) {
        trimmed_start(s.drop_first())
    } else {
        s
    }
}

/// `s` without the white space at the end.
pub open spec fn trimmed_end(s: Seq<char>) -> Seq<char>
    decreases s.len(),
{
    if s.len() > 0 && is_whitespace(s.last()) {
        trimmed_end(s.drop_last())
    } else {
        s
    }
}

/// `s` without the white space on either side.
pub open spec fn trimmed(s: Seq<char>) -> Seq<char> {
    trimmed_end(trimmed_start(s))
}

/// `str::trim` returns the slice without leading and trailing white space, where
/// white space means the characters with the Unicode property `White_Space`.
pub assume_specification[ str::trim ](s: &str) -> (res: &str)
    ensures
        res@ == trimmed(s@),
;

/// How `Debug` shows a text: in quotation marks, with special characters escaped.
pub uninterp spec fn debug_escaped(text: Seq<char>) -> Seq<char>;

/// Calls the `Debug` of `str`, which shows a text in quotation marks with special
/// characters escaped. What it shows depends on the text alone.
#[verifier::external_body]
pub(crate) fn quoted(text: &str) -> (shown: String)
    ensures
        shown@ == debug_escaped(text@),
{
    format!("{:?}", text)
}

/// The character for the decimal digit `d`.
pub open spec fn digit_char(d: nat) -> char {
    (0x30 + d) as char
}

/// `n` in decimal, without leading zeros.
pub open spec fn decimal(n: nat) -> Seq<char>
    decreases n,
{
    if n < 10 {
        seq![digit_char(n)]
    } else {
        decimal(n / 10).push(digit_char(n % 10))
    }
}

/// The one-character text for a decimal digit.
fn digit_text(d: u64) -> (text: &'static str)
    requires
        d < 10,
    ensures
        text@ == seq![digit_char(d as nat)],
{
    proof {
        reveal_strlit("0");
        reveal_strlit("1");
        reveal_strlit("2");
        reveal_strlit("3");
        reveal_strlit("4");
        reveal_strlit("5");
        reveal_strlit("6");
        reveal_strlit("7");
        reveal_strlit("8");
        reveal_strlit("9");
    }
    match d {
        0 => "0",
        1 => "1",
        2 => "2",
        3 => "3",
        4 => "4",
        5 => "5",
        6 => "6",
        7 => "7",
        8 => "8",
        _ => "9",
    }
}

/// Writes `n` in decimal.
pub fn decimal_text(n: u64) -> (text: String)
    ensures
        text@ == decimal(n as nat),
    decreases n,
{
    if n < 10 {
        String::from_str(digit_text(n))
    } else {
        let mut text = decimal_text(n / 10);
        text.append(digit_text(n % 10));
        proof {
            assert(text@ =~= decimal(n as nat));
        }
        text
    }
}

/// `n` in octal, with four digits.
pub open spec fn octal4(n: nat) -> Seq<char> {
    seq![
        digit_char(n / 512),
        digit_char(n / 64 % 8),
        digit_char(n / 8 % 8),
        digit_char(n % 8),
    ]
}

/// Writes `n` in octal with four digits.
pub fn octal4_text(n: u32) -> (text: String)
    requires
        n < 4096,
    ensures
        text@ == octal4(n as nat),
{
    let mut text = String::from_str(digit_text((n / 512) as u64));
    text.append(digit_text((n / 64 % 8) as u64));
    text.append(digit_text((n / 8 % 8) as u64));
    text.append(digit_text((n % 8) as u64));
    assert(text@ =~= octal4(n as nat));
    text
}

/// What is left by trimming is not white space on either side.
pub proof fn law_trimmed_has_no_outer_whitespace(s: Seq<char>)
    ensures
        trimmed(s).len() > 0 ==> !is_whitespace(trimmed(s)[0]) && !is_whitespace(trimmed(s).last()),
{
    lemma_trimmed_start(s);
    lemma_trimmed_end(trimmed_start(s));
}

/// Trimming takes white space away, and nothing else: the text is what is left, with white
/// space alone before and behind it.
pub proof fn law_trimming_takes_only_whitespace(s: Seq<char>) -> (around: (Seq<char>, Seq<char>))
    ensures
        s == around.0 + trimmed(s) + around.1,
        forall|i: int| 0 <= i < around.0.len() ==> is_whitespace(#[trigger] around.0[i]),
        forall|i: int| 0 <= i < around.1.len() ==> is_whitespace(#[trigger] around.1[i]),
{
    let front = lemma_taken_off_start(s);
    let back = lemma_taken_off_end(trimmed_start(s));
    assert(s =~= front + trimmed(s) + back);
    (front, back)
}

proof fn lemma_taken_off_start(s: Seq<char>) -> (front: Seq<char>)
    ensures
        s == front + trimmed_start(s),
        forall|i: int| 0 <= i < front.len() ==> is_whitespace(#[trigger] front[i]),
    decreases s.len(),
{
    if s.len() > 0 && is_whitespace(s[0]) {
        let rest = lemma_taken_off_start(s.drop_first());
        let front = seq![s[0]] + rest;
        assert(s =~= seq![s[0]] + s.drop_first());
        assert(s =~= front + trimmed_start(s));
        front
    } else {
        assert(s =~= Seq::<char>::empty() + s);
        Seq::empty()
    }
}

proof fn lemma_taken_off_end(s: Seq<char>) -> (back: Seq<char>)
    ensures
        s == trimmed_end(s) + back,
        forall|i: int| 0 <= i < back.len() ==> is_whitespace(#[trigger] back[i]),
    decreases s.len(),
{
    if s.len() > 0 && is_whitespace(s.last()) {
        let rest = lemma_taken_off_end(s.drop_last());
        let back = rest.push(s.last());
        assert(s =~= s.drop_last().push(s.last()));
        assert(s =~= trimmed_end(s) + back);
        back
    } else {
        assert(s =~= s + Seq::<char>::empty());
        Seq::empty()
    }
}

/// The number that decimal digits write.
pub open spec fn value_of(digits: Seq<char>) -> int
    decreases digits.len(),
{
    if digits.len() == 0 {
        0
    } else {
        10 * value_of(digits.drop_last()) + (digits.last() as int - '0' as int)
    }
}

/// A number in decimal reads as that number, is made of digits, and has no zero in front
/// unless it is zero.
pub proof fn law_decimal_reads_as_the_number(n: nat)
    ensures
        value_of(decimal(n)) == n,
        decimal(n).len() > 0,
        forall|i: int| 0 <= i < decimal(n).len() ==> '0' <= #[trigger] decimal(n)[i] <= '9',
        decimal(n)[0] == '0' ==> n == 0 && decimal(n).len() == 1,
    decreases n,
{
    if n < 10 {
        reveal_with_fuel(value_of, 2);
        assert(decimal(n).drop_last() =~= seq![]);
    } else {
        law_decimal_reads_as_the_number(n / 10);
        assert(decimal(n).drop_last() =~= decimal(n / 10));
        assert(decimal(n)[0] == decimal(n / 10)[0]);
    }
}

/// Four octal digits read as the number that they were written for.
pub proof fn law_octal_reads_as_the_number(n: nat)
    requires
        n < 4096,
    ensures
        octal4(n).len() == 4,
        forall|i: int| 0 <= i < 4 ==> '0' <= #[trigger] octal4(n)[i] <= '7',
        512 * (octal4(n)[0] as int - 48) + 64 * (octal4(n)[1] as int - 48) + 8 * (octal4(n)[2]
            as int - 48) + (octal4(n)[3] as int - 48) == n,
{
    let (a, b, c, d) = (n / 512, n / 64 % 8, n / 8 % 8, n % 8);
    lemma_octal_digits(n);
    lemma_digit_char(a);
    lemma_digit_char(b);
    lemma_digit_char(c);
    lemma_digit_char(d);
    assert(octal4(n) =~= seq![digit_char(a), digit_char(b), digit_char(c), digit_char(d)]);
}

proof fn lemma_octal_digits(n: nat)
    requires
        n < 4096,
    ensures
        n / 512 < 8,
        n / 64 % 8 < 8,
        n / 8 % 8 < 8,
        n % 8 < 8,
        512 * (n / 512) + 64 * (n / 64 % 8) + 8 * (n / 8 % 8) + n % 8 == n,
{
    assert(n / 64 == 8 * (n / 512) + n / 64 % 8);
    assert(n / 8 == 8 * (n / 64) + n / 8 % 8);
}

proof fn lemma_digit_char(d: nat)
    requires
        d < 8,
    ensures
        digit_char(d) as int == 48 + d,
        '0' <= digit_char(d) <= '7',
{
}

/// Trimming twice changes nothing more.
pub proof fn law_trimming_is_idempotent(s: Seq<char>)
    ensures
        trimmed(trimmed(s)) == trimmed(s),
{
    law_trimmed_has_no_outer_whitespace(s);
}

proof fn lemma_trimmed_start(s: Seq<char>)
    ensures
        trimmed_start(s).len() > 0 ==> !is_whitespace(trimmed_start(s)[0]),
    decreases s.len(),
{
    if s.len() > 0 && is_whitespace(s[0]) {
        lemma_trimmed_start(s.drop_first());
    }
}

proof fn lemma_trimmed_end(s: Seq<char>)
    ensures
        trimmed_end(s).len() > 0 ==> !is_whitespace(trimmed_end(s).last()) && trimmed_end(s)[0]
            == s[0],
    decreases s.len(),
{
    if s.len() > 0 && is_whitespace(s.last()) {
        lemma_trimmed_end(s.drop_last());
    }
}

/// Whether `part` stands in `whole`.
pub open spec fn holds(whole: Seq<char>, part: Seq<char>) -> bool {
    exists|i: int| #[trigger] stands_at(whole, part, i)
}

/// Whether `part` stands in `whole` from `i` on.
pub open spec fn stands_at(whole: Seq<char>, part: Seq<char>, i: int) -> bool {
    0 <= i <= whole.len() - part.len() && whole.subrange(i, i + part.len()) == part
}

pub(crate) proof fn lemma_holds(
    whole: Seq<char>,
    front: Seq<char>,
    part: Seq<char>,
    back: Seq<char>,
)
    requires
        whole == front + part + back,
    ensures
        holds(whole, part),
{
    let i = front.len() as int;
    assert(whole.subrange(i, i + part.len()) =~= part);
    assert(stands_at(whole, part, i));
}

} // verus!
