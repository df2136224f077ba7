//! The nftables rules that open and close the protected port for an address.

use vstd::prelude::*;

use crate::address::IpAddr;
use crate::text;

verus! {

/// The nftables table that holds the sets.
pub const NFT_TABLE: &'static str = "inet kairos";

/// The set of allowed IPv4 addresses.
pub const NFT_SET_V4: &'static str = "kairos_allowed_v4";

/// The set of allowed IPv6 addresses.
pub const NFT_SET_V6: &'static str = "kairos_allowed_v6";

/// The set for the family of an address.
pub open spec fn set_name(ip: IpAddr) -> Seq<char> {
    match ip {
        IpAddr::V4(_) => NFT_SET_V4@,
        IpAddr::V6(_) => NFT_SET_V6@,
    }
}

/// The set for the family of an address.
pub fn set_for(ip: &IpAddr) -> (set: &'static str)
    ensures
        set@ == set_name(*ip),
{
    match ip {
        IpAddr::V4(_) => NFT_SET_V4,
        IpAddr::V6(_) => NFT_SET_V6,
    }
}

/// The byte of an IPv4 address at `i`, from zero to three.
pub open spec fn octet(n: u32, i: int) -> nat {
    if i == 0 {
        n as nat / 0x100_0000
    } else if i == 1 {
        n as nat / 0x1_0000 % 0x100
    } else if i == 2 {
        n as nat / 0x100 % 0x100
    } else {
        n as nat % 0x100
    }
}

/// An IPv4 address as it is written: its bytes in decimal, with dots between them.
pub open spec fn dotted(n: u32) -> Seq<char> {
    text::decimal(octet(n, 0)) + seq!['.'] + (text::decimal(octet(n, 1)) + seq!['.'] + (
    text::decimal(octet(n, 2)) + seq!['.'] + text::decimal(octet(n, 3))))
}

/// An address as it is written in a rule, where `v6_text` is how it is written if it is an
/// IPv6 address.
pub open spec fn address_text(ip: IpAddr, v6_text: Seq<char>) -> Seq<char> {
    match ip {
        IpAddr::V4(n) => dotted(n),
        IpAddr::V6(_) => v6_text,
    }
}

/// The rule that opens the port for an address for `secs` seconds.
pub open spec fn open_text(ip: IpAddr, v6_text: Seq<char>, secs: u64) -> Seq<char> {
    "add element "@ + NFT_TABLE@ + " "@ + set_name(ip) + " { "@ + address_text(ip, v6_text)
        + " timeout "@ + text::decimal(secs as nat) + "s }"@
}

/// The rule that closes the port for an address.
pub open spec fn close_text(ip: IpAddr, v6_text: Seq<char>) -> Seq<char> {
    "delete element "@ + NFT_TABLE@ + " "@ + set_name(ip) + " { "@ + address_text(ip, v6_text)
        + " }"@
}

/// Writes an IPv4 address.
pub fn ipv4_text(n: u32) -> (text: String)
    ensures
        text@ == dotted(n),
{
    let mut text = text::decimal_text((n / 0x100_0000) as u64);
    text.append(".");
    text.append(text::decimal_text((n / 0x1_0000 % 0x100) as u64).as_str());
    text.append(".");
    text.append(text::decimal_text((n / 0x100 % 0x100) as u64).as_str());
    text.append(".");
    text.append(text::decimal_text((n % 0x100) as u64).as_str());
    proof {
        reveal_strlit(".");
        assert("."@ =~= seq!['.']);
        assert(text@ =~= dotted(n));
    }
    text
}

/// Writes an address as it stands in a rule.
fn shown_address(ip: &IpAddr, v6_text: &str) -> (text: String)
    ensures
        text@ == address_text(*ip, v6_text@),
{
    match ip {
        IpAddr::V4(n) => ipv4_text(*n),
        IpAddr::V6(_) => v6_text.to_owned(),
    }
}

/// The rule that opens the port for an address for `secs` seconds. An IPv6 address is
/// written as `v6_text` has it; how it comes to that text is not said here.
pub fn open_rule(ip: &IpAddr, v6_text: &str, secs: u64) -> (rule: String)
    ensures
        rule@ == open_text(*ip, v6_text@, secs),
{
    let shown = shown_address(ip, v6_text);
    let mut rule = String::from_str("add element ");
    rule.append(NFT_TABLE);
    rule.append(" ");
    rule.append(set_for(ip));
    rule.append(" { ");
    rule.append(shown.as_str());
    rule.append(" timeout ");
    rule.append(text::decimal_text(secs).as_str());
    rule.append("s }");
    rule
}

/// The rule that closes the port for an address. An IPv6 address is written as `v6_text`
/// has it.
pub fn close_rule(ip: &IpAddr, v6_text: &str) -> (rule: String)
    ensures
        rule@ == close_text(*ip, v6_text@),
{
    let shown = shown_address(ip, v6_text);
    let mut rule = String::from_str("delete element ");
    rule.append(NFT_TABLE);
    rule.append(" ");
    rule.append(set_for(ip));
    rule.append(" { ");
    rule.append(shown.as_str());
    rule.append(" }");
    rule
}

/// No address of one family is looked for in the set of the other.
pub proof fn law_families_have_sets_of_their_own(v4: u32, v6: u128)
    ensures
        set_name(IpAddr::V4(v4)) != set_name(IpAddr::V6(v6)),
{
    reveal_strlit("kairos_allowed_v4");
    reveal_strlit("kairos_allowed_v6");
    assert(NFT_SET_V4@.last() != NFT_SET_V6@.last());
}

proof fn lemma_decimal_has_no_dot(n: nat)
    ensures
        text::decimal(n).len() > 0,
        forall|i: int| 0 <= i < text::decimal(n).len() ==> #[trigger] text::decimal(n)[i] != '.',
    decreases n,
{
    if n >= 10 {
        lemma_decimal_has_no_dot(n / 10);
    }
}

proof fn lemma_decimal_is_injective(a: nat, b: nat)
    requires
        text::decimal(a) == text::decimal(b),
    ensures
        a == b,
    decreases a,
{
    let (s, t) = (text::decimal(a), text::decimal(b));
    if a >= 10 {
        lemma_decimal_has_no_dot(a / 10);
    }
    if b >= 10 {
        lemma_decimal_has_no_dot(b / 10);
    }
    assert(s.last() == t.last());
    assert(a % 10 == b % 10);
    if a >= 10 {
        assert(b >= 10);
        assert(s.drop_last() =~= text::decimal(a / 10));
        assert(t.drop_last() =~= text::decimal(b / 10));
        lemma_decimal_is_injective(a / 10, b / 10);
    }
}

/// What is in front of the first dot, and what is behind it.
proof fn lemma_split_at_dot(a: nat, rest_a: Seq<char>, b: nat, rest_b: Seq<char>)
    requires
        text::decimal(a) + seq!['.'] + rest_a == text::decimal(b) + seq!['.'] + rest_b,
    ensures
        a == b,
        rest_a == rest_b,
{
    let (s, t) = (text::decimal(a), text::decimal(b));
    let whole = s + seq!['.'] + rest_a;
    let other = t + seq!['.'] + rest_b;
    lemma_decimal_has_no_dot(a);
    lemma_decimal_has_no_dot(b);
    assert(whole[s.len() as int] == '.');
    assert(other[t.len() as int] == '.');
    if s.len() < t.len() {
        assert(other[s.len() as int] == t[s.len() as int]);
    }
    if t.len() < s.len() {
        assert(whole[t.len() as int] == s[t.len() as int]);
    }
    assert(s =~= whole.take(s.len() as int));
    assert(t =~= other.take(t.len() as int));
    assert(rest_a =~= whole.skip(s.len() as int + 1));
    assert(rest_b =~= other.skip(t.len() as int + 1));
    lemma_decimal_is_injective(a, b);
}

/// A rule about an IPv4 address is about no other: two of them are never written alike.
pub proof fn law_ipv4_addresses_are_written_apart(a: u32, b: u32)
    requires
        dotted(a) == dotted(b),
    ensures
        a == b,
{
    let last_a = text::decimal(octet(a, 3));
    let last_b = text::decimal(octet(b, 3));
    let two_a = text::decimal(octet(a, 2)) + seq!['.'] + last_a;
    let two_b = text::decimal(octet(b, 2)) + seq!['.'] + last_b;
    let three_a = text::decimal(octet(a, 1)) + seq!['.'] + two_a;
    let three_b = text::decimal(octet(b, 1)) + seq!['.'] + two_b;
    lemma_split_at_dot(octet(a, 0), three_a, octet(b, 0), three_b);
    lemma_split_at_dot(octet(a, 1), two_a, octet(b, 1), two_b);
    lemma_split_at_dot(octet(a, 2), last_a, octet(b, 2), last_b);
    lemma_decimal_is_injective(octet(a, 3), octet(b, 3));
}

/// An IPv4 address is written as the four numbers that its bytes are, in their order.
pub proof fn law_ipv4_address_is_written_byte_by_byte(n: u32, a: u8, b: u8, c: u8, d: u8)
    requires
        n == 0x100_0000 * a + 0x1_0000 * b + 0x100 * c + d,
    ensures
        dotted(n) == text::decimal(a as nat) + "."@ + text::decimal(b as nat) + "."@
            + text::decimal(c as nat) + "."@ + text::decimal(d as nat),
{
    lemma_octets(n as int, a as int, b as int, c as int, d as int);
    lemma_with_dots(
        text::decimal(a as nat),
        text::decimal(b as nat),
        text::decimal(c as nat),
        text::decimal(d as nat),
    );
}

proof fn lemma_octets(n: int, a: int, b: int, c: int, d: int)
    requires
        0 <= a < 256,
        0 <= b < 256,
        0 <= c < 256,
        0 <= d < 256,
        n == 0x100_0000 * a + 0x1_0000 * b + 0x100 * c + d,
    ensures
        n / 0x100_0000 == a,
        n / 0x1_0000 % 0x100 == b,
        n / 0x100 % 0x100 == c,
        n % 0x100 == d,
{
    assert(n / 0x1_0000 == 0x100 * a + b);
    assert(n / 0x100 == 0x1_0000 * a + 0x100 * b + c);
}

proof fn lemma_with_dots(a: Seq<char>, b: Seq<char>, c: Seq<char>, d: Seq<char>)
    ensures
        a + seq!['.'] + (b + seq!['.'] + (c + seq!['.'] + d)) == a + "."@ + b + "."@ + c + "."@ + d,
{
    reveal_strlit(".");
    assert("."@ =~= seq!['.']);
    assert(a + seq!['.'] + (b + seq!['.'] + (c + seq!['.'] + d)) =~= a + "."@ + b + "."@ + c + "."@
        + d);
}

/// The set depends on the family alone.
pub proof fn law_family_decides_the_set(v4: u32, v6: u128)
    ensures
        set_name(IpAddr::V4(v4)) == "kairos_allowed_v4"@,
        set_name(IpAddr::V6(v6)) == "kairos_allowed_v6"@,
        NFT_TABLE@ == "inet kairos"@,
{
}

/// The rules name the set of the address's family, the whole address, and, for opening, the
/// time in seconds.
pub proof fn law_rules_say_what_to_do(ip: IpAddr, v6_text: Seq<char>, secs: u64)
    ensures
        ({
            let shown = match ip {
                IpAddr::V4(n) => dotted(n),
                IpAddr::V6(_) => v6_text,
            };
            let set = match ip {
                IpAddr::V4(_) => "kairos_allowed_v4"@,
                IpAddr::V6(_) => "kairos_allowed_v6"@,
            };
            let element = "inet kairos"@ + " "@ + set + " { "@ + shown;
            let opened = open_text(ip, v6_text, secs);
            let closed = close_text(ip, v6_text);
            &&& text::stands_at(opened, "add element "@ + element, 0)
            &&& text::stands_at(
                opened,
                " timeout "@ + text::decimal(secs as nat) + "s }"@,
                ("add element "@ + element).len() as int,
            )
            &&& opened.len() == ("add element "@ + element).len() + (" timeout "@ + text::decimal(
                secs as nat,
            ) + "s }"@).len()
            &&& text::stands_at(closed, "delete element "@ + element, 0)
            &&& text::stands_at(closed, " }"@, ("delete element "@ + element).len() as int)
            &&& closed.len() == ("delete element "@ + element).len() + " }"@.len()
        }),
{
    let element = "inet kairos"@ + " "@ + set_name(ip) + " { "@ + address_text(ip, v6_text);
    let opened = open_text(ip, v6_text, secs);
    let closed = close_text(ip, v6_text);
    let front = "add element "@ + element;
    let back = " timeout "@ + text::decimal(secs as nat) + "s }"@;
    assert(opened =~= front + back);
    assert(opened.subrange(0, front.len() as int) =~= front);
    assert(opened.subrange(front.len() as int, (front.len() + back.len()) as int) =~= back);
    let start = "delete element "@ + element;
    assert(closed =~= start + " }"@);
    assert(closed.subrange(0, start.len() as int) =~= start);
    assert(closed.subrange(start.len() as int, (start.len() + " }"@.len()) as int) =~= " }"@);
}

} // verus!
