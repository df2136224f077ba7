//! Derivation of knock sequences: the ports that a shared secret gives for a time
//! window.

use hmac::{Hmac, Mac};
use sha2::Sha256;
use vstd::prelude::*;

use crate::secret::{seal, unsealed};

verus! {

/// Default number of ports in a knock sequence.
pub const DEFAULT_KNOCK_COUNT: usize = 4;

/// Most ports that one HMAC-SHA256 digest gives: two of its 32 bytes for each.
pub const MAX_KNOCK_COUNT: usize = 16;

/// Smallest port that is derived: the privileged ports are left out.
pub const PORT_MIN: u16 = 1024;

/// Number of ports from `PORT_MIN` to the largest.
pub const PORT_RANGE: u16 = 64512;

/// The `len` low-order bytes of `n`, the most significant first.
pub open spec fn be_bytes(n: nat, len: nat) -> Seq<u8>
    decreases len,
{
    if len == 0 {
        seq![]
    } else {
        be_bytes(n / 256, (len - 1) as nat).push((n % 256) as u8)
    }
}

/// The number that `bytes` write, the most significant byte first.
pub open spec fn be_value(bytes: Seq<u8>) -> nat
    decreases bytes.len(),
{
    if bytes.len() == 0 {
        0
    } else {
        256 * be_value(bytes.drop_last()) + bytes.last() as nat
    }
}

/// HMAC-SHA256 of `message` under `key`.
pub uninterp spec fn hmac_sha256_digest(key: Seq<u8>, message: Seq<u8>) -> Seq<u8>;

/// Calls `new_from_slice`, `update` and `finalize` of `Hmac<Sha256>`, which take a key
/// of any length. The digest depends on key and message alone and has 32 bytes.
#[verifier::external_body]
fn hmac_sha256(key: &[u8], message: &[u8]) -> (digest: Vec<u8>)
    ensures
        digest@ == hmac_sha256_digest(key@, message@),
        digest@.len() == 32,
{
    let mut mac = Hmac::<Sha256>::new_from_slice(key).expect("HMAC takes a key of any length");
    mac.update(message);
    mac.finalize().into_bytes().to_vec()
}

/// The port for two bytes of a digest.
pub open spec fn port_of(high: u8, low: u8) -> u16 {
    (PORT_MIN + (high * 256 + low) % (PORT_RANGE as int)) as u16
}

/// The first `count` ports of a digest, one for each two of its bytes as far as they
/// go.
pub open spec fn ports_of_digest(digest: Seq<u8>, count: nat) -> Seq<u16> {
    Seq::new(
        if count <= digest.len() / 2 { count } else { digest.len() / 2 },
        |i: int| port_of(digest[2 * i], digest[2 * i + 1]),
    )
}

/// The knock sequence of `count` ports that `secret` gives for `window`, for a `count`
/// of `MAX_KNOCK_COUNT` at most.
pub open spec fn knock_sequence(secret: Seq<u8>, window: u64, count: nat) -> Seq<u16> {
    let digest = hmac_sha256_digest(secret, be_bytes(window as nat, 8));
    Seq::new(count, |i: int| port_of(digest[2 * i], digest[2 * i + 1]))
}

/// Writes the `len` low-order bytes of `n`, the most significant first.
fn to_be_bytes(n: u64, len: usize) -> (bytes: Vec<u8>)
    ensures
        bytes@ == be_bytes(n as nat, len as nat),
    decreases len,
{
    if len == 0 {
        Vec::new()
    } else {
        let mut bytes = to_be_bytes(n / 256, len - 1);
        bytes.push((n % 256) as u8);
        bytes
    }
}

/// Reads the first `count` ports off a digest.
pub fn digest_ports(digest: &[u8], count: usize) -> (ports: Vec<u16>)
    ensures
        ports@ == ports_of_digest(digest@, count as nat),
{
    let mut ports: Vec<u16> = Vec::new();
    let mut i: usize = 0;
    while i < count && i < digest.len() / 2
        invariant
            i <= count,
            i <= digest@.len() / 2,
            ports@ == ports_of_digest(digest@, i as nat),
        decreases count - i,
    {
        let raw: u16 = (digest[2 * i] as u16) * 256 + digest[2 * i + 1] as u16;
        ports.push(PORT_MIN + raw % PORT_RANGE);
        i += 1;
        assert(ports@ =~= ports_of_digest(digest@, i as nat));
    }
    assert(ports@ =~= ports_of_digest(digest@, count as nat));
    ports
}

/// Derives the knock sequence for a time window from a shared secret: HMAC-SHA256 of
/// the window counter, big-endian, under the secret, read off as ports.
pub fn derive_sequence(secret: &[u8], window: u64, count: usize) -> (ports: Vec<u16>)
    requires
        count <= MAX_KNOCK_COUNT,
    ensures
        ports@ == knock_sequence(secret@, window, count as nat),
{
    let message = to_be_bytes(window, 8);
    let digest = seal(hmac_sha256(secret, message.as_slice()));
    let ports = digest_ports(unsealed(&digest), count);
    assert(ports@ =~= knock_sequence(secret@, window, count as nat));
    ports
}

/// Each port is what the digest of the window itself gives: where `message` is the eight
/// bytes that write `window`, the most significant first, port `i` is read off bytes `2 * i`
/// and `2 * i + 1` of the HMAC-SHA256 of `message` under the secret.
pub proof fn law_ports_are_those_of_the_window(
    secret: Seq<u8>,
    window: u64,
    message: Seq<u8>,
    count: nat,
    i: int,
)
    requires
        count <= 16,
        0 <= i < count,
        message.len() == 8,
        window == 0x100_0000_0000_0000 * message[0] + 0x1_0000_0000_0000 * message[1]
            + 0x100_0000_0000 * message[2] + 0x1_0000_0000 * message[3] + 0x100_0000 * message[4]
            + 0x1_0000 * message[5] + 0x100 * message[6] + message[7],
    ensures
        knock_sequence(secret, window, count).len() == count,
        knock_sequence(secret, window, count)[i] == 1024 + (256 * hmac_sha256_digest(
            secret,
            message,
        )[2 * i] + hmac_sha256_digest(secret, message)[2 * i + 1]) % 64512,
{
    assert(be_value(message) == window) by {
        reveal_with_fuel(be_value, 9);
    }
    lemma_be_value_round_trip(message);
}

/// The ports of a digest are read off its bytes two by two, as far as they go.
pub proof fn law_digest_is_read_in_pairs(digest: Seq<u8>, count: nat)
    ensures
        ports_of_digest(digest, count).len() <= count,
        2 * ports_of_digest(digest, count).len() <= digest.len(),
        ports_of_digest(digest, count).len() == count || digest.len() - 2 * ports_of_digest(
            digest,
            count,
        ).len() < 2,
        forall|i: int|
            0 <= i < ports_of_digest(digest, count).len() ==> #[trigger] ports_of_digest(
                digest,
                count,
            )[i] == 1024 + (256 * digest[2 * i] + digest[2 * i + 1]) % 64512,
{
}

proof fn lemma_be_value_round_trip(bytes: Seq<u8>)
    ensures
        be_bytes(be_value(bytes), bytes.len()) == bytes,
    decreases bytes.len(),
{
    if bytes.len() > 0 {
        let front = bytes.drop_last();
        lemma_be_value_round_trip(front);
        assert(be_value(bytes) / 256 == be_value(front));
        assert(be_value(bytes) % 256 == bytes.last());
        assert(front.push(bytes.last()) =~= bytes);
    }
}

/// All derived ports lie in the unprivileged range.
pub proof fn law_ports_are_unprivileged(secret: Seq<u8>, window: u64, count: nat)
    ensures
        forall|i: int|
            0 <= i < count ==> 1024 <= #[trigger] knock_sequence(secret, window, count)[i]
                <= 65535,
{
}

/// A shorter sequence of the same secret and window is a prefix of a longer one.
pub proof fn law_shorter_sequence_is_prefix(secret: Seq<u8>, window: u64, fewer: nat, more: nat)
    requires
        fewer <= more,
    ensures
        knock_sequence(secret, window, fewer) == knock_sequence(secret, window, more).take(
            fewer as int,
        ),
{
    assert(knock_sequence(secret, window, fewer) =~= knock_sequence(secret, window, more).take(
        fewer as int,
    ));
}

/// Different windows are different messages to the HMAC.
pub proof fn law_windows_give_different_messages(a: u64, b: u64)
    ensures
        be_bytes(a as nat, 8).len() == 8,
        be_value(be_bytes(a as nat, 8)) == a,
        be_bytes(a as nat, 8) == be_bytes(b as nat, 8) ==> a == b,
{
    assert(256 * (256 * (256 * (256 * (256 * (256 * (256 * 256)))))) == 0x1_0000_0000_0000_0000int);
    reveal_with_fuel(power_of_256, 9);
    lemma_be_round_trip(a as nat, 8);
    lemma_be_round_trip(b as nat, 8);
}

spec fn power_of_256(len: nat) -> nat
    decreases len,
{
    if len == 0 {
        1
    } else {
        256 * power_of_256((len - 1) as nat)
    }
}

proof fn lemma_be_round_trip(n: nat, len: nat)
    requires
        n < power_of_256(len),
    ensures
        be_bytes(n, len).len() == len,
        be_value(be_bytes(n, len)) == n,
    decreases len,
{
    if len > 0 {
        lemma_be_round_trip(n / 256, (len - 1) as nat);
        assert(be_bytes(n, len).drop_last() =~= be_bytes(n / 256, (len - 1) as nat));
    }
}

} // verus!
