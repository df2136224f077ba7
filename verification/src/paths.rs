//! Joining paths.

use vstd::prelude::*;

verus! {

/// The path that `name` is relative to `base`, with `slash` between its parts: an
/// absolute `name` stands for itself.
pub open spec fn joined<T>(base: Seq<T>, name: Seq<T>, slash: T) -> Seq<T> {
    if name.len() > 0 && name[0] == slash {
        name
    } else if base.len() > 0 && base.last() != slash {
        base.push(slash) + name
    } else {
        base + name
    }
}

/// Joins two paths given by their bytes.
pub fn join(base: &[u8], name: &[u8]) -> (path: Vec<u8>)
    ensures
        path@ == joined(base@, name@, 0x2fu8),
{
    let mut path: Vec<u8> = Vec::new();
    if name.len() == 0 || name[0] != 0x2f {
        path.extend_from_slice(base);
        assert(path@ =~= base@);
        if base.len() > 0 && base[base.len() - 1] != 0x2f {
            path.push(0x2f);
        }
    }
    let ghost front = path@;
    path.extend_from_slice(name);
    assert(path@ =~= front + name@);
    assert(path@ =~= joined(base@, name@, 0x2fu8));
    path
}

/// How a path is shown: its bytes as text, with what is no UTF-8 replaced.
pub uninterp spec fn lossy_text(path: Seq<u8>) -> Seq<char>;

/// Calls `String::from_utf8_lossy`, which reads bytes as UTF-8 and puts U+FFFD in place of
/// what is none. What comes out depends on the bytes alone, and writes them again where
/// they are UTF-8.
#[verifier::external_body]
pub(crate) fn shown(path: &[u8]) -> (text: String)
    ensures
        text@ == lossy_text(path@),
        vstd::utf8::valid_utf8(path@) ==> vstd::utf8::encode_utf8(text@) == path@,
{
    String::from_utf8_lossy(path).into_owned()
}

/// A relative path goes behind the base and one slash, an absolute one stands for itself.
pub proof fn law_joined_path<T>(base: Seq<T>, name: Seq<T>, slash: T)
    ensures
        name.len() > 0 && name[0] == slash ==> joined(base, name, slash) == name,
        (name.len() == 0 || name[0] != slash) && base.len() > 0 && base.last() != slash ==> joined(
            base,
            name,
            slash,
        ) == base + seq![slash] + name,
        (name.len() == 0 || name[0] != slash) && base.len() > 0 && base.last() == slash ==> joined(
            base,
            name,
            slash,
        ) == base + name,
        (name.len() == 0 || name[0] != slash) && base.len() == 0 ==> joined(base, name, slash)
            == name,
{
    if base.len() > 0 {
        assert(base.push(slash) =~= base + seq![slash]);
    } else {
        assert(base + name =~= name);
    }
}

/// A text that begins with no slash has no slash as its first byte.
pub(crate) proof fn lemma_first_byte(text: Seq<char>)
    requires
        text.len() > 0,
        text[0] != '/',
    ensures
        vstd::utf8::encode_utf8(text).len() > 0 ==> vstd::utf8::encode_utf8(text)[0] != 0x2f,
{
    let bytes = vstd::utf8::encode_utf8(text);
    vstd::utf8::encode_utf8_first_scalar(text);
    if bytes.len() > 0 && bytes[0] == 0x2f {
        assert(0x2fu8 & 0x7f == 0x2f) by (bit_vector);
        assert(vstd::utf8::decode_first_scalar(bytes) == 0x2f);
        vstd::utf8::char_u32_cast(text[0], 0x2f);
        vstd::utf8::char_u32_cast('/', 0x2f);
        assert(false);
    }
}

/// Joins two paths given as text.
pub fn join_text(base: &str, name: &str) -> (path: String)
    ensures
        path@ == joined(base@, name@, '/'),
{
    let absolute = starts_with_slash(name);
    if absolute {
        return name.to_owned();
    }
    let mut path = base.to_owned();
    if !base.is_empty() && !ends_with_slash(base) {
        path.append("/");
        proof {
            reveal_strlit("/");
        }
        assert(path@ =~= base@.push('/'));
    }
    path.append(name);
    assert(path@ =~= joined(base@, name@, '/'));
    path
}

fn starts_with_slash(text: &str) -> (yes: bool)
    ensures
        yes == (text@.len() > 0 && text@[0] == '/'),
{
    if text.is_empty() {
        return false;
    }
    text.get_char(0) == '/'
}

fn ends_with_slash(text: &str) -> (yes: bool)
    requires
        text@.len() > 0,
    ensures
        yes == (text@.last() == '/'),
{
    text.get_char(text.unicode_len() - 1) == '/'
}

} // verus!
