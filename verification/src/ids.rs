//! Digests, UUIDs and their texts.
use sha2::Digest;
use vstd::prelude::*;
use vstd::string::*;

verus! {

/// The lower-case hexadecimal digit of `n`.
pub open spec fn hex_char(n: int) -> char {
    if n < 10 {
        (n + 48) as char
    } else {
        (n + 87) as char
    }
}

/// Bytes in lower-case hexadecimal, two digits each.
pub open spec fn hex_text(bytes: Seq<u8>) -> Seq<char>
    decreases bytes.len(),
{
    if bytes.len() == 0 {
        Seq::empty()
    } else {
        hex_text(bytes.drop_last()).push(hex_char((bytes.last() / 16) as int)).push(
            hex_char((bytes.last() % 16) as int),
        )
    }
}

fn hex_digit(n: u8) -> (c: char)
    requires
        n < 16,
    ensures
        c == hex_char(n as int),
{
    if n < 10 {
        (n + 48) as char
    } else {
        (n + 87) as char
    }
}

/// Writes bytes in lower-case hexadecimal, two digits each.
pub fn hex(bytes: &[u8]) -> (text: String)
    ensures
        text@ == hex_text(bytes@),
{
    let mut text = String::new();
    let mut i: usize = 0;
    assert(bytes@.take(0) =~= Seq::empty());
    while i < bytes.len()
        invariant
            i <= bytes.len(),
            text@ == hex_text(bytes@.take(i as int)),
        decreases bytes.len() - i,
    {
        assert(bytes@.take(i + 1).drop_last() =~= bytes@.take(i as int));
        text.push(hex_digit(bytes[i] / 16));
        text.push(hex_digit(bytes[i] % 16));
        i = i + 1;
    }
    assert(bytes@.take(bytes@.len() as int) =~= bytes@);
    text
}

/// Two byte strings have the same hexadecimal text only if they are the same.
pub proof fn hex_is_injective(a: Seq<u8>, b: Seq<u8>)
    ensures
        hex_text(a).len() == 2 * a.len(),
        hex_text(a) == hex_text(b) ==> a == b,
    decreases a.len(),
{
    if a.len() > 0 {
        hex_is_injective(a.drop_last(), if b.len() > 0 {
            b.drop_last()
        } else {
            b
        });
    }
    if b.len() > 0 {
        lemma_hex_len(b);
    }
    if hex_text(a) == hex_text(b) {
        lemma_hex_len(a);
        lemma_hex_len(b);
        if a.len() > 0 {
            let n = a.len() as int;
            assert(hex_text(a).take(2 * n - 2) =~= hex_text(a.drop_last()));
            assert(hex_text(b).take(2 * n - 2) =~= hex_text(b.drop_last()));
            assert(hex_text(a)[2 * n - 2] == hex_char((a.last() / 16) as int));
            assert(hex_text(b)[2 * n - 2] == hex_char((b.last() / 16) as int));
            assert(hex_text(a)[2 * n - 1] == hex_char((a.last() % 16) as int));
            assert(hex_text(b)[2 * n - 1] == hex_char((b.last() % 16) as int));
            assert(a.last() == b.last());
            assert(a =~= a.drop_last().push(a.last()));
            assert(b =~= b.drop_last().push(b.last()));
        } else {
            assert(a =~= b);
        }
    }
}

/// Whether a text holds lower-case hexadecimal digits alone.
pub open spec fn is_lower_hex(s: Seq<char>) -> bool {
    forall|i: int| 0 <= i < s.len() ==> '0' <= #[trigger] s[i] <= '9' || 'a' <= s[i] <= 'f'
}

/// The hexadecimal text of bytes holds lower-case hexadecimal digits alone.
pub proof fn hex_is_lower_case(bytes: Seq<u8>)
    ensures
        is_lower_hex(hex_text(bytes)),
    decreases bytes.len(),
{
    if bytes.len() > 0 {
        let front = hex_text(bytes.drop_last());
        let text = hex_text(bytes);
        hex_is_lower_case(bytes.drop_last());
        assert forall|i: int| 0 <= i < text.len() implies '0' <= #[trigger] text[i] <= '9' || 'a'
            <= text[i] <= 'f' by {
            if i < front.len() {
                assert(text[i] == front[i]);
            }
        }
    }
}

proof fn lemma_hex_len(a: Seq<u8>)
    ensures
        hex_text(a).len() == 2 * a.len(),
    decreases a.len(),
{
    if a.len() > 0 {
        lemma_hex_len(a.drop_last());
    }
}

/// The SHA-256 digest of a byte string.
pub uninterp spec fn sha256_digest(data: Seq<u8>) -> Seq<u8>;

/// `sha2::Sha256::digest`. The contract says that the digest is a function of the data and has 32
/// bytes.
#[verifier::external_body]
pub(crate) fn sha256(data: &[u8]) -> (digest: Vec<u8>)
    ensures
        digest@ == sha256_digest(data@),
        digest@.len() == 32,
{
    sha2::Sha256::digest(data).to_vec()
}

/// The UUID namespace of ISO object identifiers.
pub const NAMESPACE_OID: u128 = 0x6ba7b812_9dad_11d1_80b4_00c04fd430c8;

/// The name-based UUID (version 5) of a name in a namespace.
pub uninterp spec fn uuid_v5(namespace: u128, name: Seq<char>) -> u128;

/// `uuid::Uuid::new_v5` on the UTF-8 bytes of a name. The contract says that the result is a
/// function of the namespace and the name.
#[verifier::external_body]
pub(crate) fn new_v5(namespace: u128, name: &str) -> (uuid: u128)
    ensures
        uuid == uuid_v5(namespace, name@),
{
    uuid::Uuid::new_v5(&uuid::Uuid::from_u128(namespace), name.as_bytes()).as_u128()
}

/// The number that a hexadecimal digit of either case stands for.
pub open spec fn hex_value(c: char) -> Option<nat> {
    if '0' <= c <= '9' {
        Some((c as int - 48) as nat)
    } else if 'a' <= c <= 'f' {
        Some((c as int - 87) as nat)
    } else if 'A' <= c <= 'F' {
        Some((c as int - 55) as nat)
    } else {
        None
    }
}

/// The number that hexadecimal digits stand for.
pub open spec fn hex_number(s: Seq<char>) -> Option<nat>
    decreases s.len(),
{
    if s.len() == 0 {
        Some(0)
    } else {
        match (hex_number(s.drop_last()), hex_value(s.last())) {
            (Some(front), Some(digit)) => Some(front * 16 + digit),
            _ => None,
        }
    }
}

/// The 128 bits of a UUID written as 32 hexadecimal digits, with a hyphen behind the eighth, the
/// twelfth, the sixteenth and the twentieth.
pub open spec fn hyphenated_uuid(s: Seq<char>) -> Option<nat> {
    if s.len() == 36 && s[8] == '-' && s[13] == '-' && s[18] == '-' && s[23] == '-' {
        hex_number(
            s.subrange(0, 8) + s.subrange(9, 13) + s.subrange(14, 18) + s.subrange(19, 23)
                + s.subrange(24, 36),
        )
    } else {
        None
    }
}

/// An ASCII letter in lower case; any other character as it is.
pub open spec fn ascii_lower(c: char) -> char {
    if 'A' <= c <= 'Z' {
        (c as int + 32) as char
    } else {
        c
    }
}

/// The 128 bits of a UUID written as 32 hexadecimal digits, with hyphens, with hyphens in braces,
/// or with hyphens behind `urn:uuid:` in letters of either case.
pub open spec fn uuid_in(s: Seq<char>) -> Option<nat> {
    if s.len() == 32 {
        hex_number(s)
    } else if s.len() == 36 {
        hyphenated_uuid(s)
    } else if s.len() == 38 && s[0] == '{' && s[37] == '}' {
        hyphenated_uuid(s.subrange(1, 37))
    } else if s.len() == 45 && s.take(9).map_values(|c: char| ascii_lower(c)) == "urn:uuid:"@ {
        hyphenated_uuid(s.skip(9))
    } else {
        None
    }
}

/// What the `uuid` crate says of a text that is no UUID.
pub uninterp spec fn uuid_complaint(s: Seq<char>) -> Seq<char>;

/// `uuid::Uuid::parse_str`. The contract says which texts parse, and to which number; of the error
/// text it says only that it is a function of the text that was given.
#[verifier::external_body]
pub(crate) fn parse_uuid(s: &str) -> (uuid: Result<u128, String>)
    ensures
        match uuid {
            Ok(n) => uuid_in(s@) == Some(n as nat),
            Err(why) => uuid_in(s@) is None && why@ == uuid_complaint(s@),
        },
{
    match uuid::Uuid::parse_str(s) {
        Ok(uuid) => Ok(uuid.as_u128()),
        Err(err) => Err(err.to_string()),
    }
}

/// The lowest `digits` hexadecimal digits of a number.
pub open spec fn hex_digits(n: nat, digits: nat) -> Seq<char>
    decreases digits,
{
    if digits == 0 {
        Seq::empty()
    } else {
        hex_digits(n / 16, (digits - 1) as nat).push(hex_char((n % 16) as int))
    }
}

/// A UUID as its 32 lower-case hexadecimal digits, hyphenated.
pub open spec fn uuid_text(uuid: u128) -> Seq<char> {
    let digits = hex_digits(uuid as nat, 32);
    digits.subrange(0, 8) + "-"@ + digits.subrange(8, 12) + "-"@ + digits.subrange(12, 16) + "-"@
        + digits.subrange(16, 20) + "-"@ + digits.subrange(20, 32)
}

proof fn lemma_hex_digits_len(n: nat, digits: nat)
    ensures
        hex_digits(n, digits).len() == digits,
    decreases digits,
{
    if digits > 0 {
        lemma_hex_digits_len(n / 16, (digits - 1) as nat);
    }
}

fn all_hex_digits(n: u128, digits: usize) -> (chars: Vec<char>)
    ensures
        chars@ == hex_digits(n as nat, digits as nat),
    decreases digits,
{
    if digits == 0 {
        Vec::new()
    } else {
        let mut chars = all_hex_digits(n / 16, digits - 1);
        chars.push(hex_digit((n % 16) as u8));
        chars
    }
}

fn push_chars(text: &mut String, chars: &Vec<char>, from: usize, to: usize)
    requires
        from <= to <= chars@.len(),
    ensures
        final(text)@ == old(text)@ + chars@.subrange(from as int, to as int),
{
    let mut i: usize = from;
    assert(text@ =~= old(text)@ + chars@.subrange(from as int, from as int));
    while i < to
        invariant
            from <= i <= to <= chars@.len(),
            text@ == old(text)@ + chars@.subrange(from as int, i as int),
        decreases to - i,
    {
        text.push(chars[i]);
        assert(text@ =~= old(text)@ + chars@.subrange(from as int, i + 1));
        i = i + 1;
    }
}

/// Writes a UUID as its 32 lower-case hexadecimal digits, hyphenated.
pub fn uuid_name(uuid: u128) -> (text: String)
    ensures
        text@ == uuid_text(uuid),
{
    let digits = all_hex_digits(uuid, 32);
    proof {
        lemma_hex_digits_len(uuid as nat, 32);
    }
    let mut text = String::new();
    push_chars(&mut text, &digits, 0, 8);
    assert(text@ =~= digits@.subrange(0, 8));
    text.append("-");
    push_chars(&mut text, &digits, 8, 12);
    text.append("-");
    push_chars(&mut text, &digits, 12, 16);
    text.append("-");
    push_chars(&mut text, &digits, 16, 20);
    text.append("-");
    push_chars(&mut text, &digits, 20, 32);
    text
}

/// The digits of a number read back as the number, as far as they reach.
proof fn lemma_hex_digits_value(n: nat, digits: nat)
    ensures
        n < vstd::arithmetic::power::pow(16, digits) ==> hex_number(hex_digits(n, digits)) == Some(
            n,
        ),
    decreases digits,
{
    reveal(vstd::arithmetic::power::pow);
    if digits > 0 {
        if n < vstd::arithmetic::power::pow(16, digits) {
            assert(n / 16 < vstd::arithmetic::power::pow(16, (digits - 1) as nat));
            lemma_hex_digits_value(n / 16, (digits - 1) as nat);
            assert(hex_digits(n, digits).drop_last() =~= hex_digits(
                n / 16,
                (digits - 1) as nat,
            ));
            assert(hex_value(hex_char((n % 16) as int)) == Some(n % 16));
        }
    }
}

/// The text of a UUID parses as that UUID, so that two UUIDs never share a text.
pub proof fn uuid_text_parses(uuid: u128)
    ensures
        uuid_in(uuid_text(uuid)) == Some(uuid as nat),
{
    reveal_strlit("-");
    let digits = hex_digits(uuid as nat, 32);
    lemma_hex_digits_len(uuid as nat, 32);
    let s = uuid_text(uuid);
    assert(s.len() == 36);
    assert(s.subrange(0, 8) + s.subrange(9, 13) + s.subrange(14, 18) + s.subrange(19, 23)
        + s.subrange(24, 36) =~= digits);
    assert(vstd::arithmetic::power::pow(16, 32)
        == 0x1_0000_0000_0000_0000_0000_0000_0000_0000int) by {
        reveal_with_fuel(vstd::arithmetic::power::pow, 33);
    }
    lemma_hex_digits_value(uuid as nat, 32);
}

/// The text of a UUID begins and ends with a hexadecimal digit.
pub proof fn lemma_uuid_text_ends(uuid: u128)
    ensures
        uuid_text(uuid).len() == 36,
        hex_value(uuid_text(uuid)[0]) is Some,
        hex_value(uuid_text(uuid).last()) is Some,
{
    reveal_strlit("-");
    let digits = hex_digits(uuid as nat, 32);
    lemma_hex_digits_len(uuid as nat, 32);
    lemma_hex_digits_are_hex(uuid as nat, 32);
    let s = uuid_text(uuid);
    assert(s[0] == digits[0]);
    assert(s.last() == digits[31]);
}

proof fn lemma_hex_digits_are_hex(n: nat, digits: nat)
    ensures
        forall|i: int|
            0 <= i < hex_digits(n, digits).len() ==> hex_value(#[trigger] hex_digits(n, digits)[i]) is Some,
    decreases digits,
{
    if digits > 0 {
        lemma_hex_digits_are_hex(n / 16, (digits - 1) as nat);
        let front = hex_digits(n / 16, (digits - 1) as nat);
        let all = hex_digits(n, digits);
        assert forall|i: int| 0 <= i < all.len() implies hex_value(#[trigger] all[i]) is Some by {
            if i < front.len() {
                assert(all[i] == front[i]);
            }
        }
    }
}

/// The first group of a UUID's text ends with a hyphen.
pub proof fn lemma_uuid_text_has_a_hyphen(uuid: u128)
    ensures
        uuid_text(uuid)[8] == '-',
{
    reveal_strlit("-");
    lemma_hex_digits_len(uuid as nat, 32);
    let digits = hex_digits(uuid as nat, 32);
    assert(uuid_text(uuid)[8] == "-"@[0]);
}

} // verus!
