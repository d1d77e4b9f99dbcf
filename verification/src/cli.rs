//! What the command line reads and prints.
use vstd::prelude::*;
use vstd::string::*;
use crate::ids;
use crate::records::PointId;
use crate::text;

verus! {

/// The quotient rounded to the nearest whole number, ties to the even one.
pub open spec fn rounded_quotient(n: nat, d: nat) -> nat {
    let q = n / d;
    let r = n % d;
    if 2 * r < d {
        q
    } else if 2 * r > d {
        q + 1
    } else {
        q + q % 2
    }
}

/// The spacing of double-precision numbers around `n`: the smallest power of two, from `step` on,
/// that leaves `n` at most 53 significant bits.
pub open spec fn double_spacing(n: nat, step: nat) -> nat
    decreases n - step,
{
    if step == 0 || n / step < 0x20_0000_0000_0000 {
        step
    } else {
        proof {
            assert(2 * step <= n) by (nonlinear_arith)
                requires
                    step > 0,
                    n / step >= 0x20_0000_0000_0000,
            ;
        }
        double_spacing(n, 2 * step)
    }
}

/// The double-precision number nearest to `n`.
pub open spec fn nearest_double(n: nat) -> nat {
    rounded_quotient(n, double_spacing(n, 1)) * double_spacing(n, 1)
}

/// The name and the size of the unit in which a byte count is printed.
pub open spec fn byte_unit(bytes: nat) -> (Seq<char>, nat) {
    if bytes < 0x400 {
        ("B"@, 1)
    } else if bytes < 0x10_0000 {
        ("KiB"@, 0x400)
    } else if bytes < 0x4000_0000 {
        ("MiB"@, 0x10_0000)
    } else if bytes < 0x100_0000_0000 {
        ("GiB"@, 0x4000_0000)
    } else if bytes < 0x4_0000_0000_0000 {
        ("TiB"@, 0x100_0000_0000)
    } else {
        ("PiB"@, 0x4_0000_0000_0000)
    }
}

/// Two decimal digits.
pub open spec fn two_digits(n: nat) -> Seq<char> {
    seq![text::digit_char((n / 10) as int), text::digit_char((n % 10) as int)]
}

/// A byte count in the largest unit of which there is at least one, to two decimals; below one KiB
/// the count itself. The count is taken as a double-precision number.
pub open spec fn human_text(bytes: nat) -> Seq<char> {
    let (unit, size) = byte_unit(bytes);
    if bytes < 0x400 {
        text::decimal_text(bytes) + " "@ + unit
    } else {
        let hundredths = rounded_quotient(nearest_double(bytes) * 100, size);
        text::decimal_text(hundredths / 100) + "."@ + two_digits(hundredths % 100) + " "@ + unit
    }
}

fn round_quotient(n: u128, d: u128) -> (q: u128)
    requires
        0 < d <= 0x8000_0000_0000_0000_0000_0000_0000,
        n < 0x8000_0000_0000_0000_0000_0000_0000,
    ensures
        q == rounded_quotient(n as nat, d as nat),
{
    let q: u128 = n / d;
    let r: u128 = n % d;
    assert(q <= n) by (nonlinear_arith)
        requires
            q == n / d,
            d > 0,
    ;
    if 2 * r < d {
        q
    } else if 2 * r > d {
        q + 1
    } else {
        q + q % 2
    }
}

/// Prints a byte count for a reader.
pub fn human_bytes(bytes: u64) -> (line: String)
    ensures
        line@ == human_text(bytes as nat),
{
    if bytes < 0x400 {
        let mut line = text::decimal(bytes as u128);
        line.append(" ");
        line.append("B");
        return line;
    }
    let mut step: u128 = 1;
    while (bytes as u128) / step >= 0x20_0000_0000_0000
        invariant
            0 < step <= 0x1000,
            double_spacing(bytes as nat, 1) == double_spacing(bytes as nat, step as nat),
        decreases bytes - step,
    {
        assert(step <= 0x800) by (nonlinear_arith)
            requires
                (bytes as u128) / step >= 0x20_0000_0000_0000,
                bytes <= 0xffff_ffff_ffff_ffff,
                step > 0,
                step <= 0x1000,
        ;
        step = 2 * step;
    }
    let scaled: u128 = round_quotient(bytes as u128, step);
    assert(scaled <= 0x20_0000_0000_0000);
    assert(scaled * step <= 0x20_0000_0000_0000 * 0x1000) by (nonlinear_arith)
        requires
            scaled <= 0x20_0000_0000_0000,
            step <= 0x1000,
    ;
    let value: u128 = scaled * step;
    assert(value == nearest_double(bytes as nat));
    let (unit, size): (&str, u128) = if bytes < 0x10_0000 {
        ("KiB", 0x400)
    } else if bytes < 0x4000_0000 {
        ("MiB", 0x10_0000)
    } else if bytes < 0x100_0000_0000 {
        ("GiB", 0x4000_0000)
    } else if bytes < 0x4_0000_0000_0000 {
        ("TiB", 0x100_0000_0000)
    } else {
        ("PiB", 0x4_0000_0000_0000)
    };
    let hundredths: u128 = round_quotient(value * 100, size);
    let mut line = text::decimal(hundredths / 100);
    line.append(".");
    let ghost whole = line@;
    let tens: u8 = (hundredths % 100 / 10) as u8;
    let ones: u8 = (hundredths % 100 % 10) as u8;
    line.push((tens + 48) as char);
    line.push((ones + 48) as char);
    assert(line@ =~= whole + two_digits((hundredths % 100) as nat));
    line.append(" ");
    line.append(unit);
    line
}

/// What is wrong with a slice given as `I/N`.
pub enum SliceFault {
    /// There is no slash.
    Shape { given: String },
    /// The part before the slash is no number.
    Index { given: String },
    /// The part behind the slash is no number.
    Total { given: String },
    /// The index is not below the total.
    Range { index: usize, total: usize },
}

impl SliceFault {
    pub open spec fn text(self) -> Seq<char> {
        match self {
            SliceFault::Shape { given } => "--slice must look like I/N, got '"@ + given@ + "'"@,
            SliceFault::Index { given } => "--slice index '"@ + given@ + "' is not a number"@,
            SliceFault::Total { given } => "--slice total '"@ + given@ + "' is not a number"@,
            SliceFault::Range { index, total } => slice_range_text(index as nat, total as nat),
        }
    }

    /// The message for the operator.
    pub fn message(&self) -> (message: String)
        ensures
            message@ == self.text(),
    {
        match self {
            SliceFault::Shape { given } => {
                let mut message = "--slice must look like I/N, got '".to_owned();
                message.append(given.as_str());
                message.append("'");
                message
            },
            SliceFault::Index { given } => {
                let mut message = "--slice index '".to_owned();
                message.append(given.as_str());
                message.append("' is not a number");
                message
            },
            SliceFault::Total { given } => {
                let mut message = "--slice total '".to_owned();
                message.append(given.as_str());
                message.append("' is not a number");
                message
            },
            SliceFault::Range { index, total } => slice_range_message(*index, *total),
        }
    }
}

/// What is said of a slice whose index is not below its total.
pub open spec fn slice_range_text(index: nat, total: nat) -> Seq<char> {
    "--slice must be I/N with N >= 1 and I < N; got "@ + text::decimal_text(index) + "/"@
        + text::decimal_text(total)
}

pub(crate) fn slice_range_message(index: usize, total: usize) -> (message: String)
    ensures
        message@ == slice_range_text(index as nat, total as nat),
{
    let mut message = "--slice must be I/N with N >= 1 and I < N; got ".to_owned();
    message.append(text::decimal(index as u128).as_str());
    message.append("/");
    message.append(text::decimal(total as u128).as_str());
    message
}

/// Where the first `c` stands in `s`, or `s.len()` where there is none.
pub open spec fn position_of(s: Seq<char>, c: char) -> int
    decreases s.len(),
{
    if s.len() == 0 || s[0] == c {
        0
    } else {
        1 + position_of(s.skip(1), c)
    }
}

/// The number in a text, around which there may be white space.
pub open spec fn spaced_number(s: Seq<char>) -> Option<nat> {
    text::number_in(text::trimmed(s), usize::MAX as nat)
}

/// Parse a `--slice I/N` argument.
pub fn parse_slice(given: &str) -> (slice: Result<(usize, usize), SliceFault>)
    ensures
        ({
            let cut = position_of(given@, '/');
            let front = given@.take(cut);
            let back = given@.skip(cut + 1);
            match slice {
                Ok((index, total)) => {
                    &&& cut < given@.len()
                    &&& spaced_number(front) == Some(index as nat)
                    &&& spaced_number(back) == Some(total as nat)
                    &&& index < total
                },
                Err(SliceFault::Shape { given: g }) => cut >= given@.len() && g@ == given@,
                Err(SliceFault::Index { given: g }) => {
                    &&& cut < given@.len()
                    &&& spaced_number(front) is None
                    &&& g@ == front
                },
                Err(SliceFault::Total { given: g }) => {
                    &&& cut < given@.len()
                    &&& spaced_number(front) is Some
                    &&& spaced_number(back) is None
                    &&& g@ == back
                },
                Err(SliceFault::Range { index, total }) => {
                    &&& cut < given@.len()
                    &&& spaced_number(front) == Some(index as nat)
                    &&& spaced_number(back) == Some(total as nat)
                    &&& index >= total
                },
            }
        }),
{
    let chars = text::chars_of(given);
    let mut cut: usize = 0;
    assert(given@.skip(0) =~= given@);
    while cut < chars.len() && chars[cut] != '/'
        invariant
            chars@ == given@,
            cut <= chars.len(),
            position_of(given@, '/') == cut + position_of(given@.skip(cut as int), '/'),
        decreases chars.len() - cut,
    {
        assert(given@.skip(cut as int).skip(1) =~= given@.skip(cut + 1));
        cut = cut + 1;
    }
    if cut >= chars.len() {
        return Err(SliceFault::Shape { given: given.to_owned() });
    }
    let front = given.substring_char(0, cut);
    let back = given.substring_char(cut + 1, chars.len());
    assert(front@ =~= given@.take(cut as int));
    assert(back@ =~= given@.skip(cut + 1));
    let index: usize = match text::parse_number(text::trim(front), usize::MAX as u64) {
        Some(n) => n as usize,
        None => {
            return Err(SliceFault::Index { given: front.to_owned() });
        },
    };
    let total: usize = match text::parse_number(text::trim(back), usize::MAX as u64) {
        Some(n) => n as usize,
        None => {
            return Err(SliceFault::Total { given: back.to_owned() });
        },
    };
    if total == 0 || index >= total {
        return Err(SliceFault::Range { index, total });
    }
    Ok((index, total))
}

/// The point id that a text gives: a number, or else a UUID.
pub open spec fn point_id_in(raw: Seq<char>) -> Result<PointId, Seq<char>> {
    match (text::number_in(raw, u64::MAX as nat), ids::uuid_in(raw)) {
        (Some(n), _) => Ok(PointId::NumId(n as u64)),
        (None, Some(n)) => Ok(PointId::Uuid(n as u128)),
        (None, None) => Err(
            "point id "@ + raw + " is neither an integer nor a UUID: "@ + ids::uuid_complaint(raw),
        ),
    }
}

/// Reads a point id from the command line.
pub fn parse_point_id(raw: &str) -> (id: Result<PointId, String>)
    ensures
        match id {
            Ok(id) => point_id_in(raw@) == Ok::<PointId, Seq<char>>(id),
            Err(message) => point_id_in(raw@) == Err::<PointId, Seq<char>>(message@),
        },
{
    if let Some(n) = text::parse_number(raw, u64::MAX) {
        return Ok(PointId::NumId(n));
    }
    match ids::parse_uuid(raw) {
        Ok(uuid) => Ok(PointId::Uuid(uuid)),
        Err(why) => Err(
            text::cat4("point id ", raw, " is neither an integer nor a UUID: ", why.as_str()),
        ),
    }
}

/// The rounded quotient is nearest to the quotient: no further than half of the divisor off, and even
/// where it is just that.
pub proof fn a_quotient_is_rounded_to_the_nearest(n: nat, d: nat)
    requires
        d > 0,
    ensures
        2 * (rounded_quotient(n, d) * d - n) <= d,
        2 * (n - rounded_quotient(n, d) * d) <= d,
        2 * (rounded_quotient(n, d) * d - n) == d || 2 * (n - rounded_quotient(n, d) * d) == d
            ==> rounded_quotient(n, d) % 2 == 0,
{
    let q = n / d;
    let r = n % d;
    assert(n == q * d + r && r < d) by (nonlinear_arith)
        requires
            d > 0,
            q == n / d,
            r == n % d,
    ;
    assert((q + 1) * d == q * d + d) by (nonlinear_arith);
}

/// A byte count is printed in the largest unit of which there is at least one, to the nearest
/// hundredth. Below one KiB it is the count itself. (From 2^53 on, the count is first taken as a
/// double-precision number.)
pub proof fn bytes_are_printed_in_the_largest_unit(bytes: nat)
    ensures
        bytes < 1024 ==> human_text(bytes) == text::decimal_text(bytes) + " B"@,
        bytes >= 1024 ==> {
            let (unit, size) = byte_unit(bytes);
            let hundredths = rounded_quotient(nearest_double(bytes) * 100, size);
            &&& size <= bytes
            &&& bytes < 1024 * size || size == 1024 * 1024 * 1024 * 1024 * 1024
            &&& unit == "KiB"@ && size == 1024 || unit == "MiB"@ && size == 1024 * 1024 || unit
                == "GiB"@ && size == 1024 * 1024 * 1024 || unit == "TiB"@ && size == 1024 * 1024
                * 1024 * 1024 || unit == "PiB"@ && size == 1024 * 1024 * 1024 * 1024 * 1024
            &&& human_text(bytes) == text::decimal_text(hundredths / 100) + "."@ + two_digits(
                hundredths % 100,
            ) + " "@ + unit
            &&& bytes < 0x20_0000_0000_0000 ==> 2 * (hundredths * size - 100 * bytes) <= size && 2
                * (100 * bytes - hundredths * size) <= size
        },
{
    reveal_strlit("B");
    reveal_strlit(" ");
    reveal_strlit(" B");
    assert(" "@ + "B"@ =~= " B"@);
    if bytes < 1024 {
        assert(human_text(bytes) =~= text::decimal_text(bytes) + " B"@);
    } else {
        let (unit, size) = byte_unit(bytes);
        a_quotient_is_rounded_to_the_nearest(nearest_double(bytes) * 100, size);
        if bytes < 0x20_0000_0000_0000 {
            assert(bytes / 1 == bytes);
            let step = double_spacing(bytes, 1);
            let rounded = rounded_quotient(bytes, step);
            assert(step == 1);
            assert(rounded == bytes);
            assert(rounded * step == bytes) by (nonlinear_arith)
                requires
                    step == 1,
                    rounded == bytes,
            ;
        }
    }
}

/// The place of a character is that of the first of its kind.
pub proof fn a_character_is_found_where_it_first_stands(s: Seq<char>, c: char)
    ensures
        0 <= position_of(s, c) <= s.len(),
        position_of(s, c) < s.len() ==> s[position_of(s, c)] == c,
        forall|i: int| 0 <= i < position_of(s, c) ==> #[trigger] s[i] != c,
    decreases s.len(),
{
    if s.len() > 0 && s[0] != c {
        let rest = s.skip(1);
        a_character_is_found_where_it_first_stands(rest, c);
        assert forall|i: int| 0 <= i < position_of(s, c) implies #[trigger] s[i] != c by {
            if i > 0 {
                assert(rest[i - 1] == s[i]);
            }
        }
        if position_of(rest, c) < rest.len() {
            assert(s[1 + position_of(rest, c)] == rest[position_of(rest, c)]);
        }
    }
}

/// The text of a point id reads back as the id.
pub proof fn point_ids_read_back(n: u64, uuid: u128)
    ensures
        point_id_in(text::decimal_text(n as nat)) == Ok::<PointId, Seq<char>>(PointId::NumId(n)),
        point_id_in(ids::uuid_text(uuid)) == Ok::<PointId, Seq<char>>(PointId::Uuid(uuid)),
{
    text::decimal_text_spells_its_number(n as nat, u64::MAX as nat);
    ids::uuid_text_parses(uuid);
    ids::lemma_uuid_text_ends(uuid);
    let s = ids::uuid_text(uuid);
    assert(text::number_in(s, u64::MAX as nat) is None) by {
        ids::lemma_uuid_text_has_a_hyphen(uuid);
        if s[0] == '+' {
            assert(ids::hex_value(s[0]) is None);
        }
        assert(text::unsigned(s) == s);
        assert(s[8] == '-');
    }
}

} // verus!
