//! Text helpers: decimal numbers, comparison, trimming and joining.
use vstd::prelude::*;
use vstd::string::*;

verus! {

/// `String::push`: appends one character.
pub assume_specification[ std::string::String::push ](s: &mut String, c: char)
    ensures
        final(s)@ == old(s)@.push(c),
;

/// The decimal digit `d` as a character.
pub open spec fn digit_char(d: int) -> char {
    (d + 48) as char
}

/// A number written in decimal, without leading zeros.
pub open spec fn decimal_text(n: nat) -> Seq<char>
    decreases n,
{
    if n < 10 {
        seq![digit_char(n as int)]
    } else {
        decimal_text(n / 10).push(digit_char((n % 10) as int))
    }
}

/// Writes `n` in decimal.
pub fn decimal(n: u128) -> (text: String)
    ensures
        text@ == decimal_text(n as nat),
    decreases n,
{
    let d: u8 = (n % 10) as u8;
    let c: char = (d + 48) as char;
    let mut text = if n < 10 {
        String::new()
    } else {
        decimal(n / 10)
    };
    text.push(c);
    text
}

/// Whether two texts hold the same characters.
pub fn same(a: &str, b: &str) -> (equal: bool)
    ensures
        equal == (a@ == b@),
{
    a.to_owned() == b.to_owned()
}

/// The characters of a text.
pub fn chars_of(text: &str) -> (chars: Vec<char>)
    ensures
        chars@ == text@,
{
    let mut chars: Vec<char> = Vec::new();
    for c in it: text.chars()
        invariant
            chars@ == text@.subrange(0, it.index()),
            it.seq() == text@,
    {
        chars.push(c);
    }
    chars
}

/// Code-point order on texts, the order in which names are kept.
pub open spec fn text_lt(a: Seq<char>, b: Seq<char>) -> bool
    decreases a.len(),
{
    if b.len() == 0 {
        false
    } else if a.len() == 0 {
        true
    } else if a[0] != b[0] {
        (a[0] as int) < (b[0] as int)
    } else {
        text_lt(a.skip(1), b.skip(1))
    }
}

/// Of two texts exactly one of `<`, `==` and `>` holds.
pub proof fn text_lt_trichotomy(a: Seq<char>, b: Seq<char>)
    ensures
        text_lt(a, b) || text_lt(b, a) || a == b,
        text_lt(a, b) ==> !text_lt(b, a) && a != b,
    decreases a.len(),
{
    if a.len() > 0 && b.len() > 0 && a[0] == b[0] {
        text_lt_trichotomy(a.skip(1), b.skip(1));
        if a.skip(1) == b.skip(1) {
            assert forall|i: int| 0 <= i < a.len() implies a[i] == b[i] by {
                if i > 0 {
                    assert(a[i] == a.skip(1)[i - 1]);
                    assert(b[i] == b.skip(1)[i - 1]);
                }
            }
            assert(a =~= b);
        }
    } else if a.len() == 0 && b.len() == 0 {
        assert(a =~= b);
    }
}

/// The order on texts is transitive.
pub proof fn text_lt_transitive(a: Seq<char>, b: Seq<char>, c: Seq<char>)
    requires
        text_lt(a, b),
        text_lt(b, c),
    ensures
        text_lt(a, c),
    decreases a.len(),
{
    if a.len() > 0 && a[0] == b[0] && b[0] == c[0] {
        text_lt_transitive(a.skip(1), b.skip(1), c.skip(1));
    }
}

/// Whether `a` comes before `b`.
pub fn before(a: &str, b: &str) -> (less: bool)
    ensures
        less == text_lt(a@, b@),
{
    let left = chars_of(a);
    let right = chars_of(b);
    let mut i: usize = 0;
    assert(a@.skip(0) =~= a@);
    assert(b@.skip(0) =~= b@);
    while i < left.len() && i < right.len() && left[i] == right[i]
        invariant
            left@ == a@,
            right@ == b@,
            i <= left.len(),
            i <= right.len(),
            text_lt(a@, b@) == text_lt(a@.skip(i as int), b@.skip(i as int)),
        decreases left.len() - i,
    {
        assert(a@.skip(i as int).skip(1) =~= a@.skip(i + 1));
        assert(b@.skip(i as int).skip(1) =~= b@.skip(i + 1));
        i = i + 1;
    }
    if i >= right.len() {
        false
    } else if i >= left.len() {
        true
    } else {
        left[i] < right[i]
    }
}

/// The characters of the Unicode property White_Space.
pub open spec fn is_white_space(c: char) -> bool {
    let n = c as int;
    ||| 9 <= n <= 13
    ||| n == 32
    ||| n == 0x85
    ||| n == 0xA0
    ||| n == 0x1680
    ||| 0x2000 <= n <= 0x200A
    ||| n == 0x2028
    ||| n == 0x2029
    ||| n == 0x202F
    ||| n == 0x205F
    ||| n == 0x3000
}

/// Whether `c` is white space.
pub fn white_space(c: char) -> (white: bool)
    ensures
        white == is_white_space(c),
{
    let n: u32 = c as u32;
    (9 <= n && n <= 13) || n == 32 || n == 0x85 || n == 0xA0 || n == 0x1680 || (0x2000 <= n && n
        <= 0x200A) || n == 0x2028 || n == 0x2029 || n == 0x202F || n == 0x205F || n == 0x3000
}

/// The set of white-space characters.
pub open spec fn white_space_set() -> Set<char> {
    Set::new(|c: char| is_white_space(c))
}

/// A text without the leading characters that are in `drop`.
pub open spec fn trim_front(s: Seq<char>, drop: Set<char>) -> Seq<char>
    decreases s.len(),
{
    if s.len() > 0 && drop.contains(s[0]) {
        trim_front(s.skip(1), drop)
    } else {
        s
    }
}

/// A text without the trailing characters that are in `drop`.
pub open spec fn trim_back(s: Seq<char>, drop: Set<char>) -> Seq<char>
    decreases s.len(),
{
    if s.len() > 0 && drop.contains(s.last()) {
        trim_back(s.drop_last(), drop)
    } else {
        s
    }
}

/// A text without the white space at either end.
pub open spec fn trimmed(s: Seq<char>) -> Seq<char> {
    trim_back(trim_front(s, white_space_set()), white_space_set())
}

/// Removes white space at either end.
pub fn trim<'a>(s: &'a str) -> (rest: &'a str)
    ensures
        rest@ == trimmed(s@),
{
    let chars = chars_of(s);
    let mut from: usize = 0;
    assert(s@.skip(0) =~= s@);
    while from < chars.len() && white_space(chars[from])
        invariant
            chars@ == s@,
            from <= chars.len(),
            trim_front(s@, white_space_set()) == trim_front(s@.skip(from as int), white_space_set()),
        decreases chars.len() - from,
    {
        assert(s@.skip(from as int).skip(1) =~= s@.skip(from + 1));
        from = from + 1;
    }
    assert(trim_front(s@, white_space_set()) == s@.skip(from as int));
    let mut to: usize = chars.len();
    assert(s@.skip(from as int) =~= s@.subrange(from as int, to as int));
    while to > from && white_space(chars[to - 1])
        invariant
            chars@ == s@,
            from <= to <= chars.len(),
            trim_back(s@.skip(from as int), white_space_set()) == trim_back(
                s@.subrange(from as int, to as int),
                white_space_set(),
            ),
        decreases to,
    {
        assert(s@.subrange(from as int, to as int).drop_last() =~= s@.subrange(
            from as int,
            to - 1,
        ));
        to = to - 1;
    }
    s.substring_char(from, to)
}

/// Removes every leading `c`.
pub fn trim_start_char<'a>(s: &'a str, c: char) -> (rest: &'a str)
    ensures
        rest@ == trim_front(s@, set![c]),
{
    let chars = chars_of(s);
    let mut from: usize = 0;
    assert(s@.skip(0) =~= s@);
    while from < chars.len() && chars[from] == c
        invariant
            chars@ == s@,
            from <= chars.len(),
            trim_front(s@, set![c]) == trim_front(s@.skip(from as int), set![c]),
        decreases chars.len() - from,
    {
        assert(s@.skip(from as int).skip(1) =~= s@.skip(from + 1));
        from = from + 1;
    }
    assert(s@.skip(from as int) =~= s@.subrange(from as int, chars.len() as int));
    s.substring_char(from, chars.len())
}

/// Removes every trailing `c`.
pub fn trim_end_char<'a>(s: &'a str, c: char) -> (rest: &'a str)
    ensures
        rest@ == trim_back(s@, set![c]),
{
    let chars = chars_of(s);
    let mut to: usize = chars.len();
    assert(s@ =~= s@.subrange(0, to as int));
    while to > 0 && chars[to - 1] == c
        invariant
            chars@ == s@,
            to <= chars.len(),
            trim_back(s@, set![c]) == trim_back(s@.subrange(0, to as int), set![c]),
        decreases to,
    {
        assert(s@.subrange(0, to as int).drop_last() =~= s@.subrange(0, to - 1));
        to = to - 1;
    }
    s.substring_char(0, to)
}

/// Whether `s` begins with `prefix`.
pub open spec fn begins(s: Seq<char>, prefix: Seq<char>) -> bool {
    prefix.len() <= s.len() && s.take(prefix.len() as int) == prefix
}

/// Whether `s` ends with `suffix`.
pub open spec fn ends(s: Seq<char>, suffix: Seq<char>) -> bool {
    suffix.len() <= s.len() && s.skip(s.len() - suffix.len()) == suffix
}

/// Whether `s` begins with `prefix`.
pub fn starts_with(s: &str, prefix: &str) -> (yes: bool)
    ensures
        yes == begins(s@, prefix@),
{
    let n: usize = prefix.unicode_len();
    n <= s.unicode_len() && same(s.substring_char(0, n), prefix)
}

/// Whether `s` ends with `suffix`.
pub fn ends_with(s: &str, suffix: &str) -> (yes: bool)
    ensures
        yes == ends(s@, suffix@),
{
    let n: usize = suffix.unicode_len();
    let all: usize = s.unicode_len();
    assert(n <= all ==> s@.skip(all - n) =~= s@.subrange(all - n, all as int));
    n <= all && same(s.substring_char(all - n, all), suffix)
}

/// What follows `prefix` in `s`, where `s` begins with it.
pub fn strip_prefix<'a>(s: &'a str, prefix: &str) -> (rest: Option<&'a str>)
    ensures
        match rest {
            Some(r) => begins(s@, prefix@) && r@ == s@.skip(prefix@.len() as int),
            None => !begins(s@, prefix@),
        },
{
    if starts_with(s, prefix) {
        let n: usize = prefix.unicode_len();
        let all: usize = s.unicode_len();
        assert(s@.skip(n as int) =~= s@.subrange(n as int, all as int));
        Some(s.substring_char(n, all))
    } else {
        None
    }
}

/// The number that a run of digits stands for.
pub open spec fn digits_value(s: Seq<char>) -> nat
    decreases s.len(),
{
    if s.len() == 0 {
        0
    } else {
        digits_value(s.drop_last()) * 10 + (s.last() as int - 48) as nat
    }
}

/// Whether `s` is one or more decimal digits.
pub open spec fn all_digits(s: Seq<char>) -> bool {
    s.len() > 0 && forall|i: int| 0 <= i < s.len() ==> '0' <= #[trigger] s[i] <= '9'
}

/// The digits of a number that may carry a leading plus sign.
pub open spec fn unsigned(s: Seq<char>) -> Seq<char> {
    if s.len() > 0 && s[0] == '+' {
        s.skip(1)
    } else {
        s
    }
}

/// The number that `s` spells: decimal digits behind an optional plus sign, up to `max`.
pub open spec fn number_in(s: Seq<char>, max: nat) -> Option<nat> {
    if all_digits(unsigned(s)) && digits_value(unsigned(s)) <= max {
        Some(digits_value(unsigned(s)))
    } else {
        None
    }
}

/// More digits never make the number smaller.
proof fn lemma_digits_grow(s: Seq<char>, n: int)
    requires
        0 <= n <= s.len(),
        forall|i: int| 0 <= i < s.len() ==> '0' <= #[trigger] s[i] <= '9',
    ensures
        digits_value(s.take(n)) <= digits_value(s),
    decreases s.len() - n,
{
    if n < s.len() {
        lemma_digits_grow(s, n + 1);
        assert(s.take(n + 1).drop_last() =~= s.take(n));
        assert(s.take(n + 1).last() == s[n]);
    } else {
        assert(s.take(n) =~= s);
    }
}

/// A number written in decimal reads back as that number.
pub proof fn decimal_reads_back(n: nat)
    ensures
        all_digits(decimal_text(n)),
        digits_value(decimal_text(n)) == n,
    decreases n,
{
    if n >= 10 {
        decimal_reads_back(n / 10);
        let front = decimal_text(n / 10);
        assert(decimal_text(n).drop_last() =~= front);
    } else {
        assert(decimal_text(n).drop_last() =~= Seq::empty());
        assert(digits_value(Seq::empty()) == 0);
    }
}

/// A number and what follows it can be told apart, where what follows does not start with a digit.
pub proof fn decimal_then(a: nat, x: Seq<char>, b: nat, y: Seq<char>)
    requires
        decimal_text(a) + x == decimal_text(b) + y,
        x.len() > 0,
        y.len() > 0,
        !('0' <= x[0] <= '9'),
        !('0' <= y[0] <= '9'),
    ensures
        a == b,
        x == y,
{
    decimal_reads_back(a);
    decimal_reads_back(b);
    let left = decimal_text(a) + x;
    let right = decimal_text(b) + y;
    let n = decimal_text(a).len() as int;
    let m = decimal_text(b).len() as int;
    assert(left[n] == x[0]);
    assert(right[m] == y[0]);
    if n < m {
        assert(right[n] == decimal_text(b)[n]);
    } else if m < n {
        assert(left[m] == decimal_text(a)[m]);
    }
    assert(decimal_text(a) =~= left.take(n));
    assert(decimal_text(b) =~= right.take(m));
    assert(x =~= left.skip(n));
    assert(y =~= right.skip(m));
}

/// Two pairs of numbers, each written as two decimals with a character between and behind them
/// that is no digit, have the same text only if they are the same pair.
pub proof fn decimal_pairs_differ(
    a: nat,
    b: nat,
    c: nat,
    d: nat,
    between: char,
    behind: Seq<char>,
)
    requires
        !('0' <= between <= '9'),
        decimal_text(a).push(between) + decimal_text(b) + behind == decimal_text(c).push(between)
            + decimal_text(d) + behind,
    ensures
        a == c,
        b == d,
{
    let x = seq![between] + decimal_text(b) + behind;
    let y = seq![between] + decimal_text(d) + behind;
    assert(decimal_text(a) + x =~= decimal_text(a).push(between) + decimal_text(b) + behind);
    assert(decimal_text(c) + y =~= decimal_text(c).push(between) + decimal_text(d) + behind);
    decimal_then(a, x, c, y);
    decimal_reads_back(b);
    decimal_reads_back(d);
    assert(x.len() == 1 + decimal_text(b).len() + behind.len());
    assert(y.len() == 1 + decimal_text(d).len() + behind.len());
    assert(x.subrange(1, 1 + decimal_text(b).len() as int) =~= decimal_text(b));
    assert(y.subrange(1, 1 + decimal_text(d).len() as int) =~= decimal_text(d));
}

/// Reads a decimal number up to `max`.
pub fn parse_number(s: &str, max: u64) -> (number: Option<u64>)
    ensures
        match number {
            Some(n) => number_in(s@, max as nat) == Some(n as nat),
            None => number_in(s@, max as nat) is None,
        },
{
    let all = chars_of(s);
    let start: usize = if all.len() > 0 && all[0] == '+' {
        1
    } else {
        0
    };
    let ghost digits = unsigned(s@);
    assert(digits =~= s@.skip(start as int));
    if all.len() == start {
        return None;
    }
    let mut value: u64 = 0;
    let mut i: usize = start;
    while i < all.len()
        invariant
            all@ == s@,
            start <= i <= all.len(),
            start < all.len(),
            digits == s@.skip(start as int),
            digits == unsigned(s@),
            forall|k: int| 0 <= k < i - start ==> '0' <= #[trigger] digits[k] <= '9',
            value == digits_value(digits.take(i - start)),
            value <= max,
        decreases all.len() - i,
    {
        let c = all[i];
        assert(digits[i - start] == c);
        if !('0' <= c && c <= '9') {
            return None;
        }
        let d: u64 = (c as u32 - 48) as u64;
        assert(digits.take(i - start + 1).drop_last() =~= digits.take(i - start));
        assert(digits.take(i - start + 1).last() == c);
        let ghost next = value * 10 + d;
        assert(digits_value(digits.take(i - start + 1)) == next);
        if value > (u64::MAX - d) / 10 || value * 10 + d > max {
            proof {
                if all_digits(digits) {
                    lemma_digits_grow(digits, i - start + 1);
                }
            }
            return None;
        }
        value = value * 10 + d;
        i = i + 1;
    }
    assert(digits.take(digits.len() as int) =~= digits);
    Some(value)
}

/// Why a text is no number.
#[derive(Debug, Clone, Copy, PartialEq, Eq, Structural)]
pub enum NumberFault {
    Empty,
    InvalidDigit,
    TooLarge,
}

impl NumberFault {
    pub open spec fn text(self) -> Seq<char> {
        match self {
            NumberFault::Empty => "cannot parse integer from empty string"@,
            NumberFault::InvalidDigit => "invalid digit found in string"@,
            NumberFault::TooLarge => "number too large to fit in target type"@,
        }
    }

    /// The message for the operator.
    pub fn message(self) -> (message: &'static str)
        ensures
            message@ == self.text(),
    {
        match self {
            NumberFault::Empty => "cannot parse integer from empty string",
            NumberFault::InvalidDigit => "invalid digit found in string",
            NumberFault::TooLarge => "number too large to fit in target type",
        }
    }
}

/// The number that digits stand for behind those of `value`, read from the left up to the first
/// character that is no digit or makes the number larger than `max`.
pub open spec fn scanned(digits: Seq<char>, value: nat, max: nat) -> Result<nat, NumberFault>
    decreases digits.len(),
{
    if digits.len() == 0 {
        Ok(value)
    } else if !('0' <= digits[0] <= '9') {
        Err(NumberFault::InvalidDigit)
    } else {
        let next = value * 10 + (digits[0] as int - 48) as nat;
        if next > max {
            Err(NumberFault::TooLarge)
        } else {
            scanned(digits.skip(1), next, max)
        }
    }
}

/// The number that a text spells: decimal digits behind an optional plus sign, up to `max`.
pub open spec fn spelled(s: Seq<char>, max: nat) -> Result<nat, NumberFault> {
    if s.len() == 0 {
        Err(NumberFault::Empty)
    } else if s.len() == 1 && s[0] == '+' {
        Err(NumberFault::InvalidDigit)
    } else {
        scanned(unsigned(s), 0, max)
    }
}

/// Reads a decimal number, or says why there is none.
pub fn read_number(s: &str) -> (number: Result<u64, NumberFault>)
    ensures
        match number {
            Ok(n) => spelled(s@, u64::MAX as nat) == Ok::<nat, NumberFault>(n as nat),
            Err(fault) => spelled(s@, u64::MAX as nat) == Err::<nat, NumberFault>(fault),
        },
{
    let all = chars_of(s);
    if all.len() == 0 {
        return Err(NumberFault::Empty);
    }
    if all.len() == 1 && all[0] == '+' {
        return Err(NumberFault::InvalidDigit);
    }
    let start: usize = if all[0] == '+' {
        1
    } else {
        0
    };
    let ghost digits = unsigned(s@);
    assert(digits =~= s@.skip(start as int));
    let mut value: u64 = 0;
    let mut i: usize = start;
    while i < all.len()
        invariant
            all@ == s@,
            start <= i <= all.len(),
            digits == s@.skip(start as int),
            s@.len() > 0,
            !(s@.len() == 1 && s@[0] == '+'),
            digits == unsigned(s@),
            scanned(digits, 0, u64::MAX as nat) == scanned(
                s@.skip(i as int),
                value as nat,
                u64::MAX as nat,
            ),
        decreases all.len() - i,
    {
        assert(s@.skip(i as int)[0] == all@[i as int]);
        assert(s@.skip(i as int).skip(1) =~= s@.skip(i + 1));
        let c = all[i];
        if !('0' <= c && c <= '9') {
            return Err(NumberFault::InvalidDigit);
        }
        let d: u64 = (c as u32 - 48) as u64;
        if value > (u64::MAX - d) / 10 {
            return Err(NumberFault::TooLarge);
        }
        value = value * 10 + d;
        i = i + 1;
    }
    Ok(value)
}

/// The texts of a list of strings.
pub open spec fn texts(list: Seq<String>) -> Seq<Seq<char>> {
    Seq::new(list.len(), |i: int| list[i]@)
}

/// Texts one after another, with `separator` between them.
pub open spec fn joined(parts: Seq<Seq<char>>, separator: Seq<char>) -> Seq<char>
    decreases parts.len(),
{
    if parts.len() == 0 {
        Seq::empty()
    } else if parts.len() == 1 {
        parts[0]
    } else {
        joined(parts.drop_last(), separator) + separator + parts.last()
    }
}

/// Whether a text stands on one line.
pub open spec fn one_line(s: Seq<char>) -> bool {
    forall|i: int| 0 <= i < s.len() ==> #[trigger] s[i] != '\n' && s[i] != '\r'
}

/// Texts on one line each, with a separator that has no line break, stand on one line together.
pub proof fn lemma_joined_one_line(parts: Seq<Seq<char>>, separator: Seq<char>)
    requires
        forall|i: int| 0 <= i < parts.len() ==> one_line(#[trigger] parts[i]),
        one_line(separator),
    ensures
        one_line(joined(parts, separator)),
    decreases parts.len(),
{
    if parts.len() > 1 {
        let front = parts.drop_last();
        assert forall|i: int| 0 <= i < front.len() implies one_line(#[trigger] front[i]) by {
            assert(front[i] == parts[i]);
        }
        lemma_joined_one_line(front, separator);
        assert(one_line(parts[parts.len() - 1]));
    }
}

/// Whether a text holds another.
pub open spec fn holds_text(s: Seq<char>, inner: Seq<char>) -> bool {
    exists|before: Seq<char>, after: Seq<char>| s == #[trigger] (before + inner + after)
}

/// What a text holds is also held by what holds the text.
pub proof fn lemma_holds_inside(before: Seq<char>, s: Seq<char>, after: Seq<char>, inner: Seq<char>)
    requires
        holds_text(s, inner),
    ensures
        holds_text(before + s + after, inner),
{
    let (front, back) = choose|front: Seq<char>, back: Seq<char>|
        s == #[trigger] (front + inner + back);
    assert(before + s + after =~= (before + front) + inner + (back + after));
}

/// Texts joined hold each of them.
pub proof fn lemma_joined_holds(parts: Seq<Seq<char>>, separator: Seq<char>, i: int)
    requires
        0 <= i < parts.len(),
    ensures
        holds_text(joined(parts, separator), parts[i]),
    decreases parts.len(),
{
    let none = Seq::<char>::empty();
    if parts.len() == 1 {
        assert(parts[0] =~= none + parts[0] + none);
    } else if i == parts.len() - 1 {
        let before = joined(parts.drop_last(), separator) + separator;
        assert(joined(parts, separator) =~= before + parts[i] + none);
    } else {
        let front = joined(parts.drop_last(), separator);
        lemma_joined_holds(parts.drop_last(), separator, i);
        lemma_holds_inside(none, front, separator + parts.last(), parts[i]);
        assert(joined(parts, separator) =~= none + front + (separator + parts.last()));
    }
}

/// Writes texts one after another, with `separator` between them.
pub fn join(parts: &Vec<String>, separator: &str) -> (text: String)
    ensures
        text@ == joined(texts(parts@), separator@),
{
    let mut text = String::new();
    let mut i: usize = 0;
    assert(texts(parts@).take(0) =~= Seq::empty());
    while i < parts.len()
        invariant
            i <= parts.len(),
            text@ == joined(texts(parts@).take(i as int), separator@),
        decreases parts.len() - i,
    {
        let ghost prefix = texts(parts@).take(i + 1);
        assert(prefix.drop_last() =~= texts(parts@).take(i as int));
        assert(prefix.last() == parts@[i as int]@);
        if i > 0 {
            text.append(separator);
        } else {
            assert(text@ + parts@[0]@ =~= parts@[0]@);
        }
        text.append(parts[i].as_str());
        i = i + 1;
    }
    assert(texts(parts@).take(parts@.len() as int) =~= texts(parts@));
    text
}

/// Two texts one after another.
pub fn cat2(a: &str, b: &str) -> (text: String)
    ensures
        text@ == a@ + b@,
{
    let mut text = a.to_owned();
    text.append(b);
    text
}

/// Three texts one after another.
pub fn cat3(a: &str, b: &str, c: &str) -> (text: String)
    ensures
        text@ == a@ + b@ + c@,
{
    let mut text = a.to_owned();
    text.append(b);
    text.append(c);
    text
}

/// Four texts one after another.
pub fn cat4(a: &str, b: &str, c: &str, d: &str) -> (text: String)
    ensures
        text@ == a@ + b@ + c@ + d@,
{
    let mut text = a.to_owned();
    text.append(b);
    text.append(c);
    text.append(d);
    text
}

/// Five texts one after another.
pub fn cat5(a: &str, b: &str, c: &str, d: &str, e: &str) -> (text: String)
    ensures
        text@ == a@ + b@ + c@ + d@ + e@,
{
    let mut text = a.to_owned();
    text.append(b);
    text.append(c);
    text.append(d);
    text.append(e);
    text
}

/// Six texts one after another.
pub fn cat6(a: &str, b: &str, c: &str, d: &str, e: &str, f: &str) -> (text: String)
    ensures
        text@ == a@ + b@ + c@ + d@ + e@ + f@,
{
    let mut text = a.to_owned();
    text.append(b);
    text.append(c);
    text.append(d);
    text.append(e);
    text.append(f);
    text
}

/// Seven texts one after another.
pub fn cat7(a: &str, b: &str, c: &str, d: &str, e: &str, f: &str, g: &str) -> (text: String)
    ensures
        text@ == a@ + b@ + c@ + d@ + e@ + f@ + g@,
{
    let mut text = a.to_owned();
    text.append(b);
    text.append(c);
    text.append(d);
    text.append(e);
    text.append(f);
    text.append(g);
    text
}

/// Whether a text holds printable ASCII alone, and neither quotes nor backslashes.
pub open spec fn is_plain(s: Seq<char>) -> bool {
    forall|i: int|
        0 <= i < s.len() ==> ' ' <= #[trigger] s[i] <= '~' && s[i] != '"' && s[i] != '\'' && s[i]
            != '\\'
}

/// What `{:?}` prints for a text that is not plain: the text in double quotes, with escapes where the
/// standard library wants them.
pub uninterp spec fn escaped_debug(s: Seq<char>) -> Seq<char>;

/// What `{:?}` prints for a text: a plain one as it is, in double quotes.
pub open spec fn debug_text(s: Seq<char>) -> Seq<char> {
    if is_plain(s) {
        seq!['"'] + s + seq!['"']
    } else {
        escaped_debug(s)
    }
}

/// Whether a text stands in double quotes, on one line.
pub open spec fn in_quotes(s: Seq<char>) -> bool {
    s.len() >= 2 && s[0] == '"' && s.last() == '"' && one_line(s)
}

/// The `Debug` form of a `str`, as `format!` prints it under `{:?}`. The contract says that a plain
/// text is printed as it is, in double quotes; of any other, that the result is a function of the
/// characters of the text, that it stands in double quotes, and that no line break is left in it.
#[verifier::external_body]
pub(crate) fn debug_str(s: &str) -> (text: String)
    ensures
        text@ == (if is_plain(s@) {
            seq!['"'] + s@ + seq!['"']
        } else {
            escaped_debug(s@)
        }),
        in_quotes(text@),
{
    format!("{:?}", s)
}

/// A list of texts in square brackets, each in its `Debug` form.
pub open spec fn debug_texts(list: Seq<Seq<char>>) -> Seq<char> {
    "["@ + joined(Seq::new(list.len(), |i: int| debug_text(list[i])), ", "@) + "]"@
}

/// The `Debug` form of each text.
fn debug_all(list: &Vec<String>) -> (quoted: Vec<String>)
    ensures
        texts(quoted@) == Seq::new(texts(list@).len(), |i: int| debug_text(texts(list@)[i])),
        forall|i: int| 0 <= i < list@.len() ==> in_quotes(debug_text((#[trigger] list@[i])@)),
{
    let mut quoted: Vec<String> = Vec::new();
    let mut i: usize = 0;
    while i < list.len()
        invariant
            i <= list.len(),
            quoted.len() == i,
            forall|k: int| 0 <= k < i ==> #[trigger] quoted@[k]@ == debug_text(list@[k]@),
            forall|k: int| 0 <= k < i ==> in_quotes(debug_text((#[trigger] list@[k])@)),
        decreases list.len() - i,
    {
        quoted.push(debug_str(list[i].as_str()));
        i = i + 1;
    }
    assert(texts(quoted@) =~= Seq::new(texts(list@).len(), |i: int| debug_text(texts(list@)[i])));
    quoted
}

/// Writes a list of texts in square brackets, each in its `Debug` form.
pub fn debug_list(list: &Vec<String>) -> (text: String)
    ensures
        text@ == debug_texts(texts(list@)),
        one_line(text@),
        forall|i: int| 0 <= i < list@.len() ==> in_quotes(debug_text((#[trigger] list@[i])@)),
{
    let quoted = debug_all(list);
    let mut text = "[".to_owned();
    text.append(join(&quoted, ", ").as_str());
    text.append("]");
    proof {
        reveal_strlit("[");
        reveal_strlit(", ");
        reveal_strlit("]");
        assert forall|i: int| 0 <= i < texts(quoted@).len() implies one_line(
            #[trigger] texts(quoted@)[i],
        ) by {
            assert(in_quotes(debug_text(list@[i]@)));
        }
        lemma_joined_one_line(texts(quoted@), ", "@);
    }
    text
}

/// A list in its `Debug` form holds the `Debug` form of each text.
pub proof fn lemma_debug_texts_hold(list: Seq<Seq<char>>, i: int)
    requires
        0 <= i < list.len(),
    ensures
        holds_text(debug_texts(list), debug_text(list[i])),
{
    let quoted = Seq::new(list.len(), |i: int| debug_text(list[i]));
    lemma_joined_holds(quoted, ", "@, i);
    lemma_holds_inside("["@, joined(quoted, ", "@), "]"@, quoted[i]);
}

/// A set of texts in braces, each in its `Debug` form.
pub open spec fn debug_set_texts(list: Seq<Seq<char>>) -> Seq<char> {
    "{"@ + joined(Seq::new(list.len(), |i: int| debug_text(list[i])), ", "@) + "}"@
}

/// Writes a set of texts in braces, each in its `Debug` form.
pub fn debug_set(list: &Vec<String>) -> (text: String)
    ensures
        text@ == debug_set_texts(texts(list@)),
{
    let mut text = "{".to_owned();
    text.append(join(&debug_all(list), ", ").as_str());
    text.append("}");
    text
}

/// Texts in order, equal ones side by side.
pub open spec fn sorted_texts(list: Seq<Seq<char>>) -> bool {
    forall|i: int, j: int|
        0 <= i < j < list.len() ==> !text_lt(#[trigger] list[j], #[trigger] list[i])
}

/// Puts a list of names in order.
pub fn sort_names(list: Vec<String>) -> (sorted: Vec<String>)
    ensures
        sorted_texts(texts(sorted@)),
        texts(sorted@).to_multiset() == texts(list@).to_multiset(),
{
    let mut sorted: Vec<String> = Vec::new();
    let mut i: usize = 0;
    assert(texts(list@).take(0) =~= texts(sorted@));
    while i < list.len()
        invariant
            i <= list.len(),
            sorted_texts(texts(sorted@)),
            texts(sorted@).to_multiset() == texts(list@).take(i as int).to_multiset(),
        decreases list.len() - i,
    {
        let name = list[i].clone();
        let mut p: usize = 0;
        while p < sorted.len() && !before(name.as_str(), sorted[p].as_str())
            invariant
                p <= sorted.len(),
                forall|k: int| 0 <= k < p ==> !text_lt(name@, #[trigger] texts(sorted@)[k]),
            decreases sorted.len() - p,
        {
            p = p + 1;
        }
        let ghost was = texts(sorted@);
        let ghost added = name@;
        sorted.insert(p, name);
        proof {
            broadcast use vstd::seq_lib::group_to_multiset_ensures;

            assert(texts(sorted@) =~= was.insert(p as int, added));
            assert(texts(list@).take(i + 1) =~= texts(list@).take(i as int).push(added));
            lemma_sorted_insert(was, p as int, added);
        }
        i = i + 1;
    }
    assert(texts(list@).take(list@.len() as int) =~= texts(list@));
    sorted
}

/// A text put between those not greater and the first that is greater keeps the order.
proof fn lemma_sorted_insert(list: Seq<Seq<char>>, p: int, added: Seq<char>)
    requires
        sorted_texts(list),
        0 <= p <= list.len(),
        forall|k: int| 0 <= k < p ==> !text_lt(added, #[trigger] list[k]),
        p < list.len() ==> text_lt(added, list[p]),
    ensures
        sorted_texts(list.insert(p, added)),
{
    let after = list.insert(p, added);
    assert forall|i: int, j: int| 0 <= i < j < after.len() implies !text_lt(
        #[trigger] after[j],
        #[trigger] after[i],
    ) by {
        if j == p {
            assert(after[i] == list[i]);
        } else if i == p {
            assert(after[j] == list[j - 1]);
            if text_lt(list[j - 1], added) {
                text_lt_transitive(list[j - 1], added, list[p]);
                text_lt_trichotomy(list[j - 1], list[p]);
                if j - 1 > p {
                    assert(!text_lt(list[j - 1], list[p]));
                }
            }
        } else {
            let a = if i < p {
                i
            } else {
                i - 1
            };
            let b = if j < p {
                j
            } else {
                j - 1
            };
            assert(after[i] == list[a] && after[j] == list[b]);
        }
    }
}

/// The number that digits make behind those of `value`, read from the left.
spec fn counted(value: nat, digits: Seq<char>) -> nat
    decreases digits.len(),
{
    if digits.len() == 0 {
        value
    } else {
        counted(value * 10 + (digits[0] as int - 48) as nat, digits.skip(1))
    }
}

/// Reading on from the left gives the number of all the digits.
proof fn lemma_counted(done: Seq<char>, digits: Seq<char>)
    requires
        forall|i: int| 0 <= i < digits.len() ==> '0' <= #[trigger] digits[i] <= '9',
    ensures
        counted(digits_value(done), digits) == digits_value(done + digits),
        counted(digits_value(done), digits) >= digits_value(done),
    decreases digits.len(),
{
    if digits.len() == 0 {
        assert(done + digits =~= done);
    } else {
        let longer = done.push(digits[0]);
        assert(longer.drop_last() =~= done);
        assert forall|i: int| 0 <= i < digits.skip(1).len() implies '0' <= #[trigger] digits.skip(
            1,
        )[i] <= '9' by {
            assert(digits.skip(1)[i] == digits[i + 1]);
        }
        lemma_counted(longer, digits.skip(1));
        assert(longer + digits.skip(1) =~= done + digits);
    }
}

proof fn lemma_scanned(done: Seq<char>, digits: Seq<char>, max: nat)
    requires
        digits_value(done) <= max,
    ensures
        scanned(digits, digits_value(done), max) matches Ok(n) ==> (forall|i: int|
            0 <= i < digits.len() ==> '0' <= #[trigger] digits[i] <= '9') && n == digits_value(
            done + digits,
        ) && n <= max,
        (forall|i: int| 0 <= i < digits.len() ==> '0' <= #[trigger] digits[i] <= '9')
            && digits_value(done + digits) <= max ==> scanned(
            digits,
            digits_value(done),
            max,
        ) is Ok,
    decreases digits.len(),
{
    if digits.len() == 0 {
        assert(done + digits =~= done);
    } else if '0' <= digits[0] <= '9' {
        let longer = done.push(digits[0]);
        let rest = digits.skip(1);
        assert(longer.drop_last() =~= done);
        assert(longer + rest =~= done + digits);
        if digits_value(longer) <= max {
            lemma_scanned(longer, rest, max);
            if scanned(rest, digits_value(longer), max) is Ok {
                assert forall|i: int| 0 <= i < digits.len() implies '0' <= #[trigger] digits[i]
                    <= '9' by {
                    if i > 0 {
                        assert(rest[i - 1] == digits[i]);
                    }
                }
            }
            if forall|i: int| 0 <= i < digits.len() ==> '0' <= #[trigger] digits[i] <= '9' {
                assert forall|i: int| 0 <= i < rest.len() implies '0' <= #[trigger] rest[i]
                    <= '9' by {
                    assert(rest[i] == digits[i + 1]);
                }
            }
        } else if forall|i: int| 0 <= i < digits.len() ==> '0' <= #[trigger] digits[i] <= '9' {
            assert forall|i: int| 0 <= i < rest.len() implies '0' <= #[trigger] rest[i] <= '9' by {
                assert(rest[i] == digits[i + 1]);
            }
            lemma_counted(longer, rest);
        }
    } else {
        assert(digits[0] == digits[0]);
    }
}

/// A text spells a number exactly where it is decimal digits behind an optional plus sign whose
/// number is not above the largest, and then it spells that number.
pub proof fn a_number_is_spelled_by_its_digits(s: Seq<char>, max: nat)
    ensures
        spelled(s, max) is Ok <==> all_digits(unsigned(s)) && digits_value(unsigned(s)) <= max,
        spelled(s, max) is Ok ==> spelled(s, max)->Ok_0 == digits_value(unsigned(s)),
        number_in(s, max) is Some <==> spelled(s, max) is Ok,
{
    let digits = unsigned(s);
    let none = Seq::<char>::empty();
    assert(none + digits =~= digits);
    assert(digits_value(none) == 0);
    lemma_scanned(none, digits, max);
}

/// Every number is spelled by its own decimal text, with or without a plus sign before it.
pub proof fn decimal_text_spells_its_number(n: nat, max: nat)
    requires
        n <= max,
    ensures
        spelled(decimal_text(n), max) == Ok::<nat, NumberFault>(n),
        spelled(seq!['+'] + decimal_text(n), max) == Ok::<nat, NumberFault>(n),
        number_in(decimal_text(n), max) == Some(n),
        number_in(seq!['+'] + decimal_text(n), max) == Some(n),
{
    let s = decimal_text(n);
    decimal_reads_back(n);
    assert('0' <= s[0] <= '9');
    let signed = seq!['+'] + s;
    assert(signed.skip(1) =~= s);
    a_number_is_spelled_by_its_digits(s, max);
    a_number_is_spelled_by_its_digits(signed, max);
}

/// Trimming takes characters of the set off one end, as many as stand there together, and nothing
/// else.
pub proof fn trimming_takes_only_the_ends(s: Seq<char>, drop: Set<char>)
    ensures
        ({
            let rest = trim_front(s, drop);
            &&& rest.len() <= s.len()
            &&& rest == s.skip(s.len() - rest.len())
            &&& forall|i: int| 0 <= i < s.len() - rest.len() ==> drop.contains(#[trigger] s[i])
            &&& rest.len() > 0 ==> !drop.contains(rest[0])
        }),
        ({
            let rest = trim_back(s, drop);
            &&& rest.len() <= s.len()
            &&& rest == s.take(rest.len() as int)
            &&& forall|i: int| rest.len() <= i < s.len() ==> drop.contains(#[trigger] s[i])
            &&& rest.len() > 0 ==> !drop.contains(rest.last())
        }),
    decreases s.len(),
{
    if s.len() > 0 {
        if drop.contains(s[0]) {
            let next = s.skip(1);
            trimming_takes_only_the_ends(next, drop);
            let rest = trim_front(next, drop);
            assert(s.skip(s.len() - rest.len()) =~= next.skip(next.len() - rest.len()));
            assert forall|i: int| 0 <= i < s.len() - rest.len() implies drop.contains(
                #[trigger] s[i],
            ) by {
                if i > 0 {
                    assert(next[i - 1] == s[i]);
                }
            }
        } else {
            assert(s.skip(0) =~= s);
        }
        if drop.contains(s.last()) {
            let next = s.drop_last();
            trimming_takes_only_the_ends(next, drop);
            let rest = trim_back(next, drop);
            assert(s.take(rest.len() as int) =~= next.take(rest.len() as int));
            assert forall|i: int| rest.len() <= i < s.len() implies drop.contains(
                #[trigger] s[i],
            ) by {
                if i < next.len() {
                    assert(next[i] == s[i]);
                }
            }
        } else {
            assert(s.take(s.len() as int) =~= s);
        }
    } else {
        assert(s.skip(0) =~= s);
        assert(s.take(0) =~= s);
    }
}

/// A trimmed text is a part of the text that neither begins nor ends with white space, and nothing
/// but white space stands around it.
pub proof fn a_trimmed_text_is_free_of_white_space_at_its_ends(s: Seq<char>) -> (at: int)
    ensures
        0 <= at <= at + trimmed(s).len() <= s.len(),
        trimmed(s) == s.subrange(at, at + trimmed(s).len()),
        forall|i: int| 0 <= i < at ==> is_white_space(#[trigger] s[i]),
        forall|i: int| at + trimmed(s).len() <= i < s.len() ==> is_white_space(#[trigger] s[i]),
        trimmed(s).len() > 0 ==> !is_white_space(trimmed(s)[0]) && !is_white_space(
            trimmed(s).last(),
        ),
{
    let drop = white_space_set();
    let front = trim_front(s, drop);
    trimming_takes_only_the_ends(s, drop);
    trimming_takes_only_the_ends(front, drop);
    let at = s.len() - front.len();
    let rest = trimmed(s);
    assert(rest =~= s.subrange(at, at + rest.len()));
    assert forall|i: int| 0 <= i < at implies is_white_space(#[trigger] s[i]) by {
        assert(drop.contains(s[i]));
    }
    assert forall|i: int| at + rest.len() <= i < s.len() implies is_white_space(#[trigger] s[i]) by {
        assert(s[i] == front[i - at]);
        assert(drop.contains(front[i - at]));
    }
    at
}

/// Of the ASCII characters, the space and the five control characters that move the place of print
/// are white space; no letter, digit or mark is.
pub proof fn ascii_white_space_is_known(c: char)
    requires
        (c as int) < 0x80,
    ensures
        is_white_space(c) <==> (c == ' ' || c == '\t' || c == '\n' || c == '\r' || c == '\u{b}' || c
            == '\u{c}'),
{
}

} // verus!
