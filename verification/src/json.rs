//! JSON documents as plain values.
use vstd::prelude::*;
use vstd::string::*;
use crate::ids;
use crate::text;

verus! {

/// A JSON value. Object members keep the order in which the document states them.
///
/// A number with a fraction or an exponent is held as the text that a serializer writes for it. A
/// text that is empty or has a character that no number has is written as a string, so that a value
/// always ends where its text does.
#[derive(Debug)]
pub enum Json {
    Null,
    Bool(bool),
    Unsigned(u64),
    Negative(i64),
    Decimal(String),
    Text(String),
    List(Vec<Json>),
    Object(Vec<(String, Json)>),
}

/// What a JSON value holds.
pub enum JsonValue {
    Null,
    Bool(bool),
    Unsigned(u64),
    Negative(i64),
    Decimal(Seq<char>),
    Text(Seq<char>),
    List(Seq<JsonValue>),
    Object(Seq<(Seq<char>, JsonValue)>),
}

/// What a list of JSON values holds.
pub open spec fn items_view(items: Seq<Json>) -> Seq<JsonValue>
    decreases items,
{
    if items.len() == 0 {
        Seq::empty()
    } else {
        items_view(items.drop_last()).push(items.last().view())
    }
}

/// What the members of a JSON object hold.
pub open spec fn members_view(members: Seq<(String, Json)>) -> Seq<(Seq<char>, JsonValue)>
    decreases members,
{
    if members.len() == 0 {
        Seq::empty()
    } else {
        members_view(members.drop_last()).push((members.last().0@, members.last().1.view()))
    }
}

impl Json {
    pub open spec fn view(self) -> JsonValue
        decreases self,
    {
        match self {
            Json::Null => JsonValue::Null,
            Json::Bool(b) => JsonValue::Bool(b),
            Json::Unsigned(n) => JsonValue::Unsigned(n),
            Json::Negative(n) => JsonValue::Negative(n),
            Json::Decimal(s) => JsonValue::Decimal(s@),
            Json::Text(s) => JsonValue::Text(s@),
            Json::List(items) => JsonValue::List(items_view(items@)),
            Json::Object(members) => JsonValue::Object(members_view(members@)),
        }
    }

    /// A second copy of this value.
    pub fn copy(&self) -> (other: Json)
        ensures
            other@ == self@,
        decreases self,
    {
        match self {
            Json::Null => Json::Null,
            Json::Bool(b) => Json::Bool(*b),
            Json::Unsigned(n) => Json::Unsigned(*n),
            Json::Negative(n) => Json::Negative(*n),
            Json::Decimal(s) => Json::Decimal(s.clone()),
            Json::Text(s) => Json::Text(s.clone()),
            Json::List(items) => {
                let mut out: Vec<Json> = Vec::new();
                let mut i: usize = 0;
                while i < items.len()
                    invariant
                        i <= items.len(),
                        *self == Json::List(*items),
                        items_view(out@) == items_view(items@.take(i as int)),
                    decreases items.len() - i,
                {
                    assert(decreases_to!(self => self->List_0));
                    assert(decreases_to!(items => items@));
                    assert(decreases_to!(items@ => items@[i as int]));
                    let item = items[i].copy();
                    let ghost was = out@;
                    out.push(item);
                    assert(out@.drop_last() =~= was);
                    assert(items@.take(i + 1).drop_last() =~= items@.take(i as int));
                    i = i + 1;
                }
                assert(items@.take(items@.len() as int) =~= items@);
                Json::List(out)
            },
            Json::Object(members) => {
                let mut out: Vec<(String, Json)> = Vec::new();
                let mut i: usize = 0;
                while i < members.len()
                    invariant
                        i <= members.len(),
                        *self == Json::Object(*members),
                        members_view(out@) == members_view(members@.take(i as int)),
                    decreases members.len() - i,
                {
                    assert(decreases_to!(self => self->Object_0));
                    assert(decreases_to!(members => members@));
                    assert(decreases_to!(members@ => members@[i as int]));
                    assert(decreases_to!(members@[i as int] => members@[i as int].1));
                    let value = members[i].1.copy();
                    let ghost was = out@;
                    out.push((members[i].0.clone(), value));
                    assert(out@.drop_last() =~= was);
                    assert(members@.take(i + 1).drop_last() =~= members@.take(i as int));
                    i = i + 1;
                }
                assert(members@.take(members@.len() as int) =~= members@);
                Json::Object(out)
            },
        }
    }
}

/// The items of a JSON list one by one.
pub proof fn lemma_items_at(items: Seq<Json>)
    ensures
        items_view(items).len() == items.len(),
        forall|i: int| 0 <= i < items.len() ==> #[trigger] items_view(items)[i] == items[i]@,
    decreases items.len(),
{
    if items.len() > 0 {
        let front = items.drop_last();
        lemma_items_at(front);
        assert forall|i: int| 0 <= i < items.len() implies #[trigger] items_view(items)[i]
            == items[i]@ by {
            if i < items.len() - 1 {
                assert(items_view(items)[i] == items_view(front)[i]);
                assert(front[i] == items[i]);
            }
        }
    }
}

/// The members of a JSON object one by one.
pub proof fn lemma_members_at(members: Seq<(String, Json)>)
    ensures
        members_view(members).len() == members.len(),
        forall|i: int|
            0 <= i < members.len() ==> #[trigger] members_view(members)[i] == (
                members[i].0@,
                members[i].1@,
            ),
    decreases members.len(),
{
    if members.len() > 0 {
        let front = members.drop_last();
        lemma_members_at(front);
        assert forall|i: int| 0 <= i < members.len() implies #[trigger] members_view(members)[i] == (
            members[i].0@,
            members[i].1@,
        ) by {
            if i < members.len() - 1 {
                assert(members_view(members)[i] == members_view(front)[i]);
                assert(front[i] == members[i]);
            }
        }
    }
}

/// How one character stands in a JSON string: quotes, backslashes and control characters are
/// escaped.
pub open spec fn escaped(c: char) -> Seq<char> {
    let n = c as int;
    if c == '"' {
        seq!['\\', '"']
    } else if c == '\\' {
        seq!['\\', '\\']
    } else if n == 8 {
        seq!['\\', 'b']
    } else if n == 9 {
        seq!['\\', 't']
    } else if n == 10 {
        seq!['\\', 'n']
    } else if n == 12 {
        seq!['\\', 'f']
    } else if n == 13 {
        seq!['\\', 'r']
    } else if n < 32 {
        seq!['\\', 'u', '0', '0', ids::hex_char(n / 16), ids::hex_char(n % 16)]
    } else {
        seq![c]
    }
}

/// The characters of a JSON string, escaped.
pub open spec fn escaped_all(s: Seq<char>) -> Seq<char>
    decreases s.len(),
{
    if s.len() == 0 {
        Seq::empty()
    } else {
        escaped(s[0]) + escaped_all(s.skip(1))
    }
}

/// A text as a JSON string: in double quotes, with escapes.
pub open spec fn quoted(s: Seq<char>) -> Seq<char> {
    seq!['"'] + escaped_all(s) + seq!['"']
}

/// `serde_json::to_string` on a string. The contract says which characters are escaped, and how.
#[verifier::external_body]
fn quote(s: &str) -> (text: String)
    ensures
        text@ == quoted(s@),
{
    serde_json::to_string(s).unwrap_or_default()
}

/// A document that `serde_json` has parsed. What it holds is told by `value_held`.
#[verifier::external_type_specification]
#[verifier::external_body]
pub struct ParsedDocument(serde_json::Value);

/// What a document that `serde_json` has parsed holds.
pub uninterp spec fn value_held(value: serde_json::Value) -> JsonValue;

/// What `serde_json` makes of a text: the value that it holds, or the complaint.
pub uninterp spec fn json_in(s: Seq<char>) -> Result<JsonValue, Seq<char>>;

/// `serde_json::from_str` into a `serde_json::Value`. The contract says only that what the value
/// holds, or what the error says, is a function of the text.
#[verifier::external_body]
fn parse_value(s: &str) -> (value: Result<serde_json::Value, String>)
    ensures
        match value {
            Ok(value) => json_in(s@) == Ok::<JsonValue, Seq<char>>(value_held(value)),
            Err(why) => json_in(s@) == Err::<JsonValue, Seq<char>>(why@),
        },
{
    serde_json::from_str(s).map_err(|err| err.to_string())
}

/// A `serde_json::Value`, variant by variant. A number is a `u64` or an `i64` where it is one, and
/// otherwise the text that `serde_json` writes for it; an object keeps the order of its members.
#[verifier::external_body]
fn of_value(value: serde_json::Value) -> (json: Json)
    ensures
        json@ == value_held(value),
{
    match value {
        serde_json::Value::Null => Json::Null,
        serde_json::Value::Bool(b) => Json::Bool(b),
        serde_json::Value::Number(n) => match (n.as_u64(), n.as_i64()) {
            (Some(n), _) => Json::Unsigned(n),
            (None, Some(n)) => Json::Negative(n),
            (None, None) => Json::Decimal(n.to_string()),
        },
        serde_json::Value::String(s) => Json::Text(s),
        serde_json::Value::Array(items) => Json::List(items.into_iter().map(of_value).collect()),
        serde_json::Value::Object(members) => {
            Json::Object(members.into_iter().map(|(key, value)| (key, of_value(value))).collect())
        }
    }
}

/// Reads a text as JSON.
pub fn parse(s: &str) -> (json: Result<Json, String>)
    ensures
        match json {
            Ok(json) => json_in(s@) == Ok::<JsonValue, Seq<char>>(json@),
            Err(why) => json_in(s@) == Err::<JsonValue, Seq<char>>(why@),
        },
{
    match parse_value(s) {
        Ok(value) => Ok(of_value(value)),
        Err(why) => Err(why),
    }
}

/// The escapes of two characters differ within the length that both have.
proof fn lemma_escapes_differ(a: char, b: char)
    requires
        escaped(a)[0] == escaped(b)[0],
        escaped(a).len() > 1 && escaped(b).len() > 1 ==> escaped(a)[1] == escaped(b)[1],
        escaped(a).len() == 6 && escaped(b).len() == 6 ==> escaped(a)[4] == escaped(b)[4]
            && escaped(a)[5] == escaped(b)[5],
    ensures
        a == b,
{
    if escaped(a).len() == 6 && escaped(b).len() == 6 {
        let m = a as int;
        let n = b as int;
        assert(ids::hex_char(m / 16) == ids::hex_char(n / 16));
        assert(ids::hex_char(m % 16) == ids::hex_char(n % 16));
        assert(m / 16 == n / 16 && m % 16 == n % 16);
    }
}

/// Writes a text as a JSON string.
pub fn quote_text(s: &str) -> (text: String)
    ensures
        text@ == quoted(s@),
{
    quote(s)
}

/// Two escaped texts, each with a quote behind it and then whatever, are the same only if the
/// texts are the same and what follows is too.
pub proof fn escaping_is_unambiguous(a: Seq<char>, b: Seq<char>, x: Seq<char>, y: Seq<char>)
    requires
        escaped_all(a) + seq!['"'] + x == escaped_all(b) + seq!['"'] + y,
    ensures
        a == b,
        x == y,
    decreases a.len() + b.len(),
{
    let left = escaped_all(a) + seq!['"'] + x;
    let right = escaped_all(b) + seq!['"'] + y;
    if a.len() == 0 && b.len() == 0 {
        assert(a =~= b);
        assert(left.skip(1) =~= x);
        assert(right.skip(1) =~= y);
    } else if a.len() == 0 {
        assert(left[0] == '"');
        assert(right[0] == escaped(b[0])[0]);
    } else if b.len() == 0 {
        assert(right[0] == '"');
        assert(left[0] == escaped(a[0])[0]);
    } else {
        let ea = escaped(a[0]);
        let eb = escaped(b[0]);
        assert(left =~= ea + (escaped_all(a.skip(1)) + seq!['"'] + x));
        assert(right =~= eb + (escaped_all(b.skip(1)) + seq!['"'] + y));
        assert(left[0] == ea[0] && right[0] == eb[0]);
        if ea.len() > 1 && eb.len() > 1 {
            assert(left[1] == ea[1] && right[1] == eb[1]);
        }
        if ea.len() == 6 && eb.len() == 6 {
            assert(left[4] == ea[4] && right[4] == eb[4]);
            assert(left[5] == ea[5] && right[5] == eb[5]);
        }
        lemma_escapes_differ(a[0], b[0]);
        assert(left.skip(ea.len() as int) =~= escaped_all(a.skip(1)) + seq!['"'] + x);
        assert(right.skip(ea.len() as int) =~= escaped_all(b.skip(1)) + seq!['"'] + y);
        escaping_is_unambiguous(a.skip(1), b.skip(1), x, y);
        assert(a =~= seq![a[0]] + a.skip(1));
        assert(b =~= seq![b[0]] + b.skip(1));
    }
}

/// The items of a JSON list in compact form, with commas between them.
pub open spec fn items_text(items: Seq<JsonValue>) -> Seq<char>
    decreases items,
{
    if items.len() == 0 {
        Seq::empty()
    } else if items.len() == 1 {
        json_text(items.last())
    } else {
        items_text(items.drop_last()) + ","@ + json_text(items.last())
    }
}

/// The members of a JSON object in compact form, with commas between them.
pub open spec fn members_text(members: Seq<(Seq<char>, JsonValue)>) -> Seq<char>
    decreases members,
{
    if members.len() == 0 {
        Seq::empty()
    } else {
        let last = quoted(members.last().0) + ":"@ + json_text(members.last().1);
        if members.len() == 1 {
            last
        } else {
            members_text(members.drop_last()) + ","@ + last
        }
    }
}

/// Whether a character can stand in a number.
pub open spec fn in_number(c: char) -> bool {
    '0' <= c <= '9' || c == '-' || c == '+' || c == '.' || c == 'e' || c == 'E'
}

/// Whether a text can be a number.
pub open spec fn is_number(s: Seq<char>) -> bool {
    &&& s.len() > 0
    &&& forall|i: int| 0 <= i < s.len() ==> in_number(#[trigger] s[i])
}

fn holds_number(s: &str) -> (number: bool)
    ensures
        number == is_number(s@),
{
    let chars = text::chars_of(s);
    let mut i: usize = 0;
    while i < chars.len()
        invariant
            i <= chars.len(),
            chars@ == s@,
            forall|k: int| 0 <= k < i ==> in_number(#[trigger] s@[k]),
        decreases chars.len() - i,
    {
        let c: char = chars[i];
        if !('0' <= c && c <= '9' || c == '-' || c == '+' || c == '.' || c == 'e' || c == 'E') {
            assert(!in_number(s@[i as int]));
            return false;
        }
        i = i + 1;
    }
    chars.len() > 0
}

/// A JSON value in compact form: no white space, members in their own order.
pub open spec fn json_text(value: JsonValue) -> Seq<char>
    decreases value,
{
    match value {
        JsonValue::Null => "null"@,
        JsonValue::Bool(b) => if b {
            "true"@
        } else {
            "false"@
        },
        JsonValue::Unsigned(n) => text::decimal_text(n as nat),
        JsonValue::Negative(n) => if n < 0 {
            "-"@ + text::decimal_text((-n) as nat)
        } else {
            text::decimal_text(n as nat)
        },
        JsonValue::Decimal(s) => if is_number(s) {
            s
        } else {
            quoted(s)
        },
        JsonValue::Text(s) => quoted(s),
        JsonValue::List(items) => "["@ + items_text(items) + "]"@,
        JsonValue::Object(members) => "{"@ + members_text(members) + "}"@,
    }
}

impl Json {
    /// Writes this value in compact form.
    pub fn to_text(&self) -> (text: String)
        ensures
            text@ == json_text(self@),
        decreases self,
    {
        match self {
            Json::Null => "null".to_owned(),
            Json::Bool(b) => if *b {
                "true".to_owned()
            } else {
                "false".to_owned()
            },
            Json::Unsigned(n) => text::decimal(*n as u128),
            Json::Negative(n) => if *n < 0 {
                let mut text = "-".to_owned();
                let size: u128 = (-(*n as i128)) as u128;
                text.append(text::decimal(size).as_str());
                text
            } else {
                text::decimal(*n as u128)
            },
            Json::Decimal(s) => if holds_number(s.as_str()) {
                s.clone()
            } else {
                quote(s.as_str())
            },
            Json::Text(s) => quote(s.as_str()),
            Json::List(items) => {
                let mut inner = String::new();
                let mut i: usize = 0;
                assert(items@.take(0) =~= Seq::empty());
                while i < items.len()
                    invariant
                        i <= items.len(),
                        *self == Json::List(*items),
                        inner@ == items_text(items_view(items@.take(i as int))),
                    decreases items.len() - i,
                {
                    assert(decreases_to!(self => self->List_0));
                    assert(decreases_to!(items => items@));
                    assert(decreases_to!(items@ => items@[i as int]));
                    let ghost longer = items@.take(i + 1);
                    assert(longer.drop_last() =~= items@.take(i as int));
                    assert(items_view(longer).drop_last() =~= items_view(items@.take(i as int)));
                    proof {
                        lemma_items_at(longer);
                    }
                    let item = items[i].to_text();
                    if i > 0 {
                        inner.append(",");
                    } else {
                        assert(inner@ + item@ =~= item@);
                    }
                    inner.append(item.as_str());
                    i = i + 1;
                }
                assert(items@.take(items@.len() as int) =~= items@);
                let mut text = "[".to_owned();
                text.append(inner.as_str());
                text.append("]");
                text
            },
            Json::Object(members) => {
                let mut inner = String::new();
                let mut i: usize = 0;
                assert(members@.take(0) =~= Seq::empty());
                while i < members.len()
                    invariant
                        i <= members.len(),
                        *self == Json::Object(*members),
                        inner@ == members_text(members_view(members@.take(i as int))),
                    decreases members.len() - i,
                {
                    assert(decreases_to!(self => self->Object_0));
                    assert(decreases_to!(members => members@));
                    assert(decreases_to!(members@ => members@[i as int]));
                    assert(decreases_to!(members@[i as int] => members@[i as int].1));
                    let ghost longer = members@.take(i + 1);
                    assert(longer.drop_last() =~= members@.take(i as int));
                    assert(members_view(longer).drop_last() =~= members_view(
                        members@.take(i as int),
                    ));
                    proof {
                        lemma_members_at(longer);
                    }
                    let mut member = quote(members[i].0.as_str());
                    member.append(":");
                    member.append(members[i].1.to_text().as_str());
                    if i > 0 {
                        inner.append(",");
                    } else {
                        assert(inner@ + member@ =~= member@);
                    }
                    inner.append(member.as_str());
                    i = i + 1;
                }
                assert(members@.take(members@.len() as int) =~= members@);
                let mut text = "{".to_owned();
                text.append(inner.as_str());
                text.append("}");
                text
            },
        }
    }

    /// Whether two values hold the same.
    pub fn same(&self, other: &Json) -> (equal: bool)
        ensures
            equal == (self@ == other@),
        decreases self,
    {
        match (self, other) {
            (Json::Null, Json::Null) => true,
            (Json::Bool(a), Json::Bool(b)) => *a == *b,
            (Json::Unsigned(a), Json::Unsigned(b)) => *a == *b,
            (Json::Negative(a), Json::Negative(b)) => *a == *b,
            (Json::Decimal(a), Json::Decimal(b)) => text::same(a.as_str(), b.as_str()),
            (Json::Text(a), Json::Text(b)) => text::same(a.as_str(), b.as_str()),
            (Json::List(a), Json::List(b)) => {
                proof {
                    lemma_items_at(a@);
                    lemma_items_at(b@);
                }
                if a.len() != b.len() {
                    return false;
                }
                let mut i: usize = 0;
                while i < a.len()
                    invariant
                        i <= a.len(),
                        a.len() == b.len(),
                        *self == Json::List(*a),
                        *other == Json::List(*b),
                        forall|k: int| 0 <= k < i ==> #[trigger] a@[k]@ == b@[k]@,
                    decreases a.len() - i,
                {
                    assert(decreases_to!(self => self->List_0));
                    assert(decreases_to!(a => a@));
                    assert(decreases_to!(a@ => a@[i as int]));
                    proof {
                        lemma_items_at(a@);
                        lemma_items_at(b@);
                        assert(items_view(a@)[i as int] == a@[i as int]@);
                        assert(items_view(b@)[i as int] == b@[i as int]@);
                    }
                    if !a[i].same(&b[i]) {
                        return false;
                    }
                    i = i + 1;
                }
                assert(items_view(a@) =~= items_view(b@));
                true
            },
            (Json::Object(a), Json::Object(b)) => {
                proof {
                    lemma_members_at(a@);
                    lemma_members_at(b@);
                }
                if a.len() != b.len() {
                    return false;
                }
                let mut i: usize = 0;
                while i < a.len()
                    invariant
                        i <= a.len(),
                        a.len() == b.len(),
                        *self == Json::Object(*a),
                        *other == Json::Object(*b),
                        forall|k: int|
                            0 <= k < i ==> (#[trigger] a@[k]).0@ == b@[k].0@ && a@[k].1@
                                == b@[k].1@,
                    decreases a.len() - i,
                {
                    assert(decreases_to!(self => self->Object_0));
                    assert(decreases_to!(a => a@));
                    assert(decreases_to!(a@ => a@[i as int]));
                    assert(decreases_to!(a@[i as int] => a@[i as int].1));
                    proof {
                        lemma_members_at(a@);
                        lemma_members_at(b@);
                        assert(members_view(a@)[i as int] == (a@[i as int].0@, a@[i as int].1@));
                        assert(members_view(b@)[i as int] == (b@[i as int].0@, b@[i as int].1@));
                    }
                    if !text::same(a[i].0.as_str(), b[i].0.as_str()) {
                        return false;
                    }
                    if !a[i].1.same(&b[i].1) {
                        return false;
                    }
                    assert(a@[i as int].0@ == b@[i as int].0@);
                    assert(a@[i as int].1@ == b@[i as int].1@);
                    i = i + 1;
                }
                assert(members_view(a@) =~= members_view(b@));
                true
            },
            _ => false,
        }
    }
}

/// The value of the first member of that name.
pub open spec fn member(members: Seq<(Seq<char>, JsonValue)>, key: Seq<char>) -> Option<JsonValue>
    decreases members.len(),
{
    if members.len() == 0 {
        None
    } else if members[0].0 == key {
        Some(members[0].1)
    } else {
        member(members.skip(1), key)
    }
}

/// The value of the member of that name, where the value is an object that has one.
pub open spec fn get_member(value: JsonValue, key: Seq<char>) -> Option<JsonValue> {
    match value {
        JsonValue::Object(members) => member(members, key),
        _ => None,
    }
}

impl Json {
    /// The value of the member of that name, where this is an object that has one.
    pub fn get(&self, key: &str) -> (found: Option<&Json>)
        ensures
            match found {
                Some(value) => get_member(self@, key@) == Some(value@) && decreases_to!(
                    self => value
                ),
                None => get_member(self@, key@) is None,
            },
    {
        let members = match self {
            Json::Object(members) => members,
            _ => {
                return None;
            },
        };
        proof {
            lemma_members_at(members@);
        }
        let ghost all = members_view(members@);
        let mut i: usize = 0;
        assert(all.skip(0) =~= all);
        while i < members.len()
            invariant
                i <= members.len(),
                *self == Json::Object(*members),
                all == members_view(members@),
                all.len() == members.len(),
                forall|k: int|
                    0 <= k < members@.len() ==> #[trigger] all[k] == (
                        members@[k].0@,
                        members@[k].1@,
                    ),
                member(all, key@) == member(all.skip(i as int), key@),
            decreases members.len() - i,
        {
            assert(all.skip(i as int)[0] == all[i as int]);
            assert(all.skip(i as int).skip(1) =~= all.skip(i + 1));
            if text::same(members[i].0.as_str(), key) {
                assert(decreases_to!(self => self->Object_0));
                assert(decreases_to!(members => members@));
                assert(decreases_to!(members@ => members@[i as int]));
                assert(decreases_to!(members@[i as int] => members@[i as int].1));
                return Some(&members[i].1);
            }
            i = i + 1;
        }
        None
    }
}

/// Where the first member of that name stands, or the number of members where there is none.
pub open spec fn place_of(members: Seq<(Seq<char>, JsonValue)>, key: Seq<char>) -> int
    decreases members.len(),
{
    if members.len() == 0 || members[0].0 == key {
        0
    } else {
        1 + place_of(members.skip(1), key)
    }
}

/// The members without those of that name, in their own order.
pub open spec fn without_member(
    members: Seq<(Seq<char>, JsonValue)>,
    key: Seq<char>,
) -> Seq<(Seq<char>, JsonValue)>
    decreases members.len(),
{
    if members.len() == 0 {
        Seq::empty()
    } else {
        let rest = without_member(members.drop_last(), key);
        if members.last().0 == key {
            rest
        } else {
            rest.push(members.last())
        }
    }
}

/// Whether some member has that name.
pub open spec fn has_member(members: Seq<(Seq<char>, JsonValue)>, key: Seq<char>) -> bool {
    exists|i: int| 0 <= i < members.len() && (#[trigger] members[i]).0 == key
}

/// Members that lack the name are all kept.
pub proof fn lemma_without_absent(members: Seq<(Seq<char>, JsonValue)>, key: Seq<char>)
    requires
        !has_member(members, key),
    ensures
        without_member(members, key) == members,
    decreases members.len(),
{
    if members.len() > 0 {
        let front = members.drop_last();
        assert(members.last() == members[members.len() - 1]);
        assert(!has_member(front, key)) by {
            assert(forall|i: int| 0 <= i < front.len() ==> #[trigger] front[i] == members[i]);
        }
        lemma_without_absent(front, key);
        assert(front.push(members.last()) =~= members);
    } else {
        assert(members =~= Seq::empty());
    }
}

/// What is kept of members is kept piece by piece.
pub proof fn lemma_without_parts(
    front: Seq<(Seq<char>, JsonValue)>,
    back: Seq<(Seq<char>, JsonValue)>,
    key: Seq<char>,
)
    ensures
        without_member(front + back, key) == without_member(front, key) + without_member(
            back,
            key,
        ),
    decreases back.len(),
{
    if back.len() == 0 {
        assert(front + back =~= front);
        assert(without_member(front, key) + without_member(back, key) =~= without_member(
            front,
            key,
        ));
    } else {
        lemma_without_parts(front, back.drop_last(), key);
        assert((front + back).drop_last() =~= front + back.drop_last());
        assert((front + back).last() == back.last());
        assert(without_member(front + back, key) =~= without_member(front, key)
            + without_member(back, key));
    }
}

/// A member of that name makes no difference to what is kept, wherever it stands.
pub proof fn lemma_without_inserted(
    members: Seq<(Seq<char>, JsonValue)>,
    key: Seq<char>,
    value: JsonValue,
    place: int,
)
    requires
        0 <= place <= members.len(),
    ensures
        without_member(members.insert(place, (key, value)), key) == without_member(members, key),
{
    let front = members.take(place);
    let back = members.skip(place);
    let one = seq![(key, value)];
    assert(members =~= front + back);
    assert(members.insert(place, (key, value)) =~= front + one + back);
    lemma_without_parts(front, back, key);
    lemma_without_parts(front, one, key);
    lemma_without_parts(front + one, back, key);
    assert(without_member(one.drop_last(), key) =~= Seq::empty());
    assert(without_member(one, key) =~= Seq::empty());
    assert(without_member(front, key) + without_member(one, key) =~= without_member(front, key));
}

/// A member of a second name makes no difference to what is kept without both, wherever it stands.
pub proof fn lemma_without_both(
    members: Seq<(Seq<char>, JsonValue)>,
    first: Seq<char>,
    second: Seq<char>,
    value: JsonValue,
    place: int,
)
    requires
        0 <= place <= members.len(),
        first != second,
    ensures
        without_member(
            without_member(members.insert(place, (second, value)), first),
            second,
        ) == without_member(without_member(members, first), second),
{
    let front = members.take(place);
    let back = members.skip(place);
    let one = seq![(second, value)];
    assert(members =~= front + back);
    assert(members.insert(place, (second, value)) =~= front + one + back);
    lemma_without_parts(front, back, first);
    lemma_without_parts(front, one, first);
    lemma_without_parts(front + one, back, first);
    assert(without_member(one.drop_last(), first) =~= Seq::empty());
    assert(without_member(one, first) =~= one);
    let f = without_member(front, first);
    let b = without_member(back, first);
    assert(without_member(members.insert(place, (second, value)), first) =~= f + one + b);
    assert((f + b).insert(f.len() as int, (second, value)) =~= f + one + b);
    lemma_without_inserted(f + b, second, value, f.len() as int);
}

/// The members with that value under that name: in place of the one that stood there, or at the
/// end.
pub open spec fn with_member(
    members: Seq<(Seq<char>, JsonValue)>,
    key: Seq<char>,
    value: JsonValue,
) -> Seq<(Seq<char>, JsonValue)> {
    let p = place_of(members, key);
    if p < members.len() {
        members.update(p, (key, value))
    } else {
        members.push((key, value))
    }
}

/// What is stored under a name is found there, and a second value takes the place of the first.
pub proof fn lemma_with_member_twice(
    members: Seq<(Seq<char>, JsonValue)>,
    key: Seq<char>,
    first: JsonValue,
    second: JsonValue,
)
    ensures
        member(with_member(members, key, first), key) == Some(first),
        with_member(with_member(members, key, first), key, second) == with_member(
            members,
            key,
            second,
        ),
        0 <= place_of(members, key) <= members.len(),
        place_of(with_member(members, key, first), key) == place_of(members, key),
    decreases members.len(),
{
    let stored = with_member(members, key, first);
    if members.len() == 0 {
        assert(stored[0] == (key, first));
        assert(with_member(stored, key, second) =~= with_member(members, key, second));
    } else if members[0].0 == key {
        assert(stored[0] == (key, first));
        assert(with_member(stored, key, second) =~= with_member(members, key, second));
    } else {
        let rest = members.skip(1);
        lemma_with_member_twice(rest, key, first, second);
        assert(stored[0] == members[0]);
        assert(stored.skip(1) =~= with_member(rest, key, first));
        assert(with_member(stored, key, second) =~= with_member(members, key, second));
    }
}

fn find_member(members: &Vec<(String, Json)>, key: &str) -> (p: usize)
    ensures
        p == place_of(members_view(members@), key@),
        p <= members@.len(),
        members_view(members@).len() == members@.len(),
{
    proof {
        lemma_members_at(members@);
    }
    let ghost all = members_view(members@);
    let mut p: usize = 0;
    assert(all.skip(0) =~= all);
    while p < members.len() && !text::same(members[p].0.as_str(), key)
        invariant
            p <= members.len(),
            all == members_view(members@),
            all.len() == members.len(),
            forall|k: int|
                0 <= k < members@.len() ==> #[trigger] all[k] == (members@[k].0@, members@[k].1@),
            place_of(all, key@) == p + place_of(all.skip(p as int), key@),
        decreases members.len() - p,
    {
        assert(all.skip(p as int)[0] == all[p as int]);
        assert(all.skip(p as int).skip(1) =~= all.skip(p + 1));
        p = p + 1;
    }
    proof {
        if p < members.len() {
            assert(all.skip(p as int)[0] == all[p as int]);
        }
    }
    p
}

/// Removes the members of that name; the others stay in their order.
pub fn remove_member(members: &mut Vec<(String, Json)>, key: &str)
    ensures
        members_view(final(members)@) == without_member(members_view(old(members)@), key@),
{
    let mut kept: Vec<(String, Json)> = Vec::new();
    let mut i: usize = 0;
    assert(members@.take(0) =~= Seq::empty());
    while i < members.len()
        invariant
            i <= members.len(),
            members@ == old(members)@,
            members_view(kept@) == without_member(members_view(members@.take(i as int)), key@),
        decreases members.len() - i,
    {
        let ghost longer = members@.take(i + 1);
        assert(longer.drop_last() =~= members@.take(i as int));
        assert(members_view(longer).drop_last() =~= members_view(members@.take(i as int)));
        if !text::same(members[i].0.as_str(), key) {
            let ghost was = kept@;
            kept.push((members[i].0.clone(), members[i].1.copy()));
            assert(kept@.drop_last() =~= was);
        }
        i = i + 1;
    }
    assert(members@.take(members@.len() as int) =~= members@);
    *members = kept;
}

/// Stores a value under that name: in place of the one that stood there, or at the end.
pub fn put_member(members: &mut Vec<(String, Json)>, key: &str, value: Json)
    ensures
        members_view(final(members)@) == with_member(
            members_view(old(members)@),
            key@,
            value@,
        ),
{
    let p: usize = find_member(members, key);
    proof {
        lemma_members_at(members@);
    }
    if p < members.len() {
        members.set(p, (key.to_owned(), value));
    } else {
        members.push((key.to_owned(), value));
    }
    proof {
        lemma_members_at(members@);
        assert(members_view(members@) =~= with_member(
            members_view(old(members)@),
            key@,
            value@,
        ));
    }
}

/// A copy of the members of an object.
pub fn copy_members(members: &Vec<(String, Json)>) -> (other: Vec<(String, Json)>)
    ensures
        members_view(other@) == members_view(members@),
{
    let mut other: Vec<(String, Json)> = Vec::new();
    let mut i: usize = 0;
    assert(members@.take(0) =~= Seq::empty());
    while i < members.len()
        invariant
            i <= members.len(),
            members_view(other@) == members_view(members@.take(i as int)),
        decreases members.len() - i,
    {
        let ghost was = other@;
        other.push((members[i].0.clone(), members[i].1.copy()));
        assert(other@.drop_last() =~= was);
        assert(members@.take(i + 1).drop_last() =~= members@.take(i as int));
        i = i + 1;
    }
    assert(members@.take(members@.len() as int) =~= members@);
    other
}

/// Storing a value under a name leaves what stands under every other name.
pub proof fn storing_a_member_leaves_the_others(
    members: Seq<(Seq<char>, JsonValue)>,
    key: Seq<char>,
    value: JsonValue,
    other: Seq<char>,
)
    ensures
        member(with_member(members, key, value), other) == (if other == key {
            Some(value)
        } else {
            member(members, other)
        }),
    decreases members.len(),
{
    let stored = with_member(members, key, value);
    lemma_with_member_twice(members, key, value, value);
    if other != key {
        if members.len() == 0 {
            assert(stored[0] == (key, value));
            assert(stored.skip(1) =~= members);
        } else if members[0].0 == key {
            assert(stored[0] == (key, value));
            assert(stored.skip(1) =~= members.skip(1));
        } else {
            let rest = members.skip(1);
            storing_a_member_leaves_the_others(rest, key, value, other);
            lemma_with_member_twice(rest, key, value, value);
            assert(stored[0] == members[0]);
            assert(stored.skip(1) =~= with_member(rest, key, value));
        }
    }
}

/// Removing a member leaves what stands under every other name.
pub proof fn removing_a_member_leaves_the_others(
    members: Seq<(Seq<char>, JsonValue)>,
    key: Seq<char>,
    other: Seq<char>,
)
    ensures
        member(without_member(members, key), other) == (if other == key {
            None
        } else {
            member(members, other)
        }),
    decreases members.len(),
{
    if members.len() > 0 {
        let first = seq![members[0]];
        let rest = members.skip(1);
        removing_a_member_leaves_the_others(rest, key, other);
        assert(members =~= first + rest);
        lemma_without_parts(first, rest, key);
        assert(first.drop_last() =~= Seq::empty());
        assert(without_member(first.drop_last(), key) =~= Seq::empty());
        let kept = without_member(members, key);
        let back = without_member(rest, key);
        if members[0].0 == key {
            assert(without_member(first, key) =~= Seq::empty());
            assert(kept =~= back);
        } else {
            assert(without_member(first, key) =~= first);
            assert(kept[0] == members[0]);
            assert(kept.skip(1) =~= back);
        }
    }
}

/// A member at the end is found where no other of its name stands before it, and hides none.
pub proof fn lemma_member_behind(
    members: Seq<(Seq<char>, JsonValue)>,
    last: (Seq<char>, JsonValue),
    key: Seq<char>,
)
    ensures
        member(members.push(last), key) == (match member(members, key) {
            Some(value) => Some(value),
            None => if last.0 == key {
                Some(last.1)
            } else {
                None
            },
        }),
    decreases members.len(),
{
    let more = members.push(last);
    if members.len() == 0 {
        assert(more[0] == last);
        assert(more.skip(1) =~= members);
    } else {
        assert(more[0] == members[0]);
        assert(more.skip(1) =~= members.skip(1).push(last));
        lemma_member_behind(members.skip(1), last, key);
    }
}

} // verus!
