//! Where one JSON text ends and the next begins.
//!
//! What is hashed is a text, so two surfaces must not read the same unless they hold the same. That
//! rests on one fact: behind a value there can only be a comma or a closing bracket, and with that
//! behind it, a value ends in one place alone.
use vstd::prelude::*;
use vstd::string::*;
use crate::json;
use crate::json::JsonValue;
use crate::text;

verus! {

/// Whether a character can follow a value.
pub open spec fn is_end(c: char) -> bool {
    c == ',' || c == '}' || c == ']'
}

/// Whether a text can follow a value.
pub open spec fn ends_value(x: Seq<char>) -> bool {
    x.len() > 0 ==> is_end(x[0])
}

/// Whether a text can be a value: it is not empty and does not begin with what ends one.
pub open spec fn begins_value(s: Seq<char>) -> bool {
    s.len() > 0 && !is_end(s[0])
}

/// Whether two texts are told apart by what they are followed by: where the one and what follows it
/// reads as the other and what follows that, they are the same.
#[verifier::opaque]
pub open spec fn apart(s: Seq<char>, t: Seq<char>) -> bool {
    forall|x: Seq<char>, y: Seq<char>| #[trigger]
        (s + x) == #[trigger] (t + y) && ends_value(x) && ends_value(y) ==> s == t && x == y
}

/// Two texts that are told apart, each with something behind it.
pub proof fn lemma_apart(s: Seq<char>, t: Seq<char>, x: Seq<char>, y: Seq<char>)
    requires
        apart(s, t),
        s + x == t + y,
        ends_value(x),
        ends_value(y),
    ensures
        s == t,
        x == y,
{
    reveal(apart);
}

/// Texts with commas between them, from the front.
proof fn lemma_joined_front(parts: Seq<Seq<char>>)
    requires
        parts.len() > 1,
    ensures
        text::joined(parts, ","@) == parts[0] + (","@ + text::joined(parts.skip(1), ","@)),
    decreases parts.len(),
{
    let rest = parts.skip(1);
    let whole = parts[0] + (","@ + text::joined(rest, ","@));
    if parts.len() == 2 {
        assert(parts.drop_last().len() == 1 && parts.drop_last()[0] == parts[0]);
        assert(text::joined(parts.drop_last(), ","@) == parts[0]);
        assert(rest[0] == parts.last());
        assert(text::joined(rest, ","@) == parts[1]);
    } else {
        lemma_joined_front(parts.drop_last());
        assert(parts.drop_last().skip(1) =~= rest.drop_last());
        assert(parts.drop_last()[0] == parts[0]);
        assert(rest.last() == parts.last());
    }
    assert(text::joined(parts, ","@) =~= whole);
}

/// What follows the first of some texts with commas between them and a closing bracket.
spec fn behind_first(parts: Seq<Seq<char>>, close: char, x: Seq<char>) -> Seq<char> {
    if parts.len() == 1 {
        seq![close] + x
    } else {
        ","@ + (text::joined(parts.skip(1), ","@) + seq![close] + x)
    }
}

proof fn lemma_behind_first(parts: Seq<Seq<char>>, close: char, x: Seq<char>)
    requires
        parts.len() > 0,
        is_end(close),
    ensures
        text::joined(parts, ","@) + seq![close] + x == parts[0] + behind_first(parts, close, x),
        ends_value(behind_first(parts, close, x)),
        behind_first(parts, close, x).len() > 0,
        behind_first(parts, close, x)[0] == (if parts.len() == 1 {
            close
        } else {
            ','
        }),
{
    reveal_strlit(",");
    if parts.len() > 1 {
        lemma_joined_front(parts);
    }
    assert(text::joined(parts, ","@) + seq![close] + x =~= parts[0] + behind_first(
        parts,
        close,
        x,
    ));
}

/// Lists of texts that are told apart are themselves told apart, each with commas between its texts
/// and a closing bracket behind them.
pub proof fn lemma_lists_apart(
    a: Seq<Seq<char>>,
    b: Seq<Seq<char>>,
    close: char,
    x: Seq<char>,
    y: Seq<char>,
)
    requires
        close == '}' || close == ']',
        forall|i: int| 0 <= i < a.len() ==> begins_value(#[trigger] a[i]),
        forall|i: int| 0 <= i < b.len() ==> begins_value(#[trigger] b[i]),
        forall|i: int, j: int|
            0 <= i < a.len() && 0 <= j < b.len() ==> apart(#[trigger] a[i], #[trigger] b[j]),
        text::joined(a, ","@) + seq![close] + x == text::joined(b, ","@) + seq![close] + y,
    ensures
        a == b,
        x == y,
    decreases a.len(),
{
    let left = text::joined(a, ","@) + seq![close] + x;
    let right = text::joined(b, ","@) + seq![close] + y;
    if a.len() == 0 || b.len() == 0 {
        if a.len() > 0 {
            lemma_behind_first(a, close, x);
            assert(left[0] == a[0][0]);
            assert(right[0] == close);
        } else if b.len() > 0 {
            lemma_behind_first(b, close, y);
            assert(right[0] == b[0][0]);
            assert(left[0] == close);
        } else {
            assert(a =~= b);
            assert(left.skip(1) =~= x);
            assert(right.skip(1) =~= y);
        }
    } else {
        lemma_behind_first(a, close, x);
        lemma_behind_first(b, close, y);
        let p = behind_first(a, close, x);
        let q = behind_first(b, close, y);
        assert(apart(a[0], b[0]));
        lemma_apart(a[0], b[0], p, q);
        assert(p[0] == q[0]);
        let ra = a.skip(1);
        let rb = b.skip(1);
        if a.len() == 1 {
            assert(b.len() == 1);
            assert(p.skip(1) =~= x);
            assert(q.skip(1) =~= y);
            assert(a =~= b);
        } else {
            reveal_strlit(",");
            let pa = text::joined(ra, ","@) + seq![close] + x;
            let pb = text::joined(rb, ","@) + seq![close] + y;
            assert(p.skip(1) =~= pa);
            assert(q.skip(1) =~= pb);
            assert forall|i: int| 0 <= i < ra.len() implies begins_value(#[trigger] ra[i]) by {
                assert(ra[i] == a[i + 1]);
            }
            assert forall|i: int| 0 <= i < rb.len() implies begins_value(#[trigger] rb[i]) by {
                assert(rb[i] == b[i + 1]);
            }
            assert forall|i: int, j: int| 0 <= i < ra.len() && 0 <= j < rb.len() implies apart(
                #[trigger] ra[i],
                #[trigger] rb[j],
            ) by {
                assert(ra[i] == a[i + 1]);
                assert(rb[j] == b[j + 1]);
                assert(apart(a[i + 1], b[j + 1]));
            }
            lemma_lists_apart(ra, rb, close, x, y);
            assert(a =~= seq![a[0]] + ra);
            assert(b =~= seq![b[0]] + rb);
        }
    }
}

/// A name and a value, as a member of an object.
pub open spec fn member_text(name: Seq<char>, value: Seq<char>) -> Seq<char> {
    json::quoted(name) + ":"@ + value
}

/// Members are told apart where their values are, and are the same only with the same name and the
/// same value.
pub proof fn lemma_members_apart(m: Seq<char>, v: Seq<char>, n: Seq<char>, w: Seq<char>)
    requires
        apart(v, w),
    ensures
        apart(member_text(m, v), member_text(n, w)),
        member_text(m, v) == member_text(n, w) ==> m == n && v == w,
        begins_value(member_text(m, v)),
{
    reveal_strlit(":");
    let s = member_text(m, v);
    let t = member_text(n, w);
    assert(s[0] == '"');
    assert forall|x: Seq<char>, y: Seq<char>| #[trigger]
        (s + x) == #[trigger] (t + y) && ends_value(x) && ends_value(y) implies s == t && x == y
        && m == n && v == w by {
        let left = json::escaped_all(m) + seq!['"'] + (":"@ + (v + x));
        let right = json::escaped_all(n) + seq!['"'] + (":"@ + (w + y));
        assert((s + x).skip(1) =~= left);
        assert((t + y).skip(1) =~= right);
        json::escaping_is_unambiguous(m, n, ":"@ + (v + x), ":"@ + (w + y));
        assert((":"@ + (v + x)).skip(1) =~= v + x);
        assert((":"@ + (w + y)).skip(1) =~= w + y);
        lemma_apart(v, w, x, y);
    }
    reveal(apart);
    if s == t {
        assert(s + Seq::<char>::empty() == t + Seq::<char>::empty());
    }
}

proof fn lemma_numbers_apart(s: Seq<char>, t: Seq<char>)
    requires
        json::is_number(s),
        json::is_number(t),
    ensures
        apart(s, t),
{
    reveal(apart);
    assert forall|x: Seq<char>, y: Seq<char>| #[trigger]
        (s + x) == #[trigger] (t + y) && ends_value(x) && ends_value(y) implies s == t && x == y by {
        let left = s + x;
        let right = t + y;
        if s.len() < t.len() {
            assert(right[s.len() as int] == t[s.len() as int]);
            assert(x.len() > 0);
            assert(left[s.len() as int] == x[0]);
        }
        if t.len() < s.len() {
            assert(left[t.len() as int] == s[t.len() as int]);
            assert(y.len() > 0);
            assert(right[t.len() as int] == y[0]);
        }
        assert(left.take(s.len() as int) =~= s);
        assert(right.take(s.len() as int) =~= t);
        assert(left.skip(s.len() as int) =~= x);
        assert(right.skip(s.len() as int) =~= y);
    }
}

/// Texts that do not begin alike are told apart.
pub proof fn lemma_first_apart(s: Seq<char>, t: Seq<char>)
    requires
        s.len() > 0,
        t.len() > 0,
        s[0] != t[0],
    ensures
        apart(s, t),
{
    reveal(apart);
    assert forall|x: Seq<char>, y: Seq<char>| #[trigger] (s + x) == #[trigger] (t + y) implies s
        == t && x == y by {
        assert((s + x)[0] == s[0]);
        assert((t + y)[0] == t[0]);
    }
}

/// A text is told apart from itself.
pub proof fn lemma_same_apart(s: Seq<char>)
    ensures
        apart(s, s),
{
    reveal(apart);
    assert forall|x: Seq<char>, y: Seq<char>| #[trigger] (s + x) == #[trigger] (s + y) implies x
        == y by {
        assert((s + x).skip(s.len() as int) =~= x);
        assert((s + y).skip(s.len() as int) =~= y);
    }
}

proof fn lemma_texts_apart(m: Seq<char>, n: Seq<char>)
    ensures
        apart(json::quoted(m), json::quoted(n)),
{
    reveal(apart);
    let s = json::quoted(m);
    let t = json::quoted(n);
    assert forall|x: Seq<char>, y: Seq<char>| #[trigger] (s + x) == #[trigger] (t + y) implies s
        == t && x == y by {
        assert((s + x).skip(1) =~= json::escaped_all(m) + seq!['"'] + x);
        assert((t + y).skip(1) =~= json::escaped_all(n) + seq!['"'] + y);
        json::escaping_is_unambiguous(m, n, x, y);
    }
}

/// The texts of the items of a list.
pub open spec fn item_texts(items: Seq<JsonValue>) -> Seq<Seq<char>> {
    Seq::new(items.len(), |i: int| json::json_text(items[i]))
}

proof fn lemma_items_joined(items: Seq<JsonValue>)
    ensures
        json::items_text(items) == text::joined(item_texts(items), ","@),
    decreases items.len(),
{
    if items.len() > 1 {
        lemma_items_joined(items.drop_last());
        assert(item_texts(items).drop_last() =~= item_texts(items.drop_last()));
    }
}

/// The texts of the members of an object.
pub open spec fn member_texts(members: Seq<(Seq<char>, JsonValue)>) -> Seq<Seq<char>> {
    Seq::new(members.len(), |i: int| member_text(members[i].0, json::json_text(members[i].1)))
}

pub proof fn lemma_members_joined(members: Seq<(Seq<char>, JsonValue)>)
    ensures
        json::members_text(members) == text::joined(member_texts(members), ","@),
    decreases members.len(),
{
    if members.len() > 1 {
        lemma_members_joined(members.drop_last());
        assert(member_texts(members).drop_last() =~= member_texts(members.drop_last()));
    }
}

/// The character that a value's text begins with; a zero stands for what begins a number.
spec fn first_char(value: JsonValue) -> char {
    match value {
        JsonValue::Null => 'n',
        JsonValue::Bool(b) => if b {
            't'
        } else {
            'f'
        },
        JsonValue::Text(_) => '"',
        JsonValue::Decimal(s) => if json::is_number(s) {
            '0'
        } else {
            '"'
        },
        JsonValue::List(_) => '[',
        JsonValue::Object(_) => '{',
        _ => '0',
    }
}

proof fn lemma_first_char(value: JsonValue)
    ensures
        begins_value(json::json_text(value)),
        if first_char(value) == '0' {
            json::is_number(json::json_text(value))
        } else {
            json::json_text(value)[0] == first_char(value)
        },
{
    reveal_strlit("null");
    reveal_strlit("true");
    reveal_strlit("false");
    reveal_strlit("[");
    reveal_strlit("{");
    reveal_strlit("-");
    match value {
        JsonValue::Unsigned(n) => {
            text::decimal_reads_back(n as nat);
        },
        JsonValue::Negative(n) => {
            if n < 0 {
                text::decimal_reads_back((-n) as nat);
            } else {
                text::decimal_reads_back(n as nat);
            }
        },
        _ => {},
    }
}

/// The texts of two values are told apart by what they are followed by: in a document, a value ends
/// in one place alone.
pub proof fn values_are_told_apart(a: JsonValue, b: JsonValue)
    ensures
        apart(json::json_text(a), json::json_text(b)),
        begins_value(json::json_text(a)),
    decreases a, 1nat,
{
    lemma_first_char(a);
    lemma_first_char(b);
    let s = json::json_text(a);
    let t = json::json_text(b);
    if first_char(a) != first_char(b) {
        lemma_first_apart(s, t);
    } else {
        match (a, b) {
            (JsonValue::Text(m), JsonValue::Text(n)) => {
                lemma_texts_apart(m, n);
            },
            (JsonValue::List(m), JsonValue::List(n)) => {
                lemma_items_apart(a, b);
            },
            (JsonValue::Object(m), JsonValue::Object(n)) => {
                lemma_objects_apart(a, b);
            },
            (JsonValue::Text(m), JsonValue::Decimal(n)) => {
                lemma_texts_apart(m, n);
            },
            (JsonValue::Decimal(m), JsonValue::Text(n)) => {
                lemma_texts_apart(m, n);
            },
            _ => {
                if first_char(a) == '0' {
                    lemma_numbers_apart(s, t);
                } else if a is Decimal {
                    lemma_texts_apart(a->Decimal_0, b->Decimal_0);
                } else {
                    lemma_same_apart(s);
                }
            },
        }
    }
}

proof fn lemma_items_apart(a: JsonValue, b: JsonValue)
    requires
        a is List,
        b is List,
    ensures
        apart(json::json_text(a), json::json_text(b)),
    decreases a, 0nat,
{
    let m = a->List_0;
    let n = b->List_0;
    assert(decreases_to!(a => a->List_0));
    assert forall|i: int, j: int| 0 <= i < m.len() && 0 <= j < n.len() implies apart(
        #[trigger] item_texts(m)[i],
        #[trigger] item_texts(n)[j],
    ) by {
        assert(decreases_to!(m => m[i]));
        values_are_told_apart(m[i], n[j]);
    }
    assert forall|i: int| 0 <= i < m.len() implies begins_value(#[trigger] item_texts(m)[i]) by {
        lemma_first_char(m[i]);
    }
    assert forall|i: int| 0 <= i < n.len() implies begins_value(#[trigger] item_texts(n)[i]) by {
        lemma_first_char(n[i]);
    }
    lemma_items_joined(m);
    lemma_items_joined(n);
    reveal_strlit("[");
    reveal_strlit("]");
    let s = json::json_text(a);
    let t = json::json_text(b);
    reveal(apart);
    assert forall|x: Seq<char>, y: Seq<char>| #[trigger] (s + x) == #[trigger] (t + y) implies s
        == t && x == y by {
        assert((s + x).skip(1) =~= text::joined(item_texts(m), ","@) + seq![']'] + x);
        assert((t + y).skip(1) =~= text::joined(item_texts(n), ","@) + seq![']'] + y);
        lemma_lists_apart(item_texts(m), item_texts(n), ']', x, y);
    }
}

proof fn lemma_objects_apart(a: JsonValue, b: JsonValue)
    requires
        a is Object,
        b is Object,
    ensures
        apart(json::json_text(a), json::json_text(b)),
    decreases a, 0nat,
{
    let m = a->Object_0;
    let n = b->Object_0;
    assert(decreases_to!(a => a->Object_0));
    assert forall|i: int, j: int| 0 <= i < m.len() && 0 <= j < n.len() implies apart(
        #[trigger] member_texts(m)[i],
        #[trigger] member_texts(n)[j],
    ) by {
        assert(decreases_to!(m => m[i]));
        assert(decreases_to!(m[i] => m[i].1));
        values_are_told_apart(m[i].1, n[j].1);
        lemma_members_apart(
            m[i].0,
            json::json_text(m[i].1),
            n[j].0,
            json::json_text(n[j].1),
        );
    }
    assert forall|i: int| 0 <= i < m.len() implies begins_value(#[trigger] member_texts(m)[i]) by {
        lemma_same_apart(json::json_text(m[i].1));
        lemma_members_apart(
            m[i].0,
            json::json_text(m[i].1),
            m[i].0,
            json::json_text(m[i].1),
        );
    }
    assert forall|i: int| 0 <= i < n.len() implies begins_value(#[trigger] member_texts(n)[i]) by {
        lemma_same_apart(json::json_text(n[i].1));
        lemma_members_apart(
            n[i].0,
            json::json_text(n[i].1),
            n[i].0,
            json::json_text(n[i].1),
        );
    }
    lemma_members_joined(m);
    lemma_members_joined(n);
    reveal_strlit("{");
    reveal_strlit("}");
    let s = json::json_text(a);
    let t = json::json_text(b);
    reveal(apart);
    assert forall|x: Seq<char>, y: Seq<char>| #[trigger] (s + x) == #[trigger] (t + y) implies s
        == t && x == y by {
        assert((s + x).skip(1) =~= text::joined(member_texts(m), ","@) + seq!['}'] + x);
        assert((t + y).skip(1) =~= text::joined(member_texts(n), ","@) + seq!['}'] + y);
        lemma_lists_apart(member_texts(m), member_texts(n), '}', x, y);
    }
}

} // verus!
