//! Name-keyed tables kept in code-point order.
use vstd::prelude::*;
use crate::text;

verus! {

/// Keys in strictly increasing order: no key occurs twice.
pub open spec fn sorted_keys<T>(entries: Seq<(Seq<char>, T)>) -> bool {
    forall|i: int, j: int|
        0 <= i < j < entries.len() ==> text::text_lt(#[trigger] entries[i].0, #[trigger] entries[j].0)
}

/// Whether `name` is one of the keys.
pub open spec fn has_key<T>(entries: Seq<(Seq<char>, T)>, name: Seq<char>) -> bool {
    exists|i: int| 0 <= i < entries.len() && #[trigger] entries[i].0 == name
}

/// The value stored under `name`, where there is one.
pub open spec fn value_of<T>(entries: Seq<(Seq<char>, T)>, name: Seq<char>) -> Option<T> {
    if has_key(entries, name) {
        Some(entries[choose|i: int| 0 <= i < entries.len() && #[trigger] entries[i].0 == name].1)
    } else {
        None
    }
}

/// The keys in order.
pub open spec fn keys<T>(entries: Seq<(Seq<char>, T)>) -> Seq<Seq<char>> {
    Seq::new(entries.len(), |i: int| entries[i].0)
}

/// The keys as a set.
pub open spec fn key_set<T>(entries: Seq<(Seq<char>, T)>) -> Set<Seq<char>> {
    Set::new(|name: Seq<char>| has_key(entries, name))
}

/// The names of a list that are not in `kept`, in the order of the list.
pub open spec fn left_out(list: Seq<Seq<char>>, kept: Set<Seq<char>>) -> Seq<Seq<char>>
    decreases list.len(),
{
    if list.len() == 0 {
        Seq::empty()
    } else {
        let front = left_out(list.drop_last(), kept);
        if kept.contains(list.last()) {
            front
        } else {
            front.push(list.last())
        }
    }
}

/// What is left out are the names of the list that are not kept.
pub proof fn lemma_left_out(list: Seq<Seq<char>>, kept: Set<Seq<char>>)
    ensures
        forall|name: Seq<char>| #[trigger]
            left_out(list, kept).contains(name) <==> list.contains(name) && !kept.contains(name),
    decreases list.len(),
{
    if list.len() > 0 {
        let front = left_out(list.drop_last(), kept);
        lemma_left_out(list.drop_last(), kept);
        assert forall|name: Seq<char>| #[trigger]
            left_out(list, kept).contains(name) <==> list.contains(name) && !kept.contains(name) by {
            if left_out(list, kept).contains(name) {
                let i = choose|i: int|
                    0 <= i < left_out(list, kept).len() && left_out(list, kept)[i] == name;
                if i < front.len() {
                    assert(front[i] == name);
                    assert(front.contains(name));
                    let j = choose|j: int|
                        0 <= j < list.drop_last().len() && list.drop_last()[j] == name;
                    assert(list[j] == name);
                } else {
                    assert(list[list.len() - 1] == name);
                }
            }
            if list.contains(name) && !kept.contains(name) {
                let j = choose|j: int| 0 <= j < list.len() && list[j] == name;
                if j < list.len() - 1 {
                    assert(list.drop_last()[j] == name);
                    assert(front.contains(name));
                    let i = choose|i: int| 0 <= i < front.len() && front[i] == name;
                    assert(left_out(list, kept)[i] == name);
                } else {
                    assert(left_out(list, kept)[front.len() as int] == name);
                }
            }
        }
    }
}

/// In a sorted table a key stands in one place only.
pub proof fn lemma_value_at<T>(entries: Seq<(Seq<char>, T)>, i: int)
    requires
        sorted_keys(entries),
        0 <= i < entries.len(),
    ensures
        has_key(entries, entries[i].0),
        value_of(entries, entries[i].0) == Some(entries[i].1),
{
    let name = entries[i].0;
    let k = choose|k: int| 0 <= k < entries.len() && #[trigger] entries[k].0 == name;
    assert(entries[i].0 == name);
    text::text_lt_trichotomy(name, name);
    if k < i {
        assert(text::text_lt(entries[k].0, entries[i].0));
    } else if i < k {
        assert(text::text_lt(entries[i].0, entries[k].0));
    }
}

/// Of a new entry put where the order wants it, the table keeps its order and gains just that
/// entry.
proof fn lemma_insert<T>(
    before: Seq<(Seq<char>, T)>,
    p: int,
    name: Seq<char>,
    value: T,
    after: Seq<(Seq<char>, T)>,
)
    requires
        sorted_keys(before),
        0 <= p <= before.len(),
        after == before.insert(p, (name, value)),
        forall|k: int| 0 <= k < p ==> text::text_lt(#[trigger] before[k].0, name),
        p < before.len() ==> text::text_lt(name, before[p].0),
    ensures
        sorted_keys(after),
        forall|key: Seq<char>| #[trigger]
            value_of(after, key) == (if key == name {
                Some(value)
            } else {
                value_of(before, key)
            }),
{
    assert forall|i: int, j: int| 0 <= i < j < after.len() implies text::text_lt(
        #[trigger] after[i].0,
        #[trigger] after[j].0,
    ) by {
        if i < p && j == p {
            assert(text::text_lt(before[i].0, name));
        } else if i == p {
            assert(after[j] == before[j - 1]);
            if j - 1 > p {
                assert(text::text_lt(before[p].0, before[j - 1].0));
                text::text_lt_transitive(name, before[p].0, before[j - 1].0);
            }
        } else if i < p && j > p {
            assert(after[j] == before[j - 1]);
            assert(text::text_lt(before[i].0, before[j - 1].0));
        } else if i > p {
            assert(after[i] == before[i - 1]);
            assert(after[j] == before[j - 1]);
            assert(text::text_lt(before[i - 1].0, before[j - 1].0));
        } else {
            assert(text::text_lt(before[i].0, before[j].0));
        }
    }
    assert forall|key: Seq<char>| #[trigger]
        value_of(after, key) == (if key == name {
            Some(value)
        } else {
            value_of(before, key)
        }) by {
        if key == name {
            lemma_value_at(after, p);
        } else {
            if has_key(before, key) {
                let k = choose|k: int| 0 <= k < before.len() && #[trigger] before[k].0 == key;
                lemma_value_at(before, k);
                let moved = if k < p {
                    k
                } else {
                    k + 1
                };
                assert(after[moved] == before[k]);
                lemma_value_at(after, moved);
            }
            if has_key(after, key) {
                let k = choose|k: int| 0 <= k < after.len() && #[trigger] after[k].0 == key;
                let from = if k < p {
                    k
                } else {
                    k - 1
                };
                assert(after[k] == before[from]);
            }
        }
    }
}

/// Of an entry whose value is replaced, the table keeps its order and every other entry.
proof fn lemma_replace<T>(
    before: Seq<(Seq<char>, T)>,
    p: int,
    value: T,
    after: Seq<(Seq<char>, T)>,
)
    requires
        sorted_keys(before),
        0 <= p < before.len(),
        after == before.update(p, (before[p].0, value)),
    ensures
        sorted_keys(after),
        forall|key: Seq<char>| #[trigger]
            value_of(after, key) == (if key == before[p].0 {
                Some(value)
            } else {
                value_of(before, key)
            }),
{
    assert forall|i: int, j: int| 0 <= i < j < after.len() implies text::text_lt(
        #[trigger] after[i].0,
        #[trigger] after[j].0,
    ) by {
        assert(text::text_lt(before[i].0, before[j].0));
    }
    assert forall|key: Seq<char>| #[trigger]
        value_of(after, key) == (if key == before[p].0 {
            Some(value)
        } else {
            value_of(before, key)
        }) by {
        if key == before[p].0 {
            lemma_value_at(after, p);
        } else {
            if has_key(before, key) {
                let k = choose|k: int| 0 <= k < before.len() && #[trigger] before[k].0 == key;
                lemma_value_at(before, k);
                assert(after[k] == before[k]);
                lemma_value_at(after, k);
            }
            if has_key(after, key) {
                let k = choose|k: int| 0 <= k < after.len() && #[trigger] after[k].0 == key;
                assert(after[k] == before[k]);
            }
        }
    }
}

/// A table from names to values, kept in the order of its names.
pub struct NameMap<T> {
    entries: Vec<(String, T)>,
}

impl<T> NameMap<T> {
    /// The entries in order, each name by its characters.
    pub closed spec fn view(&self) -> Seq<(Seq<char>, T)> {
        Seq::new(self.entries@.len(), |i: int| (self.entries@[i].0@, self.entries@[i].1))
    }

    #[verifier::type_invariant]
    spec fn in_order(self) -> bool {
        sorted_keys(self.view())
    }

    /// An empty table.
    pub fn new() -> (table: Self)
        ensures
            table@ == Seq::<(Seq<char>, T)>::empty(),
    {
        NameMap { entries: Vec::new() }
    }

    /// The number of entries.
    pub fn len(&self) -> (n: usize)
        ensures
            n == self@.len(),
            sorted_keys(self@),
    {
        proof {
            use_type_invariant(self);
        }
        self.entries.len()
    }

    /// The name at position `i`.
    pub fn name_at(&self, i: usize) -> (name: &String)
        requires
            i < self@.len(),
        ensures
            name@ == self@[i as int].0,
            sorted_keys(self@),
    {
        proof {
            use_type_invariant(self);
        }
        &self.entries[i].0
    }

    /// The value at position `i`.
    pub fn value_at(&self, i: usize) -> (value: &T)
        requires
            i < self@.len(),
        ensures
            *value == self@[i as int].1,
            sorted_keys(self@),
    {
        proof {
            use_type_invariant(self);
        }
        &self.entries[i].1
    }

    /// The value stored under `name`.
    pub fn get(&self, name: &str) -> (found: Option<&T>)
        ensures
            sorted_keys(self@),
            match found {
                Some(value) => value_of(self@, name@) == Some(*value),
                None => !has_key(self@, name@),
            },
    {
        proof {
            use_type_invariant(self);
        }
        let mut i: usize = 0;
        while i < self.entries.len()
            invariant
                i <= self.entries.len(),
                sorted_keys(self@),
                forall|k: int| 0 <= k < i ==> #[trigger] self@[k].0 != name@,
            decreases self.entries.len() - i,
        {
            assert(self@[i as int].0 == self.entries@[i as int].0@);
            if text::same(self.entries[i].0.as_str(), name) {
                proof {
                    lemma_value_at(self@, i as int);
                }
                return Some(&self.entries[i].1);
            }
            i = i + 1;
        }
        None
    }

    /// The names in order.
    pub fn names(&self) -> (names: Vec<String>)
        ensures
            text::texts(names@) == keys(self@),
            sorted_keys(self@),
    {
        proof {
            use_type_invariant(self);
        }
        let mut names: Vec<String> = Vec::new();
        let mut i: usize = 0;
        while i < self.entries.len()
            invariant
                i <= self.entries.len(),
                names.len() == i,
                forall|k: int| 0 <= k < i ==> #[trigger] names@[k]@ == self@[k].0,
            decreases self.entries.len() - i,
        {
            names.push(self.entries[i].0.clone());
            i = i + 1;
        }
        assert(text::texts(names@) =~= keys(self@));
        names
    }

    /// Stores `value` under `name`, in place of the value that stood there.
    pub fn insert(&mut self, name: String, value: T)
        ensures
            sorted_keys(final(self)@),
            forall|key: Seq<char>| #[trigger]
                value_of(final(self)@, key) == (if key == name@ {
                    Some(value)
                } else {
                    value_of(old(self)@, key)
                }),
    {
        proof {
            use_type_invariant(&*self);
        }
        let ghost before = self@;
        let mut entries: Vec<(String, T)> = Vec::new();
        std::mem::swap(&mut entries, &mut self.entries);
        let mut p: usize = 0;
        while p < entries.len() && text::before(entries[p].0.as_str(), name.as_str())
            invariant
                p <= entries.len(),
                before.len() == entries.len(),
                forall|k: int|
                    0 <= k < before.len() ==> #[trigger] before[k].0 == entries@[k].0@
                        && before[k].1 == entries@[k].1,
                forall|k: int| 0 <= k < p ==> text::text_lt(#[trigger] before[k].0, name@),
            decreases entries.len() - p,
        {
            assert(before[p as int].0 == entries@[p as int].0@);
            p = p + 1;
        }
        let present = p < entries.len() && text::same(entries[p].0.as_str(), name.as_str());
        if present {
            assert(before[p as int].0 == entries@[p as int].0@);
            let (old_name, _) = entries.remove(p);
            entries.insert(p, (old_name, value));
            proof {
                let after = Seq::new(entries@.len(), |i: int| (entries@[i].0@, entries@[i].1));
                assert(after =~= before.update(p as int, (before[p as int].0, value)));
                lemma_replace(before, p as int, value, after);
            }
        } else {
            proof {
                if p < entries.len() {
                    assert(before[p as int].0 == entries@[p as int].0@);
                    text::text_lt_trichotomy(before[p as int].0, name@);
                }
            }
            let ghost added = name@;
            entries.insert(p, (name, value));
            proof {
                let after = Seq::new(entries@.len(), |i: int| (entries@[i].0@, entries@[i].1));
                assert(after =~= before.insert(p as int, (added, value)));
                lemma_insert(before, p as int, added, value, after);
            }
        }
        self.entries = entries;
    }

    /// Adds an entry whose name comes behind all others.
    pub fn append(&mut self, name: String, value: T)
        requires
            old(self)@.len() > 0 ==> text::text_lt(old(self)@.last().0, name@),
        ensures
            final(self)@ == old(self)@.push((name@, value)),
            sorted_keys(final(self)@),
    {
        proof {
            use_type_invariant(&*self);
        }
        let ghost before = self@;
        let ghost added = name@;
        let mut entries: Vec<(String, T)> = Vec::new();
        std::mem::swap(&mut entries, &mut self.entries);
        entries.push((name, value));
        proof {
            let after = Seq::new(entries@.len(), |i: int| (entries@[i].0@, entries@[i].1));
            assert(after =~= before.push((added, value)));
            assert forall|i: int, j: int| 0 <= i < j < after.len() implies text::text_lt(
                #[trigger] after[i].0,
                #[trigger] after[j].0,
            ) by {
                if j < before.len() {
                    assert(text::text_lt(before[i].0, before[j].0));
                } else if i < before.len() - 1 {
                    assert(text::text_lt(before[i].0, before[before.len() - 1].0));
                    text::text_lt_transitive(before[i].0, before[before.len() - 1].0, added);
                }
            }
        }
        self.entries = entries;
    }

    /// The entries in order.
    pub fn into_entries(self) -> (entries: Vec<(String, T)>)
        ensures
            entries@.len() == self@.len(),
            forall|i: int|
                0 <= i < entries@.len() ==> #[trigger] entries@[i].0@ == self@[i].0
                    && entries@[i].1 == self@[i].1,
            sorted_keys(self@),
    {
        proof {
            use_type_invariant(&self);
        }
        self.entries
    }

    /// A table of entries that are in the order of their names.
    pub fn from_entries(entries: Vec<(String, T)>) -> (table: Self)
        requires
            sorted_keys(Seq::new(entries@.len(), |i: int| (entries@[i].0@, entries@[i].1))),
        ensures
            table@ == Seq::new(entries@.len(), |i: int| (entries@[i].0@, entries@[i].1)),
    {
        NameMap { entries }
    }

    /// Stores `value` at position `i`, in place of the value that stood there.
    pub fn set_at(&mut self, i: usize, value: T)
        requires
            i < old(self)@.len(),
        ensures
            final(self)@ == old(self)@.update(i as int, (old(self)@[i as int].0, value)),
            sorted_keys(final(self)@),
    {
        proof {
            use_type_invariant(&*self);
        }
        let ghost before = self@;
        let mut entries: Vec<(String, T)> = Vec::new();
        std::mem::swap(&mut entries, &mut self.entries);
        let (name, _) = entries.remove(i);
        entries.insert(i, (name, value));
        proof {
            let after = Seq::new(entries@.len(), |k: int| (entries@[k].0@, entries@[k].1));
            assert(after =~= before.update(i as int, (before[i as int].0, value)));
            lemma_replace(before, i as int, value, after);
        }
        self.entries = entries;
    }

    /// Whether `name` has an entry.
    pub fn contains(&self, name: &str) -> (found: bool)
        ensures
            found == has_key(self@, name@),
            sorted_keys(self@),
    {
        match self.get(name) {
            Some(_) => true,
            None => false,
        }
    }
}

impl<T: Copy> NameMap<T> {
    /// A second copy of this table.
    pub fn copy(&self) -> (other: Self)
        ensures
            other@ == self@,
    {
        proof {
            use_type_invariant(self);
        }
        let mut entries: Vec<(String, T)> = Vec::new();
        let mut i: usize = 0;
        while i < self.entries.len()
            invariant
                i <= self.entries.len(),
                entries.len() == i,
                forall|k: int|
                    0 <= k < i ==> #[trigger] entries@[k].0@ == self@[k].0 && entries@[k].1
                        == self@[k].1,
            decreases self.entries.len() - i,
        {
            entries.push((self.entries[i].0.clone(), self.entries[i].1));
            i = i + 1;
        }
        assert(Seq::new(entries@.len(), |i: int| (entries@[i].0@, entries@[i].1)) =~= self@);
        NameMap { entries }
    }
}

/// The names of a list, each once and in order.
pub fn name_set(list: &Vec<String>) -> (set: NameMap<()>)
    ensures
        sorted_keys(set@),
        key_set(set@) =~= text::texts(list@).to_set(),
{
    let mut set: NameMap<()> = NameMap::new();
    let mut i: usize = 0;
    assert(sorted_keys(set@));
    while i < list.len()
        invariant
            i <= list.len(),
            sorted_keys(set@),
            forall|name: Seq<char>| #[trigger]
                has_key(set@, name) <==> (exists|k: int|
                    0 <= k < i && #[trigger] text::texts(list@)[k] == name),
        decreases list.len() - i,
    {
        let ghost was = set@;
        set.insert(list[i].clone(), ());
        assert forall|name: Seq<char>| #[trigger] has_key(set@, name) <==> (exists|k: int|
            0 <= k < i + 1 && #[trigger] text::texts(list@)[k] == name) by {
            assert(value_of(set@, name) is Some <==> has_key(set@, name));
            assert(value_of(was, name) is Some <==> has_key(was, name));
            assert(text::texts(list@)[i as int] == list@[i as int]@);
        }
        i = i + 1;
    }
    assert forall|name: Seq<char>| key_set(set@).contains(name) <==> text::texts(
        list@,
    ).to_set().contains(name) by {
        assert(text::texts(list@).to_set().contains(name) <==> text::texts(list@).contains(name));
        assert(has_key(set@, name) <==> text::texts(list@).contains(name));
    }
    set
}

/// The names of `list` that are not keys of `kept`.
pub fn names_left_out<T>(list: &Vec<String>, kept: &NameMap<T>) -> (rest: Vec<String>)
    ensures
        text::texts(rest@) == left_out(text::texts(list@), key_set(kept@)),
{
    let mut rest: Vec<String> = Vec::new();
    let mut i: usize = 0;
    assert(text::texts(list@).take(0) =~= Seq::empty());
    assert(text::texts(rest@) =~= Seq::empty());
    while i < list.len()
        invariant
            i <= list.len(),
            text::texts(rest@) == left_out(text::texts(list@).take(i as int), key_set(kept@)),
        decreases list.len() - i,
    {
        assert(text::texts(list@).take(i + 1).drop_last() =~= text::texts(list@).take(i as int));
        let ghost was = rest@;
        if !kept.contains(list[i].as_str()) {
            rest.push(list[i].clone());
            assert(text::texts(rest@) =~= text::texts(was).push(list@[i as int]@));
        }
        i = i + 1;
    }
    assert(text::texts(list@).take(list@.len() as int) =~= text::texts(list@));
    rest
}

/// The first name that is left out, where there is one.
pub fn first_left_out<S, T>(table: &NameMap<S>, kept: &NameMap<T>) -> (name: Option<String>)
    ensures
        ({
            let rest = left_out(keys(table@), key_set(kept@));
            match name {
                Some(name) => rest.len() > 0 && rest[0] == name@,
                None => rest.len() == 0,
            }
        }),
{
    let list = table.names();
    let rest = names_left_out(&list, kept);
    if rest.len() > 0 {
        assert(text::texts(rest@)[0] == rest@[0]@);
        Some(rest[0].clone())
    } else {
        None
    }
}

/// Two tables have the same names exactly where neither has one that the other lacks.
pub proof fn lemma_same_names<S, T>(a: Seq<(Seq<char>, S)>, b: Seq<(Seq<char>, T)>)
    ensures
        (left_out(keys(a), key_set(b)).len() == 0 && left_out(
            keys(b),
            key_set(a),
        ).len() == 0) <==> (forall|name: Seq<char>| #[trigger]
            has_key(a, name) <==> has_key(b, name)),
{
    let extra = left_out(keys(a), key_set(b));
    let missing = left_out(keys(b), key_set(a));
    lemma_left_out(keys(a), key_set(b));
    lemma_left_out(keys(b), key_set(a));
    assert forall|name: Seq<char>| keys(a).contains(name) == #[trigger] has_key(
        a,
        name,
    ) by {
        if has_key(a, name) {
            let i = choose|i: int| 0 <= i < a.len() && #[trigger] a[i].0 == name;
            assert(keys(a)[i] == name);
        }
    }
    assert forall|name: Seq<char>| keys(b).contains(name) == #[trigger] has_key(
        b,
        name,
    ) by {
        if has_key(b, name) {
            let i = choose|i: int| 0 <= i < b.len() && #[trigger] b[i].0 == name;
            assert(keys(b)[i] == name);
        }
    }
    if extra.len() > 0 {
        assert(extra.contains(extra[0]));
        assert(has_key(a, extra[0]));
        assert(!has_key(b, extra[0]));
    } else if missing.len() > 0 {
        assert(missing.contains(missing[0]));
        assert(has_key(b, missing[0]));
        assert(!has_key(a, missing[0]));
    } else {
        assert forall|name: Seq<char>| #[trigger]
            has_key(a, name) <==> has_key(b, name) by {
            assert(!extra.contains(name));
            assert(!missing.contains(name));
        }
    }
}

} // verus!
