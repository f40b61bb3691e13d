use vstd::prelude::*;

use crate::error::Error;

verus! {

/// A dynamically typed document: a scalar, a sequence, a mapping, or a value that
/// carries a tag. A number is held as text, in the form that the codec that produced
/// it printed it; the text of a tag is held as it was given.
#[derive(Debug)]
pub enum Value {
    Null,
    Bool(bool),
    Number(String),
    Text(String),
    Sequence(Vec<Value>),
    Mapping(Mapping),
    Tagged(String, Box<Value>),
}

/// An ordered collection of key/value pairs in which no textual key occurs twice.
#[derive(Debug)]
pub struct Mapping {
    entries: Vec<(Value, Value)>,
}

/// Whether `key` is the textual key `name`.
pub open spec fn key_is(key: Value, name: Seq<char>) -> bool {
    match key {
        Value::Text(t) => t@ == name,
        _ => false,
    }
}

/// Whether `a` and `b` are the same scalar key. Sequences, mappings and tagged values
/// are never matched as keys.
pub open spec fn same_key(a: Value, b: Value) -> bool {
    match (a, b) {
        (Value::Null, Value::Null) => true,
        (Value::Bool(x), Value::Bool(y)) => x == y,
        (Value::Number(x), Value::Number(y)) => x@ == y@,
        (Value::Text(x), Value::Text(y)) => x@ == y@,
        _ => false,
    }
}

/// Whether `v` is a scalar: null, a boolean, a number or a string.
pub open spec fn is_scalar(v: Value) -> bool {
    !(v is Sequence) && !(v is Mapping) && !(v is Tagged)
}

/// No scalar key stands twice in `s`.
pub open spec fn unique_keys(s: Seq<(Value, Value)>) -> bool {
    forall|i: int, j: int|
        0 <= i < s.len() && 0 <= j < s.len() && #[trigger] same_key(s[i].0, s[j].0) ==> i == j
}

/// No textual key stands twice in `s`.
pub open spec fn unique_names(s: Seq<(Value, Value)>) -> bool {
    forall|i: int, j: int, n: Seq<char>|
        0 <= i < s.len() && 0 <= j < s.len() && #[trigger] key_is(s[i].0, n)
            && #[trigger] key_is(s[j].0, n) ==> i == j
}

/// The entries of `s` seen by textual key.
pub open spec fn by_name(s: Seq<(Value, Value)>) -> Map<Seq<char>, Value> {
    Map::new(
        |n: Seq<char>| exists|i: int| 0 <= i < s.len() && #[trigger] key_is(s[i].0, n),
        |n: Seq<char>| s[choose|i: int| 0 <= i < s.len() && #[trigger] key_is(s[i].0, n)].1,
    )
}

/// Whether `after` is `before` with `value` put under a key for which `matches` holds:
/// the one entry whose key matches gets the new value in place, or, where none
/// matches, a new entry is appended. Every other entry stays as it was.
pub open spec fn placed(
    before: Seq<(Value, Value)>,
    after: Seq<(Value, Value)>,
    matches: spec_fn(Value) -> bool,
    value: Value,
) -> bool {
    if exists|i: int| 0 <= i < before.len() && #[trigger] matches(before[i].0) {
        exists|i: int|
            0 <= i < before.len() && #[trigger] matches(before[i].0) && after.len() == before.len()
                && matches(after[i].0) && after[i].1 == value
                && forall|j: int| 0 <= j < before.len() && j != i ==> #[trigger] after[j] == before[j]
    } else {
        &&& after.len() == before.len() + 1
        &&& matches(after[before.len() as int].0)
        &&& after[before.len() as int].1 == value
        &&& forall|j: int| 0 <= j < before.len() ==> #[trigger] after[j] == before[j]
    }
}

proof fn lemma_unique_keys_names(s: Seq<(Value, Value)>)
    requires
        unique_keys(s),
    ensures
        unique_names(s),
{
    assert forall|i: int, j: int, n: Seq<char>|
        0 <= i < s.len() && 0 <= j < s.len() && #[trigger] key_is(s[i].0, n)
            && #[trigger] key_is(s[j].0, n) implies i == j by {
        assert(same_key(s[i].0, s[j].0));
    }
}

/// Putting `value` at position `i`, under the textual key `n`, with every other entry
/// kept, puts it under `n` in the view by name.
proof fn lemma_put_by_name(before: Seq<(Value, Value)>, after: Seq<(Value, Value)>, i: int, n: Seq<char>, value: Value)
    requires
        0 <= i < after.len(),
        key_is(after[i].0, n),
        after[i].1 == value,
        forall|j: int| 0 <= j < after.len() && j != i ==> j < before.len() && #[trigger] after[j] == before[j],
        before.len() <= after.len(),
        i >= before.len() ==> !by_name(before).contains_key(n),
        i < before.len() ==> key_is(before[i].0, n),
        unique_names(before),
        unique_names(after),
    ensures
        by_name(after) == by_name(before).insert(n, value),
{
    let expected = by_name(before).insert(n, value);
    assert forall|m: Seq<char>| #[trigger] by_name(after).contains_key(m) == expected.contains_key(m) by {
        if m != n && by_name(after).contains_key(m) {
            let a = choose|a: int| 0 <= a < after.len() && #[trigger] key_is(after[a].0, m);
            assert(a != i);
            assert(after[a] == before[a]);
            assert(key_is(before[a].0, m));
        }
        if m != n && by_name(before).contains_key(m) {
            let a = choose|a: int| 0 <= a < before.len() && #[trigger] key_is(before[a].0, m);
            if a == i {
                assert(key_is(before[i].0, n));
            }
            assert(a != i);
            assert(after[a] == before[a]);
            assert(key_is(after[a].0, m));
        }
        if m == n {
            assert(key_is(after[i].0, m));
        }
    }
    assert forall|m: Seq<char>| #[trigger] by_name(after).contains_key(m)
        implies by_name(after)[m] == expected[m] by {
        let a = choose|a: int| 0 <= a < after.len() && #[trigger] key_is(after[a].0, m);
        if m == n {
            assert(key_is(after[i].0, m));
        } else {
            assert(a != i);
            assert(after[a] == before[a]);
            assert(key_is(before[a].0, m));
            let c = choose|c: int| 0 <= c < before.len() && #[trigger] key_is(before[c].0, m);
            if c == i {
                assert(key_is(before[i].0, n));
            }
            assert(c != i);
            assert(after[c] == before[c]);
            assert(key_is(after[c].0, m));
        }
    }
    assert(by_name(after) =~= expected);
}

/// Whether the two keys are the same scalar.
fn keys_match(a: &Value, b: &Value) -> (r: bool)
    ensures
        r == same_key(*a, *b),
{
    match (a, b) {
        (Value::Null, Value::Null) => true,
        (Value::Bool(x), Value::Bool(y)) => *x == *y,
        (Value::Number(x), Value::Number(y)) => *x == *y,
        (Value::Text(x), Value::Text(y)) => *x == *y,
        _ => false,
    }
}

/// The position of the entry whose key is the same scalar as `key`, if there is one.
fn position(entries: &Vec<(Value, Value)>, key: &Value) -> (r: Option<usize>)
    ensures
        match r {
            Some(i) => i < entries@.len() && same_key(entries@[i as int].0, *key),
            None => forall|i: int| 0 <= i < entries@.len() ==> !same_key(#[trigger] entries@[i].0, *key),
        },
{
    let mut i: usize = 0;
    while i < entries.len()
        invariant
            i <= entries@.len(),
            forall|j: int| 0 <= j < i ==> !same_key(#[trigger] entries@[j].0, *key),
        decreases entries@.len() - i,
    {
        if keys_match(&entries[i].0, key) {
            return Some(i);
        }
        i = i + 1;
    }
    None
}

/// The error that an accessor answers when the value has another shape.
pub open spec fn is_shape_error<T>(r: Result<T, Error>) -> bool {
    r is Err && r->Err_0 is DeserializationFailed
}

impl Value {
    /// Whether the value is `Null`.
    pub fn is_null(&self) -> (r: bool)
        ensures
            r == (*self is Null),
    {
        match self {
            Value::Null => true,
            _ => false,
        }
    }

    /// The boolean, or `DeserializationFailed` for any other shape.
    pub fn as_bool(&self) -> (r: Result<bool, Error>)
        ensures
            match *self {
                Value::Bool(b) => r == Ok::<bool, Error>(b),
                _ => is_shape_error(r),
            },
    {
        match self {
            Value::Bool(b) => Ok(*b),
            _ => Err(Error::DeserializationFailed("expected a boolean".to_owned())),
        }
    }

    /// The text of a number, or `DeserializationFailed` for any other shape.
    pub fn as_number(&self) -> (r: Result<&str, Error>)
        ensures
            match *self {
                Value::Number(n) => r is Ok && r->Ok_0@ == n@,
                _ => is_shape_error(r),
            },
    {
        match self {
            Value::Number(n) => Ok(n.as_str()),
            _ => Err(Error::DeserializationFailed("expected a number".to_owned())),
        }
    }

    /// The string, or `DeserializationFailed` for any other shape.
    pub fn as_str(&self) -> (r: Result<&str, Error>)
        ensures
            match *self {
                Value::Text(t) => r is Ok && r->Ok_0@ == t@,
                _ => is_shape_error(r),
            },
    {
        match self {
            Value::Text(t) => Ok(t.as_str()),
            _ => Err(Error::DeserializationFailed("expected a string".to_owned())),
        }
    }

    /// The items of a sequence, or `DeserializationFailed` for any other shape.
    pub fn as_sequence(&self) -> (r: Result<&Vec<Value>, Error>)
        ensures
            match *self {
                Value::Sequence(items) => r is Ok && *r->Ok_0 == items,
                _ => is_shape_error(r),
            },
    {
        match self {
            Value::Sequence(items) => Ok(items),
            _ => Err(Error::DeserializationFailed("expected a sequence".to_owned())),
        }
    }

    /// The mapping, or `DeserializationFailed` for any other shape.
    pub fn as_mapping(&self) -> (r: Result<&Mapping, Error>)
        ensures
            match *self {
                Value::Mapping(m) => r is Ok && *r->Ok_0 == m,
                _ => is_shape_error(r),
            },
    {
        match self {
            Value::Mapping(m) => Ok(m),
            _ => Err(Error::DeserializationFailed("expected a mapping".to_owned())),
        }
    }

    /// The tag and the value that it carries, or `DeserializationFailed` for any other
    /// shape.
    pub fn as_tagged(&self) -> (r: Result<(&str, &Value), Error>)
        ensures
            match *self {
                Value::Tagged(tag, inner) => r is Ok && r->Ok_0.0@ == tag@ && *r->Ok_0.1 == *inner,
                _ => is_shape_error(r),
            },
    {
        match self {
            Value::Tagged(tag, inner) => Ok((tag.as_str(), &**inner)),
            _ => Err(Error::DeserializationFailed("expected a tagged value".to_owned())),
        }
    }

    /// The value under the textual key `name` of a mapping; `None` where the value is
    /// no mapping or holds no such key.
    pub fn get(&self, name: &str) -> (r: Option<&Value>)
        ensures
            match *self {
                Value::Mapping(m) => match r {
                    Some(v) => m.named().contains_key(name@) && *v == m.named()[name@],
                    None => !m.named().contains_key(name@),
                },
                _ => r is None,
            },
    {
        match self {
            Value::Mapping(m) => m.get(name),
            _ => None,
        }
    }
}

impl View for Mapping {
    type V = Seq<(Value, Value)>;

    closed spec fn view(&self) -> Seq<(Value, Value)> {
        self.entries@
    }
}

impl Mapping {
    /// The mapping's invariant: scalar keys are unique.
    #[verifier::type_invariant]
    spec fn wf(&self) -> bool {
        unique_keys(self.entries@)
    }

    /// The entries under textual keys, as a map from key to value.
    pub open spec fn named(&self) -> Map<Seq<char>, Value> {
        by_name(self@)
    }

    /// An empty mapping.
    pub fn new() -> (m: Mapping)
        ensures
            m@ == Seq::<(Value, Value)>::empty(),
            m.named() == Map::<Seq<char>, Value>::empty(),
    {
        let m = Mapping { entries: Vec::new() };
        assert(m.named() =~= Map::<Seq<char>, Value>::empty());
        m
    }

    /// The number of entries.
    pub fn len(&self) -> (r: usize)
        ensures
            r == self@.len(),
    {
        self.entries.len()
    }

    /// The key and the value of the entry at position `i`.
    pub fn entry(&self, i: usize) -> (r: (&Value, &Value))
        requires
            i < self@.len(),
        ensures
            *r.0 == self@[i as int].0,
            *r.1 == self@[i as int].1,
    {
        let e = &self.entries[i];
        (&e.0, &e.1)
    }

    /// The value under the textual key `name`, if there is one.
    pub fn get(&self, name: &str) -> (r: Option<&Value>)
        ensures
            match r {
                Some(v) => self.named().contains_key(name@) && *v == self.named()[name@],
                None => !self.named().contains_key(name@),
            },
    {
        proof {
            use_type_invariant(self);
            lemma_unique_keys_names(self@);
        }
        let key = Value::Text(name.to_owned());
        match position(&self.entries, &key) {
            Some(i) => {
                proof {
                    assert(key_is(self@[i as int].0, name@));
                    let j = choose|j: int| 0 <= j < self@.len() && #[trigger] key_is(self@[j].0, name@);
                    assert(key_is(self@[j].0, name@));
                }
                Some(&self.entries[i].1)
            },
            None => {
                proof {
                    assert forall|j: int| 0 <= j < self@.len() implies !#[trigger] key_is(self@[j].0, name@) by {
                        assert(!same_key(self@[j].0, key));
                    }
                }
                None
            },
        }
    }

    /// Puts `value` under `key`. An entry under the same scalar key is replaced in
    /// place; otherwise, and always for a sequence, mapping or tagged key, the pair goes at
    /// the end.
    pub fn insert(&mut self, key: Value, value: Value)
        ensures
            if is_scalar(key) {
                placed(old(self)@, final(self)@, |k: Value| same_key(k, key), value)
            } else {
                final(self)@ == old(self)@.push((key, value))
            },
            final(self)@.len() <= old(self)@.len() + 1,
            unique_names(final(self)@),
            match key {
                Value::Text(t) => {
                    &&& final(self).named() == old(self).named().insert(t@, value)
                    &&& placed(old(self)@, final(self)@, |k: Value| key_is(k, t@), value)
                },
                _ => final(self).named() == old(self).named(),
            },
    {
        proof { use_type_invariant(&*self); }
        let mut entries: Vec<(Value, Value)> = Vec::new();
        std::mem::swap(&mut entries, &mut self.entries);
        let ghost before = entries@;
        let ghost k = key;
        let found = position(&entries, &key);
        proof { lemma_unique_keys_names(before); }
        let ghost at: int;
        match found {
            Some(i) => {
                entries.set(i, (key, value));
                proof {
                    at = i as int;
                    assert forall|a: int, b: int|
                        0 <= a < entries@.len() && 0 <= b < entries@.len()
                            && #[trigger] same_key(entries@[a].0, entries@[b].0) implies a == b by {
                        if a != at && b != at {
                            assert(same_key(before[a].0, before[b].0));
                        } else if a == at && b != at {
                            assert(same_key(before[b].0, before[at].0));
                        } else if b == at && a != at {
                            assert(same_key(before[a].0, before[at].0));
                        }
                    }
                    assert(same_key(before[at].0, k));
                    assert(entries@[at] == (k, value));
                    assert forall|j: int| 0 <= j < before.len() && j != at implies #[trigger] entries@[j] == before[j] by {}
                }
            },
            None => {
                entries.push((key, value));
                proof {
                    at = before.len() as int;
                    assert(entries@[at] == (k, value));
                    assert forall|a: int, b: int|
                        0 <= a < entries@.len() && 0 <= b < entries@.len()
                            && #[trigger] same_key(entries@[a].0, entries@[b].0) implies a == b by {
                        if a < at && b < at {
                            assert(same_key(before[a].0, before[b].0));
                        } else if a == at && b < at {
                            assert(!same_key(before[b].0, k));
                        } else if b == at && a < at {
                            assert(!same_key(before[a].0, k));
                        }
                    }
                    assert forall|j: int| 0 <= j < before.len() implies #[trigger] entries@[j] == before[j] by {}
                }
            },
        }
        proof {
            lemma_unique_keys_names(entries@);
            let same = |x: Value| same_key(x, k);
            assert(entries@[at].0 == k);
            if is_scalar(k) {
                assert(same_key(k, k));
                assert(same(entries@[at].0));
                if at < before.len() {
                    assert(same(before[at].0));
                } else {
                    assert forall|j: int| 0 <= j < before.len() implies !#[trigger] same(before[j].0) by {}
                }
                assert(placed(before, entries@, same, value));
            } else {
                assert(at == before.len()) by {
                    if at < before.len() {
                        assert(same_key(before[at].0, k));
                    }
                }
                assert(entries@ =~= before.push((k, value)));
            }
            match k {
                Value::Text(t) => {
                    let n = t@;
                    let by_text = |x: Value| key_is(x, n);
                    assert forall|x: Value| #[trigger] by_text(x) == same(x) by {}
                    if at < before.len() {
                        assert(key_is(before[at].0, n));
                    } else {
                        assert forall|j: int| 0 <= j < before.len() implies !#[trigger] key_is(before[j].0, n) by {
                            assert(!same_key(before[j].0, k));
                        }
                    }
                    lemma_put_by_name(before, entries@, at, n, value);
                    assert(placed(before, entries@, by_text, value));
                },
                _ => {
                    assert forall|j: int| 0 <= j < entries@.len() && j != at
                        implies j < before.len() && #[trigger] entries@[j] == before[j] by {}
                    assert(by_name(entries@) =~= by_name(before)) by {
                        assert forall|m: Seq<char>| #[trigger] by_name(entries@).contains_key(m)
                            == by_name(before).contains_key(m) by {
                            if by_name(entries@).contains_key(m) {
                                let a = choose|a: int| 0 <= a < entries@.len() && #[trigger] key_is(entries@[a].0, m);
                                assert(a != at);
                                assert(key_is(before[a].0, m));
                            }
                            if by_name(before).contains_key(m) {
                                let a = choose|a: int| 0 <= a < before.len() && #[trigger] key_is(before[a].0, m);
                                if a == at {
                                    assert(same_key(before[a].0, k));
                                }
                                assert(entries@[a] == before[a]);
                                assert(key_is(entries@[a].0, m));
                            }
                        }
                        assert forall|m: Seq<char>| #[trigger] by_name(entries@).contains_key(m)
                            implies by_name(entries@)[m] == by_name(before)[m] by {
                            let a = choose|a: int| 0 <= a < entries@.len() && #[trigger] key_is(entries@[a].0, m);
                            let c = choose|c: int| 0 <= c < before.len() && #[trigger] key_is(before[c].0, m);
                            assert(a != at);
                            assert(key_is(before[a].0, m));
                            if c == at {
                                assert(same_key(before[c].0, k));
                            }
                            assert(entries@[c] == before[c]);
                            assert(key_is(entries@[c].0, m));
                        }
                    }
                },
            }
        }
        self.entries = entries;
    }
}

} // verus!
