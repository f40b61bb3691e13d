use vstd::prelude::*;

use crate::config::Config;
use crate::value::{key_is, placed, unique_names, Mapping, Value};

verus! {

/// A value added under a name is what a lookup of that name then finds.
/// `before` and `after` are the store before and after `add(name, v)`.
pub proof fn add_then_get(before: Config, after: Config, name: Seq<char>, v: Value)
    requires
        after.entries() == before.entries().insert(name, v),
    ensures
        after.entries().contains_key(name),
        after.entries()[name] == v,
{
}

/// The last of two values added under one name wins: a lookup finds the second, and
/// the second add neither adds a name nor grows the root.
pub proof fn add_twice_then_get(c0: Config, c1: Config, c2: Config, name: Seq<char>, v1: Value, v2: Value)
    requires
        c1.entries() == c0.entries().insert(name, v1),
        c2.entries() == c1.entries().insert(name, v2),
        placed(c1.document()@, c2.document()@, |k: Value| key_is(k, name), v2),
    ensures
        c2.entries()[name] == v2,
        c2.entries() == c0.entries().insert(name, v2),
        c2.entries().dom() == c1.entries().dom(),
        c2.document()@.len() == c1.document()@.len(),
{
    assert(c2.entries() =~= c0.entries().insert(name, v2));
    assert(c2.entries().dom() =~= c1.entries().dom());
    let s = c1.document()@;
    let i = choose|i: int| 0 <= i < s.len() && #[trigger] key_is(s[i].0, name);
    assert((|k: Value| key_is(k, name))(s[i].0));
}

/// Two adds under different names give the same entries, and a root of the same
/// length, in either order.
pub proof fn adds_commute(
    c: Config,
    a1: Config,
    a2: Config,
    b1: Config,
    b2: Config,
    n1: Seq<char>,
    n2: Seq<char>,
    v1: Value,
    v2: Value,
)
    requires
        n1 != n2,
        a1.entries() == c.entries().insert(n1, v1),
        a2.entries() == a1.entries().insert(n2, v2),
        b1.entries() == c.entries().insert(n2, v2),
        b2.entries() == b1.entries().insert(n1, v1),
        a1.document()@.len() == c.document()@.len() + if c.entries().contains_key(n1) { 0int } else { 1 },
        a2.document()@.len() == a1.document()@.len() + if a1.entries().contains_key(n2) { 0int } else { 1 },
        b1.document()@.len() == c.document()@.len() + if c.entries().contains_key(n2) { 0int } else { 1 },
        b2.document()@.len() == b1.document()@.len() + if b1.entries().contains_key(n1) { 0int } else { 1 },
    ensures
        a2.entries() == b2.entries(),
        a2.document()@.len() == b2.document()@.len(),
{
    assert(a2.entries() =~= b2.entries());
}

/// Adding again under a name the value that is already there changes neither the
/// entries by name nor any value of the root, nor its length; the key stays the same
/// string.
pub proof fn add_again_changes_nothing(c1: Config, c2: Config, name: Seq<char>, v: Value)
    requires
        c1.entries().contains_key(name),
        c1.entries()[name] == v,
        unique_names(c1.document()@),
        c2.entries() == c1.entries().insert(name, v),
        placed(c1.document()@, c2.document()@, |k: Value| key_is(k, name), v),
    ensures
        c2.entries() == c1.entries(),
        c2.document()@.len() == c1.document()@.len(),
        forall|j: int| 0 <= j < c1.document()@.len() ==> (#[trigger] c2.document()@[j]).1 == c1.document()@[j].1,
        forall|j: int| 0 <= j < c1.document()@.len() ==>
            (c2.document()@[j].0 == c1.document()@[j].0 || key_is(#[trigger] c2.document()@[j].0, name)
                && key_is(c1.document()@[j].0, name)),
{
    assert(c2.entries() =~= c1.entries());
    let s = c1.document()@;
    let t = c2.document()@;
    let m = |k: Value| key_is(k, name);
    let i0 = choose|i: int| 0 <= i < s.len() && #[trigger] key_is(s[i].0, name);
    assert(m(s[i0].0));
    let i = choose|i: int|
        0 <= i < s.len() && #[trigger] m(s[i].0) && t.len() == s.len() && m(t[i].0) && t[i].1 == v
            && forall|j: int| 0 <= j < s.len() && j != i ==> #[trigger] t[j] == s[j];
    assert(key_is(s[i].0, name));
    assert(i == i0);
    assert forall|j: int| 0 <= j < s.len() implies (#[trigger] t[j]).1 == s[j].1 by {
        if j != i {
            assert(t[j] == s[j]);
        }
    }
    assert forall|j: int| 0 <= j < s.len() implies (t[j].0 == s[j].0 || key_is(#[trigger] t[j].0, name)
        && key_is(s[j].0, name)) by {
        if j != i {
            assert(t[j] == s[j]);
        }
    }
}

/// A new store holds no name, so every lookup in it fails.
pub proof fn fresh_store_lacks_every_name(c: Config, name: Seq<char>)
    requires
        c.entries() == Map::<Seq<char>, Value>::empty(),
    ensures
        !c.entries().contains_key(name),
{
}

/// A store that was loaded from a mapping and then given a further entry under a
/// new name holds both: each entry of the mapping and the added one, unchanged, and
/// nothing else.
pub proof fn load_then_add_keeps_both(
    loaded: Config,
    after: Config,
    m: Mapping,
    first: Seq<char>,
    second: Seq<char>,
    v: Value,
)
    requires
        loaded.document() == m,
        after.entries() == loaded.entries().insert(second, v),
        placed(loaded.document()@, after.document()@, |k: Value| key_is(k, second), v),
        m.named().contains_key(first),
        !m.named().contains_key(second),
    ensures
        after.document()@.len() == m@.len() + 1,
        forall|j: int| 0 <= j < m@.len() ==> #[trigger] after.document()@[j] == m@[j],
        key_is(after.document()@[m@.len() as int].0, second),
        after.document()@[m@.len() as int].1 == v,
        after.entries().contains_key(first),
        after.entries()[first] == m.named()[first],
        after.entries().contains_key(second),
        after.entries()[second] == v,
{
    let s = loaded.document()@;
    let named_second = |k: Value| key_is(k, second);
    assert forall|i: int| 0 <= i < s.len() implies !#[trigger] named_second(s[i].0) by {
        assert(!m.named().contains_key(second));
    }
}

} // verus!
