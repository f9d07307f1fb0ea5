//! A map from names to values that is walked in the order of the names.
use vstd::prelude::*;

use crate::text;
use crate::text::{is_before, same_text};

verus! {

/// Whether each text comes before all that follow it.
pub open spec fn ascending(keys: Seq<Seq<char>>) -> bool {
    forall|i: int, j: int| 0 <= i < j < keys.len() ==> text::text_before(keys[i], keys[j])
}

/// Two ascending lists of the same texts are equal.
pub proof fn lemma_ascending_unique(left: Seq<Seq<char>>, right: Seq<Seq<char>>)
    requires
        ascending(left),
        ascending(right),
        forall|key: Seq<char>| left.contains(key) <==> right.contains(key),
    ensures
        left == right,
    decreases left.len(),
{
    if left.len() == 0 {
        if right.len() > 0 {
            assert(right.contains(right[0]));
        }
    } else {
        assert(left.contains(left.last()));
        let at = right.index_of(left.last());
        let back = {
            assert(right.contains(right.last()));
            left.index_of(right.last())
        };
        if at < right.len() - 1 {
            if back < left.len() - 1 {
                text::lemma_text_before_transitive(left.last(), right.last(), left.last());
            }
            text::lemma_text_before_irreflexive(left.last());
        }
        assert(left.last() == right.last());
        let short_left = left.drop_last();
        let short_right = right.drop_last();
        assert forall|key: Seq<char>| short_left.contains(key) <==> short_right.contains(key) by {
            text::lemma_text_before_irreflexive(key);
            if short_left.contains(key) {
                let i = short_left.index_of(key);
                assert(left[i] == key);
                assert(right.contains(key));
                let j = right.index_of(key);
                assert(j < right.len() - 1);
                assert(short_right[j] == key);
            }
            if short_right.contains(key) {
                let j = short_right.index_of(key);
                assert(right[j] == key);
                assert(left.contains(key));
                let i = left.index_of(key);
                assert(i < left.len() - 1);
                assert(short_left[i] == key);
            }
        }
        lemma_ascending_unique(short_left, short_right);
        assert(left == short_left.push(left.last()));
        assert(right == short_right.push(right.last()));
    }
}

/// The texts of a set, in ascending order.
pub open spec fn in_order(names: Set<Seq<char>>) -> Seq<Seq<char>> {
    choose|keys: Seq<Seq<char>>| #[trigger]
        ascending(keys) && forall|key: Seq<char>| keys.contains(key) <==> names.contains(key)
}

/// An ascending list is the texts of its set in ascending order.
pub proof fn lemma_in_order(keys: Seq<Seq<char>>, names: Set<Seq<char>>)
    requires
        ascending(keys),
        forall|key: Seq<char>| keys.contains(key) <==> names.contains(key),
    ensures
        in_order(names) == keys,
{
    lemma_ascending_unique(in_order(names), keys);
}

proof fn lemma_insert_ascending(keys: Seq<Seq<char>>, name: Seq<char>) -> (wide: Seq<Seq<char>>)
    requires
        ascending(keys),
        !keys.contains(name),
    ensures
        ascending(wide),
        forall|key: Seq<char>| #[trigger] wide.contains(key) <==> keys.contains(key) || key == name,
    decreases keys.len(),
{
    if keys.len() == 0 {
        let wide = seq![name];
        assert(wide[0] == name);
        wide
    } else {
        let last = keys.last();
        let short = keys.drop_last();
        assert(keys[keys.len() - 1] == last);
        text::lemma_text_before_total(last, name);
        if text::text_before(last, name) {
            let wide = keys.push(name);
            assert forall|i: int, j: int| 0 <= i < j < wide.len() implies text::text_before(
                wide[i],
                wide[j],
            ) by {
                if j == keys.len() && i < keys.len() - 1 {
                    text::lemma_text_before_transitive(keys[i], last, name);
                }
            }
            lemma_push_contains(keys, name);
            wide
        } else {
            assert(!short.contains(name)) by {
                if short.contains(name) {
                    assert(keys[short.index_of(name)] == name);
                }
            }
            let narrow = lemma_insert_ascending(short, name);
            let wide = narrow.push(last);
            assert forall|i: int, j: int| 0 <= i < j < wide.len() implies text::text_before(
                wide[i],
                wide[j],
            ) by {
                if j == narrow.len() {
                    assert(narrow.contains(narrow[i]));
                    if narrow[i] != name {
                        let at = short.index_of(narrow[i]);
                        assert(keys[at] == narrow[i]);
                        assert(text::text_before(keys[at], keys[keys.len() - 1]));
                    }
                }
            }
            lemma_push_contains(narrow, last);
            lemma_push_contains(short, last);
            assert(short.push(last) == keys);
            wide
        }
    }
}

proof fn lemma_push_contains(keys: Seq<Seq<char>>, name: Seq<char>)
    ensures
        forall|key: Seq<char>| #[trigger]
            keys.push(name).contains(key) <==> keys.contains(key) || key == name,
{
    let wide = keys.push(name);
    assert forall|key: Seq<char>| #[trigger] wide.contains(key) <==> keys.contains(key) || key
        == name by {
        if keys.contains(key) {
            assert(wide[keys.index_of(key)] == key);
        }
        if key == name {
            assert(wide[keys.len() as int] == key);
        }
        if wide.contains(key) && key != name {
            assert(keys[wide.index_of(key)] == key);
        }
    }
}

proof fn lemma_ordered(list: Seq<Seq<char>>, names: Set<Seq<char>>) -> (keys: Seq<Seq<char>>)
    requires
        forall|key: Seq<char>| #[trigger] names.contains(key) ==> list.contains(key),
    ensures
        ascending(keys),
        forall|key: Seq<char>| #[trigger] keys.contains(key) <==> names.contains(key),
    decreases list.len(),
{
    if list.len() == 0 {
        Seq::empty()
    } else {
        let last = list.last();
        let short = list.drop_last();
        let fewer = names.remove(last);
        lemma_push_contains(short, last);
        assert(short.push(last) == list);
        assert forall|key: Seq<char>| #[trigger] fewer.contains(key) implies short.contains(key) by {
            assert(names.contains(key));
            assert(list.contains(key));
        }
        let keys = lemma_ordered(short, fewer);
        if names.contains(last) {
            assert(!keys.contains(last));
            lemma_insert_ascending(keys, last)
        } else {
            keys
        }
    }
}

/// The texts of a set that a list covers have an ascending order.
pub proof fn lemma_in_order_exists(list: Seq<Seq<char>>, names: Set<Seq<char>>)
    requires
        forall|key: Seq<char>| #[trigger] names.contains(key) ==> list.contains(key),
    ensures
        ascending(in_order(names)),
        forall|key: Seq<char>| #[trigger] in_order(names).contains(key) <==> names.contains(key),
{
    let keys = lemma_ordered(list, names);
    lemma_in_order(keys, names);
}

/// In an ascending list, a text stands at one place only.
proof fn lemma_ascending_place(keys: Seq<Seq<char>>, at: int)
    requires
        ascending(keys),
        0 <= at < keys.len(),
    ensures
        keys.index_of(keys[at]) == at,
{
    assert(keys.contains(keys[at]));
    let found = keys.index_of(keys[at]);
    text::lemma_text_before_irreflexive(keys[at]);
    if found < at {
        assert(text::text_before(keys[found], keys[at]));
    } else if at < found {
        assert(text::text_before(keys[at], keys[found]));
    }
}

/// The map that gives each key the value at the same place.
spec fn entry_map<V>(keys: Seq<Seq<char>>, values: Seq<V>) -> Map<Seq<char>, V> {
    Map::new(|key: Seq<char>| keys.contains(key), |key: Seq<char>| values[keys.index_of(key)])
}

proof fn lemma_replace_entry<V>(keys: Seq<Seq<char>>, values: Seq<V>, at: int, value: V)
    requires
        keys.len() == values.len(),
        ascending(keys),
        0 <= at < keys.len(),
    ensures
        entry_map(keys, values.update(at, value)) == entry_map(keys, values).insert(keys[at], value),
{
    lemma_ascending_place(keys, at);
    assert(keys.contains(keys[at]));
    assert forall|key: Seq<char>| keys.contains(key) && key != keys[at] implies values.update(
        at,
        value,
    )[keys.index_of(key)] == values[keys.index_of(key)] by {
        assert(keys[keys.index_of(key)] == key);
    }
    assert(entry_map(keys, values.update(at, value)) =~= entry_map(keys, values).insert(
        keys[at],
        value,
    ));
}

proof fn lemma_insert_entry<V>(
    keys: Seq<Seq<char>>,
    values: Seq<V>,
    at: int,
    name: Seq<char>,
    value: V,
)
    requires
        keys.len() == values.len(),
        ascending(keys),
        0 <= at <= keys.len(),
        forall|i: int| 0 <= i < at ==> text::text_before(#[trigger] keys[i], name),
        at < keys.len() ==> !text::text_before(keys[at], name) && keys[at] != name,
    ensures
        ascending(keys.insert(at, name)),
        entry_map(keys.insert(at, name), values.insert(at, value)) == entry_map(
            keys,
            values,
        ).insert(name, value),
{
    let wide = keys.insert(at, name);
    let held = values.insert(at, value);
    assert forall|i: int| at <= i < keys.len() implies text::text_before(
        name,
        #[trigger] keys[i],
    ) by {
        text::lemma_text_before_total(keys[at], name);
        if at < i {
            text::lemma_text_before_transitive(name, keys[at], keys[i]);
        }
    }
    assert(ascending(wide)) by {
        assert forall|i: int, j: int| 0 <= i < j < wide.len() implies text::text_before(
            wide[i],
            wide[j],
        ) by {
            let from = if i < at {
                i
            } else {
                i - 1
            };
            let to = if j < at {
                j
            } else {
                j - 1
            };
            if i != at {
                assert(wide[i] == keys[from]);
            }
            if j != at {
                assert(wide[j] == keys[to]);
            }
        }
    }
    assert forall|key: Seq<char>| wide.contains(key) <==> (keys.contains(key) || key == name) by {
        if keys.contains(key) {
            let i = keys.index_of(key);
            assert(wide[if i < at { i } else { i + 1 }] == key);
        }
        if key == name {
            assert(wide[at] == key);
        }
        if wide.contains(key) && key != name {
            let i = wide.index_of(key);
            assert(keys[if i < at { i } else { i - 1 }] == key);
        }
    }
    assert forall|key: Seq<char>| wide.contains(key) implies held[wide.index_of(key)] == (if key
        == name {
        value
    } else {
        values[keys.index_of(key)]
    }) by {
        if key == name {
            lemma_ascending_place(wide, at);
        } else {
            let i = keys.index_of(key);
            let k = if i < at {
                i
            } else {
                i + 1
            };
            assert(wide[k] == key);
            lemma_ascending_place(wide, k);
        }
    }
    assert(entry_map(wide, held) =~= entry_map(keys, values).insert(name, value));
}

/// A map whose keys are texts, held in ascending order, each of them once.
#[derive(Debug, PartialEq, Eq)]
pub struct NameMap<V> {
    names: Vec<String>,
    values: Vec<V>,
}

impl<V> View for NameMap<V> {
    type V = Map<Seq<char>, V>;

    closed spec fn view(&self) -> Map<Seq<char>, V> {
        entry_map(self.keys(), self.values@)
    }
}

impl<V> NameMap<V> {
    /// The names that have a value, in ascending order.
    pub closed spec fn keys(&self) -> Seq<Seq<char>> {
        text::texts(self.names@)
    }

    #[verifier::type_invariant]
    spec fn ordered(self) -> bool {
        &&& self.names@.len() == self.values@.len()
        &&& ascending(self.keys())
    }

    /// A map without entries.
    pub fn new() -> (map: Self)
        ensures
            map@ == Map::<Seq<char>, V>::empty(),
            map.keys() == Seq::<Seq<char>>::empty(),
    {
        let map = NameMap { names: Vec::new(), values: Vec::new() };
        assert(map@ =~= Map::<Seq<char>, V>::empty());
        map
    }

    /// The number of entries.
    pub fn len(&self) -> (count: usize)
        ensures
            count == self.keys().len(),
            ascending(self.keys()),
            forall|key: Seq<char>| #[trigger] self@.contains_key(key) <==> self.keys().contains(key),
    {
        proof {
            use_type_invariant(self);
        }
        self.names.len()
    }

    /// The name at `index`, counted in ascending order.
    pub fn name_at(&self, index: usize) -> (name: &String)
        requires
            index < self.keys().len(),
        ensures
            name@ == self.keys()[index as int],
    {
        &self.names[index]
    }

    /// The value of the name at `index`, counted in ascending order.
    pub fn value_at(&self, index: usize) -> (value: &V)
        requires
            index < self.keys().len(),
        ensures
            self@.contains_key(self.keys()[index as int]),
            *value == self@[self.keys()[index as int]],
    {
        proof {
            use_type_invariant(self);
            lemma_ascending_place(self.keys(), index as int);
        }
        &self.values[index]
    }

    /// The value of `name`, where it has one.
    pub fn get(&self, name: &str) -> (found: Option<&V>)
        ensures
            found is Some <==> self@.contains_key(name@),
            found is Some ==> *found->0 == self@[name@],
    {
        proof {
            use_type_invariant(self);
        }
        for index in 0..self.names.len()
            invariant
                self.names@.len() == self.values@.len(),
                ascending(self.keys()),
                forall|i: int| 0 <= i < index ==> self.keys()[i] != name@,
        {
            if same_text(self.names[index].as_str(), name) {
                proof {
                    assert(self.keys()[index as int] == name@);
                    lemma_ascending_place(self.keys(), index as int);
                }
                return Some(&self.values[index]);
            }
        }
        None
    }

    /// Whether `name` has a value.
    pub fn contains_key(&self, name: &str) -> (found: bool)
        ensures
            found == self@.contains_key(name@),
    {
        self.get(name).is_some()
    }

    /// Gives `name` the value `value`, in place of any that it had.
    pub fn insert(&mut self, name: String, value: V)
        ensures
            final(self)@ == old(self)@.insert(name@, value),
            ascending(final(self).keys()),
            forall|key: Seq<char>| #[trigger]
                final(self)@.contains_key(key) <==> final(self).keys().contains(key),
    {
        let mut held = NameMap::new();
        std::mem::swap(&mut held, self);
        proof {
            use_type_invariant(&held);
        }
        let NameMap { names, values } = held;
        *self = NameMap::with_entry(names, values, name, value);
    }

    /// The names in ascending order, and the values in the order of the names.
    pub fn into_parts(self) -> (parts: (Vec<String>, Vec<V>))
        ensures
            text::texts(parts.0@) == self.keys(),
            parts.1@.len() == parts.0@.len(),
            ascending(self.keys()),
            forall|i: int|
                0 <= i < parts.1@.len() ==> #[trigger] parts.1@[i] == self@[self.keys()[i]],
            forall|key: Seq<char>| #[trigger] self@.contains_key(key) <==> self.keys().contains(key),
    {
        proof {
            use_type_invariant(&self);
            assert forall|i: int| 0 <= i < self.values@.len() implies #[trigger] self.values@[i]
                == self@[self.keys()[i]] by {
                lemma_ascending_place(self.keys(), i);
            }
        }
        (self.names, self.values)
    }

    /// The map of `names` and `values`, with `value` for `name`.
    fn with_entry(names: Vec<String>, values: Vec<V>, name: String, value: V) -> (map: Self)
        requires
            names@.len() == values@.len(),
            ascending(text::texts(names@)),
        ensures
            map@ == entry_map(text::texts(names@), values@).insert(name@, value),
            ascending(map.keys()),
            forall|key: Seq<char>| #[trigger] map@.contains_key(key) <==> map.keys().contains(key),
    {
        let mut names = names;
        let mut values = values;
        let ghost keys = text::texts(names@);
        let ghost before = values@;
        let mut at: usize = 0;
        while at < names.len() && is_before(names[at].as_str(), name.as_str())
            invariant
                keys == text::texts(names@),
                at <= names.len(),
                forall|i: int| 0 <= i < at ==> text::text_before(#[trigger] keys[i], name@),
            decreases names.len() - at,
        {
            at = at + 1;
        }
        if at < names.len() && same_text(names[at].as_str(), name.as_str()) {
            values.set(at, value);
            let map = NameMap { names, values };
            proof {
                assert(keys[at as int] == name@);
                lemma_replace_entry(keys, before, at as int, value);
            }
            map
        } else {
            let ghost key = name@;
            proof {
                lemma_insert_entry(keys, before, at as int, key, value);
            }
            names.insert(at, name);
            values.insert(at, value);
            assert(text::texts(names@) =~= keys.insert(at as int, key));
            NameMap { names, values }
        }
    }
}

/// The names of a map are those that have a value.
pub proof fn lemma_keys<V>(map: NameMap<V>)
    ensures
        forall|key: Seq<char>| #[trigger] map@.contains_key(key) <==> map.keys().contains(key),
{
}

impl<V: Clone> Clone for NameMap<V> {
    fn clone(&self) -> (copy: Self)
        ensures
            copy.keys() == self.keys(),
            forall|key: Seq<char>| #[trigger] copy@.contains_key(key) <==> self@.contains_key(key),
            forall|key: Seq<char>| #[trigger] self@.contains_key(key) ==> cloned(self@[key], copy@[key]),
    {
        proof {
            use_type_invariant(self);
        }
        let names = self.names.clone();
        let values = self.values.clone();
        assert(text::texts(names@) =~= self.keys());
        NameMap { names, values }
    }
}

} // verus!
