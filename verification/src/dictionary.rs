//! Text keys with values, in the order of the keys.

use crate::text::{characters, equals_ignoring_case, same_letters, same_text};
use vstd::prelude::*;

verus! {

/// Whether a text comes strictly before another in the order of its characters'
/// code points.
pub open spec fn precedes(a: Seq<char>, b: Seq<char>) -> bool
    decreases a.len(),
{
    if b.len() == 0 {
        false
    } else if a.len() == 0 {
        true
    } else if a[0] != b[0] {
        (a[0] as int) < (b[0] as int)
    } else {
        precedes(a.skip(1), b.skip(1))
    }
}

/// No text comes before itself.
pub proof fn lemma_precedes_irreflexive(a: Seq<char>)
    ensures
        !precedes(a, a),
    decreases a.len(),
{
    if a.len() > 0 {
        lemma_precedes_irreflexive(a.skip(1));
    }
}

/// The order is transitive.
pub proof fn lemma_precedes_transitive(a: Seq<char>, b: Seq<char>, c: Seq<char>)
    requires
        precedes(a, b),
        precedes(b, c),
    ensures
        precedes(a, c),
    decreases a.len(),
{
    if a.len() > 0 && b.len() > 0 && c.len() > 0 && a[0] == b[0] && b[0] == c[0] {
        lemma_precedes_transitive(a.skip(1), b.skip(1), c.skip(1));
    }
}

/// Of two different texts, one comes before the other.
pub proof fn lemma_precedes_total(a: Seq<char>, b: Seq<char>)
    ensures
        a == b || precedes(a, b) || precedes(b, a),
    decreases a.len(),
{
    if a.len() == 0 {
        assert(b.len() == 0 ==> a =~= b);
    } else if b.len() > 0 && a[0] == b[0] {
        lemma_precedes_total(a.skip(1), b.skip(1));
        if a.skip(1) == b.skip(1) {
            assert(a =~= seq![a[0]] + a.skip(1));
            assert(b =~= seq![b[0]] + b.skip(1));
        }
    }
}

fn code(c: char) -> (r: u32)
    ensures
        r == c as int,
{
    c as u32
}

/// Whether a text comes strictly before another.
pub fn is_before(a: &str, b: &str) -> (r: bool)
    ensures
        r == precedes(a@, b@),
{
    let first = characters(a);
    let second = characters(b);
    let mut i: usize = 0;
    assert(first@.skip(0) =~= first@);
    assert(second@.skip(0) =~= second@);
    loop
        invariant
            first@ == a@,
            second@ == b@,
            i <= first@.len(),
            i <= second@.len(),
            precedes(a@, b@) == precedes(first@.skip(i as int), second@.skip(i as int)),
        decreases first@.len() - i,
    {
        if i >= second.len() {
            return false;
        }
        if i >= first.len() {
            return true;
        }
        if first[i] != second[i] {
            return code(first[i]) < code(second[i]);
        }
        assert(first@.skip(i as int).skip(1) =~= first@.skip(i + 1));
        assert(second@.skip(i as int).skip(1) =~= second@.skip(i + 1));
        i = i + 1;
    }
}

/// One key with its value.
#[derive(Clone, Debug, PartialEq, Eq)]
pub struct Entry<V> {
    pub key: String,
    pub value: V,
}

/// Keys with values, each key once, in the order of the keys.
#[derive(Clone, Debug, PartialEq, Eq)]
pub struct Dictionary<V> {
    pub entries: Vec<Entry<V>>,
}

/// Whether keys stand in strict order.
pub open spec fn ordered<V>(entries: Seq<(Seq<char>, V)>) -> bool {
    forall|i: int, j: int|
        0 <= i < j < entries.len() ==> precedes((#[trigger] entries[i]).0, (#[trigger] entries[j]).0)
}

/// The first place from `start` on whose key does not come before the given one.
pub open spec fn place_from<V>(entries: Seq<(Seq<char>, V)>, key: Seq<char>, start: nat) -> nat
    decreases entries.len() - start,
{
    if start >= entries.len() {
        entries.len()
    } else if precedes(entries[start as int].0, key) {
        place_from(entries, key, start + 1)
    } else {
        start
    }
}

/// The entries with a key set to a value: the key's entry is replaced, or a new one
/// stands where the order puts it.
pub open spec fn with_entry<V>(entries: Seq<(Seq<char>, V)>, key: Seq<char>, value: V) -> Seq<
    (Seq<char>, V),
> {
    let place = place_from(entries, key, 0);
    if place < entries.len() && entries[place as int].0 == key {
        entries.update(place as int, (key, value))
    } else {
        entries.insert(place as int, (key, value))
    }
}

/// The value of the first key that matches a name without regard to case.
pub open spec fn named<V>(entries: Seq<(Seq<char>, V)>, name: Seq<char>, start: nat) -> Option<V>
    decreases entries.len() - start,
{
    if start >= entries.len() {
        None
    } else if same_letters(entries[start as int].0, name) {
        Some(entries[start as int].1)
    } else {
        named(entries, name, start + 1)
    }
}

/// The value of a key.
pub open spec fn keyed<V>(entries: Seq<(Seq<char>, V)>, key: Seq<char>, start: nat) -> Option<V>
    decreases entries.len() - start,
{
    if start >= entries.len() {
        None
    } else if entries[start as int].0 == key {
        Some(entries[start as int].1)
    } else {
        keyed(entries, key, start + 1)
    }
}

impl<V> View for Dictionary<V> {
    type V = Seq<(Seq<char>, V)>;

    open spec fn view(&self) -> Seq<(Seq<char>, V)> {
        self.entries@.map_values(|e: Entry<V>| (e.key@, e.value))
    }
}

impl<V> Dictionary<V> {
    pub open spec fn wf(&self) -> bool {
        ordered(self@)
    }

    pub fn new() -> (r: Self)
        ensures
            r.wf(),
            r@ == Seq::<(Seq<char>, V)>::empty(),
    {
        let r = Dictionary { entries: Vec::new() };
        assert(r@ =~= Seq::<(Seq<char>, V)>::empty());
        r
    }

    /// Sets the value of a key.
    pub fn insert(&mut self, key: String, value: V)
        requires
            old(self).wf(),
        ensures
            final(self).wf(),
            final(self)@ == with_entry(old(self)@, key@, value),
    {
        let mut place: usize = 0;
        while place < self.entries.len() && is_before(self.entries[place].key.as_str(), key.as_str())
            invariant
                place <= self.entries@.len(),
                self.entries == old(self).entries,
                place_from(self@, key@, 0) == place_from(self@, key@, place as nat),
                forall|k: int| 0 <= k < place ==> precedes((#[trigger] self@[k]).0, key@),
            decreases self.entries@.len() - place,
        {
            assert(self@[place as int].0 == self.entries@[place as int].key@);
            place = place + 1;
        }
        let ghost before = self@;
        proof {
            assert(place < self.entries@.len() ==> self@[place as int].0
                == self.entries@[place as int].key@);
            lemma_order_kept(before, key@, value, place as nat);
        }
        if place < self.entries.len() && same_text(
            self.entries[place].key.as_str(),
            key.as_str(),
        ) {
            self.entries.set(place, Entry { key, value });
            assert(self@ =~= before.update(place as int, (key@, value)));
        } else {
            self.entries.insert(place, Entry { key, value });
            assert(self@ =~= before.insert(place as int, (key@, value)));
        }
    }

    /// The value of the first key that matches a name without regard to case.
    pub fn find(&self, name: &str) -> (r: Option<&V>)
        ensures
            match named(self@, name@, 0) {
                None => r is None,
                Some(value) => r is Some && *r->0 == value,
            },
    {
        let mut i: usize = 0;
        while i < self.entries.len()
            invariant
                i <= self.entries@.len(),
                named(self@, name@, 0) == named(self@, name@, i as nat),
            decreases self.entries@.len() - i,
        {
            assert(self@[i as int] == (self.entries@[i as int].key@, self.entries@[i as int].value));
            if equals_ignoring_case(self.entries[i].key.as_str(), name) {
                return Some(&self.entries[i].value);
            }
            i = i + 1;
        }
        None
    }

    /// The value of a key.
    pub fn get(&self, key: &str) -> (r: Option<&V>)
        ensures
            match keyed(self@, key@, 0) {
                None => r is None,
                Some(value) => r is Some && *r->0 == value,
            },
    {
        let mut i: usize = 0;
        while i < self.entries.len()
            invariant
                i <= self.entries@.len(),
                keyed(self@, key@, 0) == keyed(self@, key@, i as nat),
            decreases self.entries@.len() - i,
        {
            assert(self@[i as int] == (self.entries@[i as int].key@, self.entries@[i as int].value));
            if same_text(self.entries[i].key.as_str(), key) {
                return Some(&self.entries[i].value);
            }
            i = i + 1;
        }
        None
    }
}

proof fn lemma_order_kept<V>(entries: Seq<(Seq<char>, V)>, key: Seq<char>, value: V, place: nat)
    requires
        ordered(entries),
        place <= entries.len(),
        place_from(entries, key, 0) == place_from(entries, key, place),
        forall|k: int| 0 <= k < place ==> precedes((#[trigger] entries[k]).0, key),
        place < entries.len() ==> !precedes(entries[place as int].0, key),
    ensures
        place_from(entries, key, 0) == place,
        ordered(with_entry(entries, key, value)),
{
    let result = with_entry(entries, key, value);
    assert forall|i: int, j: int| 0 <= i < j < result.len() implies precedes(
        (#[trigger] result[i]).0,
        (#[trigger] result[j]).0,
    ) by {
        if place < entries.len() && entries[place as int].0 == key {
            assert(result[i].0 == entries[i].0);
            assert(result[j].0 == entries[j].0);
        } else {
            if place < entries.len() {
                lemma_precedes_total(entries[place as int].0, key);
            }
            let old_i = if i < place { i } else { i - 1 };
            let old_j = if j < place { j } else { j - 1 };
            if i != place {
                assert(result[i] == entries[old_i]);
            }
            if j != place {
                assert(result[j] == entries[old_j]);
            }
            if j == place {
                assert(precedes(entries[i].0, key));
            } else if i == place {
                if old_j > place {
                    lemma_precedes_transitive(key, entries[place as int].0, entries[old_j].0);
                }
            }
        }
    }
}

/// Setting a key and looking it up gives the value that was set.
pub proof fn law_set_then_get<V>(entries: Seq<(Seq<char>, V)>, key: Seq<char>, value: V)
    requires
        ordered(entries),
    ensures
        keyed(with_entry(entries, key, value), key, 0) == Some(value),
{
    lemma_place_bounds(entries, key, 0);
    let place = place_from(entries, key, 0);
    let result = with_entry(entries, key, value);
    assert forall|k: int| 0 <= k < place implies (#[trigger] result[k]).0 != key by {
        assert(result[k].0 == entries[k].0);
        lemma_precedes_irreflexive(key);
    }
    assert(result[place as int] == (key, value));
    lemma_keyed_at(result, key, 0, place);
}

proof fn lemma_place_bounds<V>(entries: Seq<(Seq<char>, V)>, key: Seq<char>, start: nat)
    requires
        start <= entries.len(),
    ensures
        start <= place_from(entries, key, start) <= entries.len(),
        forall|k: int|
            start <= k < place_from(entries, key, start) ==> precedes((#[trigger] entries[k]).0, key),
    decreases entries.len() - start,
{
    if start < entries.len() && precedes(entries[start as int].0, key) {
        lemma_place_bounds(entries, key, start + 1);
    }
}

proof fn lemma_keyed_at<V>(entries: Seq<(Seq<char>, V)>, key: Seq<char>, start: nat, place: nat)
    requires
        start <= place < entries.len(),
        entries[place as int].0 == key,
        forall|k: int| start <= k < place ==> (#[trigger] entries[k]).0 != key,
    ensures
        keyed(entries, key, start) == Some(entries[place as int].1),
    decreases place - start,
{
    if start < place {
        lemma_keyed_at(entries, key, start + 1, place);
    }
}

/// A look-up by name gives the value of the first entry whose name has the same letters;
/// it gives nothing exactly where no entry has.
pub proof fn law_names_find_their_first_entry<V>(
    entries: Seq<(Seq<char>, V)>,
    name: Seq<char>,
    start: nat,
)
    ensures
        match named(entries, name, start) {
            None => forall|i: int|
                start <= i < entries.len() ==> !same_letters((#[trigger] entries[i]).0, name),
            Some(value) => exists|place: int|
                {
                    &&& start <= place < entries.len()
                    &&& same_letters((#[trigger] entries[place]).0, name)
                    &&& entries[place].1 == value
                    &&& forall|i: int|
                        start <= i < place ==> !same_letters((#[trigger] entries[i]).0, name)
                },
        },
    decreases entries.len() - start,
{
    if start < entries.len() {
        if same_letters(entries[start as int].0, name) {
        } else {
            law_names_find_their_first_entry(entries, name, start + 1);
            match named(entries, name, start) {
                None => {
                    assert forall|i: int| start <= i < entries.len() implies !same_letters(
                        (#[trigger] entries[i]).0,
                        name,
                    ) by {
                        if i > start {
                            assert(start + 1 <= i);
                        }
                    }
                },
                Some(value) => {
                    let place = choose|place: int|
                        {
                            &&& start + 1 <= place < entries.len()
                            &&& same_letters((#[trigger] entries[place]).0, name)
                            &&& entries[place].1 == value
                            &&& forall|i: int|
                                start + 1 <= i < place ==> !same_letters(
                                    (#[trigger] entries[i]).0,
                                    name,
                                )
                        };
                    assert forall|i: int| start <= i < place implies !same_letters(
                        (#[trigger] entries[i]).0,
                        name,
                    ) by {
                        if i > start {
                            assert(start + 1 <= i);
                        }
                    }
                    assert(same_letters(entries[place].0, name));
                },
            }
        }
    }
}

/// A look-up by key gives the value of the first entry with that very key; it gives
/// nothing exactly where no entry has it.
pub proof fn law_keys_find_their_first_entry<V>(
    entries: Seq<(Seq<char>, V)>,
    key: Seq<char>,
    start: nat,
)
    ensures
        match keyed(entries, key, start) {
            None => forall|i: int| start <= i < entries.len() ==> (#[trigger] entries[i]).0 != key,
            Some(value) => exists|place: int|
                {
                    &&& start <= place < entries.len()
                    &&& (#[trigger] entries[place]) == (key, value)
                    &&& forall|i: int| start <= i < place ==> (#[trigger] entries[i]).0 != key
                },
        },
    decreases entries.len() - start,
{
    if start < entries.len() {
        if entries[start as int].0 == key {
            assert(entries[start as int] == (key, entries[start as int].1));
        } else {
            law_keys_find_their_first_entry(entries, key, start + 1);
            match keyed(entries, key, start) {
                None => {
                    assert forall|i: int| start <= i < entries.len() implies (
                    #[trigger] entries[i]).0 != key by {
                        if i > start {
                            assert(start + 1 <= i);
                        }
                    }
                },
                Some(value) => {
                    let place = choose|place: int|
                        {
                            &&& start + 1 <= place < entries.len()
                            &&& (#[trigger] entries[place]) == (key, value)
                            &&& forall|i: int|
                                start + 1 <= i < place ==> (#[trigger] entries[i]).0 != key
                        };
                    assert forall|i: int| start <= i < place implies (#[trigger] entries[i]).0
                        != key by {
                        if i > start {
                            assert(start + 1 <= i);
                        }
                    }
                    assert(entries[place] == (key, value));
                },
            }
        }
    }
}

} // verus!
