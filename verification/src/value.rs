//! The JSON value tree, its objects, and its text forms.
use vstd::prelude::*;
use crate::number::{is_zero_text, same_number, JsonNumber};
use vstd::std_specs::cmp::PartialEqSpecImpl;
use crate::roundtrip::{entries_wf, entry_wf, items_wf, model_wf, occurs_at};

verus! {

/// A JSON value: the tree that the parser builds.
#[derive(Debug)]
pub enum JsonValue {
    /// The literal `null`.
    Null,
    /// `true` or `false`.
    Boolean(bool),
    /// A number, held as its decimal text.
    Number(JsonNumber),
    /// A string.
    String(String),
    /// An ordered list of values.
    Array(Vec<JsonValue>),
    /// A collection of key/value pairs with distinct keys.
    Object(JsonObject),
}

/// The mathematical value of a [`JsonValue`]. An object is the sequence of
/// its entries, in the order in which their keys were first inserted.
pub enum ValueModel {
    Null,
    Boolean(bool),
    Number(Seq<char>),
    String(Seq<char>),
    Array(Seq<ValueModel>),
    Object(Seq<(Seq<char>, ValueModel)>),
}

/// The model of a value.
pub open spec fn value_model(v: JsonValue) -> ValueModel
    decreases v,
{
    match v {
        JsonValue::Null => ValueModel::Null,
        JsonValue::Boolean(b) => ValueModel::Boolean(b),
        JsonValue::Number(n) => ValueModel::Number(n@),
        JsonValue::String(s) => ValueModel::String(s@),
        JsonValue::Array(a) => ValueModel::Array(
            Seq::new(
                a@.len(),
                |i: int|
                    if 0 <= i < a@.len() {
                        value_model(a@[i])
                    } else {
                        ValueModel::Null
                    },
            ),
        ),
        JsonValue::Object(o) => ValueModel::Object(o.model()),
    }
}

impl View for JsonValue {
    type V = ValueModel;

    open spec fn view(&self) -> ValueModel {
        value_model(*self)
    }
}

/// The models of a sequence of values.
pub open spec fn values_model(vs: Seq<JsonValue>) -> Seq<ValueModel> {
    vs.map_values(|v: JsonValue| v@)
}

/// The index of the first occurrence of `k` in `keys`, or -1.
pub open spec fn first_index(keys: Seq<Seq<char>>, k: Seq<char>) -> int
    decreases keys.len(),
{
    if keys.len() == 0 {
        -1
    } else {
        let r = first_index(keys.drop_last(), k);
        if r >= 0 {
            r
        } else if keys.last() == k {
            keys.len() - 1
        } else {
            -1
        }
    }
}

/// No key occurs twice.
pub open spec fn distinct_keys(keys: Seq<Seq<char>>) -> bool {
    forall|i: int, j: int| 0 <= i < j < keys.len() ==> keys[i] != keys[j]
}

/// The keys of a sequence of entries.
pub open spec fn entry_keys(entries: Seq<(Seq<char>, ValueModel)>) -> Seq<Seq<char>> {
    entries.map_values(|e: (Seq<char>, ValueModel)| e.0)
}

/// Inserting an entry into a sequence of entries: a present key has its
/// value replaced in place, a new key is appended.
pub open spec fn entries_insert(
    entries: Seq<(Seq<char>, ValueModel)>,
    k: Seq<char>,
    v: ValueModel,
) -> Seq<(Seq<char>, ValueModel)> {
    let i = first_index(entry_keys(entries), k);
    if i >= 0 {
        entries.update(i, (k, v))
    } else {
        entries.push((k, v))
    }
}

/// The value stored under `k` in an object with these keys and values.
pub open spec fn lookup(keys: Seq<Seq<char>>, vals: Seq<JsonValue>, k: Seq<char>) -> Option<JsonValue> {
    let i = first_index(keys, k);
    if i >= 0 {
        Some(vals[i])
    } else {
        None
    }
}

/// Whether two values are equal as JSON values: numbers by the number they
/// stand for (`-0` equals `0`), arrays item by item, and objects as maps: of
/// the same size, with every key of the first stored in the second under an
/// equal value, whatever the order of the entries.
pub open spec fn value_equiv(a: ValueModel, b: ValueModel) -> bool
    decreases a, 0int,
{
    match a {
        ValueModel::Null => b is Null,
        ValueModel::Boolean(x) => b == ValueModel::Boolean(x),
        ValueModel::Number(n) => b matches ValueModel::Number(m) && same_number(n, m),
        ValueModel::String(s) => b == ValueModel::String(s),
        ValueModel::Array(xs) => b matches ValueModel::Array(ys) && xs.len() == ys.len()
            && items_equiv(xs, ys, xs.len() as int),
        ValueModel::Object(es) => b matches ValueModel::Object(fs) && es.len() == fs.len()
            && entries_found(es, fs, es.len() as int),
    }
}

/// The first `k` items of `xs` equal the items of `ys` at the same places.
pub open spec fn items_equiv(xs: Seq<ValueModel>, ys: Seq<ValueModel>, k: int) -> bool
    decreases xs, k,
{
    if k <= 0 || k > xs.len() {
        true
    } else {
        items_equiv(xs, ys, k - 1) && value_equiv(xs[k - 1], ys[k - 1])
    }
}

/// Each of the first `k` entries of `es` is found in `fs`.
pub open spec fn entries_found(
    es: Seq<(Seq<char>, ValueModel)>,
    fs: Seq<(Seq<char>, ValueModel)>,
    k: int,
) -> bool
    decreases es, k,
{
    if k <= 0 || k > es.len() {
        true
    } else {
        entries_found(es, fs, k - 1) && entry_found(es[k - 1], fs)
    }
}

/// The key of an entry is stored in `fs` under a value equal to the entry's.
pub open spec fn entry_found(e: (Seq<char>, ValueModel), fs: Seq<(Seq<char>, ValueModel)>) -> bool
    decreases e, 0int,
{
    let i = first_index(entry_keys(fs), e.0);
    0 <= i < fs.len() && value_equiv(e.1, fs[i].1)
}

proof fn lemma_items_equiv_prefix(xs: Seq<ValueModel>, ys: Seq<ValueModel>, k: int, n: int)
    requires
        0 <= k <= n <= xs.len(),
        items_equiv(xs, ys, n),
    ensures
        items_equiv(xs, ys, k),
    decreases n,
{
    if k < n {
        lemma_items_equiv_prefix(xs, ys, k, n - 1);
    }
}

proof fn lemma_entries_found_prefix(
    es: Seq<(Seq<char>, ValueModel)>,
    fs: Seq<(Seq<char>, ValueModel)>,
    k: int,
    n: int,
)
    requires
        0 <= k <= n <= es.len(),
        entries_found(es, fs, n),
    ensures
        entries_found(es, fs, k),
    decreases n,
{
    if k < n {
        lemma_entries_found_prefix(es, fs, k, n - 1);
    }
}

/// Two values that are neither arrays nor objects are equal exactly when
/// they are the same value, except that zero equals zero of either sign.
pub proof fn law_scalar_equality(a: ValueModel, b: ValueModel)
    requires
        !(a is Array),
        !(a is Object),
    ensures
        value_equiv(a, b) <==> (a == b || (a is Number && b is Number && is_zero_text(a->Number_0)
            && is_zero_text(b->Number_0))),
{
}

proof fn lemma_items_equiv_all(xs: Seq<ValueModel>, ys: Seq<ValueModel>, k: int)
    requires
        0 <= k <= xs.len(),
    ensures
        items_equiv(xs, ys, k) <==> forall|i: int| 0 <= i < k ==> value_equiv(#[trigger] xs[i], ys[i]),
    decreases k,
{
    if k > 0 {
        lemma_items_equiv_all(xs, ys, k - 1);
    }
}

/// Two arrays are equal exactly when they have the same length and their
/// items at each place are equal.
pub proof fn law_array_equality(xs: Seq<ValueModel>, ys: Seq<ValueModel>)
    ensures
        value_equiv(ValueModel::Array(xs), ValueModel::Array(ys)) <==> (xs.len() == ys.len()
            && forall|i: int| 0 <= i < xs.len() ==> value_equiv(#[trigger] xs[i], ys[i])),
{
    lemma_items_equiv_all(xs, ys, xs.len() as int);
}

proof fn lemma_entries_found_all(
    es: Seq<(Seq<char>, ValueModel)>,
    fs: Seq<(Seq<char>, ValueModel)>,
    k: int,
)
    requires
        0 <= k <= es.len(),
    ensures
        entries_found(es, fs, k) <==> forall|i: int| 0 <= i < k ==> entry_found(#[trigger] es[i], fs),
    decreases k,
{
    if k > 0 {
        lemma_entries_found_all(es, fs, k - 1);
    }
}

/// An entry is found in entries with distinct keys exactly when some entry
/// there has its key and an equal value.
proof fn lemma_entry_found(e: (Seq<char>, ValueModel), fs: Seq<(Seq<char>, ValueModel)>)
    requires
        distinct_keys(entry_keys(fs)),
    ensures
        entry_found(e, fs) <==> exists|j: int|
            0 <= j < fs.len() && #[trigger] fs[j].0 == e.0 && value_equiv(e.1, fs[j].1),
{
    let keys = entry_keys(fs);
    lemma_first_index(keys, e.0);
    let i = first_index(keys, e.0);
    if i >= 0 {
        assert(keys[i] == fs[i].0);
    }
    if exists|j: int| 0 <= j < fs.len() && #[trigger] fs[j].0 == e.0 && value_equiv(e.1, fs[j].1) {
        let j = choose|j: int| 0 <= j < fs.len() && #[trigger] fs[j].0 == e.0 && value_equiv(e.1, fs[j].1);
        assert(keys[j] == e.0);
        assert(keys.contains(e.0));
        if i != j {
            assert(keys[i] == keys[j]);
        }
    }
}

/// Two objects (whose keys are distinct, as they are in every object) are
/// equal exactly when they have the same number of entries and every key of
/// the first is stored in the second under an equal value, whatever the
/// order of the entries.
pub proof fn law_object_equality(es: Seq<(Seq<char>, ValueModel)>, fs: Seq<(Seq<char>, ValueModel)>)
    requires
        distinct_keys(entry_keys(fs)),
    ensures
        value_equiv(ValueModel::Object(es), ValueModel::Object(fs)) <==> (es.len() == fs.len()
            && forall|i: int|
            0 <= i < es.len() ==> exists|j: int|
                0 <= j < fs.len() && #[trigger] fs[j].0 == (#[trigger] es[i]).0 && value_equiv(
                    es[i].1,
                    fs[j].1,
                )),
{
    lemma_entries_found_all(es, fs, es.len() as int);
    assert forall|i: int| 0 <= i < es.len() implies entry_found(#[trigger] es[i], fs) <==> exists|j: int|
        0 <= j < fs.len() && #[trigger] fs[j].0 == es[i].0 && value_equiv(es[i].1, fs[j].1) by {
        lemma_entry_found(es[i], fs);
    }
}

/// The keys and values of an object after storing `v` under `k`: a present
/// key keeps its place and gets the new value, a new key is appended.
pub open spec fn object_insert(
    keys: Seq<Seq<char>>,
    vals: Seq<JsonValue>,
    k: Seq<char>,
    v: JsonValue,
) -> (Seq<Seq<char>>, Seq<JsonValue>) {
    let i = first_index(keys, k);
    if i >= 0 {
        (keys, vals.update(i, v))
    } else {
        (keys.push(k), vals.push(v))
    }
}

pub proof fn lemma_first_index(keys: Seq<Seq<char>>, k: Seq<char>)
    ensures
        -1 <= first_index(keys, k) < keys.len(),
        first_index(keys, k) >= 0 ==> keys[first_index(keys, k)] == k,
        first_index(keys, k) >= 0 ==> forall|j: int|
            0 <= j < first_index(keys, k) ==> keys[j] != k,
        first_index(keys, k) == -1 <==> !keys.contains(k),
    decreases keys.len(),
{
    if keys.len() > 0 {
        lemma_first_index(keys.drop_last(), k);
        let r = first_index(keys.drop_last(), k);
        if r == -1 && keys.last() != k {
            assert forall|j: int| 0 <= j < keys.len() implies keys[j] != k by {
                if j < keys.len() - 1 {
                    assert(keys.drop_last()[j] == keys[j]);
                    assert(!keys.drop_last().contains(k));
                }
            }
        }
        if r >= 0 {
            assert(keys.drop_last()[r] == keys[r]);
            assert(keys.contains(k));
            assert forall|j: int| 0 <= j < r implies keys[j] != k by {
                assert(keys.drop_last()[j] == keys[j]);
            }
        }
        if r == -1 && keys.last() == k {
            assert(keys.contains(k));
            assert forall|j: int| 0 <= j < keys.len() - 1 implies keys[j] != k by {
                assert(keys.drop_last()[j] == keys[j]);
                assert(!keys.drop_last().contains(k));
            }
        }
    } else {
        assert(!keys.contains(k));
    }
}

/// What a lookup reads after an insert: the inserted value under its key,
/// and under every other key what it read before. Keys stay distinct.
pub proof fn law_object_insert_lookup(
    keys: Seq<Seq<char>>,
    vals: Seq<JsonValue>,
    k: Seq<char>,
    v: JsonValue,
    other: Seq<char>,
)
    requires
        keys.len() == vals.len(),
        distinct_keys(keys),
    ensures
        ({
            let (keys2, vals2) = object_insert(keys, vals, k, v);
            &&& keys2.len() == vals2.len()
            &&& distinct_keys(keys2)
            &&& lookup(keys2, vals2, k) == Some(v)
            &&& other != k ==> lookup(keys2, vals2, other) == lookup(keys, vals, other)
        }),
{
    let (keys2, vals2) = object_insert(keys, vals, k, v);
    lemma_first_index(keys, k);
    lemma_first_index(keys, other);
    lemma_first_index(keys2, k);
    lemma_first_index(keys2, other);
    let i = first_index(keys, k);
    if i < 0 {
        assert(keys2 == keys.push(k));
        assert forall|a: int, b: int| 0 <= a < b < keys2.len() implies keys2[a] != keys2[b] by {
            if b == keys.len() {
                assert(keys.contains(keys[a]));
            }
        }
        if first_index(keys2, k) != keys.len() {
            assert(keys2[first_index(keys2, k)] == k);
            assert(keys.contains(k));
        }
        if other != k {
            if first_index(keys, other) >= 0 {
                let j = first_index(keys, other);
                assert(keys2[j] == other);
                if first_index(keys2, other) != j {
                    let j2 = first_index(keys2, other);
                    if j2 < j {
                        assert(keys[j2] == other);
                    }
                }
            } else {
                if first_index(keys2, other) >= 0 {
                    let j2 = first_index(keys2, other);
                    if j2 < keys.len() {
                        assert(keys[j2] == other);
                        assert(keys.contains(other));
                    }
                }
            }
        }
    } else {
        assert(keys2 == keys);
        if other != k && first_index(keys, other) >= 0 {
            assert(first_index(keys, other) != i);
        }
    }
}

/// A JSON object: entries with distinct keys, kept in the order in which their
/// keys were first inserted.
#[derive(Debug)]
pub struct JsonObject {
    keys: Vec<String>,
    values: Vec<JsonValue>,
}

impl JsonObject {
    #[verifier::type_invariant]
    spec fn inv(self) -> bool {
        &&& self.keys@.len() == self.values@.len()
        &&& distinct_keys(self.keys())
    }

    /// The keys, in order.
    pub closed spec fn keys(&self) -> Seq<Seq<char>> {
        Seq::new(self.keys@.len(), |i: int| self.keys@[i]@)
    }

    /// The values, in the order of their keys.
    pub closed spec fn vals(&self) -> Seq<JsonValue> {
        self.values@
    }

    /// The entries as a sequence of key/value models.
    pub closed spec fn model(&self) -> Seq<(Seq<char>, ValueModel)>
        decreases self,
    {
        Seq::new(
            self.keys@.len(),
            |i: int|
                (
                    self.keys@[i]@,
                    if 0 <= i < self.values@.len() {
                        value_model(self.values@[i])
                    } else {
                        ValueModel::Null
                    },
                ),
        )
    }

    /// Keys and values pair up one for one, and no key occurs twice.
    pub open spec fn wf(&self) -> bool {
        &&& self.keys().len() == self.vals().len()
        &&& distinct_keys(self.keys())
    }

    /// The model lists each key with the model of its value.
    pub proof fn lemma_model(&self)
        requires
            self.keys().len() == self.vals().len(),
        ensures
            self.model().len() == self.keys().len(),
            entry_keys(self.model()) == self.keys(),
            forall|i: int|
                0 <= i < self.keys().len() ==> #[trigger] self.model()[i] == (
                    self.keys()[i],
                    self.vals()[i]@,
                ),
    {
        assert(entry_keys(self.model()) =~= self.keys());
    }

    /// An empty object.
    pub fn new() -> (o: JsonObject)
        ensures
            o.wf(),
            o.keys() == Seq::<Seq<char>>::empty(),
            o.vals() == Seq::<JsonValue>::empty(),
            o.model() == Seq::<(Seq<char>, ValueModel)>::empty(),
    {
        let o = JsonObject { keys: Vec::new(), values: Vec::new() };
        assert(o.keys() =~= Seq::<Seq<char>>::empty());
        assert(o.model() =~= Seq::<(Seq<char>, ValueModel)>::empty());
        o
    }

    /// The number of entries.
    pub fn len(&self) -> (n: usize)
        ensures
            n == self.keys().len(),
    {
        self.keys.len()
    }

    /// Whether the object has no entry.
    pub fn is_empty(&self) -> (b: bool)
        ensures
            b == (self.keys().len() == 0),
    {
        self.keys.len() == 0
    }

    /// The key of the `i`-th entry.
    pub fn key_at(&self, i: usize) -> (k: &String)
        requires
            i < self.keys().len(),
        ensures
            k@ == self.keys()[i as int],
    {
        &self.keys[i]
    }

    /// The value of the `i`-th entry.
    pub fn value_at(&self, i: usize) -> (v: &JsonValue)
        requires
            i < self.keys().len(),
        ensures
            *v == self.vals()[i as int],
    {
        proof {
            use_type_invariant(self);
        }
        &self.values[i]
    }

    /// The position of `key` among the keys, if it is present.
    fn find(&self, key: &String) -> (r: Option<usize>)
        ensures
            match r {
                Some(i) => i as int == first_index(self.keys(), key@),
                None => first_index(self.keys(), key@) == -1,
            },
    {
        let mut i: usize = 0;
        proof {
            lemma_first_index(self.keys(), key@);
        }
        while i < self.keys.len()
            invariant
                i <= self.keys@.len(),
                forall|j: int| 0 <= j < i ==> self.keys()[j] != key@,
            decreases self.keys@.len() - i,
        {
            if self.keys[i] == *key {
                proof {
                    lemma_first_index(self.keys(), key@);
                    if first_index(self.keys(), key@) != i {
                        assert(self.keys()[i as int] == key@);
                    }
                }
                return Some(i);
            }
            i = i + 1;
        }
        proof {
            if first_index(self.keys(), key@) >= 0 {
                assert(self.keys()[first_index(self.keys(), key@)] == key@);
            }
        }
        None
    }

    /// The value stored under `key`, if any.
    pub fn get(&self, key: &str) -> (r: Option<&JsonValue>)
        ensures
            match r {
                Some(v) => lookup(self.keys(), self.vals(), key@) == Some(*v),
                None => lookup(self.keys(), self.vals(), key@) is None,
            },
    {
        proof {
            use_type_invariant(self);
            lemma_first_index(self.keys(), key@);
        }
        let k = key.to_owned();
        match self.find(&k) {
            Some(i) => Some(&self.values[i]),
            None => None,
        }
    }

    /// Whether `key` is present.
    pub fn contains_key(&self, key: &str) -> (b: bool)
        ensures
            b == self.keys().contains(key@),
    {
        proof {
            lemma_first_index(self.keys(), key@);
        }
        let k = key.to_owned();
        self.find(&k).is_some()
    }

    /// Stores `value` under `key`. A present key keeps its place and has its
    /// value replaced (the old value is returned); a new key is appended.
    pub fn insert(&mut self, key: String, value: JsonValue) -> (r: Option<JsonValue>)
        ensures
            final(self).wf(),
            (final(self).keys(), final(self).vals()) == object_insert(
                old(self).keys(),
                old(self).vals(),
                key@,
                value,
            ),
            r == lookup(old(self).keys(), old(self).vals(), key@),
            final(self).model() == entries_insert(old(self).model(), key@, value@),
    {
        proof {
            use_type_invariant(&*self);
            lemma_first_index(self.keys(), key@);
            self.lemma_model();
        }
        let ghost old_model = self.model();
        let ghost old_keys = self.keys();
        let ghost old_vals = self.vals();
        let found = self.find(&key);
        let mut tmp = JsonObject::new();
        std::mem::swap(self, &mut tmp);
        proof {
            use_type_invariant(&tmp);
        }
        let JsonObject { keys: mut keys, values: mut values } = tmp;
        assert(keys@.len() == values@.len());
        match found {
            Some(i) => {
                let mut value = value;
                std::mem::swap(&mut values[i], &mut value);
                let o = JsonObject { keys, values };
                proof {
                    assert(o.keys() =~= old_keys);
                    assert(o.vals() =~= old_vals.update(i as int, o.vals()[i as int]));
                    o.lemma_model();
                    assert(o.model() =~= entries_insert(old_model, key@, o.vals()[i as int]@));
                }
                *self = o;
                Some(value)
            },
            None => {
                let ghost k = key@;
                keys.push(key);
                values.push(value);
                proof {
                    let o = JsonObject { keys, values };
                    assert(o.keys() =~= old_keys.push(k));
                    assert(distinct_keys(o.keys())) by {
                        assert forall|a: int, b: int| 0 <= a < b < o.keys().len() implies o.keys()[a]
                            != o.keys()[b] by {
                            if b == o.keys().len() - 1 {
                                assert(old_keys[a] == o.keys()[a]);
                                assert(old_keys.contains(old_keys[a]));
                            } else {
                                assert(old_keys[a] == o.keys()[a]);
                                assert(old_keys[b] == o.keys()[b]);
                            }
                        }
                    }
                    o.lemma_model();
                    assert(o.model() =~= entries_insert(old_model, key@, value@));
                }
                *self = JsonObject { keys, values };
                None
            },
        }
    }
}

/// The escaped form of one character inside a JSON string: the quote, the
/// backslash and five control characters take a backslash escape, every other
/// character stands for itself.
pub open spec fn escape_char(c: char) -> Seq<char> {
    if c == '"' {
        seq!['\\', '"']
    } else if c == '\\' {
        seq!['\\', '\\']
    } else if c == '\x08' {
        seq!['\\', 'b']
    } else if c == '\x0C' {
        seq!['\\', 'f']
    } else if c == '\n' {
        seq!['\\', 'n']
    } else if c == '\r' {
        seq!['\\', 'r']
    } else if c == '\t' {
        seq!['\\', 't']
    } else {
        seq![c]
    }
}

/// The escaped form of a text: each character escaped in turn.
pub open spec fn escape_text(s: Seq<char>) -> Seq<char>
    decreases s.len(),
{
    if s.len() == 0 {
        seq![]
    } else {
        escape_text(s.drop_last()) + escape_char(s.last())
    }
}

/// A text as a JSON string literal: escaped and between quotes.
pub open spec fn quoted(s: Seq<char>) -> Seq<char> {
    seq!['"'] + escape_text(s) + seq!['"']
}

pub open spec fn null_text() -> Seq<char> {
    seq!['n', 'u', 'l', 'l']
}

pub open spec fn bool_text(b: bool) -> Seq<char> {
    if b {
        seq!['t', 'r', 'u', 'e']
    } else {
        seq!['f', 'a', 'l', 's', 'e']
    }
}

/// The compact text of a value: arrays as `[a,b]`, objects as
/// `{"k": v, "l": w}`, strings quoted and escaped, numbers as their text.
pub open spec fn render(v: ValueModel) -> Seq<char>
    decreases v, 0int,
{
    match v {
        ValueModel::Null => null_text(),
        ValueModel::Boolean(b) => bool_text(b),
        ValueModel::Number(n) => n,
        ValueModel::String(s) => quoted(s),
        ValueModel::Array(items) => seq!['['] + render_items(items, items.len() as int) + seq![
            ']',
        ],
        ValueModel::Object(entries) => seq!['{'] + render_entries(entries, entries.len() as int)
            + seq!['}'],
    }
}

/// The first `k` items, rendered and separated by `,`.
pub open spec fn render_items(items: Seq<ValueModel>, k: int) -> Seq<char>
    decreases items, k,
{
    if k <= 0 || k > items.len() {
        seq![]
    } else {
        render_items(items, k - 1) + (if k > 1 {
            seq![',']
        } else {
            seq![]
        }) + render(items[k - 1])
    }
}

/// One entry in compact form: the quoted key, `: `, and the value.
pub open spec fn render_entry(e: (Seq<char>, ValueModel)) -> Seq<char>
    decreases e, 0int,
{
    quoted(e.0) + seq![':', ' '] + render(e.1)
}

/// The first `k` entries, rendered and separated by `, `.
pub open spec fn render_entries(entries: Seq<(Seq<char>, ValueModel)>, k: int) -> Seq<char>
    decreases entries, k,
{
    if k <= 0 || k > entries.len() {
        seq![]
    } else {
        render_entries(entries, k - 1) + (if k > 1 {
            seq![',', ' ']
        } else {
            seq![]
        }) + render_entry(entries[k - 1])
    }
}

/// `n` spaces.
pub open spec fn spaces(n: int) -> Seq<char> {
    Seq::new(n as nat, |i: int| ' ')
}

/// The indented text of a value at nesting `depth`: each item or entry on a
/// line of its own, indented by `(depth + 1) * indent` spaces, and the closing
/// bracket indented by `depth * indent` spaces. Object keys are written
/// between quotes as they are, without escaping.
pub open spec fn pretty(v: ValueModel, depth: int, indent: int) -> Seq<char>
    decreases v, 0int,
{
    match v {
        ValueModel::Null => null_text(),
        ValueModel::Boolean(b) => bool_text(b),
        ValueModel::Number(n) => n,
        ValueModel::String(s) => quoted(s),
        ValueModel::Array(items) => seq!['[', '\n'] + pretty_items(
            items,
            items.len() as int,
            depth,
            indent,
        ) + spaces(depth * indent) + seq![']'],
        ValueModel::Object(entries) => seq!['{', '\n'] + pretty_entries(
            entries,
            entries.len() as int,
            depth,
            indent,
        ) + spaces(depth * indent) + seq!['}'],
    }
}

/// A value that is neither an array nor an object has, at every depth and
/// indent, the same indented text as its compact text: it gets no
/// indentation and no line break.
pub proof fn law_pretty_scalar_is_compact(v: ValueModel, depth: int, indent: int)
    requires
        !(v is Array),
        !(v is Object),
    ensures
        pretty(v, depth, indent) == render(v),
{
}

/// The lines of the first `k` items of an array at nesting `depth`.
pub open spec fn pretty_items(items: Seq<ValueModel>, k: int, depth: int, indent: int) -> Seq<char>
    decreases items, k,
{
    if k <= 0 || k > items.len() {
        seq![]
    } else {
        pretty_items(items, k - 1, depth, indent) + spaces((depth + 1) * indent) + pretty(
            items[k - 1],
            depth + 1,
            indent,
        ) + (if k < items.len() {
            seq![',']
        } else {
            seq![]
        }) + seq!['\n']
    }
}

/// The line of one entry of an object at nesting `depth`, without its comma
/// and newline.
pub open spec fn pretty_entry(e: (Seq<char>, ValueModel), depth: int, indent: int) -> Seq<char>
    decreases e, 0int,
{
    spaces((depth + 1) * indent) + seq!['"'] + e.0 + seq!['"', ':', ' '] + pretty(
        e.1,
        depth + 1,
        indent,
    )
}

/// The lines of the first `k` entries of an object at nesting `depth`.
pub open spec fn pretty_entries(
    entries: Seq<(Seq<char>, ValueModel)>,
    k: int,
    depth: int,
    indent: int,
) -> Seq<char>
    decreases entries, k,
{
    if k <= 0 || k > entries.len() {
        seq![]
    } else {
        pretty_entries(entries, k - 1, depth, indent) + pretty_entry(entries[k - 1], depth, indent)
            + (if k < entries.len() {
            seq![',']
        } else {
            seq![]
        }) + seq!['\n']
    }
}

proof fn lemma_pretty_items_prefix(items: Seq<ValueModel>, k: int, m: int, depth: int, indent: int)
    requires
        0 <= k <= m <= items.len(),
    ensures
        pretty_items(items, k, depth, indent).len() <= pretty_items(items, m, depth, indent).len(),
        pretty_items(items, m, depth, indent).subrange(
            0,
            pretty_items(items, k, depth, indent).len() as int,
        ) == pretty_items(items, k, depth, indent),
    decreases m,
{
    if k < m {
        lemma_pretty_items_prefix(items, k, m - 1, depth, indent);
        let a = pretty_items(items, k, depth, indent);
        let b = pretty_items(items, m - 1, depth, indent);
        let c = pretty_items(items, m, depth, indent);
        assert(c.subrange(0, b.len() as int) =~= b);
        assert(c.subrange(0, a.len() as int) =~= b.subrange(0, a.len() as int));
    } else {
        let c = pretty_items(items, m, depth, indent);
        assert(c.subrange(0, c.len() as int) =~= c);
    }
}

proof fn lemma_pretty_entries_prefix(
    entries: Seq<(Seq<char>, ValueModel)>,
    k: int,
    m: int,
    depth: int,
    indent: int,
)
    requires
        0 <= k <= m <= entries.len(),
    ensures
        pretty_entries(entries, k, depth, indent).len() <= pretty_entries(
            entries,
            m,
            depth,
            indent,
        ).len(),
        pretty_entries(entries, m, depth, indent).subrange(
            0,
            pretty_entries(entries, k, depth, indent).len() as int,
        ) == pretty_entries(entries, k, depth, indent),
    decreases m,
{
    if k < m {
        lemma_pretty_entries_prefix(entries, k, m - 1, depth, indent);
        let a = pretty_entries(entries, k, depth, indent);
        let b = pretty_entries(entries, m - 1, depth, indent);
        let c = pretty_entries(entries, m, depth, indent);
        assert(c.subrange(0, b.len() as int) =~= b);
        assert(c.subrange(0, a.len() as int) =~= b.subrange(0, a.len() as int));
    } else {
        let c = pretty_entries(entries, m, depth, indent);
        assert(c.subrange(0, c.len() as int) =~= c);
    }
}

/// In the indented text of an array at nesting `depth`, every item stands
/// on a line of its own, after `(depth + 1) * indent` spaces, written as
/// the indented text of the item one level deeper.
pub proof fn law_pretty_item_line(items: Seq<ValueModel>, j: int, depth: int, indent: int)
    requires
        0 <= j < items.len(),
        0 <= depth,
        0 <= indent,
    ensures
        exists|p: int|
            #[trigger] occurs_at(
                pretty(ValueModel::Array(items), depth, indent),
                p,
                seq!['\n'] + spaces((depth + 1) * indent) + pretty(items[j], depth + 1, indent),
            ),
{
    let s = pretty(ValueModel::Array(items), depth, indent);
    let n = items.len() as int;
    let before = pretty_items(items, j, depth, indent);
    let upto = pretty_items(items, j + 1, depth, indent);
    let all = pretty_items(items, n, depth, indent);
    let w = seq!['\n'] + spaces((depth + 1) * indent) + pretty(items[j], depth + 1, indent);
    lemma_pretty_items_prefix(items, j + 1, n, depth, indent);
    let p: int = (1 + before.len()) as int;
    // the newline before the item: the one of `[\n` or the last of the items before
    let head = seq!['[', '\n'] + before;
    assert(head[p] == '\n') by {
        if j > 0 {
            assert(before[before.len() - 1] == '\n');
        }
    }
    assert(upto.subrange(before.len() as int, before.len() + w.len() - 1) =~= w.drop_first());
    assert(s.subrange(0, 2 + upto.len() as int) =~= seq!['[', '\n'] + upto);
    assert(s.subrange(p, p + w.len() as int) =~= w) by {
        assert forall|x: int| 0 <= x < w.len() implies #[trigger] s.subrange(p, p + w.len() as int)[x]
            == w[x] by {
            assert(s[p + x] == (seq!['[', '\n'] + upto)[p + x]);
            if x > 0 {
                assert(upto[before.len() + x - 1] == w[x]);
            }
        }
    }
    assert(occurs_at(s, p, w));
}

/// A key as the indented text writes it before the value: between quotes,
/// followed by `: `.
pub open spec fn key_text(k: Seq<char>) -> Seq<char> {
    seq!['"'] + k + seq!['"', ':', ' ']
}

/// In the indented text of an object at nesting `depth`, every entry stands
/// on a line of its own, after `(depth + 1) * indent` spaces: the quoted
/// key, `: `, and the indented text of the value one level deeper.
pub proof fn law_pretty_entry_line(
    entries: Seq<(Seq<char>, ValueModel)>,
    j: int,
    depth: int,
    indent: int,
)
    requires
        0 <= j < entries.len(),
        0 <= depth,
        0 <= indent,
    ensures
        exists|p: int|
            #[trigger] occurs_at(
                pretty(ValueModel::Object(entries), depth, indent),
                p,
                seq!['\n'] + spaces((depth + 1) * indent) + key_text(entries[j].0) + pretty(
                    entries[j].1,
                    depth + 1,
                    indent,
                ),
            ),
{
    let s = pretty(ValueModel::Object(entries), depth, indent);
    let n = entries.len() as int;
    let before = pretty_entries(entries, j, depth, indent);
    let upto = pretty_entries(entries, j + 1, depth, indent);
    let w = seq!['\n'] + spaces((depth + 1) * indent) + key_text(entries[j].0) + pretty(
        entries[j].1,
        depth + 1,
        indent,
    );
    lemma_pretty_entries_prefix(entries, j + 1, n, depth, indent);
    let p: int = (1 + before.len()) as int;
    let head = seq!['{', '\n'] + before;
    assert(head[p] == '\n') by {
        if j > 0 {
            assert(before[before.len() - 1] == '\n');
        }
    }
    assert(pretty_entry(entries[j], depth, indent) =~= w.drop_first());
    assert(upto.subrange(before.len() as int, before.len() + w.len() - 1) =~= w.drop_first());
    assert(s.subrange(0, 2 + upto.len() as int) =~= seq!['{', '\n'] + upto);
    assert(s.subrange(p, p + w.len() as int) =~= w) by {
        assert forall|x: int| 0 <= x < w.len() implies #[trigger] s.subrange(p, p + w.len() as int)[x]
            == w[x] by {
            assert(s[p + x] == (seq!['{', '\n'] + upto)[p + x]);
            if x > 0 {
                assert(upto[before.len() + x - 1] == w[x]);
            }
        }
    }
    assert(occurs_at(s, p, w));
}

/// The indented text of an array or an object at nesting `depth` ends with
/// its closing bracket or brace on a line of its own, after
/// `depth * indent` spaces.
pub proof fn law_pretty_closing_line(v: ValueModel, depth: int, indent: int)
    requires
        v is Array || v is Object,
        0 <= depth,
        0 <= indent,
    ensures
        ({
            let s = pretty(v, depth, indent);
            let last = seq!['\n'] + spaces(depth * indent) + seq![
                if v is Array {
                    ']'
                } else {
                    '}'
                },
            ];
            &&& s.len() >= last.len()
            &&& s.subrange(s.len() - last.len(), s.len() as int) == last
        }),
{
    let s = pretty(v, depth, indent);
    let sp = spaces(depth * indent);
    let (open, body) = match v {
        ValueModel::Array(items) => (
            '[',
            pretty_items(items, items.len() as int, depth, indent),
        ),
        ValueModel::Object(entries) => (
            '{',
            pretty_entries(entries, entries.len() as int, depth, indent),
        ),
        _ => ('[', seq![]),
    };
    let close = if v is Array {
        ']'
    } else {
        '}'
    };
    let last = seq!['\n'] + sp + seq![close];
    assert(s =~= seq![open, '\n'] + body + sp + seq![close]);
    let head = seq![open, '\n'] + body;
    assert(head[head.len() - 1] == '\n') by {
        if body.len() > 0 {
            assert(head[head.len() - 1] == body[body.len() - 1]);
        }
    }
    assert(s.subrange(s.len() - last.len(), s.len() as int) =~= last) by {
        assert forall|x: int| 0 <= x < last.len() implies #[trigger] s.subrange(
            s.len() - last.len(),
            s.len() as int,
        )[x] == last[x] by {
            if x == 0 {
                assert(s[head.len() - 1] == head[head.len() - 1]);
            }
        }
    }
}

/// How deeply containers nest inside a value: 0 for a scalar or an empty
/// container, else one more than the deepest item.
pub open spec fn nesting(v: ValueModel) -> nat
    decreases v, 0int,
{
    match v {
        ValueModel::Array(items) => items_nesting(items, items.len() as int),
        ValueModel::Object(entries) => entries_nesting(entries, entries.len() as int),
        _ => 0,
    }
}

/// The nesting of an array whose first `k` items are given.
pub open spec fn items_nesting(items: Seq<ValueModel>, k: int) -> nat
    decreases items, k,
{
    if k <= 0 || k > items.len() {
        0
    } else {
        let a = items_nesting(items, k - 1);
        let b = nesting(items[k - 1]) + 1;
        if a >= b {
            a
        } else {
            b
        }
    }
}

/// The nesting of an object whose first `k` entries are given.
pub open spec fn entries_nesting(entries: Seq<(Seq<char>, ValueModel)>, k: int) -> nat
    decreases entries, k,
{
    if k <= 0 || k > entries.len() {
        0
    } else {
        let a = entries_nesting(entries, k - 1);
        let b = entry_nesting(entries[k - 1]) + 1;
        if a >= b {
            a
        } else {
            b
        }
    }
}

pub open spec fn entry_nesting(e: (Seq<char>, ValueModel)) -> nat
    decreases e, 0int,
{
    nesting(e.1)
}

pub proof fn lemma_items_nesting(items: Seq<ValueModel>, k: int, j: int)
    requires
        0 <= j < k <= items.len(),
    ensures
        nesting(items[j]) + 1 <= items_nesting(items, k),
    decreases k,
{
    if j < k - 1 {
        lemma_items_nesting(items, k - 1, j);
    }
}

pub proof fn lemma_entries_nesting(entries: Seq<(Seq<char>, ValueModel)>, k: int, j: int)
    requires
        0 <= j < k <= entries.len(),
    ensures
        nesting(entries[j].1) + 1 <= entries_nesting(entries, k),
    decreases k,
{
    assert(entry_nesting(entries[k - 1]) == nesting(entries[k - 1].1));
    if j < k - 1 {
        lemma_entries_nesting(entries, k - 1, j);
    }
}

/// The model of an array lists the models of its items.
pub proof fn lemma_array_model(a: Vec<JsonValue>)
    ensures
        JsonValue::Array(a)@ == ValueModel::Array(values_model(a@)),
{
    assert(JsonValue::Array(a)@->Array_0 =~= values_model(a@));
}

impl JsonValue {
    /// Whether the value is `null`.
    pub fn is_null(&self) -> (b: bool)
        ensures
            b == (self@ is Null),
    {
        match self {
            JsonValue::Null => true,
            _ => false,
        }
    }

    /// The text of a string value.
    pub fn as_str(&self) -> (r: Option<&str>)
        ensures
            match self@ {
                ValueModel::String(s) => r matches Some(t) && t@ == s,
                _ => r is None,
            },
    {
        match self {
            JsonValue::String(s) => Some(s.as_str()),
            _ => None,
        }
    }

    /// The number of a number value (standing for the float of the number).
    pub fn as_number(&self) -> (r: Option<&JsonNumber>)
        ensures
            match self {
                JsonValue::Number(n) => r == Some(n),
                _ => r is None,
            },
    {
        match self {
            JsonValue::Number(n) => Some(n),
            _ => None,
        }
    }

    /// The truth value of a boolean value.
    pub fn as_bool(&self) -> (r: Option<bool>)
        ensures
            match self@ {
                ValueModel::Boolean(b) => r == Some(b),
                _ => r is None,
            },
    {
        match self {
            JsonValue::Boolean(b) => Some(*b),
            _ => None,
        }
    }

    /// The items of an array value.
    pub fn as_array(&self) -> (r: Option<&Vec<JsonValue>>)
        ensures
            match self {
                JsonValue::Array(a) => r == Some(a),
                _ => r is None,
            },
    {
        match self {
            JsonValue::Array(a) => Some(a),
            _ => None,
        }
    }

    /// The object of an object value.
    pub fn as_object(&self) -> (r: Option<&JsonObject>)
        ensures
            match self {
                JsonValue::Object(o) => r == Some(o),
                _ => r is None,
            },
    {
        match self {
            JsonValue::Object(o) => Some(o),
            _ => None,
        }
    }

    /// The value stored under `key` in an object value.
    pub fn get(&self, key: &str) -> (r: Option<&JsonValue>)
        ensures
            match self {
                JsonValue::Object(o) => match r {
                    Some(v) => lookup(o.keys(), o.vals(), key@) == Some(*v),
                    None => lookup(o.keys(), o.vals(), key@) is None,
                },
                _ => r is None,
            },
    {
        match self {
            JsonValue::Object(o) => o.get(key),
            _ => None,
        }
    }

    /// The `index`-th item of an array value.
    pub fn get_index(&self, index: usize) -> (r: Option<&JsonValue>)
        ensures
            match self {
                JsonValue::Array(a) => if index < a@.len() {
                    r == Some(&a@[index as int])
                } else {
                    r is None
                },
                _ => r is None,
            },
    {
        match self {
            JsonValue::Array(a) => if index < a.len() {
                Some(&a[index])
            } else {
                None
            },
            _ => None,
        }
    }

    /// A string as a JSON string literal: between quotes, with `"`, `\` and
    /// the controls backspace, form feed, newline, carriage return and tab
    /// escaped.
    pub fn escape_string(s: &str) -> (r: String)
        ensures
            r@ == quoted(s@),
    {
        let chars = crate::number::chars_of(s);
        let mut escaped = String::new();
        escaped.push('"');
        let mut i: usize = 0;
        while i < chars.len()
            invariant
                i <= chars@.len(),
                chars@ == s@,
                escaped@ == seq!['"'] + escape_text(chars@.take(i as int)),
            decreases chars@.len() - i,
        {
            let c = chars[i];
            if c == '"' {
                escaped.push('\\');
                escaped.push('"');
            } else if c == '\\' {
                escaped.push('\\');
                escaped.push('\\');
            } else if c == '\x08' {
                escaped.push('\\');
                escaped.push('b');
            } else if c == '\x0C' {
                escaped.push('\\');
                escaped.push('f');
            } else if c == '\n' {
                escaped.push('\\');
                escaped.push('n');
            } else if c == '\r' {
                escaped.push('\\');
                escaped.push('r');
            } else if c == '\t' {
                escaped.push('\\');
                escaped.push('t');
            } else {
                escaped.push(c);
            }
            proof {
                assert(chars@.take(i + 1).drop_last() =~= chars@.take(i as int));
                assert(escaped@ =~= seq!['"'] + escape_text(chars@.take(i + 1)));
            }
            i = i + 1;
        }
        escaped.push('"');
        proof {
            assert(chars@.take(i as int) =~= s@);
            assert(escaped@ =~= quoted(s@));
        }
        escaped
    }

    /// The value as indented JSON text: every item and entry on a line of its
    /// own, `indent` spaces per level of nesting.
    pub fn pretty_print(&self, indent: usize) -> (r: String)
        requires
            nesting(self@) + 1 <= usize::MAX,
            (nesting(self@) + 1) * indent <= usize::MAX,
        ensures
            r@ == pretty(self@, 0, indent as int),
    {
        self.pretty_print_recursive(0, indent)
    }

    fn pretty_print_recursive(&self, depth: usize, indent: usize) -> (r: String)
        requires
            depth + nesting(self@) + 1 <= usize::MAX,
            (depth + nesting(self@) + 1) * indent <= usize::MAX,
        ensures
            r@ == pretty(self@, depth as int, indent as int),
        decreases self,
    {
        proof {
            let n = nesting(self@);
            assert((depth + 1) * indent <= (depth + n + 1) * indent) by (nonlinear_arith)
                requires
                    n >= 0,
            ;
            assert(depth * indent <= (depth + 1) * indent) by (nonlinear_arith);
        }
        let current_indent = spaces_string(depth * indent);
        let next_indent = spaces_string((depth + 1) * indent);
        match self {
            JsonValue::String(s) => JsonValue::escape_string(s.as_str()),
            JsonValue::Array(arr) => {
                let ghost items = values_model(arr@);
                proof {
                    lemma_array_model(*arr);
                }
                let mut print_string = String::new();
                print_string.push('[');
                print_string.push('\n');
                let mut i: usize = 0;
                while i < arr.len()
                    invariant
                        i <= arr@.len(),
                        items == values_model(arr@),
                        *self == JsonValue::Array(*arr),
                        self@ == ValueModel::Array(items),
                        depth + nesting(self@) + 1 <= usize::MAX,
                        (depth + nesting(self@) + 1) * indent <= usize::MAX,
                        next_indent@ == spaces((depth + 1) * indent),
                        print_string@ == seq!['[', '\n'] + pretty_items(
                            items,
                            i as int,
                            depth as int,
                            indent as int,
                        ),
                    decreases arr@.len() - i,
                {
                    print_string.push_str(next_indent.as_str());
                    proof {
                        assert((*self)->Array_0 == *arr);
                        assert(decreases_to!(*self => (*self)->Array_0));
                        assert(decreases_to!(*arr => arr@));
                        assert(decreases_to!(arr@ => arr@[i as int]));
                        lemma_items_nesting(items, items.len() as int, i as int);
                        let m = nesting(items[i as int]);
                        let n = nesting(self@);
                        assert((depth + 1 + m + 1) * indent <= (depth + n + 1) * indent)
                            by (nonlinear_arith)
                            requires
                                m + 1 <= n,
                        ;
                    }
                    let item = arr[i].pretty_print_recursive(depth + 1, indent);
                    print_string.push_str(item.as_str());
                    if i < arr.len() - 1 {
                        print_string.push(',');
                    }
                    print_string.push('\n');
                    proof {
                        assert(print_string@ =~= seq!['[', '\n'] + pretty_items(
                            items,
                            i + 1,
                            depth as int,
                            indent as int,
                        ));
                    }
                    i = i + 1;
                }
                print_string.push_str(current_indent.as_str());
                print_string.push(']');
                proof {
                    assert(print_string@ =~= pretty(self@, depth as int, indent as int));
                }
                print_string
            },
            JsonValue::Object(obj) => {
                let ghost entries = obj.model();
                proof {
                    use_type_invariant(obj);
                    obj.lemma_model();
                }
                let mut print_string = String::new();
                print_string.push('{');
                print_string.push('\n');
                let mut i: usize = 0;
                while i < obj.keys.len()
                    invariant
                        i <= obj.keys@.len(),
                        obj.keys@.len() == obj.values@.len(),
                        entries == obj.model(),
                        entries.len() == obj.keys@.len(),
                        forall|j: int|
                            0 <= j < obj.keys().len() ==> #[trigger] entries[j] == (
                                obj.keys()[j],
                                obj.vals()[j]@,
                            ),
                        *self == JsonValue::Object(*obj),
                        self@ == ValueModel::Object(entries),
                        depth + nesting(self@) + 1 <= usize::MAX,
                        (depth + nesting(self@) + 1) * indent <= usize::MAX,
                        next_indent@ == spaces((depth + 1) * indent),
                        print_string@ == seq!['{', '\n'] + pretty_entries(
                            entries,
                            i as int,
                            depth as int,
                            indent as int,
                        ),
                    decreases obj.keys@.len() - i,
                {
                    print_string.push_str(next_indent.as_str());
                    print_string.push('"');
                    print_string.push_str(obj.keys[i].as_str());
                    print_string.push_str("\": ");
                    proof {
                        assert((*self)->Object_0 == *obj);
                        assert(decreases_to!(*self => (*self)->Object_0));
                        assert(decreases_to!(*obj => obj.values));
                        assert(decreases_to!(obj.values => obj.values@));
                        assert(decreases_to!(obj.values@ => obj.values@[i as int]));
                        lemma_entries_nesting(entries, entries.len() as int, i as int);
                        assert(entries[i as int] == (obj.keys()[i as int], obj.vals()[i as int]@));
                        let m = nesting(entries[i as int].1);
                        let n = nesting(self@);
                        assert((depth + 1 + m + 1) * indent <= (depth + n + 1) * indent)
                            by (nonlinear_arith)
                            requires
                                m + 1 <= n,
                        ;
                    }
                    let item = obj.values[i].pretty_print_recursive(depth + 1, indent);
                    print_string.push_str(item.as_str());
                    if i < obj.keys.len() - 1 {
                        print_string.push(',');
                    }
                    print_string.push('\n');
                    proof {
                        reveal_strlit("\": ");
                        assert("\": "@ =~= seq!['"', ':', ' ']);
                        assert(obj.keys()[i as int] == obj.keys@[i as int]@);
                        let e = entries[i as int];
                        assert(pretty_entry(e, depth as int, indent as int) == spaces((depth + 1) * indent) + seq!['"'] + e.0 + seq!['"', ':', ' '] + pretty(e.1, depth + 1, indent as int));
                        assert(item@ == pretty(e.1, depth + 1, indent as int));
                        assert(print_string@ =~= seq!['{', '\n'] + pretty_entries(
                            entries,
                            i + 1,
                            depth as int,
                            indent as int,
                        ));
                    }
                    i = i + 1;
                }
                print_string.push_str(current_indent.as_str());
                print_string.push('}');
                proof {
                    assert(print_string@ =~= pretty(self@, depth as int, indent as int));
                }
                print_string
            },
            _ => self.to_string(),
        }
    }

    /// The compact JSON text of the value (the form that `Display` writes).
    pub fn to_string(&self) -> (r: String)
        ensures
            r@ == render(self@),
            model_wf(self@),
        decreases self,
    {
        match self {
            JsonValue::Null => {
                let mut out = String::new();
                out.push_str("null");
                proof {
                    reveal_strlit("null");
                    assert(out@ =~= null_text());
                }
                out
            },
            JsonValue::Boolean(b) => {
                let mut out = String::new();
                if *b {
                    out.push_str("true");
                    proof {
                        reveal_strlit("true");
                        assert(out@ =~= bool_text(true));
                    }
                } else {
                    out.push_str("false");
                    proof {
                        reveal_strlit("false");
                        assert(out@ =~= bool_text(false));
                    }
                }
                out
            },
            JsonValue::Number(n) => {
                let mut out = String::new();
                out.push_str(n.as_str());
                assert(out@ =~= n@);
                out
            },
            JsonValue::String(s) => JsonValue::escape_string(s.as_str()),
            JsonValue::Array(a) => {
                let ghost items = values_model(a@);
                proof {
                    lemma_array_model(*a);
                }
                let mut out = String::new();
                out.push('[');
                let mut i: usize = 0;
                while i < a.len()
                    invariant
                        i <= a@.len(),
                        items == values_model(a@),
                        *self == JsonValue::Array(*a),
                        out@ == seq!['['] + render_items(items, i as int),
                        items_wf(items, i as int),
                    decreases a@.len() - i,
                {
                    if i > 0 {
                        out.push(',');
                    }
                    proof {
                        assert((*self)->Array_0 == *a);
                        assert(decreases_to!(*self => (*self)->Array_0));
                        assert(decreases_to!(*a => a@));
                        assert(decreases_to!(a@ => a@[i as int]));
                    }
                    let item = a[i].to_string();
                    out.push_str(item.as_str());
                    proof {
                        assert(out@ =~= seq!['['] + render_items(items, i + 1));
                        assert(items_wf(items, i + 1));
                    }
                    i = i + 1;
                }
                out.push(']');
                proof {
                    assert(out@ =~= render(self@));
                }
                out
            },
            JsonValue::Object(o) => {
                let ghost entries = o.model();
                proof {
                    use_type_invariant(o);
                    o.lemma_model();
                }
                let mut out = String::new();
                out.push('{');
                let mut i: usize = 0;
                while i < o.keys.len()
                    invariant
                        i <= o.keys@.len(),
                        o.keys@.len() == o.values@.len(),
                        entries == o.model(),
                        entries.len() == o.keys@.len(),
                        forall|j: int|
                            0 <= j < o.keys().len() ==> #[trigger] entries[j] == (
                                o.keys()[j],
                                o.vals()[j]@,
                            ),
                        *self == JsonValue::Object(*o),
                        out@ == seq!['{'] + render_entries(entries, i as int),
                        entries_wf(entries, i as int),
                    decreases o.keys@.len() - i,
                {
                    if i > 0 {
                        out.push_str(", ");
                    }
                    let key = JsonValue::escape_string(o.keys[i].as_str());
                    out.push_str(key.as_str());
                    out.push_str(": ");
                    proof {
                        assert((*self)->Object_0 == *o);
                        assert(decreases_to!(*self => (*self)->Object_0));
                        assert(decreases_to!(*o => o.values));
                        assert(decreases_to!(o.values => o.values@));
                        assert(decreases_to!(o.values@ => o.values@[i as int]));
                        assert(o.keys()[i as int] == o.keys@[i as int]@);
                    }
                    let item = o.values[i].to_string();
                    out.push_str(item.as_str());
                    proof {
                        reveal_strlit(", ");
                        reveal_strlit(": ");
                        assert(entries[i as int] == (o.keys()[i as int], o.vals()[i as int]@));
                        assert(", "@ =~= seq![',', ' ']);
                        assert(": "@ =~= seq![':', ' ']);
                        assert(render_entry(entries[i as int]) == quoted(o.keys()[i as int]) + seq![':', ' '] + render(o.vals()[i as int]@));
                        assert(out@ =~= seq!['{'] + render_entries(entries, i + 1));
                        assert(entry_wf(entries[i as int]) == model_wf(entries[i as int].1));
                        assert(entries_wf(entries, i + 1));
                    }
                    i = i + 1;
                }
                out.push('}');
                proof {
                    assert(out@ =~= render(self@));
                    assert(distinct_keys(entry_keys(entries)));
                }
                out
            },
        }
    }
}

/// A copy of a value, with the same model.
fn copy_value(v: &JsonValue) -> (r: JsonValue)
    ensures
        r@ == v@,
    decreases v,
{
    match v {
        JsonValue::Null => JsonValue::Null,
        JsonValue::Boolean(b) => JsonValue::Boolean(*b),
        JsonValue::Number(n) => JsonValue::Number(n.duplicate()),
        JsonValue::String(s) => JsonValue::String(s.clone()),
        JsonValue::Array(a) => {
            let mut items: Vec<JsonValue> = Vec::new();
            let mut i: usize = 0;
            while i < a.len()
                invariant
                    i <= a@.len(),
                    *v == JsonValue::Array(*a),
                    items@.len() == i,
                    forall|j: int| 0 <= j < i ==> #[trigger] items@[j]@ == a@[j]@,
                decreases a@.len() - i,
            {
                proof {
                    assert((*v)->Array_0 == *a);
                    assert(decreases_to!(*v => (*v)->Array_0));
                    assert(decreases_to!(*a => a@));
                    assert(decreases_to!(a@ => a@[i as int]));
                }
                let item = copy_value(&a[i]);
                items.push(item);
                i = i + 1;
            }
            proof {
                lemma_array_model(items);
                lemma_array_model(*a);
                assert(values_model(items@) =~= values_model(a@));
            }
            JsonValue::Array(items)
        },
        JsonValue::Object(o) => {
            proof {
                assert((*v)->Object_0 == *o);
                assert(decreases_to!(*v => (*v)->Object_0));
            }
            JsonValue::Object(copy_object(o))
        },
    }
}

/// A copy of an object, with the same keys and the same models of values.
fn copy_object(o: &JsonObject) -> (r: JsonObject)
    ensures
        r.model() == o.model(),
        r.keys() == o.keys(),
        r.wf(),
    decreases o,
{
    proof {
        use_type_invariant(o);
    }
    let mut keys: Vec<String> = Vec::new();
    let mut values: Vec<JsonValue> = Vec::new();
    let mut i: usize = 0;
    while i < o.keys.len()
        invariant
            i <= o.keys@.len(),
            o.keys@.len() == o.values@.len(),
            keys@.len() == i,
            values@.len() == i,
            forall|j: int| 0 <= j < i ==> #[trigger] keys@[j]@ == o.keys@[j]@,
            forall|j: int| 0 <= j < i ==> #[trigger] values@[j]@ == o.values@[j]@,
        decreases o.keys@.len() - i,
    {
        proof {
            assert(decreases_to!(*o => o.values));
            assert(decreases_to!(o.values => o.values@));
            assert(decreases_to!(o.values@ => o.values@[i as int]));
        }
        let value = copy_value(&o.values[i]);
        keys.push(o.keys[i].clone());
        values.push(value);
        i = i + 1;
    }
    proof {
        assert(Seq::new(keys@.len(), |j: int| keys@[j]@) =~= o.keys());
    }
    let r = JsonObject { keys, values };
    proof {
        assert forall|j: int| 0 <= j < r.model().len() implies #[trigger] r.model()[j]
            == o.model()[j] by {
            assert(keys@[j]@ == o.keys@[j]@);
            assert(values@[j]@ == o.values@[j]@);
        }
        assert(r.model() =~= o.model());
        assert(r.keys() =~= o.keys());
    }
    r
}

/// Whether two values are equal as JSON values ([`value_equiv`]).
pub fn values_equal(a: &JsonValue, b: &JsonValue) -> (r: bool)
    ensures
        r == value_equiv(a@, b@),
    decreases a,
{
    match a {
        JsonValue::Null => match b {
            JsonValue::Null => true,
            _ => false,
        },
        JsonValue::Boolean(x) => match b {
            JsonValue::Boolean(y) => *x == *y,
            _ => false,
        },
        JsonValue::Number(n) => match b {
            JsonValue::Number(m) => n.numbers_equal(m),
            _ => false,
        },
        JsonValue::String(s) => match b {
            JsonValue::String(t) => *s == *t,
            _ => false,
        },
        JsonValue::Array(xs) => match b {
            JsonValue::Array(ys) => {
                proof {
                    lemma_array_model(*xs);
                    lemma_array_model(*ys);
                }
                let ghost xm = values_model(xs@);
                let ghost ym = values_model(ys@);
                if xs.len() != ys.len() {
                    return false;
                }
                let mut i: usize = 0;
                while i < xs.len()
                    invariant
                        i <= xs@.len(),
                        xs@.len() == ys@.len(),
                        *a == JsonValue::Array(*xs),
                        xm == values_model(xs@),
                        ym == values_model(ys@),
                        a@ == ValueModel::Array(xm),
                        b@ == ValueModel::Array(ym),
                        items_equiv(xm, ym, i as int),
                    decreases xs@.len() - i,
                {
                    proof {
                        assert((*a)->Array_0 == *xs);
                        assert(decreases_to!(*a => (*a)->Array_0));
                        assert(decreases_to!(*xs => xs@));
                        assert(decreases_to!(xs@ => xs@[i as int]));
                    }
                    let same = values_equal(&xs[i], &ys[i]);
                    assert(xm[i as int] == xs@[i as int]@);
                    assert(ym[i as int] == ys@[i as int]@);
                    assert(items_equiv(xm, ym, i + 1) == (items_equiv(xm, ym, i as int) && same));
                    if !same {
                        proof {
                            if items_equiv(xm, ym, xm.len() as int) {
                                lemma_items_equiv_prefix(xm, ym, i + 1, xm.len() as int);
                            }
                        }
                        return false;
                    }
                    i = i + 1;
                }
                true
            },
            _ => false,
        },
        JsonValue::Object(o) => match b {
            JsonValue::Object(p) => {
                proof {
                    assert((*a)->Object_0 == *o);
                    assert(decreases_to!(*a => (*a)->Object_0));
                }
                objects_equal(o, p)
            },
            _ => false,
        },
    }
}

/// Whether two objects are equal as maps: of the same size, every key of
/// the first stored in the second under an equal value.
pub fn objects_equal(a: &JsonObject, b: &JsonObject) -> (r: bool)
    ensures
        r == value_equiv(ValueModel::Object(a.model()), ValueModel::Object(b.model())),
    decreases a,
{
    proof {
        use_type_invariant(a);
        use_type_invariant(b);
        a.lemma_model();
        b.lemma_model();
    }
    let ghost am = a.model();
    let ghost bm = b.model();
    if a.keys.len() != b.keys.len() {
        return false;
    }
    let mut i: usize = 0;
    while i < a.keys.len()
        invariant
            i <= a.keys@.len(),
            a.keys@.len() == a.values@.len(),
            b.keys@.len() == b.values@.len(),
            am == a.model(),
            bm == b.model(),
            am.len() == a.keys@.len(),
            bm.len() == b.keys@.len(),
            entry_keys(bm) == b.keys(),
            forall|j: int| 0 <= j < a.keys().len() ==> #[trigger] am[j] == (a.keys()[j], a.vals()[j]@),
            forall|j: int| 0 <= j < b.keys().len() ==> #[trigger] bm[j] == (b.keys()[j], b.vals()[j]@),
            entries_found(am, bm, i as int),
        decreases a.keys@.len() - i,
    {
        proof {
            assert(decreases_to!(*a => a.values));
            assert(decreases_to!(a.values => a.values@));
            assert(decreases_to!(a.values@ => a.values@[i as int]));
            assert(am[i as int] == (a.keys()[i as int], a.vals()[i as int]@));
            assert(a.keys()[i as int] == a.keys@[i as int]@);
        }
        proof {
            lemma_first_index(b.keys(), a.keys@[i as int]@);
        }
        let found = match b.find(&a.keys[i]) {
            None => false,
            Some(j) => {
                proof {
                    assert(bm[j as int] == (b.keys()[j as int], b.vals()[j as int]@));
                }
                values_equal(&a.values[i], &b.values[j])
            },
        };
        assert(found == entry_found(am[i as int], bm));
        assert(entries_found(am, bm, i + 1) == (entries_found(am, bm, i as int) && found));
        if !found {
            proof {
                if entries_found(am, bm, am.len() as int) {
                    lemma_entries_found_prefix(am, bm, i + 1, am.len() as int);
                }
            }
            return false;
        }
        i = i + 1;
    }
    true
}

impl PartialEq for JsonValue {
    fn eq(&self, other: &JsonValue) -> (r: bool) {
        values_equal(self, other)
    }
}

impl PartialEqSpecImpl for JsonValue {
    open spec fn obeys_eq_spec() -> bool {
        true
    }

    open spec fn eq_spec(&self, other: &JsonValue) -> bool {
        value_equiv(self@, other@)
    }
}

impl PartialEq for JsonObject {
    fn eq(&self, other: &JsonObject) -> (r: bool) {
        objects_equal(self, other)
    }
}

impl PartialEqSpecImpl for JsonObject {
    open spec fn obeys_eq_spec() -> bool {
        true
    }

    open spec fn eq_spec(&self, other: &JsonObject) -> bool {
        value_equiv(ValueModel::Object(self.model()), ValueModel::Object(other.model()))
    }
}

impl Clone for JsonValue {
    fn clone(&self) -> (r: JsonValue)
        ensures
            r@ == self@,
    {
        copy_value(self)
    }
}

impl Clone for JsonObject {
    fn clone(&self) -> (r: JsonObject)
        ensures
            r.model() == self.model(),
            r.keys() == self.keys(),
            r.wf(),
    {
        copy_object(self)
    }
}

/// A string of `n` spaces.
fn spaces_string(n: usize) -> (r: String)
    ensures
        r@ == spaces(n as int),
{
    let mut r = String::new();
    let mut i: usize = 0;
    while i < n
        invariant
            i <= n,
            r@ == spaces(i as int),
        decreases n - i,
    {
        r.push(' ');
        assert(r@ =~= spaces(i + 1));
        i = i + 1;
    }
    r
}

} // verus!
