//! Documents: the `Value` tree, its ordered `Fields` map, and their model.
use vstd::prelude::*;
use vstd::std_specs::cmp::PartialEqSpecImpl;

use crate::bytes::{key_lt, lemma_key_lt_asymmetric, lemma_key_lt_irreflexive, lemma_key_lt_total, lemma_key_lt_transitive};

verus! {

/// What a `Value` means: the same tree, with strings as character sequences,
/// byte vectors as sequences, and an object as its entries in key order.
pub enum Doc {
    Null,
    Bool(bool),
    Int(i64),
    /// The IEEE-754 bit pattern of a 64-bit float.
    Float(u64),
    Str(Seq<char>),
    Blob(Seq<u8>),
    Array(Seq<Doc>),
    Object(Seq<(Seq<char>, Doc)>),
}

/// A document value.
///
/// A floating-point number is held as its IEEE-754 bit pattern
/// (`f64::to_bits`), which is also how the codec stores it. Two values are
/// `==` as `equals` says: floats compare as floats.
#[derive(Debug)]
pub enum Value {
    Null,
    Bool(bool),
    Int(i64),
    Float(u64),
    String(String),
    Blob(Vec<u8>),
    Array(Vec<Value>),
    Object(Fields),
}

/// The fields of an object, kept in strictly increasing key order (the order
/// of `String`), each key at most once.
#[derive(Debug, PartialEq)]
pub struct Fields {
    entries: Vec<(String, Value)>,
}

impl View for Fields {
    type V = Seq<(String, Value)>;

    closed spec fn view(&self) -> Seq<(String, Value)> {
        self.entries@
    }
}

// ----- association lists -------------------------------------------------

/// Keys strictly increase along the list.
pub open spec fn keys_sorted<V>(s: Seq<(Seq<char>, V)>) -> bool {
    forall|i: int, j: int| 0 <= i < j < s.len() ==> key_lt(#[trigger] s[i].0, #[trigger] s[j].0)
}

/// The value stored under `k`: the first entry with that key.
pub open spec fn assoc_get<V>(s: Seq<(Seq<char>, V)>, k: Seq<char>) -> Option<V>
    decreases s.len(),
{
    if s.len() == 0 {
        None
    } else if s[0].0 == k {
        Some(s[0].1)
    } else {
        assoc_get(s.drop_first(), k)
    }
}

/// Inserting into an ordered list: the entry for `k` is replaced, or a new
/// entry is placed before the first greater key.
pub open spec fn assoc_insert<V>(s: Seq<(Seq<char>, V)>, k: Seq<char>, v: V) -> Seq<(Seq<char>, V)>
    decreases s.len(),
{
    if s.len() == 0 {
        seq![(k, v)]
    } else if s[0].0 == k {
        seq![(k, v)] + s.drop_first()
    } else if key_lt(k, s[0].0) {
        seq![(k, v)] + s
    } else {
        seq![s[0]] + assoc_insert(s.drop_first(), k, v)
    }
}

/// Removing the first entry with key `k`, if there is one.
pub open spec fn assoc_remove<V>(s: Seq<(Seq<char>, V)>, k: Seq<char>) -> Seq<(Seq<char>, V)>
    decreases s.len(),
{
    if s.len() == 0 {
        s
    } else if s[0].0 == k {
        s.drop_first()
    } else {
        seq![s[0]] + assoc_remove(s.drop_first(), k)
    }
}

pub proof fn lemma_sorted_drop_first<V>(s: Seq<(Seq<char>, V)>)
    requires
        keys_sorted(s),
        s.len() > 0,
    ensures
        keys_sorted(s.drop_first()),
        forall|j: int| 0 <= j < s.drop_first().len() ==> key_lt(s[0].0, #[trigger] s.drop_first()[j].0),
{
    assert forall|j: int| 0 <= j < s.drop_first().len() implies key_lt(
        s[0].0,
        #[trigger] s.drop_first()[j].0,
    ) by {
        assert(s.drop_first()[j] == s[j + 1]);
    }
    assert forall|i: int, j: int| 0 <= i < j < s.drop_first().len() implies key_lt(
        #[trigger] s.drop_first()[i].0,
        #[trigger] s.drop_first()[j].0,
    ) by {
        assert(s.drop_first()[i] == s[i + 1]);
        assert(s.drop_first()[j] == s[j + 1]);
    }
}

pub proof fn lemma_sorted_cons<V>(e: (Seq<char>, V), s: Seq<(Seq<char>, V)>)
    requires
        keys_sorted(s),
        forall|j: int| 0 <= j < s.len() ==> key_lt(e.0, #[trigger] s[j].0),
    ensures
        keys_sorted(seq![e] + s),
{
    let t = seq![e] + s;
    assert forall|i: int, j: int| 0 <= i < j < t.len() implies key_lt(
        #[trigger] t[i].0,
        #[trigger] t[j].0,
    ) by {
        if i == 0 {
            assert(t[j] == s[j - 1]);
        } else {
            assert(t[i] == s[i - 1]);
            assert(t[j] == s[j - 1]);
        }
    }
}

/// Every key of `assoc_insert(s, k, v)` is `k` or a key of `s`.
pub proof fn lemma_insert_keys<V>(s: Seq<(Seq<char>, V)>, k: Seq<char>, v: V, j: int)
    requires
        0 <= j < assoc_insert(s, k, v).len(),
    ensures
        assoc_insert(s, k, v)[j].0 == k || exists|i: int|
            0 <= i < s.len() && s[i].0 == #[trigger] assoc_insert(s, k, v)[j].0,
    decreases s.len(),
{
    let t = assoc_insert(s, k, v);
    if s.len() == 0 {
    } else if s[0].0 == k {
        if j > 0 {
            assert(t[j] == s[j]);
        }
    } else if key_lt(k, s[0].0) {
        if j > 0 {
            assert(t[j] == s[j - 1]);
        }
    } else {
        if j == 0 {
            assert(t[0] == s[0]);
        } else {
            let r = assoc_insert(s.drop_first(), k, v);
            assert(t[j] == r[j - 1]);
            lemma_insert_keys(s.drop_first(), k, v, j - 1);
            if r[j - 1].0 != k {
                let i = choose|i: int| 0 <= i < s.drop_first().len() && s.drop_first()[i].0 == r[j - 1].0;
                assert(s[i + 1].0 == t[j].0);
            }
        }
    }
}

/// Every entry of `assoc_insert(s, k, v)` is `(k, v)` or an entry of `s`.
pub proof fn lemma_insert_entries<V>(s: Seq<(Seq<char>, V)>, k: Seq<char>, v: V, j: int)
    requires
        0 <= j < assoc_insert(s, k, v).len(),
    ensures
        assoc_insert(s, k, v)[j] == (k, v) || exists|i: int|
            0 <= i < s.len() && s[i] == #[trigger] assoc_insert(s, k, v)[j],
    decreases s.len(),
{
    let t = assoc_insert(s, k, v);
    if s.len() == 0 {
    } else if s[0].0 == k {
        if j > 0 {
            assert(t[j] == s[j]);
        }
    } else if key_lt(k, s[0].0) {
        if j > 0 {
            assert(t[j] == s[j - 1]);
        }
    } else {
        if j == 0 {
            assert(t[0] == s[0]);
        } else {
            let r = assoc_insert(s.drop_first(), k, v);
            assert(t[j] == r[j - 1]);
            lemma_insert_entries(s.drop_first(), k, v, j - 1);
            if r[j - 1] != (k, v) {
                let i = choose|i: int| 0 <= i < s.drop_first().len() && s.drop_first()[i] == r[j - 1];
                assert(s[i + 1] == t[j]);
            }
        }
    }
}

pub proof fn lemma_insert_sorted<V>(s: Seq<(Seq<char>, V)>, k: Seq<char>, v: V)
    requires
        keys_sorted(s),
    ensures
        keys_sorted(assoc_insert(s, k, v)),
        assoc_insert(s, k, v).len() > 0,
    decreases s.len(),
{
    if s.len() == 0 {
    } else if s[0].0 == k {
        lemma_sorted_drop_first(s);
        lemma_sorted_cons((k, v), s.drop_first());
    } else if key_lt(k, s[0].0) {
        assert forall|j: int| 0 <= j < s.len() implies key_lt(k, #[trigger] s[j].0) by {
            if j > 0 {
                lemma_key_lt_transitive(k, s[0].0, s[j].0);
            }
        }
        lemma_sorted_cons((k, v), s);
    } else {
        lemma_sorted_drop_first(s);
        lemma_key_lt_total(k, s[0].0);
        let r = assoc_insert(s.drop_first(), k, v);
        lemma_insert_sorted(s.drop_first(), k, v);
        assert forall|j: int| 0 <= j < r.len() implies key_lt(s[0].0, #[trigger] r[j].0) by {
            lemma_insert_keys(s.drop_first(), k, v, j);
        }
        lemma_sorted_cons(s[0], r);
    }
}

/// In an ordered list no key comes twice, so a lookup finds the one entry.
pub proof fn lemma_sorted_get<V>(s: Seq<(Seq<char>, V)>, i: int)
    requires
        keys_sorted(s),
        0 <= i < s.len(),
    ensures
        assoc_get(s, s[i].0) == Some(s[i].1),
    decreases s.len(),
{
    if i > 0 {
        lemma_sorted_drop_first(s);
        assert(s.drop_first()[i - 1] == s[i]);
        lemma_key_lt_irreflexive(s[0].0);
        lemma_sorted_get(s.drop_first(), i - 1);
    }
}

pub proof fn lemma_get_some_index<V>(s: Seq<(Seq<char>, V)>, k: Seq<char>)
    requires
        assoc_get(s, k) is Some,
    ensures
        exists|i: int| 0 <= i < s.len() && s[i].0 == k && s[i].1 == assoc_get(s, k)->0,
    decreases s.len(),
{
    if s[0].0 != k {
        lemma_get_some_index(s.drop_first(), k);
        let i = choose|i: int|
            0 <= i < s.drop_first().len() && s.drop_first()[i].0 == k && s.drop_first()[i].1
                == assoc_get(s.drop_first(), k)->0;
        assert(s[i + 1] == s.drop_first()[i]);
    }
}

pub proof fn lemma_get_none<V>(s: Seq<(Seq<char>, V)>, k: Seq<char>)
    requires
        forall|i: int| 0 <= i < s.len() ==> (#[trigger] s[i]).0 != k,
    ensures
        assoc_get(s, k) is None,
    decreases s.len(),
{
    if s.len() > 0 {
        assert forall|i: int| 0 <= i < s.drop_first().len() implies (
        #[trigger] s.drop_first()[i]).0 != k by {
            assert(s.drop_first()[i] == s[i + 1]);
        }
        lemma_get_none(s.drop_first(), k);
    }
}

pub proof fn lemma_insert_get<V>(s: Seq<(Seq<char>, V)>, k: Seq<char>, v: V, q: Seq<char>)
    ensures
        assoc_get(assoc_insert(s, k, v), q) == if q == k {
            Some(v)
        } else {
            assoc_get(s, q)
        },
    decreases s.len(),
{
    let t = assoc_insert(s, k, v);
    if s.len() == 0 {
        assert(t[0] == (k, v));
        assert(t.drop_first() =~= s);
    } else if s[0].0 == k {
        assert(t[0] == (k, v));
        assert(t.drop_first() =~= s.drop_first());
        if q != k {
            assert(assoc_get(t, q) == assoc_get(s.drop_first(), q));
        }
    } else if key_lt(k, s[0].0) {
        assert(t[0] == (k, v));
        assert(t.drop_first() =~= s);
    } else {
        assert(t[0] == s[0]);
        assert(t.drop_first() =~= assoc_insert(s.drop_first(), k, v));
        lemma_insert_get(s.drop_first(), k, v, q);
    }
}

pub proof fn lemma_remove_get<V>(s: Seq<(Seq<char>, V)>, k: Seq<char>, q: Seq<char>)
    requires
        keys_sorted(s),
    ensures
        assoc_get(assoc_remove(s, k), q) == if q == k {
            None
        } else {
            assoc_get(s, q)
        },
        keys_sorted(assoc_remove(s, k)),
    decreases s.len(),
{
    let t = assoc_remove(s, k);
    if s.len() == 0 {
    } else if s[0].0 == k {
        lemma_sorted_drop_first(s);
        if q == k {
            assert forall|i: int| 0 <= i < t.len() implies (#[trigger] t[i]).0 != q by {
                lemma_key_lt_irreflexive(k);
            }
            lemma_get_none(t, q);
        }
    } else {
        lemma_sorted_drop_first(s);
        lemma_remove_get(s.drop_first(), k, q);
        let r = assoc_remove(s.drop_first(), k);
        assert(t.drop_first() =~= r);
        assert forall|j: int| 0 <= j < r.len() implies key_lt(s[0].0, #[trigger] r[j].0) by {
            lemma_remove_keys(s.drop_first(), k, j);
        }
        lemma_sorted_cons(s[0], r);
    }
}

/// Every entry of `assoc_remove(s, k)` is an entry of `s`.
pub proof fn lemma_remove_keys<V>(s: Seq<(Seq<char>, V)>, k: Seq<char>, j: int)
    requires
        0 <= j < assoc_remove(s, k).len(),
    ensures
        exists|i: int| 0 <= i < s.len() && s[i] == #[trigger] assoc_remove(s, k)[j],
    decreases s.len(),
{
    let t = assoc_remove(s, k);
    if s.len() == 0 {
    } else if s[0].0 == k {
        assert(t[j] == s[j + 1]);
    } else if j == 0 {
        assert(t[0] == s[0]);
    } else {
        let r = assoc_remove(s.drop_first(), k);
        assert(t[j] == r[j - 1]);
        lemma_remove_keys(s.drop_first(), k, j - 1);
        let i = choose|i: int| 0 <= i < s.drop_first().len() && s.drop_first()[i] == r[j - 1];
        assert(s[i + 1] == t[j]);
    }
}

/// Walking past entries whose keys are below `k`.
pub proof fn lemma_insert_skip<V>(s: Seq<(Seq<char>, V)>, k: Seq<char>, v: V, i: int)
    requires
        0 <= i <= s.len(),
        forall|j: int| 0 <= j < i ==> key_lt(#[trigger] s[j].0, k),
    ensures
        assoc_insert(s, k, v) == s.take(i) + assoc_insert(s.skip(i), k, v),
    decreases i,
{
    if i == 0 {
        assert(s.skip(0) =~= s);
        assert(s.take(0) + s =~= s);
    } else {
        lemma_key_lt_irreflexive(k);
        lemma_key_lt_asymmetric(s[0].0, k);
        assert forall|j: int| 0 <= j < i - 1 implies key_lt(#[trigger] s.drop_first()[j].0, k) by {
            assert(s.drop_first()[j] == s[j + 1]);
        }
        lemma_insert_skip(s.drop_first(), k, v, i - 1);
        assert(s.drop_first().skip(i - 1) =~= s.skip(i));
        assert(seq![s[0]] + (s.drop_first().take(i - 1) + assoc_insert(s.skip(i), k, v)) =~= s.take(
            i,
        ) + assoc_insert(s.skip(i), k, v));
    }
}

/// Walking past entries whose keys differ from `k`.
pub proof fn lemma_get_skip<V>(s: Seq<(Seq<char>, V)>, k: Seq<char>, i: int)
    requires
        0 <= i <= s.len(),
        forall|j: int| 0 <= j < i ==> (#[trigger] s[j]).0 != k,
    ensures
        assoc_get(s, k) == assoc_get(s.skip(i), k),
        assoc_remove(s, k) == s.take(i) + assoc_remove(s.skip(i), k),
    decreases i,
{
    if i == 0 {
        assert(s.skip(0) =~= s);
        assert(s.take(0) + assoc_remove(s, k) =~= assoc_remove(s, k));
    } else {
        assert(s[0].0 != k);
        assert forall|j: int| 0 <= j < i - 1 implies (#[trigger] s.drop_first()[j]).0 != k by {
            assert(s.drop_first()[j] == s[j + 1]);
        }
        lemma_get_skip(s.drop_first(), k, i - 1);
        assert(s.drop_first().skip(i - 1) =~= s.skip(i));
        assert(seq![s[0]] + (s.drop_first().take(i - 1) + assoc_remove(s.skip(i), k)) =~= s.take(i)
            + assoc_remove(s.skip(i), k));
    }
}

/// Inserting a key above every key of an ordered list appends it.
pub proof fn lemma_insert_greatest<V>(s: Seq<(Seq<char>, V)>, k: Seq<char>, v: V)
    requires
        forall|j: int| 0 <= j < s.len() ==> key_lt(#[trigger] s[j].0, k),
    ensures
        assoc_insert(s, k, v) == s.push((k, v)),
{
    lemma_insert_skip(s, k, v, s.len() as int);
    assert(s.skip(s.len() as int) =~= Seq::<(Seq<char>, V)>::empty());
    assert(s.take(s.len() as int) =~= s);
    assert(s + seq![(k, v)] =~= s.push((k, v)));
}

pub proof fn lemma_remove_absent<V>(s: Seq<(Seq<char>, V)>, k: Seq<char>)
    requires
        forall|i: int| 0 <= i < s.len() ==> (#[trigger] s[i]).0 != k,
    ensures
        assoc_remove(s, k) == s,
    decreases s.len(),
{
    if s.len() > 0 {
        assert forall|i: int| 0 <= i < s.drop_first().len() implies (
        #[trigger] s.drop_first()[i]).0 != k by {
            assert(s.drop_first()[i] == s[i + 1]);
        }
        lemma_remove_absent(s.drop_first(), k);
        assert(seq![s[0]] + s.drop_first() =~= s);
    }
}

/// In an ordered list, taking a key out and putting it back in with a value
/// is the same as storing the value under the key.
pub proof fn lemma_insert_after_remove<V>(s: Seq<(Seq<char>, V)>, k: Seq<char>, x: V)
    requires
        keys_sorted(s),
    ensures
        assoc_insert(assoc_remove(s, k), k, x) == assoc_insert(s, k, x),
    decreases s.len(),
{
    if s.len() == 0 {
    } else if s[0].0 == k {
        lemma_sorted_drop_first(s);
        let r = s.drop_first();
        if r.len() > 0 {
            assert(key_lt(k, r[0].0));
            lemma_key_lt_irreflexive(k);
        }
    } else if key_lt(k, s[0].0) {
        lemma_sorted_drop_first(s);
        assert forall|i: int| 0 <= i < s.drop_first().len() implies (
        #[trigger] s.drop_first()[i]).0 != k by {
            lemma_key_lt_transitive(k, s[0].0, s.drop_first()[i].0);
            lemma_key_lt_irreflexive(k);
        }
        lemma_remove_absent(s.drop_first(), k);
        let t = assoc_remove(s, k);
        assert(t =~= s);
    } else {
        lemma_sorted_drop_first(s);
        lemma_insert_after_remove(s.drop_first(), k, x);
        let t = assoc_remove(s, k);
        assert(t[0] == s[0]);
        assert(t.drop_first() =~= assoc_remove(s.drop_first(), k));
    }
}

/// Storing under a key the value already stored there changes nothing.
pub proof fn lemma_insert_same<V>(s: Seq<(Seq<char>, V)>, k: Seq<char>)
    requires
        keys_sorted(s),
        assoc_get(s, k) is Some,
    ensures
        assoc_insert(s, k, assoc_get(s, k)->0) == s,
    decreases s.len(),
{
    if s[0].0 == k {
        assert(seq![(k, s[0].1)] + s.drop_first() =~= s);
    } else {
        lemma_get_some_index(s, k);
        let i = choose|i: int| 0 <= i < s.len() && s[i].0 == k && s[i].1 == assoc_get(s, k)->0;
        assert(i > 0);
        assert(key_lt(s[0].0, s[i].0));
        lemma_key_lt_asymmetric(s[0].0, k);
        lemma_sorted_drop_first(s);
        lemma_insert_same(s.drop_first(), k);
        assert(seq![s[0]] + s.drop_first() =~= s);
    }
}



impl Value {
    /// The meaning of a value.
    pub open spec fn model(self) -> Doc
        decreases self,
    {
        match self {
            Value::Null => Doc::Null,
            Value::Bool(b) => Doc::Bool(b),
            Value::Int(i) => Doc::Int(i),
            Value::Float(bits) => Doc::Float(bits),
            Value::String(s) => Doc::Str(s@),
            Value::Blob(b) => Doc::Blob(b@),
            Value::Array(items) => Doc::Array(
                Seq::new(
                    items@.len(),
                    |i: int|
                        if 0 <= i < items@.len() {
                            items@[i].model()
                        } else {
                            Doc::Null
                        },
                ),
            ),
            Value::Object(fields) => Doc::Object(
                Seq::new(
                    fields@.len(),
                    |i: int|
                        if 0 <= i < fields@.len() {
                            (fields@[i].0@, fields@[i].1.model())
                        } else {
                            (Seq::empty(), Doc::Null)
                        },
                ),
            ),
        }
    }

    /// Every object in the tree keeps its keys in order.
    pub open spec fn wf(self) -> bool {
        self.model().wf()
    }
}

/// The models of a sequence of values.
pub open spec fn models(s: Seq<Value>) -> Seq<Doc> {
    Seq::new(s.len(), |i: int| s[i].model())
}

/// The model of a list of entries.
pub open spec fn entries_model(s: Seq<(String, Value)>) -> Seq<(Seq<char>, Doc)> {
    Seq::new(s.len(), |i: int| (s[i].0@, s[i].1.model()))
}

impl Fields {
    pub open spec fn model(self) -> Seq<(Seq<char>, Doc)> {
        entries_model(self@)
    }
}

pub proof fn lemma_array_model(items: Vec<Value>)
    ensures
        Value::Array(items).model() == Doc::Array(models(items@)),
{
    assert(models(items@) =~= match Value::Array(items).model() {
        Doc::Array(m) => m,
        _ => Seq::empty(),
    });
}

pub proof fn lemma_object_model(fields: Fields)
    ensures
        Value::Object(fields).model() == Doc::Object(fields.model()),
{
    assert(fields.model() =~= match Value::Object(fields).model() {
        Doc::Object(m) => m,
        _ => Seq::empty(),
    });
}

impl Fields {
    /// An object with no fields.
    pub fn new() -> (r: Fields)
        ensures
            r@ == Seq::<(String, Value)>::empty(),
            r.model() == Seq::<(Seq<char>, Doc)>::empty(),
            keys_sorted(r.model()),
    {
        let r = Fields { entries: Vec::new() };
        assert(r.model() =~= Seq::<(Seq<char>, Doc)>::empty());
        r
    }

    /// The number of fields.
    pub fn len(&self) -> (r: usize)
        ensures
            r == self@.len(),
            r == self.model().len(),
    {
        self.entries.len()
    }

    pub fn is_empty(&self) -> (r: bool)
        ensures
            r == (self.model().len() == 0),
    {
        self.entries.len() == 0
    }

    /// The key and the value of the `i`-th field in key order.
    pub fn entry(&self, i: usize) -> (r: (&String, &Value))
        requires
            i < self@.len(),
        ensures
            *r.0 == self@[i as int].0,
            *r.1 == self@[i as int].1,
            r.0@ == self.model()[i as int].0,
            r.1.model() == self.model()[i as int].1,
    {
        let e = &self.entries[i];
        (&e.0, &e.1)
    }

    /// The value stored under `key`.
    pub fn get(&self, key: &str) -> (r: Option<&Value>)
        ensures
            match r {
                Some(v) => assoc_get(self.model(), key@) == Some(v.model()),
                None => assoc_get(self.model(), key@) is None,
            },
    {
        let ghost m = self.model();
        let mut i: usize = 0;
        while i < self.entries.len()
            invariant
                m == self.model(),
                0 <= i <= self@.len(),
                forall|j: int| 0 <= j < i ==> (#[trigger] m[j]).0 != key@,
            decreases self@.len() - i,
        {
            if crate::bytes::same_text(self.entries[i].0.as_str(), key) {
                proof {
                    lemma_get_skip(m, key@, i as int);
                    assert(m.skip(i as int)[0] == m[i as int]);
                }
                return Some(&self.entries[i].1);
            }
            i = i + 1;
        }
        proof {
            lemma_get_none(m, key@);
        }
        None
    }

    /// The value stored under `key`, to change in place; the keys stay as
    /// they are.
    pub fn get_mut(&mut self, key: &str) -> (r: Option<&mut Value>)
        requires
            keys_sorted(old(self).model()),
        ensures
            match r {
                Some(v) => assoc_get(old(self).model(), key@) == Some((*v).model())
                    && final(self).model() == assoc_insert(
                    old(self).model(),
                    key@,
                    (*final(v)).model(),
                ),
                None => assoc_get(old(self).model(), key@) is None && *final(self) == *old(self),
            },
    {
        let ghost m = self.model();
        let mut i: usize = 0;
        while i < self.entries.len()
            invariant
                m == self.model(),
                m == old(self).model(),
                *self == *old(self),
                keys_sorted(m),
                0 <= i <= self@.len(),
                forall|j: int| 0 <= j < i ==> (#[trigger] m[j]).0 != key@,
            decreases self@.len() - i,
        {
            if crate::bytes::same_text(self.entries[i].0.as_str(), key) {
                proof {
                    lemma_get_skip(m, key@, i as int);
                    assert(m.skip(i as int)[0] == m[i as int]);
                    assert forall|j: int| 0 <= j < i implies key_lt(#[trigger] m[j].0, key@) by {
                        assert(m[i as int].0 == key@);
                    }
                    lemma_insert_skip(m, key@, Value::Null.model(), i as int);
                }
                let ghost old_entries = self@;
                proof {
                    assert forall|x: Value|
                        #[trigger] entries_model(
                            old_entries.update(i as int, (old_entries[i as int].0, x)),
                        ) == assoc_insert(m, key@, x.model()) by {
                        lemma_insert_skip(m, key@, x.model(), i as int);
                        assert(entries_model(
                            old_entries.update(i as int, (old_entries[i as int].0, x)),
                        ) =~= assoc_insert(m, key@, x.model()));
                    }
                }
                let entry = &mut self.entries[i];
                let v = &mut entry.1;
                return Some(v);
            }
            i = i + 1;
        }
        proof {
            lemma_get_none(m, key@);
        }
        None
    }

    /// Whether a field named `key` exists.
    pub fn contains_key(&self, key: &str) -> (r: bool)
        ensures
            r == assoc_get(self.model(), key@) is Some,
    {
        self.get(key).is_some()
    }

    /// Stores `value` under `key`, replacing and returning the value stored
    /// there before, as `BTreeMap::insert` does.
    pub fn insert(&mut self, key: String, value: Value) -> (r: Option<Value>)
        requires
            keys_sorted(old(self).model()),
        ensures
            final(self).model() == assoc_insert(old(self).model(), key@, value.model()),
            keys_sorted(final(self).model()),
            match r {
                Some(v) => assoc_get(old(self).model(), key@) == Some(v.model()),
                None => assoc_get(old(self).model(), key@) is None,
            },
    {
        let ghost m = self.model();
        let ghost vm = value.model();
        let ghost old_entries = self@;
        let mut i: usize = 0;
        while i < self.entries.len()
            invariant_except_break
                m == self.model(),
                0 <= i <= self@.len(),
                forall|j: int| 0 <= j < i ==> key_lt(#[trigger] m[j].0, key@),
            ensures
                m == self.model(),
                0 <= i <= self@.len(),
                forall|j: int| 0 <= j < i ==> key_lt(#[trigger] m[j].0, key@),
                i < self@.len() ==> !key_lt(m[i as int].0, key@),
            decreases self@.len() - i,
        {
            let order = crate::bytes::compare_keys(self.entries[i].0.as_str(), key.as_str());
            if order != crate::bytes::KeyOrder::Less {
                break;
            }
            i = i + 1;
        }
        proof {
            lemma_insert_skip(m, key@, vm, i as int);
            lemma_insert_sorted(m, key@, vm);
            assert forall|j: int| 0 <= j < i implies (#[trigger] m[j]).0 != key@ by {
                lemma_key_lt_irreflexive(key@);
            }
            lemma_get_skip(m, key@, i as int);
        }
        if i < self.entries.len() && crate::bytes::same_text(self.entries[i].0.as_str(), key.as_str()) {
            assert(m[i as int].0 == key@);
            let (old_key, old_value) = self.entries.remove(i);
            assert(old_key@ == key@);
            assert(old_value.model() == m[i as int].1);
            self.entries.insert(i, (old_key, value));
            proof {
                assert(self@ =~= old_entries.update(i as int, (old_key, value)));
                assert(m.skip(i as int)[0] == m[i as int]);
                assert(m.skip(i as int).drop_first() =~= m.skip(i + 1));
                assert(self.model() =~= m.take(i as int) + (seq![(key@, vm)] + m.skip(i + 1)));
            }
            Some(old_value)
        } else {
            proof {
                if i < m.len() {
                    lemma_key_lt_total(m[i as int].0, key@);
                    assert(m.skip(i as int)[0] == m[i as int]);
                    assert forall|j: int| i <= j < m.len() implies (#[trigger] m[j]).0 != key@ by {
                        if j > i {
                            lemma_key_lt_transitive(key@, m[i as int].0, m[j].0);
                            lemma_key_lt_irreflexive(key@);
                        }
                    }
                } else {
                    assert(m.skip(i as int) =~= Seq::<(Seq<char>, Doc)>::empty());
                }
                assert forall|j: int| 0 <= j < m.len() implies (#[trigger] m[j]).0 != key@ by {
                    lemma_key_lt_irreflexive(key@);
                }
                lemma_get_none(m, key@);
            }
            self.entries.insert(i, (key, value));
            proof {
                assert(self.model() =~= m.take(i as int) + (seq![(key@, vm)] + m.skip(i as int)));
            }
            None
        }
    }

    /// Removes the field named `key` and returns its value.
    pub fn remove(&mut self, key: &str) -> (r: Option<Value>)
        ensures
            final(self).model() == assoc_remove(old(self).model(), key@),
            match r {
                Some(v) => assoc_get(old(self).model(), key@) == Some(v.model()),
                None => assoc_get(old(self).model(), key@) is None,
            },
    {
        let ghost m = self.model();
        let mut i: usize = 0;
        while i < self.entries.len()
            invariant
                m == self.model(),
                m == old(self).model(),
                0 <= i <= self@.len(),
                forall|j: int| 0 <= j < i ==> (#[trigger] m[j]).0 != key@,
            decreases self@.len() - i,
        {
            if crate::bytes::same_text(self.entries[i].0.as_str(), key) {
                let ghost old_entries = self@;
                assert(m[i as int].0 == key@);
                let (_k, v) = self.entries.remove(i);
                assert(v.model() == m[i as int].1);
                proof {
                    assert(self@ =~= old_entries.remove(i as int));
                    lemma_get_skip(m, key@, i as int);
                    assert(m.skip(i as int)[0] == m[i as int]);
                    assert(assoc_remove(m.skip(i as int), key@) == m.skip(i as int).drop_first());
                    assert(assoc_get(m.skip(i as int), key@) == Some(m[i as int].1));
                    assert(m.skip(i as int).drop_first() =~= m.skip(i + 1));
                    assert(self.model() =~= m.take(i as int) + m.skip(i + 1));
                }
                return Some(v);
            }
            i = i + 1;
        }
        proof {
            lemma_get_none(m, key@);
            lemma_get_skip(m, key@, i as int);
            assert(m.skip(i as int) =~= Seq::<(Seq<char>, Doc)>::empty());
            assert(m.take(i as int) =~= m);
        }
        None
    }

    /// The fields as a vector of entries, in key order.
    pub fn into_entries(self) -> (r: Vec<(String, Value)>)
        ensures
            r@ == self@,
            entries_model(r@) == self.model(),
    {
        self.entries
    }
}

/// A field's value is smaller than the object that holds it.
pub proof fn lemma_field_decreases(fields: Fields, i: int)
    requires
        0 <= i < fields@.len(),
    ensures
        decreases_to!(Value::Object(fields) => fields@[i].1),
        decreases_to!(Value::Object(fields) => fields@[i]),
{
    let v = Value::Object(fields);
    assert(decreases_to!(v => v->Object_0));
    assert(decreases_to!(fields => fields.entries));
    assert(decreases_to!(fields.entries => fields.entries@));
    assert(decreases_to!(fields.entries@ => fields.entries@[i]));
    assert(decreases_to!(fields.entries@[i] => fields.entries@[i].1));
}

/// An item of an array is smaller than the array.
pub proof fn lemma_item_decreases(items: Vec<Value>, i: int)
    requires
        0 <= i < items@.len(),
    ensures
        decreases_to!(Value::Array(items) => items@[i]),
{
    let v = Value::Array(items);
    assert(decreases_to!(v => v->Array_0));
    assert(decreases_to!(items => items@));
    assert(decreases_to!(items@ => items@[i]));
}

impl Doc {
    /// Every object in the tree keeps its keys in strictly increasing order.
    pub open spec fn wf(self) -> bool
        decreases self,
    {
        match self {
            Doc::Array(items) => forall|i: int| 0 <= i < items.len() ==> (#[trigger] items[i]).wf(),
            Doc::Object(fields) => keys_sorted(fields) && forall|i: int|
                0 <= i < fields.len() ==> (#[trigger] fields[i]).1.wf(),
            _ => true,
        }
    }
}

/// Storing a well-formed value in a well-formed object keeps it well-formed.
pub proof fn lemma_wf_insert(f: Seq<(Seq<char>, Doc)>, k: Seq<char>, v: Doc)
    requires
        Doc::Object(f).wf(),
        v.wf(),
    ensures
        Doc::Object(assoc_insert(f, k, v)).wf(),
{
    lemma_insert_sorted(f, k, v);
    let t = assoc_insert(f, k, v);
    assert forall|j: int| 0 <= j < t.len() implies (#[trigger] t[j]).1.wf() by {
        lemma_insert_entries(f, k, v, j);
    }
}

/// Removing a field keeps a well-formed object well-formed.
pub proof fn lemma_wf_remove(f: Seq<(Seq<char>, Doc)>, k: Seq<char>)
    requires
        Doc::Object(f).wf(),
    ensures
        Doc::Object(assoc_remove(f, k)).wf(),
{
    lemma_remove_get(f, k, k);
    let t = assoc_remove(f, k);
    assert forall|j: int| 0 <= j < t.len() implies (#[trigger] t[j]).1.wf() by {
        lemma_remove_keys(f, k, j);
    }
}

/// A field of a well-formed object is well-formed.
pub proof fn lemma_wf_get(f: Seq<(Seq<char>, Doc)>, k: Seq<char>)
    requires
        Doc::Object(f).wf(),
        assoc_get(f, k) is Some,
    ensures
        assoc_get(f, k)->0.wf(),
{
    lemma_get_some_index(f, k);
}

// ----- equality ----------------------------------------------------------

/// Whether a 64-bit float bit pattern is a NaN.
pub open spec fn float_is_nan(bits: u64) -> bool {
    bits & 0x7ff0_0000_0000_0000 == 0x7ff0_0000_0000_0000 && bits & 0x000f_ffff_ffff_ffff != 0
}

/// Equality of two floats given by their bit patterns, as `==` on `f64`:
/// a NaN equals nothing, and the two zeros are equal.
pub open spec fn float_eq(a: u64, b: u64) -> bool {
    &&& !float_is_nan(a)
    &&& !float_is_nan(b)
    &&& (a == b || (a & 0x7fff_ffff_ffff_ffff == 0 && b & 0x7fff_ffff_ffff_ffff == 0))
}

/// Equality of documents: `==` on the tree, with floats compared as floats
/// and objects compared entry by entry in key order.
pub open spec fn doc_eq(a: Doc, b: Doc) -> bool
    decreases a,
{
    match (a, b) {
        (Doc::Null, Doc::Null) => true,
        (Doc::Bool(x), Doc::Bool(y)) => x == y,
        (Doc::Int(x), Doc::Int(y)) => x == y,
        (Doc::Float(x), Doc::Float(y)) => float_eq(x, y),
        (Doc::Str(x), Doc::Str(y)) => x == y,
        (Doc::Blob(x), Doc::Blob(y)) => x == y,
        (Doc::Array(xs), Doc::Array(ys)) => xs.len() == ys.len() && forall|i: int|
            0 <= i < xs.len() ==> doc_eq(#[trigger] xs[i], ys[i]),
        (Doc::Object(xs), Doc::Object(ys)) => xs.len() == ys.len() && forall|i: int|
            0 <= i < xs.len() ==> (#[trigger] xs[i]).0 == ys[i].0 && doc_eq(xs[i].1, ys[i].1),
        _ => false,
    }
}

/// Compares two floats given by their bit patterns, as `==` on `f64`.
pub fn float_bits_eq(a: u64, b: u64) -> (r: bool)
    ensures
        r == float_eq(a, b),
{
    let a_nan = a & 0x7ff0_0000_0000_0000 == 0x7ff0_0000_0000_0000 && a & 0x000f_ffff_ffff_ffff
        != 0;
    let b_nan = b & 0x7ff0_0000_0000_0000 == 0x7ff0_0000_0000_0000 && b & 0x000f_ffff_ffff_ffff
        != 0;
    !a_nan && !b_nan && (a == b || (a & 0x7fff_ffff_ffff_ffff == 0 && b & 0x7fff_ffff_ffff_ffff
        == 0))
}

impl Value {
    /// Compares two values: `==` on the tree, with floats compared as
    /// floats (a NaN equals nothing, the two zeros are equal).
    #[verifier::loop_isolation(false)]
    pub fn equals(&self, other: &Value) -> (r: bool)
        ensures
            r == doc_eq(self.model(), other.model()),
        decreases self,
    {
        match (self, other) {
            (Value::Null, Value::Null) => true,
            (Value::Bool(x), Value::Bool(y)) => *x == *y,
            (Value::Int(x), Value::Int(y)) => *x == *y,
            (Value::Float(x), Value::Float(y)) => float_bits_eq(*x, *y),
            (Value::String(x), Value::String(y)) => crate::bytes::same_text(x.as_str(), y.as_str()),
            (Value::Blob(x), Value::Blob(y)) => {
                let order = crate::bytes::compare_bytes(x.as_slice(), y.as_slice());
                order == crate::bytes::KeyOrder::Equal
            },
            (Value::Array(xs), Value::Array(ys)) => {
                proof {
                    lemma_array_model(*xs);
                    lemma_array_model(*ys);
                }
                if xs.len() != ys.len() {
                    return false;
                }
                let ghost mx = models(xs@);
                let ghost my = models(ys@);
                let mut i: usize = 0;
                while i < xs.len()
                    invariant
                        0 <= i <= xs@.len(),
                        xs@.len() == ys@.len(),
                        mx == models(xs@),
                        my == models(ys@),
                        forall|j: int| 0 <= j < i ==> doc_eq(#[trigger] mx[j], my[j]),
                    decreases xs@.len() - i,
                {
                    proof {
                        lemma_item_decreases(*xs, i as int);
                    }
                    proof {
                        assert(mx[i as int] == xs@[i as int].model());
                        assert(my[i as int] == ys@[i as int].model());
                    }
                    if !xs[i].equals(&ys[i]) {
                        return false;
                    }
                    i = i + 1;
                }
                true
            },
            (Value::Object(xs), Value::Object(ys)) => {
                proof {
                    lemma_object_model(*xs);
                    lemma_object_model(*ys);
                }
                if xs.len() != ys.len() {
                    return false;
                }
                let ghost mx = xs.model();
                let ghost my = ys.model();
                let mut i: usize = 0;
                while i < xs.len()
                    invariant
                        0 <= i <= xs@.len(),
                        xs@.len() == ys@.len(),
                        mx == xs.model(),
                        my == ys.model(),
                        forall|j: int|
                            0 <= j < i ==> (#[trigger] mx[j]).0 == my[j].0 && doc_eq(mx[j].1, my[j].1),
                    decreases xs@.len() - i,
                {
                    let (kx, vx) = xs.entry(i);
                    let (ky, vy) = ys.entry(i);
                    proof {
                        lemma_field_decreases(*xs, i as int);
                    }
                    if !crate::bytes::same_text(kx.as_str(), ky.as_str()) {
                        return false;
                    }
                    if !vx.equals(vy) {
                        return false;
                    }
                    i = i + 1;
                }
                true
            },
            _ => false,
        }
    }
}

impl PartialEq for Value {
    fn eq(&self, other: &Value) -> (r: bool) {
        self.equals(other)
    }
}

impl PartialEqSpecImpl for Value {
    open spec fn obeys_eq_spec() -> bool {
        true
    }

    open spec fn eq_spec(&self, other: &Value) -> bool {
        doc_eq(self.model(), other.model())
    }
}

/// Whether a document holds no float anywhere inside it.
pub open spec fn float_free(d: Doc) -> bool
    decreases d,
{
    match d {
        Doc::Float(_) => false,
        Doc::Array(items) => forall|i: int|
            0 <= i < items.len() ==> float_free(#[trigger] items[i]),
        Doc::Object(fields) => forall|i: int|
            0 <= i < fields.len() ==> float_free((#[trigger] fields[i]).1),
        _ => true,
    }
}

/// Two equal arrays have the same length and equal items at every index;
/// two equal objects have the same keys in the same order and equal values
/// under them.
pub proof fn law_doc_eq_itemwise(a: Doc, b: Doc, i: int)
    requires
        doc_eq(a, b),
    ensures
        a is Array ==> b is Array && a->Array_0.len() == b->Array_0.len() && (0 <= i
            < a->Array_0.len() ==> doc_eq(a->Array_0[i], b->Array_0[i])),
        a is Object ==> b is Object && a->Object_0.len() == b->Object_0.len() && (0 <= i
            < a->Object_0.len() ==> a->Object_0[i].0 == b->Object_0[i].0 && doc_eq(
            a->Object_0[i].1,
            b->Object_0[i].1,
        )),
{
}

/// On documents without floats, equality is exactly equality of the trees:
/// every item of an array, every key and every value of an object counts.
pub proof fn law_doc_eq_exact(a: Doc, b: Doc)
    requires
        float_free(a),
    ensures
        doc_eq(a, b) <==> a == b,
    decreases a,
{
    match a {
        Doc::Array(xs) => {
            if let Doc::Array(ys) = b {
                assert forall|i: int| 0 <= i < xs.len() implies (doc_eq(#[trigger] xs[i], ys[i])
                    <==> xs[i] == ys[i]) by {
                    law_doc_eq_exact(xs[i], ys[i]);
                }
                if doc_eq(a, b) {
                    assert(xs =~= ys);
                }
                if a == b {
                    assert forall|i: int| 0 <= i < xs.len() implies doc_eq(#[trigger] xs[i], ys[i]) by {
                        law_doc_eq_exact(xs[i], ys[i]);
                    }
                }
            }
        },
        Doc::Object(xs) => {
            if let Doc::Object(ys) = b {
                assert forall|i: int| 0 <= i < xs.len() implies (doc_eq(
                    (#[trigger] xs[i]).1,
                    ys[i].1,
                ) <==> xs[i].1 == ys[i].1) by {
                    law_doc_eq_exact(xs[i].1, ys[i].1);
                }
                if doc_eq(a, b) {
                    assert forall|i: int| 0 <= i < xs.len() implies #[trigger] xs[i] == ys[i] by {
                        law_doc_eq_exact(xs[i].1, ys[i].1);
                    }
                    assert(xs =~= ys);
                }
            }
        },
        _ => {},
    }
}

} // verus!
