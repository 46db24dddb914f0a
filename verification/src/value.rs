//! The in-memory value tree and its mathematical model.

use vstd::prelude::*;
use vstd::utf8::encode_utf8;

verus! {

/// The mathematical model of a decoded value: text as sequences of
/// characters, property lists as sequences of key–value pairs.
pub enum ValueV {
    Null,
    Undefined,
    Unsupported,
    Number(u64),
    Boolean(bool),
    String(Seq<char>),
    ECMAArray(Seq<(Seq<char>, ValueV)>),
    Array(Seq<ValueV>),
    Object(Seq<(Seq<char>, ValueV)>),
    TypedObject(Seq<char>, Seq<(Seq<char>, ValueV)>),
    Date(u64),
    XmlDocument(Seq<char>),
    Reference(u16),
}

/// A decoded value.
///
/// `Number` and `Date` keep the raw bits of the 8-byte big-endian
/// floating-point payload, so every value the wire can carry is represented
/// exactly and re-encodes to the same bytes; interpreting the bits is the
/// caller's concern. `Date` keeps the millisecond count's bits; the wire's
/// legacy timezone-offset field is read and discarded, as the format asks.
/// Property lists of `Object`, `TypedObject` and `ECMAArray` are key–value
/// pairs with unique keys, in first-insertion order; when the wire repeats
/// a key, the last write wins.
#[derive(Debug, PartialEq)]
pub enum Value {
    Null,
    Undefined,
    Unsupported,
    Number(u64),
    Boolean(bool),
    String(String),
    ECMAArray(Vec<(String, Value)>),
    Array(Vec<Value>),
    Object(Vec<(String, Value)>),
    TypedObject(String, Vec<(String, Value)>),
    Date(u64),
    XmlDocument(String),
    Reference(u16),
}

/// The models of a sequence of decoded values, element by element.
pub open spec fn values_view(items: Seq<Value>) -> Seq<ValueV>
    decreases items,
{
    Seq::new(
        items.len(),
        |i: int|
            if 0 <= i < items.len() {
                items[i]@
            } else {
                ValueV::Null
            },
    )
}

/// The models of a decoded property list, pair by pair.
pub open spec fn pairs_view(props: Seq<(String, Value)>) -> Seq<(Seq<char>, ValueV)>
    decreases props,
{
    Seq::new(
        props.len(),
        |i: int|
            if 0 <= i < props.len() {
                (props[i].0@, props[i].1@)
            } else {
                (Seq::empty(), ValueV::Null)
            },
    )
}

impl View for Value {
    type V = ValueV;

    open spec fn view(&self) -> ValueV
        decreases self,
    {
        match self {
            Value::Null => ValueV::Null,
            Value::Undefined => ValueV::Undefined,
            Value::Unsupported => ValueV::Unsupported,
            Value::Number(bits) => ValueV::Number(*bits),
            Value::Boolean(b) => ValueV::Boolean(*b),
            Value::String(s) => ValueV::String(s@),
            Value::ECMAArray(props) => ValueV::ECMAArray(pairs_view(props@)),
            Value::Array(items) => ValueV::Array(values_view(items@)),
            Value::Object(props) => ValueV::Object(pairs_view(props@)),
            Value::TypedObject(name, props) => ValueV::TypedObject(name@, pairs_view(props@)),
            Value::Date(bits) => ValueV::Date(*bits),
            Value::XmlDocument(s) => ValueV::XmlDocument(s@),
            Value::Reference(ix) => ValueV::Reference(*ix),
        }
    }
}

/// The index of the first pair whose key is `k`, or `-1` if no pair has it.
pub open spec fn key_index(props: Seq<(Seq<char>, ValueV)>, k: Seq<char>) -> int
    decreases props.len(),
{
    if props.len() == 0 {
        -1
    } else if props[0].0 == k {
        0
    } else if key_index(props.drop_first(), k) < 0 {
        -1
    } else {
        1 + key_index(props.drop_first(), k)
    }
}

pub open spec fn has_key(props: Seq<(Seq<char>, ValueV)>, k: Seq<char>) -> bool {
    key_index(props, k) >= 0
}

/// Insertion with last-write-wins: an existing key keeps its position and
/// takes the new value; a new key goes to the end.
pub open spec fn upsert(props: Seq<(Seq<char>, ValueV)>, k: Seq<char>, v: ValueV) -> Seq<
    (Seq<char>, ValueV),
> {
    if has_key(props, k) {
        props.update(key_index(props, k), (k, v))
    } else {
        props.push((k, v))
    }
}

/// The unique-key property list that a raw sequence of decoded pairs
/// collapses to, inserting each pair in order with [`upsert`].
pub open spec fn dedup(raw: Seq<(Seq<char>, ValueV)>) -> Seq<(Seq<char>, ValueV)>
    decreases raw.len(),
{
    if raw.len() == 0 {
        Seq::empty()
    } else {
        upsert(dedup(raw.drop_last()), raw.last().0, raw.last().1)
    }
}

/// Collapses every property list of a raw value tree with [`dedup`],
/// recursively. A decoded `Value` is the normalization of the raw tree the
/// wire spelled out.
pub open spec fn norm(v: ValueV) -> ValueV
    decreases v,
{
    match v {
        ValueV::Array(items) => ValueV::Array(norm_items(items)),
        ValueV::Object(props) => ValueV::Object(dedup(norm_pairs(props))),
        ValueV::ECMAArray(props) => ValueV::ECMAArray(dedup(norm_pairs(props))),
        ValueV::TypedObject(name, props) => ValueV::TypedObject(name, dedup(norm_pairs(props))),
        _ => v,
    }
}

pub open spec fn norm_items(items: Seq<ValueV>) -> Seq<ValueV>
    decreases items,
{
    Seq::new(
        items.len(),
        |i: int|
            if 0 <= i < items.len() {
                norm(items[i])
            } else {
                ValueV::Null
            },
    )
}

pub open spec fn norm_pairs(props: Seq<(Seq<char>, ValueV)>) -> Seq<(Seq<char>, ValueV)>
    decreases props,
{
    Seq::new(
        props.len(),
        |i: int|
            if 0 <= i < props.len() {
                (props[i].0, norm(props[i].1))
            } else {
                (Seq::empty(), ValueV::Null)
            },
    )
}

pub open spec fn unique_keys(props: Seq<(Seq<char>, ValueV)>) -> bool {
    forall|i: int, j: int|
        0 <= i < j < props.len() ==> props[i].0 != props[j].0
}

/// Every property list in the tree has unique keys: the invariant of the
/// value model, which every decoded value satisfies and under which
/// normalization is the identity.
pub open spec fn wf(v: ValueV) -> bool
    decreases v,
{
    match v {
        ValueV::Array(items) => wf_items(items),
        ValueV::Object(props) => wf_props(props),
        ValueV::ECMAArray(props) => wf_props(props),
        ValueV::TypedObject(_, props) => wf_props(props),
        _ => true,
    }
}

pub open spec fn wf_items(items: Seq<ValueV>) -> bool
    decreases items,
{
    forall|i: int| #![trigger items[i]] 0 <= i < items.len() ==> wf(items[i])
}

pub open spec fn wf_props(props: Seq<(Seq<char>, ValueV)>) -> bool
    decreases props,
{
    unique_keys(props) && forall|i: int| #![trigger props[i]] 0 <= i < props.len() ==> wf(
        props[i].1,
    )
}

/// The value has an encoding: every piece of text fits its length prefix
/// (two bytes for property keys and class names, four for long text),
/// property keys are non-empty, and element and property counts fit the
/// four-byte count field.
pub open spec fn encodable(v: ValueV) -> bool
    decreases v,
{
    match v {
        ValueV::String(s) => encode_utf8(s).len() <= 0xFFFF_FFFF,
        ValueV::XmlDocument(s) => encode_utf8(s).len() <= 0xFFFF_FFFF,
        ValueV::Array(items) => items.len() <= 0xFFFF_FFFF && forall|i: int|
            #![trigger items[i]]
            0 <= i < items.len() ==> encodable(items[i]),
        ValueV::Object(props) => props_encodable(props),
        ValueV::ECMAArray(props) => props.len() <= 0xFFFF_FFFF && props_encodable(props),
        ValueV::TypedObject(name, props) => encode_utf8(name).len() <= 0xFFFF && props_encodable(
            props,
        ),
        _ => true,
    }
}

pub open spec fn props_encodable(props: Seq<(Seq<char>, ValueV)>) -> bool
    decreases props,
{
    forall|i: int|
        #![trigger props[i]]
        0 <= i < props.len() ==> {
            &&& 0 < encode_utf8(props[i].0).len() <= 0xFFFF
            &&& encodable(props[i].1)
        }
}

/// `key_index` finds the first pair with the key, and a negative result
/// means no pair has it.
pub proof fn lemma_key_index(props: Seq<(Seq<char>, ValueV)>, k: Seq<char>)
    ensures
        key_index(props, k) >= 0 ==> {
            &&& 0 <= key_index(props, k) < props.len()
            &&& props[key_index(props, k)].0 == k
            &&& forall|j: int| 0 <= j < key_index(props, k) ==> props[j].0 != k
        },
        key_index(props, k) < 0 ==> forall|i: int| 0 <= i < props.len() ==> props[i].0 != k,
        (exists|i: int| 0 <= i < props.len() && props[i].0 == k) ==> key_index(props, k) >= 0,
    decreases props.len(),
{
    if props.len() > 0 && props[0].0 != k {
        lemma_key_index(props.drop_first(), k);
        assert forall|j: int| 1 <= j < props.len() implies props.drop_first()[j - 1]
            == props[j] by {}
        if exists|i: int| 0 <= i < props.len() && props[i].0 == k {
            let i = choose|i: int| 0 <= i < props.len() && props[i].0 == k;
            assert(props.drop_first()[i - 1] == props[i]);
        }
    }
}

/// A property list that already has unique keys collapses to itself.
pub proof fn lemma_dedup_identity(props: Seq<(Seq<char>, ValueV)>)
    requires
        unique_keys(props),
    ensures
        dedup(props) == props,
    decreases props.len(),
{
    if props.len() > 0 {
        let front = props.drop_last();
        assert(unique_keys(front)) by {
            assert(forall|i: int| 0 <= i < front.len() ==> front[i] == props[i]);
        }
        lemma_dedup_identity(front);
        lemma_key_index(front, props.last().0);
        if key_index(front, props.last().0) >= 0 {
            let i = key_index(front, props.last().0);
            assert(props[i].0 == props[props.len() - 1].0);
        }
        assert(front.push(props.last()) =~= props);
    }
}

/// Normalization is the identity on well-formed values: a tree whose
/// property lists already have unique keys is its own normal form.
pub proof fn lemma_norm_identity(v: ValueV)
    requires
        wf(v),
    ensures
        norm(v) == v,
    decreases v,
{
    match v {
        ValueV::Array(items) => {
            assert(wf_items(items));
            assert forall|i: int| 0 <= i < items.len() implies #[trigger] norm(items[i])
                == items[i] by {
                assert(wf(items[i]));
                lemma_norm_identity(items[i]);
            }
            assert forall|i: int| 0 <= i < items.len() implies norm_items(items)[i]
                == items[i] by {
                assert(norm(items[i]) == items[i]);
            }
            assert(norm_items(items) =~= items);
        },
        ValueV::Object(props) => {
            lemma_norm_props_identity(props);
        },
        ValueV::ECMAArray(props) => {
            lemma_norm_props_identity(props);
        },
        ValueV::TypedObject(_, props) => {
            lemma_norm_props_identity(props);
        },
        _ => {},
    }
}

proof fn lemma_norm_props_identity(props: Seq<(Seq<char>, ValueV)>)
    requires
        wf_props(props),
    ensures
        dedup(norm_pairs(props)) == props,
    decreases props,
{
    let mapped = norm_pairs(props);
    assert forall|i: int| 0 <= i < props.len() implies #[trigger] mapped[i] == props[i] by {
        lemma_norm_identity(props[i].1);
        assert((props[i].0, props[i].1) == props[i]);
    }
    assert(mapped =~= props);
    lemma_dedup_identity(props);
}

/// Replacing a value in place or adding a pair with a fresh key keeps keys
/// unique and values well-formed.
proof fn lemma_upsert_wf(props: Seq<(Seq<char>, ValueV)>, k: Seq<char>, v: ValueV)
    requires
        wf_props(props),
        wf(v),
    ensures
        wf_props(upsert(props, k, v)),
{
    lemma_key_index(props, k);
    let u = upsert(props, k, v);
    if has_key(props, k) {
        let ki = key_index(props, k);
        assert(props[ki].0 == k);
        assert forall|i: int| #![trigger u[i]] 0 <= i < u.len() implies u[i].0 == props[i].0
            && wf(u[i].1) by {
            if i != ki {
                assert(u[i] == props[i]);
            }
        }
    } else {
        assert forall|i: int| #![trigger u[i]] 0 <= i < u.len() implies wf(u[i].1) by {
            if i < props.len() {
                assert(u[i] == props[i]);
            }
        }
        assert forall|i: int, j: int| 0 <= i < j < u.len() implies u[i].0 != u[j].0 by {
            if j < props.len() {
                assert(u[i] == props[i] && u[j] == props[j]);
            } else {
                assert(u[i] == props[i] && props[i].0 != k);
            }
        }
    }
}

/// Collapsing any pair sequence whose values are well-formed gives a
/// well-formed property list: unique keys, well-formed values.
proof fn lemma_dedup_wf(raw: Seq<(Seq<char>, ValueV)>)
    requires
        forall|j: int| #![trigger raw[j]] 0 <= j < raw.len() ==> wf(raw[j].1),
    ensures
        wf_props(dedup(raw)),
    decreases raw.len(),
{
    if raw.len() > 0 {
        let front = raw.drop_last();
        assert forall|j: int| #![trigger front[j]] 0 <= j < front.len() implies wf(
            front[j].1,
        ) by {
            assert(front[j] == raw[j]);
        }
        lemma_dedup_wf(front);
        assert(wf(raw.last().1));
        lemma_upsert_wf(dedup(front), raw.last().0, raw.last().1);
    }
}

/// Normalization establishes the model invariant: whatever raw tree the
/// wire spelled out, its normal form has unique keys in every property
/// list. Every decoded value is such a normal form.
pub proof fn lemma_norm_wf(v: ValueV)
    ensures
        wf(norm(v)),
    decreases v,
{
    match v {
        ValueV::Array(items) => {
            let ni = norm_items(items);
            assert forall|i: int| #![trigger ni[i]] 0 <= i < ni.len() implies wf(ni[i]) by {
                lemma_norm_wf(items[i]);
            }
        },
        ValueV::Object(props) => {
            lemma_norm_pairs_wf(props);
        },
        ValueV::ECMAArray(props) => {
            lemma_norm_pairs_wf(props);
        },
        ValueV::TypedObject(_, props) => {
            lemma_norm_pairs_wf(props);
        },
        _ => {},
    }
}

proof fn lemma_norm_pairs_wf(props: Seq<(Seq<char>, ValueV)>)
    ensures
        wf_props(dedup(norm_pairs(props))),
    decreases props,
{
    let mapped = norm_pairs(props);
    assert forall|j: int| #![trigger mapped[j]] 0 <= j < mapped.len() implies wf(
        mapped[j].1,
    ) by {
        lemma_norm_wf(props[j].1);
        assert(mapped[j] == (props[j].0, norm(props[j].1)));
    }
    lemma_dedup_wf(mapped);
}

} // verus!
