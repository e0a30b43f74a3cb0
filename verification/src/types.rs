//! The stored values of the memstore server: the payload type a cached item
//! holds, its mathematical model, the weigher that prices it, and the exact
//! conversions to and from the wire values of [`crate::messages`].

use vstd::prelude::*;

verus! {

use crate::cache::Weigher;
use crate::messages;

/// The mathematical shape of a payload: what a stored value and a
/// well-formed wire value both denote.
pub enum ValueModel {
    Blob(Seq<u8>),
    Text(Seq<char>),
    Table(Seq<(Seq<char>, ValueModel)>),
}

/// A value held by the store: an opaque blob, a text string, or a
/// string-keyed table of nested values.
#[derive(Debug, PartialEq)]
pub enum MemstoreValue {
    Blob { value: Vec<u8> },
    Text { value: String },
    Table { map: Vec<(String, MemstoreValue)> },
}

/// A malformed wire value: the error of decoding one.
#[derive(Clone, Copy, Debug, PartialEq, Eq)]
pub enum ValueError {
    MissingAttribute(&'static str),
}

/// The model of a stored value.
pub open spec fn value_model(v: MemstoreValue) -> ValueModel
    decreases v,
{
    match v {
        MemstoreValue::Blob { value } => ValueModel::Blob(value@),
        MemstoreValue::Text { value } => ValueModel::Text(value@),
        MemstoreValue::Table { map } => ValueModel::Table(table_model(map@)),
    }
}

/// The model of a stored table, entry by entry in table order.
pub open spec fn table_model(entries: Seq<(String, MemstoreValue)>) -> Seq<(Seq<char>, ValueModel)>
    decreases entries,
{
    if entries.len() == 0 {
        Seq::empty()
    } else {
        table_model(entries.drop_last()).push(
            (entries.last().0@, value_model(entries.last().1)),
        )
    }
}

impl View for MemstoreValue {
    type V = ValueModel;

    open spec fn view(&self) -> ValueModel {
        value_model(*self)
    }
}

/// The byte size of a text payload: the length of its UTF-8 encoding, as
/// the machine reports it.
pub open spec fn text_size(s: Seq<char>) -> nat {
    (vstd::utf8::encode_utf8(s).len() as usize) as nat
}

/// Saturates a mathematical size at the machine word.
pub open spec fn clamp_usize(n: nat) -> nat {
    if n > usize::MAX {
        usize::MAX as nat
    } else {
        n
    }
}

/// The payload size of a model value, in bytes: a blob or text length, or
/// the summed key and value sizes of a table.
pub open spec fn model_size(m: ValueModel) -> nat
    decreases m,
{
    match m {
        ValueModel::Blob(b) => b.len(),
        ValueModel::Text(s) => text_size(s),
        ValueModel::Table(entries) => model_table_size(entries),
    }
}

/// The summed size of a table's entries.
pub open spec fn model_table_size(entries: Seq<(Seq<char>, ValueModel)>) -> nat
    decreases entries,
{
    if entries.len() == 0 {
        0
    } else {
        model_table_size(entries.drop_last()) + text_size(entries.last().0) + model_size(
            entries.last().1,
        )
    }
}

/// Adds with saturation at the machine word.
fn sat_add(a: usize, b: usize) -> (r: usize)
    ensures
        r == clamp_usize((a + b) as nat),
{
    if a > usize::MAX - b {
        usize::MAX
    } else {
        a + b
    }
}

impl MemstoreValue {
    /// The payload size in bytes, saturated at the machine word.
    #[verifier::loop_isolation(false)]
    pub fn size(&self) -> (r: usize)
        ensures
            r == clamp_usize(model_size(self@)),
        decreases *self,
    {
        match self {
            MemstoreValue::Blob { value } => value.len(),
            MemstoreValue::Text { value } => value.as_str().len(),
            MemstoreValue::Table { map } => {
                let mut total: usize = 0;
                let n = map.len();
                let mut i: usize = 0;
                proof {
                    assert(map@.subrange(0, 0) =~= Seq::<(String, MemstoreValue)>::empty());
                    assert(table_model(map@.subrange(0, 0)) =~= Seq::<
                        (Seq<char>, ValueModel),
                    >::empty());
                }
                while i < n
                    invariant
                        n == map@.len(),
                        i <= n,
                        total == clamp_usize(model_table_size(table_model(map@.subrange(0, i as int)))),
                    decreases n - i,
                {
                    proof {
                        assert(decreases_to!(*self => *map));
                        assert(decreases_to!(*map => map@));
                        assert(decreases_to!(map@ => map@[i as int]));
                        assert(decreases_to!(*self => map@[i as int].1));
                        assert(map@.subrange(0, i + 1).drop_last() =~= map@.subrange(0, i as int));
                        assert(map@.subrange(0, i + 1).last() == map@[i as int]);
                    }
                    let key_size = map[i].0.as_str().len();
                    let value_size = map[i].1.size();
                    total = sat_add(sat_add(total, key_size), value_size);
                    proof {
                        let sub = table_model(map@.subrange(0, i + 1));
                        assert(sub.drop_last() =~= table_model(map@.subrange(0, i as int)));
                        assert(sub.last() == (map@[i as int].0@, value_model(map@[i as int].1)));
                    }
                    i = i + 1;
                }
                proof {
                    assert(map@.subrange(0, n as int) =~= map@);
                }
                total
            },
        }
    }
}

impl Clone for MemstoreValue {
    /// A deep copy with the same model.
    #[verifier::loop_isolation(false)]
    fn clone(&self) -> (res: Self)
        ensures
            res@ == self@,
        decreases *self,
    {
        match self {
            MemstoreValue::Blob { value } => {
                let copy = value.clone();
                proof {
                    assert forall|q: int| 0 <= q < value@.len() implies copy@[q] == value@[q] by {
                        assert(cloned::<u8>(value@[q], copy@[q]));
                    }
                    assert(copy@ =~= value@);
                }
                MemstoreValue::Blob { value: copy }
            },
            MemstoreValue::Text { value } => MemstoreValue::Text { value: value.clone() },
            MemstoreValue::Table { map } => {
                let mut out: Vec<(String, MemstoreValue)> = Vec::new();
                let n = map.len();
                let mut i: usize = 0;
                proof {
                    assert(table_model(map@.subrange(0, 0)) =~= Seq::<
                        (Seq<char>, ValueModel),
                    >::empty());
                    assert(table_model(out@) =~= Seq::<(Seq<char>, ValueModel)>::empty());
                }
                while i < n
                    invariant
                        n == map@.len(),
                        i <= n,
                        out@.len() == i,
                        table_model(out@) == table_model(map@.subrange(0, i as int)),
                    decreases n - i,
                {
                    proof {
                        assert(decreases_to!(*self => *map));
                        assert(decreases_to!(*map => map@));
                        assert(decreases_to!(map@ => map@[i as int]));
                        assert(decreases_to!(*self => map@[i as int].1));
                    }
                    let k = map[i].0.clone();
                    let v = map[i].1.clone();
                    let ghost prev_out = out@;
                    out.push((k, v));
                    proof {
                        assert(out@.drop_last() =~= prev_out);
                        assert(out@.last() == (k, v));
                        assert(map@.subrange(0, i + 1).drop_last() =~= map@.subrange(0, i as int));
                        assert(map@.subrange(0, i + 1).last() == map@[i as int]);
                        assert(table_model(out@) == table_model(map@.subrange(0, i + 1)));
                    }
                    i = i + 1;
                }
                proof {
                    assert(map@.subrange(0, n as int) =~= map@);
                }
                MemstoreValue::Table { map: out }
            },
        }
    }
}


/// Whether a wire value is malformed: it, or some nested value inside it,
/// carries no kind at all.
pub open spec fn wire_malformed(v: messages::Value) -> bool
    decreases v,
{
    match v.kind {
        None => true,
        Some(k) => match k {
            messages::value::Kind::Blob(b) => false,
            messages::value::Kind::Text(s) => false,
            messages::value::Kind::Table(vm) => wire_table_malformed(vm.map@),
        },
    }
}

/// Whether any entry of a wire table is malformed.
pub open spec fn wire_table_malformed(entries: Seq<(String, messages::Value)>) -> bool
    decreases entries,
{
    if entries.len() == 0 {
        false
    } else {
        wire_table_malformed(entries.drop_last()) || wire_malformed(entries.last().1)
    }
}

/// The model a wire value denotes. Meaningful only where the value is not
/// malformed; a missing kind falls back to an empty blob.
pub open spec fn decode(v: messages::Value) -> ValueModel
    decreases v,
{
    match v.kind {
        None => ValueModel::Blob(Seq::empty()),
        Some(k) => match k {
            messages::value::Kind::Blob(b) => ValueModel::Blob(b@),
            messages::value::Kind::Text(s) => ValueModel::Text(s@),
            messages::value::Kind::Table(vm) => ValueModel::Table(decode_table(vm.map@)),
        },
    }
}

/// The model a wire table denotes, entry by entry.
pub open spec fn decode_table(entries: Seq<(String, messages::Value)>) -> Seq<
    (Seq<char>, ValueModel),
>
    decreases entries,
{
    if entries.len() == 0 {
        Seq::empty()
    } else {
        decode_table(entries.drop_last()).push((entries.last().0@, decode(entries.last().1)))
    }
}

/// One malformed entry makes the whole table malformed.
pub proof fn lemma_wire_table_malformed_element(
    entries: Seq<(String, messages::Value)>,
    i: int,
)
    requires
        0 <= i < entries.len(),
        wire_malformed(entries[i].1),
    ensures
        wire_table_malformed(entries),
    decreases entries.len(),
{
    if i < entries.len() - 1 {
        lemma_wire_table_malformed_element(entries.drop_last(), i);
        assert(entries.drop_last()[i] == entries[i]);
    }
}

impl MemstoreValue {
    /// Decodes a wire value, rejecting a malformed one; the error is the
    /// only error decoding can produce. Exactly the malformed values are
    /// rejected.
    pub fn try_from(value: messages::Value) -> (r: Result<MemstoreValue, ValueError>)
        ensures
            match r {
                Ok(m) => !wire_malformed(value) && m@ == decode(value),
                Err(e) => wire_malformed(value) && (e matches ValueError::MissingAttribute(_)),
            },
    {
        Self::decode_wire(&value)
    }

    /// The recursive decoder behind [`MemstoreValue::try_from`].
    #[verifier::loop_isolation(false)]
    fn decode_wire(value: &messages::Value) -> (r: Result<MemstoreValue, ValueError>)
        ensures
            match r {
                Ok(m) => !wire_malformed(*value) && m@ == decode(*value),
                Err(e) => wire_malformed(*value) && (e matches ValueError::MissingAttribute(_)),
            },
        decreases *value,
    {
        match &value.kind {
            None => Err(ValueError::MissingAttribute("Value kind")),
            Some(kind) => match kind {
                messages::value::Kind::Blob(b) => {
                    let copy = b.clone();
                    proof {
                        assert forall|q: int| 0 <= q < b@.len() implies copy@[q] == b@[q] by {
                            assert(cloned::<u8>(b@[q], copy@[q]));
                        }
                        assert(copy@ =~= b@);
                    }
                    Ok(MemstoreValue::Blob { value: copy })
                },
                messages::value::Kind::Text(text) => {
                    Ok(MemstoreValue::Text { value: text.clone() })
                },
                messages::value::Kind::Table(vm) => {
                    let mut out: Vec<(String, MemstoreValue)> = Vec::new();
                    let n = vm.map.len();
                    let mut i: usize = 0;
                    proof {
                        assert(vm.map@.subrange(0, 0) =~= Seq::<(String, messages::Value)>::empty());
                        assert(table_model(out@) =~= Seq::<(Seq<char>, ValueModel)>::empty());
                    }
                    while i < n
                        invariant
                            i <= n,
                            out@.len() == i,
                            !wire_table_malformed(vm.map@.subrange(0, i as int)),
                            table_model(out@) == decode_table(vm.map@.subrange(0, i as int)),
                        decreases n - i,
                    {
                        proof {
                            assert(decreases_to!(value.kind => *kind));
                            assert(decreases_to!(*kind => *vm));
                            assert(decreases_to!(*vm => vm.map));
                            assert(decreases_to!(vm.map => vm.map@));
                            assert(decreases_to!(vm.map@ => vm.map@[i as int]));
                            assert(decreases_to!(*value => vm.map@[i as int].1));
                        }
                        match Self::decode_wire(&vm.map[i].1) {
                            Ok(m) => {
                                let k = vm.map[i].0.clone();
                                let ghost prev_out = out@;
                                out.push((k, m));
                                proof {
                                    assert(out@.drop_last() =~= prev_out);
                                    assert(out@.last() == (k, m));
                                    assert(vm.map@.subrange(0, i + 1).drop_last() =~= vm.map@.subrange(
                                        0,
                                        i as int,
                                    ));
                                    assert(vm.map@.subrange(0, i + 1).last() == vm.map@[i as int]);
                                    assert(table_model(out@) == decode_table(
                                        vm.map@.subrange(0, i + 1),
                                    ));
                                }
                            },
                            Err(e) => {
                                proof {
                                    lemma_wire_table_malformed_element(vm.map@, i as int);
                                }
                                return Err(e);
                            },
                        }
                        i = i + 1;
                    }
                    proof {
                        assert(vm.map@.subrange(0, n as int) =~= vm.map@);
                    }
                    Ok(MemstoreValue::Table { map: out })
                },
            },
        }
    }
}

impl messages::Value {
    /// Builds the wire form of a stored value. The result is never
    /// malformed and decodes back to the very model it came from.
    pub fn from(value: MemstoreValue) -> (r: messages::Value)
        ensures
            !wire_malformed(r),
            decode(r) == value@,
    {
        Self::encode_wire(&value)
    }

    /// The recursive encoder behind [`messages::Value::from`].
    #[verifier::loop_isolation(false)]
    fn encode_wire(value: &MemstoreValue) -> (r: messages::Value)
        ensures
            !wire_malformed(r),
            decode(r) == value@,
        decreases *value,
    {
        match value {
            MemstoreValue::Blob { value: b } => {
                let copy = b.clone();
                proof {
                    assert forall|q: int| 0 <= q < b@.len() implies copy@[q] == b@[q] by {
                        assert(cloned::<u8>(b@[q], copy@[q]));
                    }
                    assert(copy@ =~= b@);
                }
                messages::Value { kind: Some(messages::value::Kind::Blob(copy)) }
            },
            MemstoreValue::Text { value: text } => {
                messages::Value { kind: Some(messages::value::Kind::Text(text.clone())) }
            },
            MemstoreValue::Table { map } => {
                let mut out: Vec<(String, messages::Value)> = Vec::new();
                let n = map.len();
                let mut i: usize = 0;
                proof {
                    assert(map@.subrange(0, 0) =~= Seq::<(String, MemstoreValue)>::empty());
                    assert(decode_table(out@) =~= Seq::<(Seq<char>, ValueModel)>::empty());
                }
                while i < n
                    invariant
                        i <= n,
                        out@.len() == i,
                        !wire_table_malformed(out@),
                        decode_table(out@) == table_model(map@.subrange(0, i as int)),
                    decreases n - i,
                {
                    proof {
                        assert(decreases_to!(*value => *map));
                        assert(decreases_to!(*map => map@));
                        assert(decreases_to!(map@ => map@[i as int]));
                        assert(decreases_to!(*value => map@[i as int].1));
                    }
                    let k = map[i].0.clone();
                    let encoded = Self::encode_wire(&map[i].1);
                    let ghost prev_out = out@;
                    out.push((k, encoded));
                    proof {
                        assert(out@.drop_last() =~= prev_out);
                        assert(out@.last() == (k, encoded));
                        assert(map@.subrange(0, i + 1).drop_last() =~= map@.subrange(0, i as int));
                        assert(map@.subrange(0, i + 1).last() == map@[i as int]);
                        assert(decode_table(out@) == table_model(map@.subrange(0, i + 1)));
                    }
                    i = i + 1;
                }
                proof {
                    assert(map@.subrange(0, n as int) =~= map@);
                }
                messages::Value {
                    kind: Some(
                        messages::value::Kind::Table(messages::ValueMap { map: out }),
                    ),
                }
            },
        }
    }
}

/// One cached item: the value stored under a key.
pub struct MemstoreItem {
    value: MemstoreValue,
}

impl View for MemstoreItem {
    type V = ValueModel;

    closed spec fn view(&self) -> ValueModel {
        self.value@
    }
}

impl MemstoreItem {
    /// Wraps a value for storage.
    pub fn new(value: MemstoreValue) -> (item: Self)
        ensures
            item@ == value@,
    {
        Self { value }
    }

    /// Unwraps the stored value.
    pub fn into_value(self) -> (value: MemstoreValue)
        ensures
            value@ == self@,
    {
        self.value
    }

    /// The capacity cost of one item: its payload size plus its key's
    /// length, saturated at the machine word.
    pub fn weigher(key: &Vec<u8>, item: &MemstoreItem) -> (w: usize)
        ensures
            w == clamp_usize(model_size(item@) + key@.len()),
    {
        sat_add(item.value.size(), key.len())
    }
}

impl Clone for MemstoreItem {
    /// A deep copy with the same model.
    fn clone(&self) -> (res: Self)
        ensures
            res@ == self@,
    {
        MemstoreItem { value: self.value.clone() }
    }
}

/// Prices an item by [`MemstoreItem::weigher`].
#[derive(Clone, Debug)]
pub struct MemstoreWeigher;

impl Weigher<MemstoreItem> for MemstoreWeigher {
    open spec fn spec_weigh(key: Seq<u8>, value: MemstoreItem) -> nat {
        clamp_usize(model_size(value@) + key.len())
    }

    fn weigh(key: &Vec<u8>, value: &MemstoreItem) -> (w: usize) {
        MemstoreItem::weigher(key, value)
    }
}

} // verus!
