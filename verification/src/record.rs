//! The unit of persistence: a session record made of an identifier, an
//! open-ended mapping of string keys to structured values, and an absolute
//! expiry timestamp (Unix seconds).
use vstd::prelude::*;

verus! {

/// An opaque session identifier: a 128-bit token generated randomly, never
/// derived from record content. Equality is the only operation the store
/// itself needs.
#[derive(Clone, Copy, Debug, PartialEq, Eq, Hash, Structural)]
pub struct SessionId(pub i128);

/// A structured value stored under a key of a record's data mapping. The
/// store treats these as opaque: they only pass through the codec.
#[derive(Debug, PartialEq)]
pub enum DataValue {
    Null,
    Bool(bool),
    Int(i128),
    Text(String),
    List(Vec<DataValue>),
    Object(Vec<(String, DataValue)>),
}

/// The mathematical model of a [`DataValue`].
pub enum ValueModel {
    Null,
    Bool(bool),
    Int(i128),
    Text(Seq<char>),
    List(Seq<ValueModel>),
    Object(Seq<(Seq<char>, ValueModel)>),
}

impl DataValue {
    /// The model of this value: strings become character sequences and
    /// vectors become sequences, recursively.
    pub open spec fn model(self) -> ValueModel
        decreases self,
    {
        match self {
            DataValue::Null => ValueModel::Null,
            DataValue::Bool(b) => ValueModel::Bool(b),
            DataValue::Int(i) => ValueModel::Int(i),
            DataValue::Text(s) => ValueModel::Text(s@),
            DataValue::List(vs) => ValueModel::List(value_models(vs@)),
            DataValue::Object(ps) => ValueModel::Object(pair_models(ps@)),
        }
    }
}

/// The models of a sequence of values, elementwise.
pub open spec fn value_models(vs: Seq<DataValue>) -> Seq<ValueModel>
    decreases vs,
{
    if vs.len() == 0 {
        Seq::empty()
    } else {
        seq![vs[0].model()] + value_models(vs.drop_first())
    }
}

/// The models of a sequence of key/value pairs, elementwise.
pub open spec fn pair_models(ps: Seq<(String, DataValue)>) -> Seq<(Seq<char>, ValueModel)>
    decreases ps,
{
    if ps.len() == 0 {
        Seq::empty()
    } else {
        seq![(ps[0].0@, ps[0].1.model())] + pair_models(ps.drop_first())
    }
}

impl View for DataValue {
    type V = ValueModel;

    open spec fn view(&self) -> ValueModel {
        self.model()
    }
}

/// A session record. `expiry_date` is an absolute point in time as Unix
/// seconds; a record whose expiry is not strictly in the future is
/// semantically absent even while physically present.
#[derive(Debug, PartialEq)]
pub struct Record {
    pub id: SessionId,
    pub data: Vec<(String, DataValue)>,
    pub expiry_date: i64,
}

/// The mathematical model of a [`Record`].
pub struct RecordModel {
    pub id: i128,
    pub data: Seq<(Seq<char>, ValueModel)>,
    pub expiry_date: i64,
}

/// The model of a data mapping: each pair's key as a character sequence and
/// its value as a [`ValueModel`].
pub open spec fn data_model(data: Seq<(String, DataValue)>) -> Seq<(Seq<char>, ValueModel)> {
    pair_models(data)
}

impl View for Record {
    type V = RecordModel;

    open spec fn view(&self) -> RecordModel {
        RecordModel { id: self.id.0, data: data_model(self.data@), expiry_date: self.expiry_date }
    }
}

/// `value_models` maps elementwise: it keeps the length and models each
/// element in place.
pub proof fn lemma_value_models_index(vs: Seq<DataValue>)
    ensures
        value_models(vs).len() == vs.len(),
        forall|i: int| 0 <= i < vs.len() ==> #[trigger] value_models(vs)[i] == vs[i].model(),
    decreases vs.len(),
{
    if vs.len() > 0 {
        lemma_value_models_index(vs.drop_first());
    }
}

/// `pair_models` maps elementwise: it keeps the length and models each pair
/// in place.
pub proof fn lemma_pair_models_index(ps: Seq<(String, DataValue)>)
    ensures
        pair_models(ps).len() == ps.len(),
        forall|i: int|
            0 <= i < ps.len() ==> #[trigger] pair_models(ps)[i] == (ps[i].0@, ps[i].1.model()),
    decreases ps.len(),
{
    if ps.len() > 0 {
        lemma_pair_models_index(ps.drop_first());
    }
}

} // verus!
