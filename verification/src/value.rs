//! The dynamic value model: what the codec compresses and reconstructs.

use vstd::prelude::*;

verus! {

/// A structured runtime value: an unsigned integer, a record of field values
/// in declaration order, or one case of a tagged variant with its optional
/// payload.
pub enum Value {
    /// An unsigned integer.
    Uint(u128),
    /// A record: one value per field, in declaration order.
    Record(Vec<Value>),
    /// A tagged variant: the 0-based case index and the payload, if the case
    /// carries one.
    Variant(usize, Option<Box<Value>>),
}

/// The mathematical form of a value.
#[verifier::ext_equal]
pub enum ValueV {
    Uint(nat),
    Record(Seq<ValueV>),
    Variant(nat, Option<Box<ValueV>>),
}

/// The mathematical form of an executable value.
pub open spec fn value_view(v: Value) -> ValueV
    decreases v,
{
    match v {
        Value::Uint(x) => ValueV::Uint(x as nat),
        Value::Record(fields) => ValueV::Record(value_views(fields@)),
        Value::Variant(tag, payload) => ValueV::Variant(
            tag as nat,
            match payload {
                Some(p) => Some(Box::new(value_view(*p))),
                None => None,
            },
        ),
    }
}

/// The mathematical forms of a sequence of values, in order.
pub open spec fn value_views(fields: Seq<Value>) -> Seq<ValueV>
    decreases fields,
{
    if fields.len() == 0 {
        Seq::empty()
    } else {
        seq![value_view(fields[0])] + value_views(fields.drop_first())
    }
}

impl View for Value {
    type V = ValueV;

    open spec fn view(&self) -> ValueV {
        value_view(*self)
    }
}

/// `value_views` maps `value_view` over the sequence, keeping order.
pub proof fn lemma_value_views_index(fields: Seq<Value>)
    ensures
        value_views(fields).len() == fields.len(),
        forall|i: int|
            0 <= i < fields.len() ==> value_views(fields)[i] == value_view(#[trigger] fields[i]),
    decreases fields,
{
    if fields.len() > 0 {
        lemma_value_views_index(fields.drop_first());
        assert forall|i: int| 0 <= i < fields.len() implies value_views(fields)[i] == value_view(
            #[trigger] fields[i],
        ) by {
            if i > 0 {
                assert(fields.drop_first()[i - 1] == fields[i]);
            }
        }
    }
}

impl Value {
    /// Structural equality of two values.
    pub fn equals(&self, other: &Value) -> (r: bool)
        ensures
            r == (self@ == other@),
        decreases self,
    {
        match (self, other) {
            (Value::Uint(a), Value::Uint(b)) => a == b,
            (Value::Record(fields), Value::Record(others)) => {
                proof {
                    lemma_value_views_index(fields@);
                    lemma_value_views_index(others@);
                }
                if fields.len() != others.len() {
                    return false;
                }
                let mut i: usize = 0;
                while i < fields.len()
                    invariant
                        *self == Value::Record(*fields),
                        *other == Value::Record(*others),
                        i <= fields.len() == others.len(),
                        forall|j: int|
                            0 <= j < i ==> value_view(#[trigger] fields@[j]) == value_view(
                                others@[j],
                            ),
                    decreases fields.len() - i,
                {
                    proof {
                        assert(decreases_to!(*self => self->Record_0));
                        assert(self->Record_0 == *fields);
                        assert(decreases_to!(*fields => fields@));
                        assert(decreases_to!(fields@ => fields@[i as int]));
                    }
                    if !fields[i].equals(&others[i]) {
                        proof {
                            lemma_value_views_index(fields@);
                            lemma_value_views_index(others@);
                        }
                        return false;
                    }
                    i = i + 1;
                }
                proof {
                    lemma_value_views_index(fields@);
                    lemma_value_views_index(others@);
                    assert forall|j: int| 0 <= j < fields@.len() implies value_views(fields@)[j]
                        == value_views(others@)[j] by {
                        assert(value_view(fields@[j]) == value_view(others@[j]));
                    }
                    assert(value_views(fields@) =~= value_views(others@));
                }
                true
            },
            (Value::Variant(tag, payload), Value::Variant(other_tag, other_payload)) => {
                if tag != other_tag {
                    return false;
                }
                match (payload, other_payload) {
                    (None, None) => true,
                    (Some(p), Some(q)) => {
                        proof {
                            assert(decreases_to!(*self => self->Variant_1));
                            assert(self->Variant_1 == *payload);
                            assert(decreases_to!(*payload => payload->0));
                        }
                        p.equals(q)
                    },
                    _ => false,
                }
            },
            _ => false,
        }
    }
}

} // verus!
