//! Atoms: one (subject, property, value) fact, in plain and rich form.

use vstd::prelude::*;
use crate::errors::{AtomicResult, ErrorKind};
use crate::resources::Property;
use crate::values::{
    value_admissible, value_dt, value_string, value_valid, DataType, Value, ValueV,
};

verus! {

/// The plain, string-carried form of a piece of data.
#[derive(Clone, Debug)]
pub struct Atom {
    pub subject: String,
    pub property: String,
    pub value: String,
}

impl View for Atom {
    type V = (Seq<char>, Seq<char>, Seq<char>);

    open spec fn view(&self) -> (Seq<char>, Seq<char>, Seq<char>) {
        (self.property@, self.value@, self.subject@)
    }
}

impl DeepView for Atom {
    type V = (Seq<char>, Seq<char>, Seq<char>);

    open spec fn deep_view(&self) -> (Seq<char>, Seq<char>, Seq<char>) {
        self.view()
    }
}

impl Atom {
    /// An atom from its three parts.
    pub fn new(subject: String, property: String, value: String) -> (a: Atom)
        ensures
            a.subject@ == subject@,
            a.property@ == property@,
            a.value@ == value@,
    {
        Atom { subject, property, value }
    }

    /// A copy with the same parts.
    pub fn duplicate(&self) -> (a: Atom)
        ensures
            a.subject@ == self.subject@,
            a.property@ == self.property@,
            a.value@ == self.value@,
    {
        Atom {
            subject: self.subject.clone(),
            property: self.property.clone(),
            value: self.value.clone(),
        }
    }
}

/// A heavier atom: validated, carrying the decoded value and the property's
/// schema.
#[derive(Clone, Debug)]
pub struct RichAtom {
    pub subject: String,
    pub property: Property,
    pub value: String,
    pub native_value: Value,
}

impl RichAtom {
    /// Validates the value string against the property's datatype; succeeds
    /// exactly when the string decodes under that datatype.
    pub fn new(subject: String, property: Property, value: String) -> (r: AtomicResult<RichAtom>)
        ensures
            match r {
                Ok(ra) => ra.subject@ == subject@ && ra.property == property && ra.value@
                    == value@ && value_valid(ra.native_value@) && value_dt(ra.native_value@)
                    == property.data_type && (property.data_type == DataType::Integer
                    ==> ra.native_value@ == ValueV::Integer(crate::text::int_lit_value(value@)))
                    && (property.data_type == DataType::Timestamp ==> ra.native_value@
                    == ValueV::Timestamp(crate::text::int_lit_value(value@))) && (
                property.data_type != DataType::Integer && property.data_type
                    != DataType::Timestamp ==> value_string(ra.native_value@) == value@),
                Err(e) => e.kind == ErrorKind::SchemaViolation,
            },
            r is Ok <==> value_admissible(value@, property.data_type),
    {
        let native_value = match Value::new(value.as_str(), &property.data_type) {
            Ok(v) => v,
            Err(e) => {
                return Err(e);
            },
        };
        Ok(RichAtom { subject, property, value, native_value })
    }
}

/// Decodes a plain atom into a rich one under the given property schema.
pub fn plain_to_rich(plainatom: Atom, property: Property) -> (r: AtomicResult<RichAtom>)
    ensures
        match r {
            Ok(ra) => ra.subject@ == plainatom.subject@ && ra.property == property && ra.value@
                == plainatom.value@ && value_valid(ra.native_value@) && value_dt(ra.native_value@)
                == property.data_type && (property.data_type == DataType::Integer
                ==> ra.native_value@ == ValueV::Integer(crate::text::int_lit_value(
                plainatom.value@,
            ))) && (property.data_type == DataType::Timestamp ==> ra.native_value@
                == ValueV::Timestamp(crate::text::int_lit_value(plainatom.value@))) && (
            property.data_type != DataType::Integer && property.data_type != DataType::Timestamp
                ==> value_string(ra.native_value@) == plainatom.value@),
            Err(e) => e.kind == ErrorKind::SchemaViolation,
        },
        r is Ok <==> value_admissible(plainatom.value@, property.data_type),
{
    RichAtom::new(plainatom.subject, property, plainatom.value)
}

/// Strips a rich atom back to its plain form.
pub fn rich_to_plain(richatom: &RichAtom) -> (a: Atom)
    ensures
        a.subject@ == richatom.subject@,
        a.property@ == richatom.property.subject@,
        a.value@ == richatom.value@,
{
    Atom {
        subject: richatom.subject.clone(),
        property: richatom.property.subject.clone(),
        value: richatom.value.clone(),
    }
}

} // verus!
