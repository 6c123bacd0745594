//! The primitive type names a schema document can ask for.

use vstd::prelude::*;

use crate::schemalet::SchemaletType;

verus! {

/// One of the seven primitive type names of the schema language, in
/// their natural order.
#[derive(Clone, Copy, PartialEq, Eq, Structural, Debug)]
pub enum SimpleType {
    Array,
    Boolean,
    Integer,
    Null,
    Number,
    Object,
    String,
}

impl SimpleType {
    /// The engine's type tag for this primitive type name.
    pub fn convert(self) -> (out: SchemaletType)
        ensures
            out == self.spec_convert(),
    {
        match self {
            SimpleType::Array => SchemaletType::Array,
            SimpleType::Boolean => SchemaletType::Boolean,
            SimpleType::Integer => SchemaletType::Integer,
            SimpleType::Null => SchemaletType::Null,
            SimpleType::Number => SchemaletType::Number,
            SimpleType::Object => SchemaletType::Object,
            SimpleType::String => SchemaletType::String,
        }
    }

    /// The engine's type tag for this primitive type name.
    pub open spec fn spec_convert(self) -> SchemaletType {
        match self {
            SimpleType::Array => SchemaletType::Array,
            SimpleType::Boolean => SchemaletType::Boolean,
            SimpleType::Integer => SchemaletType::Integer,
            SimpleType::Null => SchemaletType::Null,
            SimpleType::Number => SchemaletType::Number,
            SimpleType::Object => SchemaletType::Object,
            SimpleType::String => SchemaletType::String,
        }
    }

    /// All seven primitive type names, in order.
    pub fn all() -> (out: Vec<SimpleType>)
        ensures
            out@ == seq![
                SimpleType::Array,
                SimpleType::Boolean,
                SimpleType::Integer,
                SimpleType::Null,
                SimpleType::Number,
                SimpleType::Object,
                SimpleType::String,
            ],
    {
        let mut out: Vec<SimpleType> = Vec::new();
        out.push(SimpleType::Array);
        out.push(SimpleType::Boolean);
        out.push(SimpleType::Integer);
        out.push(SimpleType::Null);
        out.push(SimpleType::Number);
        out.push(SimpleType::Object);
        out.push(SimpleType::String);
        proof {
            assert(out@ =~= seq![
                SimpleType::Array,
                SimpleType::Boolean,
                SimpleType::Integer,
                SimpleType::Null,
                SimpleType::Number,
                SimpleType::Object,
                SimpleType::String,
            ]);
        }
        out
    }
}

} // verus!
