use vstd::prelude::*;

verus! {

/// The kind of data that flows along an edge; `Any` is a wildcard.
#[derive(Clone, Copy, Debug, PartialEq, Eq, Structural)]
pub enum DataType {
    Log,
    Metric,
    Any,
}

/// Two kinds are compatible iff they are equal or either is the wildcard.
pub open spec fn compatible(producer: DataType, consumer: DataType) -> bool {
    producer == consumer || producer == DataType::Any || consumer == DataType::Any
}

/// The name under which a kind appears in diagnostics.
pub open spec fn kind_name(k: DataType) -> Seq<char> {
    match k {
        DataType::Log => "Log"@,
        DataType::Metric => "Metric"@,
        DataType::Any => "Any"@,
    }
}

impl DataType {
    pub fn is_compatible_with(&self, consumer: &DataType) -> (r: bool)
        ensures
            r == compatible(*self, *consumer),
    {
        *self == *consumer || *self == DataType::Any || *consumer == DataType::Any
    }

    pub fn name(&self) -> (r: String)
        ensures
            r@ == kind_name(*self),
    {
        match self {
            DataType::Log => String::from_str("Log"),
            DataType::Metric => String::from_str("Metric"),
            DataType::Any => String::from_str("Any"),
        }
    }
}

} // verus!
