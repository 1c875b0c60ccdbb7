//! Value types, columns and schemas.
use vstd::prelude::*;

verus! {

/// The types of values.
#[derive(Debug, Clone, Copy, PartialEq, Eq, Structural)]
pub enum DataType {
    Boolean,
    Int16,
    Int32,
    Int64,
    Float32,
    Float64,
    Decimal,
    Date,
    Varchar,
    Time,
    Timestamp,
    Timestampz,
    Interval,
}

/// A column: its type and its name.
#[derive(Debug)]
pub struct Field {
    pub data_type: DataType,
    pub name: String,
}

impl Field {
    /// A column of the given type and name.
    pub fn with_name(data_type: DataType, name: String) -> (f: Field)
        ensures
            f.data_type == data_type,
            f.name == name,
    {
        Field { data_type, name }
    }

    /// A copy of this column.
    pub fn copy(&self) -> (f: Field)
        ensures
            f == *self,
    {
        Field { data_type: self.data_type, name: self.name.clone() }
    }
}

/// The columns of a plan's output.
#[derive(Debug)]
pub struct Schema {
    pub fields: Vec<Field>,
}

impl Schema {
    /// The number of columns.
    pub fn len(&self) -> (r: usize)
        ensures
            r as nat == self.fields@.len(),
    {
        self.fields.len()
    }

    /// A copy of this schema.
    pub fn copy(&self) -> (s: Schema)
        ensures
            s.fields@ == self.fields@,
    {
        let mut v: Vec<Field> = Vec::new();
        let mut i: usize = 0;
        while i < self.fields.len()
            invariant
                i <= self.fields@.len(),
                v@ =~= self.fields@.take(i as int),
            decreases self.fields.len() - i,
        {
            v.push(self.fields[i].copy());
            i = i + 1;
            assert(v@ =~= self.fields@.take(i as int));
        }
        assert(self.fields@.take(i as int) =~= self.fields@);
        Schema { fields: v }
    }
}

} // verus!
