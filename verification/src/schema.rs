//! Column types and table schemas.

use crate::error::{Error, ErrorView};
use crate::text::{lemma_place, lemma_place_is, place, views};
use vstd::prelude::*;
use vstd::string::StringExecFns;

verus! {

/// The type of a column. `Other` is a type that the library treats by its
/// name alone, such as a timestamp or a decimal.
#[derive(Debug)]
pub enum DataType {
    Null,
    Boolean,
    Int8,
    Int16,
    Int32,
    Int64,
    UInt8,
    UInt16,
    UInt32,
    UInt64,
    Float16,
    Float32,
    Float64,
    Date32,
    Date64,
    Binary,
    LargeBinary,
    Utf8,
    LargeUtf8,
    Utf8View,
    /// Values of the second type, stored once each and looked up by the first.
    Dictionary(Box<DataType>, Box<DataType>),
    Other { name: String, numeric: bool },
}

/// What a column type is, with its name as a sequence of characters.
pub enum TypeShape {
    Null,
    Boolean,
    Int8,
    Int16,
    Int32,
    Int64,
    UInt8,
    UInt16,
    UInt32,
    UInt64,
    Float16,
    Float32,
    Float64,
    Date32,
    Date64,
    Binary,
    LargeBinary,
    Utf8,
    LargeUtf8,
    Utf8View,
    Dictionary(Box<TypeShape>, Box<TypeShape>),
    Other { name: Seq<char>, numeric: bool },
}

/// The name that a type is shown under.
pub open spec fn type_label(t: TypeShape) -> Seq<char>
    decreases t,
{
    match t {
        TypeShape::Null => "Null"@,
        TypeShape::Boolean => "Boolean"@,
        TypeShape::Int8 => "Int8"@,
        TypeShape::Int16 => "Int16"@,
        TypeShape::Int32 => "Int32"@,
        TypeShape::Int64 => "Int64"@,
        TypeShape::UInt8 => "UInt8"@,
        TypeShape::UInt16 => "UInt16"@,
        TypeShape::UInt32 => "UInt32"@,
        TypeShape::UInt64 => "UInt64"@,
        TypeShape::Float16 => "Float16"@,
        TypeShape::Float32 => "Float32"@,
        TypeShape::Float64 => "Float64"@,
        TypeShape::Date32 => "Date32"@,
        TypeShape::Date64 => "Date64"@,
        TypeShape::Binary => "Binary"@,
        TypeShape::LargeBinary => "LargeBinary"@,
        TypeShape::Utf8 => "Utf8"@,
        TypeShape::LargeUtf8 => "LargeUtf8"@,
        TypeShape::Utf8View => "Utf8View"@,
        TypeShape::Dictionary(k, v) => "Dictionary("@ + type_label(*k) + ", "@ + type_label(*v) + ")"@,
        TypeShape::Other { name, numeric } => name,
    }
}

/// True for integers, floats and decimals.
pub open spec fn is_numeric_type(t: TypeShape) -> bool {
    match t {
        TypeShape::Int8 | TypeShape::Int16 | TypeShape::Int32 | TypeShape::Int64 => true,
        TypeShape::UInt8 | TypeShape::UInt16 | TypeShape::UInt32 | TypeShape::UInt64 => true,
        TypeShape::Float16 | TypeShape::Float32 | TypeShape::Float64 => true,
        TypeShape::Other { name, numeric } => numeric,
        _ => false,
    }
}

impl DataType {
    pub open spec fn shape(self) -> TypeShape
        decreases self,
    {
        match self {
            DataType::Null => TypeShape::Null,
            DataType::Boolean => TypeShape::Boolean,
            DataType::Int8 => TypeShape::Int8,
            DataType::Int16 => TypeShape::Int16,
            DataType::Int32 => TypeShape::Int32,
            DataType::Int64 => TypeShape::Int64,
            DataType::UInt8 => TypeShape::UInt8,
            DataType::UInt16 => TypeShape::UInt16,
            DataType::UInt32 => TypeShape::UInt32,
            DataType::UInt64 => TypeShape::UInt64,
            DataType::Float16 => TypeShape::Float16,
            DataType::Float32 => TypeShape::Float32,
            DataType::Float64 => TypeShape::Float64,
            DataType::Date32 => TypeShape::Date32,
            DataType::Date64 => TypeShape::Date64,
            DataType::Binary => TypeShape::Binary,
            DataType::LargeBinary => TypeShape::LargeBinary,
            DataType::Utf8 => TypeShape::Utf8,
            DataType::LargeUtf8 => TypeShape::LargeUtf8,
            DataType::Utf8View => TypeShape::Utf8View,
            DataType::Dictionary(k, v) => TypeShape::Dictionary(Box::new(k.shape()), Box::new(v.shape())),
            DataType::Other { name, numeric } => TypeShape::Other { name: name@, numeric },
        }
    }

    /// The name that the type is shown under.
    pub fn name(&self) -> (r: String)
        ensures
            r@ == type_label(self.shape()),
        decreases self,
    {
        match self {
            DataType::Null => "Null".to_owned(),
            DataType::Boolean => "Boolean".to_owned(),
            DataType::Int8 => "Int8".to_owned(),
            DataType::Int16 => "Int16".to_owned(),
            DataType::Int32 => "Int32".to_owned(),
            DataType::Int64 => "Int64".to_owned(),
            DataType::UInt8 => "UInt8".to_owned(),
            DataType::UInt16 => "UInt16".to_owned(),
            DataType::UInt32 => "UInt32".to_owned(),
            DataType::UInt64 => "UInt64".to_owned(),
            DataType::Float16 => "Float16".to_owned(),
            DataType::Float32 => "Float32".to_owned(),
            DataType::Float64 => "Float64".to_owned(),
            DataType::Date32 => "Date32".to_owned(),
            DataType::Date64 => "Date64".to_owned(),
            DataType::Binary => "Binary".to_owned(),
            DataType::LargeBinary => "LargeBinary".to_owned(),
            DataType::Utf8 => "Utf8".to_owned(),
            DataType::LargeUtf8 => "LargeUtf8".to_owned(),
            DataType::Utf8View => "Utf8View".to_owned(),
            DataType::Dictionary(k, v) => {
                let mut s = "Dictionary(".to_owned();
                s.append(k.name().as_str());
                s.append(", ");
                s.append(v.name().as_str());
                s.append(")");
                s
            },
            DataType::Other { name, .. } => name.clone(),
        }
    }

    /// True for integers, floats and decimals.
    pub fn is_numeric(&self) -> (r: bool)
        ensures
            r == is_numeric_type(self.shape()),
    {
        match self {
            DataType::Int8 | DataType::Int16 | DataType::Int32 | DataType::Int64 => true,
            DataType::UInt8 | DataType::UInt16 | DataType::UInt32 | DataType::UInt64 => true,
            DataType::Float16 | DataType::Float32 | DataType::Float64 => true,
            DataType::Other { numeric, .. } => *numeric,
            _ => false,
        }
    }

    /// True where two types are the same.
    pub fn same(&self, other: &DataType) -> (r: bool)
        ensures
            r == (self.shape() == other.shape()),
        decreases self,
    {
        match (self, other) {
            (DataType::Dictionary(k, v), DataType::Dictionary(l, w)) => k.same(l) && v.same(w),
            (
                DataType::Other { name, numeric },
                DataType::Other { name: other_name, numeric: other_numeric },
            ) => *name == *other_name && *numeric == *other_numeric,
            (DataType::Null, DataType::Null) => true,
            (DataType::Boolean, DataType::Boolean) => true,
            (DataType::Int8, DataType::Int8) => true,
            (DataType::Int16, DataType::Int16) => true,
            (DataType::Int32, DataType::Int32) => true,
            (DataType::Int64, DataType::Int64) => true,
            (DataType::UInt8, DataType::UInt8) => true,
            (DataType::UInt16, DataType::UInt16) => true,
            (DataType::UInt32, DataType::UInt32) => true,
            (DataType::UInt64, DataType::UInt64) => true,
            (DataType::Float16, DataType::Float16) => true,
            (DataType::Float32, DataType::Float32) => true,
            (DataType::Float64, DataType::Float64) => true,
            (DataType::Date32, DataType::Date32) => true,
            (DataType::Date64, DataType::Date64) => true,
            (DataType::Binary, DataType::Binary) => true,
            (DataType::LargeBinary, DataType::LargeBinary) => true,
            (DataType::Utf8, DataType::Utf8) => true,
            (DataType::LargeUtf8, DataType::LargeUtf8) => true,
            (DataType::Utf8View, DataType::Utf8View) => true,
            _ => false,
        }
    }
}

impl Clone for DataType {
    fn clone(&self) -> (r: Self)
        ensures
            r.shape() == self.shape(),
        decreases self,
    {
        match self {
            DataType::Null => DataType::Null,
            DataType::Boolean => DataType::Boolean,
            DataType::Int8 => DataType::Int8,
            DataType::Int16 => DataType::Int16,
            DataType::Int32 => DataType::Int32,
            DataType::Int64 => DataType::Int64,
            DataType::UInt8 => DataType::UInt8,
            DataType::UInt16 => DataType::UInt16,
            DataType::UInt32 => DataType::UInt32,
            DataType::UInt64 => DataType::UInt64,
            DataType::Float16 => DataType::Float16,
            DataType::Float32 => DataType::Float32,
            DataType::Float64 => DataType::Float64,
            DataType::Date32 => DataType::Date32,
            DataType::Date64 => DataType::Date64,
            DataType::Binary => DataType::Binary,
            DataType::LargeBinary => DataType::LargeBinary,
            DataType::Utf8 => DataType::Utf8,
            DataType::LargeUtf8 => DataType::LargeUtf8,
            DataType::Utf8View => DataType::Utf8View,
            DataType::Dictionary(k, v) => {
                let key = (**k).clone();
                let value = (**v).clone();
                DataType::Dictionary(Box::new(key), Box::new(value))
            },
            DataType::Other { name, numeric } => DataType::Other {
                name: name.clone(),
                numeric: *numeric,
            },
        }
    }
}

/// The type of the values: for a dictionary, that of what it looks up.
pub open spec fn base_shape(t: TypeShape) -> TypeShape {
    match t {
        TypeShape::Dictionary(_, v) => *v,
        _ => t,
    }
}

/// The type of the values: for a dictionary, that of what it looks up.
pub fn base_type(t: &DataType) -> (r: DataType)
    ensures
        r.shape() == base_shape(t.shape()),
{
    match t {
        DataType::Dictionary(_, v) => (**v).clone(),
        _ => t.clone(),
    }
}

/// A column of a table: its name and type.
#[derive(Debug)]
pub struct Field {
    pub name: String,
    pub data_type: DataType,
}

/// A column as its name and type.
pub struct FieldShape {
    pub name: Seq<char>,
    pub data_type: TypeShape,
}

impl View for Field {
    type V = FieldShape;

    open spec fn view(&self) -> FieldShape {
        FieldShape { name: self.name@, data_type: self.data_type.shape() }
    }
}

impl Clone for Field {
    fn clone(&self) -> (r: Self)
        ensures
            r@ == self@,
    {
        Field { name: self.name.clone(), data_type: self.data_type.clone() }
    }
}

/// The columns of a table, in order.
#[derive(Debug)]
pub struct Schema {
    pub fields: Vec<Field>,
}

impl View for Schema {
    type V = Seq<FieldShape>;

    open spec fn view(&self) -> Seq<FieldShape> {
        self.fields@.map_values(|f: Field| f@)
    }
}

/// The names of columns.
pub open spec fn names(fields: Seq<FieldShape>) -> Seq<Seq<char>> {
    fields.map_values(|f: FieldShape| f.name)
}

/// The first column of a name, or the number of columns.
pub open spec fn column(fields: Seq<FieldShape>, name: Seq<char>) -> int {
    place(names(fields), name)
}

/// True where a schema has a column of that name.
pub open spec fn has_column(fields: Seq<FieldShape>, name: Seq<char>) -> bool {
    column(fields, name) < fields.len()
}

impl Clone for Schema {
    fn clone(&self) -> (r: Self)
        ensures
            r@ == self@,
    {
        let mut fields: Vec<Field> = Vec::new();
        for i in 0..self.fields.len()
            invariant
                fields.len() == i,
                forall|j: int| 0 <= j < i ==> fields@[j]@ == self.fields@[j]@,
        {
            fields.push(self.fields[i].clone());
        }
        let r = Schema { fields };
        assert(r@ =~= self@);
        r
    }
}

impl Schema {
    /// The first column of that name.
    pub fn index_of(&self, name: &str) -> (r: Option<usize>)
        ensures
            match r {
                Some(i) => i == column(self@, name@) && i < self.fields.len(),
                None => !has_column(self@, name@),
            },
            r is Some <==> has_column(self@, name@),
    {
        let wanted = name.to_owned();
        for i in 0..self.fields.len()
            invariant
                wanted@ == name@,
                forall|j: int| 0 <= j < i ==> names(self@)[j] != name@,
        {
            if self.fields[i].name == wanted {
                proof {
                    lemma_place_is(names(self@), name@, i as int);
                }
                return Some(i);
            }
        }
        proof {
            lemma_place_is(names(self@), name@, self.fields@.len() as int);
        }
        None
    }
}

/// What the first column of a name is.
pub proof fn lemma_column(fields: Seq<FieldShape>, name: Seq<char>)
    ensures
        0 <= column(fields, name) <= fields.len(),
        has_column(fields, name) <==> names(fields).contains(name),
        has_column(fields, name) ==> fields[column(fields, name)].name == name,
{
    lemma_place(names(fields), name);
}

/// The first of the wanted names that a schema has no column for.
pub open spec fn first_missing(fields: Seq<FieldShape>, wanted: Seq<Seq<char>>) -> Option<Seq<char>>
    decreases wanted.len(),
{
    if wanted.len() == 0 {
        None
    } else if !has_column(fields, wanted[0]) {
        Some(wanted[0])
    } else {
        first_missing(fields, wanted.drop_first())
    }
}

/// Where the wanted columns are.
pub open spec fn places(fields: Seq<FieldShape>, wanted: Seq<Seq<char>>) -> Seq<usize> {
    wanted.map_values(|name: Seq<char>| column(fields, name) as usize)
}

/// What the first missing name is.
pub proof fn lemma_first_missing(fields: Seq<FieldShape>, wanted: Seq<Seq<char>>, i: int)
    requires
        0 <= i <= wanted.len(),
        forall|j: int| 0 <= j < i ==> has_column(fields, #[trigger] wanted[j]),
    ensures
        i == wanted.len() ==> first_missing(fields, wanted) is None,
        i < wanted.len() && !has_column(fields, wanted[i]) ==> first_missing(fields, wanted) == Some(
            wanted[i],
        ),
    decreases i,
{
    if i > 0 {
        let rest = wanted.drop_first();
        assert forall|j: int| 0 <= j < i - 1 implies has_column(fields, #[trigger] rest[j]) by {
            assert(rest[j] == wanted[j + 1]);
        }
        lemma_first_missing(fields, rest, i - 1);
        assert(has_column(fields, wanted[0]));
    }
}

impl Schema {
    /// Finds columns by name.
    pub fn indices_of(&self, wanted: &Vec<String>) -> (r: Result<Vec<usize>, Error>)
        ensures
            match r {
                Ok(idx) => {
                    &&& first_missing(self@, views(wanted@)) is None
                    &&& idx@ == places(self@, views(wanted@))
                    &&& forall|i: int| 0 <= i < idx@.len() ==> #[trigger] idx@[i] < self.fields.len()
                    &&& forall|i: int|
                        0 <= i < idx@.len() ==> #[trigger] idx@[i] == column(self@, wanted@[i]@)
                },
                Err(e) => first_missing(self@, views(wanted@)) matches Some(name) && e@
                    == (ErrorView::MissingColumn { column: name }),
            },
    {
        let ghost names = views(wanted@);
        let mut idx: Vec<usize> = Vec::new();
        for i in 0..wanted.len()
            invariant
                names == views(wanted@),
                idx.len() == i,
                forall|j: int| 0 <= j < i ==> has_column(self@, #[trigger] names[j]),
                forall|j: int|
                    0 <= j < i ==> #[trigger] idx@[j] == column(self@, wanted@[j]@) && idx@[j]
                        < self.fields.len(),
        {
            assert(names[i as int] == wanted@[i as int]@);
            match self.index_of(wanted[i].as_str()) {
                Some(c) => idx.push(c),
                None => {
                    proof {
                        lemma_first_missing(self@, names, i as int);
                    }
                    return Err(Error::MissingColumn { column: wanted[i].clone() });
                },
            }
        }
        proof {
            lemma_first_missing(self@, names, names.len() as int);
            assert forall|i: int| 0 <= i < idx@.len() implies idx@[i] == places(self@, names)[i] by {
                assert(names[i] == wanted@[i]@);
            }
            assert(idx@ =~= places(self@, names));
        }
        Ok(idx)
    }
}

/// The first name that its side has no column for, among columns that are
/// wanted on both sides under two names; the left name is looked up first.
pub open spec fn first_unshared(
    left: Seq<FieldShape>,
    right: Seq<FieldShape>,
    wanted: Seq<(Seq<char>, Seq<char>)>,
) -> Option<Seq<char>>
    decreases wanted.len(),
{
    if wanted.len() == 0 {
        None
    } else if !has_column(left, wanted[0].0) {
        Some(wanted[0].0)
    } else if !has_column(right, wanted[0].1) {
        Some(wanted[0].1)
    } else {
        first_unshared(left, right, wanted.drop_first())
    }
}

/// What the first such name is.
pub proof fn lemma_first_unshared(
    left: Seq<FieldShape>,
    right: Seq<FieldShape>,
    wanted: Seq<(Seq<char>, Seq<char>)>,
    i: int,
)
    requires
        0 <= i <= wanted.len(),
        forall|j: int|
            0 <= j < i ==> has_column(left, (#[trigger] wanted[j]).0) && has_column(right, wanted[j].1),
    ensures
        i == wanted.len() ==> first_unshared(left, right, wanted) is None,
        i < wanted.len() && !has_column(left, wanted[i].0) ==> first_unshared(left, right, wanted)
            == Some(wanted[i].0),
        i < wanted.len() && has_column(left, wanted[i].0) && !has_column(right, wanted[i].1)
            ==> first_unshared(left, right, wanted) == Some(wanted[i].1),
    decreases i,
{
    if i > 0 {
        let rest = wanted.drop_first();
        assert forall|j: int| 0 <= j < i - 1 implies has_column(left, (#[trigger] rest[j]).0)
            && has_column(right, rest[j].1) by {
            assert(rest[j] == wanted[j + 1]);
        }
        lemma_first_unshared(left, right, rest, i - 1);
        assert(has_column(left, wanted[0].0));
    }
}

/// Where no name is missing, every column is there.
pub proof fn lemma_all_shared(
    left: Seq<FieldShape>,
    right: Seq<FieldShape>,
    wanted: Seq<(Seq<char>, Seq<char>)>,
    i: int,
)
    requires
        first_unshared(left, right, wanted) is None,
        0 <= i < wanted.len(),
    ensures
        has_column(left, wanted[i].0),
        has_column(right, wanted[i].1),
    decreases i,
{
    if i > 0 {
        lemma_all_shared(left, right, wanted.drop_first(), i - 1);
    }
}

} // verus!
