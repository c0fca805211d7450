//! The tagged-index data model: one flat table per kind of type, with all
//! cross-references expressed as a kind plus an index into that kind's table.
//!
//! Every reference also memoizes the referent's size and copyability at
//! resolution time (`TypeData`), so that layout queries never have to chase
//! references at run time.

use vstd::prelude::*;

verus! {

/// The kind of a type reference: selects which table of the schema the
/// accompanying index points into.
#[derive(Clone, Copy, PartialEq, Eq, Structural, Debug)]
pub enum Type {
    Primitive,
    Data,
    Enum,
    Union,
    Array,
    Vector,
    Pointer,
    String,
    Function,
}

/// A resolved type reference: `(kind, index)` into the table for that kind,
/// plus the size and copyability memoized at resolution time.
#[derive(Clone, Copy, PartialEq, Eq, Structural, Debug)]
pub struct TypeData {
    pub index: usize,
    pub kind: Type,
    pub size: usize,
    pub is_copy: bool,
}

impl TypeData {
    pub fn new(index: usize, kind: Type, size: usize, is_copy: bool) -> (r: Self)
        ensures
            r == (TypeData { index, kind, size, is_copy }),
    {
        TypeData { index, kind, size, is_copy }
    }
}

/// The reference a struct's field makes to the type currently being defined:
/// size and copyability cannot be known yet, so they are fixed at zero and
/// not-copyable.
pub open spec fn self_reference(kind: Type, index: usize) -> TypeData {
    TypeData { index, kind, size: 0, is_copy: false }
}

/// A named member of a struct. `offset` and `padding_size` are populated by
/// the layout engine after all declarations are registered.
#[derive(Clone, Debug)]
pub struct Field {
    pub name: String,
    pub type_data: TypeData,
    pub offset: usize,
    pub padding_size: usize,
}

/// Ghost image of a `Field`.
#[verifier::ext_equal]
pub ghost struct FieldV {
    pub name: Seq<char>,
    pub type_data: TypeData,
    pub offset: usize,
    pub padding_size: usize,
}

impl View for Field {
    type V = FieldV;

    open spec fn view(&self) -> FieldV {
        FieldV {
            name: self.name@,
            type_data: self.type_data,
            offset: self.offset,
            padding_size: self.padding_size,
        }
    }
}

/// The ghost image of a sequence of fields.
pub open spec fn fields_view(v: Seq<Field>) -> Seq<FieldV> {
    v.map_values(|f: Field| f@)
}

impl Field {
    pub fn new(name: &str, type_data: TypeData, offset: usize, padding_size: usize) -> (r: Self)
        ensures
            r@ == (FieldV { name: name@, type_data, offset, padding_size }),
    {
        Field { name: name.to_owned(), type_data, offset, padding_size }
    }

    /// A field of the first primitive type with everything else zeroed, to be
    /// filled in as parsing proceeds.
    pub fn default_with_name(name: &str) -> (r: Self)
        ensures
            r@ == (FieldV {
                name: name@,
                type_data: TypeData { index: 0, kind: Type::Primitive, size: 1, is_copy: true },
                offset: 0,
                padding_size: 0,
            }),
    {
        Field {
            name: name.to_owned(),
            type_data: TypeData { index: 0, kind: Type::Primitive, size: 1, is_copy: true },
            offset: 0,
            padding_size: 0,
        }
    }
}

/// A struct declaration: named, ordered fields, plus opaque attributes for
/// generator consumption.
#[derive(Clone, Debug)]
pub struct DataType {
    pub name: String,
    pub fields: Vec<Field>,
    pub attributes: Vec<(String, String)>,
}

/// Ghost image of a `DataType`.
#[verifier::ext_equal]
pub ghost struct DataTypeV {
    pub name: Seq<char>,
    pub fields: Seq<FieldV>,
    pub attributes: Seq<(Seq<char>, Seq<char>)>,
}

/// The ghost image of a sequence of attribute pairs.
pub open spec fn attributes_view(v: Seq<(String, String)>) -> Seq<(Seq<char>, Seq<char>)> {
    v.map_values(|a: (String, String)| (a.0@, a.1@))
}

impl View for DataType {
    type V = DataTypeV;

    open spec fn view(&self) -> DataTypeV {
        DataTypeV {
            name: self.name@,
            fields: fields_view(self.fields@),
            attributes: attributes_view(self.attributes@),
        }
    }
}

impl DataType {
    /// An empty struct with the given name; fields are appended as parsed.
    pub fn default_with_name(name: &str) -> (r: Self)
        ensures
            r@ == (DataTypeV {
                name: name@,
                fields: Seq::<FieldV>::empty(),
                attributes: Seq::<(Seq<char>, Seq<char>)>::empty(),
            }),
    {
        let r = DataType { name: name.to_owned(), fields: Vec::new(), attributes: Vec::new() };
        proof {
            assert(r@.fields =~= Seq::<FieldV>::empty());
            assert(r@.attributes =~= Seq::<(Seq<char>, Seq<char>)>::empty());
        }
        r
    }

    pub fn from_fields(name: &str, fields: Vec<Field>) -> (r: Self)
        ensures
            r@ == (DataTypeV {
                name: name@,
                fields: fields_view(fields@),
                attributes: Seq::<(Seq<char>, Seq<char>)>::empty(),
            }),
    {
        let r = DataType { name: name.to_owned(), fields, attributes: Vec::new() };
        proof {
            assert(r@.attributes =~= Seq::<(Seq<char>, Seq<char>)>::empty());
        }
        r
    }
}

/// An enumeration: a list of variant names. Its runtime representation is a
/// four-byte signed integer whose value is the variant's declaration order.
#[derive(Clone, Debug)]
pub struct EnumType {
    pub name: String,
    pub variants: Vec<String>,
    pub attributes: Vec<(String, String)>,
}

/// Ghost image of an `EnumType`.
#[verifier::ext_equal]
pub ghost struct EnumTypeV {
    pub name: Seq<char>,
    pub variants: Seq<Seq<char>>,
    pub attributes: Seq<(Seq<char>, Seq<char>)>,
}

/// The ghost image of a sequence of variant names.
pub open spec fn names_view(v: Seq<String>) -> Seq<Seq<char>> {
    v.map_values(|n: String| n@)
}

impl View for EnumType {
    type V = EnumTypeV;

    open spec fn view(&self) -> EnumTypeV {
        EnumTypeV {
            name: self.name@,
            variants: names_view(self.variants@),
            attributes: attributes_view(self.attributes@),
        }
    }
}

impl EnumType {
    pub fn new(name: &str, variants: Vec<String>, attributes: Vec<(String, String)>) -> (r: Self)
        ensures
            r@ == (EnumTypeV {
                name: name@,
                variants: names_view(variants@),
                attributes: attributes_view(attributes@),
            }),
    {
        EnumType { name: name.to_owned(), variants, attributes }
    }

    pub fn default_with_name(name: &str) -> (r: Self)
        ensures
            r@ == (EnumTypeV {
                name: name@,
                variants: Seq::<Seq<char>>::empty(),
                attributes: Seq::<(Seq<char>, Seq<char>)>::empty(),
            }),
    {
        let r = EnumType { name: name.to_owned(), variants: Vec::new(), attributes: Vec::new() };
        proof {
            assert(r@.variants =~= Seq::<Seq<char>>::empty());
            assert(r@.attributes =~= Seq::<(Seq<char>, Seq<char>)>::empty());
        }
        r
    }

    /// The size of every enumeration: one four-byte signed integer.
    pub fn size() -> (r: usize)
        ensures
            r == 4,
    {
        4
    }

    /// The alignment of every enumeration.
    pub fn align() -> (r: usize)
        ensures
            r == 4,
    {
        4
    }
}

/// A tagged union: a four-byte discriminant plus a byte region sized to the
/// largest member type.
#[derive(Clone, Debug)]
pub struct UnionType {
    pub name: String,
    pub possible_types: Vec<TypeData>,
    pub attributes: Vec<(String, String)>,
}

/// Ghost image of a `UnionType`.
#[verifier::ext_equal]
pub ghost struct UnionTypeV {
    pub name: Seq<char>,
    pub possible_types: Seq<TypeData>,
    pub attributes: Seq<(Seq<char>, Seq<char>)>,
}

impl View for UnionType {
    type V = UnionTypeV;

    open spec fn view(&self) -> UnionTypeV {
        UnionTypeV {
            name: self.name@,
            possible_types: self.possible_types@,
            attributes: attributes_view(self.attributes@),
        }
    }
}

impl UnionType {
    pub fn new(name: &str, possible_types: Vec<TypeData>, attributes: Vec<(String, String)>) -> (r: Self)
        ensures
            r@ == (UnionTypeV {
                name: name@,
                possible_types: possible_types@,
                attributes: attributes_view(attributes@),
            }),
    {
        UnionType { name: name.to_owned(), possible_types, attributes }
    }

    pub fn default_with_name(name: &str) -> (r: Self)
        ensures
            r@ == (UnionTypeV {
                name: name@,
                possible_types: Seq::<TypeData>::empty(),
                attributes: Seq::<(Seq<char>, Seq<char>)>::empty(),
            }),
    {
        let r = UnionType { name: name.to_owned(), possible_types: Vec::new(), attributes: Vec::new() };
        proof {
            assert(r@.possible_types =~= Seq::<TypeData>::empty());
            assert(r@.attributes =~= Seq::<(Seq<char>, Seq<char>)>::empty());
        }
        r
    }
}

/// A fixed-size inline repetition of `len` values of the inner type.
#[derive(Clone, Copy, PartialEq, Eq, Structural, Debug)]
pub struct ArrayType {
    pub inner: TypeData,
    pub len: usize,
}

impl ArrayType {
    pub fn new(inner: TypeData, len: usize) -> (r: Self)
        ensures
            r == (ArrayType { inner, len }),
    {
        ArrayType { inner, len }
    }
}

/// A heap-backed growable sequence, represented uniformly as a pointer plus
/// a 64-bit length and capacity: three machine words.
#[derive(Clone, Copy, PartialEq, Eq, Structural, Debug)]
pub struct VectorType {
    pub inner: TypeData,
}

impl VectorType {
    pub fn new(inner: TypeData) -> (r: Self)
        ensures
            r == (VectorType { inner }),
    {
        VectorType { inner }
    }

    /// The size of every vector value: pointer, length and capacity.
    pub fn size() -> (r: usize)
        ensures
            r == 24,
    {
        24
    }

    /// A vector owns heap memory and is therefore never trivially copyable.
    pub fn is_copy() -> (r: bool)
        ensures
            r == false,
    {
        false
    }
}

/// One machine word referring to a value of the inner type.
#[derive(Clone, Copy, PartialEq, Eq, Structural, Debug)]
pub struct PointerType {
    pub inner: TypeData,
}

impl PointerType {
    pub fn new(inner: TypeData) -> (r: Self)
        ensures
            r == (PointerType { inner }),
    {
        PointerType { inner }
    }

    /// The size of every pointer value: one machine word.
    pub fn size() -> (r: usize)
        ensures
            r == 8,
    {
        8
    }
}

/// A named argument of a function signature.
#[derive(Clone, Debug)]
pub struct Arg {
    pub name: String,
    pub type_data: Option<TypeData>,
}

/// Ghost image of an `Arg`.
#[verifier::ext_equal]
pub ghost struct ArgV {
    pub name: Seq<char>,
    pub type_data: Option<TypeData>,
}

impl View for Arg {
    type V = ArgV;

    open spec fn view(&self) -> ArgV {
        ArgV { name: self.name@, type_data: self.type_data }
    }
}

/// The ghost image of a sequence of arguments.
pub open spec fn args_view(v: Seq<Arg>) -> Seq<ArgV> {
    v.map_values(|a: Arg| a@)
}

impl Arg {
    pub fn new(name: String, type_data: Option<TypeData>) -> (r: Self)
        ensures
            r@ == (ArgV { name: name@, type_data }),
    {
        Arg { name, type_data }
    }
}

/// A callable signature's shape, for cross-language function-pointer
/// typedefs. Sized as one machine word.
#[derive(Clone, Debug)]
pub struct FunctionType {
    pub name: String,
    pub args: Vec<Arg>,
    pub return_type: Option<TypeData>,
}

/// Ghost image of a `FunctionType`.
#[verifier::ext_equal]
pub ghost struct FunctionTypeV {
    pub name: Seq<char>,
    pub args: Seq<ArgV>,
    pub return_type: Option<TypeData>,
}

impl View for FunctionType {
    type V = FunctionTypeV;

    open spec fn view(&self) -> FunctionTypeV {
        FunctionTypeV {
            name: self.name@,
            args: args_view(self.args@),
            return_type: self.return_type,
        }
    }
}

impl FunctionType {
    pub fn new(name: String, args: Vec<Arg>, return_type: Option<TypeData>) -> (r: Self)
        ensures
            r@ == (FunctionTypeV { name: name@, args: args_view(args@), return_type }),
    {
        FunctionType { name, args, return_type }
    }

    pub fn default_with_name(name: &str) -> (r: Self)
        ensures
            r@ == (FunctionTypeV {
                name: name@,
                args: Seq::<ArgV>::empty(),
                return_type: None,
            }),
    {
        let r = FunctionType { name: name.to_owned(), args: Vec::new(), return_type: None };
        proof {
            assert(r@.args =~= Seq::<ArgV>::empty());
        }
        r
    }

    /// The size of every function value: one machine word, a code pointer.
    pub fn size() -> (r: usize)
        ensures
            r == 8,
    {
        8
    }
}

} // verus!
