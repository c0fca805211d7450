//! The aggregate root: one flat table per kind of type, a packedness flag,
//! and the read queries used by the resolver, the layout engine and the
//! code generators.

use vstd::prelude::*;

use crate::primitives::{spec_primitive_align, spec_primitive_size, primitive_count};
use crate::types::{
    ArrayType, DataType, DataTypeV, EnumType, EnumTypeV, FieldV, FunctionType, FunctionTypeV,
    PointerType, Type, TypeData, UnionType, UnionTypeV, VectorType, fields_view,
};

verus! {

/// The schema: seven independent tables plus the layout policy flag.
#[derive(Debug)]
pub struct Schema {
    pub is_packed: bool,
    pub types: Vec<DataType>,
    pub enums: Vec<EnumType>,
    pub unions: Vec<UnionType>,
    pub arrays: Vec<ArrayType>,
    pub pointers: Vec<PointerType>,
    pub vectors: Vec<VectorType>,
    pub functions: Vec<FunctionType>,
}

/// Ghost image of a `Schema`.
#[verifier::ext_equal]
pub ghost struct SchemaV {
    pub is_packed: bool,
    pub types: Seq<DataTypeV>,
    pub enums: Seq<EnumTypeV>,
    pub unions: Seq<UnionTypeV>,
    pub arrays: Seq<ArrayType>,
    pub pointers: Seq<PointerType>,
    pub vectors: Seq<VectorType>,
    pub functions: Seq<FunctionTypeV>,
}

pub open spec fn data_types_view(v: Seq<DataType>) -> Seq<DataTypeV> {
    v.map_values(|d: DataType| d@)
}

pub open spec fn enum_types_view(v: Seq<EnumType>) -> Seq<EnumTypeV> {
    v.map_values(|e: EnumType| e@)
}

pub open spec fn union_types_view(v: Seq<UnionType>) -> Seq<UnionTypeV> {
    v.map_values(|u: UnionType| u@)
}

pub open spec fn function_types_view(v: Seq<FunctionType>) -> Seq<FunctionTypeV> {
    v.map_values(|f: FunctionType| f@)
}

impl View for Schema {
    type V = SchemaV;

    open spec fn view(&self) -> SchemaV {
        SchemaV {
            is_packed: self.is_packed,
            types: data_types_view(self.types@),
            enums: enum_types_view(self.enums@),
            unions: union_types_view(self.unions@),
            arrays: self.arrays@,
            pointers: self.pointers@,
            vectors: self.vectors@,
            functions: function_types_view(self.functions@),
        }
    }
}

// ---------------------------------------------------------------------------
// Reference validity and the size model
// ---------------------------------------------------------------------------

/// Does `(kind, index)` point at an existing entry? A `String` reference
/// carries no index of its own (it is the vector-of-byte sentinel).
pub open spec fn valid_ref(s: SchemaV, kind: Type, index: int) -> bool {
    match kind {
        Type::Primitive => 0 <= index < primitive_count(),
        Type::Data => 0 <= index < s.types.len(),
        Type::Enum => 0 <= index < s.enums.len(),
        Type::Union => 0 <= index < s.unions.len(),
        Type::Array => 0 <= index < s.arrays.len(),
        Type::Vector => 0 <= index < s.vectors.len(),
        Type::Pointer => 0 <= index < s.pointers.len(),
        Type::String => true,
        Type::Function => 0 <= index < s.functions.len(),
    }
}

/// A memoized reference whose referent's size could not be known when it was
/// produced: the zero-sized, non-copyable marker used for a type that refers
/// to itself while still being defined.
pub open spec fn stub_like(td: TypeData) -> bool {
    td.size == 0 && !td.is_copy
        && (td.kind == Type::Data || td.kind == Type::Union || td.kind == Type::Function)
}

/// Is the field a reference from struct `i` to struct `i` itself?
pub open spec fn is_self_field(f: FieldV, i: int) -> bool {
    f.type_data.kind == Type::Data && f.type_data.index == i && stub_like(f.type_data)
}

/// The sum of the memoized sizes of all fields that are not self-references.
pub open spec fn sum_nonself(fields: Seq<FieldV>, i: int) -> int
    decreases fields.len(),
{
    if fields.len() == 0 {
        0
    } else {
        sum_nonself(fields.drop_last(), i)
            + if is_self_field(fields.last(), i) { 0int } else { fields.last().type_data.size as int }
    }
}

/// How many fields are self-references.
pub open spec fn count_self(fields: Seq<FieldV>, i: int) -> int
    decreases fields.len(),
{
    if fields.len() == 0 {
        0
    } else {
        count_self(fields.drop_last(), i) + if is_self_field(fields.last(), i) { 1int } else { 0int }
    }
}

/// A struct's size: the bytes of its non-self fields, repeated once more for
/// each self-referential field (the flattening rule for self-embedding).
pub open spec fn data_size(s: SchemaV, i: int) -> int {
    sum_nonself(s.types[i].fields, i) * (1 + count_self(s.types[i].fields, i))
}

/// The size of the type at `(kind, index)` as the schema reports it once
/// layouts exist, walking references with the given fuel: a struct's
/// reported size is the sum, over its non-self fields, of the field type's
/// reported size plus the padding the layout engine recorded before the
/// field, repeated once more for each self-referential field; a union's is
/// four tag bytes plus its largest member's reported size; an array's is
/// its element's reported size times its length. Zero-sized self markers
/// are leaves contributing nothing. Before the layout engine runs, all
/// padding is zero and this coincides with the memoized sizes.
pub open spec fn padded_size_fueled(s: SchemaV, kind: Type, index: int, fuel: nat) -> int
    decreases fuel, 0nat,
{
    if fuel == 0 {
        0
    } else {
        match kind {
            Type::Primitive => spec_primitive_size(index) as int,
            Type::Enum => 4,
            Type::Vector | Type::String => 24,
            Type::Pointer => 8,
            Type::Function => 8,
            Type::Data => fields_padded_sum(s, s.types[index].fields, index, (fuel - 1) as nat)
                * (1 + count_self(s.types[index].fields, index)),
            Type::Union => 4 + tds_padded_max(s, s.unions[index].possible_types, (fuel - 1) as nat),
            Type::Array => {
                let inner = s.arrays[index].inner;
                padded_inner_size(s, inner, (fuel - 1) as nat) * s.arrays[index].len
            },
        }
    }
}

/// An inner reference's reported size; a zero-sized self marker reports
/// zero.
pub open spec fn padded_inner_size(s: SchemaV, td: TypeData, fuel: nat) -> int
    decreases fuel, 1nat,
{
    if stub_like(td) {
        0
    } else {
        padded_size_fueled(s, td.kind, td.index as int, fuel)
    }
}

/// The reported bytes of a struct's non-self fields: each field type's
/// reported size plus the recorded padding before the field.
pub open spec fn fields_padded_sum(s: SchemaV, fields: Seq<FieldV>, i: int, fuel: nat) -> int
    decreases fuel, 2nat, fields.len(),
{
    if fields.len() == 0 {
        0
    } else {
        fields_padded_sum(s, fields.drop_last(), i, fuel) + if is_self_field(fields.last(), i) {
            0int
        } else {
            padded_inner_size(s, fields.last().type_data, fuel)
                + fields.last().padding_size
        }
    }
}

/// The largest reported size among a union's members.
pub open spec fn tds_padded_max(s: SchemaV, tds: Seq<TypeData>, fuel: nat) -> int
    decreases fuel, 2nat, tds.len(),
{
    if tds.len() == 0 {
        0
    } else {
        let rest = tds_padded_max(s, tds.drop_last(), fuel);
        let v = padded_inner_size(s, tds.last(), fuel);
        if v > rest { v } else { rest }
    }
}

/// The reported size of the type at `(kind, index)`: the fueled walk, with
/// fuel enough for any chain the schema can hold.
pub open spec fn padded_size_of_ref(s: SchemaV, kind: Type, index: int) -> int {
    padded_size_fueled(s, kind, index, ref_budget(s))
}

/// The largest memoized size among a union's member types.
pub open spec fn max_size(tds: Seq<TypeData>) -> int
    decreases tds.len(),
{
    if tds.len() == 0 {
        0
    } else {
        let rest = max_size(tds.drop_last());
        if tds.last().size as int > rest { tds.last().size as int } else { rest }
    }
}

/// A union's size: a four-byte discriminant plus room for its largest member.
pub open spec fn union_size(u: UnionTypeV) -> int {
    4 + max_size(u.possible_types)
}

/// The size in bytes of the type at `(kind, index)`, read one level deep from
/// the memoized references stored in the tables.
pub open spec fn size_of_ref(s: SchemaV, kind: Type, index: int) -> int {
    match kind {
        Type::Primitive => spec_primitive_size(index) as int,
        Type::Data => data_size(s, index),
        Type::Enum => 4,
        Type::Union => union_size(s.unions[index]),
        Type::Array => s.arrays[index].inner.size * s.arrays[index].len,
        Type::Vector => 24,
        Type::Pointer => 8,
        Type::String => 24,
        Type::Function => 8,
    }
}

/// Are all fields' memoized references copyable?
pub open spec fn all_fields_copy(fields: Seq<FieldV>) -> bool {
    forall|j: int| 0 <= j < fields.len() ==> #[trigger] fields[j].type_data.is_copy
}

/// Are all of a union's member references copyable?
pub open spec fn all_tds_copy(tds: Seq<TypeData>) -> bool {
    forall|j: int| 0 <= j < tds.len() ==> #[trigger] tds[j].is_copy
}

/// Is the type at `(kind, index)` trivially copyable, read one level deep
/// from the memoized references stored in the tables?
pub open spec fn copy_of_ref(s: SchemaV, kind: Type, index: int) -> bool {
    match kind {
        Type::Primitive => true,
        Type::Data => all_fields_copy(s.types[index].fields),
        Type::Enum => true,
        Type::Union => all_tds_copy(s.unions[index].possible_types),
        Type::Array => s.arrays[index].inner.is_copy,
        Type::Vector => false,
        Type::Pointer => true,
        Type::String => false,
        Type::Function => true,
    }
}

/// A fully consistent memoized reference: it points at an existing entry and
/// carries exactly that entry's size and copyability.
pub open spec fn valid_td(s: SchemaV, td: TypeData) -> bool {
    valid_ref(s, td.kind, td.index as int)
        && td.size == size_of_ref(s, td.kind, td.index as int)
        && td.is_copy == copy_of_ref(s, td.kind, td.index as int)
}

/// A reference stored inside an interned composite: either fully consistent,
/// or the zero-sized self marker of an entry that does exist.
pub open spec fn inner_ok(s: SchemaV, td: TypeData) -> bool {
    valid_td(s, td) || (stub_like(td) && valid_ref(s, td.kind, td.index as int))
}

// ---------------------------------------------------------------------------
// Groundedness: every chain of references bottoms out
// ---------------------------------------------------------------------------

/// One more entry than the schema holds: enough fuel to walk any chain of
/// references, since every reference leads to an entry registered earlier.
pub open spec fn ref_budget(s: SchemaV) -> nat {
    (s.types.len() + s.enums.len() + s.unions.len() + s.arrays.len() + s.vectors.len()
        + s.pointers.len() + s.functions.len() + 1) as nat
}

/// Does every chain of references starting at `(kind, index)` bottom out
/// within `fuel` steps? Zero-sized self markers are leaves: they are never
/// walked through.
pub open spec fn depth_ok(s: SchemaV, kind: Type, index: int, fuel: nat) -> bool
    decreases fuel, 0nat,
{
    if fuel == 0 {
        false
    } else {
        valid_ref(s, kind, index) && match kind {
            Type::Primitive | Type::Enum | Type::String => true,
            Type::Data => fields_depth_ok(s, s.types[index].fields, (fuel - 1) as nat),
            Type::Union => tds_depth_ok(s, s.unions[index].possible_types, (fuel - 1) as nat),
            Type::Array => inner_depth_ok(s, s.arrays[index].inner, (fuel - 1) as nat),
            Type::Vector => inner_depth_ok(s, s.vectors[index].inner, (fuel - 1) as nat),
            Type::Pointer => inner_depth_ok(s, s.pointers[index].inner, (fuel - 1) as nat),
            Type::Function => args_depth_ok(s, s.functions[index].args, (fuel - 1) as nat)
                && match s.functions[index].return_type {
                    Some(td) => inner_depth_ok(s, td, (fuel - 1) as nat),
                    None => true,
                },
        }
    }
}

pub open spec fn inner_depth_ok(s: SchemaV, td: TypeData, fuel: nat) -> bool
    decreases fuel, 1nat,
{
    stub_like(td) || depth_ok(s, td.kind, td.index as int, fuel)
}

pub open spec fn fields_depth_ok(s: SchemaV, fields: Seq<FieldV>, fuel: nat) -> bool
    decreases fuel, 2nat,
{
    forall|j: int| 0 <= j < fields.len() ==> inner_depth_ok(s, #[trigger] fields[j].type_data, fuel)
}

pub open spec fn tds_depth_ok(s: SchemaV, tds: Seq<TypeData>, fuel: nat) -> bool
    decreases fuel, 2nat,
{
    forall|j: int| 0 <= j < tds.len() ==> inner_depth_ok(s, #[trigger] tds[j], fuel)
}

pub open spec fn args_depth_ok(s: SchemaV, args: Seq<crate::types::ArgV>, fuel: nat) -> bool
    decreases fuel, 2nat,
{
    forall|j: int| 0 <= j < args.len() ==> match #[trigger] args[j].type_data {
        Some(td) => inner_depth_ok(s, td, fuel),
        None => true,
    }
}

// ---------------------------------------------------------------------------
// Alignment
// ---------------------------------------------------------------------------

/// The alignment of the type at `(kind, index)`, walking references with the
/// given fuel. Only structs, unions and arrays derive their alignment from
/// other entries; the walk is meaningful whenever `depth_ok` holds.
pub open spec fn align_of_ref_fueled(s: SchemaV, kind: Type, index: int, fuel: nat) -> int
    decreases fuel, 0nat,
{
    if fuel == 0 {
        1
    } else {
        match kind {
            Type::Primitive => spec_primitive_align(index) as int,
            Type::Enum => 4,
            Type::Vector | Type::String => 8,
            Type::Pointer => 8,
            Type::Function => 8,
            Type::Data => fields_align_max(s, s.types[index].fields, (fuel - 1) as nat),
            Type::Union => {
                let m = tds_align_max(s, s.unions[index].possible_types, (fuel - 1) as nat);
                if m > 4 { m } else { 4 }
            },
            Type::Array => {
                let inner = s.arrays[index].inner;
                if stub_like(inner) { 1 } else { align_of_ref_fueled(s, inner.kind, inner.index as int, (fuel - 1) as nat) }
            },
        }
    }
}

/// The largest alignment among a struct's fields, self markers skipped;
/// one for a struct with no other fields.
pub open spec fn fields_align_max(s: SchemaV, fields: Seq<FieldV>, fuel: nat) -> int
    decreases fuel, 1nat, fields.len(),
{
    if fields.len() == 0 {
        1
    } else {
        let rest = fields_align_max(s, fields.drop_last(), fuel);
        let td = fields.last().type_data;
        let a = if stub_like(td) { 1int } else { align_of_ref_fueled(s, td.kind, td.index as int, fuel) };
        if a > rest { a } else { rest }
    }
}

/// The largest alignment among a union's members, self markers skipped.
pub open spec fn tds_align_max(s: SchemaV, tds: Seq<TypeData>, fuel: nat) -> int
    decreases fuel, 1nat, tds.len(),
{
    if tds.len() == 0 {
        1
    } else {
        let rest = tds_align_max(s, tds.drop_last(), fuel);
        let td = tds.last();
        let a = if stub_like(td) { 1int } else { align_of_ref_fueled(s, td.kind, td.index as int, fuel) };
        if a > rest { a } else { rest }
    }
}

/// The alignment of the type at `(kind, index)`: the fueled walk, with fuel
/// enough for any chain the schema can hold.
pub open spec fn align_of_ref(s: SchemaV, kind: Type, index: int) -> int {
    align_of_ref_fueled(s, kind, index, ref_budget(s))
}

// ---------------------------------------------------------------------------
// Well-formedness
// ---------------------------------------------------------------------------

/// The shape of an interned array entry, for structural interning.
pub open spec fn array_shape(a: ArrayType) -> (Type, int, int) {
    (a.inner.kind, a.inner.index as int, a.len as int)
}

/// The shape of an interned vector entry.
pub open spec fn vector_shape(v: VectorType) -> (Type, int) {
    (v.inner.kind, v.inner.index as int)
}

/// The shape of an interned pointer entry.
pub open spec fn pointer_shape(p: PointerType) -> (Type, int) {
    (p.inner.kind, p.inner.index as int)
}

/// Every struct field is a consistent reference or this struct's own self
/// marker.
pub open spec fn wf_struct_fields(s: SchemaV) -> bool {
    forall|i: int, j: int| 0 <= i < s.types.len() && 0 <= j < s.types[i].fields.len()
        ==> valid_td(s, #[trigger] s.types[i].fields[j].type_data)
            || is_self_field(s.types[i].fields[j], i)
}

/// Every union has at least one member, and every member is a consistent
/// reference or the union's own self marker.
pub open spec fn wf_union_members(s: SchemaV) -> bool {
    forall|i: int| 0 <= i < s.unions.len() ==> (#[trigger] s.unions[i].possible_types).len() >= 1
        && forall|j: int| 0 <= j < s.unions[i].possible_types.len()
            ==> valid_td(s, #[trigger] s.unions[i].possible_types[j])
                || (stub_like(s.unions[i].possible_types[j])
                    && s.unions[i].possible_types[j].kind == Type::Union
                    && s.unions[i].possible_types[j].index == i)
}

/// Every interned array's computed size fits the machine.
pub open spec fn arrays_fit(s: SchemaV) -> bool {
    forall|i: int| 0 <= i < s.arrays.len()
        ==> (#[trigger] s.arrays[i]).inner.size * s.arrays[i].len <= usize::MAX
}

/// Every interned composite's inner reference exists.
pub open spec fn wf_composites(s: SchemaV) -> bool {
    &&& forall|i: int| 0 <= i < s.arrays.len() ==> inner_ok(s, (#[trigger] s.arrays[i]).inner)
    &&& forall|i: int| 0 <= i < s.vectors.len() ==> inner_ok(s, (#[trigger] s.vectors[i]).inner)
    &&& forall|i: int| 0 <= i < s.pointers.len() ==> inner_ok(s, (#[trigger] s.pointers[i]).inner)
}

/// Every function argument and return reference is consistent or the
/// function's own self marker.
pub open spec fn wf_function_refs(s: SchemaV) -> bool {
    forall|i: int| 0 <= i < s.functions.len() ==> {
        &&& forall|j: int| 0 <= j < (#[trigger] s.functions[i]).args.len()
            ==> match #[trigger] s.functions[i].args[j].type_data {
                Some(td) => valid_td(s, td)
                    || (stub_like(td) && td.kind == Type::Function && td.index == i),
                None => true,
            }
        &&& match s.functions[i].return_type {
            Some(td) => valid_td(s, td)
                || (stub_like(td) && td.kind == Type::Function && td.index == i),
            None => true,
        }
    }
}

/// Every computed size fits the machine.
pub open spec fn wf_sizes(s: SchemaV) -> bool {
    &&& forall|i: int| 0 <= i < s.types.len() ==> 0 <= #[trigger] data_size(s, i) <= usize::MAX
    &&& forall|i: int| 0 <= i < s.unions.len() ==> #[trigger] union_size(s.unions[i]) <= usize::MAX
}

/// Structural interning: no two entries of a composite table share a shape.
pub open spec fn wf_interned(s: SchemaV) -> bool {
    &&& forall|i: int, j: int| 0 <= i < j < s.arrays.len()
        ==> array_shape(#[trigger] s.arrays[i]) != array_shape(#[trigger] s.arrays[j])
    &&& forall|i: int, j: int| 0 <= i < j < s.vectors.len()
        ==> vector_shape(#[trigger] s.vectors[i]) != vector_shape(#[trigger] s.vectors[j])
    &&& forall|i: int, j: int| 0 <= i < j < s.pointers.len()
        ==> pointer_shape(#[trigger] s.pointers[i]) != pointer_shape(#[trigger] s.pointers[j])
}

/// Every entry's reference chains bottom out within the schema's budget.
pub open spec fn wf_grounded(s: SchemaV) -> bool {
    &&& forall|i: int| 0 <= i < s.types.len() ==> #[trigger] depth_ok(s, Type::Data, i, ref_budget(s))
    &&& forall|i: int| 0 <= i < s.unions.len() ==> #[trigger] depth_ok(s, Type::Union, i, ref_budget(s))
    &&& forall|i: int| 0 <= i < s.arrays.len() ==> #[trigger] depth_ok(s, Type::Array, i, ref_budget(s))
    &&& forall|i: int| 0 <= i < s.vectors.len() ==> #[trigger] depth_ok(s, Type::Vector, i, ref_budget(s))
    &&& forall|i: int| 0 <= i < s.pointers.len() ==> #[trigger] depth_ok(s, Type::Pointer, i, ref_budget(s))
    &&& forall|i: int| 0 <= i < s.functions.len() ==> #[trigger] depth_ok(s, Type::Function, i, ref_budget(s))
}

/// The schema's well-formedness invariant: established by the registry as it
/// builds the schema, preserved by the layout engine, relied on by every
/// query.
pub open spec fn wf_schema(s: SchemaV) -> bool {
    &&& wf_struct_fields(s)
    &&& wf_union_members(s)
    &&& wf_composites(s)
    &&& arrays_fit(s)
    &&& wf_function_refs(s)
    &&& wf_sizes(s)
    &&& wf_interned(s)
    &&& wf_grounded(s)
}

/// What the by-index queries rely on: sizes fit the machine, and every chain
/// of references bottoms out. Weaker than the full invariant, so the queries
/// serve the registry even while one definition is still open.
pub open spec fn wf_query(s: SchemaV) -> bool {
    &&& arrays_fit(s)
    &&& wf_sizes(s)
    &&& wf_grounded(s)
}

// ---------------------------------------------------------------------------
// Growth: the schema only ever gains entries, and what an existing entry
// means never changes
// ---------------------------------------------------------------------------

/// `a` is an initial segment of `b`.
pub open spec fn seq_extends<T>(a: Seq<T>, b: Seq<T>) -> bool {
    a.len() <= b.len() && forall|i: int| 0 <= i < a.len() ==> a[i] == b[i]
}

/// Every table of `b` begins with the corresponding table of `a`.
pub open spec fn schema_extends(a: SchemaV, b: SchemaV) -> bool {
    &&& seq_extends(a.types, b.types)
    &&& seq_extends(a.enums, b.enums)
    &&& seq_extends(a.unions, b.unions)
    &&& seq_extends(a.arrays, b.arrays)
    &&& seq_extends(a.vectors, b.vectors)
    &&& seq_extends(a.pointers, b.pointers)
    &&& seq_extends(a.functions, b.functions)
}

/// Growth composes.
pub proof fn lemma_schema_extends_trans(a: SchemaV, b: SchemaV, c: SchemaV)
    requires
        schema_extends(a, b),
        schema_extends(b, c),
    ensures
        schema_extends(a, c),
{
}

/// Growing the schema does not change the size or copyability of an entry
/// that was already there.
pub proof fn lemma_ref_extends(a: SchemaV, b: SchemaV, kind: Type, index: int)
    requires
        schema_extends(a, b),
        valid_ref(a, kind, index),
    ensures
        valid_ref(b, kind, index),
        size_of_ref(b, kind, index) == size_of_ref(a, kind, index),
        copy_of_ref(b, kind, index) == copy_of_ref(a, kind, index),
{
}

/// Growing the schema keeps every consistent reference consistent.
pub proof fn lemma_valid_td_extends(a: SchemaV, b: SchemaV, td: TypeData)
    requires
        schema_extends(a, b),
        valid_td(a, td),
    ensures
        valid_td(b, td),
{
    lemma_ref_extends(a, b, td.kind, td.index as int);
}

/// Growing the schema keeps every grounded entry grounded (at the same fuel).
pub proof fn lemma_depth_ok_extends(a: SchemaV, b: SchemaV, kind: Type, index: int, fuel: nat)
    requires
        schema_extends(a, b),
        depth_ok(a, kind, index, fuel),
    ensures
        depth_ok(b, kind, index, fuel),
    decreases fuel,
{
    match kind {
        Type::Primitive | Type::Enum | Type::String => {},
        Type::Data => {
            let fields = a.types[index].fields;
            assert(b.types[index] == a.types[index]);
            assert forall|j: int| 0 <= j < fields.len()
                implies inner_depth_ok(b, #[trigger] fields[j].type_data, (fuel - 1) as nat) by {
                let td = fields[j].type_data;
                assert(inner_depth_ok(a, td, (fuel - 1) as nat));
                if !stub_like(td) {
                    lemma_depth_ok_extends(a, b, td.kind, td.index as int, (fuel - 1) as nat);
                }
            }
        },
        Type::Union => {
            let tds = a.unions[index].possible_types;
            assert(b.unions[index] == a.unions[index]);
            assert forall|j: int| 0 <= j < tds.len()
                implies inner_depth_ok(b, #[trigger] tds[j], (fuel - 1) as nat) by {
                assert(inner_depth_ok(a, tds[j], (fuel - 1) as nat));
                if !stub_like(tds[j]) {
                    lemma_depth_ok_extends(a, b, tds[j].kind, tds[j].index as int, (fuel - 1) as nat);
                }
            }
        },
        Type::Array => {
            assert(b.arrays[index] == a.arrays[index]);
            let td = a.arrays[index].inner;
            if !stub_like(td) {
                lemma_depth_ok_extends(a, b, td.kind, td.index as int, (fuel - 1) as nat);
            }
        },
        Type::Vector => {
            assert(b.vectors[index] == a.vectors[index]);
            let td = a.vectors[index].inner;
            if !stub_like(td) {
                lemma_depth_ok_extends(a, b, td.kind, td.index as int, (fuel - 1) as nat);
            }
        },
        Type::Pointer => {
            assert(b.pointers[index] == a.pointers[index]);
            let td = a.pointers[index].inner;
            if !stub_like(td) {
                lemma_depth_ok_extends(a, b, td.kind, td.index as int, (fuel - 1) as nat);
            }
        },
        Type::Function => {
            let f = a.functions[index];
            assert(b.functions[index] == a.functions[index]);
            assert forall|j: int| 0 <= j < f.args.len()
                implies match #[trigger] f.args[j].type_data {
                    Some(td) => inner_depth_ok(b, td, (fuel - 1) as nat),
                    None => true,
                } by {
                match f.args[j].type_data {
                    Some(td) => {
                        assert(inner_depth_ok(a, td, (fuel - 1) as nat));
                        if !stub_like(td) {
                            lemma_depth_ok_extends(a, b, td.kind, td.index as int, (fuel - 1) as nat);
                        }
                    },
                    None => {},
                }
            }
            match f.return_type {
                Some(td) => {
                    if !stub_like(td) {
                        lemma_depth_ok_extends(a, b, td.kind, td.index as int, (fuel - 1) as nat);
                    }
                },
                None => {},
            }
        },
    }
}

/// Groundedness at some fuel implies groundedness at any larger fuel.
pub proof fn lemma_depth_ok_mono(s: SchemaV, kind: Type, index: int, f1: nat, f2: nat)
    requires
        depth_ok(s, kind, index, f1),
        f1 <= f2,
    ensures
        depth_ok(s, kind, index, f2),
    decreases f1,
{
    match kind {
        Type::Primitive | Type::Enum | Type::String => {},
        Type::Data => {
            let fields = s.types[index].fields;
            assert forall|j: int| 0 <= j < fields.len()
                implies inner_depth_ok(s, #[trigger] fields[j].type_data, (f2 - 1) as nat) by {
                let td = fields[j].type_data;
                assert(inner_depth_ok(s, td, (f1 - 1) as nat));
                if !stub_like(td) {
                    lemma_depth_ok_mono(s, td.kind, td.index as int, (f1 - 1) as nat, (f2 - 1) as nat);
                }
            }
        },
        Type::Union => {
            let tds = s.unions[index].possible_types;
            assert forall|j: int| 0 <= j < tds.len()
                implies inner_depth_ok(s, #[trigger] tds[j], (f2 - 1) as nat) by {
                assert(inner_depth_ok(s, tds[j], (f1 - 1) as nat));
                if !stub_like(tds[j]) {
                    lemma_depth_ok_mono(s, tds[j].kind, tds[j].index as int, (f1 - 1) as nat, (f2 - 1) as nat);
                }
            }
        },
        Type::Array => {
            let td = s.arrays[index].inner;
            if !stub_like(td) {
                lemma_depth_ok_mono(s, td.kind, td.index as int, (f1 - 1) as nat, (f2 - 1) as nat);
            }
        },
        Type::Vector => {
            let td = s.vectors[index].inner;
            if !stub_like(td) {
                lemma_depth_ok_mono(s, td.kind, td.index as int, (f1 - 1) as nat, (f2 - 1) as nat);
            }
        },
        Type::Pointer => {
            let td = s.pointers[index].inner;
            if !stub_like(td) {
                lemma_depth_ok_mono(s, td.kind, td.index as int, (f1 - 1) as nat, (f2 - 1) as nat);
            }
        },
        Type::Function => {
            let f = s.functions[index];
            assert forall|j: int| 0 <= j < f.args.len()
                implies match #[trigger] f.args[j].type_data {
                    Some(td) => inner_depth_ok(s, td, (f2 - 1) as nat),
                    None => true,
                } by {
                match f.args[j].type_data {
                    Some(td) => {
                        assert(inner_depth_ok(s, td, (f1 - 1) as nat));
                        if !stub_like(td) {
                            lemma_depth_ok_mono(s, td.kind, td.index as int, (f1 - 1) as nat, (f2 - 1) as nat);
                        }
                    },
                    None => {},
                }
            }
            match f.return_type {
                Some(td) => {
                    if !stub_like(td) {
                        lemma_depth_ok_mono(s, td.kind, td.index as int, (f1 - 1) as nat, (f2 - 1) as nat);
                    }
                },
                None => {},
            }
        },
    }
}

/// Alignment is between one and eight bytes, at any fuel.
pub proof fn lemma_align_bounds(s: SchemaV, kind: Type, index: int, fuel: nat)
    ensures
        1 <= align_of_ref_fueled(s, kind, index, fuel) <= 8,
    decreases fuel, 0nat,
{
    if fuel != 0 {
        match kind {
            Type::Data => {
                lemma_fields_align_bounds(s, s.types[index].fields, (fuel - 1) as nat);
            },
            Type::Union => {
                lemma_tds_align_bounds(s, s.unions[index].possible_types, (fuel - 1) as nat);
            },
            Type::Array => {
                let td = s.arrays[index].inner;
                if !stub_like(td) {
                    lemma_align_bounds(s, td.kind, td.index as int, (fuel - 1) as nat);
                }
            },
            _ => {},
        }
    }
}

proof fn lemma_fields_align_bounds(s: SchemaV, fields: Seq<FieldV>, fuel: nat)
    ensures
        1 <= fields_align_max(s, fields, fuel) <= 8,
    decreases fuel, 1nat, fields.len(),
{
    if fields.len() != 0 {
        lemma_fields_align_bounds(s, fields.drop_last(), fuel);
        let td = fields.last().type_data;
        if !stub_like(td) {
            lemma_align_bounds(s, td.kind, td.index as int, fuel);
        }
    }
}

proof fn lemma_tds_align_bounds(s: SchemaV, tds: Seq<TypeData>, fuel: nat)
    ensures
        1 <= tds_align_max(s, tds, fuel) <= 8,
    decreases fuel, 1nat, tds.len(),
{
    if tds.len() != 0 {
        lemma_tds_align_bounds(s, tds.drop_last(), fuel);
        let td = tds.last();
        if !stub_like(td) {
            lemma_align_bounds(s, td.kind, td.index as int, fuel);
        }
    }
}

/// Once an entry is grounded at a fuel, the fueled alignment walk gives the
/// same answer at that fuel as at any other sufficient fuel.
pub proof fn lemma_align_fuel(s: SchemaV, kind: Type, index: int, f1: nat, f2: nat)
    requires
        depth_ok(s, kind, index, f1),
        depth_ok(s, kind, index, f2),
    ensures
        align_of_ref_fueled(s, kind, index, f1) == align_of_ref_fueled(s, kind, index, f2),
    decreases f1 + f2, 0nat,
{
    match kind {
        Type::Data => {
            lemma_fields_align_fuel(s, s.types[index].fields, (f1 - 1) as nat, (f2 - 1) as nat);
        },
        Type::Union => {
            lemma_tds_align_fuel(s, s.unions[index].possible_types, (f1 - 1) as nat, (f2 - 1) as nat);
        },
        Type::Array => {
            let td = s.arrays[index].inner;
            if !stub_like(td) {
                lemma_align_fuel(s, td.kind, td.index as int, (f1 - 1) as nat, (f2 - 1) as nat);
            }
        },
        _ => {},
    }
}

proof fn lemma_fields_align_fuel(s: SchemaV, fields: Seq<FieldV>, f1: nat, f2: nat)
    requires
        fields_depth_ok(s, fields, f1),
        fields_depth_ok(s, fields, f2),
    ensures
        fields_align_max(s, fields, f1) == fields_align_max(s, fields, f2),
    decreases f1 + f2, 1nat, fields.len(),
{
    if fields.len() != 0 {
        assert(fields_depth_ok(s, fields.drop_last(), f1)) by {
            assert forall|j: int| 0 <= j < fields.drop_last().len()
                implies inner_depth_ok(s, #[trigger] fields.drop_last()[j].type_data, f1) by {
                assert(fields.drop_last()[j] == fields[j]);
                assert(inner_depth_ok(s, fields[j].type_data, f1));
            }
        }
        assert(fields_depth_ok(s, fields.drop_last(), f2)) by {
            assert forall|j: int| 0 <= j < fields.drop_last().len()
                implies inner_depth_ok(s, #[trigger] fields.drop_last()[j].type_data, f2) by {
                assert(fields.drop_last()[j] == fields[j]);
                assert(inner_depth_ok(s, fields[j].type_data, f2));
            }
        }
        lemma_fields_align_fuel(s, fields.drop_last(), f1, f2);
        let td = fields.last().type_data;
        assert(inner_depth_ok(s, td, f1)) by {
            assert(fields.last() == fields[fields.len() - 1]);
        }
        assert(inner_depth_ok(s, td, f2)) by {
            assert(fields.last() == fields[fields.len() - 1]);
        }
        if !stub_like(td) {
            lemma_align_fuel(s, td.kind, td.index as int, f1, f2);
        }
    }
}

proof fn lemma_tds_align_fuel(s: SchemaV, tds: Seq<TypeData>, f1: nat, f2: nat)
    requires
        tds_depth_ok(s, tds, f1),
        tds_depth_ok(s, tds, f2),
    ensures
        tds_align_max(s, tds, f1) == tds_align_max(s, tds, f2),
    decreases f1 + f2, 1nat, tds.len(),
{
    if tds.len() != 0 {
        assert(tds_depth_ok(s, tds.drop_last(), f1)) by {
            assert forall|j: int| 0 <= j < tds.drop_last().len()
                implies inner_depth_ok(s, #[trigger] tds.drop_last()[j], f1) by {
                assert(tds.drop_last()[j] == tds[j]);
            }
        }
        assert(tds_depth_ok(s, tds.drop_last(), f2)) by {
            assert forall|j: int| 0 <= j < tds.drop_last().len()
                implies inner_depth_ok(s, #[trigger] tds.drop_last()[j], f2) by {
                assert(tds.drop_last()[j] == tds[j]);
            }
        }
        lemma_tds_align_fuel(s, tds.drop_last(), f1, f2);
        let td = tds.last();
        assert(inner_depth_ok(s, td, f1)) by {
            assert(tds.last() == tds[tds.len() - 1]);
        }
        assert(inner_depth_ok(s, td, f2)) by {
            assert(tds.last() == tds[tds.len() - 1]);
        }
        if !stub_like(td) {
            lemma_align_fuel(s, td.kind, td.index as int, f1, f2);
        }
    }
}

/// Growing the schema does not change the fueled alignment of a grounded
/// entry that was already there.
pub proof fn lemma_align_extends(a: SchemaV, b: SchemaV, kind: Type, index: int, fuel: nat)
    requires
        schema_extends(a, b),
        depth_ok(a, kind, index, fuel),
    ensures
        align_of_ref_fueled(b, kind, index, fuel) == align_of_ref_fueled(a, kind, index, fuel),
    decreases fuel, 0nat,
{
    match kind {
        Type::Data => {
            assert(b.types[index] == a.types[index]);
            lemma_fields_align_extends(a, b, a.types[index].fields, (fuel - 1) as nat);
        },
        Type::Union => {
            assert(b.unions[index] == a.unions[index]);
            lemma_tds_align_extends(a, b, a.unions[index].possible_types, (fuel - 1) as nat);
        },
        Type::Array => {
            assert(b.arrays[index] == a.arrays[index]);
            let td = a.arrays[index].inner;
            if !stub_like(td) {
                lemma_align_extends(a, b, td.kind, td.index as int, (fuel - 1) as nat);
            }
        },
        _ => {},
    }
}

proof fn lemma_fields_align_extends(a: SchemaV, b: SchemaV, fields: Seq<FieldV>, fuel: nat)
    requires
        schema_extends(a, b),
        fields_depth_ok(a, fields, fuel),
    ensures
        fields_align_max(b, fields, fuel) == fields_align_max(a, fields, fuel),
    decreases fuel, 1nat, fields.len(),
{
    if fields.len() != 0 {
        assert(fields_depth_ok(a, fields.drop_last(), fuel)) by {
            assert forall|j: int| 0 <= j < fields.drop_last().len()
                implies inner_depth_ok(a, #[trigger] fields.drop_last()[j].type_data, fuel) by {
                assert(fields.drop_last()[j] == fields[j]);
            }
        }
        lemma_fields_align_extends(a, b, fields.drop_last(), fuel);
        let td = fields.last().type_data;
        assert(inner_depth_ok(a, td, fuel)) by {
            assert(fields.last() == fields[fields.len() - 1]);
        }
        if !stub_like(td) {
            lemma_align_extends(a, b, td.kind, td.index as int, fuel);
        }
    }
}

proof fn lemma_tds_align_extends(a: SchemaV, b: SchemaV, tds: Seq<TypeData>, fuel: nat)
    requires
        schema_extends(a, b),
        tds_depth_ok(a, tds, fuel),
    ensures
        tds_align_max(b, tds, fuel) == tds_align_max(a, tds, fuel),
    decreases fuel, 1nat, tds.len(),
{
    if tds.len() != 0 {
        assert(tds_depth_ok(a, tds.drop_last(), fuel)) by {
            assert forall|j: int| 0 <= j < tds.drop_last().len()
                implies inner_depth_ok(a, #[trigger] tds.drop_last()[j], fuel) by {
                assert(tds.drop_last()[j] == tds[j]);
            }
        }
        lemma_tds_align_extends(a, b, tds.drop_last(), fuel);
        let td = tds.last();
        assert(inner_depth_ok(a, td, fuel)) by {
            assert(tds.last() == tds[tds.len() - 1]);
        }
        if !stub_like(td) {
            lemma_align_extends(a, b, td.kind, td.index as int, fuel);
        }
    }
}


/// The non-self byte count of a field list is never negative.
pub proof fn lemma_sum_nonself_nonneg(fields: Seq<FieldV>, i: int)
    ensures
        sum_nonself(fields, i) >= 0,
    decreases fields.len(),
{
    if fields.len() != 0 {
        lemma_sum_nonself_nonneg(fields.drop_last(), i);
    }
}

/// The self-field count is between zero and the number of fields.
pub proof fn lemma_count_self_bounds(fields: Seq<FieldV>, i: int)
    ensures
        0 <= count_self(fields, i) <= fields.len(),
    decreases fields.len(),
{
    if fields.len() != 0 {
        lemma_count_self_bounds(fields.drop_last(), i);
    }
}

/// Reported sizes are never negative, at any fuel.
pub proof fn lemma_padded_nonneg(s: SchemaV, kind: Type, index: int, fuel: nat)
    ensures
        padded_size_fueled(s, kind, index, fuel) >= 0,
    decreases fuel, 0nat,
{
    if fuel != 0 {
        match kind {
            Type::Data => {
                let fields = s.types[index].fields;
                lemma_fields_padded_nonneg(s, fields, index, (fuel - 1) as nat);
                lemma_count_self_bounds(fields, index);
                let a = fields_padded_sum(s, fields, index, (fuel - 1) as nat);
                let c = count_self(fields, index);
                assert(a * (1 + c) >= 0) by (nonlinear_arith)
                    requires a >= 0 && c >= 0;
            },
            Type::Union => {
                lemma_tds_padded_nonneg(s, s.unions[index].possible_types, (fuel - 1) as nat);
            },
            Type::Array => {
                let inner = s.arrays[index].inner;
                if !stub_like(inner) {
                    lemma_padded_nonneg(s, inner.kind, inner.index as int, (fuel - 1) as nat);
                }
                let v = padded_inner_size(s, inner, (fuel - 1) as nat);
                assert(v * s.arrays[index].len >= 0) by (nonlinear_arith)
                    requires v >= 0;
            },
            _ => {},
        }
    }
}

pub proof fn lemma_fields_padded_nonneg(s: SchemaV, fields: Seq<FieldV>, i: int, fuel: nat)
    ensures
        fields_padded_sum(s, fields, i, fuel) >= 0,
    decreases fuel, 1nat, fields.len(),
{
    if fields.len() != 0 {
        lemma_fields_padded_nonneg(s, fields.drop_last(), i, fuel);
        let td = fields.last().type_data;
        if !is_self_field(fields.last(), i) && !stub_like(td) {
            lemma_padded_nonneg(s, td.kind, td.index as int, fuel);
        }
        assert(fields_padded_sum(s, fields, i, fuel)
            == fields_padded_sum(s, fields.drop_last(), i, fuel)
                + if is_self_field(fields.last(), i) {
                    0int
                } else {
                    padded_inner_size(s, td, fuel) + fields.last().padding_size
                });
    }
}

pub proof fn lemma_tds_padded_nonneg(s: SchemaV, tds: Seq<TypeData>, fuel: nat)
    ensures
        tds_padded_max(s, tds, fuel) >= 0,
    decreases fuel, 1nat, tds.len(),
{
    if tds.len() != 0 {
        lemma_tds_padded_nonneg(s, tds.drop_last(), fuel);
        let td = tds.last();
        if !stub_like(td) {
            lemma_padded_nonneg(s, td.kind, td.index as int, fuel);
        }
    }
}

/// One field's contribution never exceeds the whole (together with any
/// prefix of the fields before it).
pub proof fn lemma_fields_padded_suffix(s: SchemaV, fields: Seq<FieldV>, i: int, fuel: nat, k: int)
    requires
        0 <= k < fields.len(),
    ensures
        fields_padded_sum(s, fields, i, fuel) >= fields_padded_sum(s, fields.take(k), i, fuel)
            + if is_self_field(fields[k], i) {
                0int
            } else {
                padded_inner_size(s, fields[k].type_data, fuel) + fields[k].padding_size
            },
    decreases fields.len(),
{
    let td = fields.last().type_data;
    assert(fields_padded_sum(s, fields, i, fuel)
        == fields_padded_sum(s, fields.drop_last(), i, fuel)
            + if is_self_field(fields.last(), i) {
                0int
            } else {
                padded_inner_size(s, td, fuel) + fields.last().padding_size
            });
    if k == fields.len() - 1 {
        assert(fields.drop_last() =~= fields.take(k));
        assert(fields.last() == fields[k]);
    } else {
        assert(fields.drop_last().take(k) =~= fields.take(k));
        assert(fields.drop_last()[k] == fields[k]);
        lemma_fields_padded_suffix(s, fields.drop_last(), i, fuel, k);
        if !is_self_field(fields.last(), i) && !stub_like(td) {
            lemma_padded_nonneg(s, td.kind, td.index as int, fuel);
        }
        assert(fields.drop_last()[k] == fields[k]);
    }
}

/// From one field whose contribution (plus any prefix) exceeds the machine
/// to the whole struct's reported size exceeding it.
pub proof fn lemma_padded_overflow_chain(s: SchemaV, fields: Seq<FieldV>, i: int, fuel: nat, k: int, contribution: int)
    requires
        fuel >= 1,
        0 <= i < s.types.len(),
        fields == s.types[i].fields,
        0 <= k < fields.len(),
        !is_self_field(fields[k], i),
        contribution == padded_inner_size(s, fields[k].type_data, (fuel - 1) as nat)
            + fields[k].padding_size,
        fields_padded_sum(s, fields.take(k), i, (fuel - 1) as nat) + contribution > usize::MAX,
    ensures
        padded_size_fueled(s, Type::Data, i, fuel) > usize::MAX,
{
    let fuel1 = (fuel - 1) as nat;
    lemma_fields_padded_suffix(s, fields, i, fuel1, k);
    lemma_count_self_bounds(fields, i);
    let a = fields_padded_sum(s, fields, i, fuel1);
    let c = count_self(fields, i);
    assert(a > usize::MAX);
    assert(a * (1 + c) >= a) by (nonlinear_arith)
        requires a >= 0 && c >= 0;
    assert(padded_size_fueled(s, Type::Data, i, fuel) == a * (1 + c));
}

/// One member's reported size never exceeds the largest.
pub proof fn lemma_tds_padded_suffix(s: SchemaV, tds: Seq<TypeData>, fuel: nat, k: int)
    requires
        0 <= k < tds.len(),
    ensures
        tds_padded_max(s, tds, fuel) >= padded_inner_size(s, tds[k], fuel),
    decreases tds.len(),
{
    if k == tds.len() - 1 {
        assert(tds.last() == tds[k]);
        lemma_tds_padded_nonneg(s, tds.drop_last(), fuel);
    } else {
        assert(tds.drop_last()[k] == tds[k]);
        lemma_tds_padded_suffix(s, tds.drop_last(), fuel, k);
    }
}

/// Taking a prefix of the fields never increases the non-self byte count.
pub proof fn lemma_sum_nonself_prefix(fields: Seq<FieldV>, i: int, k: int)
    requires
        0 <= k <= fields.len(),
    ensures
        sum_nonself(fields.take(k), i) <= sum_nonself(fields, i),
    decreases fields.len() - k,
{
    if k == fields.len() {
        assert(fields.take(k) =~= fields);
    } else {
        lemma_sum_nonself_prefix(fields, i, k + 1);
        assert(fields.take(k + 1).drop_last() =~= fields.take(k));
        assert(fields.take(k + 1).last() == fields[k]);
        lemma_sum_nonself_nonneg(fields.take(k), i);
    }
}

/// The largest member size is no smaller than any member's size, and is some
/// member's size when there are members at all.
pub proof fn lemma_max_size_bounds(tds: Seq<TypeData>)
    ensures
        max_size(tds) >= 0,
        forall|j: int| 0 <= j < tds.len() ==> (#[trigger] tds[j]).size <= max_size(tds),
        tds.len() > 0 ==> exists|j: int| 0 <= j < tds.len() && (#[trigger] tds[j]).size == max_size(tds),
    decreases tds.len(),
{
    if tds.len() != 0 {
        lemma_max_size_bounds(tds.drop_last());
        assert forall|j: int| 0 <= j < tds.len() implies (#[trigger] tds[j]).size <= max_size(tds) by {
            if j < tds.len() - 1 {
                assert(tds.drop_last()[j] == tds[j]);
            } else {
                assert(tds[j] == tds.last());
            }
        }
        if max_size(tds) == tds.last().size as int {
            assert(tds[tds.len() - 1].size == max_size(tds));
        } else {
            let j = choose|j: int| 0 <= j < tds.drop_last().len()
                && (#[trigger] tds.drop_last()[j]).size == max_size(tds.drop_last());
            assert(tds.drop_last()[j] == tds[j]);
        }
    }
}

// ---------------------------------------------------------------------------
// The executable queries
// ---------------------------------------------------------------------------

/// The failure of a by-index type query: the table for `kind` holds no entry
/// at `index`.
#[derive(Clone, Copy, PartialEq, Eq, Structural, Debug)]
pub struct TypeDataError {
    pub kind: Type,
    pub index: usize,
}

impl Schema {
    /// A schema built from already-populated tables.
    pub fn new(
        is_packed: bool,
        types: Vec<DataType>,
        enums: Vec<EnumType>,
        unions: Vec<UnionType>,
        arrays: Vec<ArrayType>,
        pointers: Vec<PointerType>,
        vectors: Vec<VectorType>,
        functions: Vec<FunctionType>,
    ) -> (r: Self)
        ensures
            r@ == (SchemaV {
                is_packed,
                types: data_types_view(types@),
                enums: enum_types_view(enums@),
                unions: union_types_view(unions@),
                arrays: arrays@,
                pointers: pointers@,
                vectors: vectors@,
                functions: function_types_view(functions@),
            }),
    {
        Schema { is_packed, types, enums, unions, arrays, pointers, vectors, functions }
    }

    /// The resolution-time size of the type at `(kind, index)`: the size a
    /// memoized reference to it carries, which never counts layout padding.
    /// `None` when the table for `kind` holds no entry at `index`.
    pub(crate) fn base_size_of(&self, kind: Type, index: usize) -> (r: Option<usize>)
        requires
            wf_query(self@),
        ensures
            match r {
                Some(sz) => valid_ref(self@, kind, index as int)
                    && sz == size_of_ref(self@, kind, index as int),
                None => !valid_ref(self@, kind, index as int),
            },
    {
        match kind {
            Type::Primitive => {
                match crate::primitives::Primitives::new().index(index) {
                    Some(p) => Some(p.size),
                    None => None,
                }
            },
            Type::Data => {
                if index < self.types.len() {
                    Some(self.data_size_at(index))
                } else {
                    None
                }
            },
            Type::Enum => {
                if index < self.enums.len() { Some(4) } else { None }
            },
            Type::Union => {
                if index < self.unions.len() {
                    Some(self.union_size_at(index))
                } else {
                    None
                }
            },
            Type::Array => {
                if index < self.arrays.len() {
                    let a = self.arrays[index];
                    proof {
                        assert(a.inner.size * a.len <= usize::MAX);
                        assert(a.inner.size * a.len >= 0) by (nonlinear_arith);
                    }
                    Some(a.inner.size * a.len)
                } else {
                    None
                }
            },
            Type::Vector => {
                if index < self.vectors.len() { Some(24) } else { None }
            },
            Type::Pointer => {
                if index < self.pointers.len() { Some(8) } else { None }
            },
            Type::String => Some(24),
            Type::Function => {
                if index < self.functions.len() { Some(8) } else { None }
            },
        }
    }

    /// The size in bytes of the type at `(kind, index)` as the schema
    /// reports it: a struct's fields each contribute their type's reported
    /// size plus the padding recorded before them (once more per
    /// self-referential field), a union its largest member's reported size
    /// plus four tag bytes, an array its element's reported size times its
    /// length. `None` when the table for `kind` holds no entry at `index`,
    /// or when a reported size cannot fit the machine.
    pub fn type_size(&self, kind: Type, index: usize) -> (r: Option<usize>)
        requires
            wf_query(self@),
        ensures
            match r {
                Some(sz) => valid_ref(self@, kind, index as int)
                    && sz == padded_size_of_ref(self@, kind, index as int),
                None => !valid_ref(self@, kind, index as int)
                    || padded_size_of_ref(self@, kind, index as int) > usize::MAX,
            },
    {
        let valid = match kind {
            Type::Primitive => index < 11,
            Type::Data => index < self.types.len(),
            Type::Enum => index < self.enums.len(),
            Type::Union => index < self.unions.len(),
            Type::Array => index < self.arrays.len(),
            Type::Vector => index < self.vectors.len(),
            Type::Pointer => index < self.pointers.len(),
            Type::String => true,
            Type::Function => index < self.functions.len(),
        };
        if !valid {
            return None;
        }
        proof {
            assert(depth_ok(self@, kind, index as int, ref_budget(self@))) by {
                match kind {
                    Type::Primitive | Type::Enum | Type::String => {
                        assert(ref_budget(self@) >= 1);
                    },
                    _ => {},
                }
            }
        }
        self.padded_size_rec(kind, index, Ghost(ref_budget(self@)))
    }

    /// The fueled reported-size walk, refused past the machine.
    fn padded_size_rec(&self, kind: Type, index: usize, Ghost(fuel): Ghost<nat>) -> (r: Option<usize>)
        requires
            depth_ok(self@, kind, index as int, fuel),
        ensures
            match r {
                Some(sz) => sz == padded_size_fueled(self@, kind, index as int, fuel),
                None => padded_size_fueled(self@, kind, index as int, fuel) > usize::MAX,
            },
        decreases fuel,
    {
        let ghost s = self@;
        match kind {
            Type::Primitive => {
                let p = crate::primitives::Primitives::new().index(index).unwrap();
                Some(p.size)
            },
            Type::Enum => Some(4),
            Type::Vector => Some(24),
            Type::String => Some(24),
            Type::Pointer => Some(8),
            Type::Function => Some(8),
            Type::Data => {
                let ghost fields = s.types[index as int].fields;
                let n = self.types[index].fields.len();
                let mut sum: usize = 0;
                let mut cnt: usize = 0;
                let mut k: usize = 0;
                proof {
                    assert(fields.take(0) =~= Seq::<FieldV>::empty());
                    lemma_count_self_bounds(fields, index as int);
                }
                while k < n
                    invariant
                        depth_ok(s, Type::Data, index as int, fuel),
                        kind == Type::Data,
                        s == self@,
                        index < s.types.len(),
                        fields == s.types[index as int].fields,
                        n == fields.len(),
                        n == self.types@[index as int].fields@.len(),
                        forall|j: int| 0 <= j < n
                            ==> (#[trigger] self.types@[index as int].fields@[j])@ == fields[j],
                        k <= n,
                        fuel >= 1,
                        sum == fields_padded_sum(s, fields.take(k as int), index as int,
                            (fuel - 1) as nat),
                        cnt == count_self(fields.take(k as int), index as int),
                        cnt <= k,
                    decreases n - k,
                {
                    let ghost fuel1 = (fuel - 1) as nat;
                    let ghost i = index as int;
                    let f_td = self.types[index].fields[k].type_data;
                    let f_pad = self.types[index].fields[k].padding_size;
                    proof {
                        assert(self.types@[i].fields@[k as int]@ == fields[k as int]);
                        assert(f_td == fields[k as int].type_data);
                        assert(f_pad == fields[k as int].padding_size);
                        assert(fields.take(k + 1).drop_last() =~= fields.take(k as int));
                        assert(fields.take(k + 1).last() == fields[k as int]);
                        assert(inner_depth_ok(s, fields[k as int].type_data, fuel1));
                    }
                    let is_self = f_td.kind == Type::Data && f_td.index == index
                        && f_td.size == 0 && !f_td.is_copy;
                    if is_self {
                        cnt = cnt + 1;
                    } else {
                        let stub = f_td.size == 0 && !f_td.is_copy
                            && (f_td.kind == Type::Data || f_td.kind == Type::Union
                                || f_td.kind == Type::Function);
                        let inner = if stub {
                            Some(0)
                        } else {
                            self.padded_size_rec(f_td.kind, f_td.index, Ghost(fuel1))
                        };
                        proof {
                            lemma_fields_padded_nonneg(s, fields.take(k as int), i, fuel1);
                            lemma_fields_padded_nonneg(s, fields, i, fuel1);
                            lemma_fields_padded_suffix(s, fields, i, fuel1, k as int);
                            lemma_count_self_bounds(fields, i);
                            let a = fields_padded_sum(s, fields, i, fuel1);
                            let c = count_self(fields, i);
                            assert(a <= a * (1 + c)) by (nonlinear_arith)
                                requires a >= 0 && c >= 0;
                            assert(!is_self_field(fields[k as int], i) ==> a
                                >= fields_padded_sum(s, fields.take(k as int), i, fuel1)
                                    + padded_inner_size(s, fields[k as int].type_data, fuel1)
                                    + fields[k as int].padding_size);
                            assert(padded_size_fueled(s, Type::Data, i, fuel)
                                == a * (1 + c));
                        }
                        proof {
                            assert(!is_self_field(fields[k as int], i));
                            if !stub {
                                assert(!stub_like(fields[k as int].type_data));
                            } else {
                                assert(stub_like(fields[k as int].type_data));
                            }
                        }
                        let v = match inner {
                            Some(v) => v,
                            None => {
                                proof {
                                    lemma_padded_overflow_chain(s, fields, i, fuel, k as int,
                                        padded_inner_size(s, fields[k as int].type_data, fuel1)
                                            + fields[k as int].padding_size);
                                }
                                return None;
                            },
                        };
                        let step = match v.checked_add(f_pad) {
                            Some(w) => w,
                            None => {
                                proof {
                                    lemma_padded_overflow_chain(s, fields, i, fuel, k as int,
                                        padded_inner_size(s, fields[k as int].type_data, fuel1)
                                            + fields[k as int].padding_size);
                                }
                                return None;
                            },
                        };
                        let new_sum = match sum.checked_add(step) {
                            Some(w) => w,
                            None => {
                                proof {
                                    lemma_padded_overflow_chain(s, fields, i, fuel, k as int,
                                        padded_inner_size(s, fields[k as int].type_data, fuel1)
                                            + fields[k as int].padding_size);
                                }
                                return None;
                            },
                        };
                        sum = new_sum;
                    }
                    k = k + 1;
                }
                proof {
                    assert(fields.take(n as int) =~= fields);
                }
                if sum == 0 {
                    proof {
                        assert(0int * (1 + count_self(fields, index as int)) == 0)
                            by (nonlinear_arith);
                    }
                    Some(0)
                } else {
                    let ghost a = fields_padded_sum(s, fields, index as int, (fuel - 1) as nat);
                    let ghost c = count_self(fields, index as int);
                    let c1 = match cnt.checked_add(1) {
                        Some(v) => v,
                        None => {
                            proof {
                                assert(a * (1 + c) > usize::MAX) by (nonlinear_arith)
                                    requires a >= 1 && c == usize::MAX;
                            }
                            return None;
                        },
                    };
                    match sum.checked_mul(c1) {
                        Some(v) => Some(v),
                        None => {
                            proof {
                                assert(a * (1 + c) > usize::MAX) by (nonlinear_arith)
                                    requires a >= 1 && c >= 0 && a * (c + 1) > usize::MAX;
                            }
                            None
                        },
                    }
                }
            },
            Type::Union => {
                let ghost tds = s.unions[index as int].possible_types;
                let n = self.unions[index].possible_types.len();
                let mut max: usize = 0;
                let mut k: usize = 0;
                proof {
                    assert(tds.take(0) =~= Seq::<TypeData>::empty());
                }
                while k < n
                    invariant
                        depth_ok(s, Type::Union, index as int, fuel),
                        kind == Type::Union,
                        s == self@,
                        index < s.unions.len(),
                        tds == s.unions[index as int].possible_types,
                        n == tds.len(),
                        n == self.unions@[index as int].possible_types@.len(),
                        forall|j: int| 0 <= j < n
                            ==> #[trigger] self.unions@[index as int].possible_types@[j] == tds[j],
                        k <= n,
                        fuel >= 1,
                        max == tds_padded_max(s, tds.take(k as int), (fuel - 1) as nat),
                    decreases n - k,
                {
                    let ghost fuel1 = (fuel - 1) as nat;
                    let td = self.unions[index].possible_types[k];
                    proof {
                        assert(td == tds[k as int]);
                        assert(tds.take(k + 1).drop_last() =~= tds.take(k as int));
                        assert(tds.take(k + 1).last() == tds[k as int]);
                        assert(inner_depth_ok(s, tds[k as int], fuel1));
                        lemma_tds_padded_suffix(s, tds, fuel1, k as int);
                        lemma_tds_padded_nonneg(s, tds.take(k as int), fuel1);
                    }
                    let stub = td.size == 0 && !td.is_copy
                        && (td.kind == Type::Data || td.kind == Type::Union
                            || td.kind == Type::Function);
                    let v = if stub {
                        Some(0)
                    } else {
                        self.padded_size_rec(td.kind, td.index, Ghost(fuel1))
                    };
                    let v = match v {
                        Some(v) => v,
                        None => {
                            return None;
                        },
                    };
                    if v > max {
                        max = v;
                    }
                    k = k + 1;
                }
                proof {
                    assert(tds.take(n as int) =~= tds);
                }
                match max.checked_add(4) {
                    Some(v) => Some(v),
                    None => None,
                }
            },
            Type::Array => {
                let a = self.arrays[index];
                let td = a.inner;
                proof {
                    assert(inner_depth_ok(s, td, (fuel - 1) as nat));
                }
                let stub = td.size == 0 && !td.is_copy
                    && (td.kind == Type::Data || td.kind == Type::Union
                        || td.kind == Type::Function);
                if a.len == 0 {
                    proof {
                        let v = padded_inner_size(s, td, (fuel - 1) as nat);
                        assert(v * 0int == 0) by (nonlinear_arith);
                    }
                    return Some(0);
                }
                let v = if stub {
                    Some(0)
                } else {
                    self.padded_size_rec(td.kind, td.index, Ghost((fuel - 1) as nat))
                };
                let v = match v {
                    Some(v) => v,
                    None => {
                        proof {
                            let pv = padded_inner_size(s, td, (fuel - 1) as nat);
                            assert(pv * a.len > usize::MAX) by (nonlinear_arith)
                                requires pv > usize::MAX && a.len >= 1;
                        }
                        return None;
                    },
                };
                match v.checked_mul(a.len) {
                    Some(w) => Some(w),
                    None => None,
                }
            },
        }
    }

    /// The size of the struct at `index`: the bytes of its non-self fields,
    /// repeated once more for every self-referential field.    /// The size of the struct at `index`: the bytes of its non-self fields,
    /// repeated once more for every self-referential field.
    fn data_size_at(&self, index: usize) -> (r: usize)
        requires
            wf_query(self@),
            index < self@.types.len(),
        ensures
            r == data_size(self@, index as int),
    {
        let ghost s = self@;
        let ghost i = index as int;
        let ghost fields = s.types[i].fields;
        let data_type = &self.types[index];
        let n = data_type.fields.len();
        let mut sum: usize = 0;
        let mut cnt: usize = 0;
        let mut k: usize = 0;
        proof {
            assert(fields =~= fields_view(data_type.fields@));
            assert(fields.take(0) =~= Seq::<FieldV>::empty());
            lemma_count_self_bounds(fields, i);
            lemma_sum_nonself_nonneg(fields, i);
            assert(0 <= data_size(s, i) <= usize::MAX);
        }
        while k < n
            invariant
                wf_query(s),
                s == self@,
                i == index as int,
                0 <= i < s.types.len(),
                fields == s.types[i].fields,
                n == fields.len(),
                k <= n,
                sum == sum_nonself(fields.take(k as int), i),
                cnt == count_self(fields.take(k as int), i),
                sum <= usize::MAX,
                cnt <= k,
            decreases n - k,
        {
            let f = &self.types[index].fields[k];
            proof {
                assert(f@ == fields[k as int]);
                assert(fields.take(k + 1).drop_last() =~= fields.take(k as int));
                assert(fields.take(k + 1).last() == fields[k as int]);
                lemma_sum_nonself_prefix(fields, i, k + 1);
                lemma_sum_nonself_nonneg(fields.take(k as int), i);
                lemma_count_self_bounds(fields, i);
                // the running sum stays below the total, which fits
                assert(sum_nonself(fields, i) <= data_size(s, i)) by {
                    let a = sum_nonself(fields, i);
                    let c = count_self(fields, i);
                    assert(a * (1 + c) == a + a * c) by (nonlinear_arith);
                    assert(a * c >= 0) by (nonlinear_arith)
                        requires a >= 0 && c >= 0;
                }
            }
            let is_self = f.type_data.kind == Type::Data && f.type_data.index == index
                && f.type_data.size == 0 && !f.type_data.is_copy;
            if is_self {
                cnt = cnt + 1;
            } else {
                sum = sum + f.type_data.size;
            }
            k = k + 1;
        }
        proof {
            assert(fields.take(n as int) =~= fields);
        }
        if sum == 0 {
            proof {
                assert(0int * (1 + count_self(fields, i)) == 0) by (nonlinear_arith);
            }
            0
        } else {
            proof {
                let a = sum_nonself(fields, i);
                let c = count_self(fields, i);
                assert(a * (1 + c) <= usize::MAX);
                assert(1 + c <= a * (1 + c)) by (nonlinear_arith)
                    requires a >= 1 && c >= 0;
            }
            sum * (cnt + 1)
        }
    }

    /// The size of the union at `index`: a four-byte discriminant plus room
    /// for its largest member.
    fn union_size_at(&self, index: usize) -> (r: usize)
        requires
            wf_query(self@),
            index < self@.unions.len(),
        ensures
            r == union_size(self@.unions[index as int]),
    {
        let ghost s = self@;
        let ghost i = index as int;
        let ghost tds = s.unions[i].possible_types;
        let union_type = &self.unions[index];
        let n = union_type.possible_types.len();
        let mut max: usize = 0;
        let mut k: usize = 0;
        proof {
            assert(tds =~= union_type.possible_types@);
            assert(tds.take(0) =~= Seq::<TypeData>::empty());
            lemma_max_size_bounds(tds);
            assert(union_size(s.unions[i]) <= usize::MAX);
        }
        while k < n
            invariant
                s == self@,
                i == index as int,
                index < self.unions.len(),
                tds == s.unions[i].possible_types,
                k <= n,
                n == tds.len(),
                n == self.unions@[i].possible_types@.len(),
                forall|j: int| 0 <= j < n ==> self.unions@[i].possible_types@[j] == tds[j],
                max == max_size(tds.take(k as int)),
                max <= usize::MAX,
            decreases n - k,
        {
            let td = self.unions[index].possible_types[k];
            proof {
                assert(td == tds[k as int]);
                assert(tds.take(k + 1).drop_last() =~= tds.take(k as int));
                assert(tds.take(k + 1).last() == tds[k as int]);
            }
            if td.size > max {
                max = td.size;
            }
            k = k + 1;
        }
        proof {
            assert(tds.take(n as int) =~= tds);
            lemma_max_size_bounds(tds);
            assert(4 + max_size(tds) <= usize::MAX);
        }
        4 + max
    }

    /// Is the type at `(kind, index)` trivially copyable? `None` when the
    /// table for `kind` holds no entry at `index`.
    pub fn is_copy(&self, kind: Type, index: usize) -> (r: Option<bool>)
        requires
            wf_query(self@),
        ensures
            match r {
                Some(c) => valid_ref(self@, kind, index as int)
                    && c == copy_of_ref(self@, kind, index as int),
                None => !valid_ref(self@, kind, index as int),
            },
    {
        match kind {
            Type::Primitive => {
                if index < 11 { Some(true) } else { None }
            },
            Type::Data => {
                if index < self.types.len() {
                    let ghost fields = self@.types[index as int].fields;
                    let n = self.types[index].fields.len();
                    let mut k: usize = 0;
                    let mut all: bool = true;
                    while k < n
                        invariant
                            k <= n,
                            n == fields.len(),
                            fields == self@.types[index as int].fields,
                            index < self@.types.len(),
                            n == self.types@[index as int].fields@.len(),
                            forall|j: int| 0 <= j < n
                                ==> (#[trigger] self.types@[index as int].fields@[j])@ == fields[j],
                            all == forall|j: int| 0 <= j < k ==> (#[trigger] fields[j].type_data).is_copy,
                        decreases n - k,
                    {
                        let f = &self.types[index].fields[k];
                        proof {
                            assert(f@ == fields[k as int]);
                        }
                        if !f.type_data.is_copy {
                            all = false;
                        }
                        k = k + 1;
                    }
                    Some(all)
                } else {
                    None
                }
            },
            Type::Enum => {
                if index < self.enums.len() { Some(true) } else { None }
            },
            Type::Union => {
                if index < self.unions.len() {
                    let ghost tds = self@.unions[index as int].possible_types;
                    let n = self.unions[index].possible_types.len();
                    let mut k: usize = 0;
                    let mut all: bool = true;
                    while k < n
                        invariant
                            k <= n,
                            n == tds.len(),
                            tds == self@.unions[index as int].possible_types,
                            index < self@.unions.len(),
                            n == self.unions@[index as int].possible_types@.len(),
                            forall|j: int| 0 <= j < n
                                ==> #[trigger] self.unions@[index as int].possible_types@[j] == tds[j],
                            all == forall|j: int| 0 <= j < k ==> (#[trigger] tds[j]).is_copy,
                        decreases n - k,
                    {
                        let td = self.unions[index].possible_types[k];
                        proof {
                            assert(td == tds[k as int]);
                        }
                        if !td.is_copy {
                            all = false;
                        }
                        k = k + 1;
                    }
                    Some(all)
                } else {
                    None
                }
            },
            Type::Array => {
                if index < self.arrays.len() {
                    Some(self.arrays[index].inner.is_copy)
                } else {
                    None
                }
            },
            Type::Vector => {
                if index < self.vectors.len() { Some(false) } else { None }
            },
            Type::Pointer => {
                if index < self.pointers.len() { Some(true) } else { None }
            },
            Type::String => Some(false),
            Type::Function => {
                if index < self.functions.len() { Some(true) } else { None }
            },
        }
    }

    /// The alignment of a grounded entry, by the fueled walk.
    fn align_rec(&self, kind: Type, index: usize, Ghost(fuel): Ghost<nat>) -> (r: usize)
        requires
            depth_ok(self@, kind, index as int, fuel),
        ensures
            r == align_of_ref_fueled(self@, kind, index as int, fuel),
        decreases fuel,
    {
        let ghost s = self@;
        match kind {
            Type::Primitive => {
                let p = crate::primitives::Primitives::new().index(index).unwrap();
                p.align
            },
            Type::Enum => 4,
            Type::Vector => 8,
            Type::String => 8,
            Type::Pointer => 8,
            Type::Function => 8,
            Type::Data => {
                let ghost fields = s.types[index as int].fields;
                let n = self.types[index].fields.len();
                let mut m: usize = 1;
                let mut k: usize = 0;
                proof {
                    assert(fields.take(0) =~= Seq::<FieldV>::empty());
                }
                while k < n
                    invariant
                        depth_ok(s, Type::Data, index as int, fuel),
                        s == self@,
                        index < s.types.len(),
                        fields == s.types[index as int].fields,
                        n == fields.len(),
                        n == self.types@[index as int].fields@.len(),
                        forall|j: int| 0 <= j < n
                            ==> (#[trigger] self.types@[index as int].fields@[j])@ == fields[j],
                        k <= n,
                        m == fields_align_max(s, fields.take(k as int), (fuel - 1) as nat),
                        fuel >= 1,
                    decreases n - k,
                {
                    let f = &self.types[index].fields[k];
                    proof {
                        assert(f@ == fields[k as int]);
                        assert(fields.take(k + 1).drop_last() =~= fields.take(k as int));
                        assert(fields.take(k + 1).last() == fields[k as int]);
                        assert(inner_depth_ok(s, fields[k as int].type_data, (fuel - 1) as nat));
                    }
                    let td = f.type_data;
                    let stub = td.size == 0 && !td.is_copy
                        && (td.kind == Type::Data || td.kind == Type::Union || td.kind == Type::Function);
                    let a = if stub {
                        1
                    } else {
                        self.align_rec(td.kind, td.index, Ghost((fuel - 1) as nat))
                    };
                    if a > m {
                        m = a;
                    }
                    k = k + 1;
                }
                proof {
                    assert(fields.take(n as int) =~= fields);
                }
                m
            },
            Type::Union => {
                let ghost tds = s.unions[index as int].possible_types;
                let n = self.unions[index].possible_types.len();
                let mut m: usize = 1;
                let mut k: usize = 0;
                proof {
                    assert(tds.take(0) =~= Seq::<TypeData>::empty());
                }
                while k < n
                    invariant
                        depth_ok(s, Type::Union, index as int, fuel),
                        s == self@,
                        index < s.unions.len(),
                        tds == s.unions[index as int].possible_types,
                        n == tds.len(),
                        n == self.unions@[index as int].possible_types@.len(),
                        forall|j: int| 0 <= j < n
                            ==> #[trigger] self.unions@[index as int].possible_types@[j] == tds[j],
                        k <= n,
                        m == tds_align_max(s, tds.take(k as int), (fuel - 1) as nat),
                        fuel >= 1,
                    decreases n - k,
                {
                    let td = self.unions[index].possible_types[k];
                    proof {
                        assert(td == tds[k as int]);
                        assert(tds.take(k + 1).drop_last() =~= tds.take(k as int));
                        assert(tds.take(k + 1).last() == tds[k as int]);
                        assert(inner_depth_ok(s, tds[k as int], (fuel - 1) as nat));
                    }
                    let stub = td.size == 0 && !td.is_copy
                        && (td.kind == Type::Data || td.kind == Type::Union || td.kind == Type::Function);
                    let a = if stub {
                        1
                    } else {
                        self.align_rec(td.kind, td.index, Ghost((fuel - 1) as nat))
                    };
                    if a > m {
                        m = a;
                    }
                    k = k + 1;
                }
                proof {
                    assert(tds.take(n as int) =~= tds);
                }
                if m > 4 { m } else { 4 }
            },
            Type::Array => {
                let td = self.arrays[index].inner;
                let stub = td.size == 0 && !td.is_copy
                    && (td.kind == Type::Data || td.kind == Type::Union || td.kind == Type::Function);
                if stub {
                    1
                } else {
                    self.align_rec(td.kind, td.index, Ghost((fuel - 1) as nat))
                }
            },
        }
    }

    /// The alignment of the type at `(kind, index)`, or `None` when the
    /// table for `kind` holds no entry at `index`.
    pub fn type_align(&self, kind: Type, index: usize) -> (r: Option<usize>)
        requires
            wf_query(self@),
        ensures
            match r {
                Some(a) => valid_ref(self@, kind, index as int)
                    && a == align_of_ref(self@, kind, index as int),
                None => !valid_ref(self@, kind, index as int),
            },
    {
        let valid = match kind {
            Type::Primitive => index < 11,
            Type::Data => index < self.types.len(),
            Type::Enum => index < self.enums.len(),
            Type::Union => index < self.unions.len(),
            Type::Array => index < self.arrays.len(),
            Type::Vector => index < self.vectors.len(),
            Type::Pointer => index < self.pointers.len(),
            Type::String => true,
            Type::Function => index < self.functions.len(),
        };
        if !valid {
            return None;
        }
        proof {
            assert(depth_ok(self@, kind, index as int, ref_budget(self@))) by {
                match kind {
                    Type::Primitive | Type::Enum | Type::String => {
                        assert(ref_budget(self@) >= 1);
                    },
                    _ => {},
                }
            }
        }
        Some(self.align_rec(kind, index, Ghost(ref_budget(self@))))
    }

    /// The memoized reference for the entry at `(kind, index)`: its table
    /// position, kind, resolution-time size (padding never counted) and
    /// copyability. A `String` reference always carries index zero.
    pub fn type_data(&self, index: usize, kind: Type) -> (r: Result<TypeData, TypeDataError>)
        requires
            wf_query(self@),
        ensures
            match r {
                Ok(td) => valid_ref(self@, kind, index as int)
                    && td.kind == kind
                    && td.index == (if kind == Type::String { 0usize } else { index })
                    && valid_td(self@, td),
                Err(e) => !valid_ref(self@, kind, index as int)
                    && e == (TypeDataError { kind, index }),
            },
    {
        let index = if kind == Type::String { 0 } else { index };
        match (self.base_size_of(kind, index), self.is_copy(kind, index)) {
            (Some(size), Some(is_copy)) => Ok(TypeData { index, kind, size, is_copy }),
            _ => Err(TypeDataError { kind, index }),
        }
    }

    /// Concatenates every table of `other` onto `self` and ORs the packing
    /// flags; `other` is left empty.
    pub fn append(&mut self, other: &mut Schema)
        ensures
            final(self)@.is_packed == (old(self)@.is_packed || old(other)@.is_packed),
            final(self)@.types == old(self)@.types + old(other)@.types,
            final(self)@.enums == old(self)@.enums + old(other)@.enums,
            final(self)@.unions == old(self)@.unions + old(other)@.unions,
            final(self)@.arrays == old(self)@.arrays + old(other)@.arrays,
            final(self)@.pointers == old(self)@.pointers + old(other)@.pointers,
            final(self)@.vectors == old(self)@.vectors + old(other)@.vectors,
            final(self)@.functions == old(self)@.functions + old(other)@.functions,
            final(other)@.types.len() == 0,
            final(other)@.enums.len() == 0,
            final(other)@.unions.len() == 0,
            final(other)@.arrays.len() == 0,
            final(other)@.pointers.len() == 0,
            final(other)@.vectors.len() == 0,
            final(other)@.functions.len() == 0,
    {
        self.is_packed = self.is_packed || other.is_packed;
        self.types.append(&mut other.types);
        self.enums.append(&mut other.enums);
        self.unions.append(&mut other.unions);
        self.arrays.append(&mut other.arrays);
        self.pointers.append(&mut other.pointers);
        self.vectors.append(&mut other.vectors);
        self.functions.append(&mut other.functions);
        proof {
            assert(final(self)@.types =~= old(self)@.types + old(other)@.types);
            assert(final(self)@.enums =~= old(self)@.enums + old(other)@.enums);
            assert(final(self)@.unions =~= old(self)@.unions + old(other)@.unions);
            assert(final(self)@.functions =~= old(self)@.functions + old(other)@.functions);
        }
    }
}

impl Default for Schema {
    /// The empty, non-packed schema.
    fn default() -> (r: Self)
        ensures
            r@.is_packed == false,
            r@.types.len() == 0,
            r@.enums.len() == 0,
            r@.unions.len() == 0,
            r@.arrays.len() == 0,
            r@.pointers.len() == 0,
            r@.vectors.len() == 0,
            r@.functions.len() == 0,
    {
        Schema {
            is_packed: false,
            types: Vec::new(),
            enums: Vec::new(),
            unions: Vec::new(),
            arrays: Vec::new(),
            pointers: Vec::new(),
            vectors: Vec::new(),
            functions: Vec::new(),
        }
    }
}


// ---------------------------------------------------------------------------
// Rendering type names
// ---------------------------------------------------------------------------

/// The digit character for `d`.
pub open spec fn dec_digit(d: int) -> char {
    if d == 0 { '0' } else if d == 1 { '1' } else if d == 2 { '2' }
    else if d == 3 { '3' } else if d == 4 { '4' } else if d == 5 { '5' }
    else if d == 6 { '6' } else if d == 7 { '7' } else if d == 8 { '8' }
    else { '9' }
}

/// The decimal rendering of `n`, most significant digit first.
pub open spec fn dec_str(n: nat) -> Seq<char>
    decreases n,
{
    if n < 10 {
        seq![dec_digit(n as int)]
    } else {
        dec_str(n / 10).push(dec_digit((n % 10) as int))
    }
}

/// One decimal digit, as text.
fn digit_str(d: usize) -> (r: &'static str)
    requires
        d < 10,
    ensures
        r@ == seq![dec_digit(d as int)],
{
    proof {
        reveal_strlit("0");
        reveal_strlit("1");
        reveal_strlit("2");
        reveal_strlit("3");
        reveal_strlit("4");
        reveal_strlit("5");
        reveal_strlit("6");
        reveal_strlit("7");
        reveal_strlit("8");
        reveal_strlit("9");
    }
    let r = match d {
        0 => "0",
        1 => "1",
        2 => "2",
        3 => "3",
        4 => "4",
        5 => "5",
        6 => "6",
        7 => "7",
        8 => "8",
        _ => "9",
    };
    proof {
        assert(r@ =~= seq![dec_digit(d as int)]);
    }
    r
}

/// The decimal rendering of `n`.
pub fn usize_to_string(n: usize) -> (r: String)
    ensures
        r@ == dec_str(n as nat),
    decreases n,
{
    if n < 10 {
        digit_str(n).to_owned()
    } else {
        let mut s = usize_to_string(n / 10);
        s.append(digit_str(n % 10));
        proof {
            assert(s@ =~= dec_str((n / 10) as nat).push(dec_digit((n % 10) as int)));
        }
        s
    }
}

/// The rendered name of the type at `(kind, index)`: a stored name for
/// named kinds, `[T:N]`, `<T>` or `T*` built on demand for composites.
pub open spec fn spec_type_name(s: SchemaV, kind: Type, index: int, fuel: nat) -> Seq<char>
    decreases fuel, 0nat,
{
    if fuel == 0 {
        Seq::empty()
    } else {
        match kind {
            Type::Primitive => crate::primitives::spec_primitive_name(index),
            Type::Data => s.types[index].name,
            Type::Enum => s.enums[index].name,
            Type::Union => s.unions[index].name,
            Type::String => "String"@,
            Type::Function => s.functions[index].name,
            Type::Array => {
                let inner = s.arrays[index].inner;
                "["@ + spec_inner_name(s, inner, (fuel - 1) as nat)
                    + ":"@ + dec_str(s.arrays[index].len as nat) + "]"@
            },
            Type::Vector => {
                let inner = s.vectors[index].inner;
                "<"@ + spec_inner_name(s, inner, (fuel - 1) as nat) + ">"@
            },
            Type::Pointer => {
                let inner = s.pointers[index].inner;
                spec_inner_name(s, inner, (fuel - 1) as nat) + "*"@
            },
        }
    }
}

/// An inner reference's rendered name; a zero-sized self marker renders as
/// the stored name of the entry it refers to.
pub open spec fn spec_inner_name(s: SchemaV, td: TypeData, fuel: nat) -> Seq<char>
    decreases fuel, 1nat,
{
    if stub_like(td) {
        match td.kind {
            Type::Data => s.types[td.index as int].name,
            Type::Union => s.unions[td.index as int].name,
            _ => s.functions[td.index as int].name,
        }
    } else {
        spec_type_name(s, td.kind, td.index as int, fuel)
    }
}

impl Schema {
    /// The fueled renderer.
    fn type_name_rec(&self, kind: Type, index: usize, Ghost(fuel): Ghost<nat>) -> (r: String)
        requires
            wf_composites(self@),
            depth_ok(self@, kind, index as int, fuel),
        ensures
            r@ == spec_type_name(self@, kind, index as int, fuel),
        decreases fuel,
    {
        match kind {
            Type::Primitive => {
                crate::primitives::Primitives::new().name_of(index).unwrap()
            },
            Type::Data => self.types[index].name.clone(),
            Type::Enum => self.enums[index].name.clone(),
            Type::Union => self.unions[index].name.clone(),
            Type::String => {
                let r: String = "String".to_owned();
                r
            },
            Type::Function => self.functions[index].name.clone(),
            Type::Array => {
                let a = self.arrays[index];
                proof {
                    assert(inner_depth_ok(self@, a.inner, (fuel - 1) as nat));
                    assert(inner_ok(self@, a.inner));
                }
                let inner_name = if a.inner.size == 0 && !a.inner.is_copy
                    && (a.inner.kind == Type::Data || a.inner.kind == Type::Union
                        || a.inner.kind == Type::Function) {
                    self.stub_name(a.inner)
                } else {
                    self.type_name_rec(a.inner.kind, a.inner.index, Ghost((fuel - 1) as nat))
                };
                let mut out: String = "[".to_owned();
                out.append(inner_name.as_str());
                out.append(":");
                out.append(usize_to_string(a.len).as_str());
                out.append("]");
                proof {
                    assert(out@ =~= spec_type_name(self@, kind, index as int, fuel));
                }
                out
            },
            Type::Vector => {
                let v = self.vectors[index];
                proof {
                    assert(inner_depth_ok(self@, v.inner, (fuel - 1) as nat));
                    assert(inner_ok(self@, v.inner));
                }
                let inner_name = if v.inner.size == 0 && !v.inner.is_copy
                    && (v.inner.kind == Type::Data || v.inner.kind == Type::Union
                        || v.inner.kind == Type::Function) {
                    self.stub_name(v.inner)
                } else {
                    self.type_name_rec(v.inner.kind, v.inner.index, Ghost((fuel - 1) as nat))
                };
                let mut out: String = "<".to_owned();
                out.append(inner_name.as_str());
                out.append(">");
                proof {
                    assert(out@ =~= spec_type_name(self@, kind, index as int, fuel));
                }
                out
            },
            Type::Pointer => {
                let p = self.pointers[index];
                proof {
                    assert(inner_depth_ok(self@, p.inner, (fuel - 1) as nat));
                    assert(inner_ok(self@, p.inner));
                }
                let mut out = if p.inner.size == 0 && !p.inner.is_copy
                    && (p.inner.kind == Type::Data || p.inner.kind == Type::Union
                        || p.inner.kind == Type::Function) {
                    self.stub_name(p.inner)
                } else {
                    self.type_name_rec(p.inner.kind, p.inner.index, Ghost((fuel - 1) as nat))
                };
                out.append("*");
                proof {
                    assert(out@ =~= spec_type_name(self@, kind, index as int, fuel));
                }
                out
            },
        }
    }

    /// The stored name a zero-sized self marker refers to.
    fn stub_name(&self, td: TypeData) -> (r: String)
        requires
            stub_like(td),
            valid_ref(self@, td.kind, td.index as int),
        ensures
            r@ == spec_inner_name(self@, td, 0),
            forall|f: nat| r@ == spec_inner_name(self@, td, f),
    {
        match td.kind {
            Type::Data => self.types[td.index].name.clone(),
            Type::Union => self.unions[td.index].name.clone(),
            _ => self.functions[td.index].name.clone(),
        }
    }

    /// The rendered name of the type at `(kind, index)`, or `None` when the
    /// table for `kind` holds no entry at `index`. Composite names like
    /// `[T:4]`, `<T>` and `T*` are built on demand rather than stored.
    pub fn name_of(&self, kind: Type, index: usize) -> (r: Option<String>)
        requires
            wf_query(self@),
            wf_composites(self@),
        ensures
            match r {
                Some(name) => valid_ref(self@, kind, index as int)
                    && name@ == spec_type_name(self@, kind, index as int, ref_budget(self@)),
                None => !valid_ref(self@, kind, index as int),
            },
    {
        let valid = match kind {
            Type::Primitive => index < 11,
            Type::Data => index < self.types.len(),
            Type::Enum => index < self.enums.len(),
            Type::Union => index < self.unions.len(),
            Type::Array => index < self.arrays.len(),
            Type::Vector => index < self.vectors.len(),
            Type::Pointer => index < self.pointers.len(),
            Type::String => true,
            Type::Function => index < self.functions.len(),
        };
        if !valid {
            return None;
        }
        proof {
            assert(depth_ok(self@, kind, index as int, ref_budget(self@))) by {
                match kind {
                    Type::Primitive | Type::Enum | Type::String => {
                        assert(ref_budget(self@) >= 1);
                    },
                    _ => {},
                }
            }
        }
        Some(self.type_name_rec(kind, index, Ghost(ref_budget(self@))))
    }
}

// ---------------------------------------------------------------------------
// What a union's alignment is
// ---------------------------------------------------------------------------

/// The largest member alignment is reached by some member, and never
/// undercut by any.
proof fn lemma_tds_align_max_achieves(s: SchemaV, tds: Seq<TypeData>, fuel: nat)
    ensures
        forall|j: int| 0 <= j < tds.len() ==> !stub_like(#[trigger] tds[j])
            ==> align_of_ref_fueled(s, tds[j].kind, tds[j].index as int, fuel)
                <= tds_align_max(s, tds, fuel),
        tds_align_max(s, tds, fuel) == 1
            || exists|j: int| 0 <= j < tds.len() && !stub_like(#[trigger] tds[j])
                && align_of_ref_fueled(s, tds[j].kind, tds[j].index as int, fuel)
                    == tds_align_max(s, tds, fuel),
    decreases tds.len(),
{
    if tds.len() != 0 {
        lemma_tds_align_max_achieves(s, tds.drop_last(), fuel);
        let rest = tds_align_max(s, tds.drop_last(), fuel);
        let td = tds.last();
        assert(td == tds[tds.len() - 1]);
        assert forall|j: int| 0 <= j < tds.len() implies !stub_like(#[trigger] tds[j])
            ==> align_of_ref_fueled(s, tds[j].kind, tds[j].index as int, fuel)
                <= tds_align_max(s, tds, fuel) by {
            if j < tds.len() - 1 {
                assert(tds.drop_last()[j] == tds[j]);
            }
        }
        if tds_align_max(s, tds, fuel) != 1 {
            if !stub_like(td)
                && align_of_ref_fueled(s, td.kind, td.index as int, fuel)
                    == tds_align_max(s, tds, fuel) {
                assert(!stub_like(tds[tds.len() - 1]));
            } else {
                assert(tds_align_max(s, tds, fuel) == rest);
                let j = choose|j: int| 0 <= j < tds.drop_last().len()
                    && !stub_like(#[trigger] tds.drop_last()[j])
                    && align_of_ref_fueled(s, tds.drop_last()[j].kind,
                        tds.drop_last()[j].index as int, fuel) == rest;
                assert(tds.drop_last()[j] == tds[j]);
            }
        }
    }
}

/// A union's alignment is the four-byte discriminant's joined with the
/// strictest member alignment: at least four, never undercut by a member,
/// and four or some member's alignment exactly.
pub proof fn lemma_union_align(s: SchemaV, i: int)
    requires
        wf_schema(s),
        0 <= i < s.unions.len(),
    ensures
        align_of_ref(s, Type::Union, i) >= 4,
        forall|j: int| 0 <= j < s.unions[i].possible_types.len()
            ==> !stub_like(#[trigger] s.unions[i].possible_types[j])
                ==> align_of_ref(s, s.unions[i].possible_types[j].kind,
                    s.unions[i].possible_types[j].index as int)
                    <= align_of_ref(s, Type::Union, i),
        align_of_ref(s, Type::Union, i) == 4
            || exists|j: int| 0 <= j < s.unions[i].possible_types.len()
                && !stub_like(#[trigger] s.unions[i].possible_types[j])
                && align_of_ref(s, s.unions[i].possible_types[j].kind,
                    s.unions[i].possible_types[j].index as int)
                    == align_of_ref(s, Type::Union, i),
{
    let tds = s.unions[i].possible_types;
    let budget = ref_budget(s);
    let fuel1 = (budget - 1) as nat;
    assert(depth_ok(s, Type::Union, i, budget));
    lemma_tds_align_max_achieves(s, tds, fuel1);
    lemma_tds_align_bounds(s, tds, fuel1);
    // a member's fueled alignment one step down is its canonical alignment
    assert forall|j: int| 0 <= j < tds.len() implies !stub_like(#[trigger] tds[j])
        ==> align_of_ref_fueled(s, tds[j].kind, tds[j].index as int, fuel1)
            == align_of_ref(s, tds[j].kind, tds[j].index as int) by {
        if !stub_like(tds[j]) {
            assert(inner_depth_ok(s, tds[j], fuel1));
            assert(depth_ok(s, tds[j].kind, tds[j].index as int, fuel1));
            match tds[j].kind {
                Type::Primitive | Type::Enum | Type::String => {
                    assert(depth_ok(s, tds[j].kind, tds[j].index as int, budget));
                },
                _ => {
                    assert(depth_ok(s, tds[j].kind, tds[j].index as int, budget));
                },
            }
            lemma_align_fuel(s, tds[j].kind, tds[j].index as int, fuel1, budget);
        }
    }
    let m = tds_align_max(s, tds, fuel1);
    assert(align_of_ref(s, Type::Union, i) == if m > 4 { m } else { 4 });
    if m > 4 {
        let j = choose|j: int| 0 <= j < tds.len() && !stub_like(#[trigger] tds[j])
            && align_of_ref_fueled(s, tds[j].kind, tds[j].index as int, fuel1) == m;
        assert(align_of_ref(s, tds[j].kind, tds[j].index as int)
            == align_of_ref(s, Type::Union, i));
    }
}

} // verus!
