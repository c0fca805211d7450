//! The type registry and resolver: consumes parsed declarations in order,
//! interning each newly-seen composite shape (array, vector, pointer) into
//! its own table, and produces a uniform memoized reference for every type
//! expression. A name resolves against the type currently being defined
//! first (the self reference), then the primitive catalog, then the tables
//! of already-registered types, in declaration order.

use vstd::prelude::*;

use crate::primitives::{spec_primitive_index_of, spec_primitive_size};
use crate::schema::{
    copy_of_ref, data_types_view, depth_ok, inner_ok, ref_budget, schema_extends, size_of_ref,
    stub_like, union_size, valid_ref, valid_td, wf_composites, wf_function_refs, wf_grounded,
    wf_interned, wf_schema, wf_sizes, wf_struct_fields, wf_union_members, Schema, SchemaV,
    array_shape, vector_shape, pointer_shape, data_size,
};
use crate::tokenizer::{FieldTokV, Token, TokenV, TypeExprV, Wrap, tokens_view};
use crate::types::{
    ArgV, ArrayType, DataTypeV, EnumTypeV, FieldV, FunctionTypeV, PointerType, Type, TypeData,
    UnionTypeV, VectorType, self_reference,
};

verus! {

// ---------------------------------------------------------------------------
// First-match search
// ---------------------------------------------------------------------------

/// The position of the first element equal to `x`, if any.
pub open spec fn find_first<T>(xs: Seq<T>, x: T) -> Option<int>
    decreases xs.len(),
{
    if xs.len() == 0 {
        None
    } else if xs[0] == x {
        Some(0int)
    } else {
        match find_first(xs.drop_first(), x) {
            Some(k) => Some(k + 1),
            None => None,
        }
    }
}

pub proof fn lemma_find_first_found<T>(xs: Seq<T>, x: T, k: int)
    requires
        0 <= k < xs.len(),
        xs[k] == x,
        forall|j: int| 0 <= j < k ==> xs[j] != x,
    ensures
        find_first(xs, x) == Some(k),
    decreases xs.len(),
{
    if k != 0 {
        let rest = xs.drop_first();
        assert(forall|j: int| 0 <= j < rest.len() ==> #[trigger] rest[j] == xs[j + 1]);
        assert forall|j: int| 0 <= j < k - 1 implies rest[j] != x by {
            assert(rest[j] == xs[j + 1]);
        }
        assert(rest[k - 1] == xs[k]);
        lemma_find_first_found(rest, x, k - 1);
    }
}

pub proof fn lemma_find_first_absent<T>(xs: Seq<T>, x: T)
    requires
        forall|j: int| 0 <= j < xs.len() ==> xs[j] != x,
    ensures
        find_first(xs, x) is None,
    decreases xs.len(),
{
    if xs.len() != 0 {
        let rest = xs.drop_first();
        assert forall|j: int| 0 <= j < rest.len() implies rest[j] != x by {
            assert(rest[j] == xs[j + 1]);
        }
        lemma_find_first_absent(rest, x);
    }
}

pub proof fn lemma_find_first_bounds<T>(xs: Seq<T>, x: T)
    ensures
        match find_first(xs, x) {
            Some(k) => 0 <= k < xs.len() && xs[k] == x
                && forall|j: int| 0 <= j < k ==> xs[j] != x,
            None => forall|j: int| 0 <= j < xs.len() ==> xs[j] != x,
        },
    decreases xs.len(),
{
    if xs.len() != 0 && xs[0] != x {
        let rest = xs.drop_first();
        lemma_find_first_bounds(rest, x);
        assert(forall|j: int| 0 <= j < rest.len() ==> #[trigger] rest[j] == xs[j + 1]);
        match find_first(rest, x) {
            Some(k) => {
                assert(xs[k + 1] == rest[k]);
                assert forall|j: int| 0 <= j < k + 1 implies xs[j] != x by {
                    if j > 0 {
                        assert(xs[j] == rest[j - 1]);
                    }
                }
            },
            None => {
                assert forall|j: int| 0 <= j < xs.len() implies xs[j] != x by {
                    if j > 0 {
                        assert(xs[j] == rest[j - 1]);
                    }
                }
            },
        }
    }
}

// ---------------------------------------------------------------------------
// Name tables and shapes
// ---------------------------------------------------------------------------

pub open spec fn data_names(s: SchemaV) -> Seq<Seq<char>> {
    s.types.map_values(|d: DataTypeV| d.name)
}

pub open spec fn enum_names(s: SchemaV) -> Seq<Seq<char>> {
    s.enums.map_values(|e: EnumTypeV| e.name)
}

pub open spec fn union_names(s: SchemaV) -> Seq<Seq<char>> {
    s.unions.map_values(|u: UnionTypeV| u.name)
}

pub open spec fn function_names(s: SchemaV) -> Seq<Seq<char>> {
    s.functions.map_values(|f: FunctionTypeV| f.name)
}

pub open spec fn array_shapes(s: SchemaV) -> Seq<(Type, int, int)> {
    s.arrays.map_values(|a: ArrayType| array_shape(a))
}

pub open spec fn vector_shapes(s: SchemaV) -> Seq<(Type, int)> {
    s.vectors.map_values(|v: VectorType| vector_shape(v))
}

pub open spec fn pointer_shapes(s: SchemaV) -> Seq<(Type, int)> {
    s.pointers.map_values(|p: PointerType| pointer_shape(p))
}

/// The memoized reference for the existing entry at `(kind, index)`.
pub open spec fn td_of(s: SchemaV, kind: Type, index: int) -> TypeData {
    TypeData {
        index: index as usize,
        kind,
        size: size_of_ref(s, kind, index) as usize,
        is_copy: copy_of_ref(s, kind, index),
    }
}

/// The table a definition of `kind` goes into is this long: the index the
/// pending definition will occupy once finished.
pub open spec fn pending_index(s: SchemaV, kind: Type) -> int {
    match kind {
        Type::Data => s.types.len() as int,
        Type::Union => s.unions.len() as int,
        Type::Function => s.functions.len() as int,
        _ => 0,
    }
}

// ---------------------------------------------------------------------------
// Well-formedness while one definition is open
// ---------------------------------------------------------------------------

/// While the definition of `(kind, index)` is still open, an interned
/// composite may refer to it by a self marker even though the entry is not
/// in its table yet.
pub open spec fn inner_ok_pending(s: SchemaV, td: TypeData, pend: Option<(Type, int)>) -> bool {
    inner_ok(s, td) || (stub_like(td) && pend == Some((td.kind, td.index as int)))
}

/// `wf_composites`, loosened to allow self markers of the open definition.
pub open spec fn wf_composites_pending(s: SchemaV, pend: Option<(Type, int)>) -> bool {
    &&& forall|i: int| 0 <= i < s.arrays.len()
        ==> inner_ok_pending(s, (#[trigger] s.arrays[i]).inner, pend)
    &&& forall|i: int| 0 <= i < s.vectors.len()
        ==> inner_ok_pending(s, (#[trigger] s.vectors[i]).inner, pend)
    &&& forall|i: int| 0 <= i < s.pointers.len()
        ==> inner_ok_pending(s, (#[trigger] s.pointers[i]).inner, pend)
}

/// The schema's invariant while the definition of `pend` is open; with no
/// open definition it is exactly `wf_schema`.
pub open spec fn wf_gen(s: SchemaV, pend: Option<(Type, int)>) -> bool {
    &&& wf_struct_fields(s)
    &&& wf_union_members(s)
    &&& wf_composites_pending(s, pend)
    &&& crate::schema::arrays_fit(s)
    &&& wf_function_refs(s)
    &&& wf_sizes(s)
    &&& wf_interned(s)
    &&& wf_grounded(s)
}

// ---------------------------------------------------------------------------
// The spec-level resolver
// ---------------------------------------------------------------------------

/// Resolution of a bare name: the type currently being defined first, then
/// the primitive catalog, then structs, enums, unions and functions in
/// declaration order, then the `String` sentinel. Never changes the schema.
pub open spec fn spec_resolve_named(
    s: SchemaV,
    ctx: Option<(Seq<char>, Type)>,
    name: Seq<char>,
) -> Option<TypeData> {
    if ctx matches Some((cn, ck)) && cn == name {
        let ck = ctx->Some_0.1;
        Some(self_reference(ck, pending_index(s, ck) as usize))
    } else {
        match spec_primitive_index_of(name) {
            Some(pi) => Some(td_of(s, Type::Primitive, pi as int)),
            None => match find_first(data_names(s), name) {
                Some(i) => Some(td_of(s, Type::Data, i)),
                None => match find_first(enum_names(s), name) {
                    Some(i) => Some(td_of(s, Type::Enum, i)),
                    None => match find_first(union_names(s), name) {
                        Some(i) => Some(td_of(s, Type::Union, i)),
                        None => match find_first(function_names(s), name) {
                            Some(i) => Some(td_of(s, Type::Function, i)),
                            None => if name == "String"@ {
                                Some(TypeData { index: 0, kind: Type::String, size: 24, is_copy: false })
                            } else {
                                None
                            },
                        },
                    },
                },
            },
        }
    }
}

/// Interning one wrapper around an already-resolved inner reference: reuse
/// the entry with the same structural shape if the table has one, append a
/// new entry otherwise. An array whose total size cannot fit the machine is
/// refused.
pub open spec fn spec_intern_wrap(s: SchemaV, td: TypeData, w: Wrap) -> Option<(SchemaV, TypeData)> {
    match w {
        Wrap::Arr(len) => {
            match find_first(array_shapes(s), (td.kind, td.index as int, len as int)) {
                Some(j) => Some((s, td_of(s, Type::Array, j))),
                None => {
                    if td.size * len <= usize::MAX {
                        let s2 = SchemaV { arrays: s.arrays.push(ArrayType { inner: td, len }), ..s };
                        Some((s2, td_of(s2, Type::Array, s.arrays.len() as int)))
                    } else {
                        None
                    }
                },
            }
        },
        Wrap::Vect => {
            match find_first(vector_shapes(s), (td.kind, td.index as int)) {
                Some(j) => Some((s, td_of(s, Type::Vector, j))),
                None => {
                    let s2 = SchemaV { vectors: s.vectors.push(VectorType { inner: td }), ..s };
                    Some((s2, td_of(s2, Type::Vector, s.vectors.len() as int)))
                },
            }
        },
        Wrap::Ptr => {
            match find_first(pointer_shapes(s), (td.kind, td.index as int)) {
                Some(j) => Some((s, td_of(s, Type::Pointer, j))),
                None => {
                    let s2 = SchemaV { pointers: s.pointers.push(PointerType { inner: td }), ..s };
                    Some((s2, td_of(s2, Type::Pointer, s.pointers.len() as int)))
                },
            }
        },
    }
}

/// Interning a whole wrapper chain, innermost first.
pub open spec fn spec_resolve_wraps(
    s: SchemaV,
    td: TypeData,
    wraps: Seq<Wrap>,
) -> Option<(SchemaV, TypeData)>
    decreases wraps.len(),
{
    if wraps.len() == 0 {
        Some((s, td))
    } else {
        match spec_intern_wrap(s, td, wraps[0]) {
            None => None,
            Some((s2, td2)) => spec_resolve_wraps(s2, td2, wraps.drop_first()),
        }
    }
}

/// Resolution of a whole type expression: the base name, then every wrapper.
pub open spec fn spec_resolve(
    s: SchemaV,
    ctx: Option<(Seq<char>, Type)>,
    t: TypeExprV,
) -> Option<(SchemaV, TypeData)> {
    match spec_resolve_named(s, ctx, t.base) {
        None => None,
        Some(td) => spec_resolve_wraps(s, td, t.wraps),
    }
}

// ---------------------------------------------------------------------------
// A measure over declaration trees
// ---------------------------------------------------------------------------

/// The size of one declaration, counting the declarations an include splices
/// in.
pub open spec fn token_size(t: TokenV) -> nat
    decreases t, 0nat,
{
    match t {
        TokenV::Include(_path, sub) => 1 + tokens_size(sub),
        _ => 1,
    }
}

/// The total size of a declaration sequence.
pub open spec fn tokens_size(ts: Seq<TokenV>) -> nat
    decreases ts, ts.len(),
{
    if ts.len() == 0 {
        0
    } else {
        token_size(ts[0]) + tokens_size(ts.drop_first())
    }
}

pub proof fn lemma_tokens_size_element(ts: Seq<TokenV>, k: int)
    requires
        0 <= k < ts.len(),
    ensures
        token_size(ts[k]) <= tokens_size(ts),
    decreases ts.len(),
{
    if k > 0 {
        let rest = ts.drop_first();
        lemma_tokens_size_element(rest, k - 1);
        assert(rest[k - 1] == ts[k]);
    }
}

// ---------------------------------------------------------------------------
// The spec-level registry: one declaration at a time
// ---------------------------------------------------------------------------

/// Registration of a struct's fields, in order: each type expression is
/// resolved (interning as it goes) and the field is given the running byte
/// offset of the packed prefix before it. Refused when an offset would not
/// fit the machine.
pub open spec fn spec_gen_fields(
    s: SchemaV,
    struct_name: Seq<char>,
    fields: Seq<FieldTokV>,
    offset: int,
) -> Option<(SchemaV, Seq<FieldV>)>
    decreases fields.len(),
{
    if fields.len() == 0 {
        Some((s, Seq::empty()))
    } else {
        match spec_resolve(s, Some((struct_name, Type::Data)), fields[0].ty) {
            None => None,
            Some((s2, td)) => {
                if offset + td.size > usize::MAX {
                    None
                } else {
                    let f = FieldV {
                        name: fields[0].name,
                        type_data: td,
                        offset: offset as usize,
                        padding_size: 0,
                    };
                    match spec_gen_fields(s2, struct_name, fields.drop_first(), offset + td.size) {
                        None => None,
                        Some((s3, rest)) => Some((s3, seq![f] + rest)),
                    }
                }
            },
        }
    }
}

/// Registration of one struct declaration: fields resolved in order against
/// a schema that does not yet hold the struct, then the struct appended.
/// Refused when its total size would not fit the machine.
pub open spec fn spec_gen_struct(
    s: SchemaV,
    attrs: Seq<(Seq<char>, Seq<char>)>,
    name: Seq<char>,
    fields: Seq<FieldTokV>,
) -> Option<SchemaV> {
    match spec_gen_fields(s, name, fields, 0) {
        None => None,
        Some((s2, fs)) => {
            let dt = DataTypeV { name, fields: fs, attributes: attrs };
            let s3 = SchemaV { types: s2.types.push(dt), ..s2 };
            if data_size(s3, s2.types.len() as int) <= usize::MAX {
                Some(s3)
            } else {
                None
            }
        },
    }
}

/// Registration of one enumeration: variants are carried as names; the
/// representation is always the four-byte signed integer.
pub open spec fn spec_gen_enum(
    s: SchemaV,
    attrs: Seq<(Seq<char>, Seq<char>)>,
    name: Seq<char>,
    variants: Seq<Seq<char>>,
) -> SchemaV {
    SchemaV {
        enums: s.enums.push(EnumTypeV { name, variants, attributes: attrs }),
        ..s
    }
}

/// Resolution of a union's member names, in order; members are bare names,
/// so the schema never changes.
pub open spec fn spec_gen_members(
    s: SchemaV,
    union_name: Seq<char>,
    variants: Seq<Seq<char>>,
) -> Option<Seq<TypeData>>
    decreases variants.len(),
{
    if variants.len() == 0 {
        Some(Seq::empty())
    } else {
        match spec_resolve_named(s, Some((union_name, Type::Union)), variants[0]) {
            None => None,
            Some(td) => {
                match spec_gen_members(s, union_name, variants.drop_first()) {
                    None => None,
                    Some(rest) => Some(seq![td] + rest),
                }
            },
        }
    }
}

/// Registration of one union declaration. A union with no members is
/// refused (it would have no size), and so is one whose size would not fit
/// the machine.
pub open spec fn spec_gen_union(
    s: SchemaV,
    attrs: Seq<(Seq<char>, Seq<char>)>,
    name: Seq<char>,
    variants: Seq<Seq<char>>,
) -> Option<SchemaV> {
    if variants.len() == 0 {
        None
    } else {
        match spec_gen_members(s, name, variants) {
            None => None,
            Some(tds) => {
                let ut = UnionTypeV { name, possible_types: tds, attributes: attrs };
                if union_size(ut) <= usize::MAX {
                    Some(SchemaV { unions: s.unions.push(ut), ..s })
                } else {
                    None
                }
            },
        }
    }
}

/// Resolution of a function's arguments, in order, interning as it goes.
pub open spec fn spec_gen_args(
    s: SchemaV,
    fn_name: Seq<char>,
    args: Seq<(Seq<char>, TypeExprV)>,
) -> Option<(SchemaV, Seq<ArgV>)>
    decreases args.len(),
{
    if args.len() == 0 {
        Some((s, Seq::empty()))
    } else {
        match spec_resolve(s, Some((fn_name, Type::Function)), args[0].1) {
            None => None,
            Some((s2, td)) => {
                match spec_gen_args(s2, fn_name, args.drop_first()) {
                    None => None,
                    Some((s3, rest)) => Some((
                        s3,
                        seq![ArgV { name: args[0].0, type_data: Some(td) }] + rest,
                    )),
                }
            },
        }
    }
}

/// Registration of one function declaration.
pub open spec fn spec_gen_function(
    s: SchemaV,
    name: Seq<char>,
    args: Seq<(Seq<char>, TypeExprV)>,
    ret: Option<TypeExprV>,
) -> Option<SchemaV> {
    match spec_gen_args(s, name, args) {
        None => None,
        Some((s2, argvs)) => {
            match ret {
                None => Some(SchemaV {
                    functions: s2.functions.push(FunctionTypeV {
                        name,
                        args: argvs,
                        return_type: None,
                    }),
                    ..s2
                }),
                Some(rt) => {
                    match spec_resolve(s2, Some((name, Type::Function)), rt) {
                        None => None,
                        Some((s3, td)) => Some(SchemaV {
                            functions: s3.functions.push(FunctionTypeV {
                                name,
                                args: argvs,
                                return_type: Some(td),
                            }),
                            ..s3
                        }),
                    }
                },
            }
        },
    }
}

/// Registration of one declaration; an include's declarations are processed
/// in place, against the same schema.
pub open spec fn spec_gen_token(s: SchemaV, t: TokenV) -> Option<SchemaV>
    decreases token_size(t), 0int,
{
    match t {
        TokenV::Struct(attrs, name, fields) => spec_gen_struct(s, attrs, name, fields),
        TokenV::Enum(attrs, name, variants) => Some(spec_gen_enum(s, attrs, name, variants)),
        TokenV::Union(attrs, name, variants) => spec_gen_union(s, attrs, name, variants),
        TokenV::Function(name, args, ret) => spec_gen_function(s, name, args, ret),
        TokenV::Include(_path, sub) => spec_gen_tokens(s, sub, 0),
    }
}

/// Registration of the declarations from `i` on, in order.
pub open spec fn spec_gen_tokens(s: SchemaV, ts: Seq<TokenV>, i: int) -> Option<SchemaV>
    decreases tokens_size(ts), ts.len() - i,
    via spec_gen_tokens_decreases
{
    if i < 0 || i >= ts.len() {
        Some(s)
    } else {
        match spec_gen_token(s, ts[i]) {
            None => None,
            Some(s2) => spec_gen_tokens(s2, ts, i + 1),
        }
    }
}

#[via_fn]
proof fn spec_gen_tokens_decreases(s: SchemaV, ts: Seq<TokenV>, i: int) {
    if 0 <= i < ts.len() {
        lemma_tokens_size_element(ts, i);
    }
}

/// The whole pipeline's entry state: an empty, non-packed schema.
pub open spec fn empty_schema() -> SchemaV {
    SchemaV {
        is_packed: false,
        types: Seq::empty(),
        enums: Seq::empty(),
        unions: Seq::empty(),
        arrays: Seq::empty(),
        vectors: Seq::empty(),
        pointers: Seq::empty(),
        functions: Seq::empty(),
    }
}

// ---------------------------------------------------------------------------
// Folding one more wrapper
// ---------------------------------------------------------------------------

/// Interning a chain and then one more wrapper is interning the extended
/// chain.
pub proof fn lemma_resolve_wraps_push(s: SchemaV, td: TypeData, wraps: Seq<Wrap>, w: Wrap)
    ensures
        spec_resolve_wraps(s, td, wraps.push(w)) == match spec_resolve_wraps(s, td, wraps) {
            None => None::<(SchemaV, TypeData)>,
            Some((s2, td2)) => spec_intern_wrap(s2, td2, w),
        },
    decreases wraps.len(),
{
    reveal_with_fuel(spec_resolve_wraps, 3);
    if wraps.len() == 0 {
        assert(wraps.push(w)[0] == w);
        assert(wraps.push(w).drop_first() =~= Seq::<Wrap>::empty());
    } else {
        assert(wraps.push(w)[0] == wraps[0]);
        assert(wraps.push(w).drop_first() =~= wraps.drop_first().push(w));
        match spec_intern_wrap(s, td, wraps[0]) {
            None => {},
            Some((s2, td2)) => {
                lemma_resolve_wraps_push(s2, td2, wraps.drop_first(), w);
            },
        }
    }
}

// ---------------------------------------------------------------------------
// Pushing one interned composite keeps the schema well-formed
// ---------------------------------------------------------------------------

/// The common part: a schema extended by entries only (no entry changed)
/// keeps every structural clause.
proof fn lemma_wf_clauses_extend(s: SchemaV, s2: SchemaV, pend: Option<(Type, int)>)
    requires
        wf_gen(s, pend),
        schema_extends(s, s2),
        s2.types == s.types,
        s2.unions == s.unions,
        s2.functions == s.functions,
    ensures
        wf_struct_fields(s2),
        wf_union_members(s2),
        wf_function_refs(s2),
        wf_sizes(s2),
        forall|i: int| 0 <= i < s.arrays.len()
            ==> inner_ok_pending(s2, (#[trigger] s.arrays[i]).inner, pend),
        forall|i: int| 0 <= i < s.vectors.len()
            ==> inner_ok_pending(s2, (#[trigger] s.vectors[i]).inner, pend),
        forall|i: int| 0 <= i < s.pointers.len()
            ==> inner_ok_pending(s2, (#[trigger] s.pointers[i]).inner, pend),
{
    assert forall|i: int, j: int| 0 <= i < s2.types.len() && 0 <= j < s2.types[i].fields.len()
        implies valid_td(s2, #[trigger] s2.types[i].fields[j].type_data)
            || crate::schema::is_self_field(s2.types[i].fields[j], i) by {
        if !crate::schema::is_self_field(s2.types[i].fields[j], i) {
            crate::schema::lemma_valid_td_extends(s, s2, s2.types[i].fields[j].type_data);
        }
    }
    assert forall|i: int| 0 <= i < s2.unions.len()
        implies (#[trigger] s2.unions[i].possible_types).len() >= 1
            && forall|j: int| 0 <= j < s2.unions[i].possible_types.len()
                ==> valid_td(s2, #[trigger] s2.unions[i].possible_types[j])
                    || (stub_like(s2.unions[i].possible_types[j])
                        && s2.unions[i].possible_types[j].kind == Type::Union
                        && s2.unions[i].possible_types[j].index == i) by {
        assert forall|j: int| 0 <= j < s2.unions[i].possible_types.len()
            implies valid_td(s2, #[trigger] s2.unions[i].possible_types[j])
                || (stub_like(s2.unions[i].possible_types[j])
                    && s2.unions[i].possible_types[j].kind == Type::Union
                    && s2.unions[i].possible_types[j].index == i) by {
            let td = s2.unions[i].possible_types[j];
            if valid_td(s, td) {
                crate::schema::lemma_valid_td_extends(s, s2, td);
            }
        }
    }
    assert forall|i: int| 0 <= i < s2.functions.len() implies {
        &&& forall|j: int| 0 <= j < (#[trigger] s2.functions[i]).args.len()
            ==> match #[trigger] s2.functions[i].args[j].type_data {
                Some(td) => valid_td(s2, td)
                    || (stub_like(td) && td.kind == Type::Function && td.index == i),
                None => true,
            }
        &&& match s2.functions[i].return_type {
            Some(td) => valid_td(s2, td)
                || (stub_like(td) && td.kind == Type::Function && td.index == i),
            None => true,
        }
    } by {
        assert forall|j: int| 0 <= j < s2.functions[i].args.len()
            implies match #[trigger] s2.functions[i].args[j].type_data {
                Some(td) => valid_td(s2, td)
                    || (stub_like(td) && td.kind == Type::Function && td.index == i),
                None => true,
            } by {
            match s2.functions[i].args[j].type_data {
                Some(td) => {
                    if valid_td(s, td) {
                        crate::schema::lemma_valid_td_extends(s, s2, td);
                    }
                },
                None => {},
            }
        }
        match s2.functions[i].return_type {
            Some(td) => {
                if valid_td(s, td) {
                    crate::schema::lemma_valid_td_extends(s, s2, td);
                }
            },
            None => {},
        }
    }
    assert forall|i: int| 0 <= i < s2.types.len()
        implies 0 <= #[trigger] data_size(s2, i) <= usize::MAX by {
        assert(data_size(s2, i) == data_size(s, i));
    }
    assert forall|i: int| 0 <= i < s.arrays.len()
        implies inner_ok_pending(s2, (#[trigger] s.arrays[i]).inner, pend) by {
        let td = s.arrays[i].inner;
        if valid_td(s, td) {
            crate::schema::lemma_valid_td_extends(s, s2, td);
        }
    }
    assert forall|i: int| 0 <= i < s.vectors.len()
        implies inner_ok_pending(s2, (#[trigger] s.vectors[i]).inner, pend) by {
        let td = s.vectors[i].inner;
        if valid_td(s, td) {
            crate::schema::lemma_valid_td_extends(s, s2, td);
        }
    }
    assert forall|i: int| 0 <= i < s.pointers.len()
        implies inner_ok_pending(s2, (#[trigger] s.pointers[i]).inner, pend) by {
        let td = s.pointers[i].inner;
        if valid_td(s, td) {
            crate::schema::lemma_valid_td_extends(s, s2, td);
        }
    }
}

/// Groundedness carries over to a schema with entries appended, at the new
/// budget.
proof fn lemma_grounded_extend(s: SchemaV, s2: SchemaV)
    requires
        wf_grounded(s),
        schema_extends(s, s2),
    ensures
        forall|i: int| 0 <= i < s.types.len()
            ==> #[trigger] depth_ok(s2, Type::Data, i, ref_budget(s2)),
        forall|i: int| 0 <= i < s.unions.len()
            ==> #[trigger] depth_ok(s2, Type::Union, i, ref_budget(s2)),
        forall|i: int| 0 <= i < s.arrays.len()
            ==> #[trigger] depth_ok(s2, Type::Array, i, ref_budget(s2)),
        forall|i: int| 0 <= i < s.vectors.len()
            ==> #[trigger] depth_ok(s2, Type::Vector, i, ref_budget(s2)),
        forall|i: int| 0 <= i < s.pointers.len()
            ==> #[trigger] depth_ok(s2, Type::Pointer, i, ref_budget(s2)),
        forall|i: int| 0 <= i < s.functions.len()
            ==> #[trigger] depth_ok(s2, Type::Function, i, ref_budget(s2)),
{
    assert(ref_budget(s) <= ref_budget(s2));
    assert forall|i: int| 0 <= i < s.types.len()
        implies #[trigger] depth_ok(s2, Type::Data, i, ref_budget(s2)) by {
        crate::schema::lemma_depth_ok_extends(s, s2, Type::Data, i, ref_budget(s));
        crate::schema::lemma_depth_ok_mono(s2, Type::Data, i, ref_budget(s), ref_budget(s2));
    }
    assert forall|i: int| 0 <= i < s.unions.len()
        implies #[trigger] depth_ok(s2, Type::Union, i, ref_budget(s2)) by {
        crate::schema::lemma_depth_ok_extends(s, s2, Type::Union, i, ref_budget(s));
        crate::schema::lemma_depth_ok_mono(s2, Type::Union, i, ref_budget(s), ref_budget(s2));
    }
    assert forall|i: int| 0 <= i < s.arrays.len()
        implies #[trigger] depth_ok(s2, Type::Array, i, ref_budget(s2)) by {
        crate::schema::lemma_depth_ok_extends(s, s2, Type::Array, i, ref_budget(s));
        crate::schema::lemma_depth_ok_mono(s2, Type::Array, i, ref_budget(s), ref_budget(s2));
    }
    assert forall|i: int| 0 <= i < s.vectors.len()
        implies #[trigger] depth_ok(s2, Type::Vector, i, ref_budget(s2)) by {
        crate::schema::lemma_depth_ok_extends(s, s2, Type::Vector, i, ref_budget(s));
        crate::schema::lemma_depth_ok_mono(s2, Type::Vector, i, ref_budget(s), ref_budget(s2));
    }
    assert forall|i: int| 0 <= i < s.pointers.len()
        implies #[trigger] depth_ok(s2, Type::Pointer, i, ref_budget(s2)) by {
        crate::schema::lemma_depth_ok_extends(s, s2, Type::Pointer, i, ref_budget(s));
        crate::schema::lemma_depth_ok_mono(s2, Type::Pointer, i, ref_budget(s), ref_budget(s2));
    }
    assert forall|i: int| 0 <= i < s.functions.len()
        implies #[trigger] depth_ok(s2, Type::Function, i, ref_budget(s2)) by {
        crate::schema::lemma_depth_ok_extends(s, s2, Type::Function, i, ref_budget(s));
        crate::schema::lemma_depth_ok_mono(s2, Type::Function, i, ref_budget(s), ref_budget(s2));
    }
}

// ---------------------------------------------------------------------------
// The executable searches
// ---------------------------------------------------------------------------

fn find_data_index(schema: &Schema, name: &str) -> (r: Option<usize>)
    ensures
        match r {
            Some(k) => find_first(data_names(schema@), name@) == Some(k as int),
            None => find_first(data_names(schema@), name@) is None,
        },
{
    let ghost names = data_names(schema@);
    let n = schema.types.len();
    let mut k: usize = 0;
    while k < n
        invariant
            k <= n,
            n == schema.types@.len(),
            names == data_names(schema@),
            names.len() == n,
            forall|j: int| 0 <= j < n ==> names[j] == (#[trigger] schema.types@[j])@.name,
            forall|j: int| 0 <= j < k ==> names[j] != name@,
        decreases n - k,
    {
        if crate::primitives::str_eq(schema.types[k].name.as_str(), name) {
            proof {
                lemma_find_first_found(names, name@, k as int);
            }
            return Some(k);
        }
        k = k + 1;
    }
    proof {
        lemma_find_first_absent(names, name@);
    }
    None
}

fn find_enum_index(schema: &Schema, name: &str) -> (r: Option<usize>)
    ensures
        match r {
            Some(k) => find_first(enum_names(schema@), name@) == Some(k as int),
            None => find_first(enum_names(schema@), name@) is None,
        },
{
    let ghost names = enum_names(schema@);
    let n = schema.enums.len();
    let mut k: usize = 0;
    while k < n
        invariant
            k <= n,
            n == schema.enums@.len(),
            names == enum_names(schema@),
            names.len() == n,
            forall|j: int| 0 <= j < n ==> names[j] == (#[trigger] schema.enums@[j])@.name,
            forall|j: int| 0 <= j < k ==> names[j] != name@,
        decreases n - k,
    {
        if crate::primitives::str_eq(schema.enums[k].name.as_str(), name) {
            proof {
                lemma_find_first_found(names, name@, k as int);
            }
            return Some(k);
        }
        k = k + 1;
    }
    proof {
        lemma_find_first_absent(names, name@);
    }
    None
}

fn find_union_index(schema: &Schema, name: &str) -> (r: Option<usize>)
    ensures
        match r {
            Some(k) => find_first(union_names(schema@), name@) == Some(k as int),
            None => find_first(union_names(schema@), name@) is None,
        },
{
    let ghost names = union_names(schema@);
    let n = schema.unions.len();
    let mut k: usize = 0;
    while k < n
        invariant
            k <= n,
            n == schema.unions@.len(),
            names == union_names(schema@),
            names.len() == n,
            forall|j: int| 0 <= j < n ==> names[j] == (#[trigger] schema.unions@[j])@.name,
            forall|j: int| 0 <= j < k ==> names[j] != name@,
        decreases n - k,
    {
        if crate::primitives::str_eq(schema.unions[k].name.as_str(), name) {
            proof {
                lemma_find_first_found(names, name@, k as int);
            }
            return Some(k);
        }
        k = k + 1;
    }
    proof {
        lemma_find_first_absent(names, name@);
    }
    None
}

fn find_function_index(schema: &Schema, name: &str) -> (r: Option<usize>)
    ensures
        match r {
            Some(k) => find_first(function_names(schema@), name@) == Some(k as int),
            None => find_first(function_names(schema@), name@) is None,
        },
{
    let ghost names = function_names(schema@);
    let n = schema.functions.len();
    let mut k: usize = 0;
    while k < n
        invariant
            k <= n,
            n == schema.functions@.len(),
            names == function_names(schema@),
            names.len() == n,
            forall|j: int| 0 <= j < n ==> names[j] == (#[trigger] schema.functions@[j])@.name,
            forall|j: int| 0 <= j < k ==> names[j] != name@,
        decreases n - k,
    {
        if crate::primitives::str_eq(schema.functions[k].name.as_str(), name) {
            proof {
                lemma_find_first_found(names, name@, k as int);
            }
            return Some(k);
        }
        k = k + 1;
    }
    proof {
        lemma_find_first_absent(names, name@);
    }
    None
}

fn find_array_index(schema: &Schema, inner_kind: Type, inner_index: usize, len: usize) -> (r: Option<usize>)
    ensures
        match r {
            Some(k) => find_first(array_shapes(schema@), (inner_kind, inner_index as int, len as int))
                == Some(k as int),
            None => find_first(array_shapes(schema@), (inner_kind, inner_index as int, len as int))
                is None,
        },
{
    let ghost shapes = array_shapes(schema@);
    let ghost target = (inner_kind, inner_index as int, len as int);
    let n = schema.arrays.len();
    let mut k: usize = 0;
    while k < n
        invariant
            k <= n,
            n == schema.arrays@.len(),
            shapes == array_shapes(schema@),
            target == (inner_kind, inner_index as int, len as int),
            shapes.len() == n,
            forall|j: int| 0 <= j < n ==> shapes[j] == array_shape(#[trigger] schema.arrays@[j]),
            forall|j: int| 0 <= j < k ==> shapes[j] != target,
        decreases n - k,
    {
        let a = schema.arrays[k];
        if a.inner.kind == inner_kind && a.inner.index == inner_index && a.len == len {
            proof {
                lemma_find_first_found(shapes, target, k as int);
            }
            return Some(k);
        }
        k = k + 1;
    }
    proof {
        lemma_find_first_absent(shapes, target);
    }
    None
}

fn find_vector_index(schema: &Schema, inner_kind: Type, inner_index: usize) -> (r: Option<usize>)
    ensures
        match r {
            Some(k) => find_first(vector_shapes(schema@), (inner_kind, inner_index as int))
                == Some(k as int),
            None => find_first(vector_shapes(schema@), (inner_kind, inner_index as int)) is None,
        },
{
    let ghost shapes = vector_shapes(schema@);
    let ghost target = (inner_kind, inner_index as int);
    let n = schema.vectors.len();
    let mut k: usize = 0;
    while k < n
        invariant
            k <= n,
            n == schema.vectors@.len(),
            shapes == vector_shapes(schema@),
            target == (inner_kind, inner_index as int),
            shapes.len() == n,
            forall|j: int| 0 <= j < n ==> shapes[j] == vector_shape(#[trigger] schema.vectors@[j]),
            forall|j: int| 0 <= j < k ==> shapes[j] != target,
        decreases n - k,
    {
        let v = schema.vectors[k];
        if v.inner.kind == inner_kind && v.inner.index == inner_index {
            proof {
                lemma_find_first_found(shapes, target, k as int);
            }
            return Some(k);
        }
        k = k + 1;
    }
    proof {
        lemma_find_first_absent(shapes, target);
    }
    None
}

fn find_pointer_index(schema: &Schema, inner_kind: Type, inner_index: usize) -> (r: Option<usize>)
    ensures
        match r {
            Some(k) => find_first(pointer_shapes(schema@), (inner_kind, inner_index as int))
                == Some(k as int),
            None => find_first(pointer_shapes(schema@), (inner_kind, inner_index as int)) is None,
        },
{
    let ghost shapes = pointer_shapes(schema@);
    let ghost target = (inner_kind, inner_index as int);
    let n = schema.pointers.len();
    let mut k: usize = 0;
    while k < n
        invariant
            k <= n,
            n == schema.pointers@.len(),
            shapes == pointer_shapes(schema@),
            target == (inner_kind, inner_index as int),
            shapes.len() == n,
            forall|j: int| 0 <= j < n ==> shapes[j] == pointer_shape(#[trigger] schema.pointers@[j]),
            forall|j: int| 0 <= j < k ==> shapes[j] != target,
        decreases n - k,
    {
        let p = schema.pointers[k];
        if p.inner.kind == inner_kind && p.inner.index == inner_index {
            proof {
                lemma_find_first_found(shapes, target, k as int);
            }
            return Some(k);
        }
        k = k + 1;
    }
    proof {
        lemma_find_first_absent(shapes, target);
    }
    None
}

// ---------------------------------------------------------------------------
// The executable resolver
// ---------------------------------------------------------------------------

/// The ghost image of an optional self-reference context.
pub open spec fn ctx_view(ctx_name: Option<&str>, ctx_kind: Type) -> Option<(Seq<char>, Type)> {
    match ctx_name {
        Some(n) => Some((n@, ctx_kind)),
        None => None,
    }
}

/// Resolution of a bare name against the schema; reads only.
fn resolve_named(schema: &Schema, ctx_name: Option<&str>, ctx_kind: Type, name: &str) -> (r: Option<TypeData>)
    requires
        crate::schema::wf_query(schema@),
        ctx_name is Some ==> ctx_kind == Type::Data || ctx_kind == Type::Union
            || ctx_kind == Type::Function,
    ensures
        r == spec_resolve_named(schema@, ctx_view(ctx_name, ctx_kind), name@),
        match r {
            Some(td) => valid_td(schema@, td)
                || (ctx_name is Some && stub_like(td) && td.kind == ctx_kind
                    && td.index as int == pending_index(schema@, ctx_kind)),
            None => true,
        },
{
    let ghost s = schema@;
    if let Some(cn) = ctx_name {
        if crate::primitives::str_eq(cn, name) {
            let idx = match ctx_kind {
                Type::Data => schema.types.len(),
                Type::Union => schema.unions.len(),
                Type::Function => schema.functions.len(),
                _ => 0,
            };
            return Some(TypeData { index: idx, kind: ctx_kind, size: 0, is_copy: false });
        }
    }
    let prims = crate::primitives::Primitives::new();
    if let Some(pi) = prims.index_of(name) {
        let p = prims.index(pi).unwrap();
        return Some(TypeData { index: pi, kind: Type::Primitive, size: p.size, is_copy: true });
    }
    if let Some(i) = find_data_index(schema, name) {
        proof {
            lemma_find_first_bounds(data_names(s), name@);
        }
        let size = schema.base_size_of(Type::Data, i).unwrap();
        let is_copy = schema.is_copy(Type::Data, i).unwrap();
        return Some(TypeData { index: i, kind: Type::Data, size, is_copy });
    }
    if let Some(i) = find_enum_index(schema, name) {
        proof {
            lemma_find_first_bounds(enum_names(s), name@);
        }
        return Some(TypeData { index: i, kind: Type::Enum, size: 4, is_copy: true });
    }
    if let Some(i) = find_union_index(schema, name) {
        proof {
            lemma_find_first_bounds(union_names(s), name@);
        }
        let size = schema.base_size_of(Type::Union, i).unwrap();
        let is_copy = schema.is_copy(Type::Union, i).unwrap();
        return Some(TypeData { index: i, kind: Type::Union, size, is_copy });
    }
    if let Some(i) = find_function_index(schema, name) {
        proof {
            lemma_find_first_bounds(function_names(s), name@);
        }
        return Some(TypeData { index: i, kind: Type::Function, size: 8, is_copy: true });
    }
    if crate::primitives::str_eq(name, "String") {
        return Some(TypeData { index: 0, kind: Type::String, size: 24, is_copy: false });
    }
    None
}

/// What the resolver guarantees of the reference it hands back: fully
/// consistent, or the open definition's self marker.
pub open spec fn resolved_ok(s: SchemaV, td: TypeData, pend: Option<(Type, int)>) -> bool {
    valid_td(s, td) || (stub_like(td) && pend == Some((td.kind, td.index as int)))
}

/// A resolved reference is grounded unless it is a self marker.
proof fn lemma_resolved_grounded(s: SchemaV, td: TypeData, pend: Option<(Type, int)>)
    requires
        wf_gen(s, pend),
        resolved_ok(s, td, pend),
        !stub_like(td),
    ensures
        depth_ok(s, td.kind, td.index as int, ref_budget(s)),
{
    assert(ref_budget(s) >= 1);
    match td.kind {
        Type::Primitive | Type::Enum | Type::String => {},
        _ => {},
    }
}

/// Interning one array shape. The schema gains at most one array entry;
/// every other table is untouched.
fn intern_array(schema: &mut Schema, td: TypeData, len: usize, Ghost(pend): Ghost<Option<(Type, int)>>) -> (r: Option<TypeData>)
    requires
        wf_gen(old(schema)@, pend),
        resolved_ok(old(schema)@, td, pend),
    ensures
        wf_gen(final(schema)@, pend),
        schema_extends(old(schema)@, final(schema)@),
        final(schema)@.types == old(schema)@.types,
        final(schema)@.enums == old(schema)@.enums,
        final(schema)@.unions == old(schema)@.unions,
        final(schema)@.functions == old(schema)@.functions,
        final(schema)@.is_packed == old(schema)@.is_packed,
        match r {
            Some(td2) => spec_intern_wrap(old(schema)@, td, Wrap::Arr(len))
                == Some((final(schema)@, td2)) && resolved_ok(final(schema)@, td2, pend)
                && !stub_like(td2),
            None => spec_intern_wrap(old(schema)@, td, Wrap::Arr(len)) is None
                && final(schema)@ == old(schema)@,
        },
{
    let ghost s = schema@;
    match find_array_index(schema, td.kind, td.index, len) {
        Some(j) => {
            proof {
                lemma_find_first_bounds(array_shapes(s), (td.kind, td.index as int, len as int));
            }
            let size = schema.base_size_of(Type::Array, j).unwrap();
            let is_copy = schema.is_copy(Type::Array, j).unwrap();
            Some(TypeData { index: j, kind: Type::Array, size, is_copy })
        },
        None => {
            let size = match td.size.checked_mul(len) {
                Some(v) => v,
                None => {
                    return None;
                },
            };
            let new_index = schema.arrays.len();
            schema.arrays.push(ArrayType { inner: td, len });
            proof {
                let s2 = final(schema)@;
                assert(s2.arrays =~= s.arrays.push(ArrayType { inner: td, len }));
                assert(s2 =~= (SchemaV { arrays: s.arrays.push(ArrayType { inner: td, len }), ..s }));
                assert(schema_extends(s, s2));
                lemma_wf_clauses_extend(s, s2, pend);
                // the new entry: shape freshness, fit, inner reference, groundedness
                lemma_find_first_bounds(array_shapes(s), (td.kind, td.index as int, len as int));
                assert forall|i: int, j: int| 0 <= i < j < s2.arrays.len()
                    implies array_shape(#[trigger] s2.arrays[i]) != array_shape(#[trigger] s2.arrays[j]) by {
                    if j < s.arrays.len() {
                        assert(array_shape(s.arrays[i]) != array_shape(s.arrays[j]));
                    } else {
                        assert(array_shapes(s)[i] == array_shape(s.arrays[i]));
                    }
                }
                if valid_td(s, td) {
                    crate::schema::lemma_valid_td_extends(s, s2, td);
                }
                assert(inner_ok_pending(s2, td, pend));
                assert forall|i: int| 0 <= i < s2.arrays.len()
                    implies inner_ok_pending(s2, (#[trigger] s2.arrays[i]).inner, pend)
                        && s2.arrays[i].inner.size * s2.arrays[i].len <= usize::MAX by {
                    if i < s.arrays.len() {
                        assert(s2.arrays[i] == s.arrays[i]);
                        assert(inner_ok_pending(s2, s.arrays[i].inner, pend));
                    }
                }
                lemma_grounded_extend(s, s2);
                assert(depth_ok(s2, Type::Array, new_index as int, ref_budget(s2))) by {
                    if !stub_like(td) {
                        lemma_resolved_grounded(s, td, pend);
                        crate::schema::lemma_depth_ok_extends(s, s2, td.kind, td.index as int, ref_budget(s));
                        crate::schema::lemma_depth_ok_mono(s2, td.kind, td.index as int, ref_budget(s), (ref_budget(s2) - 1) as nat);
                    }
                }
                assert forall|i: int| 0 <= i < s2.arrays.len()
                    implies #[trigger] depth_ok(s2, Type::Array, i, ref_budget(s2)) by {}
                assert(wf_gen(s2, pend));
            }
            Some(TypeData { index: new_index, kind: Type::Array, size, is_copy: td.is_copy })
        },
    }
}

/// Interning one vector shape.
fn intern_vector(schema: &mut Schema, td: TypeData, Ghost(pend): Ghost<Option<(Type, int)>>) -> (r: TypeData)
    requires
        wf_gen(old(schema)@, pend),
        resolved_ok(old(schema)@, td, pend),
    ensures
        wf_gen(final(schema)@, pend),
        schema_extends(old(schema)@, final(schema)@),
        final(schema)@.types == old(schema)@.types,
        final(schema)@.enums == old(schema)@.enums,
        final(schema)@.unions == old(schema)@.unions,
        final(schema)@.functions == old(schema)@.functions,
        final(schema)@.is_packed == old(schema)@.is_packed,
        spec_intern_wrap(old(schema)@, td, Wrap::Vect) == Some((final(schema)@, r)),
        resolved_ok(final(schema)@, r, pend),
        !stub_like(r),
{
    let ghost s = schema@;
    match find_vector_index(schema, td.kind, td.index) {
        Some(j) => {
            proof {
                lemma_find_first_bounds(vector_shapes(s), (td.kind, td.index as int));
            }
            TypeData { index: j, kind: Type::Vector, size: 24, is_copy: false }
        },
        None => {
            let new_index = schema.vectors.len();
            schema.vectors.push(VectorType { inner: td });
            proof {
                let s2 = final(schema)@;
                assert(s2.vectors =~= s.vectors.push(VectorType { inner: td }));
                assert(s2 =~= (SchemaV { vectors: s.vectors.push(VectorType { inner: td }), ..s }));
                assert(schema_extends(s, s2));
                lemma_wf_clauses_extend(s, s2, pend);
                lemma_find_first_bounds(vector_shapes(s), (td.kind, td.index as int));
                assert forall|i: int, j: int| 0 <= i < j < s2.vectors.len()
                    implies vector_shape(#[trigger] s2.vectors[i]) != vector_shape(#[trigger] s2.vectors[j]) by {
                    if j < s.vectors.len() {
                        assert(vector_shape(s.vectors[i]) != vector_shape(s.vectors[j]));
                    } else {
                        assert(vector_shapes(s)[i] == vector_shape(s.vectors[i]));
                    }
                }
                if valid_td(s, td) {
                    crate::schema::lemma_valid_td_extends(s, s2, td);
                }
                assert(inner_ok_pending(s2, td, pend));
                assert forall|i: int| 0 <= i < s2.vectors.len()
                    implies inner_ok_pending(s2, (#[trigger] s2.vectors[i]).inner, pend) by {
                    if i < s.vectors.len() {
                        assert(s2.vectors[i] == s.vectors[i]);
                        assert(inner_ok_pending(s2, s.vectors[i].inner, pend));
                    }
                }
                assert forall|i: int| 0 <= i < s2.arrays.len()
                    implies (#[trigger] s2.arrays[i]).inner.size * s2.arrays[i].len <= usize::MAX by {
                    assert(s2.arrays[i] == s.arrays[i]);
                }
                lemma_grounded_extend(s, s2);
                assert(depth_ok(s2, Type::Vector, new_index as int, ref_budget(s2))) by {
                    if !stub_like(td) {
                        lemma_resolved_grounded(s, td, pend);
                        crate::schema::lemma_depth_ok_extends(s, s2, td.kind, td.index as int, ref_budget(s));
                        crate::schema::lemma_depth_ok_mono(s2, td.kind, td.index as int, ref_budget(s), (ref_budget(s2) - 1) as nat);
                    }
                }
                assert(wf_gen(s2, pend));
            }
            TypeData { index: new_index, kind: Type::Vector, size: 24, is_copy: false }
        },
    }
}

/// Interning one pointer shape.
fn intern_pointer(schema: &mut Schema, td: TypeData, Ghost(pend): Ghost<Option<(Type, int)>>) -> (r: TypeData)
    requires
        wf_gen(old(schema)@, pend),
        resolved_ok(old(schema)@, td, pend),
    ensures
        wf_gen(final(schema)@, pend),
        schema_extends(old(schema)@, final(schema)@),
        final(schema)@.types == old(schema)@.types,
        final(schema)@.enums == old(schema)@.enums,
        final(schema)@.unions == old(schema)@.unions,
        final(schema)@.functions == old(schema)@.functions,
        final(schema)@.is_packed == old(schema)@.is_packed,
        spec_intern_wrap(old(schema)@, td, Wrap::Ptr) == Some((final(schema)@, r)),
        resolved_ok(final(schema)@, r, pend),
        !stub_like(r),
{
    let ghost s = schema@;
    match find_pointer_index(schema, td.kind, td.index) {
        Some(j) => {
            proof {
                lemma_find_first_bounds(pointer_shapes(s), (td.kind, td.index as int));
            }
            TypeData { index: j, kind: Type::Pointer, size: 8, is_copy: true }
        },
        None => {
            let new_index = schema.pointers.len();
            schema.pointers.push(PointerType { inner: td });
            proof {
                let s2 = final(schema)@;
                assert(s2.pointers =~= s.pointers.push(PointerType { inner: td }));
                assert(s2 =~= (SchemaV { pointers: s.pointers.push(PointerType { inner: td }), ..s }));
                assert(schema_extends(s, s2));
                lemma_wf_clauses_extend(s, s2, pend);
                lemma_find_first_bounds(pointer_shapes(s), (td.kind, td.index as int));
                assert forall|i: int, j: int| 0 <= i < j < s2.pointers.len()
                    implies pointer_shape(#[trigger] s2.pointers[i]) != pointer_shape(#[trigger] s2.pointers[j]) by {
                    if j < s.pointers.len() {
                        assert(pointer_shape(s.pointers[i]) != pointer_shape(s.pointers[j]));
                    } else {
                        assert(pointer_shapes(s)[i] == pointer_shape(s.pointers[i]));
                    }
                }
                if valid_td(s, td) {
                    crate::schema::lemma_valid_td_extends(s, s2, td);
                }
                assert(inner_ok_pending(s2, td, pend));
                assert forall|i: int| 0 <= i < s2.pointers.len()
                    implies inner_ok_pending(s2, (#[trigger] s2.pointers[i]).inner, pend) by {
                    if i < s.pointers.len() {
                        assert(s2.pointers[i] == s.pointers[i]);
                        assert(inner_ok_pending(s2, s.pointers[i].inner, pend));
                    }
                }
                assert forall|i: int| 0 <= i < s2.arrays.len()
                    implies (#[trigger] s2.arrays[i]).inner.size * s2.arrays[i].len <= usize::MAX by {
                    assert(s2.arrays[i] == s.arrays[i]);
                }
                lemma_grounded_extend(s, s2);
                assert(depth_ok(s2, Type::Pointer, new_index as int, ref_budget(s2))) by {
                    if !stub_like(td) {
                        lemma_resolved_grounded(s, td, pend);
                        crate::schema::lemma_depth_ok_extends(s, s2, td.kind, td.index as int, ref_budget(s));
                        crate::schema::lemma_depth_ok_mono(s2, td.kind, td.index as int, ref_budget(s), (ref_budget(s2) - 1) as nat);
                    }
                }
                assert(wf_gen(s2, pend));
            }
            TypeData { index: new_index, kind: Type::Pointer, size: 8, is_copy: true }
        },
    }
}

/// Resolution of a whole type expression against the schema, interning every
/// newly-seen composite shape along the way.
#[verifier::rlimit(100)]
fn resolve_expr(
    schema: &mut Schema,
    ctx_name: Option<&str>,
    ctx_kind: Type,
    ty: &crate::tokenizer::Type,
    Ghost(pend): Ghost<Option<(Type, int)>>,
) -> (r: Option<TypeData>)
    requires
        wf_gen(old(schema)@, pend),
        pend == match ctx_name {
            Some(n) => Some((ctx_kind, pending_index(old(schema)@, ctx_kind))),
            None => None::<(Type, int)>,
        },
        ctx_name is Some ==> ctx_kind == Type::Data || ctx_kind == Type::Union
            || ctx_kind == Type::Function,
    ensures
        wf_gen(final(schema)@, pend),
        schema_extends(old(schema)@, final(schema)@),
        final(schema)@.types == old(schema)@.types,
        final(schema)@.enums == old(schema)@.enums,
        final(schema)@.unions == old(schema)@.unions,
        final(schema)@.functions == old(schema)@.functions,
        final(schema)@.is_packed == old(schema)@.is_packed,
        match r {
            Some(td) => spec_resolve(old(schema)@, ctx_view(ctx_name, ctx_kind), ty@)
                == Some((final(schema)@, td)) && resolved_ok(final(schema)@, td, pend),
            None => spec_resolve(old(schema)@, ctx_view(ctx_name, ctx_kind), ty@) is None,
        },
    decreases ty,
{
    let ghost s = schema@;
    let ghost ctx = ctx_view(ctx_name, ctx_kind);
    match ty {
        crate::tokenizer::Type::Named(name) => {
            proof {
                assert(ty@.wraps =~= Seq::<Wrap>::empty());
            }
            let r = resolve_named(schema, ctx_name, ctx_kind, name.as_str());
            proof {
                match r {
                    Some(td) => {
                        assert(spec_resolve_named(s, ctx, ty@.base) == Some(td));
                        assert(spec_resolve_wraps(s, td, ty@.wraps) == Some((s, td)));
                        assert(spec_resolve(s, ctx, ty@) == Some((s, td)));
                        if !valid_td(s, td) {
                            assert(ctx_name is Some);
                            assert(stub_like(td));
                            assert(pend == Some((td.kind, td.index as int)));
                            assert(resolved_ok(s, td, pend));
                        }
                    },
                    None => {
                        assert(spec_resolve_named(s, ctx, ty@.base) is None);
                    },
                }
            }
            r
        },
        crate::tokenizer::Type::Array(inner, len) => {
            proof {
                assert(ty@.base == inner@.base);
                assert(ty@.wraps == inner@.wraps.push(Wrap::Arr(*len)));
                lemma_resolve_wraps_push_resolve(s, ctx, inner@, Wrap::Arr(*len));
            }
            match resolve_expr(schema, ctx_name, ctx_kind, inner, Ghost(pend)) {
                None => None,
                Some(td) => intern_array(schema, td, *len, Ghost(pend)),
            }
        },
        crate::tokenizer::Type::Vector(inner) => {
            proof {
                assert(ty@.base == inner@.base);
                assert(ty@.wraps == inner@.wraps.push(Wrap::Vect));
                lemma_resolve_wraps_push_resolve(s, ctx, inner@, Wrap::Vect);
            }
            match resolve_expr(schema, ctx_name, ctx_kind, inner, Ghost(pend)) {
                None => None,
                Some(td) => Some(intern_vector(schema, td, Ghost(pend))),
            }
        },
        crate::tokenizer::Type::Pointer(inner) => {
            proof {
                assert(ty@.base == inner@.base);
                assert(ty@.wraps == inner@.wraps.push(Wrap::Ptr));
                lemma_resolve_wraps_push_resolve(s, ctx, inner@, Wrap::Ptr);
            }
            match resolve_expr(schema, ctx_name, ctx_kind, inner, Ghost(pend)) {
                None => None,
                Some(td) => Some(intern_pointer(schema, td, Ghost(pend))),
            }
        },
    }
}

/// Resolving an expression with one more wrapper resolves the inner
/// expression, then interns the wrapper.
proof fn lemma_resolve_wraps_push_resolve(
    s: SchemaV,
    ctx: Option<(Seq<char>, Type)>,
    inner: TypeExprV,
    w: Wrap,
)
    ensures
        spec_resolve(s, ctx, TypeExprV { base: inner.base, wraps: inner.wraps.push(w) })
            == match spec_resolve(s, ctx, inner) {
                None => None::<(SchemaV, TypeData)>,
                Some((s2, td2)) => spec_intern_wrap(s2, td2, w),
            },
{
    match spec_resolve_named(s, ctx, inner.base) {
        None => {},
        Some(td) => {
            lemma_resolve_wraps_push(s, td, inner.wraps, w);
        },
    }
}

/// Resolution of a type expression while `defined_type_name` (of kind
/// `defined_type`) is being defined: the entry point the registry uses for
/// every field, member and argument type.
pub fn lookup_type_data(
    defined_type_name: &str,
    defined_type: Type,
    schema: &mut Schema,
    ty: &crate::tokenizer::Type,
) -> (r: Option<TypeData>)
    requires
        defined_type == Type::Data || defined_type == Type::Union
            || defined_type == Type::Function,
        wf_gen(old(schema)@, Some((defined_type, pending_index(old(schema)@, defined_type)))),
    ensures
        ({
            let pend = Some((defined_type, pending_index(old(schema)@, defined_type)));
            &&& wf_gen(final(schema)@, pend)
            &&& schema_extends(old(schema)@, final(schema)@)
            &&& final(schema)@.types == old(schema)@.types
            &&& final(schema)@.enums == old(schema)@.enums
            &&& final(schema)@.unions == old(schema)@.unions
            &&& final(schema)@.functions == old(schema)@.functions
            &&& final(schema)@.is_packed == old(schema)@.is_packed
            &&& match r {
                Some(td) => spec_resolve(
                    old(schema)@,
                    Some((defined_type_name@, defined_type)),
                    ty@,
                ) == Some((final(schema)@, td)) && resolved_ok(final(schema)@, td, pend),
                None => spec_resolve(
                    old(schema)@,
                    Some((defined_type_name@, defined_type)),
                    ty@,
                ) is None,
            }
        }),
{
    resolve_expr(
        schema,
        Some(defined_type_name),
        defined_type,
        ty,
        Ghost(Some((defined_type, pending_index(schema@, defined_type)))),
    )
}

// ---------------------------------------------------------------------------
// Pushing one finished definition keeps the schema well-formed
// ---------------------------------------------------------------------------

/// The empty schema is well-formed.
pub proof fn lemma_wf_empty()
    ensures
        wf_schema(empty_schema()),
{
}

/// Appending a finished struct closes its open definition: every self marker
/// that pointed one past the end of the struct table now points at it.
proof fn lemma_wf_push_struct(s: SchemaV, s3: SchemaV, dt: DataTypeV)
    requires
        wf_gen(s, Some((Type::Data, s.types.len() as int))),
        s3 == (SchemaV { types: s.types.push(dt), ..s }),
        forall|j: int| 0 <= j < dt.fields.len()
            ==> valid_td(s, (#[trigger] dt.fields[j]).type_data)
                || crate::schema::is_self_field(dt.fields[j], s.types.len() as int),
        0 <= data_size(s3, s.types.len() as int) <= usize::MAX,
    ensures
        wf_schema(s3),
{
    let pend = Some((Type::Data, s.types.len() as int));
    let new_i = s.types.len() as int;
    assert(schema_extends(s, s3));
    assert forall|i: int, j: int| 0 <= i < s3.types.len() && 0 <= j < s3.types[i].fields.len()
        implies valid_td(s3, #[trigger] s3.types[i].fields[j].type_data)
            || crate::schema::is_self_field(s3.types[i].fields[j], i) by {
        if i < s.types.len() {
            assert(s3.types[i] == s.types[i]);
            if !crate::schema::is_self_field(s.types[i].fields[j], i) {
                crate::schema::lemma_valid_td_extends(s, s3, s.types[i].fields[j].type_data);
            }
        } else {
            assert(s3.types[i] == dt);
            if !crate::schema::is_self_field(dt.fields[j], new_i) {
                crate::schema::lemma_valid_td_extends(s, s3, dt.fields[j].type_data);
            }
        }
    }
    assert forall|i: int| 0 <= i < s3.unions.len()
        implies (#[trigger] s3.unions[i].possible_types).len() >= 1
            && forall|j: int| 0 <= j < s3.unions[i].possible_types.len()
                ==> valid_td(s3, #[trigger] s3.unions[i].possible_types[j])
                    || (stub_like(s3.unions[i].possible_types[j])
                        && s3.unions[i].possible_types[j].kind == Type::Union
                        && s3.unions[i].possible_types[j].index == i) by {
        assert forall|j: int| 0 <= j < s3.unions[i].possible_types.len()
            implies valid_td(s3, #[trigger] s3.unions[i].possible_types[j])
                || (stub_like(s3.unions[i].possible_types[j])
                    && s3.unions[i].possible_types[j].kind == Type::Union
                    && s3.unions[i].possible_types[j].index == i) by {
            let td = s3.unions[i].possible_types[j];
            if valid_td(s, td) {
                crate::schema::lemma_valid_td_extends(s, s3, td);
            }
        }
    }
    assert forall|i: int| 0 <= i < s3.arrays.len()
        implies crate::schema::inner_ok(s3, (#[trigger] s3.arrays[i]).inner) by {
        let td = s3.arrays[i].inner;
        assert(inner_ok_pending(s, td, pend));
        if valid_td(s, td) {
            crate::schema::lemma_valid_td_extends(s, s3, td);
        }
    }
    assert forall|i: int| 0 <= i < s3.vectors.len()
        implies crate::schema::inner_ok(s3, (#[trigger] s3.vectors[i]).inner) by {
        let td = s3.vectors[i].inner;
        assert(inner_ok_pending(s, td, pend));
        if valid_td(s, td) {
            crate::schema::lemma_valid_td_extends(s, s3, td);
        }
    }
    assert forall|i: int| 0 <= i < s3.pointers.len()
        implies crate::schema::inner_ok(s3, (#[trigger] s3.pointers[i]).inner) by {
        let td = s3.pointers[i].inner;
        assert(inner_ok_pending(s, td, pend));
        if valid_td(s, td) {
            crate::schema::lemma_valid_td_extends(s, s3, td);
        }
    }
    assert forall|i: int| 0 <= i < s3.functions.len() implies {
        &&& forall|j: int| 0 <= j < (#[trigger] s3.functions[i]).args.len()
            ==> match #[trigger] s3.functions[i].args[j].type_data {
                Some(td) => valid_td(s3, td)
                    || (stub_like(td) && td.kind == Type::Function && td.index == i),
                None => true,
            }
        &&& match s3.functions[i].return_type {
            Some(td) => valid_td(s3, td)
                || (stub_like(td) && td.kind == Type::Function && td.index == i),
            None => true,
        }
    } by {
        assert forall|j: int| 0 <= j < s3.functions[i].args.len()
            implies match #[trigger] s3.functions[i].args[j].type_data {
                Some(td) => valid_td(s3, td)
                    || (stub_like(td) && td.kind == Type::Function && td.index == i),
                None => true,
            } by {
            match s3.functions[i].args[j].type_data {
                Some(td) => {
                    if valid_td(s, td) {
                        crate::schema::lemma_valid_td_extends(s, s3, td);
                    }
                },
                None => {},
            }
        }
        match s3.functions[i].return_type {
            Some(td) => {
                if valid_td(s, td) {
                    crate::schema::lemma_valid_td_extends(s, s3, td);
                }
            },
            None => {},
        }
    }
    assert forall|i: int| 0 <= i < s3.types.len()
        implies 0 <= #[trigger] data_size(s3, i) <= usize::MAX by {
        if i < s.types.len() {
            assert(s3.types[i] == s.types[i]);
            assert(data_size(s3, i) == data_size(s, i));
        }
    }
    lemma_grounded_extend(s, s3);
    assert(depth_ok(s3, Type::Data, new_i, ref_budget(s3))) by {
        assert forall|j: int| 0 <= j < dt.fields.len()
            implies crate::schema::inner_depth_ok(
                s3,
                (#[trigger] dt.fields[j]).type_data,
                (ref_budget(s3) - 1) as nat,
            ) by {
            let td = dt.fields[j].type_data;
            if !stub_like(td) {
                assert(valid_td(s, td));
                assert(depth_ok(s, td.kind, td.index as int, ref_budget(s))) by {
                    match td.kind {
                        Type::Primitive | Type::Enum | Type::String => {
                            assert(ref_budget(s) >= 1);
                        },
                        _ => {},
                    }
                }
                crate::schema::lemma_depth_ok_extends(s, s3, td.kind, td.index as int, ref_budget(s));
                crate::schema::lemma_depth_ok_mono(
                    s3, td.kind, td.index as int, ref_budget(s), (ref_budget(s3) - 1) as nat);
            }
        }
    }
    assert(wf_schema(s3));
}

/// Appending a finished union closes its open definition.
proof fn lemma_wf_push_union(s: SchemaV, s3: SchemaV, ut: UnionTypeV)
    requires
        wf_gen(s, Some((Type::Union, s.unions.len() as int))),
        s3 == (SchemaV { unions: s.unions.push(ut), ..s }),
        ut.possible_types.len() >= 1,
        forall|j: int| 0 <= j < ut.possible_types.len()
            ==> valid_td(s, #[trigger] ut.possible_types[j])
                || (stub_like(ut.possible_types[j])
                    && ut.possible_types[j].kind == Type::Union
                    && ut.possible_types[j].index == s.unions.len()),
        union_size(ut) <= usize::MAX,
    ensures
        wf_schema(s3),
{
    let pend = Some((Type::Union, s.unions.len() as int));
    let new_i = s.unions.len() as int;
    assert(schema_extends(s, s3));
    assert forall|i: int, j: int| 0 <= i < s3.types.len() && 0 <= j < s3.types[i].fields.len()
        implies valid_td(s3, #[trigger] s3.types[i].fields[j].type_data)
            || crate::schema::is_self_field(s3.types[i].fields[j], i) by {
        assert(s3.types[i] == s.types[i]);
        if !crate::schema::is_self_field(s.types[i].fields[j], i) {
            crate::schema::lemma_valid_td_extends(s, s3, s.types[i].fields[j].type_data);
        }
    }
    assert forall|i: int| 0 <= i < s3.unions.len()
        implies (#[trigger] s3.unions[i].possible_types).len() >= 1
            && forall|j: int| 0 <= j < s3.unions[i].possible_types.len()
                ==> valid_td(s3, #[trigger] s3.unions[i].possible_types[j])
                    || (stub_like(s3.unions[i].possible_types[j])
                        && s3.unions[i].possible_types[j].kind == Type::Union
                        && s3.unions[i].possible_types[j].index == i) by {
        assert forall|j: int| 0 <= j < s3.unions[i].possible_types.len()
            implies valid_td(s3, #[trigger] s3.unions[i].possible_types[j])
                || (stub_like(s3.unions[i].possible_types[j])
                    && s3.unions[i].possible_types[j].kind == Type::Union
                    && s3.unions[i].possible_types[j].index == i) by {
            let td = s3.unions[i].possible_types[j];
            if i < s.unions.len() {
                assert(s3.unions[i] == s.unions[i]);
                if valid_td(s, td) {
                    crate::schema::lemma_valid_td_extends(s, s3, td);
                }
            } else {
                assert(s3.unions[i] == ut);
                if valid_td(s, td) {
                    crate::schema::lemma_valid_td_extends(s, s3, td);
                }
            }
        }
    }
    assert forall|i: int| 0 <= i < s3.arrays.len()
        implies crate::schema::inner_ok(s3, (#[trigger] s3.arrays[i]).inner) by {
        let td = s3.arrays[i].inner;
        assert(inner_ok_pending(s, td, pend));
        if valid_td(s, td) {
            crate::schema::lemma_valid_td_extends(s, s3, td);
        }
    }
    assert forall|i: int| 0 <= i < s3.vectors.len()
        implies crate::schema::inner_ok(s3, (#[trigger] s3.vectors[i]).inner) by {
        let td = s3.vectors[i].inner;
        assert(inner_ok_pending(s, td, pend));
        if valid_td(s, td) {
            crate::schema::lemma_valid_td_extends(s, s3, td);
        }
    }
    assert forall|i: int| 0 <= i < s3.pointers.len()
        implies crate::schema::inner_ok(s3, (#[trigger] s3.pointers[i]).inner) by {
        let td = s3.pointers[i].inner;
        assert(inner_ok_pending(s, td, pend));
        if valid_td(s, td) {
            crate::schema::lemma_valid_td_extends(s, s3, td);
        }
    }
    assert forall|i: int| 0 <= i < s3.functions.len() implies {
        &&& forall|j: int| 0 <= j < (#[trigger] s3.functions[i]).args.len()
            ==> match #[trigger] s3.functions[i].args[j].type_data {
                Some(td) => valid_td(s3, td)
                    || (stub_like(td) && td.kind == Type::Function && td.index == i),
                None => true,
            }
        &&& match s3.functions[i].return_type {
            Some(td) => valid_td(s3, td)
                || (stub_like(td) && td.kind == Type::Function && td.index == i),
            None => true,
        }
    } by {
        assert forall|j: int| 0 <= j < s3.functions[i].args.len()
            implies match #[trigger] s3.functions[i].args[j].type_data {
                Some(td) => valid_td(s3, td)
                    || (stub_like(td) && td.kind == Type::Function && td.index == i),
                None => true,
            } by {
            match s3.functions[i].args[j].type_data {
                Some(td) => {
                    if valid_td(s, td) {
                        crate::schema::lemma_valid_td_extends(s, s3, td);
                    }
                },
                None => {},
            }
        }
        match s3.functions[i].return_type {
            Some(td) => {
                if valid_td(s, td) {
                    crate::schema::lemma_valid_td_extends(s, s3, td);
                }
            },
            None => {},
        }
    }
    assert forall|i: int| 0 <= i < s3.types.len()
        implies 0 <= #[trigger] data_size(s3, i) <= usize::MAX by {
        assert(s3.types[i] == s.types[i]);
        assert(data_size(s3, i) == data_size(s, i));
    }
    assert forall|i: int| 0 <= i < s3.unions.len()
        implies #[trigger] union_size(s3.unions[i]) <= usize::MAX by {
        if i < s.unions.len() {
            assert(s3.unions[i] == s.unions[i]);
        } else {
            assert(s3.unions[i] == ut);
        }
    }
    lemma_grounded_extend(s, s3);
    assert(depth_ok(s3, Type::Union, new_i, ref_budget(s3))) by {
        assert forall|j: int| 0 <= j < ut.possible_types.len()
            implies crate::schema::inner_depth_ok(
                s3,
                #[trigger] ut.possible_types[j],
                (ref_budget(s3) - 1) as nat,
            ) by {
            let td = ut.possible_types[j];
            if !stub_like(td) {
                assert(valid_td(s, td));
                assert(depth_ok(s, td.kind, td.index as int, ref_budget(s))) by {
                    match td.kind {
                        Type::Primitive | Type::Enum | Type::String => {
                            assert(ref_budget(s) >= 1);
                        },
                        _ => {},
                    }
                }
                crate::schema::lemma_depth_ok_extends(s, s3, td.kind, td.index as int, ref_budget(s));
                crate::schema::lemma_depth_ok_mono(
                    s3, td.kind, td.index as int, ref_budget(s), (ref_budget(s3) - 1) as nat);
            }
        }
    }
    assert(wf_schema(s3));
}

/// Appending an enumeration: it refers to nothing, so only the tables grow.
proof fn lemma_wf_push_enum(s: SchemaV, s3: SchemaV, et: EnumTypeV)
    requires
        wf_schema(s),
        s3 == (SchemaV { enums: s.enums.push(et), ..s }),
    ensures
        wf_schema(s3),
{
    assert(schema_extends(s, s3));
    lemma_wf_clauses_extend(s, s3, None);
    assert forall|i: int| 0 <= i < s3.arrays.len()
        implies (#[trigger] s3.arrays[i]).inner.size * s3.arrays[i].len <= usize::MAX by {
        assert(s3.arrays[i] == s.arrays[i]);
    }
    assert forall|i: int| 0 <= i < s3.unions.len()
        implies #[trigger] union_size(s3.unions[i]) <= usize::MAX by {
        assert(s3.unions[i] == s.unions[i]);
    }
    lemma_grounded_extend(s, s3);
    assert(depth_ok(s3, Type::Enum, s.enums.len() as int, ref_budget(s3))) by {
        assert(ref_budget(s3) >= 1);
    }
    assert(wf_schema(s3));
}

/// Appending a finished function signature closes its open definition.
proof fn lemma_wf_push_function(s: SchemaV, s3: SchemaV, ft: FunctionTypeV)
    requires
        wf_gen(s, Some((Type::Function, s.functions.len() as int))),
        s3 == (SchemaV { functions: s.functions.push(ft), ..s }),
        forall|j: int| 0 <= j < ft.args.len()
            ==> match (#[trigger] ft.args[j]).type_data {
                Some(td) => valid_td(s, td)
                    || (stub_like(td) && td.kind == Type::Function
                        && td.index == s.functions.len()),
                None => true,
            },
        match ft.return_type {
            Some(td) => valid_td(s, td)
                || (stub_like(td) && td.kind == Type::Function && td.index == s.functions.len()),
            None => true,
        },
    ensures
        wf_schema(s3),
{
    let pend = Some((Type::Function, s.functions.len() as int));
    let new_i = s.functions.len() as int;
    assert(schema_extends(s, s3));
    assert forall|i: int, j: int| 0 <= i < s3.types.len() && 0 <= j < s3.types[i].fields.len()
        implies valid_td(s3, #[trigger] s3.types[i].fields[j].type_data)
            || crate::schema::is_self_field(s3.types[i].fields[j], i) by {
        assert(s3.types[i] == s.types[i]);
        if !crate::schema::is_self_field(s.types[i].fields[j], i) {
            crate::schema::lemma_valid_td_extends(s, s3, s.types[i].fields[j].type_data);
        }
    }
    assert forall|i: int| 0 <= i < s3.unions.len()
        implies (#[trigger] s3.unions[i].possible_types).len() >= 1
            && forall|j: int| 0 <= j < s3.unions[i].possible_types.len()
                ==> valid_td(s3, #[trigger] s3.unions[i].possible_types[j])
                    || (stub_like(s3.unions[i].possible_types[j])
                        && s3.unions[i].possible_types[j].kind == Type::Union
                        && s3.unions[i].possible_types[j].index == i) by {
        assert(s3.unions[i] == s.unions[i]);
        assert forall|j: int| 0 <= j < s3.unions[i].possible_types.len()
            implies valid_td(s3, #[trigger] s3.unions[i].possible_types[j])
                || (stub_like(s3.unions[i].possible_types[j])
                    && s3.unions[i].possible_types[j].kind == Type::Union
                    && s3.unions[i].possible_types[j].index == i) by {
            let td = s3.unions[i].possible_types[j];
            if valid_td(s, td) {
                crate::schema::lemma_valid_td_extends(s, s3, td);
            }
        }
    }
    assert forall|i: int| 0 <= i < s3.arrays.len()
        implies crate::schema::inner_ok(s3, (#[trigger] s3.arrays[i]).inner) by {
        let td = s3.arrays[i].inner;
        assert(inner_ok_pending(s, td, pend));
        if valid_td(s, td) {
            crate::schema::lemma_valid_td_extends(s, s3, td);
        }
    }
    assert forall|i: int| 0 <= i < s3.vectors.len()
        implies crate::schema::inner_ok(s3, (#[trigger] s3.vectors[i]).inner) by {
        let td = s3.vectors[i].inner;
        assert(inner_ok_pending(s, td, pend));
        if valid_td(s, td) {
            crate::schema::lemma_valid_td_extends(s, s3, td);
        }
    }
    assert forall|i: int| 0 <= i < s3.pointers.len()
        implies crate::schema::inner_ok(s3, (#[trigger] s3.pointers[i]).inner) by {
        let td = s3.pointers[i].inner;
        assert(inner_ok_pending(s, td, pend));
        if valid_td(s, td) {
            crate::schema::lemma_valid_td_extends(s, s3, td);
        }
    }
    assert forall|i: int| 0 <= i < s3.functions.len() implies {
        &&& forall|j: int| 0 <= j < (#[trigger] s3.functions[i]).args.len()
            ==> match #[trigger] s3.functions[i].args[j].type_data {
                Some(td) => valid_td(s3, td)
                    || (stub_like(td) && td.kind == Type::Function && td.index == i),
                None => true,
            }
        &&& match s3.functions[i].return_type {
            Some(td) => valid_td(s3, td)
                || (stub_like(td) && td.kind == Type::Function && td.index == i),
            None => true,
        }
    } by {
        assert forall|j: int| 0 <= j < s3.functions[i].args.len()
            implies match #[trigger] s3.functions[i].args[j].type_data {
                Some(td) => valid_td(s3, td)
                    || (stub_like(td) && td.kind == Type::Function && td.index == i),
                None => true,
            } by {
            match s3.functions[i].args[j].type_data {
                Some(td) => {
                    if valid_td(s, td) {
                        crate::schema::lemma_valid_td_extends(s, s3, td);
                    }
                },
                None => {},
            }
        }
        match s3.functions[i].return_type {
            Some(td) => {
                if valid_td(s, td) {
                    crate::schema::lemma_valid_td_extends(s, s3, td);
                }
            },
            None => {},
        }
    }
    assert forall|i: int| 0 <= i < s3.types.len()
        implies 0 <= #[trigger] data_size(s3, i) <= usize::MAX by {
        assert(s3.types[i] == s.types[i]);
        assert(data_size(s3, i) == data_size(s, i));
    }
    assert forall|i: int| 0 <= i < s3.unions.len()
        implies #[trigger] union_size(s3.unions[i]) <= usize::MAX by {
        assert(s3.unions[i] == s.unions[i]);
    }
    lemma_grounded_extend(s, s3);
    assert(depth_ok(s3, Type::Function, new_i, ref_budget(s3))) by {
        assert forall|j: int| 0 <= j < ft.args.len()
            implies match (#[trigger] ft.args[j]).type_data {
                Some(td) => crate::schema::inner_depth_ok(s3, td, (ref_budget(s3) - 1) as nat),
                None => true,
            } by {
            match ft.args[j].type_data {
                Some(td) => {
                    if !stub_like(td) {
                        assert(valid_td(s, td));
                        assert(depth_ok(s, td.kind, td.index as int, ref_budget(s))) by {
                            match td.kind {
                                Type::Primitive | Type::Enum | Type::String => {
                                    assert(ref_budget(s) >= 1);
                                },
                                _ => {},
                            }
                        }
                        crate::schema::lemma_depth_ok_extends(
                            s, s3, td.kind, td.index as int, ref_budget(s));
                        crate::schema::lemma_depth_ok_mono(
                            s3, td.kind, td.index as int, ref_budget(s), (ref_budget(s3) - 1) as nat);
                    }
                },
                None => {},
            }
        }
        match ft.return_type {
            Some(td) => {
                if !stub_like(td) {
                    assert(valid_td(s, td));
                    assert(depth_ok(s, td.kind, td.index as int, ref_budget(s))) by {
                        match td.kind {
                            Type::Primitive | Type::Enum | Type::String => {
                                assert(ref_budget(s) >= 1);
                            },
                            _ => {},
                        }
                    }
                    crate::schema::lemma_depth_ok_extends(
                        s, s3, td.kind, td.index as int, ref_budget(s));
                    crate::schema::lemma_depth_ok_mono(
                        s3, td.kind, td.index as int, ref_budget(s), (ref_budget(s3) - 1) as nat);
                }
            },
            None => {},
        }
    }
    assert(wf_schema(s3));
}

// ---------------------------------------------------------------------------
// The executable registry
// ---------------------------------------------------------------------------

/// Why a schema could not be built from the declarations.
#[derive(Debug)]
pub enum GenError {
    /// A type name resolved against nothing; the currently-known names of
    /// every nameable kind are carried for diagnosis.
    UnknownType {
        name: String,
        known_types: Vec<String>,
        known_enums: Vec<String>,
        known_unions: Vec<String>,
        known_functions: Vec<String>,
    },
    /// A struct, union or array whose byte size cannot fit the machine.
    TooLarge { name: String },
    /// A union with no member types has no size.
    EmptyUnion { name: String },
    /// A failure inside an included file, attributed to that file's path.
    Include { path: String, cause: Box<GenError> },
}

/// An unknown-type diagnosis carries exactly the names the schema knows:
/// every struct, enumeration, union and function name, in table order.
pub open spec fn unknown_lists_current(e: GenError, s: SchemaV) -> bool {
    e matches GenError::UnknownType { name: _, known_types, known_enums, known_unions, known_functions }
        ==> crate::types::names_view(known_types@) == data_names(s)
            && crate::types::names_view(known_enums@) == enum_names(s)
            && crate::types::names_view(known_unions@) == union_names(s)
            && crate::types::names_view(known_functions@) == function_names(s)
}

/// The diagnosis for an unknown type name: the name, and everything that is
/// currently nameable.
fn unknown_type_error(schema: &Schema, name: &str) -> (r: GenError)
    ensures
        r matches GenError::UnknownType { name: n, .. } && n@ == name@,
        unknown_lists_current(r, schema@),
{
    let mut known_types: Vec<String> = Vec::new();
    let mut k: usize = 0;
    let n = schema.types.len();
    while k < n
        invariant
            k <= n,
            n == schema.types@.len(),
            known_types@.len() == k,
            forall|j: int| 0 <= j < k
                ==> (#[trigger] known_types@[j])@ == data_names(schema@)[j],
        decreases n - k,
    {
        known_types.push(schema.types[k].name.clone());
        k = k + 1;
    }
    let mut known_enums: Vec<String> = Vec::new();
    let mut k: usize = 0;
    let n = schema.enums.len();
    while k < n
        invariant
            k <= n,
            n == schema.enums@.len(),
            known_enums@.len() == k,
            forall|j: int| 0 <= j < k
                ==> (#[trigger] known_enums@[j])@ == enum_names(schema@)[j],
        decreases n - k,
    {
        known_enums.push(schema.enums[k].name.clone());
        k = k + 1;
    }
    let mut known_unions: Vec<String> = Vec::new();
    let mut k: usize = 0;
    let n = schema.unions.len();
    while k < n
        invariant
            k <= n,
            n == schema.unions@.len(),
            known_unions@.len() == k,
            forall|j: int| 0 <= j < k
                ==> (#[trigger] known_unions@[j])@ == union_names(schema@)[j],
        decreases n - k,
    {
        known_unions.push(schema.unions[k].name.clone());
        k = k + 1;
    }
    let mut known_functions: Vec<String> = Vec::new();
    let mut k: usize = 0;
    let n = schema.functions.len();
    while k < n
        invariant
            k <= n,
            n == schema.functions@.len(),
            known_functions@.len() == k,
            forall|j: int| 0 <= j < k
                ==> (#[trigger] known_functions@[j])@ == function_names(schema@)[j],
        decreases n - k,
    {
        known_functions.push(schema.functions[k].name.clone());
        k = k + 1;
    }
    proof {
        assert(crate::types::names_view(known_types@) =~= data_names(schema@));
        assert(crate::types::names_view(known_enums@) =~= enum_names(schema@));
        assert(crate::types::names_view(known_unions@) =~= union_names(schema@));
        assert(crate::types::names_view(known_functions@) =~= function_names(schema@));
    }
    GenError::UnknownType {
        name: name.to_owned(),
        known_types,
        known_enums,
        known_unions,
        known_functions,
    }
}

/// The base name of a type expression: the identifier under all wrappers.
fn base_name<'a>(ty: &'a crate::tokenizer::Type) -> (r: &'a String)
    ensures
        r@ == ty@.base,
    decreases ty,
{
    match ty {
        crate::tokenizer::Type::Named(n) => n,
        crate::tokenizer::Type::Array(inner, _) => base_name(inner),
        crate::tokenizer::Type::Vector(inner) => base_name(inner),
        crate::tokenizer::Type::Pointer(inner) => base_name(inner),
    }
}

/// Registration of one struct declaration.
#[verifier::rlimit(100)]
fn gen_struct(
    schema: &mut Schema,
    attrs: Vec<(String, String)>,
    name: String,
    fields: &Vec<crate::tokenizer::FieldTok>,
) -> (r: Result<(), GenError>)
    requires
        wf_schema(old(schema)@),
    ensures
        schema_extends(old(schema)@, final(schema)@),
        final(schema)@.is_packed == old(schema)@.is_packed,
        match r {
            Ok(_) => spec_gen_struct(
                old(schema)@,
                crate::types::attributes_view(attrs@),
                name@,
                crate::tokenizer::field_toks_view(fields@),
            ) == Some(final(schema)@) && wf_schema(final(schema)@),
            Err(e) => spec_gen_struct(
                old(schema)@,
                crate::types::attributes_view(attrs@),
                name@,
                crate::tokenizer::field_toks_view(fields@),
            ) is None
                && unknown_lists_current(e, final(schema)@)
                && (e matches GenError::UnknownType { name: n, .. }
                    ==> exists|j: int| 0 <= j < fields@.len()
                        && n@ == (#[trigger] crate::tokenizer::field_toks_view(fields@)[j]).ty.base)
                && (e matches GenError::TooLarge { name: n } ==> n@ == name@)
                && !(e matches GenError::EmptyUnion { .. })
                && !(e matches GenError::Include { .. }),
        },
{
    let ghost s0 = schema@;
    let ghost namev = name@;
    let ghost fieldsv = crate::tokenizer::field_toks_view(fields@);
    let ghost el = s0.types.len() as int;
    let ghost pend = Some((Type::Data, el));
    let n = fields.len();
    let mut fs: Vec<crate::types::Field> = Vec::new();
    let mut offset: usize = 0;
    let mut cnt: usize = 0;
    let mut k: usize = 0;
    proof {
        assert(fieldsv.skip(0) =~= fieldsv);
        assert(crate::types::fields_view(fs@) =~= Seq::<FieldV>::empty());
        assert(wf_gen(s0, pend));
    }
    while k < n
        invariant
            n == fields@.len(),
            fieldsv == crate::tokenizer::field_toks_view(fields@),
            fieldsv.len() == n,
            forall|j: int| 0 <= j < n ==> fieldsv[j] == (#[trigger] fields@[j])@,
            k <= n,
            s0 == old(schema)@,
            el == s0.types.len() as int,
            pend == Some((Type::Data, el)),
            wf_gen(schema@, pend),
            schema@.types == s0.types,
            schema@.enums == s0.enums,
            schema@.unions == s0.unions,
            schema@.functions == s0.functions,
            schema@.is_packed == s0.is_packed,
            schema_extends(s0, schema@),
            fs@.len() == k,
            namev == name@,
            offset as int == crate::schema::sum_nonself(crate::types::fields_view(fs@), el),
            cnt as int == crate::schema::count_self(crate::types::fields_view(fs@), el),
            cnt <= k,
            forall|j: int| 0 <= j < k ==> valid_td(schema@, (#[trigger] fs@[j])@.type_data)
                || crate::schema::is_self_field(fs@[j]@, el),
            ({
                match spec_gen_fields(schema@, namev, fieldsv.skip(k as int), offset as int) {
                    None => spec_gen_fields(s0, namev, fieldsv, 0) is None,
                    Some((sf, rest)) => spec_gen_fields(s0, namev, fieldsv, 0)
                        == Some((sf, crate::types::fields_view(fs@) + rest)),
                }
            }),
        decreases n - k,
    {
        let ghost scur = schema@;
        let ghost fsv_before = crate::types::fields_view(fs@);
        proof {
            crate::schema::lemma_schema_extends_trans(s0, scur, scur);
        }
        let ft = &fields[k];
        proof {
            assert(fieldsv.skip(k as int)[0] == fieldsv[k as int]);
            assert(fieldsv[k as int] == fields@[k as int]@);
            assert(pending_index(scur, Type::Data) == el);
        }
        let td_opt = lookup_type_data(name.as_str(), Type::Data, schema, &ft.ty);
        match td_opt {
            None => {
                proof {
                    assert(spec_gen_fields(scur, namev, fieldsv.skip(k as int), offset as int)
                        is None);
                    crate::schema::lemma_schema_extends_trans(s0, scur, schema@);
                    assert(fieldsv[k as int].ty.base == fields@[k as int]@.ty.base);
                }
                return Err(unknown_type_error(schema, base_name(&ft.ty).as_str()));
            },
            Some(td) => {
                let ghost snew = schema@;
                let new_offset = match offset.checked_add(td.size) {
                    Some(v) => v,
                    None => {
                        proof {
                            assert(spec_gen_fields(scur, namev, fieldsv.skip(k as int),
                                offset as int) is None);
                            crate::schema::lemma_schema_extends_trans(s0, scur, schema@);
                        }
                        return Err(GenError::TooLarge { name });
                    },
                };
                let f = crate::types::Field {
                    name: ft.name.clone(),
                    type_data: td,
                    offset,
                    padding_size: 0,
                };
                let ghost fv = f@;
                let is_self = td.kind == Type::Data && td.index == schema.types.len()
                    && td.size == 0 && !td.is_copy;
                fs.push(f);
                if is_self {
                    cnt = cnt + 1;
                }
                offset = new_offset;
                k = k + 1;
                proof {
                    crate::schema::lemma_schema_extends_trans(s0, scur, snew);
                    let fsv = crate::types::fields_view(fs@);
                    assert(fsv.drop_last() =~= fsv_before);
                    assert(fsv.last() == fv);
                    assert(crate::schema::is_self_field(fv, el) == is_self);
                    if is_self {
                        assert(td.size == 0);
                    }
                    // the per-field validity survives the schema growth
                    assert forall|j: int| 0 <= j < k
                        implies valid_td(schema@, (#[trigger] fs@[j])@.type_data)
                            || crate::schema::is_self_field(fs@[j]@, el) by {
                        if j < k - 1 {
                            assert(fs@[j]@ == fsv_before[j]);
                            if !crate::schema::is_self_field(fs@[j]@, el) {
                                crate::schema::lemma_valid_td_extends(
                                    scur, snew, fs@[j]@.type_data);
                            }
                        } else {
                            assert(fs@[j]@ == fv);
                            if !is_self {
                                assert(resolved_ok(snew, td, pend));
                                assert(valid_td(snew, td));
                            }
                        }
                    }
                    // one step of the spec recursion
                    assert(fieldsv.skip((k - 1) as int).drop_first() =~= fieldsv.skip(k as int));
                    match spec_gen_fields(snew, namev, fieldsv.skip(k as int), offset as int) {
                        None => {},
                        Some((sf, rest)) => {
                            assert(fsv_before + (seq![fv] + rest) =~= fsv + rest);
                        },
                    }
                }
            },
        }
    }
    proof {
        assert(fieldsv.skip(n as int) =~= Seq::<FieldTokV>::empty());
        let fsv = crate::types::fields_view(fs@);
        assert(spec_gen_fields(schema@, namev, fieldsv.skip(n as int), offset as int)
            == Some((schema@, Seq::<FieldV>::empty())));
        assert(fsv + Seq::<FieldV>::empty() =~= fsv);
        assert(spec_gen_fields(s0, namev, fieldsv, 0) == Some((schema@, fsv)));
    }
    let ghost send = schema@;
    let ghost fsv = crate::types::fields_view(fs@);
    // the total size: the non-self bytes, once more per self field
    let total_ok: bool = if offset == 0 {
        proof {
            assert(0int * (1 + crate::schema::count_self(fsv, el)) == 0) by (nonlinear_arith);
        }
        true
    } else {
        match cnt.checked_add(1) {
            None => false,
            Some(c1) => offset.checked_mul(c1).is_some(),
        }
    };
    proof {
        let a = crate::schema::sum_nonself(fsv, el);
        let c = crate::schema::count_self(fsv, el);
        crate::schema::lemma_sum_nonself_nonneg(fsv, el);
        crate::schema::lemma_count_self_bounds(fsv, el);
        if offset == 0 {
            assert(a * (1 + c) == 0) by (nonlinear_arith)
                requires a == 0;
        } else {
            if cnt == usize::MAX {
                assert(a * (1 + c) > usize::MAX) by (nonlinear_arith)
                    requires a >= 1 && c == usize::MAX;
            }
        }
    }
    if !total_ok {
        proof {
            let a = crate::schema::sum_nonself(fsv, el);
            let c = crate::schema::count_self(fsv, el);
            let dt = DataTypeV {
                name: namev,
                fields: fsv,
                attributes: crate::types::attributes_view(attrs@),
            };
            let s3 = SchemaV { types: send.types.push(dt), ..send };
            assert(s3.types[el] == dt);
            assert(data_size(s3, el) == a * (1 + c));
            assert(a * (1 + c) > usize::MAX) by (nonlinear_arith)
                requires a >= 1 && c >= 0 && (a * (1 + c) > usize::MAX || c + 1 > usize::MAX)
                    && (c + 1 <= usize::MAX ==> a * (c + 1) > usize::MAX);
        }
        return Err(GenError::TooLarge { name });
    }
    let ghost attrsv = crate::types::attributes_view(attrs@);
    schema.types.push(crate::types::DataType { name, fields: fs, attributes: attrs });
    proof {
        let s3 = schema@;
        let dt = DataTypeV { name: namev, fields: fsv, attributes: attrsv };
        assert(s3.types =~= send.types.push(dt));
        assert(s3 =~= (SchemaV { types: send.types.push(dt), ..send }));
        assert(s3.types[el] == dt);
        let a = crate::schema::sum_nonself(fsv, el);
        let c = crate::schema::count_self(fsv, el);
        assert(data_size(s3, el) == a * (1 + c));
        if offset == 0 {
            assert(a * (1 + c) == 0) by (nonlinear_arith)
                requires a == 0;
        } else {
            assert(0 <= a * (1 + c) <= usize::MAX) by (nonlinear_arith)
                requires a >= 1 && c >= 0 && a * (c + 1) <= usize::MAX;
        }
        lemma_wf_push_struct(send, s3, dt);
        assert(spec_gen_struct(s0, attrsv, namev, fieldsv) == Some(s3));
    }
    Ok(())
}

/// A copy of an attribute list.
fn clone_attrs(v: &Vec<(String, String)>) -> (r: Vec<(String, String)>)
    ensures
        crate::types::attributes_view(r@) == crate::types::attributes_view(v@),
{
    let n = v.len();
    let mut out: Vec<(String, String)> = Vec::new();
    let mut k: usize = 0;
    while k < n
        invariant
            k <= n,
            n == v@.len(),
            out@.len() == k,
            forall|j: int| 0 <= j < k ==> (#[trigger] out@[j]).0@ == v@[j].0@
                && out@[j].1@ == v@[j].1@,
        decreases n - k,
    {
        out.push((v[k].0.clone(), v[k].1.clone()));
        k = k + 1;
    }
    proof {
        assert(crate::types::attributes_view(out@) =~= crate::types::attributes_view(v@));
    }
    out
}

/// A copy of a name list.
fn clone_names(v: &Vec<String>) -> (r: Vec<String>)
    ensures
        crate::types::names_view(r@) == crate::types::names_view(v@),
{
    let n = v.len();
    let mut out: Vec<String> = Vec::new();
    let mut k: usize = 0;
    while k < n
        invariant
            k <= n,
            n == v@.len(),
            out@.len() == k,
            forall|j: int| 0 <= j < k ==> (#[trigger] out@[j])@ == v@[j]@,
        decreases n - k,
    {
        out.push(v[k].clone());
        k = k + 1;
    }
    proof {
        assert(crate::types::names_view(out@) =~= crate::types::names_view(v@));
    }
    out
}

/// Registration of one enumeration declaration.
fn gen_enum(
    schema: &mut Schema,
    attrs: Vec<(String, String)>,
    name: String,
    variants: Vec<String>,
) -> (r: ())
    requires
        wf_schema(old(schema)@),
    ensures
        schema_extends(old(schema)@, final(schema)@),
        final(schema)@.is_packed == old(schema)@.is_packed,
        spec_gen_enum(
            old(schema)@,
            crate::types::attributes_view(attrs@),
            name@,
            crate::types::names_view(variants@),
        ) == final(schema)@,
        wf_schema(final(schema)@),
{
    let ghost s0 = schema@;
    let ghost etv = EnumTypeV {
        name: name@,
        variants: crate::types::names_view(variants@),
        attributes: crate::types::attributes_view(attrs@),
    };
    schema.enums.push(crate::types::EnumType { name, variants, attributes: attrs });
    proof {
        let s3 = schema@;
        assert(s3.enums =~= s0.enums.push(etv));
        assert(s3 =~= (SchemaV { enums: s0.enums.push(etv), ..s0 }));
        lemma_wf_push_enum(s0, s3, etv);
    }
}

/// Registration of one union declaration.
#[verifier::rlimit(60)]
fn gen_union(
    schema: &mut Schema,
    attrs: Vec<(String, String)>,
    name: String,
    variants: &Vec<String>,
) -> (r: Result<(), GenError>)
    requires
        wf_schema(old(schema)@),
    ensures
        schema_extends(old(schema)@, final(schema)@),
        final(schema)@.is_packed == old(schema)@.is_packed,
        match r {
            Ok(_) => spec_gen_union(
                old(schema)@,
                crate::types::attributes_view(attrs@),
                name@,
                crate::types::names_view(variants@),
            ) == Some(final(schema)@) && wf_schema(final(schema)@),
            Err(e) => spec_gen_union(
                old(schema)@,
                crate::types::attributes_view(attrs@),
                name@,
                crate::types::names_view(variants@),
            ) is None
                && unknown_lists_current(e, final(schema)@)
                && (e matches GenError::UnknownType { name: n, .. }
                    ==> exists|j: int| 0 <= j < variants@.len()
                        && n@ == #[trigger] crate::types::names_view(variants@)[j])
                && (e matches GenError::TooLarge { name: n } ==> n@ == name@)
                && (e matches GenError::EmptyUnion { name: n }
                    ==> n@ == name@ && variants@.len() == 0)
                && !(e matches GenError::Include { .. }),
        },
{
    let ghost s0 = schema@;
    let ghost namev = name@;
    let ghost varsv = crate::types::names_view(variants@);
    let n = variants.len();
    if n == 0 {
        return Err(GenError::EmptyUnion { name });
    }
    let mut tds: Vec<TypeData> = Vec::new();
    let mut max: usize = 0;
    let mut k: usize = 0;
    proof {
        assert(varsv.skip(0) =~= varsv);
        assert(tds@.take(0int) =~= Seq::<TypeData>::empty());
    }
    while k < n
        invariant
            s0 == old(schema)@,
            schema@ == s0,
            wf_schema(s0),
            n == variants@.len(),
            varsv == crate::types::names_view(variants@),
            varsv.len() == n,
            forall|j: int| 0 <= j < n ==> varsv[j] == (#[trigger] variants@[j])@,
            namev == name@,
            k <= n,
            tds@.len() == k,
            max as int == crate::schema::max_size(tds@),
            forall|j: int| 0 <= j < k ==> valid_td(s0, #[trigger] tds@[j])
                || (stub_like(tds@[j]) && tds@[j].kind == Type::Union
                    && tds@[j].index == s0.unions.len()),
            ({
                match spec_gen_members(s0, namev, varsv.skip(k as int)) {
                    None => spec_gen_members(s0, namev, varsv) is None,
                    Some(rest) => spec_gen_members(s0, namev, varsv)
                        == Some(tds@ + rest),
                }
            }),
        decreases n - k,
    {
        let ghost tds_before = tds@;
        proof {
            assert(varsv.skip(k as int)[0] == varsv[k as int]);
        }
        let td_opt = resolve_named(schema, Some(name.as_str()), Type::Union, variants[k].as_str());
        match td_opt {
            None => {
                proof {
                    assert(spec_gen_members(s0, namev, varsv.skip(k as int)) is None);
                    assert(crate::types::names_view(variants@)[k as int]
                        == variants@[k as int]@);
                }
                return Err(unknown_type_error(schema, variants[k].as_str()));
            },
            Some(td) => {
                tds.push(td);
                if td.size > max {
                    max = td.size;
                }
                k = k + 1;
                proof {
                    assert(tds@.drop_last() =~= tds_before);
                    assert(tds@.last() == td);
                    assert(varsv.skip((k - 1) as int).drop_first() =~= varsv.skip(k as int));
                    match spec_gen_members(s0, namev, varsv.skip(k as int)) {
                        None => {},
                        Some(rest) => {
                            assert(tds_before + (seq![td] + rest) =~= tds@ + rest);
                        },
                    }
                    if !valid_td(s0, td) {
                        assert(stub_like(td));
                        assert(pending_index(s0, Type::Union) == s0.unions.len() as int);
                    }
                }
            },
        }
    }
    proof {
        assert(varsv.skip(n as int) =~= Seq::<Seq<char>>::empty());
        assert(spec_gen_members(s0, namev, varsv.skip(n as int))
            == Some(Seq::<TypeData>::empty()));
        assert(tds@ + Seq::<TypeData>::empty() =~= tds@);
        assert(spec_gen_members(s0, namev, varsv) == Some(tds@));
    }
    let ghost attrsv = crate::types::attributes_view(attrs@);
    let ghost utv = UnionTypeV { name: namev, possible_types: tds@, attributes: attrsv };
    if max > usize::MAX - 4 {
        proof {
            assert(union_size(utv) > usize::MAX);
        }
        return Err(GenError::TooLarge { name });
    }
    schema.unions.push(crate::types::UnionType { name, possible_types: tds, attributes: attrs });
    proof {
        let s3 = schema@;
        assert(s3.unions =~= s0.unions.push(utv));
        assert(s3 =~= (SchemaV { unions: s0.unions.push(utv), ..s0 }));
        assert(wf_gen(s0, Some((Type::Union, s0.unions.len() as int))));
        lemma_wf_push_union(s0, s3, utv);
        assert(spec_gen_union(s0, attrsv, namev, varsv) == Some(s3));
    }
    Ok(())
}

/// Registration of one function declaration.
#[verifier::rlimit(100)]
fn gen_function(
    schema: &mut Schema,
    name: String,
    args: &Vec<(String, crate::tokenizer::Type)>,
    ret: &Option<crate::tokenizer::Type>,
) -> (r: Result<(), GenError>)
    requires
        wf_schema(old(schema)@),
    ensures
        schema_extends(old(schema)@, final(schema)@),
        final(schema)@.is_packed == old(schema)@.is_packed,
        match r {
            Ok(_) => spec_gen_function(
                old(schema)@,
                name@,
                crate::tokenizer::fn_args_view(args@),
                match ret {
                    Some(t) => Some(t@),
                    None => None::<TypeExprV>,
                },
            ) == Some(final(schema)@) && wf_schema(final(schema)@),
            Err(e) => spec_gen_function(
                old(schema)@,
                name@,
                crate::tokenizer::fn_args_view(args@),
                match ret {
                    Some(t) => Some(t@),
                    None => None::<TypeExprV>,
                },
            ) is None
                && unknown_lists_current(e, final(schema)@)
                && (e matches GenError::UnknownType { name: n, .. }
                    ==> (exists|j: int| 0 <= j < args@.len()
                            && n@ == (#[trigger] crate::tokenizer::fn_args_view(args@)[j]).1.base)
                        || (ret matches Some(t) && n@ == t@.base))
                && !(e matches GenError::TooLarge { .. })
                && !(e matches GenError::EmptyUnion { .. })
                && !(e matches GenError::Include { .. }),
        },
{
    let ghost s0 = schema@;
    let ghost namev = name@;
    let ghost argsv = crate::tokenizer::fn_args_view(args@);
    let ghost el = s0.functions.len() as int;
    let ghost pend = Some((Type::Function, el));
    let n = args.len();
    let mut argvs: Vec<crate::types::Arg> = Vec::new();
    let mut k: usize = 0;
    proof {
        assert(argsv.skip(0) =~= argsv);
        assert(crate::types::args_view(argvs@) =~= Seq::<ArgV>::empty());
        assert(wf_gen(s0, pend));
    }
    while k < n
        invariant
            n == args@.len(),
            argsv == crate::tokenizer::fn_args_view(args@),
            argsv.len() == n,
            forall|j: int| 0 <= j < n ==> argsv[j]
                == ((#[trigger] args@[j]).0@, args@[j].1@),
            k <= n,
            s0 == old(schema)@,
            el == s0.functions.len() as int,
            pend == Some((Type::Function, el)),
            wf_gen(schema@, pend),
            schema@.types == s0.types,
            schema@.enums == s0.enums,
            schema@.unions == s0.unions,
            schema@.functions == s0.functions,
            schema@.is_packed == s0.is_packed,
            schema_extends(s0, schema@),
            argvs@.len() == k,
            namev == name@,
            forall|j: int| 0 <= j < k ==> match (#[trigger] argvs@[j])@.type_data {
                Some(td) => valid_td(schema@, td)
                    || (stub_like(td) && td.kind == Type::Function && td.index as int == el),
                None => false,
            },
            ({
                match spec_gen_args(schema@, namev, argsv.skip(k as int)) {
                    None => spec_gen_args(s0, namev, argsv, ) is None,
                    Some((sf, rest)) => spec_gen_args(s0, namev, argsv)
                        == Some((sf, crate::types::args_view(argvs@) + rest)),
                }
            }),
        decreases n - k,
    {
        let ghost scur = schema@;
        let ghost avs_before = crate::types::args_view(argvs@);
        proof {
            assert(argsv.skip(k as int)[0] == argsv[k as int]);
            assert(pending_index(scur, Type::Function) == el);
        }
        let arg = &args[k];
        let td_opt = lookup_type_data(name.as_str(), Type::Function, schema, &arg.1);
        match td_opt {
            None => {
                proof {
                    assert(spec_gen_args(scur, namev, argsv.skip(k as int)) is None);
                    crate::schema::lemma_schema_extends_trans(s0, scur, schema@);
                    assert(argsv[k as int] == (args@[k as int].0@, args@[k as int].1@));
                }
                return Err(unknown_type_error(schema, base_name(&arg.1).as_str()));
            },
            Some(td) => {
                let ghost snew = schema@;
                let a = crate::types::Arg { name: arg.0.clone(), type_data: Some(td) };
                let ghost av = a@;
                argvs.push(a);
                k = k + 1;
                proof {
                    crate::schema::lemma_schema_extends_trans(s0, scur, snew);
                    let avs = crate::types::args_view(argvs@);
                    assert(avs.drop_last() =~= avs_before);
                    assert(avs.last() == av);
                    assert forall|j: int| 0 <= j < k
                        implies match (#[trigger] argvs@[j])@.type_data {
                            Some(td2) => valid_td(schema@, td2)
                                || (stub_like(td2) && td2.kind == Type::Function
                                    && td2.index as int == el),
                            None => false,
                        } by {
                        if j < k - 1 {
                            assert(argvs@[j]@ == avs_before[j]);
                            match argvs@[j]@.type_data {
                                Some(td2) => {
                                    if valid_td(scur, td2) {
                                        crate::schema::lemma_valid_td_extends(scur, snew, td2);
                                    }
                                },
                                None => {},
                            }
                        } else {
                            assert(argvs@[j]@ == av);
                            assert(resolved_ok(snew, td, pend));
                        }
                    }
                    assert(argsv.skip((k - 1) as int).drop_first() =~= argsv.skip(k as int));
                    match spec_gen_args(snew, namev, argsv.skip(k as int)) {
                        None => {},
                        Some((sf, rest)) => {
                            assert(avs_before + (seq![av] + rest) =~= avs + rest);
                        },
                    }
                }
            },
        }
    }
    proof {
        assert(argsv.skip(n as int) =~= Seq::<(Seq<char>, TypeExprV)>::empty());
        let avs = crate::types::args_view(argvs@);
        assert(spec_gen_args(schema@, namev, argsv.skip(n as int))
            == Some((schema@, Seq::<ArgV>::empty())));
        assert(avs + Seq::<ArgV>::empty() =~= avs);
        assert(spec_gen_args(s0, namev, argsv) == Some((schema@, avs)));
    }
    let ghost smid = schema@;
    let ghost avs = crate::types::args_view(argvs@);
    let return_type: Option<TypeData> = match ret {
        None => None,
        Some(rt) => {
            proof {
                assert(pending_index(smid, Type::Function) == el);
            }
            match lookup_type_data(name.as_str(), Type::Function, schema, rt) {
                None => {
                    proof {
                        crate::schema::lemma_schema_extends_trans(s0, smid, schema@);
                    }
                    return Err(unknown_type_error(schema, base_name(rt).as_str()));
                },
                Some(td) => Some(td),
            }
        },
    };
    let ghost send = schema@;
    let ghost ftv = FunctionTypeV { name: namev, args: avs, return_type };
    schema.functions.push(crate::types::FunctionType { name, args: argvs, return_type });
    proof {
        crate::schema::lemma_schema_extends_trans(s0, smid, send);
        let s3 = schema@;
        assert(s3.functions =~= send.functions.push(ftv));
        assert(s3 =~= (SchemaV { functions: send.functions.push(ftv), ..send }));
        assert forall|j: int| 0 <= j < ftv.args.len()
            implies match (#[trigger] ftv.args[j]).type_data {
                Some(td) => valid_td(send, td)
                    || (stub_like(td) && td.kind == Type::Function
                        && td.index == send.functions.len()),
                None => true,
            } by {
            assert(ftv.args[j] == argvs@[j]@);
            match ftv.args[j].type_data {
                Some(td) => {
                    if valid_td(smid, td) {
                        crate::schema::lemma_valid_td_extends(smid, send, td);
                    }
                },
                None => {},
            }
        }
        match return_type {
            Some(td) => {
                assert(resolved_ok(send, td, pend) || valid_td(smid, td));
            },
            None => {},
        }
        lemma_wf_push_function(send, s3, ftv);
        assert(spec_gen_function(s0, namev, argsv, match ret {
            Some(t) => Some(t@),
            None => None::<TypeExprV>,
        }) == Some(s3));
    }
    Ok(())
}

/// Registration of one declaration; an include's declarations are processed
/// in place against the same schema.
fn gen_token(schema: &mut Schema, tok: &Token) -> (r: Result<(), GenError>)
    requires
        wf_schema(old(schema)@),
    ensures
        schema_extends(old(schema)@, final(schema)@),
        final(schema)@.is_packed == old(schema)@.is_packed,
        match r {
            Ok(_) => spec_gen_token(old(schema)@, tok@) == Some(final(schema)@)
                && wf_schema(final(schema)@),
            Err(e) => spec_gen_token(old(schema)@, tok@) is None
                && unknown_lists_current(e, final(schema)@)
                && (tok matches Token::Include(p, _)
                    ==> (e matches GenError::Include { path, cause: _ } && path@ == p@)),
        },
    decreases token_size(tok@), 0int,
{
    match tok {
        Token::Struct(attrs, name, fields) => {
            gen_struct(schema, clone_attrs(attrs), name.clone(), fields)
        },
        Token::Enum(attrs, name, variants) => {
            gen_enum(schema, clone_attrs(attrs), name.clone(), clone_names(variants));
            Ok(())
        },
        Token::Union(attrs, name, variants) => {
            gen_union(schema, clone_attrs(attrs), name.clone(), variants)
        },
        Token::Function(name, args, ret) => {
            gen_function(schema, name.clone(), args, ret)
        },
        Token::Include(path, sub) => {
            proof {
                assert(token_size(tok@) == 1 + tokens_size(tokens_view(sub@)));
            }
            match gen_tokens(schema, sub) {
                Ok(_) => Ok(()),
                Err(cause) => Err(GenError::Include {
                    path: path.clone(),
                    cause: Box::new(cause),
                }),
            }
        },
    }
}

/// Registration of a declaration sequence, in order, into an existing
/// well-formed schema. On failure the schema may hold entries registered
/// before the failing declaration; an unknown-type diagnosis then lists
/// exactly the names known at that point, and a failure inside an include's
/// declarations is wrapped with the included file's path.
pub fn gen_tokens(schema: &mut Schema, toks: &Vec<Token>) -> (r: Result<(), GenError>)
    requires
        wf_schema(old(schema)@),
    ensures
        schema_extends(old(schema)@, final(schema)@),
        final(schema)@.is_packed == old(schema)@.is_packed,
        match r {
            Ok(_) => spec_gen_tokens(old(schema)@, tokens_view(toks@), 0)
                == Some(final(schema)@) && wf_schema(final(schema)@),
            Err(e) => spec_gen_tokens(old(schema)@, tokens_view(toks@), 0) is None
                && unknown_lists_current(e, final(schema)@),
        },
    decreases tokens_size(tokens_view(toks@)), 1int,
{
    let ghost s0 = schema@;
    let ghost tv = tokens_view(toks@);
    let n = toks.len();
    let mut k: usize = 0;
    proof {
        crate::tokenizer::lemma_tokens_view_index(toks@, 0);
    }
    while k < n
        invariant
            s0 == old(schema)@,
            n == toks@.len(),
            tv == tokens_view(toks@),
            tv.len() == n,
            k <= n,
            wf_schema(schema@),
            schema@.is_packed == s0.is_packed,
            schema_extends(s0, schema@),
            spec_gen_tokens(s0, tv, 0) == spec_gen_tokens(schema@, tv, k as int),
        decreases n - k,
    {
        let ghost scur = schema@;
        proof {
            crate::tokenizer::lemma_tokens_view_index(toks@, k as int);
            lemma_tokens_size_element(tv, k as int);
        }
        match gen_token(schema, &toks[k]) {
            Err(e) => {
                proof {
                    assert(spec_gen_token(scur, tv[k as int]) is None);
                    assert(spec_gen_tokens(scur, tv, k as int) is None);
                    crate::schema::lemma_schema_extends_trans(s0, scur, schema@);
                }
                return Err(e);
            },
            Ok(_) => {
                k = k + 1;
                proof {
                    crate::schema::lemma_schema_extends_trans(s0, scur, schema@);
                    assert(spec_gen_token(scur, tv[(k - 1) as int]) == Some(schema@));
                    assert(spec_gen_tokens(scur, tv, (k - 1) as int)
                        == spec_gen_tokens(schema@, tv, k as int));
                }
            },
        }
    }
    proof {
        assert(spec_gen_tokens(schema@, tv, n as int) == Some(schema@));
    }
    Ok(())
}

/// Builds a schema from an ordered declaration sequence: each declaration is
/// registered in turn against the schema built so far, starting from the
/// empty schema. The result is well-formed: every memoized reference is
/// consistent with its table entry, composite shapes are interned uniquely,
/// and every computed size fits the machine.
pub fn generate_schema(tokens: &Vec<Token>) -> (r: Result<Schema, GenError>)
    ensures
        match r {
            Ok(schema) => spec_gen_tokens(empty_schema(), tokens_view(tokens@), 0)
                == Some(schema@) && wf_schema(schema@),
            Err(_) => spec_gen_tokens(empty_schema(), tokens_view(tokens@), 0) is None,
        },
{
    let mut schema = Schema::default();
    proof {
        assert(schema@ =~= empty_schema());
        lemma_wf_empty();
    }
    match gen_tokens(&mut schema, tokens) {
        Ok(_) => Ok(schema),
        Err(e) => Err(e),
    }
}


// ---------------------------------------------------------------------------
// Interning: resolving a shape twice yields the same table entry
// ---------------------------------------------------------------------------

/// Resolution never touches the named tables, and only appends to the
/// composite tables.
proof fn lemma_wraps_grow(s: SchemaV, td: TypeData, wraps: Seq<Wrap>)
    ensures
        match spec_resolve_wraps(s, td, wraps) {
            Some((s2, _td2)) => s2.types == s.types && s2.enums == s.enums
                && s2.unions == s.unions && s2.functions == s.functions
                && s2.is_packed == s.is_packed
                && crate::schema::seq_extends(s.arrays, s2.arrays)
                && crate::schema::seq_extends(s.vectors, s2.vectors)
                && crate::schema::seq_extends(s.pointers, s2.pointers),
            None => true,
        },
    decreases wraps.len(),
{
    if wraps.len() > 0 {
        match spec_intern_wrap(s, td, wraps[0]) {
            None => {},
            Some((sa, tda)) => {
                lemma_wraps_grow(sa, tda, wraps.drop_first());
            },
        }
    }
}

/// A bare name resolves the same against any schema with the same named
/// tables.
proof fn lemma_named_stable(s: SchemaV, s2: SchemaV, ctx: Option<(Seq<char>, Type)>, name: Seq<char>)
    requires
        s2.types == s.types,
        s2.enums == s.enums,
        s2.unions == s.unions,
        s2.functions == s.functions,
    ensures
        spec_resolve_named(s2, ctx, name) == spec_resolve_named(s, ctx, name),
{
    assert(data_names(s2) == data_names(s));
    assert(enum_names(s2) == enum_names(s));
    assert(union_names(s2) == union_names(s));
    assert(function_names(s2) == function_names(s));
    match find_first(data_names(s), name) {
        Some(i) => {
            lemma_find_first_bounds(data_names(s), name);
            assert(td_of(s2, Type::Data, i) == td_of(s, Type::Data, i));
        },
        None => {},
    }
    match find_first(union_names(s), name) {
        Some(i) => {
            lemma_find_first_bounds(union_names(s), name);
            assert(td_of(s2, Type::Union, i) == td_of(s, Type::Union, i));
        },
        None => {},
    }
}

/// Interning one wrapper a second time, against the schema the first
/// interning produced or any composite-extension of it, changes nothing and
/// yields the same reference.
proof fn lemma_intern_wrap_idem(s: SchemaV, s1: SchemaV, s2: SchemaV, td: TypeData, w: Wrap, td1: TypeData)
    requires
        spec_intern_wrap(s, td, w) == Some((s1, td1)),
        s2.types == s1.types,
        s2.enums == s1.enums,
        s2.unions == s1.unions,
        s2.functions == s1.functions,
        s2.is_packed == s1.is_packed,
        crate::schema::seq_extends(s1.arrays, s2.arrays),
        crate::schema::seq_extends(s1.vectors, s2.vectors),
        crate::schema::seq_extends(s1.pointers, s2.pointers),
    ensures
        spec_intern_wrap(s2, td, w) == Some((s2, td1)),
{
    match w {
        Wrap::Arr(len) => {
            let shape = (td.kind, td.index as int, len as int);
            lemma_find_first_bounds(array_shapes(s), shape);
            match find_first(array_shapes(s), shape) {
                Some(j) => {
                    assert(array_shapes(s2)[j] == shape) by {
                        assert(s2.arrays[j] == s.arrays[j]);
                        assert(array_shapes(s)[j] == shape);
                    }
                    assert forall|m: int| 0 <= m < j
                        implies array_shapes(s2)[m] != shape by {
                        assert(s2.arrays[m] == s.arrays[m]);
                        assert(array_shapes(s)[m] != shape);
                    }
                    lemma_find_first_found(array_shapes(s2), shape, j);
                    assert(td_of(s2, Type::Array, j) == td_of(s, Type::Array, j)) by {
                        assert(s2.arrays[j] == s.arrays[j]);
                    }
                },
                None => {
                    let l = s.arrays.len() as int;
                    assert(s1.arrays == s.arrays.push(ArrayType { inner: td, len }));
                    assert(array_shapes(s2)[l] == shape) by {
                        assert(s2.arrays[l] == s1.arrays[l]);
                        assert(s1.arrays[l] == (ArrayType { inner: td, len }));
                    }
                    assert forall|m: int| 0 <= m < l
                        implies array_shapes(s2)[m] != shape by {
                        assert(s2.arrays[m] == s1.arrays[m]);
                        assert(s1.arrays[m] == s.arrays[m]);
                        assert(array_shapes(s)[m] != shape);
                    }
                    lemma_find_first_found(array_shapes(s2), shape, l);
                    assert(td_of(s2, Type::Array, l) == td1) by {
                        assert(s2.arrays[l] == (ArrayType { inner: td, len }));
                    }
                },
            }
        },
        Wrap::Vect => {
            let shape = (td.kind, td.index as int);
            lemma_find_first_bounds(vector_shapes(s), shape);
            match find_first(vector_shapes(s), shape) {
                Some(j) => {
                    assert(vector_shapes(s2)[j] == shape) by {
                        assert(s2.vectors[j] == s.vectors[j]);
                        assert(vector_shapes(s)[j] == shape);
                    }
                    assert forall|m: int| 0 <= m < j
                        implies vector_shapes(s2)[m] != shape by {
                        assert(s2.vectors[m] == s.vectors[m]);
                        assert(vector_shapes(s)[m] != shape);
                    }
                    lemma_find_first_found(vector_shapes(s2), shape, j);
                },
                None => {
                    let l = s.vectors.len() as int;
                    assert(s1.vectors == s.vectors.push(VectorType { inner: td }));
                    assert(vector_shapes(s2)[l] == shape) by {
                        assert(s2.vectors[l] == s1.vectors[l]);
                        assert(s1.vectors[l] == (VectorType { inner: td }));
                    }
                    assert forall|m: int| 0 <= m < l
                        implies vector_shapes(s2)[m] != shape by {
                        assert(s2.vectors[m] == s1.vectors[m]);
                        assert(s1.vectors[m] == s.vectors[m]);
                        assert(vector_shapes(s)[m] != shape);
                    }
                    lemma_find_first_found(vector_shapes(s2), shape, l);
                },
            }
        },
        Wrap::Ptr => {
            let shape = (td.kind, td.index as int);
            lemma_find_first_bounds(pointer_shapes(s), shape);
            match find_first(pointer_shapes(s), shape) {
                Some(j) => {
                    assert(pointer_shapes(s2)[j] == shape) by {
                        assert(s2.pointers[j] == s.pointers[j]);
                        assert(pointer_shapes(s)[j] == shape);
                    }
                    assert forall|m: int| 0 <= m < j
                        implies pointer_shapes(s2)[m] != shape by {
                        assert(s2.pointers[m] == s.pointers[m]);
                        assert(pointer_shapes(s)[m] != shape);
                    }
                    lemma_find_first_found(pointer_shapes(s2), shape, j);
                },
                None => {
                    let l = s.pointers.len() as int;
                    assert(s1.pointers == s.pointers.push(PointerType { inner: td }));
                    assert(pointer_shapes(s2)[l] == shape) by {
                        assert(s2.pointers[l] == s1.pointers[l]);
                        assert(s1.pointers[l] == (PointerType { inner: td }));
                    }
                    assert forall|m: int| 0 <= m < l
                        implies pointer_shapes(s2)[m] != shape by {
                        assert(s2.pointers[m] == s1.pointers[m]);
                        assert(s1.pointers[m] == s.pointers[m]);
                        assert(pointer_shapes(s)[m] != shape);
                    }
                    lemma_find_first_found(pointer_shapes(s2), shape, l);
                },
            }
        },
    }
}

proof fn lemma_wraps_idem(s: SchemaV, sfinal: SchemaV, td: TypeData, wraps: Seq<Wrap>)
    requires
        match spec_resolve_wraps(s, td, wraps) {
            Some((s2, _td2)) => s2 == sfinal,
            None => true,
        },
    ensures
        match spec_resolve_wraps(s, td, wraps) {
            Some((s2, td2)) => spec_resolve_wraps(sfinal, td, wraps) == Some((sfinal, td2)),
            None => true,
        },
    decreases wraps.len(),
{
    match spec_resolve_wraps(s, td, wraps) {
        None => {},
        Some((s2, td2)) => {
            if wraps.len() == 0 {
            } else {
                let w = wraps[0];
                match spec_intern_wrap(s, td, w) {
                    None => {},
                    Some((sa, tda)) => {
                        lemma_wraps_grow(sa, tda, wraps.drop_first());
                        lemma_intern_wrap_idem(s, sa, sfinal, td, w, tda);
                        lemma_wraps_idem(sa, sfinal, tda, wraps.drop_first());
                    },
                }
            }
        },
    }
}

/// Interning is idempotent: resolving the same type expression a second
/// time, against the schema the first resolution produced, changes nothing
/// and yields the same reference -- in particular, the same table index.
pub proof fn lemma_interning_idempotent(s: SchemaV, ctx: Option<(Seq<char>, Type)>, t: TypeExprV)
    ensures
        match spec_resolve(s, ctx, t) {
            Some((s2, td)) => spec_resolve(s2, ctx, t) == Some((s2, td)),
            None => true,
        },
{
    match spec_resolve_named(s, ctx, t.base) {
        None => {},
        Some(td0) => {
            match spec_resolve_wraps(s, td0, t.wraps) {
                None => {},
                Some((s2, td)) => {
                    lemma_wraps_grow(s, td0, t.wraps);
                    lemma_named_stable(s, s2, ctx, t.base);
                    lemma_wraps_idem(s, s2, td0, t.wraps);
                },
            }
        },
    }
}


// ---------------------------------------------------------------------------
// Textual resolution
// ---------------------------------------------------------------------------

impl Schema {
    /// The memoized reference for a textual type shape -- a bare name,
    /// `[T:N]`, `<T>` or a trailing-star pointer chain -- interning every
    /// newly-seen composite shape as a side effect. Nothing resolves against
    /// a type still being defined here: this is the standalone entry used
    /// once a schema stands on its own.
    pub fn type_data_by_name(&mut self, name: &str) -> (r: Result<TypeData, GenError>)
        requires
            wf_schema(old(self)@),
        ensures
            wf_schema(final(self)@),
            schema_extends(old(self)@, final(self)@),
            final(self)@.types == old(self)@.types,
            final(self)@.enums == old(self)@.enums,
            final(self)@.unions == old(self)@.unions,
            final(self)@.functions == old(self)@.functions,
            final(self)@.is_packed == old(self)@.is_packed,
            match crate::tokenizer::parse_type(name@, 0) {
                Some((t, j)) => {
                    if crate::tokenizer::skip_ws(name@, j) == name@.len() {
                        match spec_resolve(old(self)@, None, t) {
                            Some((s2, td)) => r == Ok::<TypeData, GenError>(td)
                                && final(self)@ == s2,
                            None => r is Err,
                        }
                    } else {
                        r is Err && final(self)@ == old(self)@
                    }
                },
                None => r is Err && final(self)@ == old(self)@,
            },
            match r {
                Ok(_) => true,
                Err(e) => (e matches GenError::UnknownType { name: n, .. } && n@ == name@)
                    && unknown_lists_current(e, final(self)@),
            },
    {
        let ghost s0 = self@;
        let n = name.unicode_len();
        match crate::tokenizer::e_parse_type(name, 0, n) {
            None => Err(unknown_type_error(self, name)),
            Some((expr, j)) => {
                let j2 = crate::tokenizer::e_skip_ws(name, j, n);
                if j2 < n {
                    return Err(unknown_type_error(self, name));
                }
                proof {
                    assert(wf_gen(s0, None));
                }
                match resolve_expr(self, None, Type::Data, &expr, Ghost(None)) {
                    Some(td) => {
                        proof {
                            assert(wf_schema(final(self)@));
                        }
                        Ok(td)
                    },
                    None => {
                        proof {
                            assert(wf_schema(self@));
                        }
                        Err(unknown_type_error(self, name))
                    },
                }
            },
        }
    }
}


// ---------------------------------------------------------------------------
// Interning: distinct shapes occupy distinct entries
// ---------------------------------------------------------------------------

/// The self-reference context the registry ever uses: a struct, union or
/// function definition.
pub open spec fn ctx_kind_ok(ctx: Option<(Seq<char>, Type)>) -> bool {
    match ctx {
        Some((_n, ck)) => ck == Type::Data || ck == Type::Union || ck == Type::Function,
        None => true,
    }
}

/// A bare name resolves to a named kind, never to an interned composite.
proof fn lemma_named_kind(s: SchemaV, ctx: Option<(Seq<char>, Type)>, name: Seq<char>)
    requires
        ctx_kind_ok(ctx),
    ensures
        match spec_resolve_named(s, ctx, name) {
            Some(td) => td.kind != Type::Array && td.kind != Type::Vector
                && td.kind != Type::Pointer,
            None => true,
        },
{
}

/// Two different bare names never resolve to the same reference.
proof fn lemma_named_injective(s: SchemaV, ctx: Option<(Seq<char>, Type)>, n1: Seq<char>, n2: Seq<char>, td1: TypeData, td2: TypeData)
    requires
        n1 != n2,
        ctx_kind_ok(ctx),
        s.types.len() <= usize::MAX,
        s.enums.len() <= usize::MAX,
        s.unions.len() <= usize::MAX,
        s.functions.len() <= usize::MAX,
        spec_resolve_named(s, ctx, n1) == Some(td1),
        spec_resolve_named(s, ctx, n2) == Some(td2),
    ensures
        td1.kind != td2.kind || td1.index != td2.index,
{
    lemma_find_first_bounds(data_names(s), n1);
    lemma_find_first_bounds(data_names(s), n2);
    lemma_find_first_bounds(enum_names(s), n1);
    lemma_find_first_bounds(enum_names(s), n2);
    lemma_find_first_bounds(union_names(s), n1);
    lemma_find_first_bounds(union_names(s), n2);
    lemma_find_first_bounds(function_names(s), n1);
    lemma_find_first_bounds(function_names(s), n2);
    if td1.kind == td2.kind && td1.index == td2.index {
        // whichever category both names hit, the entry carries one name;
        // and a self reference carries the one index past its table's end
        match td1.kind {
            Type::Primitive => {
                assert(n1 == crate::primitives::spec_primitive_name(td1.index as int));
                assert(n2 == crate::primitives::spec_primitive_name(td2.index as int));
            },
            Type::Data => {
                let self1 = ctx matches Some((cn, ck)) && cn == n1;
                let self2 = ctx matches Some((cn, ck)) && cn == n2;
                if self1 && self2 {
                    assert(n1 == ctx->Some_0.0);
                    assert(n2 == ctx->Some_0.0);
                } else if self1 {
                    assert(td1.index == s.types.len());
                    assert(td2.index < s.types.len());
                } else if self2 {
                    assert(td2.index == s.types.len());
                    assert(td1.index < s.types.len());
                } else {
                    assert(data_names(s)[td1.index as int] == n1);
                    assert(data_names(s)[td2.index as int] == n2);
                }
            },
            Type::Enum => {
                assert(enum_names(s)[td1.index as int] == n1);
                assert(enum_names(s)[td2.index as int] == n2);
            },
            Type::Union => {
                let self1 = ctx matches Some((cn, ck)) && cn == n1;
                let self2 = ctx matches Some((cn, ck)) && cn == n2;
                if self1 && self2 {
                    assert(n1 == ctx->Some_0.0);
                    assert(n2 == ctx->Some_0.0);
                } else if self1 {
                    assert(td1.index == s.unions.len());
                    assert(td2.index < s.unions.len());
                } else if self2 {
                    assert(td2.index == s.unions.len());
                    assert(td1.index < s.unions.len());
                } else {
                    assert(union_names(s)[td1.index as int] == n1);
                    assert(union_names(s)[td2.index as int] == n2);
                }
            },
            Type::Function => {
                let self1 = ctx matches Some((cn, ck)) && cn == n1;
                let self2 = ctx matches Some((cn, ck)) && cn == n2;
                if self1 && self2 {
                    assert(n1 == ctx->Some_0.0);
                    assert(n2 == ctx->Some_0.0);
                } else if self1 {
                    assert(td1.index == s.functions.len());
                    assert(td2.index < s.functions.len());
                } else if self2 {
                    assert(td2.index == s.functions.len());
                    assert(td1.index < s.functions.len());
                } else {
                    assert(function_names(s)[td1.index as int] == n1);
                    assert(function_names(s)[td2.index as int] == n2);
                }
            },
            Type::String => {
                assert(n1 == "String"@);
                assert(n2 == "String"@);
            },
            _ => {
                lemma_named_kind(s, ctx, n1);
            },
        }
    }
}

/// Distinct type expressions that both resolve in place -- against a schema
/// that already holds their shapes, as after interning -- yield distinct
/// references: in particular, two different composite shapes of the same
/// kind occupy two different entries of that kind's table.
pub proof fn lemma_interning_distinct(
    s: SchemaV,
    ctx: Option<(Seq<char>, Type)>,
    t1: TypeExprV,
    t2: TypeExprV,
    td1: TypeData,
    td2: TypeData,
)
    requires
        t1 != t2,
        ctx_kind_ok(ctx),
        s.types.len() <= usize::MAX,
        s.enums.len() <= usize::MAX,
        s.unions.len() <= usize::MAX,
        s.functions.len() <= usize::MAX,
        s.arrays.len() <= usize::MAX,
        s.vectors.len() <= usize::MAX,
        s.pointers.len() <= usize::MAX,
        spec_resolve(s, ctx, t1) == Some((s, td1)),
        spec_resolve(s, ctx, t2) == Some((s, td2)),
    ensures
        td1.kind != td2.kind || td1.index != td2.index,
    decreases t1.wraps.len() + t2.wraps.len(), 1int,
{
    if t1.wraps.len() == 0 && t2.wraps.len() == 0 {
        assert(spec_resolve_named(s, ctx, t1.base) == Some(td1));
        assert(spec_resolve_named(s, ctx, t2.base) == Some(td2));
        assert(t1.base != t2.base) by {
            if t1.base == t2.base {
                assert(t1.wraps =~= t2.wraps);
                assert(t1 == t2);
            }
        }
        lemma_named_injective(s, ctx, t1.base, t2.base, td1, td2);
    } else if t1.wraps.len() == 0 {
        lemma_named_kind(s, ctx, t1.base);
        let (inner2, lw2) = peel(t2);
        lemma_resolve_peel(s, ctx, t2, td2);
        assert(td2.kind == Type::Array || td2.kind == Type::Vector
            || td2.kind == Type::Pointer);
    } else if t2.wraps.len() == 0 {
        lemma_named_kind(s, ctx, t2.base);
        lemma_resolve_peel(s, ctx, t1, td1);
    } else {
        lemma_resolve_peel(s, ctx, t1, td1);
        lemma_resolve_peel(s, ctx, t2, td2);
        let (inner1, lw1) = peel(t1);
        let (inner2, lw2) = peel(t2);
        let tdi1 = inner_td_of(s, ctx, t1);
        let tdi2 = inner_td_of(s, ctx, t2);
        if td1.kind == td2.kind && td1.index == td2.index {
            // the same entry holds both shapes, so the shapes are equal
            match lw1 {
                Wrap::Arr(n1) => {
                    assert(td1.kind == Type::Array);
                    match lw2 {
                        Wrap::Arr(n2) => {
                            let e = s.arrays[td1.index as int];
                            assert(e.inner.kind == tdi1.kind && e.inner.index == tdi1.index);
                            assert(e.inner.kind == tdi2.kind && e.inner.index == tdi2.index);
                            lemma_inner_expr_distinct(s, ctx, t1, t2, tdi1, tdi2);
                        },
                        _ => {
                            assert(td2.kind != Type::Array);
                        },
                    }
                },
                Wrap::Vect => {
                    assert(td1.kind == Type::Vector);
                    match lw2 {
                        Wrap::Vect => {
                            let e = s.vectors[td1.index as int];
                            assert(e.inner.kind == tdi1.kind && e.inner.index == tdi1.index);
                            assert(e.inner.kind == tdi2.kind && e.inner.index == tdi2.index);
                            lemma_inner_expr_distinct(s, ctx, t1, t2, tdi1, tdi2);
                        },
                        _ => {
                            assert(td2.kind != Type::Vector);
                        },
                    }
                },
                Wrap::Ptr => {
                    assert(td1.kind == Type::Pointer);
                    match lw2 {
                        Wrap::Ptr => {
                            let e = s.pointers[td1.index as int];
                            assert(e.inner.kind == tdi1.kind && e.inner.index == tdi1.index);
                            assert(e.inner.kind == tdi2.kind && e.inner.index == tdi2.index);
                            lemma_inner_expr_distinct(s, ctx, t1, t2, tdi1, tdi2);
                        },
                        _ => {
                            assert(td2.kind != Type::Pointer);
                        },
                    }
                },
            }
        }
    }
}

/// The inner expression of a composite expression, and its last wrapper.
spec fn peel(t: TypeExprV) -> (TypeExprV, Wrap)
    recommends
        t.wraps.len() > 0,
{
    (TypeExprV { base: t.base, wraps: t.wraps.drop_last() }, t.wraps.last())
}

/// The reference the inner expression of a composite resolves to, when the
/// whole expression resolves in place.
spec fn inner_td_of(s: SchemaV, ctx: Option<(Seq<char>, Type)>, t: TypeExprV) -> TypeData {
    spec_resolve(s, ctx, peel(t).0)->Some_0.1
}

/// Different inner expressions of two same-kind composites give different
/// inner references (the inductive step).
proof fn lemma_inner_expr_distinct(
    s: SchemaV,
    ctx: Option<(Seq<char>, Type)>,
    t1: TypeExprV,
    t2: TypeExprV,
    tdi1: TypeData,
    tdi2: TypeData,
)
    requires
        t1 != t2,
        ctx_kind_ok(ctx),
        s.types.len() <= usize::MAX,
        s.enums.len() <= usize::MAX,
        s.unions.len() <= usize::MAX,
        s.functions.len() <= usize::MAX,
        s.arrays.len() <= usize::MAX,
        s.vectors.len() <= usize::MAX,
        s.pointers.len() <= usize::MAX,
        t1.wraps.len() > 0,
        t2.wraps.len() > 0,
        t1.wraps.last() == t2.wraps.last(),
        spec_resolve(s, ctx, peel(t1).0) == Some((s, tdi1)),
        spec_resolve(s, ctx, peel(t2).0) == Some((s, tdi2)),
    ensures
        tdi1.kind != tdi2.kind || tdi1.index != tdi2.index,
    decreases t1.wraps.len() + t2.wraps.len(), 0int,
{
    let i1 = peel(t1).0;
    let i2 = peel(t2).0;
    assert(i1 != i2) by {
        if i1 == i2 {
            assert(t1.wraps =~= i1.wraps.push(t1.wraps.last()));
            assert(t2.wraps =~= i2.wraps.push(t2.wraps.last()));
            assert(t1 == t2);
        }
    }
    lemma_interning_distinct(s, ctx, i1, i2, tdi1, tdi2);
}

/// Peeling a composite that resolves in place: the inner expression also
/// resolves in place, and the whole reference is the in-place interning of
/// the last wrapper around the inner reference.
proof fn lemma_resolve_peel(s: SchemaV, ctx: Option<(Seq<char>, Type)>, t: TypeExprV, td: TypeData)
    requires
        t.wraps.len() > 0,
        s.arrays.len() <= usize::MAX,
        s.vectors.len() <= usize::MAX,
        s.pointers.len() <= usize::MAX,
        spec_resolve(s, ctx, t) == Some((s, td)),
    ensures
        spec_resolve(s, ctx, peel(t).0) == Some((s, inner_td_of(s, ctx, t))),
        spec_intern_wrap(s, inner_td_of(s, ctx, t), peel(t).1) == Some((s, td)),
        match peel(t).1 {
            Wrap::Arr(n) => td.kind == Type::Array && 0 <= td.index < s.arrays.len()
                && s.arrays[td.index as int].inner.kind == inner_td_of(s, ctx, t).kind
                && s.arrays[td.index as int].inner.index == inner_td_of(s, ctx, t).index
                && s.arrays[td.index as int].len == n,
            Wrap::Vect => td.kind == Type::Vector && 0 <= td.index < s.vectors.len()
                && s.vectors[td.index as int].inner.kind == inner_td_of(s, ctx, t).kind
                && s.vectors[td.index as int].inner.index == inner_td_of(s, ctx, t).index,
            Wrap::Ptr => td.kind == Type::Pointer && 0 <= td.index < s.pointers.len()
                && s.pointers[td.index as int].inner.kind == inner_td_of(s, ctx, t).kind
                && s.pointers[td.index as int].inner.index == inner_td_of(s, ctx, t).index,
        },
{
    let inner = peel(t).0;
    let lw = peel(t).1;
    assert(t == (TypeExprV { base: inner.base, wraps: inner.wraps.push(lw) })) by {
        assert(t.wraps =~= inner.wraps.push(lw));
    }
    lemma_resolve_wraps_push_resolve(s, ctx, inner, lw);
    match spec_resolve(s, ctx, inner) {
        None => {
            assert(false);
        },
        Some((sm, tdm)) => {
            // the interning of the last wrapper neither found a new state
            // nor could it have appended: the final state is the start
            match spec_resolve_named(s, ctx, inner.base) {
                None => {
                    assert(false);
                },
                Some(td0) => {
                    lemma_wraps_grow(s, td0, inner.wraps);
                },
            }
            assert(schema_extends_tables(s, sm));
            match lw {
                Wrap::Arr(n) => {
                    match find_first(array_shapes(sm), (tdm.kind, tdm.index as int, n as int)) {
                        Some(j) => {
                            assert(sm == s);
                            lemma_find_first_bounds(array_shapes(s),
                                (tdm.kind, tdm.index as int, n as int));
                            assert(td.index as int == j);
                            assert(array_shapes(s)[j] == (tdm.kind, tdm.index as int, n as int));
                            assert(array_shape(s.arrays[j])
                                == (tdm.kind, tdm.index as int, n as int));
                        },
                        None => {
                            if tdm.size * n <= usize::MAX {
                                let s2 = SchemaV {
                                    arrays: sm.arrays.push(ArrayType { inner: tdm, len: n }),
                                    ..sm
                                };
                                assert(s2.arrays.len() == sm.arrays.len() + 1);
                                assert(s2 == s);
                                assert(s.arrays.len() <= sm.arrays.len());
                                assert(false);
                            }
                        },
                    }
                },
                Wrap::Vect => {
                    match find_first(vector_shapes(sm), (tdm.kind, tdm.index as int)) {
                        Some(j) => {
                            assert(sm == s);
                            lemma_find_first_bounds(vector_shapes(s),
                                (tdm.kind, tdm.index as int));
                            assert(td.index as int == j);
                            assert(vector_shapes(s)[j] == (tdm.kind, tdm.index as int));
                            assert(vector_shape(s.vectors[j]) == (tdm.kind, tdm.index as int));
                        },
                        None => {
                            let s2 = SchemaV {
                                vectors: sm.vectors.push(VectorType { inner: tdm }),
                                ..sm
                            };
                            assert(s2 == s);
                            assert(s.vectors.len() <= sm.vectors.len());
                            assert(false);
                        },
                    }
                },
                Wrap::Ptr => {
                    match find_first(pointer_shapes(sm), (tdm.kind, tdm.index as int)) {
                        Some(j) => {
                            assert(sm == s);
                            lemma_find_first_bounds(pointer_shapes(s),
                                (tdm.kind, tdm.index as int));
                            assert(td.index as int == j);
                            assert(pointer_shapes(s)[j] == (tdm.kind, tdm.index as int));
                            assert(pointer_shape(s.pointers[j]) == (tdm.kind, tdm.index as int));
                        },
                        None => {
                            let s2 = SchemaV {
                                pointers: sm.pointers.push(PointerType { inner: tdm }),
                                ..sm
                            };
                            assert(s2 == s);
                            assert(s.pointers.len() <= sm.pointers.len());
                            assert(false);
                        },
                    }
                },
            }
        },
    }
}

/// Resolution only ever grows the composite tables.
spec fn schema_extends_tables(a: SchemaV, b: SchemaV) -> bool {
    b.types == a.types && b.enums == a.enums && b.unions == a.unions
        && b.functions == a.functions
        && crate::schema::seq_extends(a.arrays, b.arrays)
        && crate::schema::seq_extends(a.vectors, b.vectors)
        && crate::schema::seq_extends(a.pointers, b.pointers)
}

} // verus!
