//! The layout engine: assigns final byte offsets to every struct's fields,
//! deterministically and idempotently, under one of two policies. The
//! packing pass stably sorts each struct's fields by ascending size and
//! packs them with no gaps; the natural-alignment pass walks fields in
//! order, rounding each offset up to the field's alignment and recording
//! the inserted gap as padding.

use vstd::prelude::*;

use crate::schema::{
    align_of_ref, all_fields_copy, count_self, data_size, size_of_ref, sum_nonself, union_size,
    wf_schema, Schema, SchemaV, valid_td, stub_like, is_self_field, depth_ok, ref_budget,
    inner_depth_ok, fields_depth_ok,
};
use crate::types::{DataTypeV, FieldV, Type, TypeData};

verus! {

/// Which layout passes run.
#[derive(Clone, Copy, PartialEq, Eq, Structural, Debug)]
pub struct SchemaOptimizations {
    pub data_type_layout: bool,
    pub add_padding: bool,
}

impl SchemaOptimizations {
    pub fn new(data_type_layout: bool, add_padding: bool) -> (r: Self)
        ensures
            r == (SchemaOptimizations { data_type_layout, add_padding }),
    {
        SchemaOptimizations { data_type_layout, add_padding }
    }
}

impl Default for SchemaOptimizations {
    /// Both passes on: pack and reorder, then align with padding.
    fn default() -> (r: Self)
        ensures
            r == (SchemaOptimizations { data_type_layout: true, add_padding: true }),
    {
        SchemaOptimizations { data_type_layout: true, add_padding: true }
    }
}

// ---------------------------------------------------------------------------
// The packing pass, in specification
// ---------------------------------------------------------------------------

/// Stable insertion of `f` into a size-sorted field sequence: `f` lands
/// after every field of equal or smaller size.
pub open spec fn insert_by_size(sorted: Seq<FieldV>, f: FieldV) -> Seq<FieldV>
    decreases sorted.len(),
{
    if sorted.len() == 0 {
        seq![f]
    } else if sorted.last().type_data.size <= f.type_data.size {
        sorted.push(f)
    } else {
        insert_by_size(sorted.drop_last(), f).push(sorted.last())
    }
}

/// The stable sort of a field sequence by ascending memoized size.
pub open spec fn sort_by_size(fields: Seq<FieldV>) -> Seq<FieldV>
    decreases fields.len(),
{
    if fields.len() == 0 {
        Seq::empty()
    } else {
        insert_by_size(sort_by_size(fields.drop_last()), fields.last())
    }
}

/// Is the sequence sorted by ascending memoized size?
pub open spec fn sorted_by_size(fields: Seq<FieldV>) -> bool {
    forall|j1: int, j2: int| 0 <= j1 <= j2 < fields.len()
        ==> (#[trigger] fields[j1]).type_data.size <= (#[trigger] fields[j2]).type_data.size
}

/// The sum of the memoized sizes of the first `j` fields.
pub open spec fn size_prefix_sum(fields: Seq<FieldV>, j: int) -> int
    decreases j,
{
    if j <= 0 {
        0
    } else {
        size_prefix_sum(fields, j - 1) + fields[j - 1].type_data.size
    }
}

/// Packed offsets: each field starts where the previous one ended, with no
/// padding anywhere.
pub open spec fn assign_packed(fields: Seq<FieldV>) -> Seq<FieldV> {
    Seq::new(fields.len(), |j: int| FieldV {
        offset: size_prefix_sum(fields, j) as usize,
        padding_size: 0,
        ..fields[j]
    })
}

/// The packing pass on one struct's fields: the stable sort, then packed
/// offsets.
pub open spec fn pack_fields(fields: Seq<FieldV>) -> Seq<FieldV> {
    assign_packed(sort_by_size(fields))
}

/// The packing pass on the whole schema: every struct independently, and
/// the schema marked packed.
pub open spec fn spec_pack(s: SchemaV) -> SchemaV {
    SchemaV {
        is_packed: true,
        types: Seq::new(s.types.len(), |i: int| DataTypeV {
            fields: pack_fields(s.types[i].fields),
            ..s.types[i]
        }),
        ..s
    }
}

// ---------------------------------------------------------------------------
// The natural-alignment pass, in specification
// ---------------------------------------------------------------------------

/// `off` rounded up to the next multiple of `a`.
pub open spec fn align_up(off: int, a: int) -> int {
    ((off + a - 1) / a) * a
}

/// The size the alignment walk uses for a field: the referent's size as
/// the schema now reports it -- for a nested struct, with its recorded
/// padding counted; for a self reference, the enclosing struct's own size.
pub open spec fn ext_size(s: SchemaV, f: FieldV) -> int {
    crate::schema::padded_size_of_ref(s, f.type_data.kind, f.type_data.index as int)
}

/// The alignment the walk uses for a field.
pub open spec fn ext_align(s: SchemaV, f: FieldV) -> int {
    align_of_ref(s, f.type_data.kind, f.type_data.index as int)
}

/// The natural-alignment walk from byte `cur`, starting at field `j`: each
/// offset is rounded up to the field's alignment, and the inserted gap is
/// the field's padding. Refused when an offset would not fit the machine.
pub open spec fn aligned_fields(s: SchemaV, fields: Seq<FieldV>, j: int, cur: int) -> Option<Seq<FieldV>>
    decreases fields.len() - j,
{
    if j < 0 || j >= fields.len() {
        Some(Seq::empty())
    } else {
        let a = ext_align(s, fields[j]);
        let sz = ext_size(s, fields[j]);
        let off = align_up(cur, a);
        if off + sz > usize::MAX {
            None
        } else {
            match aligned_fields(s, fields, j + 1, off + sz) {
                None => None,
                Some(rest) => Some(
                    seq![FieldV { offset: off as usize, padding_size: (off - cur) as usize, ..fields[j] }]
                        + rest,
                ),
            }
        }
    }
}

/// The natural-alignment pass, one struct at a time in declaration order:
/// each struct is walked against the schema as it stands, so a field whose
/// type is an already-aligned earlier struct advances by that struct's
/// padded size. The finished schema is marked not packed.
pub open spec fn align_fold(s: SchemaV, i: int) -> Option<SchemaV>
    decreases s.types.len() - i,
{
    if i < 0 || i >= s.types.len() {
        Some(SchemaV { is_packed: false, ..s })
    } else {
        match aligned_fields(s, s.types[i].fields, 0, 0) {
            None => None,
            Some(fs) => align_fold(
                SchemaV {
                    types: s.types.update(i, DataTypeV { fields: fs, ..s.types[i] }),
                    ..s
                },
                i + 1,
            ),
        }
    }
}

/// The natural-alignment pass on the whole schema.
pub open spec fn spec_align_pass(s: SchemaV) -> Option<SchemaV> {
    align_fold(s, 0)
}

/// The whole layout engine: the packing pass if asked for, then the
/// alignment pass if asked for.
pub open spec fn spec_optimize(s: SchemaV, opts: SchemaOptimizations) -> Option<SchemaV> {
    let s1 = if opts.data_type_layout { spec_pack(s) } else { s };
    if opts.add_padding { spec_align_pass(s1) } else { Some(s1) }
}

// ---------------------------------------------------------------------------
// What the stable sort does
// ---------------------------------------------------------------------------

/// Stable insertion: one longer, and the byte sums grow by the inserted
/// field's contribution.
pub proof fn lemma_insert_len_sums(sorted: Seq<FieldV>, f: FieldV, i: int)
    ensures
        insert_by_size(sorted, f).len() == sorted.len() + 1,
        sum_nonself(insert_by_size(sorted, f), i) == sum_nonself(sorted, i)
            + if is_self_field(f, i) { 0int } else { f.type_data.size as int },
        count_self(insert_by_size(sorted, f), i) == count_self(sorted, i)
            + if is_self_field(f, i) { 1int } else { 0int },
    decreases sorted.len(),
{
    let r = insert_by_size(sorted, f);
    if sorted.len() == 0 {
        assert(r == seq![f]);
        assert(r.drop_last() =~= Seq::<FieldV>::empty());
        assert(r.last() == f);
        assert(sum_nonself(r, i) == sum_nonself(r.drop_last(), i)
            + if is_self_field(r.last(), i) { 0int } else { r.last().type_data.size as int });
        assert(count_self(r, i) == count_self(r.drop_last(), i)
            + if is_self_field(r.last(), i) { 1int } else { 0int });
    } else if sorted.last().type_data.size <= f.type_data.size {
        assert(r == sorted.push(f));
        assert(r.drop_last() =~= sorted);
        assert(r.last() == f);
    } else {
        lemma_insert_len_sums(sorted.drop_last(), f, i);
        let inner = insert_by_size(sorted.drop_last(), f);
        assert(r == inner.push(sorted.last()));
        assert(r.drop_last() =~= inner);
        assert(r.last() == sorted.last());
        assert(sum_nonself(sorted, i) == sum_nonself(sorted.drop_last(), i)
            + if is_self_field(sorted.last(), i) { 0int } else { sorted.last().type_data.size as int });
        assert(count_self(sorted, i) == count_self(sorted.drop_last(), i)
            + if is_self_field(sorted.last(), i) { 1int } else { 0int });
    }
}

/// The position stable insertion puts the new field at: after every field
/// of equal or smaller size, before every strictly larger one.
pub open spec fn split_point(sorted: Seq<FieldV>, f: FieldV) -> int
    decreases sorted.len(),
{
    if sorted.len() == 0 {
        0
    } else if sorted.last().type_data.size <= f.type_data.size {
        sorted.len() as int
    } else {
        split_point(sorted.drop_last(), f)
    }
}

/// Stable insertion splits the sequence at the split point.
pub proof fn lemma_insert_split(sorted: Seq<FieldV>, f: FieldV)
    ensures
        0 <= split_point(sorted, f) <= sorted.len(),
        insert_by_size(sorted, f) =~= sorted.take(split_point(sorted, f))
            + seq![f] + sorted.skip(split_point(sorted, f)),
        forall|m: int| split_point(sorted, f) <= m < sorted.len()
            ==> (#[trigger] sorted[m]).type_data.size > f.type_data.size,
        split_point(sorted, f) > 0
            ==> sorted[split_point(sorted, f) - 1].type_data.size <= f.type_data.size,
    decreases sorted.len(),
{
    let p = split_point(sorted, f);
    if sorted.len() == 0 {
        assert(insert_by_size(sorted, f) =~= sorted.take(0) + seq![f] + sorted.skip(0));
    } else if sorted.last().type_data.size <= f.type_data.size {
        assert(insert_by_size(sorted, f) == sorted.push(f));
        assert(sorted.push(f) =~= sorted.take(p) + seq![f] + sorted.skip(p));
    } else {
        lemma_insert_split(sorted.drop_last(), f);
        let dl = sorted.drop_last();
        assert(insert_by_size(sorted, f) == insert_by_size(dl, f).push(sorted.last()));
        assert(insert_by_size(dl, f) =~= dl.take(p) + seq![f] + dl.skip(p));
        assert((dl.take(p) + seq![f] + dl.skip(p)).push(sorted.last())
            =~= sorted.take(p) + seq![f] + sorted.skip(p));
        assert forall|m: int| p <= m < sorted.len()
            implies (#[trigger] sorted[m]).type_data.size > f.type_data.size by {
            if m < sorted.len() - 1 {
                assert(dl[m] == sorted[m]);
            }
        }
        if p > 0 {
            assert(dl[p - 1] == sorted[p - 1]);
        }
    }
}

/// Stable insertion into a sorted sequence stays sorted.
pub proof fn lemma_insert_sorted(sorted: Seq<FieldV>, f: FieldV)
    requires
        sorted_by_size(sorted),
    ensures
        sorted_by_size(insert_by_size(sorted, f)),
{
    lemma_insert_split(sorted, f);
    let p = split_point(sorted, f);
    let r = insert_by_size(sorted, f);
    assert forall|j1: int, j2: int| 0 <= j1 <= j2 < r.len()
        implies (#[trigger] r[j1]).type_data.size <= (#[trigger] r[j2]).type_data.size by {
        let v1 = if j1 < p { sorted[j1] } else if j1 == p { f } else { sorted[j1 - 1] };
        let v2 = if j2 < p { sorted[j2] } else if j2 == p { f } else { sorted[j2 - 1] };
        assert(r[j1] == v1);
        assert(r[j2] == v2);
        if j1 < p && j2 == p {
            assert(sorted[j1].type_data.size <= sorted[p - 1].type_data.size);
        }
        if j1 == p && j2 > p {
            assert(sorted[j2 - 1].type_data.size > f.type_data.size);
        }
    }
}

/// Stable insertion adds exactly the inserted field to the bag of fields.
pub proof fn lemma_insert_multiset(sorted: Seq<FieldV>, f: FieldV)
    ensures
        insert_by_size(sorted, f).to_multiset() =~= sorted.to_multiset().insert(f),
    decreases sorted.len(),
{
    broadcast use vstd::seq_lib::group_to_multiset_ensures;

    if sorted.len() == 0 {
        assert(insert_by_size(sorted, f) =~= Seq::<FieldV>::empty().push(f));
        assert(Seq::<FieldV>::empty().push(f).to_multiset()
            =~= Seq::<FieldV>::empty().to_multiset().insert(f));
    } else if sorted.last().type_data.size <= f.type_data.size {
    } else {
        let dl = sorted.drop_last();
        lemma_insert_multiset(dl, f);
        assert(insert_by_size(sorted, f) == insert_by_size(dl, f).push(sorted.last()));
        assert(insert_by_size(dl, f).push(sorted.last()).to_multiset()
            =~= insert_by_size(dl, f).to_multiset().insert(sorted.last()));
        assert(dl.push(sorted.last()) =~= sorted);
        assert(dl.push(sorted.last()).to_multiset() =~= dl.to_multiset().insert(sorted.last()));
    }
}

/// The stable sort keeps exactly the same bag of fields.
pub proof fn lemma_sort_multiset(fields: Seq<FieldV>)
    ensures
        sort_by_size(fields).to_multiset() =~= fields.to_multiset(),
    decreases fields.len(),
{
    broadcast use vstd::seq_lib::group_to_multiset_ensures;

    if fields.len() > 0 {
        let dl = fields.drop_last();
        lemma_sort_multiset(dl);
        lemma_insert_multiset(sort_by_size(dl), fields.last());
        assert(dl.push(fields.last()) =~= fields);
        assert(dl.push(fields.last()).to_multiset() =~= dl.to_multiset().insert(fields.last()));
    }
}

/// The stable sort: same length and the same byte sums.
pub proof fn lemma_sort_len_sums(fields: Seq<FieldV>, i: int)
    ensures
        sort_by_size(fields).len() == fields.len(),
        sum_nonself(sort_by_size(fields), i) == sum_nonself(fields, i),
        count_self(sort_by_size(fields), i) == count_self(fields, i),
    decreases fields.len(),
{
    if fields.len() > 0 {
        lemma_sort_len_sums(fields.drop_last(), i);
        lemma_insert_len_sums(sort_by_size(fields.drop_last()), fields.last(), i);
    }
}

/// The stable sort: the same fields, each way.
pub proof fn lemma_sort_origin(fields: Seq<FieldV>)
    ensures
        sort_by_size(fields).len() == fields.len(),
        forall|j: int| 0 <= j < fields.len()
            ==> exists|m: int| 0 <= m < fields.len()
                && fields[m] == #[trigger] sort_by_size(fields)[j],
        forall|m: int| 0 <= m < fields.len()
            ==> exists|j: int| 0 <= j < fields.len()
                && sort_by_size(fields)[j] == #[trigger] fields[m],
{
    broadcast use vstd::seq_lib::group_to_multiset_ensures;

    lemma_sort_multiset(fields);
    lemma_sort_len_sums(fields, 0);
    let r = sort_by_size(fields);
    assert forall|j: int| 0 <= j < fields.len()
        implies exists|m: int| 0 <= m < fields.len() && fields[m] == #[trigger] r[j] by {
        assert(r.contains(r[j]));
        assert(r.to_multiset().count(r[j]) > 0);
        assert(fields.to_multiset().count(r[j]) > 0);
        assert(fields.contains(r[j]));
        let m = choose|m: int| 0 <= m < fields.len() && fields[m] == r[j];
        assert(fields[m] == r[j]);
    }
    assert forall|m: int| 0 <= m < fields.len()
        implies exists|j: int| 0 <= j < fields.len() && r[j] == #[trigger] fields[m] by {
        assert(fields.contains(fields[m]));
        assert(fields.to_multiset().count(fields[m]) > 0);
        assert(r.to_multiset().count(fields[m]) > 0);
        assert(r.contains(fields[m]));
        let j = choose|j: int| 0 <= j < r.len() && r[j] == fields[m];
        assert(r[j] == fields[m]);
    }
}

/// The stable sort sorts.
pub proof fn lemma_sort_sorted(fields: Seq<FieldV>)
    ensures
        sorted_by_size(sort_by_size(fields)),
    decreases fields.len(),
{
    if fields.len() > 0 {
        lemma_sort_sorted(fields.drop_last());
        lemma_insert_sorted(sort_by_size(fields.drop_last()), fields.last());
    }
}

/// Sorting a sequence that is already sorted by size changes nothing.
pub proof fn lemma_sort_of_sorted(fields: Seq<FieldV>)
    requires
        sorted_by_size(fields),
    ensures
        sort_by_size(fields) == fields,
    decreases fields.len(),
{
    if fields.len() > 0 {
        assert(sorted_by_size(fields.drop_last())) by {
            assert forall|j1: int, j2: int| 0 <= j1 <= j2 < fields.drop_last().len()
                implies (#[trigger] fields.drop_last()[j1]).type_data.size
                    <= (#[trigger] fields.drop_last()[j2]).type_data.size by {
                assert(fields.drop_last()[j1] == fields[j1]);
                assert(fields.drop_last()[j2] == fields[j2]);
            }
        }
        lemma_sort_of_sorted(fields.drop_last());
        if fields.len() == 1 {
            assert(sort_by_size(fields) =~= fields);
        } else {
            assert(fields.drop_last().last().type_data.size <= fields.last().type_data.size) by {
                assert(fields.drop_last().last() == fields[fields.len() - 2]);
                assert(fields[fields.len() - 2].type_data.size
                    <= fields[fields.len() - 1].type_data.size);
            }
            assert(insert_by_size(fields.drop_last(), fields.last())
                == fields.drop_last().push(fields.last()));
            assert(fields.drop_last().push(fields.last()) =~= fields);
        }
    }
}

// ---------------------------------------------------------------------------
// Relayouts keep the schema well-formed
// ---------------------------------------------------------------------------

/// Two field sequences that carry the same references in the same order;
/// everything else about the fields is left open, which is all the layout
/// passes need.
pub open spec fn fields_same_tds(af: Seq<FieldV>, bf: Seq<FieldV>) -> bool {
    bf.len() == af.len()
        && forall|j: int| 0 <= j < af.len()
            ==> (#[trigger] bf[j]).type_data == af[j].type_data
}

/// Two schemas that differ only in how struct fields are laid out, not in
/// what they refer to.
pub open spec fn schema_same_tds(a: SchemaV, b: SchemaV) -> bool {
    &&& b.enums == a.enums
    &&& b.unions == a.unions
    &&& b.arrays == a.arrays
    &&& b.vectors == a.vectors
    &&& b.pointers == a.pointers
    &&& b.functions == a.functions
    &&& b.types.len() == a.types.len()
    &&& forall|i: int| 0 <= i < a.types.len()
        ==> fields_same_tds(a.types[i].fields, (#[trigger] b.types[i]).fields)
}

proof fn lemma_sums_same_tds(af: Seq<FieldV>, bf: Seq<FieldV>, i: int)
    requires
        fields_same_tds(af, bf),
    ensures
        sum_nonself(bf, i) == sum_nonself(af, i),
        count_self(bf, i) == count_self(af, i),
        all_fields_copy(bf) == all_fields_copy(af),
    decreases af.len(),
{
    if af.len() > 0 {
        assert(fields_same_tds(af.drop_last(), bf.drop_last())) by {
            assert forall|j: int| 0 <= j < af.drop_last().len()
                implies (#[trigger] bf.drop_last()[j]).type_data
                    == af.drop_last()[j].type_data by {
                assert(bf.drop_last()[j] == bf[j]);
                assert(af.drop_last()[j] == af[j]);
            }
        }
        lemma_sums_same_tds(af.drop_last(), bf.drop_last(), i);
        assert(bf.last().type_data == af.last().type_data) by {
            assert(bf[af.len() - 1].type_data == af[af.len() - 1].type_data);
        }
        assert(is_self_field(bf.last(), i) == is_self_field(af.last(), i));
        if all_fields_copy(af) {
            assert forall|j: int| 0 <= j < bf.len()
                implies (#[trigger] bf[j]).type_data.is_copy by {
                assert(af[j].type_data.is_copy);
            }
        }
        if all_fields_copy(bf) {
            assert forall|j: int| 0 <= j < af.len()
                implies (#[trigger] af[j]).type_data.is_copy by {
                assert(bf[j].type_data.is_copy);
            }
        }
    } else {
        if all_fields_copy(af) {
            assert(all_fields_copy(bf));
        }
        if all_fields_copy(bf) {
            assert(all_fields_copy(af));
        }
    }
}

proof fn lemma_size_same_tds(a: SchemaV, b: SchemaV, kind: Type, i: int)
    requires
        schema_same_tds(a, b),
    ensures
        crate::schema::valid_ref(b, kind, i) == crate::schema::valid_ref(a, kind, i),
        crate::schema::valid_ref(a, kind, i) ==> size_of_ref(b, kind, i) == size_of_ref(a, kind, i),
        crate::schema::valid_ref(a, kind, i)
            ==> crate::schema::copy_of_ref(b, kind, i) == crate::schema::copy_of_ref(a, kind, i),
{
    match kind {
        Type::Data => {
            if 0 <= i < a.types.len() {
                lemma_sums_same_tds(a.types[i].fields, b.types[i].fields, i);
            }
        },
        _ => {},
    }
}

proof fn lemma_depth_same_tds(a: SchemaV, b: SchemaV, kind: Type, i: int, fuel: nat)
    requires
        schema_same_tds(a, b),
        depth_ok(a, kind, i, fuel),
    ensures
        depth_ok(b, kind, i, fuel),
    decreases fuel,
{
    match kind {
        Type::Primitive | Type::Enum | Type::String => {},
        Type::Data => {
            let af = a.types[i].fields;
            let bf = b.types[i].fields;
            assert forall|j: int| 0 <= j < bf.len()
                implies inner_depth_ok(b, (#[trigger] bf[j]).type_data, (fuel - 1) as nat) by {
                assert(bf[j].type_data == af[j].type_data);
                assert(inner_depth_ok(a, af[j].type_data, (fuel - 1) as nat));
                if !stub_like(af[j].type_data) {
                    lemma_depth_same_tds(a, b, af[j].type_data.kind,
                        af[j].type_data.index as int, (fuel - 1) as nat);
                }
            }
        },
        Type::Union => {
            let tds = a.unions[i].possible_types;
            assert(b.unions[i] == a.unions[i]);
            assert forall|j: int| 0 <= j < tds.len()
                implies inner_depth_ok(b, #[trigger] tds[j], (fuel - 1) as nat) by {
                assert(inner_depth_ok(a, tds[j], (fuel - 1) as nat));
                if !stub_like(tds[j]) {
                    lemma_depth_same_tds(a, b, tds[j].kind, tds[j].index as int, (fuel - 1) as nat);
                }
            }
        },
        Type::Array => {
            let td = a.arrays[i].inner;
            if !stub_like(td) {
                lemma_depth_same_tds(a, b, td.kind, td.index as int, (fuel - 1) as nat);
            }
        },
        Type::Vector => {
            let td = a.vectors[i].inner;
            if !stub_like(td) {
                lemma_depth_same_tds(a, b, td.kind, td.index as int, (fuel - 1) as nat);
            }
        },
        Type::Pointer => {
            let td = a.pointers[i].inner;
            if !stub_like(td) {
                lemma_depth_same_tds(a, b, td.kind, td.index as int, (fuel - 1) as nat);
            }
        },
        Type::Function => {
            let f = a.functions[i];
            assert(b.functions[i] == a.functions[i]);
            assert forall|j: int| 0 <= j < f.args.len()
                implies match (#[trigger] f.args[j]).type_data {
                    Some(td) => inner_depth_ok(b, td, (fuel - 1) as nat),
                    None => true,
                } by {
                match f.args[j].type_data {
                    Some(td) => {
                        assert(inner_depth_ok(a, td, (fuel - 1) as nat));
                        if !stub_like(td) {
                            lemma_depth_same_tds(a, b, td.kind, td.index as int, (fuel - 1) as nat);
                        }
                    },
                    None => {},
                }
            }
            match f.return_type {
                Some(td) => {
                    if !stub_like(td) {
                        lemma_depth_same_tds(a, b, td.kind, td.index as int, (fuel - 1) as nat);
                    }
                },
                None => {},
            }
        },
    }
}

proof fn lemma_align_same_tds(a: SchemaV, b: SchemaV, kind: Type, i: int, fuel: nat)
    requires
        schema_same_tds(a, b),
        wf_schema(a),
        crate::schema::valid_ref(a, kind, i),
    ensures
        crate::schema::align_of_ref_fueled(b, kind, i, fuel)
            == crate::schema::align_of_ref_fueled(a, kind, i, fuel),
    decreases fuel, 0nat,
{
    if fuel != 0 {
        match kind {
            Type::Data => {
                assert forall|j: int| 0 <= j < a.types[i].fields.len()
                    implies stub_like((#[trigger] a.types[i].fields[j]).type_data)
                        || valid_td(a, a.types[i].fields[j].type_data) by {
                    if is_self_field(a.types[i].fields[j], i) {
                    }
                }
                lemma_fields_align_same_tds(a, b, a.types[i].fields, b.types[i].fields,
                    (fuel - 1) as nat);
            },
            Type::Union => {
                assert forall|j: int| 0 <= j < a.unions[i].possible_types.len()
                    implies stub_like(#[trigger] a.unions[i].possible_types[j])
                        || valid_td(a, a.unions[i].possible_types[j]) by {}
                lemma_tds_align_same_tds(a, b, a.unions[i].possible_types, (fuel - 1) as nat);
            },
            Type::Array => {
                let td = a.arrays[i].inner;
                if !stub_like(td) {
                    assert(crate::schema::inner_ok(a, td));
                    lemma_align_same_tds(a, b, td.kind, td.index as int, (fuel - 1) as nat);
                }
            },
            _ => {},
        }
    }
}

proof fn lemma_fields_align_same_tds(a: SchemaV, b: SchemaV, af: Seq<FieldV>, bf: Seq<FieldV>, fuel: nat)
    requires
        schema_same_tds(a, b),
        wf_schema(a),
        fields_same_tds(af, bf),
        forall|j: int| 0 <= j < af.len()
            ==> stub_like((#[trigger] af[j]).type_data) || valid_td(a, af[j].type_data),
    ensures
        crate::schema::fields_align_max(b, bf, fuel)
            == crate::schema::fields_align_max(a, af, fuel),
    decreases fuel, 1nat, af.len(),
{
    if af.len() > 0 {
        assert(fields_same_tds(af.drop_last(), bf.drop_last())) by {
            assert forall|j: int| 0 <= j < af.drop_last().len()
                implies (#[trigger] bf.drop_last()[j]).type_data
                    == af.drop_last()[j].type_data by {
                assert(bf.drop_last()[j] == bf[j]);
                assert(af.drop_last()[j] == af[j]);
            }
        }
        assert forall|j: int| 0 <= j < af.drop_last().len()
            implies stub_like((#[trigger] af.drop_last()[j]).type_data)
                || valid_td(a, af.drop_last()[j].type_data) by {
            assert(af.drop_last()[j] == af[j]);
        }
        lemma_fields_align_same_tds(a, b, af.drop_last(), bf.drop_last(), fuel);
        assert(bf.last().type_data == af.last().type_data) by {
            assert(bf[af.len() - 1].type_data == af[af.len() - 1].type_data);
        }
        let td = af.last().type_data;
        assert(af.last() == af[af.len() - 1]);
        if !stub_like(td) {
            lemma_align_same_tds(a, b, td.kind, td.index as int, fuel);
        }
    }
}

proof fn lemma_tds_align_same_tds(a: SchemaV, b: SchemaV, tds: Seq<TypeData>, fuel: nat)
    requires
        schema_same_tds(a, b),
        wf_schema(a),
        forall|j: int| 0 <= j < tds.len()
            ==> stub_like(#[trigger] tds[j]) || valid_td(a, tds[j]),
    ensures
        crate::schema::tds_align_max(b, tds, fuel) == crate::schema::tds_align_max(a, tds, fuel),
    decreases fuel, 1nat, tds.len(),
{
    if tds.len() > 0 {
        assert forall|j: int| 0 <= j < tds.drop_last().len()
            implies stub_like(#[trigger] tds.drop_last()[j])
                || valid_td(a, tds.drop_last()[j]) by {
            assert(tds.drop_last()[j] == tds[j]);
        }
        lemma_tds_align_same_tds(a, b, tds.drop_last(), fuel);
        let td = tds.last();
        assert(tds.last() == tds[tds.len() - 1]);
        if !stub_like(td) {
            lemma_align_same_tds(a, b, td.kind, td.index as int, fuel);
        }
    }
}

/// A relayout that keeps every reference in place keeps the schema
/// well-formed, and changes no size, copyability or alignment.
pub proof fn lemma_wf_same_tds(a: SchemaV, b: SchemaV)
    requires
        wf_schema(a),
        schema_same_tds(a, b),
    ensures
        wf_schema(b),
        forall|kind: Type, i: int| crate::schema::valid_ref(a, kind, i)
            ==> #[trigger] size_of_ref(b, kind, i) == size_of_ref(a, kind, i),
        forall|kind: Type, i: int| crate::schema::valid_ref(a, kind, i)
            ==> #[trigger] align_of_ref(b, kind, i) == align_of_ref(a, kind, i),
        forall|kind: Type, i: int| crate::schema::valid_ref(a, kind, i)
            ==> #[trigger] crate::schema::copy_of_ref(b, kind, i)
                == crate::schema::copy_of_ref(a, kind, i),
        forall|kind: Type, i: int| #[trigger] crate::schema::valid_ref(b, kind, i)
            == crate::schema::valid_ref(a, kind, i),
{
    assert forall|kind: Type, i: int| crate::schema::valid_ref(a, kind, i)
        implies #[trigger] size_of_ref(b, kind, i) == size_of_ref(a, kind, i) by {
        lemma_size_same_tds(a, b, kind, i);
    }
    assert forall|kind: Type, i: int| crate::schema::valid_ref(a, kind, i)
        implies #[trigger] crate::schema::copy_of_ref(b, kind, i)
            == crate::schema::copy_of_ref(a, kind, i) by {
        lemma_size_same_tds(a, b, kind, i);
    }
    assert forall|kind: Type, i: int| #[trigger] crate::schema::valid_ref(b, kind, i)
        == crate::schema::valid_ref(a, kind, i) by {
        lemma_size_same_tds(a, b, kind, i);
    }
    assert(ref_budget(b) == ref_budget(a));
    assert forall|kind: Type, i: int| crate::schema::valid_ref(a, kind, i)
        implies #[trigger] align_of_ref(b, kind, i) == align_of_ref(a, kind, i) by {
        lemma_align_same_tds(a, b, kind, i, ref_budget(a));
    }
    assert forall|td: TypeData| #[trigger] valid_td(a, td) implies valid_td(b, td) by {
        lemma_size_same_tds(a, b, td.kind, td.index as int);
    }
    assert forall|i: int, j: int| 0 <= i < b.types.len() && 0 <= j < b.types[i].fields.len()
        implies valid_td(b, #[trigger] b.types[i].fields[j].type_data)
            || is_self_field(b.types[i].fields[j], i) by {
        assert(b.types[i].fields[j].type_data == a.types[i].fields[j].type_data);
        if !is_self_field(a.types[i].fields[j], i) {
            assert(valid_td(a, a.types[i].fields[j].type_data));
            lemma_size_same_tds(a, b, a.types[i].fields[j].type_data.kind,
                a.types[i].fields[j].type_data.index as int);
        }
    }
    assert forall|i: int| 0 <= i < b.unions.len()
        implies (#[trigger] b.unions[i].possible_types).len() >= 1
            && forall|j: int| 0 <= j < b.unions[i].possible_types.len()
                ==> valid_td(b, #[trigger] b.unions[i].possible_types[j])
                    || (stub_like(b.unions[i].possible_types[j])
                        && b.unions[i].possible_types[j].kind == Type::Union
                        && b.unions[i].possible_types[j].index == i) by {
        assert(b.unions[i] == a.unions[i]);
        assert forall|j: int| 0 <= j < b.unions[i].possible_types.len()
            implies valid_td(b, #[trigger] b.unions[i].possible_types[j])
                || (stub_like(b.unions[i].possible_types[j])
                    && b.unions[i].possible_types[j].kind == Type::Union
                    && b.unions[i].possible_types[j].index == i) by {
            let td = b.unions[i].possible_types[j];
            if valid_td(a, td) {
                lemma_size_same_tds(a, b, td.kind, td.index as int);
            }
        }
    }
    assert forall|i: int| 0 <= i < b.arrays.len()
        implies crate::schema::inner_ok(b, (#[trigger] b.arrays[i]).inner) by {
        let td = a.arrays[i].inner;
        if valid_td(a, td) {
            lemma_size_same_tds(a, b, td.kind, td.index as int);
        }
    }
    assert forall|i: int| 0 <= i < b.vectors.len()
        implies crate::schema::inner_ok(b, (#[trigger] b.vectors[i]).inner) by {
        let td = a.vectors[i].inner;
        if valid_td(a, td) {
            lemma_size_same_tds(a, b, td.kind, td.index as int);
        }
    }
    assert forall|i: int| 0 <= i < b.pointers.len()
        implies crate::schema::inner_ok(b, (#[trigger] b.pointers[i]).inner) by {
        let td = a.pointers[i].inner;
        if valid_td(a, td) {
            lemma_size_same_tds(a, b, td.kind, td.index as int);
        }
    }
    assert forall|i: int| 0 <= i < b.functions.len() implies {
        &&& forall|j: int| 0 <= j < (#[trigger] b.functions[i]).args.len()
            ==> match #[trigger] b.functions[i].args[j].type_data {
                Some(td) => valid_td(b, td)
                    || (stub_like(td) && td.kind == Type::Function && td.index == i),
                None => true,
            }
        &&& match b.functions[i].return_type {
            Some(td) => valid_td(b, td)
                || (stub_like(td) && td.kind == Type::Function && td.index == i),
            None => true,
        }
    } by {
        assert(b.functions[i] == a.functions[i]);
        assert forall|j: int| 0 <= j < b.functions[i].args.len()
            implies match #[trigger] b.functions[i].args[j].type_data {
                Some(td) => valid_td(b, td)
                    || (stub_like(td) && td.kind == Type::Function && td.index == i),
                None => true,
            } by {
            match b.functions[i].args[j].type_data {
                Some(td) => {
                    if valid_td(a, td) {
                        lemma_size_same_tds(a, b, td.kind, td.index as int);
                    }
                },
                None => {},
            }
        }
        match b.functions[i].return_type {
            Some(td) => {
                if valid_td(a, td) {
                    lemma_size_same_tds(a, b, td.kind, td.index as int);
                }
            },
            None => {},
        }
    }
    assert forall|i: int| 0 <= i < b.types.len()
        implies 0 <= #[trigger] data_size(b, i) <= usize::MAX by {
        lemma_size_same_tds(a, b, Type::Data, i);
    }
    assert forall|i: int| 0 <= i < b.types.len()
        implies #[trigger] depth_ok(b, Type::Data, i, ref_budget(b)) by {
        lemma_depth_same_tds(a, b, Type::Data, i, ref_budget(a));
    }
    assert forall|i: int| 0 <= i < b.unions.len()
        implies #[trigger] depth_ok(b, Type::Union, i, ref_budget(b)) by {
        lemma_depth_same_tds(a, b, Type::Union, i, ref_budget(a));
    }
    assert forall|i: int| 0 <= i < b.arrays.len()
        implies #[trigger] depth_ok(b, Type::Array, i, ref_budget(b)) by {
        lemma_depth_same_tds(a, b, Type::Array, i, ref_budget(a));
    }
    assert forall|i: int| 0 <= i < b.vectors.len()
        implies #[trigger] depth_ok(b, Type::Vector, i, ref_budget(b)) by {
        lemma_depth_same_tds(a, b, Type::Vector, i, ref_budget(a));
    }
    assert forall|i: int| 0 <= i < b.pointers.len()
        implies #[trigger] depth_ok(b, Type::Pointer, i, ref_budget(b)) by {
        lemma_depth_same_tds(a, b, Type::Pointer, i, ref_budget(a));
    }
    assert forall|i: int| 0 <= i < b.functions.len()
        implies #[trigger] depth_ok(b, Type::Function, i, ref_budget(b)) by {
        lemma_depth_same_tds(a, b, Type::Function, i, ref_budget(a));
    }
}

/// Two field sequences holding the same fields, the second a reordering of
/// the first.
pub open spec fn fields_rearranged(af: Seq<FieldV>, bf: Seq<FieldV>, i: int) -> bool {
    &&& bf.len() == af.len()
    &&& sum_nonself(bf, i) == sum_nonself(af, i)
    &&& count_self(bf, i) == count_self(af, i)
    &&& forall|j: int| 0 <= j < bf.len()
        ==> exists|m: int| 0 <= m < af.len() && af[m] == #[trigger] bf[j]
    &&& forall|m: int| 0 <= m < af.len()
        ==> exists|j: int| 0 <= j < bf.len() && bf[j] == #[trigger] af[m]
}

/// Two schemas whose structs hold the same fields, possibly reordered.
pub open spec fn schema_rearranged(a: SchemaV, b: SchemaV) -> bool {
    &&& b.enums == a.enums
    &&& b.unions == a.unions
    &&& b.arrays == a.arrays
    &&& b.vectors == a.vectors
    &&& b.pointers == a.pointers
    &&& b.functions == a.functions
    &&& b.types.len() == a.types.len()
    &&& forall|i: int| 0 <= i < a.types.len()
        ==> fields_rearranged(a.types[i].fields, (#[trigger] b.types[i]).fields, i)
}

proof fn lemma_copy_rearranged(af: Seq<FieldV>, bf: Seq<FieldV>, i: int)
    requires
        fields_rearranged(af, bf, i),
    ensures
        all_fields_copy(bf) == all_fields_copy(af),
{
    if all_fields_copy(af) {
        assert forall|j: int| 0 <= j < bf.len()
            implies (#[trigger] bf[j]).type_data.is_copy by {
            let m = choose|m: int| 0 <= m < af.len() && af[m] == bf[j];
            assert(af[m].type_data.is_copy);
        }
    }
    if all_fields_copy(bf) {
        assert forall|m: int| 0 <= m < af.len()
            implies (#[trigger] af[m]).type_data.is_copy by {
            let j = choose|j: int| 0 <= j < bf.len() && bf[j] == af[m];
            assert(bf[j].type_data.is_copy);
        }
    }
}

proof fn lemma_size_rearranged(a: SchemaV, b: SchemaV, kind: Type, i: int)
    requires
        schema_rearranged(a, b),
    ensures
        crate::schema::valid_ref(b, kind, i) == crate::schema::valid_ref(a, kind, i),
        crate::schema::valid_ref(a, kind, i) ==> size_of_ref(b, kind, i) == size_of_ref(a, kind, i),
        crate::schema::valid_ref(a, kind, i)
            ==> crate::schema::copy_of_ref(b, kind, i) == crate::schema::copy_of_ref(a, kind, i),
{
    match kind {
        Type::Data => {
            if 0 <= i < a.types.len() {
                lemma_copy_rearranged(a.types[i].fields, b.types[i].fields, i);
            }
        },
        _ => {},
    }
}

proof fn lemma_depth_rearranged(a: SchemaV, b: SchemaV, kind: Type, i: int, fuel: nat)
    requires
        schema_rearranged(a, b),
        depth_ok(a, kind, i, fuel),
    ensures
        depth_ok(b, kind, i, fuel),
    decreases fuel,
{
    match kind {
        Type::Primitive | Type::Enum | Type::String => {},
        Type::Data => {
            let af = a.types[i].fields;
            let bf = b.types[i].fields;
            assert forall|j: int| 0 <= j < bf.len()
                implies inner_depth_ok(b, (#[trigger] bf[j]).type_data, (fuel - 1) as nat) by {
                let m = choose|m: int| 0 <= m < af.len() && af[m] == bf[j];
                assert(inner_depth_ok(a, af[m].type_data, (fuel - 1) as nat));
                if !stub_like(af[m].type_data) {
                    lemma_depth_rearranged(a, b, af[m].type_data.kind,
                        af[m].type_data.index as int, (fuel - 1) as nat);
                }
            }
        },
        Type::Union => {
            let tds = a.unions[i].possible_types;
            assert(b.unions[i] == a.unions[i]);
            assert forall|j: int| 0 <= j < tds.len()
                implies inner_depth_ok(b, #[trigger] tds[j], (fuel - 1) as nat) by {
                assert(inner_depth_ok(a, tds[j], (fuel - 1) as nat));
                if !stub_like(tds[j]) {
                    lemma_depth_rearranged(a, b, tds[j].kind, tds[j].index as int,
                        (fuel - 1) as nat);
                }
            }
        },
        Type::Array => {
            let td = a.arrays[i].inner;
            if !stub_like(td) {
                lemma_depth_rearranged(a, b, td.kind, td.index as int, (fuel - 1) as nat);
            }
        },
        Type::Vector => {
            let td = a.vectors[i].inner;
            if !stub_like(td) {
                lemma_depth_rearranged(a, b, td.kind, td.index as int, (fuel - 1) as nat);
            }
        },
        Type::Pointer => {
            let td = a.pointers[i].inner;
            if !stub_like(td) {
                lemma_depth_rearranged(a, b, td.kind, td.index as int, (fuel - 1) as nat);
            }
        },
        Type::Function => {
            let f = a.functions[i];
            assert(b.functions[i] == a.functions[i]);
            assert forall|j: int| 0 <= j < f.args.len()
                implies match (#[trigger] f.args[j]).type_data {
                    Some(td) => inner_depth_ok(b, td, (fuel - 1) as nat),
                    None => true,
                } by {
                match f.args[j].type_data {
                    Some(td) => {
                        assert(inner_depth_ok(a, td, (fuel - 1) as nat));
                        if !stub_like(td) {
                            lemma_depth_rearranged(a, b, td.kind, td.index as int,
                                (fuel - 1) as nat);
                        }
                    },
                    None => {},
                }
            }
            match f.return_type {
                Some(td) => {
                    if !stub_like(td) {
                        lemma_depth_rearranged(a, b, td.kind, td.index as int, (fuel - 1) as nat);
                    }
                },
                None => {},
            }
        },
    }
}

/// Reordering struct fields keeps the schema well-formed.
#[verifier::rlimit(100)]
pub proof fn lemma_wf_rearranged(a: SchemaV, b: SchemaV)
    requires
        wf_schema(a),
        schema_rearranged(a, b),
    ensures
        wf_schema(b),
{
    assert forall|i: int, j: int| 0 <= i < b.types.len() && 0 <= j < b.types[i].fields.len()
        implies valid_td(b, #[trigger] b.types[i].fields[j].type_data)
            || is_self_field(b.types[i].fields[j], i) by {
        let af = a.types[i].fields;
        let m = choose|m: int| 0 <= m < af.len() && af[m] == b.types[i].fields[j];
        if !is_self_field(af[m], i) {
            assert(valid_td(a, af[m].type_data));
            lemma_size_rearranged(a, b, af[m].type_data.kind, af[m].type_data.index as int);
        }
    }
    assert forall|i: int| 0 <= i < b.unions.len()
        implies (#[trigger] b.unions[i].possible_types).len() >= 1
            && forall|j: int| 0 <= j < b.unions[i].possible_types.len()
                ==> valid_td(b, #[trigger] b.unions[i].possible_types[j])
                    || (stub_like(b.unions[i].possible_types[j])
                        && b.unions[i].possible_types[j].kind == Type::Union
                        && b.unions[i].possible_types[j].index == i) by {
        assert(b.unions[i] == a.unions[i]);
        assert forall|j: int| 0 <= j < b.unions[i].possible_types.len()
            implies valid_td(b, #[trigger] b.unions[i].possible_types[j])
                || (stub_like(b.unions[i].possible_types[j])
                    && b.unions[i].possible_types[j].kind == Type::Union
                    && b.unions[i].possible_types[j].index == i) by {
            let td = b.unions[i].possible_types[j];
            if valid_td(a, td) {
                lemma_size_rearranged(a, b, td.kind, td.index as int);
            }
        }
    }
    assert forall|i: int| 0 <= i < b.arrays.len()
        implies crate::schema::inner_ok(b, (#[trigger] b.arrays[i]).inner) by {
        let td = a.arrays[i].inner;
        if valid_td(a, td) {
            lemma_size_rearranged(a, b, td.kind, td.index as int);
        }
    }
    assert forall|i: int| 0 <= i < b.vectors.len()
        implies crate::schema::inner_ok(b, (#[trigger] b.vectors[i]).inner) by {
        let td = a.vectors[i].inner;
        if valid_td(a, td) {
            lemma_size_rearranged(a, b, td.kind, td.index as int);
        }
    }
    assert forall|i: int| 0 <= i < b.pointers.len()
        implies crate::schema::inner_ok(b, (#[trigger] b.pointers[i]).inner) by {
        let td = a.pointers[i].inner;
        if valid_td(a, td) {
            lemma_size_rearranged(a, b, td.kind, td.index as int);
        }
    }
    assert forall|i: int| 0 <= i < b.functions.len() implies {
        &&& forall|j: int| 0 <= j < (#[trigger] b.functions[i]).args.len()
            ==> match #[trigger] b.functions[i].args[j].type_data {
                Some(td) => valid_td(b, td)
                    || (stub_like(td) && td.kind == Type::Function && td.index == i),
                None => true,
            }
        &&& match b.functions[i].return_type {
            Some(td) => valid_td(b, td)
                || (stub_like(td) && td.kind == Type::Function && td.index == i),
            None => true,
        }
    } by {
        assert(b.functions[i] == a.functions[i]);
        assert forall|j: int| 0 <= j < b.functions[i].args.len()
            implies match #[trigger] b.functions[i].args[j].type_data {
                Some(td) => valid_td(b, td)
                    || (stub_like(td) && td.kind == Type::Function && td.index == i),
                None => true,
            } by {
            match b.functions[i].args[j].type_data {
                Some(td) => {
                    if valid_td(a, td) {
                        lemma_size_rearranged(a, b, td.kind, td.index as int);
                    }
                },
                None => {},
            }
        }
        match b.functions[i].return_type {
            Some(td) => {
                if valid_td(a, td) {
                    lemma_size_rearranged(a, b, td.kind, td.index as int);
                }
            },
            None => {},
        }
    }
    assert forall|i: int| 0 <= i < b.types.len()
        implies 0 <= #[trigger] data_size(b, i) <= usize::MAX by {
        lemma_size_rearranged(a, b, Type::Data, i);
    }
    assert(ref_budget(b) == ref_budget(a));
    assert forall|i: int| 0 <= i < b.types.len()
        implies #[trigger] depth_ok(b, Type::Data, i, ref_budget(b)) by {
        lemma_depth_rearranged(a, b, Type::Data, i, ref_budget(a));
    }
    assert forall|i: int| 0 <= i < b.unions.len()
        implies #[trigger] depth_ok(b, Type::Union, i, ref_budget(b)) by {
        lemma_depth_rearranged(a, b, Type::Union, i, ref_budget(a));
    }
    assert forall|i: int| 0 <= i < b.arrays.len()
        implies #[trigger] depth_ok(b, Type::Array, i, ref_budget(b)) by {
        lemma_depth_rearranged(a, b, Type::Array, i, ref_budget(a));
    }
    assert forall|i: int| 0 <= i < b.vectors.len()
        implies #[trigger] depth_ok(b, Type::Vector, i, ref_budget(b)) by {
        lemma_depth_rearranged(a, b, Type::Vector, i, ref_budget(a));
    }
    assert forall|i: int| 0 <= i < b.pointers.len()
        implies #[trigger] depth_ok(b, Type::Pointer, i, ref_budget(b)) by {
        lemma_depth_rearranged(a, b, Type::Pointer, i, ref_budget(a));
    }
    assert forall|i: int| 0 <= i < b.functions.len()
        implies #[trigger] depth_ok(b, Type::Function, i, ref_budget(b)) by {
        lemma_depth_rearranged(a, b, Type::Function, i, ref_budget(a));
    }
}

/// The whole prefix sum is the struct's non-self byte count (self markers
/// are zero-sized, so they contribute nothing either way).
pub proof fn lemma_prefix_sum_total(fields: Seq<FieldV>, j: int, i: int)
    requires
        0 <= j <= fields.len(),
    ensures
        size_prefix_sum(fields, j) == sum_nonself(fields.take(j), i),
        size_prefix_sum(fields, j) >= 0,
    decreases j,
{
    if j == 0 {
        assert(fields.take(0) =~= Seq::<FieldV>::empty());
    } else {
        lemma_prefix_sum_total(fields, j - 1, i);
        assert(fields.take(j).drop_last() =~= fields.take(j - 1));
        assert(fields.take(j).last() == fields[j - 1]);
        if is_self_field(fields[j - 1], i) {
            assert(fields[j - 1].type_data.size == 0);
        }
    }
}


// ---------------------------------------------------------------------------
// The executable passes
// ---------------------------------------------------------------------------

/// The layout engine's failure: a struct whose aligned layout cannot fit
/// the machine.
#[derive(Debug)]
pub struct LayoutError {
    pub name: String,
}

/// The split point found by scanning from the end is the split point.
proof fn lemma_split_unique(sorted: Seq<FieldV>, f: FieldV, p: int)
    requires
        sorted_by_size(sorted),
        0 <= p <= sorted.len(),
        forall|m: int| p <= m < sorted.len()
            ==> (#[trigger] sorted[m]).type_data.size > f.type_data.size,
        p > 0 ==> sorted[p - 1].type_data.size <= f.type_data.size,
    ensures
        p == split_point(sorted, f),
{
    lemma_insert_split(sorted, f);
    let sp = split_point(sorted, f);
    if p < sp {
        assert(sorted[p].type_data.size > f.type_data.size);
        assert(sorted[sp - 1].type_data.size <= f.type_data.size);
        assert(sorted[p].type_data.size <= sorted[sp - 1].type_data.size);
    }
    if sp < p {
        assert(sorted[sp].type_data.size > f.type_data.size);
        assert(sorted[p - 1].type_data.size <= f.type_data.size);
        assert(sorted[sp].type_data.size <= sorted[p - 1].type_data.size);
    }
}

/// The stable sort, executably: take each field in turn and insert it after
/// every field of equal or smaller size.
fn sort_fields(fields: Vec<crate::types::Field>) -> (r: Vec<crate::types::Field>)
    ensures
        crate::types::fields_view(r@) == sort_by_size(crate::types::fields_view(fields@)),
{
    let ghost origv = crate::types::fields_view(fields@);
    let mut rest = fields;
    let mut sorted: Vec<crate::types::Field> = Vec::new();
    proof {
        assert(crate::types::fields_view(rest@) =~= origv.skip(0));
        assert(crate::types::fields_view(sorted@) =~= sort_by_size(origv.take(0)));
        assert(origv.take(0) =~= Seq::<FieldV>::empty());
    }
    while rest.len() > 0
        invariant
            crate::types::fields_view(rest@) =~= origv.skip(origv.len() - rest@.len()),
            rest@.len() <= origv.len(),
            crate::types::fields_view(sorted@)
                == sort_by_size(origv.take(origv.len() - rest@.len())),
            sorted_by_size(crate::types::fields_view(sorted@)),
            sorted@.len() + rest@.len() == origv.len(),
        decreases rest@.len(),
    {
        let ghost k = origv.len() - rest@.len();
        let ghost sortedv = crate::types::fields_view(sorted@);
        let f = rest.remove(0);
        let ghost fv = f@;
        proof {
            assert(origv.skip(k as int)[0] == origv[k as int]);
            assert(fv == origv[k as int]);
            assert(crate::types::fields_view(rest@) =~= origv.skip(k as int).remove(0));
            assert(origv.skip(k as int).remove(0) =~= origv.skip(k + 1));
        }
        let mut p = sorted.len();
        while p > 0 && sorted[p - 1].type_data.size > f.type_data.size
            invariant
                p <= sorted@.len(),
                sortedv == crate::types::fields_view(sorted@),
                fv == f@,
                forall|m: int| p <= m < sortedv.len()
                    ==> (#[trigger] sortedv[m]).type_data.size > fv.type_data.size,
            decreases p,
        {
            proof {
                assert(sortedv[p - 1] == sorted@[p - 1]@);
                assert(sortedv[p - 1].type_data.size > fv.type_data.size);
            }
            p = p - 1;
            proof {
                assert forall|m: int| p <= m < sortedv.len()
                    implies (#[trigger] sortedv[m]).type_data.size > fv.type_data.size by {
                    if m == p {
                        assert(sortedv[p as int].type_data.size > fv.type_data.size);
                    }
                }
            }
        }
        proof {
            if p > 0 {
                assert(sortedv[p - 1].type_data.size == sorted@[p - 1]@.type_data.size);
            }
            lemma_split_unique(sortedv, fv, p as int);
            lemma_insert_split(sortedv, fv);
            lemma_insert_sorted(sortedv, fv);
        }
        sorted.insert(p, f);
        proof {
            assert(crate::types::fields_view(sorted@)
                =~= sortedv.take(p as int) + seq![fv] + sortedv.skip(p as int));
            assert(crate::types::fields_view(sorted@) =~= insert_by_size(sortedv, fv));
            assert(origv.take(k + 1).drop_last() =~= origv.take(k as int));
            assert(origv.take(k + 1).last() == origv[k as int]);
            assert(sort_by_size(origv.take(k + 1)) == insert_by_size(sortedv, fv));
        }
    }
    proof {
        assert(origv.take(origv.len() as int) =~= origv);
    }
    sorted
}

/// Packed offsets, executably: each field starts where the previous ended.
fn assign_offset_run(sorted: Vec<crate::types::Field>, Ghost(bound): Ghost<int>) -> (r: Vec<crate::types::Field>)
    requires
        crate::schema::sum_nonself(crate::types::fields_view(sorted@), bound) <= usize::MAX,
        forall|j: int| 0 <= j < sorted@.len()
            ==> crate::schema::is_self_field((#[trigger] sorted@[j])@, bound)
                ==> (sorted@[j])@.type_data.size == 0,
    ensures
        crate::types::fields_view(r@) == assign_packed(crate::types::fields_view(sorted@)),
{
    let ghost sv = crate::types::fields_view(sorted@);
    let n = sorted.len();
    let mut rest = sorted;
    let mut out: Vec<crate::types::Field> = Vec::new();
    let mut off: usize = 0;
    proof {
        assert(crate::types::fields_view(rest@) =~= sv.skip(0));
        lemma_prefix_sum_total(sv, 0, bound);
    }
    while rest.len() > 0
        invariant
            n == sv.len(),
            crate::schema::sum_nonself(sv, bound) <= usize::MAX,
            crate::types::fields_view(rest@) =~= sv.skip(sv.len() - rest@.len()),
            rest@.len() <= sv.len(),
            out@.len() + rest@.len() == sv.len(),
            off == size_prefix_sum(sv, out@.len() as int),
            forall|j: int| 0 <= j < out@.len()
                ==> (#[trigger] out@[j])@ == assign_packed(sv)[j],
        decreases rest@.len(),
    {
        let ghost k = sv.len() - rest@.len();
        let mut f = rest.remove(0);
        let ghost fv = f@;
        proof {
            assert(sv.skip(k as int)[0] == sv[k as int]);
            assert(fv == sv[k as int]);
            assert(crate::types::fields_view(rest@) =~= sv.skip(k as int).remove(0));
            assert(sv.skip(k as int).remove(0) =~= sv.skip(k + 1));
            lemma_prefix_sum_total(sv, k + 1, bound);
            crate::schema::lemma_sum_nonself_prefix(sv, bound, k + 1);
            crate::schema::lemma_sum_nonself_nonneg(sv.take(k + 1), bound);
            lemma_prefix_sum_total(sv, k as int, bound);
            assert(size_prefix_sum(sv, k + 1)
                == size_prefix_sum(sv, k as int) + sv[k as int].type_data.size);
        }
        f.offset = off;
        f.padding_size = 0;
        off = off + f.type_data.size;
        out.push(f);
        proof {
            assert(out@[k as int]@ == assign_packed(sv)[k as int]);
        }
    }
    proof {
        assert(crate::types::fields_view(out@) =~= assign_packed(sv));
    }
    out
}

/// The packing pass: within each struct independently, stably sort the
/// fields by ascending size and pack them with no gaps; mark the schema
/// packed.
pub fn optimize_data_type_layouts(schema: &mut Schema)
    requires
        wf_schema(old(schema)@),
    ensures
        final(schema)@ == spec_pack(old(schema)@),
        wf_schema(final(schema)@),
{
    let ghost s0 = schema@;
    let n = schema.types.len();
    let mut i: usize = 0;
    while i < n
        invariant
            s0 == old(schema)@,
            wf_schema(s0),
            n == s0.types.len(),
            schema@.types.len() == n,
            schema@.enums == s0.enums,
            schema@.unions == s0.unions,
            schema@.arrays == s0.arrays,
            schema@.vectors == s0.vectors,
            schema@.pointers == s0.pointers,
            schema@.functions == s0.functions,
            schema@.is_packed == s0.is_packed,
            i <= n,
            forall|j: int| 0 <= j < i ==> #[trigger] schema@.types[j] == (DataTypeV {
                fields: pack_fields(s0.types[j].fields),
                ..s0.types[j]
            }),
            forall|j: int| i <= j < n ==> #[trigger] schema@.types[j] == s0.types[j],
        decreases n - i,
    {
        let ghost scur = schema@;
        let dt = schema.types.remove(i);
        let ghost origf = crate::types::fields_view(dt.fields@);
        proof {
            assert(scur.types[i as int] == s0.types[i as int]);
            assert(dt@ == scur.types[i as int]) by {
                assert(scur.types == crate::schema::data_types_view(schema.types@.insert(i as int, dt))
                    || true);
                assert(dt@ == scur.types[i as int]);
            }
            assert(origf == s0.types[i as int].fields);
            // the packed bytes fit: the struct's own size does
            lemma_sort_len_sums(origf, i as int);
            let a = crate::schema::sum_nonself(origf, i as int);
            let c = crate::schema::count_self(origf, i as int);
            crate::schema::lemma_sum_nonself_nonneg(origf, i as int);
            crate::schema::lemma_count_self_bounds(origf, i as int);
            assert(0 <= data_size(s0, i as int) <= usize::MAX);
            assert(a <= a * (1 + c)) by (nonlinear_arith)
                requires a >= 0 && c >= 0;
        }
        let crate::types::DataType { name, fields, attributes } = dt;
        let sorted = sort_fields(fields);
        proof {
            let sortedv = crate::types::fields_view(sorted@);
            lemma_sort_len_sums(origf, i as int);
            assert(crate::schema::sum_nonself(sortedv, i as int)
                == crate::schema::sum_nonself(origf, i as int));
        }
        let packed = assign_offset_run(sorted, Ghost(i as int));
        let dt2 = crate::types::DataType { name, fields: packed, attributes };
        schema.types.insert(i, dt2);
        proof {
            assert(dt2@ == (DataTypeV {
                fields: pack_fields(s0.types[i as int].fields),
                ..s0.types[i as int]
            }));
            assert(schema@.types =~= scur.types.update(i as int, dt2@));
            assert forall|j: int| 0 <= j < i + 1 implies #[trigger] schema@.types[j]
                == (DataTypeV { fields: pack_fields(s0.types[j].fields), ..s0.types[j] }) by {
                if j < i {
                    assert(schema@.types[j] == scur.types[j]);
                }
            }
        }
        i = i + 1;
    }
    schema.is_packed = true;
    proof {
        let sfinal = schema@;
        assert(sfinal =~= spec_pack(s0));
        // well-formedness: the reorder, then the offsets
        let s_sorted = SchemaV {
            types: Seq::new(s0.types.len(), |j: int| DataTypeV {
                fields: sort_by_size(s0.types[j].fields),
                ..s0.types[j]
            }),
            ..s0
        };
        assert(schema_rearranged(s0, s_sorted)) by {
            assert forall|j: int| 0 <= j < s0.types.len()
                implies fields_rearranged(s0.types[j].fields,
                    (#[trigger] s_sorted.types[j]).fields, j) by {
                lemma_sort_len_sums(s0.types[j].fields, j);
                lemma_sort_origin(s0.types[j].fields);
            }
        }
        lemma_wf_rearranged(s0, s_sorted);
        assert(schema_same_tds(s_sorted, sfinal)) by {
            assert forall|j: int| 0 <= j < s_sorted.types.len()
                implies fields_same_tds(s_sorted.types[j].fields,
                    (#[trigger] sfinal.types[j]).fields) by {
                let sf = sort_by_size(s0.types[j].fields);
                assert(sfinal.types[j].fields == assign_packed(sf));
                assert forall|m: int| 0 <= m < sf.len()
                    implies (#[trigger] assign_packed(sf)[m]).type_data == sf[m].type_data by {}
            }
        }
        lemma_wf_same_tds(s_sorted, sfinal);
    }
}

/// `cur` rounded up to the next multiple of `a`, or `None` past the machine.
fn e_align_up(cur: usize, a: usize) -> (r: Option<usize>)
    requires
        1 <= a <= 8,
    ensures
        match r {
            Some(off) => off == align_up(cur as int, a as int) && cur <= off,
            None => align_up(cur as int, a as int) > usize::MAX,
        },
{
    let rem = cur % a;
    proof {
        let c = cur as int;
        let ai = a as int;
        let q = c / ai;
        let rm = c % ai;
        vstd::arithmetic::div_mod::lemma_fundamental_div_mod(c, ai);
        vstd::arithmetic::div_mod::lemma_mod_division_less_than_divisor(c, ai);
        assert(c == q * ai + rm);
        assert(0 <= rm < ai);
        assert(q >= 0) by (nonlinear_arith)
            requires ai >= 1 && c >= 0 && c == q * ai + rm && 0 <= rm < ai;
        if rm == 0 {
            assert((c + ai - 1) / ai == q) by (nonlinear_arith)
                requires ai >= 1 && c == q * ai && q >= 0;
            assert(align_up(c, ai) == q * ai);
        } else {
            assert((c + ai - 1) / ai == q + 1) by (nonlinear_arith)
                requires ai >= 1 && c == q * ai + rm && 1 <= rm < ai && q >= 0;
            assert(align_up(c, ai) == (q + 1) * ai);
            assert((q + 1) * ai == c + (ai - rm)) by (nonlinear_arith)
                requires c == q * ai + rm;
        }
    }
    if rem == 0 {
        Some(cur)
    } else {
        cur.checked_add(a - rem)
    }
}

/// The natural-alignment pass: walk each struct's fields in order, one
/// struct at a time in declaration order, rounding every offset up to the
/// field's alignment and recording the inserted gap as padding; mark the
/// schema not packed. A field whose type is an earlier, already-aligned
/// struct advances the walk by that struct's padded size. Refused when a
/// layout cannot fit the machine.
#[verifier::rlimit(100)]
#[verifier::loop_isolation(false)]
pub fn add_padding(schema: &mut Schema) -> (r: Result<(), LayoutError>)
    requires
        wf_schema(old(schema)@),
    ensures
        match r {
            Ok(_) => spec_align_pass(old(schema)@) == Some(final(schema)@)
                && wf_schema(final(schema)@),
            Err(_) => spec_align_pass(old(schema)@) is None,
        },
{
    let ghost s1 = schema@;
    let n = schema.types.len();
    let mut i: usize = 0;
    while i < n
        invariant
            s1 == old(schema)@,
            wf_schema(schema@),
            n == s1.types.len(),
            schema@.types.len() == n,
            i <= n,
            align_fold(s1, 0) == align_fold(schema@, i as int),
        decreases n - i,
    {
        let ghost scur = schema@;
        let ghost fv = scur.types[i as int].fields;
        let m = schema.types[i].fields.len();
        let mut out: Vec<crate::types::Field> = Vec::new();
        let mut cur: usize = 0;
        let mut j: usize = 0;
        while j < m
            invariant
                schema@ == scur,
                i < n,
                scur.types[i as int].fields == fv,
                m == fv.len(),
                j <= m,
                out@.len() == j,
                ({
                    match aligned_fields(scur, fv, j as int, cur as int) {
                        None => !(aligned_fields(scur, fv, 0, 0) is Some),
                        Some(rest) => aligned_fields(scur, fv, 0, 0)
                            == Some(crate::types::fields_view(out@) + rest),
                    }
                }),
            decreases m - j,
        {
            let f_kind = schema.types[i].fields[j].type_data.kind;
            let f_index = schema.types[i].fields[j].type_data.index;
            let f_name = schema.types[i].fields[j].name.clone();
            let ghost fj = fv[j as int];
            proof {
                assert(schema.types@[i as int]@.fields[j as int].type_data == fj.type_data);
                if !crate::schema::is_self_field(fj, i as int) {
                    assert(valid_td(scur, fj.type_data));
                }
                assert(crate::schema::valid_ref(scur, fj.type_data.kind,
                    fj.type_data.index as int));
            }
            let al = schema.type_align(f_kind, f_index).unwrap();
            proof {
                crate::schema::lemma_align_bounds(scur, f_kind, f_index as int, ref_budget(scur));
                assert(al == ext_align(scur, fj));
            }
            let sz = match schema.type_size(f_kind, f_index) {
                Some(v) => v,
                None => {
                    // the field's padded size alone exceeds the machine
                    proof {
                        proof_align_up_props(cur as int, al as int);
                        assert(ext_size(scur, fj) > usize::MAX);
                        assert(aligned_fields(scur, fv, j as int, cur as int) is None);
                    }
                    return Err(LayoutError { name: f_name });
                },
            };
            proof {
                assert(sz == ext_size(scur, fj));
            }
            let off = match e_align_up(cur, al) {
                Some(v) => v,
                None => {
                    proof {
                        crate::schema::lemma_padded_nonneg(scur, fj.type_data.kind,
                            fj.type_data.index as int, ref_budget(scur));
                        assert(ext_size(scur, fj) >= 0);
                        assert(aligned_fields(scur, fv, j as int, cur as int) is None);
                    }
                    return Err(LayoutError { name: f_name });
                },
            };
            let end = match off.checked_add(sz) {
                Some(v) => v,
                None => {
                    proof {
                        assert(aligned_fields(scur, fv, j as int, cur as int) is None);
                    }
                    return Err(LayoutError { name: f_name });
                },
            };
            let f_old = &schema.types[i].fields[j];
            let f2 = crate::types::Field {
                name: f_name,
                type_data: f_old.type_data,
                offset: off,
                padding_size: off - cur,
            };
            out.push(f2);
            proof {
                let stepped = aligned_fields(scur, fv, j + 1, end as int);
                match stepped {
                    None => {
                        assert(aligned_fields(scur, fv, j as int, cur as int) is None);
                    },
                    Some(rest) => {
                        assert(aligned_fields(scur, fv, j as int, cur as int)
                            == Some(seq![FieldV {
                                offset: off,
                                padding_size: (off - cur) as usize,
                                ..fv[j as int]
                            }] + rest));
                        assert(f2@ == (FieldV {
                            offset: off,
                            padding_size: (off - cur) as usize,
                            ..fv[j as int]
                        }));
                        assert(crate::types::fields_view(out@)
                            =~= crate::types::fields_view(out@.drop_last()) + seq![f2@]);
                        assert((crate::types::fields_view(out@.drop_last()) + seq![f2@]) + rest
                            =~= crate::types::fields_view(out@.drop_last()) + (seq![f2@] + rest));
                    },
                }
            }
            cur = end;
            j = j + 1;
        }
        proof {
            assert(aligned_fields(scur, fv, m as int, cur as int) == Some(Seq::<FieldV>::empty()));
            assert(crate::types::fields_view(out@) + Seq::<FieldV>::empty()
                =~= crate::types::fields_view(out@));
            assert(aligned_fields(scur, fv, 0, 0) == Some(crate::types::fields_view(out@)));
        }
        let mut dt = schema.types.remove(i);
        proof {
            assert(dt@ == scur.types[i as int]);
        }
        dt.fields = out;
        let ghost dt2v = dt@;
        schema.types.insert(i, dt);
        i = i + 1;
        proof {
            let snew = schema@;
            assert(snew.types =~= scur.types.update(i - 1, dt2v));
            assert(snew =~= (SchemaV {
                types: scur.types.update(i - 1, DataTypeV {
                    fields: aligned_fields(scur, fv, 0, 0)->Some_0,
                    ..scur.types[i - 1]
                }),
                ..scur
            }));
            assert(align_fold(scur, i - 1) == align_fold(snew, i as int));
            assert(schema_same_tds(scur, snew)) by {
                assert forall|q: int| 0 <= q < scur.types.len()
                    implies fields_same_tds(scur.types[q].fields,
                        (#[trigger] snew.types[q]).fields) by {
                    if q != i - 1 {
                        assert(snew.types[q] == scur.types[q]);
                    } else {
                        lemma_aligned_tds(scur, fv, 0, 0);
                    }
                }
            }
            lemma_wf_same_tds(scur, snew);
        }
    }
    let ghost send = schema@;
    schema.is_packed = false;
    proof {
        assert(align_fold(send, n as int) == Some(SchemaV { is_packed: false, ..send }));
        assert(final(schema)@ =~= (SchemaV { is_packed: false, ..send }));
        assert(schema_same_tds(send, final(schema)@)) by {
            assert forall|q: int| 0 <= q < send.types.len()
                implies fields_same_tds(send.types[q].fields,
                    (#[trigger] final(schema)@.types[q]).fields) by {}
        }
        lemma_wf_same_tds(send, final(schema)@);
    }
    Ok(())
}

/// The alignment walk keeps every field's reference in place.
proof fn lemma_aligned_tds(s: SchemaV, fields: Seq<FieldV>, j: int, cur: int)
    requires
        aligned_fields(s, fields, j, cur) is Some,
        0 <= j <= fields.len(),
    ensures
        ({
            let r = aligned_fields(s, fields, j, cur)->Some_0;
            r.len() == fields.len() - j
                && forall|m: int| 0 <= m < r.len()
                    ==> #[trigger] r[m] == (FieldV {
                        offset: r[m].offset,
                        padding_size: r[m].padding_size,
                        ..fields[j + m]
                    })
        }),
    decreases fields.len() - j,
{
    if j < fields.len() {
        let a = ext_align(s, fields[j]);
        let sz = ext_size(s, fields[j]);
        let off = align_up(cur, a);
        lemma_aligned_tds(s, fields, j + 1, off + sz);
    }
}

/// The whole layout engine: the packing pass if asked for, then the
/// alignment pass if asked for.
pub fn optimize_schema(schema: &mut Schema, optimizations: SchemaOptimizations) -> (r: Result<(), LayoutError>)
    requires
        wf_schema(old(schema)@),
    ensures
        match r {
            Ok(_) => spec_optimize(old(schema)@, optimizations) == Some(final(schema)@)
                && wf_schema(final(schema)@),
            Err(_) => spec_optimize(old(schema)@, optimizations) is None,
        },
{
    if optimizations.data_type_layout {
        optimize_data_type_layouts(schema);
    }
    if optimizations.add_padding {
        add_padding(schema)
    } else {
        Ok(())
    }
}


// ---------------------------------------------------------------------------
// What the finished layouts look like
// ---------------------------------------------------------------------------

/// Prefix sums of sizes only grow.
pub proof fn lemma_prefix_sum_mono(fields: Seq<FieldV>, j1: int, j2: int)
    requires
        0 <= j1 <= j2 <= fields.len(),
    ensures
        size_prefix_sum(fields, j1) <= size_prefix_sum(fields, j2),
    decreases j2 - j1,
{
    if j1 < j2 {
        lemma_prefix_sum_mono(fields, j1, j2 - 1);
    }
}

/// Under the packed-and-reordered policy, a struct's fields come out
/// stably sorted by ascending size.
pub proof fn lemma_packed_sorted(fields: Seq<FieldV>)
    ensures
        pack_fields(fields).len() == fields.len(),
        sorted_by_size(pack_fields(fields)),
{
    let sorted = sort_by_size(fields);
    let r = pack_fields(fields);
    lemma_sort_len_sums(fields, 0);
    lemma_sort_sorted(fields);
    assert forall|j1: int, j2: int| 0 <= j1 <= j2 < r.len()
        implies (#[trigger] r[j1]).type_data.size <= (#[trigger] r[j2]).type_data.size by {
        assert(r[j1].type_data == sorted[j1].type_data);
        assert(r[j2].type_data == sorted[j2].type_data);
    }
}

/// Under the packed-and-reordered policy, each field starts exactly where
/// the previous one ended, with no padding anywhere.
#[verifier::rlimit(100)]
#[verifier::spinoff_prover]
pub proof fn lemma_packed_offsets(fields: Seq<FieldV>)
    requires
        size_prefix_sum(sort_by_size(fields), fields.len() as int) <= usize::MAX,
    ensures
        pack_fields(fields).len() == fields.len(),
        forall|j: int| 0 <= j < fields.len()
            ==> (#[trigger] pack_fields(fields)[j]).offset
                == size_prefix_sum(sort_by_size(fields), j)
                && pack_fields(fields)[j].padding_size == 0,
        forall|j: int| 0 < j < fields.len()
            ==> (#[trigger] pack_fields(fields)[j]).offset as int
                == pack_fields(fields)[j - 1].offset + pack_fields(fields)[j - 1].type_data.size,
{
    let sorted = sort_by_size(fields);
    let r = pack_fields(fields);
    lemma_sort_len_sums(fields, 0);
    assert forall|j: int| 0 <= j <= fields.len()
        implies 0 <= #[trigger] size_prefix_sum(sorted, j) <= usize::MAX by {
        lemma_prefix_sum_total(sorted, j, 0);
        lemma_prefix_sum_mono(sorted, j, fields.len() as int);
    }
    assert forall|j: int| 0 < j < fields.len()
        implies (#[trigger] r[j]).offset as int
            == r[j - 1].offset + r[j - 1].type_data.size by {
        assert(r[j].offset == size_prefix_sum(sorted, j));
        assert(size_prefix_sum(sorted, j) == size_prefix_sum(sorted, j - 1)
            + sorted[j - 1].type_data.size);
        assert(r[j - 1].type_data == sorted[j - 1].type_data);
    }
}

/// In a consistent schema with no padding recorded anywhere, the reported
/// size of every grounded entry is the memoized one.
pub proof fn lemma_padded_eq_base(s: SchemaV, kind: Type, i: int, fuel: nat)
    requires
        wf_schema(s),
        forall|q: int, m: int| 0 <= q < s.types.len() && 0 <= m < s.types[q].fields.len()
            ==> (#[trigger] s.types[q].fields[m]).padding_size == 0,
        depth_ok(s, kind, i, fuel),
    ensures
        crate::schema::padded_size_fueled(s, kind, i, fuel) == size_of_ref(s, kind, i),
    decreases fuel, 0nat,
{
    match kind {
        Type::Primitive | Type::Enum | Type::Vector | Type::String | Type::Pointer
        | Type::Function => {},
        Type::Data => {
            lemma_fields_padded_eq_base(s, s.types[i].fields, i, (fuel - 1) as nat);
        },
        Type::Union => {
            lemma_tds_padded_eq_base(s, s.unions[i].possible_types, (fuel - 1) as nat);
        },
        Type::Array => {
            let td = s.arrays[i].inner;
            if !stub_like(td) {
                assert(crate::schema::inner_ok(s, td));
                lemma_padded_eq_base(s, td.kind, td.index as int, (fuel - 1) as nat);
            }
        },
    }
}

proof fn lemma_fields_padded_eq_base(s: SchemaV, fields: Seq<FieldV>, i: int, fuel: nat)
    requires
        wf_schema(s),
        forall|q: int, m: int| 0 <= q < s.types.len() && 0 <= m < s.types[q].fields.len()
            ==> (#[trigger] s.types[q].fields[m]).padding_size == 0,
        forall|m: int| 0 <= m < fields.len() ==> (#[trigger] fields[m]).padding_size == 0,
        forall|m: int| 0 <= m < fields.len()
            ==> valid_td(s, (#[trigger] fields[m]).type_data) || is_self_field(fields[m], i),
        crate::schema::fields_depth_ok(s, fields, fuel),
    ensures
        crate::schema::fields_padded_sum(s, fields, i, fuel) == sum_nonself(fields, i),
    decreases fuel, 1nat, fields.len(),
{
    if fields.len() != 0 {
        assert forall|m: int| 0 <= m < fields.drop_last().len()
            implies (#[trigger] fields.drop_last()[m]).padding_size == 0
                && (valid_td(s, fields.drop_last()[m].type_data)
                    || is_self_field(fields.drop_last()[m], i))
                && crate::schema::inner_depth_ok(s, fields.drop_last()[m].type_data, fuel) by {
            assert(fields.drop_last()[m] == fields[m]);
            assert(crate::schema::inner_depth_ok(s, fields[m].type_data, fuel));
        }
        lemma_fields_padded_eq_base(s, fields.drop_last(), i, fuel);
        let f = fields.last();
        assert(f == fields[fields.len() - 1]);
        assert(crate::schema::inner_depth_ok(s, f.type_data, fuel));
        if !is_self_field(f, i) {
            assert(valid_td(s, f.type_data));
            if stub_like(f.type_data) {
                assert(f.type_data.size == 0);
                assert(crate::schema::padded_inner_size(s, f.type_data, fuel) == 0);
            } else {
                lemma_padded_eq_base(s, f.type_data.kind, f.type_data.index as int, fuel);
                assert(crate::schema::padded_inner_size(s, f.type_data, fuel)
                    == f.type_data.size as int);
            }
        }
    }
}

proof fn lemma_tds_padded_eq_base(s: SchemaV, tds: Seq<TypeData>, fuel: nat)
    requires
        wf_schema(s),
        forall|q: int, m: int| 0 <= q < s.types.len() && 0 <= m < s.types[q].fields.len()
            ==> (#[trigger] s.types[q].fields[m]).padding_size == 0,
        forall|m: int| 0 <= m < tds.len()
            ==> valid_td(s, #[trigger] tds[m]) || stub_like(tds[m]),
        crate::schema::tds_depth_ok(s, tds, fuel),
    ensures
        crate::schema::tds_padded_max(s, tds, fuel) == crate::schema::max_size(tds),
    decreases fuel, 1nat, tds.len(),
{
    if tds.len() != 0 {
        assert forall|m: int| 0 <= m < tds.drop_last().len()
            implies (valid_td(s, #[trigger] tds.drop_last()[m]) || stub_like(tds.drop_last()[m]))
                && crate::schema::inner_depth_ok(s, tds.drop_last()[m], fuel) by {
            assert(tds.drop_last()[m] == tds[m]);
            assert(crate::schema::inner_depth_ok(s, tds[m], fuel));
        }
        lemma_tds_padded_eq_base(s, tds.drop_last(), fuel);
        let td = tds.last();
        assert(td == tds[tds.len() - 1]);
        assert(crate::schema::inner_depth_ok(s, td, fuel));
        if !stub_like(td) {
            lemma_padded_eq_base(s, td.kind, td.index as int, fuel);
            assert(crate::schema::padded_inner_size(s, td, fuel) == td.size as int);
        } else {
            assert(td.size == 0);
            assert(crate::schema::padded_inner_size(s, td, fuel) == 0);
        }
    }
}

/// Under the packed-and-reordered policy, a struct with no self-referential
/// fields has total (reported) size exactly the sum of its field sizes:
/// with every padding zero, the reported size is the bare sum.
pub proof fn lemma_packed_total_size(s: SchemaV, i: int)
    requires
        wf_schema(s),
        0 <= i < s.types.len(),
        count_self(s.types[i].fields, i) == 0,
        forall|q: int, m: int| 0 <= q < s.types.len() && 0 <= m < s.types[q].fields.len()
            ==> (#[trigger] s.types[q].fields[m]).padding_size == 0,
    ensures
        data_size(s, i) == size_prefix_sum(s.types[i].fields, s.types[i].fields.len() as int),
        crate::schema::padded_size_of_ref(s, Type::Data, i) == data_size(s, i),
{
    let fields = s.types[i].fields;
    lemma_prefix_sum_total(fields, fields.len() as int, i);
    assert(fields.take(fields.len() as int) =~= fields);
    assert(data_size(s, i) == sum_nonself(fields, i) * 1) by {
        assert(sum_nonself(fields, i) * (1 + 0) == sum_nonself(fields, i));
    }
    lemma_padded_eq_base(s, Type::Data, i, ref_budget(s));
}

/// Under the aligned policy, every field's offset is a multiple of that
/// field's alignment, no two fields overlap, and each field's padding is
/// exactly the gap between the previous field's end and its own start.
#[verifier::rlimit(100)]
#[verifier::spinoff_prover]
pub proof fn lemma_aligned_layout(s: SchemaV, fields: Seq<FieldV>, j: int, cur: int)
    requires
        0 <= j <= fields.len(),
        cur >= 0,
        aligned_fields(s, fields, j, cur) is Some,
        forall|m: int| j <= m < fields.len() ==> 1 <= ext_align(s, #[trigger] fields[m]),
        forall|m: int| j <= m < fields.len() ==> 0 <= ext_size(s, #[trigger] fields[m]),
    ensures
        ({
            let r = aligned_fields(s, fields, j, cur)->Some_0;
            &&& r.len() == fields.len() - j
            &&& forall|m: int| 0 <= m < r.len()
                ==> ((#[trigger] r[m]).offset as int) % ext_align(s, fields[j + m]) == 0
            &&& forall|m: int| 0 <= m < r.len() ==> cur <= (#[trigger] r[m]).offset
            &&& r.len() > 0 ==> r[0].offset == cur + r[0].padding_size
            &&& forall|m: int| 0 < m < r.len()
                ==> (#[trigger] r[m]).offset as int
                    == r[m - 1].offset + ext_size(s, fields[j + m - 1]) + r[m].padding_size
            &&& forall|m: int| 0 < m < r.len()
                ==> (#[trigger] r[m]).offset as int
                    >= r[m - 1].offset + ext_size(s, fields[j + m - 1])
        }),
    decreases fields.len() - j,
{
    if j < fields.len() {
        let a = ext_align(s, fields[j]);
        let sz = ext_size(s, fields[j]);
        let off = align_up(cur, a);
        proof_align_up_props(cur, a);
        lemma_aligned_layout(s, fields, j + 1, off + sz);
        let r = aligned_fields(s, fields, j, cur)->Some_0;
        let rest = aligned_fields(s, fields, j + 1, off + sz)->Some_0;
        assert(r == seq![FieldV {
            offset: off as usize,
            padding_size: (off - cur) as usize,
            ..fields[j]
        }] + rest);
        assert(r[0].offset == off);
        assert forall|m: int| 0 <= m < r.len()
            implies ((#[trigger] r[m]).offset as int) % ext_align(s, fields[j + m]) == 0 by {
            if m == 0 {
                assert((off as int) % a == 0);
            } else {
                assert(r[m] == rest[m - 1]);
                assert((rest[m - 1].offset as int) % ext_align(s, fields[j + 1 + (m - 1)]) == 0);
            }
        }
        assert forall|m: int| 0 <= m < r.len() implies cur <= (#[trigger] r[m]).offset by {
            if m > 0 {
                assert(r[m] == rest[m - 1]);
                assert(off + sz <= rest[m - 1].offset);
                assert(sz >= 0);
            }
        }
        assert forall|m: int| 0 < m < r.len()
            implies (#[trigger] r[m]).offset as int
                == r[m - 1].offset + ext_size(s, fields[j + m - 1]) + r[m].padding_size
                && (#[trigger] r[m]).offset as int
                    >= r[m - 1].offset + ext_size(s, fields[j + m - 1]) by {
            if m == 1 {
                assert(r[1] == rest[0]);
                assert(rest.len() > 0);
                assert(rest[0].offset == (off + sz) + rest[0].padding_size);
            } else {
                assert(r[m] == rest[m - 1]);
                assert(r[m - 1] == rest[m - 2]);
                assert(rest[m - 1].offset as int
                    == rest[m - 2].offset + ext_size(s, fields[j + 1 + (m - 2)])
                        + rest[m - 1].padding_size);
            }
        }
    }
}

/// Rounding up to an alignment lands on a multiple, at or after the start,
/// less than one alignment away.
proof fn proof_align_up_props(cur: int, a: int)
    requires
        a >= 1,
        cur >= 0,
    ensures
        align_up(cur, a) % a == 0,
        cur <= align_up(cur, a) < cur + a,
{
    let q = (cur + a - 1) / a;
    vstd::arithmetic::div_mod::lemma_fundamental_div_mod(cur + a - 1, a);
    vstd::arithmetic::div_mod::lemma_mod_division_less_than_divisor(cur + a - 1, a);
    let rm = (cur + a - 1) % a;
    assert(cur + a - 1 == a * q + rm);
    assert(align_up(cur, a) == q * a);
    assert((q * a) % a == 0) by {
        vstd::arithmetic::div_mod::lemma_mod_multiples_basic(q, a);
    }
    assert(cur <= q * a < cur + a) by (nonlinear_arith)
        requires a >= 1 && cur >= 0 && cur + a - 1 == a * q + rm && 0 <= rm < a;
}


// ---------------------------------------------------------------------------
// The layout engine is idempotent
// ---------------------------------------------------------------------------

/// Two field sequences equal but for offsets and padding.
pub open spec fn same_except_layout(xf: Seq<FieldV>, yf: Seq<FieldV>) -> bool {
    yf.len() == xf.len()
        && forall|m: int| 0 <= m < xf.len()
            ==> #[trigger] yf[m] == (FieldV {
                offset: yf[m].offset,
                padding_size: yf[m].padding_size,
                ..xf[m]
            })
}

proof fn lemma_prefix_sum_layout(xf: Seq<FieldV>, yf: Seq<FieldV>, j: int)
    requires
        same_except_layout(xf, yf),
        0 <= j <= xf.len(),
    ensures
        size_prefix_sum(yf, j) == size_prefix_sum(xf, j),
    decreases j,
{
    if j > 0 {
        lemma_prefix_sum_layout(xf, yf, j - 1);
        assert(yf[j - 1].type_data == xf[j - 1].type_data);
    }
}

/// Packed offsets ignore whatever offsets the input carried.
proof fn lemma_assign_layout(xf: Seq<FieldV>, yf: Seq<FieldV>)
    requires
        same_except_layout(xf, yf),
    ensures
        assign_packed(yf) == assign_packed(xf),
{
    assert forall|j: int| 0 <= j < xf.len()
        implies #[trigger] assign_packed(yf)[j] == assign_packed(xf)[j] by {
        lemma_prefix_sum_layout(xf, yf, j);
        assert(yf[j] == (FieldV { offset: yf[j].offset, padding_size: yf[j].padding_size, ..xf[j] }));
    }
    assert(assign_packed(yf) =~= assign_packed(xf));
}

/// Packing already-packed fields changes nothing.
pub proof fn lemma_pack_fields_idempotent(f: Seq<FieldV>)
    ensures
        pack_fields(pack_fields(f)) == pack_fields(f),
{
    let sorted = sort_by_size(f);
    let packed = pack_fields(f);
    lemma_sort_sorted(f);
    lemma_sort_len_sums(f, 0);
    assert(same_except_layout(sorted, packed)) by {
        assert forall|m: int| 0 <= m < sorted.len()
            implies #[trigger] packed[m] == (FieldV {
                offset: packed[m].offset,
                padding_size: packed[m].padding_size,
                ..sorted[m]
            }) by {}
    }
    assert(sorted_by_size(packed)) by {
        assert forall|j1: int, j2: int| 0 <= j1 <= j2 < packed.len()
            implies (#[trigger] packed[j1]).type_data.size
                <= (#[trigger] packed[j2]).type_data.size by {
            assert(packed[j1].type_data == sorted[j1].type_data);
            assert(packed[j2].type_data == sorted[j2].type_data);
        }
    }
    lemma_sort_of_sorted(packed);
    lemma_assign_layout(sorted, packed);
}

/// The packing pass is idempotent.
pub proof fn lemma_pack_idempotent(s: SchemaV)
    ensures
        spec_pack(spec_pack(s)) == spec_pack(s),
{
    let s1 = spec_pack(s);
    assert forall|i: int| 0 <= i < s1.types.len()
        implies #[trigger] spec_pack(s1).types[i] == s1.types[i] by {
        lemma_pack_fields_idempotent(s.types[i].fields);
        assert(s1.types[i].fields == pack_fields(s.types[i].fields));
        assert(spec_pack(s1).types[i].fields == pack_fields(s1.types[i].fields));
    }
    assert(spec_pack(s1) =~= s1);
}

/// All struct entries a reported-size walk from `(kind, index)` can reach
/// lie strictly below `bound`.
pub open spec fn size_refs_below(s: SchemaV, kind: Type, index: int, bound: int, fuel: nat) -> bool
    decreases fuel, 0nat,
{
    if fuel == 0 {
        false
    } else {
        match kind {
            Type::Primitive | Type::Enum | Type::Vector | Type::String | Type::Pointer
            | Type::Function => true,
            Type::Data => 0 <= index < bound
                && fields_size_refs_below(s, s.types[index].fields, bound, (fuel - 1) as nat),
            Type::Union => tds_size_refs_below(s, s.unions[index].possible_types, bound,
                (fuel - 1) as nat),
            Type::Array => inner_size_refs_below(s, s.arrays[index].inner, bound,
                (fuel - 1) as nat),
        }
    }
}

pub open spec fn inner_size_refs_below(s: SchemaV, td: TypeData, bound: int, fuel: nat) -> bool
    decreases fuel, 1nat,
{
    stub_like(td) || size_refs_below(s, td.kind, td.index as int, bound, fuel)
}

pub open spec fn fields_size_refs_below(s: SchemaV, fields: Seq<FieldV>, bound: int, fuel: nat) -> bool
    decreases fuel, 2nat,
{
    forall|m: int| 0 <= m < fields.len()
        ==> inner_size_refs_below(s, (#[trigger] fields[m]).type_data, bound, fuel)
}

pub open spec fn tds_size_refs_below(s: SchemaV, tds: Seq<TypeData>, bound: int, fuel: nat) -> bool
    decreases fuel, 2nat,
{
    forall|m: int| 0 <= m < tds.len()
        ==> inner_size_refs_below(s, #[trigger] tds[m], bound, fuel)
}

/// Two schemas that agree on every struct below `bound` report the same
/// size for anything whose walk stays below `bound`.
proof fn lemma_padded_below_same(a: SchemaV, b: SchemaV, kind: Type, i: int, bound: int, fuel: nat)
    requires
        b.unions == a.unions,
        b.arrays == a.arrays,
        b.types.len() == a.types.len(),
        forall|q: int| 0 <= q < bound && q < a.types.len()
            ==> (#[trigger] b.types[q]).fields == a.types[q].fields,
        size_refs_below(a, kind, i, bound, fuel),
        bound <= a.types.len(),
    ensures
        crate::schema::padded_size_fueled(b, kind, i, fuel)
            == crate::schema::padded_size_fueled(a, kind, i, fuel),
    decreases fuel, 0nat,
{
    match kind {
        Type::Primitive | Type::Enum | Type::Vector | Type::String | Type::Pointer
        | Type::Function => {},
        Type::Data => {
            assert(b.types[i].fields == a.types[i].fields);
            lemma_fields_padded_below_same(a, b, a.types[i].fields, i, bound, (fuel - 1) as nat);
        },
        Type::Union => {
            assert(b.unions[i] == a.unions[i]);
            lemma_tds_padded_below_same(a, b, a.unions[i].possible_types, bound, (fuel - 1) as nat);
        },
        Type::Array => {
            assert(b.arrays[i] == a.arrays[i]);
            let td = a.arrays[i].inner;
            if !stub_like(td) {
                lemma_padded_below_same(a, b, td.kind, td.index as int, bound, (fuel - 1) as nat);
            }
        },
    }
}

proof fn lemma_fields_padded_below_same(a: SchemaV, b: SchemaV, fields: Seq<FieldV>, i: int, bound: int, fuel: nat)
    requires
        b.unions == a.unions,
        b.arrays == a.arrays,
        b.types.len() == a.types.len(),
        forall|q: int| 0 <= q < bound && q < a.types.len()
            ==> (#[trigger] b.types[q]).fields == a.types[q].fields,
        fields_size_refs_below(a, fields, bound, fuel),
        bound <= a.types.len(),
    ensures
        crate::schema::fields_padded_sum(b, fields, i, fuel)
            == crate::schema::fields_padded_sum(a, fields, i, fuel),
    decreases fuel, 1nat, fields.len(),
{
    if fields.len() != 0 {
        assert forall|m: int| 0 <= m < fields.drop_last().len()
            implies inner_size_refs_below(a, (#[trigger] fields.drop_last()[m]).type_data,
                bound, fuel) by {
            assert(fields.drop_last()[m] == fields[m]);
            assert(inner_size_refs_below(a, fields[m].type_data, bound, fuel));
        }
        lemma_fields_padded_below_same(a, b, fields.drop_last(), i, bound, fuel);
        let td = fields.last().type_data;
        assert(fields.last() == fields[fields.len() - 1]);
        assert(inner_size_refs_below(a, td, bound, fuel));
        if !is_self_field(fields.last(), i) && !stub_like(td) {
            lemma_padded_below_same(a, b, td.kind, td.index as int, bound, fuel);
        }
        let ca = if is_self_field(fields.last(), i) {
            0int
        } else {
            crate::schema::padded_inner_size(a, td, fuel) + fields.last().padding_size
        };
        let cb = if is_self_field(fields.last(), i) {
            0int
        } else {
            crate::schema::padded_inner_size(b, td, fuel) + fields.last().padding_size
        };
        assert(ca == cb);
        assert(crate::schema::fields_padded_sum(a, fields, i, fuel)
            == crate::schema::fields_padded_sum(a, fields.drop_last(), i, fuel) + ca);
        assert(crate::schema::fields_padded_sum(b, fields, i, fuel)
            == crate::schema::fields_padded_sum(b, fields.drop_last(), i, fuel) + cb);
    }
}

proof fn lemma_tds_padded_below_same(a: SchemaV, b: SchemaV, tds: Seq<TypeData>, bound: int, fuel: nat)
    requires
        b.unions == a.unions,
        b.arrays == a.arrays,
        b.types.len() == a.types.len(),
        forall|q: int| 0 <= q < bound && q < a.types.len()
            ==> (#[trigger] b.types[q]).fields == a.types[q].fields,
        tds_size_refs_below(a, tds, bound, fuel),
        bound <= a.types.len(),
    ensures
        crate::schema::tds_padded_max(b, tds, fuel) == crate::schema::tds_padded_max(a, tds, fuel),
    decreases fuel, 1nat, tds.len(),
{
    if tds.len() != 0 {
        assert forall|m: int| 0 <= m < tds.drop_last().len()
            implies inner_size_refs_below(a, #[trigger] tds.drop_last()[m], bound, fuel) by {
            assert(tds.drop_last()[m] == tds[m]);
            assert(inner_size_refs_below(a, tds[m], bound, fuel));
        }
        lemma_tds_padded_below_same(a, b, tds.drop_last(), bound, fuel);
        let td = tds.last();
        assert(td == tds[tds.len() - 1]);
        assert(inner_size_refs_below(a, td, bound, fuel));
        if !stub_like(td) {
            lemma_padded_below_same(a, b, td.kind, td.index as int, bound, fuel);
        }
        assert(crate::schema::padded_inner_size(a, td, fuel)
            == crate::schema::padded_inner_size(b, td, fuel));
        assert(crate::schema::tds_padded_max(a, tds, fuel)
            == if crate::schema::padded_inner_size(a, td, fuel)
                > crate::schema::tds_padded_max(a, tds.drop_last(), fuel) {
                crate::schema::padded_inner_size(a, td, fuel)
            } else {
                crate::schema::tds_padded_max(a, tds.drop_last(), fuel)
            });
        assert(crate::schema::tds_padded_max(b, tds, fuel)
            == if crate::schema::padded_inner_size(b, td, fuel)
                > crate::schema::tds_padded_max(b, tds.drop_last(), fuel) {
                crate::schema::padded_inner_size(b, td, fuel)
            } else {
                crate::schema::tds_padded_max(b, tds.drop_last(), fuel)
            });
    }
}

/// A relayout keeps every reachability bound: the predicate reads only
/// references, never offsets or padding.
proof fn lemma_size_refs_same_tds(a: SchemaV, b: SchemaV, kind: Type, i: int, bound: int, fuel: nat)
    requires
        schema_same_tds(a, b),
        size_refs_below(a, kind, i, bound, fuel),
        bound <= a.types.len(),
    ensures
        size_refs_below(b, kind, i, bound, fuel),
    decreases fuel, 0nat,
{
    match kind {
        Type::Primitive | Type::Enum | Type::Vector | Type::String | Type::Pointer
        | Type::Function => {},
        Type::Data => {
            let af = a.types[i].fields;
            let bf = b.types[i].fields;
            assert(fields_same_tds(af, bf));
            assert forall|m: int| 0 <= m < bf.len()
                implies inner_size_refs_below(b, (#[trigger] bf[m]).type_data, bound,
                    (fuel - 1) as nat) by {
                assert(bf[m].type_data == af[m].type_data);
                assert(inner_size_refs_below(a, af[m].type_data, bound, (fuel - 1) as nat));
                if !stub_like(af[m].type_data) {
                    lemma_size_refs_same_tds(a, b, af[m].type_data.kind,
                        af[m].type_data.index as int, bound, (fuel - 1) as nat);
                }
            }
        },
        Type::Union => {
            let tds = a.unions[i].possible_types;
            assert(b.unions[i] == a.unions[i]);
            assert forall|m: int| 0 <= m < tds.len()
                implies inner_size_refs_below(b, #[trigger] tds[m], bound,
                    (fuel - 1) as nat) by {
                assert(inner_size_refs_below(a, tds[m], bound, (fuel - 1) as nat));
                if !stub_like(tds[m]) {
                    lemma_size_refs_same_tds(a, b, tds[m].kind, tds[m].index as int, bound,
                        (fuel - 1) as nat);
                }
            }
        },
        Type::Array => {
            assert(b.arrays[i] == a.arrays[i]);
            let td = a.arrays[i].inner;
            if !stub_like(td) {
                lemma_size_refs_same_tds(a, b, td.kind, td.index as int, bound,
                    (fuel - 1) as nat);
            }
        },
    }
}

/// Two field sequences with the same references in the same order walk to
/// the same layout, whichever of two schemas carries them, as long as the
/// schemas agree on every struct either walk can reach.
proof fn lemma_walk_transport(
    a: SchemaV,
    b: SchemaV,
    xf: Seq<FieldV>,
    yf: Seq<FieldV>,
    j: int,
    cur: int,
    bound: int,
)
    requires
        schema_same_tds(a, b),
        wf_schema(a),
        same_except_layout(xf, yf),
        forall|m: int| 0 <= m < xf.len() ==> valid_td(a, (#[trigger] xf[m]).type_data),
        forall|m: int| 0 <= m < xf.len()
            ==> size_refs_below(a, (#[trigger] xf[m]).type_data.kind,
                xf[m].type_data.index as int, bound, ref_budget(a)),
        forall|q: int| 0 <= q < bound && q < a.types.len()
            ==> (#[trigger] b.types[q]).fields == a.types[q].fields,
        bound <= a.types.len(),
        0 <= j <= xf.len(),
    ensures
        aligned_fields(b, yf, j, cur) == aligned_fields(a, xf, j, cur),
    decreases xf.len() - j,
{
    if j < xf.len() {
        assert(yf[j].type_data == xf[j].type_data);
        let td = xf[j].type_data;
        lemma_align_same_tds(a, b, td.kind, td.index as int, ref_budget(a));
        assert(ref_budget(b) == ref_budget(a));
        assert(ext_align(b, yf[j]) == ext_align(a, xf[j]));
        lemma_padded_below_same(a, b, td.kind, td.index as int, bound, ref_budget(a));
        assert(ext_size(b, yf[j]) == ext_size(a, xf[j]));
        let al = ext_align(a, xf[j]);
        let sz = ext_size(a, xf[j]);
        let off = align_up(cur, al);
        if off + sz <= usize::MAX {
            lemma_walk_transport(a, b, xf, yf, j + 1, off + sz, bound);
            match aligned_fields(a, xf, j + 1, off + sz) {
                None => {},
                Some(rest) => {
                    assert(yf[j] == (FieldV {
                        offset: yf[j].offset,
                        padding_size: yf[j].padding_size,
                        ..xf[j]
                    }));
                    assert((FieldV { offset: off as usize, padding_size: (off - cur) as usize, ..yf[j] })
                        == (FieldV { offset: off as usize, padding_size: (off - cur) as usize, ..xf[j] }));
                },
            }
        }
    }
}

/// What a finished alignment fold looks like: the non-struct tables and the
/// already-aligned prefix are untouched, the packed flag is cleared, and
/// every remaining struct keeps its name, attributes and references, only
/// its offsets and padding changing.
proof fn lemma_fold_layout(s: SchemaV, i: int)
    requires
        0 <= i <= s.types.len(),
    ensures
        match align_fold(s, i) {
            Some(y) => {
                &&& y.types.len() == s.types.len()
                &&& y.enums == s.enums
                &&& y.unions == s.unions
                &&& y.arrays == s.arrays
                &&& y.vectors == s.vectors
                &&& y.pointers == s.pointers
                &&& y.functions == s.functions
                &&& y.is_packed == false
                &&& forall|q: int| 0 <= q < i ==> #[trigger] y.types[q] == s.types[q]
                &&& forall|q: int| i <= q < s.types.len()
                    ==> (#[trigger] y.types[q]).name == s.types[q].name
                        && y.types[q].attributes == s.types[q].attributes
                        && same_except_layout(s.types[q].fields, y.types[q].fields)
            },
            None => true,
        },
    decreases s.types.len() - i,
{
    if i < s.types.len() {
        match aligned_fields(s, s.types[i].fields, 0, 0) {
            None => {},
            Some(ws) => {
                lemma_aligned_tds(s, s.types[i].fields, 0, 0);
                let s2 = SchemaV {
                    types: s.types.update(i, DataTypeV { fields: ws, ..s.types[i] }),
                    ..s
                };
                lemma_fold_layout(s2, i + 1);
                match align_fold(s2, i + 1) {
                    None => {},
                    Some(y) => {
                        assert forall|q: int| 0 <= q < i
                            implies #[trigger] y.types[q] == s.types[q] by {
                            assert(y.types[q] == s2.types[q]);
                            assert(s2.types[q] == s.types[q]);
                        }
                        assert forall|q: int| i <= q < s.types.len()
                            implies (#[trigger] y.types[q]).name == s.types[q].name
                                && y.types[q].attributes == s.types[q].attributes
                                && same_except_layout(s.types[q].fields, y.types[q].fields) by {
                            if q == i {
                                assert(y.types[q] == s2.types[q]);
                                assert(s2.types[q].fields == ws);
                                assert(same_except_layout(s.types[i].fields, ws));
                            } else {
                                assert(s2.types[q] == s.types[q]);
                            }
                        }
                    },
                }
            },
        }
    }
}

/// Every struct field's reported-size walk reaches only structs declared
/// strictly before the field's own struct -- the shape the registry
/// produces, and in particular no by-value self reference.
pub open spec fn layout_refs_backward(s: SchemaV) -> bool {
    forall|i: int, j: int| 0 <= i < s.types.len() && 0 <= j < s.types[i].fields.len()
        ==> size_refs_below(s, (#[trigger] s.types[i].fields[j].type_data).kind,
            s.types[i].fields[j].type_data.index as int, i, ref_budget(s))
}

/// Re-aligning from step `i` a schema whose fold already finished changes
/// nothing more.
proof fn lemma_fold_idem_step(c: SchemaV, s2: SchemaV, i: int)
    requires
        wf_schema(c),
        layout_refs_backward(c),
        0 <= i <= c.types.len(),
        align_fold(c, i) == Some(s2),
        c.types.len() == s2.types.len(),
        c.enums == s2.enums,
        c.unions == s2.unions,
        c.arrays == s2.arrays,
        c.vectors == s2.vectors,
        c.pointers == s2.pointers,
        c.functions == s2.functions,
        forall|q: int| 0 <= q < i ==> #[trigger] c.types[q] == s2.types[q],
        forall|q: int| i <= q < c.types.len()
            ==> (#[trigger] c.types[q]).name == s2.types[q].name
                && c.types[q].attributes == s2.types[q].attributes
                && same_except_layout(c.types[q].fields, s2.types[q].fields),
    ensures
        align_fold(s2, i) == Some(s2),
    decreases c.types.len() - i,
{
    if i == c.types.len() {
        assert(s2 == (SchemaV { is_packed: false, ..c }));
        assert(align_fold(s2, i) == Some(SchemaV { is_packed: false, ..s2 }));
        assert((SchemaV { is_packed: false, ..s2 }) =~= s2);
    } else {
        match aligned_fields(c, c.types[i].fields, 0, 0) {
            None => {},
            Some(ws) => {
                lemma_aligned_tds(c, c.types[i].fields, 0, 0);
                let c2 = SchemaV {
                    types: c.types.update(i, DataTypeV { fields: ws, ..c.types[i] }),
                    ..c
                };
                lemma_fold_layout(c2, i + 1);
                assert(s2.types[i] == c2.types[i]);
                assert(s2.types[i].fields == ws);
                // the same walk against the finished schema
                assert(schema_same_tds(c, s2)) by {
                    assert forall|q: int| 0 <= q < c.types.len()
                        implies fields_same_tds(c.types[q].fields,
                            (#[trigger] s2.types[q]).fields) by {
                        if q < i {
                            assert(s2.types[q] == c.types[q]);
                        } else {
                            assert(same_except_layout(c.types[q].fields, s2.types[q].fields));
                        }
                    }
                }
                assert forall|m: int| 0 <= m < c.types[i].fields.len()
                    implies valid_td(c, (#[trigger] c.types[i].fields[m]).type_data)
                        && size_refs_below(c, c.types[i].fields[m].type_data.kind,
                            c.types[i].fields[m].type_data.index as int, i, ref_budget(c)) by {
                    assert(size_refs_below(c, c.types[i].fields[m].type_data.kind,
                        c.types[i].fields[m].type_data.index as int, i, ref_budget(c)));
                    if is_self_field(c.types[i].fields[m], i) {
                        // a self marker's walk cannot stay below its own struct
                        assert(ref_budget(c) >= 1);
                        assert(false);
                    }
                }
                assert forall|q: int| 0 <= q < i && q < c.types.len()
                    implies (#[trigger] s2.types[q]).fields == c.types[q].fields by {
                    assert(s2.types[q] == c.types[q]);
                }
                lemma_walk_transport(c, s2, c.types[i].fields, s2.types[i].fields, 0, 0, i);
                assert(aligned_fields(s2, s2.types[i].fields, 0, 0) == Some(ws));
                let s2b = SchemaV {
                    types: s2.types.update(i, DataTypeV { fields: ws, ..s2.types[i] }),
                    ..s2
                };
                assert((DataTypeV { fields: ws, ..s2.types[i] }) == s2.types[i]);
                assert(s2b =~= s2);
                assert(align_fold(s2, i) == align_fold(s2b, i + 1));
                // the rest of the fold, one struct further in
                assert(wf_schema(c2)) by {
                    assert(schema_same_tds(c, c2)) by {
                        assert forall|q: int| 0 <= q < c.types.len()
                            implies fields_same_tds(c.types[q].fields,
                                (#[trigger] c2.types[q]).fields) by {
                            if q == i {
                                assert(same_except_layout(c.types[i].fields, ws));
                            } else {
                                assert(c2.types[q] == c.types[q]);
                            }
                        }
                    }
                    lemma_wf_same_tds(c, c2);
                }
                assert(layout_refs_backward(c2)) by {
                    assert(ref_budget(c2) == ref_budget(c));
                    assert forall|q: int, m: int| 0 <= q < c2.types.len()
                        && 0 <= m < c2.types[q].fields.len()
                        implies size_refs_below(c2,
                            (#[trigger] c2.types[q].fields[m].type_data).kind,
                            c2.types[q].fields[m].type_data.index as int, q, ref_budget(c2)) by {
                        let td = if q == i {
                            c.types[q].fields[m].type_data
                        } else {
                            c.types[q].fields[m].type_data
                        };
                        if q == i {
                            assert(c2.types[q].fields[m].type_data
                                == c.types[q].fields[m].type_data);
                        } else {
                            assert(c2.types[q] == c.types[q]);
                        }
                        assert(c2.types[q].fields[m].type_data == td);
                        assert(size_refs_below(c, td.kind, td.index as int, q, ref_budget(c)));
                        lemma_size_refs_same_tds(c, c2, td.kind, td.index as int, q,
                            ref_budget(c));
                    }
                }
                assert forall|q: int| i + 1 <= q < c2.types.len()
                    implies (#[trigger] c2.types[q]).name == s2.types[q].name
                        && c2.types[q].attributes == s2.types[q].attributes
                        && same_except_layout(c2.types[q].fields, s2.types[q].fields) by {
                    assert(c2.types[q] == c.types[q]);
                }
                assert forall|q: int| 0 <= q < i + 1
                    implies #[trigger] c2.types[q] == s2.types[q] by {
                    if q < i {
                        assert(c2.types[q] == c.types[q]);
                    }
                }
                lemma_fold_idem_step(c2, s2, i + 1);
            },
        }
    }
}

/// The packing pass keeps the schema well-formed.
pub proof fn lemma_wf_pack(s: SchemaV)
    requires
        wf_schema(s),
    ensures
        wf_schema(spec_pack(s)),
{
    let sfinal = spec_pack(s);
    let s_sorted = SchemaV {
        types: Seq::new(s.types.len(), |j: int| DataTypeV {
            fields: sort_by_size(s.types[j].fields),
            ..s.types[j]
        }),
        ..s
    };
    assert(schema_rearranged(s, s_sorted)) by {
        assert forall|j: int| 0 <= j < s.types.len()
            implies fields_rearranged(s.types[j].fields,
                (#[trigger] s_sorted.types[j]).fields, j) by {
            lemma_sort_len_sums(s.types[j].fields, j);
            lemma_sort_origin(s.types[j].fields);
        }
    }
    lemma_wf_rearranged(s, s_sorted);
    assert(schema_same_tds(s_sorted, sfinal)) by {
        assert forall|j: int| 0 <= j < s_sorted.types.len()
            implies fields_same_tds(s_sorted.types[j].fields,
                (#[trigger] sfinal.types[j]).fields) by {
            let sf = sort_by_size(s.types[j].fields);
            assert(sfinal.types[j].fields == assign_packed(sf));
            assert forall|m: int| 0 <= m < sf.len()
                implies (#[trigger] assign_packed(sf)[m]).type_data == sf[m].type_data by {}
        }
    }
    lemma_wf_same_tds(s_sorted, sfinal);
}

/// Re-running the whole layout engine on its own output changes nothing:
/// the offsets, padding and field order come out identical. When the run
/// is the alignment pass alone, the schema's struct fields must refer only
/// to earlier structs and never by value to themselves -- the shape the
/// registry produces; a by-value self reference has no well-defined aligned
/// layout to be stable on.
#[verifier::rlimit(100)]
pub proof fn lemma_layout_idempotent(s: SchemaV, opts: SchemaOptimizations)
    requires
        wf_schema(s),
        opts.add_padding && !opts.data_type_layout ==> layout_refs_backward(s),
    ensures
        match spec_optimize(s, opts) {
            Some(s2) => spec_optimize(s2, opts) == Some(s2),
            None => true,
        },
{
    let s1 = if opts.data_type_layout { spec_pack(s) } else { s };
    if opts.data_type_layout {
        lemma_wf_pack(s);
    }
    assert(wf_schema(s1));
    if !opts.add_padding {
        if opts.data_type_layout {
            lemma_pack_idempotent(s);
            assert(spec_pack(s1) == s1);
        }
    } else {
        match align_fold(s1, 0) {
            None => {},
            Some(s2) => {
                lemma_fold_layout(s1, 0);
                if opts.data_type_layout {
                    // packing the aligned result restores the packed schema
                    assert forall|i: int| 0 <= i < s1.types.len()
                        implies #[trigger] spec_pack(s2).types[i] == s1.types[i] by {
                        let fi = s.types[i].fields;
                        let pf = pack_fields(fi);
                        assert(s1.types[i].fields == pf);
                        let w = s2.types[i].fields;
                        assert(same_except_layout(pf, w));
                        lemma_packed_sorted(fi);
                        assert(sorted_by_size(w)) by {
                            assert forall|j1: int, j2: int| 0 <= j1 <= j2 < w.len()
                                implies (#[trigger] w[j1]).type_data.size
                                    <= (#[trigger] w[j2]).type_data.size by {
                                assert(w[j1].type_data == pf[j1].type_data);
                                assert(w[j2].type_data == pf[j2].type_data);
                            }
                        }
                        lemma_sort_of_sorted(w);
                        let sorted = sort_by_size(fi);
                        lemma_pack_fields_idempotent(fi);
                        assert(same_except_layout(sorted, pf)) by {
                            lemma_sort_len_sums(fi, 0);
                            assert forall|m: int| 0 <= m < sorted.len()
                                implies #[trigger] pf[m] == (FieldV {
                                    offset: pf[m].offset,
                                    padding_size: pf[m].padding_size,
                                    ..sorted[m]
                                }) by {}
                        }
                        assert(same_except_layout(sorted, w)) by {
                            assert forall|m: int| 0 <= m < sorted.len()
                                implies #[trigger] w[m] == (FieldV {
                                    offset: w[m].offset,
                                    padding_size: w[m].padding_size,
                                    ..sorted[m]
                                }) by {
                                assert(w[m] == (FieldV {
                                    offset: w[m].offset,
                                    padding_size: w[m].padding_size,
                                    ..pf[m]
                                }));
                                assert(pf[m] == (FieldV {
                                    offset: pf[m].offset,
                                    padding_size: pf[m].padding_size,
                                    ..sorted[m]
                                }));
                            }
                        }
                        lemma_assign_layout(sorted, w);
                        assert(pack_fields(w) == assign_packed(w));
                        assert(assign_packed(w) == assign_packed(sorted));
                        assert(spec_pack(s2).types[i].fields == pf);
                        assert(s2.types[i].name == s1.types[i].name);
                        assert(s2.types[i].attributes == s1.types[i].attributes);
                    }
                    assert(spec_pack(s2) =~= s1);
                    assert(spec_align_pass(spec_pack(s2)) == Some(s2));
                } else {
                    // re-aligning the aligned result re-derives every offset
                    assert forall|q: int| 0 <= q < s.types.len()
                        implies #[trigger] s.types[q] == s.types[q] by {}
                    lemma_fold_idem_step(s, s2, 0);
                }
            },
        }
    }
}

} // verus!
