//! The primitive catalog: a fixed, ordered table of scalar types (boolean
//! and sized integers/floats) with name, size and alignment. It is the base
//! case for all type resolution.

use vstd::prelude::*;

verus! {

/// One scalar type of the catalog.
#[derive(Clone, Debug)]
pub struct PrimitiveType {
    pub name: String,
    pub size: usize,
    pub align: usize,
}

/// How many scalar types the catalog holds.
pub open spec fn primitive_count() -> nat {
    11
}

/// The name of the catalog entry at `i`, in catalog order.
pub open spec fn spec_primitive_name(i: int) -> Seq<char> {
    if i == 0 { "bool"@ }
    else if i == 1 { "i8"@ }
    else if i == 2 { "u8"@ }
    else if i == 3 { "i16"@ }
    else if i == 4 { "u16"@ }
    else if i == 5 { "i32"@ }
    else if i == 6 { "u32"@ }
    else if i == 7 { "i64"@ }
    else if i == 8 { "u64"@ }
    else if i == 9 { "f32"@ }
    else { "f64"@ }
}

/// The size in bytes of the catalog entry at `i`.
pub open spec fn spec_primitive_size(i: int) -> nat {
    if i == 0 { 1 } else if i == 1 { 1 } else if i == 2 { 1 }
    else if i == 3 { 2 } else if i == 4 { 2 }
    else if i == 5 { 4 } else if i == 6 { 4 }
    else if i == 7 { 8 } else if i == 8 { 8 }
    else if i == 9 { 4 } else { 8 }
}

/// Every scalar of the catalog is naturally aligned to its own size.
pub open spec fn spec_primitive_align(i: int) -> nat {
    spec_primitive_size(i)
}

/// The index of the catalog entry named `name`, if any.
pub open spec fn spec_primitive_index_of(name: Seq<char>) -> Option<usize> {
    if name == spec_primitive_name(0) { Some(0usize) }
    else if name == spec_primitive_name(1) { Some(1usize) }
    else if name == spec_primitive_name(2) { Some(2usize) }
    else if name == spec_primitive_name(3) { Some(3usize) }
    else if name == spec_primitive_name(4) { Some(4usize) }
    else if name == spec_primitive_name(5) { Some(5usize) }
    else if name == spec_primitive_name(6) { Some(6usize) }
    else if name == spec_primitive_name(7) { Some(7usize) }
    else if name == spec_primitive_name(8) { Some(8usize) }
    else if name == spec_primitive_name(9) { Some(9usize) }
    else if name == spec_primitive_name(10) { Some(10usize) }
    else { None }
}

/// The primitive catalog. It carries no state of its own; every query is a
/// pure function of the fixed table above.
pub struct Primitives {
}

impl Primitives {
    pub fn new() -> (r: Self)
        ensures
            r == (Primitives {}),
    {
        Primitives {}
    }

    /// The entry at `index`, or `None` past the end of the catalog.
    pub fn index(&self, index: usize) -> (r: Option<PrimitiveType>)
        ensures
            match r {
                Some(p) => index < primitive_count()
                    && p.name@ == spec_primitive_name(index as int)
                    && p.size == spec_primitive_size(index as int)
                    && p.align == spec_primitive_align(index as int),
                None => index >= primitive_count(),
            },
    {
        let name: &'static str = match index {
            0 => "bool",
            1 => "i8",
            2 => "u8",
            3 => "i16",
            4 => "u16",
            5 => "i32",
            6 => "u32",
            7 => "i64",
            8 => "u64",
            9 => "f32",
            10 => "f64",
            _ => { return None; },
        };
        let size: usize = match index {
            0 => 1, 1 => 1, 2 => 1,
            3 => 2, 4 => 2,
            5 => 4, 6 => 4,
            7 => 8, 8 => 8,
            9 => 4,
            _ => 8,
        };
        Some(PrimitiveType { name: name.to_owned(), size, align: size })
    }

    /// The index of the entry named `name`, or `None` when `name` is not a
    /// primitive.
    pub fn index_of(&self, name: &str) -> (r: Option<usize>)
        ensures
            r == spec_primitive_index_of(name@),
    {
        proof {
            reveal_strlit("bool");
            reveal_strlit("i8");
            reveal_strlit("u8");
            reveal_strlit("i16");
            reveal_strlit("u16");
            reveal_strlit("i32");
            reveal_strlit("u32");
            reveal_strlit("i64");
            reveal_strlit("u64");
            reveal_strlit("f32");
            reveal_strlit("f64");
        }
        let mut i: usize = 0;
        while i < 11
            invariant
                i <= 11,
                forall|j: int| 0 <= j < i ==> name@ != spec_primitive_name(j),
            decreases 11 - i,
        {
            let candidate = self.index(i).unwrap();
            if str_eq(candidate.name.as_str(), name) {
                return Some(i);
            }
            i = i + 1;
        }
        None
    }

    /// The name of the entry at `index`, or `None` past the end.
    pub fn name_of(&self, index: usize) -> (r: Option<String>)
        ensures
            match r {
                Some(n) => index < primitive_count() && n@ == spec_primitive_name(index as int),
                None => index >= primitive_count(),
            },
    {
        match self.index(index) {
            Some(p) => Some(p.name),
            None => None,
        }
    }

    /// All catalog names, in catalog order.
    pub fn names(&self) -> (r: Vec<String>)
        ensures
            r@.len() == primitive_count(),
            forall|i: int| 0 <= i < r@.len() ==> r@[i]@ == spec_primitive_name(i),
    {
        let mut out: Vec<String> = Vec::new();
        let mut i: usize = 0;
        while i < 11
            invariant
                i <= 11,
                out@.len() == i,
                forall|j: int| 0 <= j < i ==> out@[j]@ == spec_primitive_name(j),
            decreases 11 - i,
        {
            out.push(self.index(i).unwrap().name);
            i = i + 1;
        }
        out
    }

    /// All catalog entries, in catalog order.
    pub fn types(&self) -> (r: Vec<PrimitiveType>)
        ensures
            r@.len() == primitive_count(),
            forall|i: int| 0 <= i < r@.len() ==> r@[i].name@ == spec_primitive_name(i)
                && r@[i].size == spec_primitive_size(i)
                && r@[i].align == spec_primitive_align(i),
    {
        let mut out: Vec<PrimitiveType> = Vec::new();
        let mut i: usize = 0;
        while i < 11
            invariant
                i <= 11,
                out@.len() == i,
                forall|j: int| 0 <= j < i ==> out@[j].name@ == spec_primitive_name(j)
                    && out@[j].size == spec_primitive_size(j)
                    && out@[j].align == spec_primitive_align(j),
            decreases 11 - i,
        {
            out.push(self.index(i).unwrap());
            i = i + 1;
        }
        out
    }
}

/// Character-for-character equality of two string slices.
pub fn str_eq(a: &str, b: &str) -> (r: bool)
    ensures
        r == (a@ == b@),
{
    let a_len = a.unicode_len();
    let b_len = b.unicode_len();
    if a_len != b_len {
        proof {
            assert(a@ != b@) by {
                if a@ == b@ {
                    assert(a@.len() == b@.len());
                }
            }
        }
        return false;
    }
    let mut i: usize = 0;
    while i < a_len
        invariant
            i <= a_len,
            a_len == a@.len(),
            b_len == b@.len(),
            a_len == b_len,
            forall|j: int| 0 <= j < i ==> a@[j] == b@[j],
        decreases a_len - i,
    {
        if a.get_char(i) != b.get_char(i) {
            return false;
        }
        i = i + 1;
    }
    proof {
        assert(a@ =~= b@);
    }
    true
}

} // verus!
