//! End-to-end checks of the pipeline: definition text through the parser,
//! the registry and the layout engine.

use binterop::generator::{generate_schema, GenError};
use binterop::optimization::{optimize_schema, SchemaOptimizations};
use binterop::primitives::Primitives;
use binterop::schema::Schema;
use binterop::tokenizer::{SourceFile, Token, Tokenizer};
use binterop::types::{EnumType, PointerType, Type, VectorType, FunctionType};
use binterop::vector::Vector;

fn build(text: &str) -> Schema {
    let includes: Vec<SourceFile> = Vec::new();
    let tokenizer = Tokenizer::new(None, text, &includes);
    assert!(tokenizer.error.is_none(), "parse failed");
    generate_schema(&tokenizer.tokens).expect("generation failed")
}

fn build_with(text: &str, opts: SchemaOptimizations) -> Schema {
    let mut schema = build(text);
    optimize_schema(&mut schema, opts).expect("layout failed");
    schema
}

#[test]
fn inline() {
    let first = Tokenizer::new(
        Some("struct"),
        "struct SomeOtherType {
            a: f64
        }

        struct Test {
            a: [u8:69],
            b: u32
        }

        struct SomeStruct {
            some_uint: u16,
            some_int: i64,
            some_bool: bool,
            some_float: f32,
            some_pointer: SomeOtherType*,
            some_float_array: [f32:10],
            some_other_type: SomeOtherType,
            some_other_type_array: [SomeOtherType:3],
            some_other_type_vector: <SomeOtherType>,
        }",
        &Vec::new(),
    );
    assert!(first.error.is_none());
    let mut schema = generate_schema(&first.tokens).unwrap();
    optimize_schema(&mut schema, SchemaOptimizations::new(true, true)).unwrap();
    assert_eq!(schema.types.len(), 3);

    let some_other_type_a: f64 = 13.37;
    let test_a: [u8; 69] = [128; 69];
    let test_b: u32 = 1337;
    assert_eq!(
        schema.type_size(Type::Data, 0).unwrap(),
        core::mem::size_of_val(&some_other_type_a)
    );
    assert_eq!(
        schema.type_size(Type::Data, 1).unwrap(),
        core::mem::size_of_val(&test_a) + core::mem::size_of_val(&test_b)
    );

    let second = Tokenizer::new(
        Some("recursive"),
        "struct Recursive {
            depth: u32,
            recursive: Recursive
        }",
        &Vec::new(),
    );
    assert!(second.error.is_none());
    let mut rec_schema = generate_schema(&second.tokens).unwrap();
    optimize_schema(&mut rec_schema, SchemaOptimizations::new(true, true)).unwrap();
    // the non-self bytes, once more for the one self-referential field
    assert_eq!(rec_schema.type_size(Type::Data, 0).unwrap(), 8);
}

#[test]
fn aligned_v3() {
    let schema = build_with(
        "struct V3 { x: f32, y: f32, z: f32 }",
        SchemaOptimizations::new(false, true),
    );
    assert_eq!(schema.type_size(Type::Data, 0), Some(12));
    assert_eq!(schema.type_align(Type::Data, 0), Some(4));
    let fields = &schema.types[0].fields;
    assert_eq!(fields[0].offset, 0);
    assert_eq!(fields[1].offset, 4);
    assert_eq!(fields[2].offset, 8);
    assert!(!schema.is_packed);
}

#[test]
fn packed_mixed() {
    let schema = build_with(
        "struct Mixed { a: bool, b: u64, c: u8 }",
        SchemaOptimizations::new(true, false),
    );
    let fields = &schema.types[0].fields;
    // stable sort by ascending size: the two one-byte fields keep their order
    assert_eq!(fields[0].name, "a");
    assert_eq!(fields[1].name, "c");
    assert_eq!(fields[2].name, "b");
    assert_eq!(fields[0].offset, 0);
    assert_eq!(fields[1].offset, 1);
    assert_eq!(fields[2].offset, 2);
    assert_eq!(fields[0].padding_size, 0);
    assert_eq!(fields[1].padding_size, 0);
    assert_eq!(fields[2].padding_size, 0);
    assert_eq!(schema.type_size(Type::Data, 0), Some(10));
    assert!(schema.is_packed);
}

#[test]
fn union_discriminant_and_size() {
    let schema = build(
        "struct A { x: i32 }
         struct B { x: f32, y: f32, z: f32 }
         union U { A, B }",
    );
    // four discriminant bytes plus the largest member
    assert_eq!(schema.type_size(Type::Union, 0), Some(16));
    assert_eq!(schema.type_align(Type::Union, 0), Some(4));
    assert_eq!(schema.unions[0].possible_types.len(), 2);
}

#[test]
fn enum_declaration_order() {
    let schema = build("enum Color { Red, Green, Blue }");
    assert_eq!(schema.type_size(Type::Enum, 0), Some(4));
    assert_eq!(schema.type_align(Type::Enum, 0), Some(4));
    let variants = &schema.enums[0].variants;
    assert_eq!(variants[0], "Red");
    assert_eq!(variants[1], "Green");
    assert_eq!(variants[2], "Blue");
    assert_eq!(EnumType::size(), 4);
    assert_eq!(EnumType::align(), 4);
}

#[test]
fn unknown_type_lists_candidates() {
    let includes: Vec<SourceFile> = Vec::new();
    let tokenizer = Tokenizer::new(
        None,
        "struct Bar { x: u8 }
         enum E { A }
         struct S { f: Foo }",
        &includes,
    );
    assert!(tokenizer.error.is_none());
    match generate_schema(&tokenizer.tokens) {
        Err(GenError::UnknownType {
            name,
            known_types,
            known_enums,
            known_unions,
            known_functions,
        }) => {
            assert_eq!(name, "Foo");
            assert_eq!(known_types, vec!["Bar".to_string()]);
            assert_eq!(known_enums, vec!["E".to_string()]);
            assert!(known_unions.is_empty());
            assert!(known_functions.is_empty());
        }
        other => panic!("expected an unknown-type error, got {:?}", other.is_ok()),
    }
}

#[test]
fn include_error_names_included_file() {
    let includes = vec![SourceFile::new("a.def").contents("struct {".to_string())];
    let tokenizer = Tokenizer::new(Some("root.def"), "include \"a.def\"", &includes);
    let err = tokenizer.error.expect("the inner parse error must surface");
    assert_eq!(err.file, "a.def");
}

#[test]
fn include_splices_declarations() {
    let includes = vec![SourceFile::new("defs/a.def")
        .contents("struct P { x: u16 }".to_string())];
    let tokenizer = Tokenizer::new(
        Some("defs/root.def"),
        "include \"a.def\"
         struct Q { p: P }",
        &Vec::from(includes),
    );
    assert!(tokenizer.error.is_none());
    let schema = generate_schema(&tokenizer.tokens).unwrap();
    assert_eq!(schema.types.len(), 2);
    assert_eq!(schema.types[0].name, "P");
    assert_eq!(schema.types[1].name, "Q");
    assert_eq!(schema.type_size(Type::Data, 1), Some(2));
}

#[test]
fn cyclic_include_is_refused() {
    let includes = vec![SourceFile::new("a.def").contents("include \"a.def\"".to_string())];
    let tokenizer = Tokenizer::new(Some("root.def"), "include \"a.def\"", &includes);
    let err = tokenizer.error.expect("a cyclic include must fail");
    assert_eq!(err.file, "a.def");
}

#[test]
fn composite_shapes_are_interned() {
    let schema = build(
        "struct S1 { a: [u8:4] }
         struct S2 { b: [u8:4], c: [u8:5], d: <i32>, e: <i32>, f: u8* }",
    );
    // [u8:4] is resolved twice but interned once; [u8:5] differs
    assert_eq!(schema.arrays.len(), 2);
    assert_eq!(schema.vectors.len(), 1);
    assert_eq!(schema.pointers.len(), 1);
    let s1a = schema.types[0].fields[0].type_data;
    let s2b = schema.types[1].fields[0].type_data;
    let s2c = schema.types[1].fields[1].type_data;
    assert_eq!(s1a.index, s2b.index);
    assert_ne!(s2b.index, s2c.index);
    assert_eq!(schema.type_size(Type::Array, s2c.index), Some(5));
}

#[test]
fn layout_runs_are_idempotent() {
    let text = "struct A { a: bool, b: u64, c: u16, d: <u8>, e: [u32:3] }
                struct B { x: A, y: u8 }";
    let configurations = [
        SchemaOptimizations::new(true, true),
        SchemaOptimizations::new(true, false),
        SchemaOptimizations::new(false, true),
    ];
    for opts in configurations {
        let once = build_with(text, opts);
        let mut twice = build_with(text, opts);
        optimize_schema(&mut twice, opts).unwrap();
        for (i, dt) in once.types.iter().enumerate() {
            for (j, f) in dt.fields.iter().enumerate() {
                assert_eq!(f.offset, twice.types[i].fields[j].offset);
                assert_eq!(f.padding_size, twice.types[i].fields[j].padding_size);
                assert_eq!(f.name, twice.types[i].fields[j].name);
            }
            assert_eq!(
                once.type_size(Type::Data, i),
                twice.type_size(Type::Data, i)
            );
        }
    }
}

#[test]
fn empty_union_is_refused() {
    let includes: Vec<SourceFile> = Vec::new();
    let tokenizer = Tokenizer::new(None, "union U { }", &includes);
    assert!(tokenizer.error.is_none());
    match generate_schema(&tokenizer.tokens) {
        Err(GenError::EmptyUnion { name }) => assert_eq!(name, "U"),
        _ => panic!("a union with no members must be refused"),
    }
}

#[test]
fn functions_and_self_references() {
    let schema = build(
        "struct Node { value: i64, next: Node* }
         fn callback(input: <u8>, handler: callback) -> i32",
    );
    assert_eq!(schema.functions.len(), 1);
    assert_eq!(schema.functions[0].name, "callback");
    assert_eq!(schema.functions[0].args.len(), 2);
    assert_eq!(schema.type_size(Type::Function, 0), Some(8));
    // a pointer to the struct itself: one machine word
    assert_eq!(schema.type_size(Type::Data, 0), Some(16));
    assert_eq!(FunctionType::size(), 8);
}

#[test]
fn string_and_vector_sentinels() {
    let schema = build("struct S { name: String, bytes: <u8> }");
    let name_td = schema.types[0].fields[0].type_data;
    assert_eq!(name_td.kind, Type::String);
    assert_eq!(name_td.index, 0);
    assert_eq!(name_td.size, 24);
    assert!(!name_td.is_copy);
    assert_eq!(schema.type_size(Type::Data, 0), Some(48));
    assert_eq!(VectorType::size(), 24);
    assert!(!VectorType::is_copy());
    assert_eq!(PointerType::size(), 8);
}

#[test]
fn attributes_are_carried() {
    let schema = build("@[repr=\"C\", doc=\"three floats\"] struct V { x: u32 }");
    assert_eq!(schema.types[0].attributes.len(), 2);
    assert_eq!(schema.types[0].attributes[0].0, "repr");
    assert_eq!(schema.types[0].attributes[0].1, "C");
    assert_eq!(schema.types[0].attributes[1].1, "three floats");
}

#[test]
fn primitive_catalog() {
    let prims = Primitives::new();
    assert_eq!(prims.index_of("bool"), Some(0));
    assert_eq!(prims.index_of("u64"), Some(8));
    assert_eq!(prims.index_of("f64"), Some(10));
    assert_eq!(prims.index_of("void"), None);
    assert_eq!(prims.name_of(8).unwrap(), "u64");
    let p = prims.index(7).unwrap();
    assert_eq!(p.name, "i64");
    assert_eq!(p.size, 8);
    assert_eq!(p.align, 8);
    assert_eq!(prims.names().len(), 11);
    assert_eq!(prims.types().len(), 11);
}

#[test]
fn schema_append_concatenates() {
    let mut a = build("struct A { x: u8 }");
    let mut b = build("struct B { y: u16 } enum E { V }");
    b.is_packed = true;
    a.append(&mut b);
    assert!(a.is_packed);
    assert_eq!(a.types.len(), 2);
    assert_eq!(a.enums.len(), 1);
    assert_eq!(b.types.len(), 0);
}

#[test]
fn runtime_vector_push_pop() {
    let mut v: Vector<u64> = Vector::new();
    assert_eq!(v.length(), 0);
    v.push(13);
    v.push(128);
    v.push(1337);
    assert_eq!(v.length(), 3);
    assert_eq!(v.as_slice(), &[13, 128, 1337]);
    assert_eq!(v.pop(), Some(1337));
    assert_eq!(v.pop(), Some(128));
    assert_eq!(v.pop(), Some(13));
    assert_eq!(v.pop(), None);
    let mut w: Vector<u8> = Vector::with_capacity(4);
    w.update_from_vec(vec![1, 2, 3]);
    assert_eq!(w.length(), 3);
}

#[test]
fn number_too_large_is_a_parse_error() {
    let includes: Vec<SourceFile> = Vec::new();
    let tokenizer = Tokenizer::new(
        None,
        "struct S { a: [u8:99999999999999999999999999] }",
        &includes,
    );
    assert!(tokenizer.error.is_some());
}

#[test]
fn tokens_of_a_failed_parse_are_withheld() {
    let includes: Vec<SourceFile> = Vec::new();
    let good = Tokenizer::new(None, "enum E { A, B }", &includes);
    assert!(good.tokens().is_some());
    let bad = Tokenizer::new(None, "struct {", &includes);
    assert!(bad.tokens().is_none());
    match &bad.tokens {
        toks => assert!(toks.is_empty()),
    }
}

#[test]
fn declarations_parse_in_order() {
    let includes: Vec<SourceFile> = Vec::new();
    let tokenizer = Tokenizer::new(
        None,
        "enum E { A } struct S { e: E } union U { S }",
        &includes,
    );
    assert!(tokenizer.error.is_none());
    let toks = tokenizer.tokens;
    assert_eq!(toks.len(), 3);
    assert!(matches!(&toks[0], Token::Enum(_, name, _) if name == "E"));
    assert!(matches!(&toks[1], Token::Struct(_, name, _) if name == "S"));
    assert!(matches!(&toks[2], Token::Union(_, name, _) if name == "U"));
}

#[test]
fn textual_type_lookup() {
    let mut schema = build("struct A { x: u32 }");
    let td = schema.type_data_by_name("[A:4]").unwrap();
    assert_eq!(td.kind, Type::Array);
    assert_eq!(td.size, 16);
    let td2 = schema.type_data_by_name("[A:4]").unwrap();
    assert_eq!(td.index, td2.index);
    assert_eq!(schema.arrays.len(), 1);
    let p = schema.type_data_by_name("u8*").unwrap();
    assert_eq!(p.kind, Type::Pointer);
    assert_eq!(p.size, 8);
    match schema.type_data_by_name("Missing") {
        Err(GenError::UnknownType { name, known_types, .. }) => {
            assert_eq!(name, "Missing");
            assert_eq!(known_types, vec!["A".to_string()]);
        }
        _ => panic!("an unknown name must carry the diagnosis"),
    }
    assert!(schema.type_data_by_name("A junk").is_err());
    let s = schema.type_data_by_name("String").unwrap();
    assert_eq!(s.kind, Type::String);
    assert_eq!(s.size, 24);
}

#[test]
fn aligned_size_counts_padding() {
    let schema = build_with(
        "struct P { a: u8, b: u32 }",
        SchemaOptimizations::new(false, true),
    );
    let fields = &schema.types[0].fields;
    assert_eq!(fields[0].offset, 0);
    assert_eq!(fields[1].offset, 4);
    assert_eq!(fields[1].padding_size, 3);
    // the struct's size is the sum of field sizes plus recorded padding
    assert_eq!(schema.type_size(Type::Data, 0), Some(8));

    // a later struct's walk advances by that padded size
    let nested = build_with(
        "struct In { a: u8, b: u32 } struct Out { x: In, y: u8 }",
        SchemaOptimizations::new(false, true),
    );
    let out_fields = &nested.types[1].fields;
    assert_eq!(out_fields[0].offset, 0);
    assert_eq!(out_fields[1].offset, 8);
    assert_eq!(nested.type_size(Type::Data, 1), Some(9));
}

#[test]
fn generation_error_names_included_file() {
    let includes =
        vec![SourceFile::new("a.def").contents("struct S { f: Foo }".to_string())];
    let tokenizer = Tokenizer::new(Some("root.def"), "include \"a.def\"", &includes);
    assert!(tokenizer.error.is_none());
    match generate_schema(&tokenizer.tokens) {
        Err(GenError::Include { path, cause }) => {
            assert_eq!(path, "a.def");
            assert!(matches!(*cause, GenError::UnknownType { .. }));
        }
        _ => panic!("the failure must be attributed to the included file"),
    }
}

#[test]
fn composite_names_render_on_demand() {
    let mut schema = build(
        "struct V3 { x: f32, y: f32, z: f32 }
         struct Node { next: Node* }
         struct S { a: [V3:4], b: <u8>, c: V3** }",
    );
    let a = schema.types[2].fields[0].type_data;
    let b = schema.types[2].fields[1].type_data;
    let c = schema.types[2].fields[2].type_data;
    assert_eq!(schema.name_of(a.kind, a.index).unwrap(), "[V3:4]");
    assert_eq!(schema.name_of(b.kind, b.index).unwrap(), "<u8>");
    assert_eq!(schema.name_of(c.kind, c.index).unwrap(), "V3**");
    assert_eq!(schema.name_of(Type::Data, 0).unwrap(), "V3");
    assert_eq!(schema.name_of(Type::Primitive, 8).unwrap(), "u64");
    assert_eq!(schema.name_of(Type::String, 0).unwrap(), "String");
    assert_eq!(schema.name_of(Type::Data, 9), None);
    // a pointer interned while its target was still being defined
    let nested = schema.type_data_by_name("[[u16:2]:3]").unwrap();
    assert_eq!(schema.name_of(nested.kind, nested.index).unwrap(), "[[u16:2]:3]");
    let self_ptr = schema.types[1].fields[0].type_data;
    assert_eq!(schema.name_of(self_ptr.kind, self_ptr.index).unwrap(), "Node*");
}
