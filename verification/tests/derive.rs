//! Types laid out the way deriving `SpRead`/`SpWrite` lays them out, read and written field
//! by field with the hints and ids that the derive rules compute.
use simple_parse::derive_rules::{
    get_enum_id_type, enum_hints, len_field_links, struct_hints, variant_for_id, variant_ids,
};
use simple_parse::count::SpCountField;
use simple_parse::derive_plan::{
    enum_read_plan, enum_write_plan, fields_read_plan, fields_write_plan, FieldDecl, ReadStep, VariantDecl,
    WriteStep,
};
use simple_parse::{SpCtx, SpError, SpRead, SpReader, SpWrite};

#[derive(Debug, PartialEq)]
struct StaticStruct {
    v1: u32,
    v2: u8,
    v3: u128,
    v4: f32,
}

fn static_struct_size() -> usize {
    let (is_var, size) = struct_hints(&vec![4, 1, 16, 4], &vec![false, false, false, false]);
    assert!(!is_var);
    size
}

fn read_static_struct(src: &mut SpReader, ctx: &mut SpCtx) -> Result<StaticStruct, SpError> {
    ctx.is_little_endian = true;
    let v1 = u32::inner_from_reader(src, ctx)?;
    let v2 = u8::inner_from_reader(src, ctx)?;
    let v3 = u128::inner_from_reader(src, ctx)?;
    let v4 = f32::from_bits(u32::inner_from_reader(src, ctx)?);
    Ok(StaticStruct { v1, v2, v3, v4 })
}

fn write_static_struct(v: &StaticStruct, ctx: &mut SpCtx, dst: &mut Vec<u8>) -> Result<usize, SpError> {
    let mut written_len = 0;
    ctx.is_little_endian = true;
    written_len += v.v1.inner_to_writer(ctx, dst)?;
    written_len += v.v2.inner_to_writer(ctx, dst)?;
    written_len += v.v3.inner_to_writer(ctx, dst)?;
    written_len += v.v4.to_bits().inner_to_writer(ctx, dst)?;
    Ok(written_len)
}

#[derive(Debug, PartialEq)]
enum Nested {
    Nest(StaticStruct),
}

fn nested_ids() -> Vec<usize> {
    variant_ids(&vec![Some(123)])
}

fn read_nested(src: &mut SpReader, ctx: &mut SpCtx) -> Result<Nested, SpError> {
    assert_eq!(get_enum_id_type(&vec![Some(123)], None).unwrap(), "u8");
    let id = u8::inner_from_reader(src, ctx)?;
    match variant_for_id(&nested_ids(), id as u128)? {
        0 => Ok(Nested::Nest(read_static_struct(src, ctx)?)),
        _ => Err(SpError::UnknownEnumVariant),
    }
}

fn write_nested(v: &Nested, ctx: &mut SpCtx, dst: &mut Vec<u8>) -> Result<usize, SpError> {
    let mut written_len = 0;
    match v {
        Nested::Nest(s) => {
            let var_id: u8 = nested_ids()[0] as u8;
            ctx.is_little_endian = true;
            written_len += var_id.inner_to_writer(ctx, dst)?;
            written_len += write_static_struct(s, ctx, dst)?;
        }
    }
    Ok(written_len)
}

fn nested_size() -> usize {
    let (is_var, size) = enum_hints(1, &vec![static_struct_size()], &vec![false]);
    assert!(!is_var);
    size
}

#[test]
fn derive_static() {
    let bytes: &[u8] = &[
        1, 0, 0, 0, //
        2, //
        3, 0, 0, 0, 0, 0, 0, 0, 0, 0, 0, 0, 0, 0, 0, 0, //
        0, 0, 0, 0,
    ];

    // Try to parse with 1 byte missing
    assert!(read_static_struct(&mut SpReader::new(&bytes[..bytes.len() - 1]), &mut SpCtx::default()).is_err());

    let mut ctx = SpCtx::default();
    // Make sure every field is parsed properly
    let v = read_static_struct(&mut SpReader::new(bytes), &mut ctx).unwrap();
    assert_eq!(v, StaticStruct { v1: 1, v2: 2, v3: 3, v4: 0.0 });
    assert_eq!(ctx.cursor, static_struct_size(), "ctx.cursor was not advanced properly while reading");

    // Convert the struct back to bytes
    ctx.is_reading = false;
    ctx.cursor = 0;
    let mut dst = Vec::new();
    write_static_struct(&v, &mut ctx, &mut dst).unwrap();
    assert_eq!(&dst, bytes);
    assert_eq!(ctx.cursor, static_struct_size(), "ctx.cursor was not advanced properly while writing");

    let bytes: &[u8] = &[
        123, //
        1, 0, 0, 0, //
        2, //
        3, 0, 0, 0, 0, 0, 0, 0, 0, 0, 0, 0, 0, 0, 0, 0, //
        0, 0, 0, 0,
    ];

    // Try to parse with 1 byte missing
    assert!(read_nested(&mut SpReader::new(&bytes[..bytes.len() - 1]), &mut SpCtx::default()).is_err());

    let mut ctx = SpCtx::default();
    // Make sure every field is parsed properly
    let v = read_nested(&mut SpReader::new(bytes), &mut ctx).unwrap();
    assert_eq!(v, Nested::Nest(StaticStruct { v1: 1, v2: 2, v3: 3, v4: 0.0 }));
    assert_eq!(ctx.cursor, nested_size(), "ctx.cursor was not advanced properly while reading");

    // Convert the struct back to bytes
    ctx.is_reading = false;
    ctx.cursor = 0;
    let mut dst = Vec::new();
    write_nested(&v, &mut ctx, &mut dst).unwrap();
    assert_eq!(&dst, bytes);
    assert_eq!(ctx.cursor, nested_size(), "ctx.cursor was not advanced properly while writing");
}

#[derive(Debug, PartialEq)]
struct BasicVar {
    v1: u32,
    v2: Vec<u8>,
}

fn basic_var_size() -> usize {
    let (is_var, size) = struct_hints(&vec![4, 4], &vec![false, true]);
    assert!(is_var);
    size
}

#[test]
fn derive_var_size() {
    let bytes: &[u8] = &[
        1, 0, 0, 0, //
        5, 0, 0, 0, //
        1, 2, 3, 4, 5,
    ];

    let read = |src: &mut SpReader, ctx: &mut SpCtx| -> Result<BasicVar, SpError> {
        ctx.is_little_endian = true;
        let v1 = u32::inner_from_reader(src, ctx)?;
        let v2 = <Vec<u8>>::inner_from_reader(src, ctx)?;
        Ok(BasicVar { v1, v2 })
    };

    // Try to parse with 1 byte missing
    assert!(read(&mut SpReader::new(&bytes[..bytes.len() - 1]), &mut SpCtx::default()).is_err());

    let mut ctx = SpCtx::default();
    // Make sure every field is parsed properly
    let v = read(&mut SpReader::new(bytes), &mut ctx).unwrap();
    assert_eq!(v, BasicVar { v1: 1, v2: vec![1, 2, 3, 4, 5] });
    assert_eq!(ctx.cursor, basic_var_size() + 5, "ctx.cursor was not advanced properly while reading");

    // Convert the struct back to bytes
    ctx.is_reading = false;
    ctx.cursor = 0;
    let mut dst = Vec::new();
    ctx.is_little_endian = true;
    v.v1.inner_to_writer(&mut ctx, &mut dst).unwrap();
    v.v2.inner_to_writer(&mut ctx, &mut dst).unwrap();
    assert_eq!(&dst, bytes);
    assert_eq!(ctx.cursor, basic_var_size() + 5, "ctx.cursor was not advanced properly while writing");
}

#[derive(Debug, PartialEq)]
struct CustomLenVar {
    v1: u32,
    v2: u16,
    v3: Vec<u8>,
}

/// `v3` takes its number of items from `v1`, so no count of its own is part of the fixed size.
fn custom_len_var_size() -> usize {
    let (is_var, size) = struct_hints(&vec![4, 2, 0], &vec![false, false, true]);
    assert!(is_var);
    size
}

#[test]
fn derive_var_size_custom_len() {
    let bytes: &[u8] = &[
        5, 0, 0, 0, //
        1, 0, //
        1, 2, 3, 4, 5,
    ];

    let names = vec!["v1".to_string(), "v2".to_string(), "v3".to_string()];
    let links = len_field_links(&names, &vec![None, None, Some("v1".to_string())]);
    assert_eq!(links, vec![None, None, Some(0)]);

    let read = |src: &mut SpReader, ctx: &mut SpCtx| -> Result<CustomLenVar, SpError> {
        ctx.is_little_endian = true;
        let v1 = u32::inner_from_reader(src, ctx)?;
        let v2 = u16::inner_from_reader(src, ctx)?;
        ctx.len = Some(v1.to_len());
        let v3 = <Vec<u8>>::inner_from_reader(src, ctx)?;
        Ok(CustomLenVar { v1, v2, v3 })
    };

    // Try to parse with 1 byte missing
    assert!(read(&mut SpReader::new(&bytes[..bytes.len() - 1]), &mut SpCtx::default()).is_err());

    let mut ctx = SpCtx::default();
    // Make sure every field is parsed properly
    let v = read(&mut SpReader::new(bytes), &mut ctx).unwrap();
    assert_eq!(v, CustomLenVar { v1: 5, v2: 1, v3: vec![1, 2, 3, 4, 5] });
    assert_eq!(ctx.cursor, custom_len_var_size() + 5, "ctx.cursor was not advanced properly while reading");

    // Convert the struct back to bytes
    ctx.is_reading = false;
    ctx.cursor = 0;
    let mut dst = Vec::new();
    ctx.is_little_endian = true;
    let count = u32::from_len(v.v3.len()).unwrap();
    count.inner_to_writer(&mut ctx, &mut dst).unwrap();
    v.v2.inner_to_writer(&mut ctx, &mut dst).unwrap();
    ctx.len = Some(v.v3.len());
    v.v3.inner_to_writer(&mut ctx, &mut dst).unwrap();
    assert_eq!(&dst, bytes);
    assert_eq!(ctx.cursor, custom_len_var_size() + 5, "ctx.cursor was not advanced properly while writing");
}

fn decl(name: &str, ty: &str, len: Option<&str>) -> FieldDecl {
    FieldDecl {
        name: name.to_string(),
        ty: ty.to_string(),
        endian: None,
        len: len.map(|l| l.to_string()),
        validate: None,
        reader: None,
        writer: None,
    }
}

fn static_struct_decl() -> Vec<FieldDecl> {
    vec![decl("v1", "u32", None), decl("v2", "u8", None), decl("v3", "u128", None), decl("v4", "f32", None)]
}

/// Every field read in order, little endian, with no external length or custom function.
fn plain_read(plan: &[ReadStep], n: usize) {
    assert_eq!(plan.len(), n);
    for (i, s) in plan.iter().enumerate() {
        assert_eq!(s.field, i);
        assert_eq!(s.len_from, None);
        assert!(s.le && s.reader.is_none() && s.validate.is_none());
    }
}

/// Every field written in order, little endian, with no external length or custom function.
fn plain_write(plan: &[WriteStep], n: usize) {
    assert_eq!(plan.len(), n);
    for (i, s) in plan.iter().enumerate() {
        match s {
            WriteStep::Write { field, le, external_len, writer } => {
                assert_eq!(*field, i);
                assert!(*le && !*external_len && writer.is_none());
            }
            _ => panic!("plain write expected"),
        }
    }
}

#[test]
fn derive_static_plans() {
    let fields = static_struct_decl();
    plain_read(&fields_read_plan(&fields, None).unwrap(), 4);
    plain_write(&fields_write_plan(&fields, None).unwrap(), 4);

    let variants = vec![VariantDecl {
        name: "Nest".to_string(),
        id: Some(123),
        endian: None,
        fields: vec![decl("field_0", "StaticStruct", None)],
    }];
    let rp = enum_read_plan(&variants, None, None).unwrap();
    assert_eq!(rp.id_type, "u8");
    assert!(rp.id_le);
    assert_eq!(rp.ids, nested_ids());
    plain_read(&rp.variants[0], 1);
    let wp = enum_write_plan(&variants, None, None).unwrap();
    assert_eq!(wp.id_type, "u8");
    assert_eq!(wp.ids, vec![123]);
    plain_write(&wp.variants[0], 1);
}

#[test]
fn derive_var_size_plans() {
    let fields = vec![decl("v1", "u32", None), decl("v2", "Vec<u8>", None)];
    plain_read(&fields_read_plan(&fields, None).unwrap(), 2);
    plain_write(&fields_write_plan(&fields, None).unwrap(), 2);
}

#[test]
fn derive_var_size_custom_len_plans() {
    let fields = vec![decl("v1", "u32", None), decl("v2", "u16", None), decl("v3", "Vec<u8>", Some("v1"))];
    let rp = fields_read_plan(&fields, None).unwrap();
    assert_eq!(rp.iter().map(|s| s.len_from).collect::<Vec<_>>(), vec![None, None, Some(0)]);
    assert!(rp.iter().all(|s| s.le));
    let wp = fields_write_plan(&fields, None).unwrap();
    assert_eq!(wp.len(), 3);
    assert!(matches!(wp[0], WriteStep::WriteLenOf { holder: 0, content: 2, le: true }));
    assert!(matches!(wp[1], WriteStep::Write { field: 1, le: true, external_len: false, writer: None }));
    assert!(matches!(wp[2], WriteStep::Write { field: 2, le: true, external_len: true, writer: None }));
}
