//! The steps derived readers and writers take, planned from declarations, and values read
//! and written by carrying the plans out.
use simple_parse::count::SpCountField;
use simple_parse::custom_attr::{AttrError, FieldArg};
use simple_parse::derive_plan::{
    enum_read_plan, enum_write_plan, fields_read_plan, fields_write_plan, FieldDecl, ReadStep,
    VariantDecl, WriteStep,
};
use simple_parse::{SpCtx, SpError, SpRead, SpReader, SpWrite};

fn fd(name: &str, ty: &str) -> FieldDecl {
    FieldDecl {
        name: name.to_string(),
        ty: ty.to_string(),
        endian: None,
        len: None,
        validate: None,
        reader: None,
        writer: None,
    }
}

fn custom_len_decl() -> Vec<FieldDecl> {
    let mut v3 = fd("v3", "Vec<u8>");
    v3.len = Some("v1".to_string());
    vec![fd("v1", "u32"), fd("v2", "u16"), v3]
}

#[derive(Debug, PartialEq)]
struct CustomLenVar {
    v1: u32,
    v2: u16,
    v3: Vec<u8>,
}

fn read_by_plan(plan: &[ReadStep], src: &mut SpReader, ctx: &mut SpCtx) -> Result<CustomLenVar, SpError> {
    let (mut v1, mut v2, mut v3) = (0u32, 0u16, Vec::new());
    for step in plan {
        if let Some(j) = step.len_from {
            assert_eq!(j, 0);
            ctx.len = Some(v1.to_len());
        }
        ctx.is_little_endian = step.le;
        match step.field {
            0 => v1 = u32::inner_from_reader(src, ctx)?,
            1 => v2 = u16::inner_from_reader(src, ctx)?,
            _ => v3 = <Vec<u8>>::inner_from_reader(src, ctx)?,
        }
    }
    Ok(CustomLenVar { v1, v2, v3 })
}

fn write_by_plan(plan: &[WriteStep], v: &CustomLenVar, ctx: &mut SpCtx, dst: &mut Vec<u8>) -> Result<usize, SpError> {
    let mut written = 0;
    for step in plan {
        match step {
            WriteStep::Validate { .. } => unreachable!(),
            WriteStep::WriteLenOf { holder, content, le } => {
                assert_eq!((*holder, *content), (0, 2));
                ctx.is_little_endian = *le;
                written += u32::from_len(v.v3.len())?.inner_to_writer(ctx, dst)?;
            }
            WriteStep::Write { field, le, external_len, .. } => {
                ctx.is_little_endian = *le;
                ctx.len = None;
                match field {
                    1 => written += v.v2.inner_to_writer(ctx, dst)?,
                    _ => {
                        if *external_len {
                            ctx.len = Some(v.v3.len());
                        }
                        written += v.v3.inner_to_writer(ctx, dst)?
                    }
                }
            }
        }
    }
    Ok(written)
}

#[test]
fn custom_len_plans() {
    let decl = custom_len_decl();
    let rp = fields_read_plan(&decl, None).unwrap();
    assert_eq!(rp.len(), 3);
    assert_eq!(rp.iter().map(|s| s.field).collect::<Vec<_>>(), vec![0, 1, 2]);
    assert_eq!(rp.iter().map(|s| s.len_from).collect::<Vec<_>>(), vec![None, None, Some(0)]);
    assert!(rp.iter().all(|s| s.le && s.reader.is_none() && s.validate.is_none()));

    let wp = fields_write_plan(&decl, None).unwrap();
    assert_eq!(wp.len(), 3);
    assert!(matches!(wp[0], WriteStep::WriteLenOf { holder: 0, content: 2, le: true }));
    assert!(matches!(wp[1], WriteStep::Write { field: 1, le: true, external_len: false, writer: None }));
    assert!(matches!(wp[2], WriteStep::Write { field: 2, le: true, external_len: true, writer: None }));
}

#[test]
fn custom_len_value_reads_back_through_plans() {
    let decl = custom_len_decl();
    let rp = fields_read_plan(&decl, None).unwrap();
    let wp = fields_write_plan(&decl, None).unwrap();
    let bytes: &[u8] = &[5, 0, 0, 0, 1, 0, 1, 2, 3, 4, 5];

    let mut ctx = SpCtx::default();
    let v = read_by_plan(&rp, &mut SpReader::new(bytes), &mut ctx).unwrap();
    assert_eq!(v, CustomLenVar { v1: 5, v2: 1, v3: vec![1, 2, 3, 4, 5] });
    assert_eq!(ctx.cursor, bytes.len());

    let mut ctx = SpCtx::default();
    let mut dst = Vec::new();
    assert_eq!(write_by_plan(&wp, &v, &mut ctx, &mut dst).unwrap(), bytes.len());
    assert_eq!(&dst, bytes);

    // The length written is that of the field, whatever the count field held.
    let w = CustomLenVar { v1: 99, v2: 7, v3: vec![9, 8] };
    let mut dst = Vec::new();
    write_by_plan(&wp, &w, &mut SpCtx::default(), &mut dst).unwrap();
    let back = read_by_plan(&rp, &mut SpReader::new(&dst), &mut SpCtx::default()).unwrap();
    assert_eq!(back, CustomLenVar { v1: 2, v2: 7, v3: vec![9, 8] });
}

#[test]
fn byte_orders_are_set_for_every_field() {
    let mut f2 = fd("b", "u16");
    f2.endian = Some("little".to_string());
    let decl = vec![fd("a", "u16"), f2, fd("c", "u16")];
    let rp = fields_read_plan(&decl, Some("big")).unwrap();
    assert_eq!(rp.iter().map(|s| s.le).collect::<Vec<_>>(), vec![false, true, false]);
    let wp = fields_write_plan(&decl, Some("big")).unwrap();
    assert!(matches!(wp[0], WriteStep::Write { le: false, .. }));
    assert!(matches!(wp[1], WriteStep::Write { le: true, .. }));
    assert!(matches!(wp[2], WriteStep::Write { le: false, .. }));
}

#[test]
fn validators_and_custom_functions() {
    let mut magic = fd("magic", "u16");
    magic.validate = Some("check_magic, size".to_string());
    let mut comp = fd("comp", "BmpComp");
    comp.reader = Some("BmpComp::read, magic".to_string());
    comp.writer = Some("BmpComp::write".to_string());
    let decl = vec![magic, fd("size", "u32"), comp];

    let rp = fields_read_plan(&decl, None).unwrap();
    let v = rp[0].validate.as_ref().unwrap();
    assert_eq!(v.fn_name, "check_magic");
    // When reading, a field after the validated one is not there yet.
    assert_eq!(v.args, vec![FieldArg::NoneValue]);
    let r = rp[2].reader.as_ref().unwrap();
    assert_eq!(r.fn_name, "BmpComp::read");
    assert!(r.is_path);
    assert_eq!(r.args, vec![FieldArg::Ref(0)]);

    let wp = fields_write_plan(&decl, None).unwrap();
    assert_eq!(wp.len(), 4);
    match &wp[0] {
        WriteStep::Validate { field, attr } => {
            assert_eq!(*field, 0);
            assert_eq!(attr.args, vec![FieldArg::SomeRef(1)]);
        }
        _ => panic!("the validator comes first"),
    }
    match &wp[3] {
        WriteStep::Write { field: 2, writer: Some(w), .. } => assert_eq!(w.fn_name, "BmpComp::write"),
        _ => panic!("custom writer expected"),
    }
}

#[test]
fn refused_declarations() {
    let mut bad_len = fd("v", "Vec<u8>");
    bad_len.len = Some("later".to_string());
    let decl = vec![fd("first", "u8"), bad_len, fd("later", "u8")];
    match fields_read_plan(&decl, None) {
        Err(AttrError::UnknownField { name, valid }) => {
            assert_eq!(name, "later");
            assert_eq!(valid, vec!["first".to_string()]);
        }
        _ => panic!("expected UnknownField"),
    }
    assert!(matches!(fields_write_plan(&decl, None), Err(AttrError::UnknownField { .. })));

    let mut bad_endian = fd("x", "u8");
    bad_endian.endian = Some("middle".to_string());
    match fields_read_plan(&vec![bad_endian], None) {
        Err(AttrError::InvalidEndian { text }) => assert_eq!(text, "middle"),
        _ => panic!("expected InvalidEndian"),
    }
    assert!(matches!(fields_write_plan(&vec![fd("x", "u8")], Some("neither")), Err(AttrError::InvalidEndian { .. })));

    let mut bad_reader = fd("x", "u8");
    bad_reader.reader = Some("read_x, x".to_string());
    assert!(matches!(
        fields_read_plan(&vec![bad_reader], None),
        Err(AttrError::UnknownField { .. })
    ));
}

fn variant(name: &str, id: Option<usize>, fields: Vec<FieldDecl>) -> VariantDecl {
    VariantDecl { name: name.to_string(), id, endian: None, fields }
}

#[test]
fn enum_plans() {
    let vs = vec![variant("A", Some(300), vec![]), variant("B", Some(1), vec![fd("x", "u8")])];
    let rp = enum_read_plan(&vs, None, None).unwrap();
    assert_eq!(rp.id_type, "u16");
    assert!(rp.id_le);
    assert_eq!(rp.ids, vec![300, 1]);
    assert_eq!(rp.variants.len(), 2);
    assert!(rp.variants[0].is_empty());
    assert_eq!(rp.variants[1].len(), 1);
    let wp = enum_write_plan(&vs, None, Some("big")).unwrap();
    assert!(!wp.id_le);
    assert_eq!(wp.ids, vec![300, 1]);

    assert!(matches!(enum_read_plan(&vec![], None, None), Err(AttrError::EmptyEnum)));
    assert_eq!(enum_write_plan(&vec![], None, None).unwrap().id_type, "u8");

    let dup = vec![variant("A", None, vec![]), variant("B", Some(0), vec![])];
    assert!(matches!(enum_read_plan(&dup, None, None), Err(AttrError::DuplicateId { first: 0, second: 1 })));
    assert!(matches!(
        enum_write_plan(&vs, Some("nope nope"), None),
        Err(AttrError::InvalidType { .. })
    ));

    let mut big = variant("C", None, vec![fd("y", "u16")]);
    big.endian = Some("big".to_string());
    let rp = enum_read_plan(&vec![big], None, None).unwrap();
    assert!(!rp.variants[0][0].le);
}
