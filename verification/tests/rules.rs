//! The decisions deriving makes, and the checking of custom attributes, on concrete inputs.
use simple_parse::custom_attr::{is_whitespace, split_commas, split_custom_attr, trim, AllowFields, AttrError, FieldArg};
use simple_parse::derive_rules::{
    count_holders, enum_hints, field_byte_orders, find_duplicate_variant_id,
    find_field_before, generate_field_name, get_enum_id_type, is_lower_endian, len_field_links,
    smallest_type_for_num, str_equal, struct_hints, variant_for_id, variant_ids,
};
use simple_parse::count::SpCountField;
use simple_parse::SpError;

fn names(v: &[&str]) -> Vec<String> {
    v.iter().map(|s| s.to_string()).collect()
}

#[test]
fn endian_attribute_values() {
    assert!(is_lower_endian("little"));
    assert!(!is_lower_endian("big"));
    assert!(str_equal("abc", "abc"));
    assert!(!str_equal("abc", "abd"));
    assert!(!str_equal("ab", "abc"));
}

#[test]
fn smallest_types() {
    assert_eq!(smallest_type_for_num(0), "u8");
    assert_eq!(smallest_type_for_num(255), "u8");
    assert_eq!(smallest_type_for_num(256), "u16");
    assert_eq!(smallest_type_for_num(65535), "u16");
    assert_eq!(smallest_type_for_num(65536), "u32");
    assert_eq!(smallest_type_for_num(u32::MAX as usize), "u32");
    if usize::BITS == 64 {
        assert_eq!(smallest_type_for_num(u32::MAX as usize + 1), "u64");
        assert_eq!(smallest_type_for_num(usize::MAX), "u64");
    }
}

#[test]
fn variant_ids_count_up_from_explicit_ones() {
    assert_eq!(variant_ids(&vec![]), Vec::<usize>::new());
    assert_eq!(variant_ids(&vec![None, None, None]), vec![0, 1, 2]);
    assert_eq!(variant_ids(&vec![None, Some(5), None, Some(2), None]), vec![0, 5, 6, 2, 3]);
}

#[test]
fn duplicate_variant_ids() {
    assert_eq!(find_duplicate_variant_id(&vec![0, 1, 2]), None);
    assert_eq!(find_duplicate_variant_id(&vec![0, 5, 1, 5, 0]), Some((1, 3)));
    assert_eq!(find_duplicate_variant_id(&vec![3, 4, 3]), Some((0, 2)));
}

#[test]
fn enum_id_types() {
    assert_eq!(get_enum_id_type(&vec![None, None], None).unwrap(), "u8");
    assert_eq!(get_enum_id_type(&vec![None, Some(300)], None).unwrap(), "u16");
    // The biggest id decides, wherever its variant stands.
    assert_eq!(get_enum_id_type(&vec![Some(300), Some(1)], None).unwrap(), "u16");
    assert_eq!(get_enum_id_type(&vec![Some(70000), Some(1)], None).unwrap(), "u32");
    assert_eq!(get_enum_id_type(&vec![None], Some("u32")).unwrap(), "u32");
    assert_eq!(get_enum_id_type(&vec![], None).unwrap(), "u8");
    match get_enum_id_type(&vec![None], Some("not a type")) {
        Err(AttrError::InvalidType { name, .. }) => assert_eq!(name, "not a type"),
        other => panic!("unexpected {:?}", other),
    }
}

#[test]
fn ids_select_variants() {
    let ids = vec![0, 5, 6];
    assert_eq!(variant_for_id(&ids, 5).unwrap(), 1);
    assert_eq!(variant_for_id(&ids, 0).unwrap(), 0);
    assert!(matches!(variant_for_id(&ids, 7), Err(SpError::UnknownEnumVariant)));
    assert!(matches!(variant_for_id(&ids, u128::MAX), Err(SpError::UnknownEnumVariant)));
}

#[test]
fn len_fields() {
    let n = names(&["count", "a", "count", "items"]);
    assert_eq!(find_field_before(&n, 4, "count"), Some(0));
    assert_eq!(find_field_before(&n, 0, "count"), None);
    assert_eq!(find_field_before(&n, 4, "nope"), None);
    let attrs = vec![None, None, None, Some("count".to_string())];
    let links = len_field_links(&n, &attrs);
    assert_eq!(links, vec![None, None, None, Some(0)]);
    assert_eq!(count_holders(&links), vec![Some(3), None, None, None]);
    assert_eq!(count_holders(&vec![None, Some(0), Some(0)]), vec![Some(2), None, None]);
}

#[test]
fn byte_orders_of_fields() {
    let attrs = vec![None, Some("big".to_string()), Some("little".to_string()), None];
    let les = field_byte_orders(true, &attrs);
    assert_eq!(les, vec![true, false, true, true]);
    assert_eq!(field_byte_orders(false, &attrs), vec![false, false, true, false]);
}

#[test]
fn struct_and_enum_hints() {
    assert_eq!(struct_hints(&vec![4, 1, 16], &vec![false, false, false]), (false, 21));
    assert_eq!(struct_hints(&vec![4, 8, 16], &vec![false, true, false]), (true, 12));
    assert_eq!(struct_hints(&vec![], &vec![]), (false, 0));
    assert_eq!(enum_hints(1, &vec![], &vec![]), (false, 1));
    assert_eq!(enum_hints(1, &vec![4, 4], &vec![false, false]), (false, 5));
    assert_eq!(enum_hints(2, &vec![4, 8], &vec![false, false]), (true, 2));
    assert_eq!(enum_hints(1, &vec![4, 4], &vec![false, true]), (true, 5));
}

#[test]
fn field_names_in_generated_code() {
    assert_eq!(generate_field_name(Some("a"), 0, None, false, "u8"), "a");
    assert_eq!(generate_field_name(Some("a"), 0, Some("self"), false, "u8"), "self.a");
    assert_eq!(generate_field_name(None, 12, None, false, "u8"), "field_12");
    assert_eq!(generate_field_name(None, 3, Some("self"), false, "u8"), "self.3");
    assert_eq!(generate_field_name(Some("r"), 1, None, true, "&str"), "*r");
    assert_eq!(generate_field_name(Some("r"), 1, None, false, "&str"), "r");
    assert_eq!(generate_field_name(None, 0, Some("v"), true, "&[u8]"), "*v.0");
}

#[test]
fn trimming_and_splitting() {
    assert!(is_whitespace(' '));
    assert!(is_whitespace('\u{3000}'));
    assert!(!is_whitespace('a'));
    assert_eq!(trim("  a b \t"), "a b");
    assert_eq!(trim(" \n "), "");
    assert_eq!(split_commas("a,,b"), vec!["a", "", "b"]);
    assert_eq!(split_commas(""), vec![""]);
}

#[test]
fn custom_attr_resolves_fields() {
    let fields = names(&["a", "b", "c"]);
    let r = split_custom_attr(" my_fn , a, c ", &fields, 1, AllowFields::All).unwrap();
    assert_eq!(r.fn_name, "my_fn");
    assert!(!r.is_path);
    assert_eq!(r.args, vec![FieldArg::Ref(0), FieldArg::Ref(2)]);

    let r = split_custom_attr("crate::m::check, c, a", &fields, 1, AllowFields::AfterCurrentAsSome).unwrap();
    assert_eq!(r.fn_name, "crate::m::check");
    assert!(r.is_path);
    assert_eq!(r.args, vec![FieldArg::SomeRef(2), FieldArg::Ref(0)]);

    let r = split_custom_attr("f, c", &fields, 1, AllowFields::AfterCurrentAsNone).unwrap();
    assert_eq!(r.args, vec![FieldArg::NoneValue]);

    let r = split_custom_attr("f", &fields, 0, AllowFields::BeforeCurrent).unwrap();
    assert!(r.args.is_empty());

    // A name used twice resolves to the last field of that name.
    let dup = names(&["x", "x", "y"]);
    let r = split_custom_attr("f, x", &dup, 2, AllowFields::All).unwrap();
    assert_eq!(r.args, vec![FieldArg::Ref(1)]);
}

#[test]
fn custom_attr_errors() {
    let fields = names(&["a", "b", "c"]);
    assert!(matches!(
        split_custom_attr("", &fields, 0, AllowFields::All),
        Err(AttrError::Empty { is_fn_name: true })
    ));
    assert!(matches!(
        split_custom_attr("f, ", &fields, 0, AllowFields::All),
        Err(AttrError::Empty { is_fn_name: false })
    ));
    match split_custom_attr("f!", &fields, 0, AllowFields::All) {
        Err(AttrError::InvalidChars { is_fn_name, text }) => {
            assert!(is_fn_name);
            assert_eq!(text, "f!");
        }
        other => panic!("unexpected {:?}", other),
    }
    match split_custom_attr("f, a.b", &fields, 0, AllowFields::All) {
        Err(AttrError::InvalidChars { is_fn_name, text }) => {
            assert!(!is_fn_name);
            assert_eq!(text, "a.b");
        }
        other => panic!("unexpected {:?}", other),
    }
    match split_custom_attr("m::", &fields, 0, AllowFields::All) {
        Err(AttrError::InvalidPath { name, .. }) => assert_eq!(name, "m::"),
        other => panic!("unexpected {:?}", other),
    }
    match split_custom_attr("1f", &fields, 0, AllowFields::All) {
        Err(AttrError::InvalidIdent { name, .. }) => assert_eq!(name, "1f"),
        other => panic!("unexpected {:?}", other),
    }
    match split_custom_attr("f-g", &fields, 0, AllowFields::All) {
        Err(AttrError::InvalidIdent { name, .. }) => assert_eq!(name, "f-g"),
        other => panic!("unexpected {:?}", other),
    }
    match split_custom_attr("f, zz", &fields, 1, AllowFields::All) {
        Err(AttrError::UnknownField { name, valid }) => {
            assert_eq!(name, "zz");
            assert_eq!(valid, names(&["a", "c"]));
        }
        other => panic!("unexpected {:?}", other),
    }
    match split_custom_attr("f, c", &fields, 1, AllowFields::BeforeCurrent) {
        Err(AttrError::UnknownField { name, valid }) => {
            assert_eq!(name, "c");
            assert_eq!(valid, names(&["a"]));
        }
        other => panic!("unexpected {:?}", other),
    }
    match split_custom_attr("f, b", &fields, 1, AllowFields::All) {
        Err(AttrError::UnknownField { name, .. }) => assert_eq!(name, "b"),
        other => panic!("unexpected {:?}", other),
    }
}

#[test]
fn count_fields_hold_lengths() {
    assert_eq!(u8::from_len(255).unwrap(), 255);
    assert!(matches!(u8::from_len(256), Err(SpError::CountFieldOverflow)));
    assert!(matches!(i8::from_len(128), Err(SpError::CountFieldOverflow)));
    assert_eq!(i16::from_len(300).unwrap(), 300);
    assert_eq!(u128::from_len(usize::MAX).unwrap(), usize::MAX as u128);
    assert_eq!(u16::from_len(7).unwrap().to_len(), 7);
    assert_eq!(u64::from_len(123_456).unwrap().to_len(), 123_456);
    assert_eq!((-1i32).to_len(), usize::MAX);
}

#[test]
fn distinct_ids_select_their_variants() {
    let ids = variant_ids(&vec![None, Some(10), None, Some(3)]);
    assert_eq!(find_duplicate_variant_id(&ids), None);
    for (k, id) in ids.iter().enumerate() {
        assert_eq!(variant_for_id(&ids, *id as u128).unwrap(), k);
    }
    // With a repeated id, the first variant that has it wins.
    let dup = vec![4, 4];
    assert_eq!(variant_for_id(&dup, 4).unwrap(), 0);
}
