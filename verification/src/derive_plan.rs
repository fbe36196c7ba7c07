//! What the code that deriving `SpRead`/`SpWrite` generates does, as a plan: the steps a
//! derived reader or writer takes for each field of a struct or of an enum variant, worked
//! out from the type's declaration and its `#[sp(..)]` attributes, or the reason the
//! declaration is refused.
use vstd::prelude::*;
use crate::custom_attr::{
    lemma_attr_outcome_ok, spec_attr_ok, spec_attr_outcome, split_custom_attr, views, AllowFields,
    AttrError, CustomAttr,
};
use crate::derive_rules::{
    count_holders, find_duplicate_variant_id, find_field_before, get_enum_id_type, spec_ids_countable,
    spec_max_variant_id, spec_smallest_type_for_num, spec_variant_ids, str_equal, variant_ids,
};
use crate::custom_attr::parses_as_type;

verus! {

/// A field as declared: its name (`field_{idx}` for a tuple field), its type as text, and
/// its `#[sp(..)]` attributes.
pub struct FieldDecl {
    pub name: String,
    pub ty: String,
    /// `#[sp(endian = "little" | "big")]`
    pub endian: Option<String>,
    /// `#[sp(len = "field")]`: the field, declared before, that holds this one's number of items
    pub len: Option<String>,
    /// `#[sp(validate = "function, fields..")]`
    pub validate: Option<String>,
    /// `#[sp(reader = "function, fields..")]`
    pub reader: Option<String>,
    /// `#[sp(writer = "function, fields..")]`
    pub writer: Option<String>,
}

/// What a derived reader does for one field, in this order: when `len_from` is `Some(j)`,
/// set the context's `len` to the value of field `j`; set the context's byte order to `le`;
/// read the field (with the custom `reader` when there is one, else with the field type's
/// own `SpRead`); then, when there is a `validate` function, call it with `is_reading` set.
pub struct ReadStep {
    pub field: usize,
    pub len_from: Option<usize>,
    pub le: bool,
    pub reader: Option<CustomAttr>,
    pub validate: Option<CustomAttr>,
}

/// One step of a derived writer.
pub enum WriteStep {
    /// Call the validator of `field` (with `is_reading` cleared).
    Validate { field: usize, attr: CustomAttr },
    /// Write, in place of field `holder`, the number of items of field `content`, in the
    /// holder's type (`CountFieldOverflow` when it does not fit) and byte order `le`.
    WriteLenOf { holder: usize, content: usize, le: bool },
    /// Write `field` in byte order `le`, with the number of its items kept elsewhere when
    /// `external_len` (so that no count goes in front of it), with the custom `writer` when
    /// there is one.
    Write { field: usize, le: bool, external_len: bool, writer: Option<CustomAttr> },
}

/* The declaration as plain values */

/// The names of the fields.
pub open spec fn field_names(fields: Seq<FieldDecl>) -> Seq<String> {
    fields.map_values(|f: FieldDecl| f.name)
}

/// The first of the first `upto` names that is `t`.
pub open spec fn spec_first_index(names: Seq<Seq<char>>, t: Seq<char>, upto: nat) -> Option<nat>
    decreases upto,
{
    if upto == 0 {
        None
    } else {
        match spec_first_index(names, t, (upto - 1) as nat) {
            Some(j) => Some(j),
            None => if names[upto - 1] == t {
                Some((upto - 1) as nat)
            } else {
                None
            },
        }
    }
}

proof fn lemma_first_index(names: Seq<Seq<char>>, t: Seq<char>, upto: nat)
    ensures
        spec_first_index(names, t, upto) matches Some(j) ==> j < upto && names[j as int] == t
            && forall|k: int| 0 <= k < j ==> names[k] != t,
        spec_first_index(names, t, upto) is None ==> forall|k: int| 0 <= k < upto ==> names[k] != t,
    decreases upto,
{
    if upto > 0 {
        lemma_first_index(names, t, (upto - 1) as nat);
    }
}

/// The field that holds the number of items of field `idx` (`#[sp(len = ..)]`): the first
/// field before it with that name.
pub open spec fn spec_len_source(fields: Seq<FieldDecl>, idx: nat) -> Option<nat> {
    match fields[idx as int].len {
        Some(t) => spec_first_index(views(field_names(fields)), t@, idx),
        None => None,
    }
}

/// Whether an endianness attribute, if there is one, is `"little"` or `"big"`.
pub open spec fn spec_endian_ok(e: Option<Seq<char>>) -> bool {
    e matches Some(t) ==> (t == "little"@ || t == "big"@)
}

/// The byte order an endianness attribute selects, `default_le` without one.
pub open spec fn spec_le(default_le: bool, e: Option<Seq<char>>) -> bool {
    match e {
        Some(t) => t == "little"@,
        None => default_le,
    }
}

/// The view of an optional string.
pub open spec fn opt_view(e: Option<String>) -> Option<Seq<char>> {
    match e {
        Some(t) => Some(t@),
        None => None,
    }
}

/// The view of an optional string slice.
pub open spec fn opt_str_view(e: Option<&str>) -> Option<Seq<char>> {
    match e {
        Some(t) => Some(t@),
        None => None,
    }
}

/// Whether an optional custom attribute, if there is one, is accepted.
pub open spec fn spec_opt_attr_ok(a: Option<String>, names: Seq<String>, idx: nat, allow: AllowFields) -> bool {
    a matches Some(t) ==> spec_attr_ok(t@, names, idx, allow)
}

/// What resolving an optional custom attribute gives.
pub open spec fn spec_opt_attr_is(
    a: Option<String>,
    names: Seq<String>,
    idx: nat,
    allow: AllowFields,
    r: Option<CustomAttr>,
) -> bool {
    match a {
        None => r is None,
        Some(t) => r matches Some(c) && spec_attr_outcome(t@, names, idx, allow, Ok(c)),
    }
}

/// Whether field `idx` passes the checks that it is refused for, for reading (`reading`)
/// or writing: its `len` names a field before it; its endianness is known; its custom
/// function (`reader`, or `writer`) and its validator are accepted.
pub open spec fn spec_field_ok(fields: Seq<FieldDecl>, idx: nat, reading: bool) -> bool {
    let f = fields[idx as int];
    let names = field_names(fields);
    &&& (f.len is Some ==> spec_len_source(fields, idx) is Some)
    &&& spec_endian_ok(opt_view(f.endian))
    &&& if reading {
        spec_opt_attr_ok(f.reader, names, idx, AllowFields::BeforeCurrent)
    } else {
        spec_opt_attr_ok(f.writer, names, idx, AllowFields::All)
    }
    &&& spec_opt_attr_ok(
        f.validate,
        names,
        idx,
        if reading {
            AllowFields::AfterCurrentAsNone
        } else {
            AllowFields::AfterCurrentAsSome
        },
    )
}

/// The error a field that fails its checks is refused with: that of the first check it
/// fails, in the order `len`, endianness, custom function, validator.
pub open spec fn spec_field_error(fields: Seq<FieldDecl>, idx: nat, reading: bool, e: AttrError) -> bool {
    let f = fields[idx as int];
    let names = field_names(fields);
    let vallow = if reading {
        AllowFields::AfterCurrentAsNone
    } else {
        AllowFields::AfterCurrentAsSome
    };
    if f.len is Some && spec_len_source(fields, idx) is None {
        e matches AttrError::UnknownField { name, valid } && name@ == f.len->Some_0@ && views(valid@)
            == views(names).take(idx as int)
    } else if !spec_endian_ok(opt_view(f.endian)) {
        e matches AttrError::InvalidEndian { text } && text@ == f.endian->Some_0@
    } else if reading && !spec_opt_attr_ok(f.reader, names, idx, AllowFields::BeforeCurrent) {
        spec_attr_outcome(f.reader->Some_0@, names, idx, AllowFields::BeforeCurrent, Err(e))
    } else if !reading && !spec_opt_attr_ok(f.writer, names, idx, AllowFields::All) {
        spec_attr_outcome(f.writer->Some_0@, names, idx, AllowFields::All, Err(e))
    } else {
        spec_attr_outcome(f.validate->Some_0@, names, idx, vallow, Err(e))
    }
}

/// The first field, from `i` on, that fails its checks.
pub open spec fn spec_first_failure(fields: Seq<FieldDecl>, reading: bool, i: nat) -> Option<nat>
    decreases fields.len() - i,
{
    if i >= fields.len() {
        None
    } else if !spec_field_ok(fields, i, reading) {
        Some(i)
    } else {
        spec_first_failure(fields, reading, i + 1)
    }
}

proof fn lemma_first_failure(fields: Seq<FieldDecl>, reading: bool, i: nat)
    ensures
        spec_first_failure(fields, reading, i) matches Some(k) ==> i <= k < fields.len()
            && !spec_field_ok(fields, k, reading) && forall|m: nat| i <= m < k ==> spec_field_ok(
            fields,
            m,
            reading,
        ),
        spec_first_failure(fields, reading, i) is None ==> forall|m: nat|
            i <= m < fields.len() ==> spec_field_ok(fields, m, reading),
    decreases fields.len() - i,
{
    if i < fields.len() && spec_field_ok(fields, i, reading) {
        lemma_first_failure(fields, reading, i + 1);
    }
}

/// A field that fails its checks after fields that all pass them is the first failure.
proof fn lemma_first_failure_at(fields: Seq<FieldDecl>, reading: bool, i: nat, k: nat)
    requires
        i <= k < fields.len(),
        !spec_field_ok(fields, k, reading),
        forall|m: nat| i <= m < k ==> spec_field_ok(fields, m, reading),
    ensures
        spec_first_failure(fields, reading, i) == Some(k),
    decreases k - i,
{
    if i < k {
        lemma_first_failure_at(fields, reading, i + 1, k);
    }
}

/* Reading */

/// The read step of field `idx`, fields without their own endianness using `default_le`.
pub open spec fn spec_read_step_is(fields: Seq<FieldDecl>, idx: nat, default_le: bool, s: ReadStep) -> bool {
    let f = fields[idx as int];
    let names = field_names(fields);
    &&& s.field == idx
    &&& match spec_len_source(fields, idx) {
        Some(j) => s.len_from == Some(j as usize),
        None => s.len_from is None,
    }
    &&& s.le == spec_le(default_le, opt_view(f.endian))
    &&& spec_opt_attr_is(f.reader, names, idx, AllowFields::BeforeCurrent, s.reader)
    &&& spec_opt_attr_is(f.validate, names, idx, AllowFields::AfterCurrentAsNone, s.validate)
}

/// What planning a derived reader gives: refused with `InvalidEndian` when the type's own
/// endianness is unknown, else with the error of the first field that fails its checks;
/// otherwise one step per field, in declaration order. Without an endianness attribute a
/// type is read little endian.
pub open spec fn spec_read_plan_outcome(
    fields: Seq<FieldDecl>,
    endian: Option<Seq<char>>,
    r: Result<Vec<ReadStep>, AttrError>,
) -> bool {
    if !spec_endian_ok(endian) {
        r matches Err(AttrError::InvalidEndian { text }) && Some(text@) == endian
    } else {
        match spec_first_failure(fields, true, 0) {
            Some(k) => r matches Err(e) && spec_field_error(fields, k, true, e),
            None => r matches Ok(p) && p@.len() == fields.len() && forall|idx: int|
                0 <= idx < fields.len() ==> spec_read_step_is(
                    fields,
                    idx as nat,
                    spec_le(true, endian),
                    #[trigger] p@[idx],
                ),
        }
    }
}

/// The byte order an endianness attribute selects; `None` when it is neither `"little"`
/// nor `"big"`.
fn endian_of(text: &str) -> (r: Option<bool>)
    ensures
        r == if text@ == "little"@ {
            Some(true)
        } else if text@ == "big"@ {
            Some(false)
        } else {
            None::<bool>
        },
{
    if str_equal(text, "little") {
        Some(true)
    } else if str_equal(text, "big") {
        Some(false)
    } else {
        None
    }
}

/// The names of the fields.
fn names_of(fields: &Vec<FieldDecl>) -> (r: Vec<String>)
    ensures
        r@ == field_names(fields@),
{
    let mut names: Vec<String> = Vec::new();
    let mut i: usize = 0;
    while i < fields.len()
        invariant
            i <= fields@.len(),
            names@ == field_names(fields@.take(i as int)),
        decreases fields@.len() - i,
    {
        names.push(fields[i].name.clone());
        assert(field_names(fields@.take(i + 1)) =~= field_names(fields@.take(i as int)).push(
            fields@[i as int].name,
        ));
        i = i + 1;
    }
    assert(fields@.take(fields@.len() as int) =~= fields@);
    names
}

/// Resolves an optional custom attribute.
fn resolve_opt(a: &Option<String>, names: &Vec<String>, idx: usize, allow: AllowFields) -> (r: Result<
    Option<CustomAttr>,
    AttrError,
>)
    ensures
        r is Ok <==> spec_opt_attr_ok(*a, names@, idx as nat, allow),
        r matches Ok(c) ==> spec_opt_attr_is(*a, names@, idx as nat, allow, c),
        r matches Err(e) ==> spec_attr_outcome(a->Some_0@, names@, idx as nat, allow, Err(e)),
{
    match a {
        None => Ok(None),
        Some(t) => {
            let res = split_custom_attr(t.as_str(), names, idx, allow);
            proof {
                lemma_attr_outcome_ok(t@, names@, idx as nat, allow, res);
            }
            match res {
                Ok(c) => Ok(Some(c)),
                Err(e) => Err(e),
            }
        },
    }
}

/// The field that holds the number of items of field `idx`, or the error when its `len`
/// names no field before it.
fn len_source(fields: &Vec<FieldDecl>, names: &Vec<String>, idx: usize) -> (r: Result<
    Option<usize>,
    AttrError,
>)
    requires
        idx < fields@.len(),
        names@ == field_names(fields@),
    ensures
        r is Ok <==> (fields@[idx as int].len is Some ==> spec_len_source(fields@, idx as nat) is Some),
        r matches Ok(s) ==> match spec_len_source(fields@, idx as nat) {
            Some(j) => s == Some(j as usize),
            None => s is None,
        },
        r matches Err(e) ==> e matches AttrError::UnknownField { name, valid } && name@
            == fields@[idx as int].len->Some_0@ && views(valid@) == views(names@).take(idx as int),
{
    match &fields[idx].len {
        None => Ok(None),
        Some(t) => {
            let found = find_field_before(names, idx, t.as_str());
            let ghost nv = views(names@);
            proof {
                lemma_first_index(nv, t@, idx as nat);
            }
            match found {
                Some(j) => {
                    proof {
                        assert(nv[j as int] == t@);
                        if spec_first_index(nv, t@, idx as nat) != Some(j as nat) {
                            if let Some(j2) = spec_first_index(nv, t@, idx as nat) {
                                assert(nv[j2 as int] == names@[j2 as int]@);
                            }
                        }
                    }
                    Ok(Some(j))
                },
                None => {
                    proof {
                        if let Some(j2) = spec_first_index(nv, t@, idx as nat) {
                            assert(nv[j2 as int] == names@[j2 as int]@);
                        }
                    }
                    let mut valid: Vec<String> = Vec::new();
                    let mut k: usize = 0;
                    while k < idx
                        invariant
                            k <= idx < names@.len(),
                            nv == views(names@),
                            views(valid@) == nv.take(k as int),
                        decreases idx - k,
                    {
                        let ghost before = views(valid@);
                        valid.push(names[k].clone());
                        assert(views(valid@) =~= before.push(names@[k as int]@));
                        assert(nv.take(k + 1) =~= nv.take(k as int).push(nv[k as int]));
                        k = k + 1;
                    }
                    Err(AttrError::UnknownField { name: t.clone(), valid })
                },
            }
        },
    }
}

/// The steps of a derived reader of the fields `fields` of a struct or an enum variant
/// whose endianness attribute is `endian` (see `spec_read_plan_outcome`).
pub fn fields_read_plan(fields: &Vec<FieldDecl>, endian: Option<&str>) -> (r: Result<
    Vec<ReadStep>,
    AttrError,
>)
    ensures
        spec_read_plan_outcome(fields@, opt_str_view(endian), r),
{
    let default_le = match endian {
        None => true,
        Some(t) => match endian_of(t) {
            Some(le) => le,
            None => {
                return Err(AttrError::InvalidEndian { text: t.to_owned() });
            },
        },
    };
    proof {
        reveal_strlit("little");
    }
    let names = names_of(fields);
    let mut steps: Vec<ReadStep> = Vec::new();
    let mut idx: usize = 0;
    while idx < fields.len()
        invariant
            idx <= fields@.len(),
            names@ == field_names(fields@),
            default_le == spec_le(true, opt_str_view(endian)),
            spec_endian_ok(opt_str_view(endian)),
            forall|m: nat| m < idx ==> spec_field_ok(fields@, m, true),
            steps@.len() == idx,
            forall|m: int| 0 <= m < idx ==> spec_read_step_is(fields@, m as nat, default_le, #[trigger] steps@[m]),
        decreases fields@.len() - idx,
    {
        let ghost f = fields@[idx as int];
        let len_from = match len_source(fields, &names, idx) {
            Ok(s) => s,
            Err(e) => {
                proof {
                    lemma_first_failure_at(fields@, true, 0, idx as nat);
                }
                return Err(e);
            },
        };
        let le = match &fields[idx].endian {
            None => default_le,
            Some(t) => match endian_of(t.as_str()) {
                Some(le) => le,
                None => {
                    proof {
                        lemma_first_failure_at(fields@, true, 0, idx as nat);
                    }
                    return Err(AttrError::InvalidEndian { text: t.clone() });
                },
            },
        };
        let reader = match resolve_opt(&fields[idx].reader, &names, idx, AllowFields::BeforeCurrent) {
            Ok(c) => c,
            Err(e) => {
                proof {
                    lemma_first_failure_at(fields@, true, 0, idx as nat);
                }
                return Err(e);
            },
        };
        let validate = match resolve_opt(&fields[idx].validate, &names, idx, AllowFields::AfterCurrentAsNone) {
            Ok(c) => c,
            Err(e) => {
                proof {
                    lemma_first_failure_at(fields@, true, 0, idx as nat);
                }
                return Err(e);
            },
        };
        assert(spec_field_ok(fields@, idx as nat, true));
        steps.push(ReadStep { field: idx, len_from, le, reader, validate });
        idx = idx + 1;
    }
    proof {
        lemma_first_failure(fields@, true, 0);
    }
    Ok(steps)
}

/* Writing */

/// A field's number of items is held by a field before it.
proof fn lemma_len_source_bound(fields: Seq<FieldDecl>, m: nat)
    ensures
        spec_len_source(fields, m) matches Some(j) ==> j < m,
{
    if let Some(t) = fields[m as int].len {
        lemma_first_index(views(field_names(fields)), t@, m);
    }
}

/// The fields among the first `upto` that have a validator, in order.
pub open spec fn spec_validated(fields: Seq<FieldDecl>, upto: nat) -> Seq<nat>
    decreases upto,
{
    if upto == 0 {
        seq![]
    } else if fields[upto - 1].validate is Some {
        spec_validated(fields, (upto - 1) as nat).push((upto - 1) as nat)
    } else {
        spec_validated(fields, (upto - 1) as nat)
    }
}

/// The last of the first `upto` fields whose number of items field `j` holds.
pub open spec fn spec_last_linker(fields: Seq<FieldDecl>, j: nat, upto: nat) -> Option<nat>
    decreases upto,
{
    if upto == 0 {
        None
    } else if spec_len_source(fields, (upto - 1) as nat) == Some(j) {
        Some((upto - 1) as nat)
    } else {
        spec_last_linker(fields, j, (upto - 1) as nat)
    }
}

proof fn lemma_last_linker(fields: Seq<FieldDecl>, j: nat, upto: nat)
    ensures
        spec_last_linker(fields, j, upto) matches Some(c) ==> c < upto && spec_len_source(fields, c)
            == Some(j) && forall|c2: nat| c < c2 < upto ==> spec_len_source(fields, c2) != Some(j),
        spec_last_linker(fields, j, upto) is None ==> forall|c2: nat|
            c2 < upto ==> spec_len_source(fields, c2) != Some(j),
    decreases upto,
{
    if upto > 0 {
        lemma_last_linker(fields, j, (upto - 1) as nat);
    }
}

/// Whether `s` calls the validator of field `field` as a derived writer does.
pub open spec fn spec_validate_step_is(fields: Seq<FieldDecl>, field: nat, s: WriteStep) -> bool {
    &&& s matches WriteStep::Validate { field: f, attr }
    &&& f == field
    &&& spec_attr_outcome(
        fields[field as int].validate->Some_0@,
        field_names(fields),
        field,
        AllowFields::AfterCurrentAsSome,
        Ok(s->attr),
    )
}

/// The write step of field `idx`: a field that holds the number of items of others (the
/// last of them counts) gets that number written in its place; any other field is
/// written itself.
pub open spec fn spec_write_step_is(fields: Seq<FieldDecl>, idx: nat, default_le: bool, s: WriteStep) -> bool {
    let f = fields[idx as int];
    let le = spec_le(default_le, opt_view(f.endian));
    match spec_last_linker(fields, idx, fields.len()) {
        Some(c) => s == (WriteStep::WriteLenOf { holder: idx as usize, content: c as usize, le }),
        None => s matches WriteStep::Write { field, le: wle, external_len, writer } && field == idx
            && wle == le && external_len == (f.len is Some) && spec_opt_attr_is(
            f.writer,
            field_names(fields),
            idx,
            AllowFields::All,
            writer,
        ),
    }
}

/// What planning a derived writer gives: refused as reading is (with the writer and the
/// validator checked as writing sees them); otherwise first a `Validate` step for each field
/// with a validator, in order, then one step per field, in declaration order. Without an
/// endianness attribute a type is written little endian, as it is read.
pub open spec fn spec_write_plan_outcome(
    fields: Seq<FieldDecl>,
    endian: Option<Seq<char>>,
    r: Result<Vec<WriteStep>, AttrError>,
) -> bool {
    if !spec_endian_ok(endian) {
        r matches Err(AttrError::InvalidEndian { text }) && Some(text@) == endian
    } else {
        match spec_first_failure(fields, false, 0) {
            Some(k) => r matches Err(e) && spec_field_error(fields, k, false, e),
            None => r matches Ok(p) && {
                let vs = spec_validated(fields, fields.len());
                &&& p@.len() == vs.len() + fields.len()
                &&& forall|k: int| 0 <= k < vs.len() ==> spec_validate_step_is(fields, vs[k], #[trigger] p@[k])
                &&& forall|idx: int|
                    0 <= idx < fields.len() ==> spec_write_step_is(
                        fields,
                        idx as nat,
                        spec_le(true, endian),
                        #[trigger] p@[vs.len() + idx],
                    )
            },
        }
    }
}

/// The steps of a derived writer of the fields `fields` of a struct or an enum variant
/// whose endianness attribute is `endian` (see `spec_write_plan_outcome`).
pub fn fields_write_plan(fields: &Vec<FieldDecl>, endian: Option<&str>) -> (r: Result<
    Vec<WriteStep>,
    AttrError,
>)
    ensures
        spec_write_plan_outcome(fields@, opt_str_view(endian), r),
{
    let default_le = match endian {
        None => true,
        Some(t) => match endian_of(t) {
            Some(le) => le,
            None => {
                return Err(AttrError::InvalidEndian { text: t.to_owned() });
            },
        },
    };
    proof {
        reveal_strlit("little");
    }
    let names = names_of(fields);
    let n = fields.len();
    let mut steps: Vec<WriteStep> = Vec::new();
    let mut links: Vec<Option<usize>> = Vec::new();
    let mut les: Vec<bool> = Vec::new();
    let mut writers: Vec<Option<CustomAttr>> = Vec::new();
    let mut idx: usize = 0;
    while idx < n
        invariant
            idx <= n == fields@.len(),
            names@ == field_names(fields@),
            default_le == spec_le(true, opt_str_view(endian)),
            spec_endian_ok(opt_str_view(endian)),
            forall|m: nat| m < idx ==> spec_field_ok(fields@, m, false),
            links@.len() == idx && les@.len() == idx && writers@.len() == idx,
            forall|m: int| 0 <= m < idx ==> match spec_len_source(fields@, m as nat) {
                Some(j) => #[trigger] links@[m] == Some(j as usize),
                None => links@[m] is None,
            },
            forall|m: int| 0 <= m < idx ==> #[trigger] les@[m] == spec_le(default_le, opt_view(fields@[m].endian)),
            forall|m: int| 0 <= m < idx ==> spec_opt_attr_is(fields@[m].writer, names@, m as nat, AllowFields::All, #[trigger] writers@[m]),
            steps@.len() == spec_validated(fields@, idx as nat).len(),
            forall|k: int|
                0 <= k < steps@.len() ==> spec_validate_step_is(fields@, spec_validated(fields@, idx as nat)[k], #[trigger] steps@[k]),
        decreases n - idx,
    {
        let len_from = match len_source(fields, &names, idx) {
            Ok(s) => s,
            Err(e) => {
                proof {
                    lemma_first_failure_at(fields@, false, 0, idx as nat);
                }
                return Err(e);
            },
        };
        let le = match &fields[idx].endian {
            None => default_le,
            Some(t) => match endian_of(t.as_str()) {
                Some(le) => le,
                None => {
                    proof {
                        lemma_first_failure_at(fields@, false, 0, idx as nat);
                    }
                    return Err(AttrError::InvalidEndian { text: t.clone() });
                },
            },
        };
        let writer = match resolve_opt(&fields[idx].writer, &names, idx, AllowFields::All) {
            Ok(c) => c,
            Err(e) => {
                proof {
                    lemma_first_failure_at(fields@, false, 0, idx as nat);
                }
                return Err(e);
            },
        };
        let validate = match resolve_opt(&fields[idx].validate, &names, idx, AllowFields::AfterCurrentAsSome) {
            Ok(c) => c,
            Err(e) => {
                proof {
                    lemma_first_failure_at(fields@, false, 0, idx as nat);
                }
                return Err(e);
            },
        };
        assert(spec_field_ok(fields@, idx as nat, false));
        let ghost vs_before = spec_validated(fields@, idx as nat);
        assert(spec_validated(fields@, (idx + 1) as nat) == if fields@[idx as int].validate is Some {
            vs_before.push(idx as nat)
        } else {
            vs_before
        });
        match validate {
            Some(attr) => {
                steps.push(WriteStep::Validate { field: idx, attr });
            },
            None => {},
        }
        links.push(len_from);
        les.push(le);
        writers.push(writer);
        idx = idx + 1;
    }
    proof {
        lemma_first_failure(fields@, false, 0);
    }
    let ghost vs = spec_validated(fields@, n as nat);
    let ghost nv = steps@.len();
    let holders = count_holders(&links);
    let ghost writers0 = writers@;
    let mut k: usize = 0;
    while k < n
        invariant
            k <= n == fields@.len() == holders@.len() == les@.len() == links@.len(),
            writers@ == writers0.skip(k as int),
            writers0.len() == n,
            names@ == field_names(fields@),
            default_le == spec_le(true, opt_str_view(endian)),
            spec_endian_ok(opt_str_view(endian)),
            spec_first_failure(fields@, false, 0) is None,
            nv == vs.len(),
            vs == spec_validated(fields@, n as nat),
            steps@.len() == nv + k,
            forall|m: int| 0 <= m < n ==> match spec_len_source(fields@, m as nat) {
                Some(j) => #[trigger] links@[m] == Some(j as usize),
                None => links@[m] is None,
            },
            forall|m: int| 0 <= m < n ==> #[trigger] les@[m] == spec_le(default_le, opt_view(fields@[m].endian)),
            forall|m: int| 0 <= m < n ==> spec_opt_attr_is(fields@[m].writer, names@, m as nat, AllowFields::All, #[trigger] writers0[m]),
            forall|h: int|
                0 <= h < holders@.len() ==> match #[trigger] holders@[h] {
                    Some(j) => j < links@.len() && links@[j as int] == Some(h as usize) && forall|j2: int|
                        j < j2 < links@.len() ==> links@[j2] != Some(h as usize),
                    None => forall|j: int| 0 <= j < links@.len() ==> links@[j] != Some(h as usize),
                },
            forall|q: int| 0 <= q < nv ==> spec_validate_step_is(fields@, vs[q], #[trigger] steps@[q]),
            forall|m: int| 0 <= m < k ==> spec_write_step_is(fields@, m as nat, default_le, #[trigger] steps@[nv + m]),
        decreases n - k,
    {
        let writer = writers.remove(0);
        assert(writer == writers0[k as int]);
        proof {
            lemma_last_linker(fields@, k as nat, n as nat);
            assert forall|m: nat| m < n implies (#[trigger] spec_len_source(fields@, m) matches Some(j) ==> j < m) by {
                lemma_len_source_bound(fields@, m);
            }
            let h = holders@[k as int];
            let sl = spec_last_linker(fields@, k as nat, n as nat);
            match h {
                Some(c) => {
                    assert(links@[c as int] == Some(k as usize));
                    if sl != Some(c as nat) {
                        match sl {
                            Some(c2) => {
                                assert(links@[c2 as int] == Some(k as usize));
                            },
                            None => {},
                        }
                    }
                },
                None => {
                    if let Some(c2) = sl {
                        assert(links@[c2 as int] == Some(k as usize));
                    }
                },
            }
        }
        let ghost f = fields@[k as int];
        let ghost le_k = spec_le(default_le, opt_view(f.endian));
        assert(les@[k as int] == le_k);
        let step = match holders[k] {
            Some(c) => {
                assert(spec_last_linker(fields@, k as nat, n as nat) == Some(c as nat));
                WriteStep::WriteLenOf { holder: k, content: c, le: les[k] }
            },
            None => {
                assert(spec_last_linker(fields@, k as nat, n as nat) is None);
                let external_len = links[k].is_some() || fields[k].len.is_some();
                assert(external_len == (f.len is Some));
                assert(spec_opt_attr_is(f.writer, field_names(fields@), k as nat, AllowFields::All, writer));
                WriteStep::Write { field: k, le: les[k], external_len, writer }
            },
        };
        let ghost before = steps@;
        steps.push(step);
        assert(steps@[nv + k] == step);
        assert(spec_write_step_is(fields@, k as nat, default_le, steps@[nv + k]));
        assert forall|m: int| 0 <= m < k + 1 implies spec_write_step_is(fields@, m as nat, default_le, #[trigger] steps@[nv + m]) by {
            if m < k {
                assert(steps@[nv + m] == before[nv + m]);
            }
        }
        k = k + 1;
    }
    Ok(steps)
}

/* What the two plans agree on */

/// The byte order a write step writes in.
pub open spec fn write_step_le(s: WriteStep) -> bool {
    match s {
        WriteStep::WriteLenOf { le, .. } => le,
        WriteStep::Write { le, .. } => le,
        WriteStep::Validate { .. } => false,
    }
}

/// Whether `w` writes field `idx` itself, with or without an external length.
pub open spec fn writes_field(w: WriteStep, idx: int, external: bool) -> bool {
    match w {
        WriteStep::Write { field, external_len, .. } => field == idx && external_len == external,
        _ => false,
    }
}

/// Whether no field holds the number of items of two fields.
pub open spec fn spec_len_sources_distinct(fields: Seq<FieldDecl>) -> bool {
    forall|c1: nat, c2: nat|
        #![trigger spec_len_source(fields, c1), spec_len_source(fields, c2)]
        c1 < c2 < fields.len() && spec_len_source(fields, c1) is Some ==> spec_len_source(fields, c1)
            != spec_len_source(fields, c2)
}

/// A derived writer and a derived reader of the same fields go through the fields in the
/// same order and in the same byte orders, and what the reader takes as a field's number of
/// items is what the writer put in its place: for a field whose `len` names field `j`, the
/// writer writes that field's number of items in place of field `j`, and writes the field
/// itself without a count in front of it, just as the reader reads field `j` and then the
/// field with field `j`'s value as its external length. (This asks that no field holds the
/// number of items of two fields: the writer could store only one of them.) Together with
/// each field type reading back what it writes (`SpRoundTrip`) and count fields holding the
/// lengths they are given (`SpCountField`), a derived value without custom readers and
/// writers reads back as itself.
pub proof fn law_plans_agree(fields: Seq<FieldDecl>, endian: Option<Seq<char>>, rp: Vec<ReadStep>, wp: Vec<WriteStep>)
    requires
        spec_read_plan_outcome(fields, endian, Ok(rp)),
        spec_write_plan_outcome(fields, endian, Ok(wp)),
        spec_len_sources_distinct(fields),
    ensures
        rp@.len() == fields.len(),
        wp@.len() == spec_validated(fields, fields.len()).len() + fields.len(),
        forall|idx: int|
            #![trigger rp@[idx]]
            0 <= idx < fields.len() ==> {
                let w = wp@[spec_validated(fields, fields.len()).len() + idx];
                &&& rp@[idx].field == idx
                &&& rp@[idx].le == write_step_le(w)
                &&& (spec_last_linker(fields, idx as nat, fields.len()) is None ==> writes_field(w, idx, rp@[idx].len_from is Some))
                &&& (rp@[idx].len_from matches Some(j) ==> wp@[spec_validated(fields, fields.len()).len() + j]
                    == (WriteStep::WriteLenOf { holder: j, content: idx as usize, le: rp@[j as int].le }))
            },
{
    let n = fields.len();
    let nv = spec_validated(fields, n).len();
    assert(spec_endian_ok(endian));
    assert(spec_first_failure(fields, true, 0) is None);
    lemma_first_failure(fields, true, 0);
    assert forall|idx: int| 0 <= idx < n implies {
        let w = wp@[nv + idx];
        &&& (#[trigger] rp@[idx]).field == idx
        &&& rp@[idx].le == write_step_le(w)
        &&& (spec_last_linker(fields, idx as nat, n) is None ==> writes_field(w, idx, rp@[idx].len_from is Some))
        &&& (rp@[idx].len_from matches Some(j) ==> wp@[nv + j] == (WriteStep::WriteLenOf {
            holder: j,
            content: idx as usize,
            le: rp@[j as int].le,
        }))
    } by {
        assert(spec_read_step_is(fields, idx as nat, spec_le(true, endian), rp@[idx]));
        assert(spec_write_step_is(fields, idx as nat, spec_le(true, endian), wp@[nv + idx]));
        assert(spec_field_ok(fields, idx as nat, true));
        assert(rp@[idx].field == idx);
        assert(rp@[idx].le == write_step_le(wp@[nv + idx]));
        assert(spec_last_linker(fields, idx as nat, n) is None ==> writes_field(wp@[nv + idx], idx, rp@[idx].len_from is Some));
        lemma_len_source_bound(fields, idx as nat);
        if let Some(j) = spec_len_source(fields, idx as nat) {
            let jn = j as nat;
            assert(spec_read_step_is(fields, jn, spec_le(true, endian), rp@[jn as int]));
            assert(spec_write_step_is(fields, jn, spec_le(true, endian), wp@[nv + jn as int]));
            lemma_last_linker(fields, jn, n);
            match spec_last_linker(fields, jn, n) {
                Some(c) => {
                    if c != idx {
                        if c < idx {
                            assert(spec_len_source(fields, c) != spec_len_source(fields, idx as nat));
                        } else {
                            assert(spec_len_source(fields, idx as nat) != spec_len_source(fields, c));
                        }
                    }
                },
                None => {
                    assert(spec_len_source(fields, idx as nat) != Some(jn));
                },
            }
        }
    }
}

/* Enums */

/// A variant of an enum as declared: its name, its `#[sp(id = ..)]` and
/// `#[sp(endian = ..)]` attributes, and its fields.
pub struct VariantDecl {
    pub name: String,
    pub id: Option<usize>,
    pub endian: Option<String>,
    pub fields: Vec<FieldDecl>,
}

/// What a derived enum reader does: set the context's byte order to `id_le`, read the
/// variant id as an `id_type`, take the first variant whose id it is (`UnknownEnumVariant`
/// when there is none, see `variant_for_id`), then carry out that variant's read steps.
pub struct EnumReadPlan {
    pub id_type: String,
    pub id_le: bool,
    pub ids: Vec<usize>,
    pub variants: Vec<Vec<ReadStep>>,
}

/// What a derived enum writer does for a value of variant `i`: set the context's byte order
/// to `id_le`, write `ids[i]` as an `id_type`, then carry out the variant's write steps.
pub struct EnumWritePlan {
    pub id_type: String,
    pub id_le: bool,
    pub ids: Vec<usize>,
    pub variants: Vec<Vec<WriteStep>>,
}

/// The `#[sp(id = ..)]` attributes of the variants.
pub open spec fn explicit_ids(vs: Seq<VariantDecl>) -> Seq<Option<usize>> {
    vs.map_values(|v: VariantDecl| v.id)
}

/// The endianness attribute a variant's fields go by: its own, else the enum's.
pub open spec fn variant_endian(v: VariantDecl, endian: Option<Seq<char>>) -> Option<Seq<char>> {
    match v.endian {
        Some(t) => Some(t@),
        None => endian,
    }
}

/// Whether planning the fields of a variant succeeds.
pub open spec fn spec_fields_ok(fields: Seq<FieldDecl>, endian: Option<Seq<char>>, reading: bool) -> bool {
    spec_endian_ok(endian) && spec_first_failure(fields, reading, 0) is None
}

/// The first variant, from `i` on, whose fields cannot be planned.
pub open spec fn spec_first_bad_variant(
    vs: Seq<VariantDecl>,
    endian: Option<Seq<char>>,
    reading: bool,
    i: nat,
) -> Option<nat>
    decreases vs.len() - i,
{
    if i >= vs.len() {
        None
    } else if !spec_fields_ok(vs[i as int].fields@, variant_endian(vs[i as int], endian), reading) {
        Some(i)
    } else {
        spec_first_bad_variant(vs, endian, reading, i + 1)
    }
}

proof fn lemma_first_bad_variant(vs: Seq<VariantDecl>, endian: Option<Seq<char>>, reading: bool, i: nat, k: nat)
    requires
        i <= k <= vs.len(),
        forall|m: nat| i <= m < k ==> spec_fields_ok(#[trigger] vs[m as int].fields@, variant_endian(vs[m as int], endian), reading),
    ensures
        k < vs.len() && !spec_fields_ok(vs[k as int].fields@, variant_endian(vs[k as int], endian), reading)
            ==> spec_first_bad_variant(vs, endian, reading, i) == Some(k),
        k == vs.len() ==> spec_first_bad_variant(vs, endian, reading, i) is None,
    decreases k - i,
{
    if i < k {
        lemma_first_bad_variant(vs, endian, reading, i + 1, k);
    }
}

/// What is refused of an enum before its variants' fields are looked at, in this order: an
/// unknown endianness (`InvalidEndian`), no variants when reading (`EmptyEnum`), two
/// variants with the same id (`DuplicateId`, for the first variant whose id an earlier one
/// has), an `id_type` that is not a type (`InvalidType`). `None` when none of these holds.
pub open spec fn spec_enum_refusal(
    vs: Seq<VariantDecl>,
    id_type: Option<Seq<char>>,
    endian: Option<Seq<char>>,
    reading: bool,
    e: AttrError,
) -> Option<bool> {
    let ids = spec_variant_ids(explicit_ids(vs));
    if !spec_endian_ok(endian) {
        Some(e matches AttrError::InvalidEndian { text } && Some(text@) == endian)
    } else if reading && vs.len() == 0 {
        Some(e is EmptyEnum)
    } else if exists|i: int, j: int| 0 <= i < j < vs.len() && ids[i] == ids[j] {
        Some(
            e matches AttrError::DuplicateId { first, second } && first < second < vs.len() && ids[first as int]
                == ids[second as int] && forall|a: int, b: int| 0 <= a < b < second ==> ids[a] != ids[b],
        )
    } else if id_type matches Some(t) && !parses_as_type(t) {
        Some(e matches AttrError::InvalidType { name, reason } && Some(name@) == id_type)
    } else {
        None
    }
}

/// Whether the enum is refused before its variants' fields are looked at.
pub open spec fn spec_enum_refused(
    vs: Seq<VariantDecl>,
    id_type: Option<Seq<char>>,
    endian: Option<Seq<char>>,
    reading: bool,
) -> bool {
    spec_enum_refusal(vs, id_type, endian, reading, AttrError::EmptyEnum) is Some
}

/// The id type, byte order and ids of an enum that is not refused.
pub open spec fn spec_enum_ids_are(
    vs: Seq<VariantDecl>,
    id_type: Option<Seq<char>>,
    endian: Option<Seq<char>>,
    plan_id_type: String,
    plan_id_le: bool,
    plan_ids: Seq<usize>,
) -> bool {
    &&& plan_id_type@ == match id_type {
        Some(t) => t,
        None => spec_smallest_type_for_num(spec_max_variant_id(explicit_ids(vs))),
    }
    &&& plan_id_le == spec_le(true, endian)
    &&& plan_ids.len() == vs.len()
    &&& forall|i: int| 0 <= i < vs.len() ==> plan_ids[i] as nat == #[trigger] spec_variant_ids(explicit_ids(vs))[i]
}

/// What planning a derived enum reader gives: the refusals of `spec_enum_refusal`, else the
/// error of the first variant whose fields cannot be planned, else the id type, byte order
/// and ids of the variants and the read steps of each variant's fields.
pub open spec fn spec_enum_read_outcome(
    vs: Seq<VariantDecl>,
    id_type: Option<Seq<char>>,
    endian: Option<Seq<char>>,
    r: Result<EnumReadPlan, AttrError>,
) -> bool {
    if spec_enum_refused(vs, id_type, endian, true) {
        r matches Err(e) && spec_enum_refusal(vs, id_type, endian, true, e) == Some(true)
    } else {
        match spec_first_bad_variant(vs, endian, true, 0) {
            Some(k) => r matches Err(e) && spec_read_plan_outcome(
                vs[k as int].fields@,
                variant_endian(vs[k as int], endian),
                Err(e),
            ),
            None => r matches Ok(p) && spec_enum_ids_are(vs, id_type, endian, p.id_type, p.id_le, p.ids@)
                && p.variants@.len() == vs.len() && forall|i: int|
                0 <= i < vs.len() ==> spec_read_plan_outcome(
                    vs[i].fields@,
                    variant_endian(vs[i], endian),
                    Ok(#[trigger] p.variants@[i]),
                ),
        }
    }
}

/// What planning a derived enum writer gives (as reading, but an enum without variants is
/// not refused: there is no value to write).
pub open spec fn spec_enum_write_outcome(
    vs: Seq<VariantDecl>,
    id_type: Option<Seq<char>>,
    endian: Option<Seq<char>>,
    r: Result<EnumWritePlan, AttrError>,
) -> bool {
    if spec_enum_refused(vs, id_type, endian, false) {
        r matches Err(e) && spec_enum_refusal(vs, id_type, endian, false, e) == Some(true)
    } else {
        match spec_first_bad_variant(vs, endian, false, 0) {
            Some(k) => r matches Err(e) && spec_write_plan_outcome(
                vs[k as int].fields@,
                variant_endian(vs[k as int], endian),
                Err(e),
            ),
            None => r matches Ok(p) && spec_enum_ids_are(vs, id_type, endian, p.id_type, p.id_le, p.ids@)
                && p.variants@.len() == vs.len() && forall|i: int|
                0 <= i < vs.len() ==> spec_write_plan_outcome(
                    vs[i].fields@,
                    variant_endian(vs[i], endian),
                    Ok(#[trigger] p.variants@[i]),
                ),
        }
    }
}

/// The id type, byte order and variant ids of an enum, or what refuses it before its
/// variants' fields are looked at.
fn enum_ids(vs: &Vec<VariantDecl>, id_type: Option<&str>, endian: Option<&str>, reading: bool) -> (r: Result<
    (String, bool, Vec<usize>),
    AttrError,
>)
    requires
        spec_ids_countable(explicit_ids(vs@)),
    ensures
        spec_enum_refused(vs@, opt_str_view(id_type), opt_str_view(endian), reading) <==> r is Err,
        r matches Err(e) ==> spec_enum_refusal(vs@, opt_str_view(id_type), opt_str_view(endian), reading, e)
            == Some(true),
        r matches Ok((t, le, ids)) ==> spec_enum_ids_are(vs@, opt_str_view(id_type), opt_str_view(endian), t, le, ids@),
{
    proof {
        reveal_strlit("little");
    }
    let id_le = match endian {
        None => true,
        Some(t) => match endian_of(t) {
            Some(le) => le,
            None => {
                return Err(AttrError::InvalidEndian { text: t.to_owned() });
            },
        },
    };
    if reading && vs.len() == 0 {
        return Err(AttrError::EmptyEnum);
    }
    let mut explicit: Vec<Option<usize>> = Vec::new();
    let mut i: usize = 0;
    while i < vs.len()
        invariant
            i <= vs@.len(),
            explicit@ == explicit_ids(vs@).take(i as int),
        decreases vs@.len() - i,
    {
        explicit.push(vs[i].id);
        assert(explicit_ids(vs@).take(i + 1) =~= explicit_ids(vs@).take(i as int).push(vs@[i as int].id));
        i = i + 1;
    }
    assert(explicit_ids(vs@).take(vs@.len() as int) =~= explicit_ids(vs@));
    let ids = variant_ids(&explicit);
    let ghost sids = spec_variant_ids(explicit_ids(vs@));
    match find_duplicate_variant_id(&ids) {
        Some((first, second)) => {
            assert(sids[first as int] == ids@[first as int] as nat);
            assert(sids[second as int] == ids@[second as int] as nat);
            assert forall|a: int, b: int| 0 <= a < b < second implies sids[a] != sids[b] by {
                assert(sids[a] == ids@[a] as nat);
                assert(sids[b] == ids@[b] as nat);
            }
            return Err(AttrError::DuplicateId { first, second });
        },
        None => {
            assert forall|a: int, b: int| 0 <= a < b < vs@.len() implies sids[a] != sids[b] by {
                assert(sids[a] == ids@[a] as nat);
                assert(sids[b] == ids@[b] as nat);
            }
        },
    }
    match get_enum_id_type(&explicit, id_type) {
        Ok(t) => Ok((t, id_le, ids)),
        Err(e) => Err(e),
    }
}

/// The endianness attribute a variant's fields go by: its own, else the enum's.
fn variant_endian_of<'a>(v: &'a VariantDecl, endian: Option<&'a str>) -> (r: Option<&'a str>)
    ensures
        opt_str_view(r) == variant_endian(*v, opt_str_view(endian)),
{
    match &v.endian {
        Some(t) => Some(t.as_str()),
        None => endian,
    }
}

/// The plan of a derived enum reader (see `spec_enum_read_outcome`).
pub fn enum_read_plan(vs: &Vec<VariantDecl>, id_type: Option<&str>, endian: Option<&str>) -> (r: Result<
    EnumReadPlan,
    AttrError,
>)
    requires
        spec_ids_countable(explicit_ids(vs@)),
    ensures
        spec_enum_read_outcome(vs@, opt_str_view(id_type), opt_str_view(endian), r),
{
    let (t, id_le, ids) = enum_ids(vs, id_type, endian, true)?;
    let mut variants: Vec<Vec<ReadStep>> = Vec::new();
    let mut i: usize = 0;
    while i < vs.len()
        invariant
            i <= vs@.len(),
            variants@.len() == i,
            !spec_enum_refused(vs@, opt_str_view(id_type), opt_str_view(endian), true),
            forall|m: nat| m < i ==> spec_fields_ok(#[trigger] vs@[m as int].fields@, variant_endian(vs@[m as int], opt_str_view(endian)), true),
            forall|m: int| 0 <= m < i ==> spec_read_plan_outcome(
                vs@[m].fields@,
                variant_endian(vs@[m], opt_str_view(endian)),
                Ok(#[trigger] variants@[m]),
            ),
        decreases vs@.len() - i,
    {
        let e = variant_endian_of(&vs[i], endian);
        match fields_read_plan(&vs[i].fields, e) {
            Ok(p) => {
                variants.push(p);
            },
            Err(err) => {
                proof {
                    lemma_first_bad_variant(vs@, opt_str_view(endian), true, 0, i as nat);
                }
                return Err(err);
            },
        }
        i = i + 1;
    }
    proof {
        lemma_first_bad_variant(vs@, opt_str_view(endian), true, 0, vs@.len());
    }
    Ok(EnumReadPlan { id_type: t, id_le, ids, variants })
}

/// The plan of a derived enum writer (see `spec_enum_write_outcome`).
pub fn enum_write_plan(vs: &Vec<VariantDecl>, id_type: Option<&str>, endian: Option<&str>) -> (r: Result<
    EnumWritePlan,
    AttrError,
>)
    requires
        spec_ids_countable(explicit_ids(vs@)),
    ensures
        spec_enum_write_outcome(vs@, opt_str_view(id_type), opt_str_view(endian), r),
{
    let (t, id_le, ids) = enum_ids(vs, id_type, endian, false)?;
    let mut variants: Vec<Vec<WriteStep>> = Vec::new();
    let mut i: usize = 0;
    while i < vs.len()
        invariant
            i <= vs@.len(),
            variants@.len() == i,
            !spec_enum_refused(vs@, opt_str_view(id_type), opt_str_view(endian), false),
            forall|m: nat| m < i ==> spec_fields_ok(#[trigger] vs@[m as int].fields@, variant_endian(vs@[m as int], opt_str_view(endian)), false),
            forall|m: int| 0 <= m < i ==> spec_write_plan_outcome(
                vs@[m].fields@,
                variant_endian(vs@[m], opt_str_view(endian)),
                Ok(#[trigger] variants@[m]),
            ),
        decreases vs@.len() - i,
    {
        let e = variant_endian_of(&vs[i], endian);
        match fields_write_plan(&vs[i].fields, e) {
            Ok(p) => {
                variants.push(p);
            },
            Err(err) => {
                proof {
                    lemma_first_bad_variant(vs@, opt_str_view(endian), false, 0, i as nat);
                }
                return Err(err);
            },
        }
        i = i + 1;
    }
    proof {
        lemma_first_bad_variant(vs@, opt_str_view(endian), false, 0, vs@.len());
    }
    Ok(EnumWritePlan { id_type: t, id_le, ids, variants })
}

/// A derived enum writer and reader agree: the same id type, byte order and ids, all ids
/// different (so each variant's id selects that variant, see `law_distinct_ids_select`), and
/// for each variant the write and read steps of its fields (to which `law_plans_agree`
/// applies).
pub proof fn law_enum_plans_agree(
    vs: Seq<VariantDecl>,
    id_type: Option<Seq<char>>,
    endian: Option<Seq<char>>,
    rp: EnumReadPlan,
    wp: EnumWritePlan,
)
    requires
        spec_enum_read_outcome(vs, id_type, endian, Ok(rp)),
        spec_enum_write_outcome(vs, id_type, endian, Ok(wp)),
    ensures
        rp.id_type@ == wp.id_type@,
        rp.id_le == wp.id_le,
        rp.ids@ == wp.ids@,
        forall|i: int, j: int| 0 <= i < j < rp.ids@.len() ==> rp.ids@[i] != rp.ids@[j],
        rp.variants@.len() == wp.variants@.len() == vs.len(),
        forall|i: int|
            0 <= i < vs.len() ==> spec_read_plan_outcome(
                vs[i].fields@,
                variant_endian(vs[i], endian),
                Ok(#[trigger] rp.variants@[i]),
            ) && spec_write_plan_outcome(vs[i].fields@, variant_endian(vs[i], endian), Ok(wp.variants@[i])),
{
    let sids = spec_variant_ids(explicit_ids(vs));
    assert(!spec_enum_refused(vs, id_type, endian, true));
    assert(rp.ids@ =~= wp.ids@) by {
        assert forall|i: int| 0 <= i < vs.len() implies rp.ids@[i] == wp.ids@[i] by {
            assert(rp.ids@[i] as nat == sids[i]);
            assert(wp.ids@[i] as nat == sids[i]);
        }
    }
    assert forall|i: int, j: int| 0 <= i < j < rp.ids@.len() implies rp.ids@[i] != rp.ids@[j] by {
        assert(rp.ids@[i] as nat == sids[i]);
        assert(rp.ids@[j] as nat == sids[j]);
    }
}

} // verus!
