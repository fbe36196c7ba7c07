//! The decisions that deriving `SpRead`/`SpWrite` makes from a type's declaration and its
//! `#[sp(..)]` attributes: byte orders, enum variant ids and the type that holds them,
//! which fields hold the length of others, and how large the fixed part of a type is.
use vstd::prelude::*;
use crate::SpError;
use crate::custom_attr::{parse_type, parses_as_type, AttrError};
use vstd::utf8::encode_utf8;
use vstd::string::{StrSliceExecFns, StringExecFns};

verus! {

/// Whether two strings hold the same characters (compared through their UTF-8 bytes).
pub fn str_equal(a: &str, b: &str) -> (r: bool)
    ensures
        r == (a@ == b@),
{
    broadcast use vstd::utf8::encode_utf8_decode_utf8;

    let x = a.as_bytes();
    let y = b.as_bytes();
    if x.len() != y.len() {
        proof {
            if a@ == b@ {
                assert(x@ == y@);
            }
        }
        return false;
    }
    let mut i: usize = 0;
    while i < x.len()
        invariant
            i <= x@.len(),
            x@.len() == y@.len(),
            forall|j: int| 0 <= j < i ==> x@[j] == y@[j],
            x@ == encode_utf8(a@),
            y@ == encode_utf8(b@),
        decreases x@.len() - i,
    {
        if x[i] != y[i] {
            proof {
                if a@ == b@ {
                    assert(x@ == y@);
                }
            }
            return false;
        }
        i = i + 1;
    }
    proof {
        assert(x@ =~= y@);
        assert(vstd::utf8::decode_utf8(encode_utf8(a@)) == a@);
        assert(vstd::utf8::decode_utf8(encode_utf8(b@)) == b@);
    }
    true
}

/// Returns whether the string is set to "little" (the other accepted value being "big").
pub fn is_lower_endian(val: &str) -> (r: bool)
    requires
        val@ == "little"@ || val@ == "big"@,
    ensures
        r == (val@ == "little"@),
{
    str_equal(val, "little")
}

/// The name of the smallest unsigned integer type that holds `num`.
pub open spec fn spec_smallest_type_for_num(num: nat) -> Seq<char> {
    if num <= u8::MAX {
        "u8"@
    } else if num <= u16::MAX {
        "u16"@
    } else if num <= u32::MAX {
        "u32"@
    } else if num <= u64::MAX {
        "u64"@
    } else {
        "u128"@
    }
}

/// Returns the smallest unsigned integer type for a given usize value
pub fn smallest_type_for_num(num: usize) -> (r: &'static str)
    ensures
        r@ == spec_smallest_type_for_num(num as nat),
{
    if num <= u8::MAX as usize {
        "u8"
    } else if num <= u16::MAX as usize {
        "u16"
    } else if num as u128 <= u32::MAX as u128 {
        "u32"
    } else if num as u128 <= u64::MAX as u128 {
        "u64"
    } else {
        "u128"
    }
}

/// The ids the variants of an enum get, in order: the id given explicitly (`#[sp(id = ..)]`),
/// else one more than the id of the variant before (`0` for the first variant).
pub open spec fn spec_variant_ids(explicit: Seq<Option<usize>>) -> Seq<nat>
    decreases explicit.len(),
{
    if explicit.len() == 0 {
        seq![]
    } else {
        let before = spec_variant_ids(explicit.drop_last());
        let auto = if before.len() == 0 {
            0
        } else {
            before.last() + 1
        };
        before.push(
            match explicit.last() {
                Some(id) => id as nat,
                None => auto,
            },
        )
    }
}

proof fn lemma_variant_ids_len(explicit: Seq<Option<usize>>)
    ensures
        spec_variant_ids(explicit).len() == explicit.len(),
    decreases explicit.len(),
{
    if explicit.len() > 0 {
        lemma_variant_ids_len(explicit.drop_last());
    }
}

/// Whether counting up from every id stays within `usize` (so that no id is `usize::MAX`).
pub open spec fn spec_ids_countable(explicit: Seq<Option<usize>>) -> bool {
    forall|i: int| 0 <= i < explicit.len() ==> #[trigger] spec_variant_ids(explicit)[i] < usize::MAX
}

/// Assigns ids to the variants of an enum (see `spec_variant_ids`).
pub fn variant_ids(explicit: &Vec<Option<usize>>) -> (r: Vec<usize>)
    requires
        spec_ids_countable(explicit@),
    ensures
        r@.len() == explicit@.len(),
        forall|i: int| 0 <= i < r@.len() ==> r@[i] as nat == #[trigger] spec_variant_ids(explicit@)[i],
{
    proof {
        lemma_variant_ids_len(explicit@);
    }
    let mut ids: Vec<usize> = Vec::new();
    let mut next_variant_id: usize = 0;
    let mut i: usize = 0;
    while i < explicit.len()
        invariant
            i <= explicit@.len(),
            spec_ids_countable(explicit@),
            spec_variant_ids(explicit@).len() == explicit@.len(),
            ids@.len() == i,
            forall|k: int| 0 <= k < i ==> ids@[k] as nat == #[trigger] spec_variant_ids(
                explicit@.take(i as int),
            )[k],
            next_variant_id as nat == if i == 0 {
                0
            } else {
                spec_variant_ids(explicit@.take(i as int)).last() + 1
            },
        decreases explicit@.len() - i,
    {
        let ghost upto = explicit@.take(i + 1);
        proof {
            assert(upto.drop_last() =~= explicit@.take(i as int));
            lemma_variant_ids_len(explicit@.take(i as int));
            lemma_ids_prefix(explicit@, (i + 1) as nat);
        }
        let id = match explicit[i] {
            Some(id) => id,
            None => next_variant_id,
        };
        assert(id as nat == spec_variant_ids(upto).last());
        assert(spec_variant_ids(upto)[i as int] == spec_variant_ids(explicit@)[i as int]);
        assert(spec_variant_ids(explicit@)[i as int] < usize::MAX);
        ids.push(id);
        next_variant_id = id + 1;
        i = i + 1;
    }
    proof {
        assert(explicit@.take(explicit@.len() as int) =~= explicit@);
    }
    ids
}

/// The ids of the first `n` variants do not depend on the variants after them.
proof fn lemma_ids_prefix(explicit: Seq<Option<usize>>, n: nat)
    requires
        n <= explicit.len(),
    ensures
        spec_variant_ids(explicit.take(n as int)).len() == n,
        forall|k: int| 0 <= k < n ==> #[trigger] spec_variant_ids(explicit.take(n as int))[k]
            == spec_variant_ids(explicit)[k],
    decreases explicit.len(),
{
    lemma_variant_ids_len(explicit.take(n as int));
    lemma_variant_ids_len(explicit);
    if n < explicit.len() {
        assert(explicit.drop_last().take(n as int) =~= explicit.take(n as int));
        lemma_ids_prefix(explicit.drop_last(), n);
    } else {
        assert(explicit.take(n as int) =~= explicit);
    }
}

/// Finds the first variant whose id an earlier variant already has: `Some((earlier, later))`,
/// or `None` when all ids are different.
pub fn find_duplicate_variant_id(ids: &Vec<usize>) -> (r: Option<(usize, usize)>)
    ensures
        r is None <==> forall|i: int, j: int| 0 <= i < j < ids@.len() ==> ids@[i] != ids@[j],
        r matches Some((i, j)) ==> {
            &&& i < j < ids@.len()
            &&& ids@[i as int] == ids@[j as int]
            &&& forall|a: int, b: int| 0 <= a < b < j ==> ids@[a] != ids@[b]
        },
{
    let mut j: usize = 0;
    while j < ids.len()
        invariant
            j <= ids@.len(),
            forall|a: int, b: int| 0 <= a < b < j ==> ids@[a] != ids@[b],
        decreases ids@.len() - j,
    {
        let mut i: usize = 0;
        while i < j
            invariant
                i <= j < ids@.len(),
                forall|a: int, b: int| 0 <= a < b < j ==> ids@[a] != ids@[b],
                forall|a: int| 0 <= a < i ==> ids@[a] != ids@[j as int],
            decreases j - i,
        {
            if ids[i] == ids[j] {
                return Some((i, j));
            }
            i = i + 1;
        }
        j = j + 1;
    }
    None
}

/// The largest of some numbers (`0` when there are none).
pub open spec fn seq_max(s: Seq<nat>) -> nat
    decreases s.len(),
{
    if s.len() == 0 {
        0
    } else {
        let m = seq_max(s.drop_last());
        if s.last() > m {
            s.last()
        } else {
            m
        }
    }
}

/// The largest variant id of an enum (`0` without variants).
pub open spec fn spec_max_variant_id(explicit: Seq<Option<usize>>) -> nat {
    seq_max(spec_variant_ids(explicit))
}

/// The type a derived enum reads and writes its variant id as: the one named by
/// `#[sp(id_type = ..)]`, which has to be a Rust type (else `InvalidType`), or else the
/// smallest unsigned type that holds the biggest variant id. An enum whose variants do not
/// all have different ids is refused by deriving (`find_duplicate_variant_id` finds the pair).
pub fn get_enum_id_type(explicit: &Vec<Option<usize>>, id_type: Option<&str>) -> (r: Result<
    String,
    AttrError,
>)
    requires
        spec_ids_countable(explicit@),
        forall|i: int, j: int|
            0 <= i < j < explicit@.len() ==> spec_variant_ids(explicit@)[i] != spec_variant_ids(
                explicit@,
            )[j],
    ensures
        match id_type {
            Some(t) => if parses_as_type(t@) {
                r matches Ok(s) && s@ == t@
            } else {
                r matches Err(AttrError::InvalidType { name, reason }) && name@ == t@
            },
            None => r matches Ok(s) && s@ == spec_smallest_type_for_num(
                spec_max_variant_id(explicit@),
            ),
        },
{
    broadcast use vstd::string::to_string_from_display_ensures_for_str;

    match id_type {
        Some(t) => {
            return match parse_type(t) {
                Ok(()) => Ok(t.to_owned()),
                Err(reason) => Err(AttrError::InvalidType { name: t.to_owned(), reason }),
            };
        },
        None => {},
    }
    let ids = variant_ids(explicit);
    let ghost all = spec_variant_ids(explicit@);
    proof {
        lemma_variant_ids_len(explicit@);
    }
    let mut biggest: usize = 0;
    let mut i: usize = 0;
    assert(all.take(0) =~= Seq::<nat>::empty());
    while i < ids.len()
        invariant
            i <= ids@.len() == all.len(),
            all == spec_variant_ids(explicit@),
            forall|k: int| 0 <= k < ids@.len() ==> ids@[k] as nat == #[trigger] all[k],
            biggest as nat == seq_max(all.take(i as int)),
        decreases ids@.len() - i,
    {
        assert(all.take(i + 1).drop_last() =~= all.take(i as int));
        assert(ids@[i as int] as nat == all[i as int]);
        if ids[i] > biggest {
            biggest = ids[i];
        }
        i = i + 1;
    }
    assert(all.take(ids@.len() as int) =~= all);
    let name = smallest_type_for_num(biggest);
    Ok(name.to_owned())
}

/// Whether variant `i` is the first variant with id `id`.
pub open spec fn spec_selects(ids: Seq<usize>, id: u128, i: nat) -> bool {
    i < ids.len() && ids[i as int] as u128 == id && forall|j: int| 0 <= j < i ==> ids[j] as u128 != id
}

/// When no two variants have the same id, the id of each variant selects that variant (and
/// only that one): what a derived reader decodes is the variant a derived writer wrote.
pub proof fn law_distinct_ids_select(ids: Seq<usize>, k: nat)
    requires
        k < ids.len(),
        forall|i: int, j: int| 0 <= i < j < ids.len() ==> ids[i] != ids[j],
    ensures
        spec_selects(ids, ids[k as int] as u128, k),
        forall|i: nat| #[trigger] spec_selects(ids, ids[k as int] as u128, i) ==> i == k,
{
    assert forall|i: nat| #[trigger] spec_selects(ids, ids[k as int] as u128, i) implies i == k by {
        if i < k {
            assert(ids[i as int] != ids[k as int]);
        } else if i > k {
            assert(ids[k as int] != ids[i as int]);
        }
    }
}

/// Which variant an id read from the input selects: the first variant with that id; an id
/// that no variant has is refused with `UnknownEnumVariant`.
pub fn variant_for_id(ids: &Vec<usize>, id: u128) -> (r: Result<usize, SpError>)
    ensures
        r matches Ok(i) ==> spec_selects(ids@, id, i as nat),
        r is Err ==> (r matches Err(SpError::UnknownEnumVariant)) && forall|j: int|
            0 <= j < ids@.len() ==> ids@[j] as u128 != id,
{
    let mut i: usize = 0;
    while i < ids.len()
        invariant
            i <= ids@.len(),
            forall|j: int| 0 <= j < i ==> ids@[j] as u128 != id,
        decreases ids@.len() - i,
    {
        if ids[i] as u128 == id {
            return Ok(i);
        }
        i = i + 1;
    }
    Err(SpError::UnknownEnumVariant)
}

/* Fields that hold the length of other fields */

/// Finds the first field before `idx` that is named `target`.
pub fn find_field_before(names: &Vec<String>, idx: usize, target: &str) -> (r: Option<usize>)
    requires
        idx <= names@.len(),
    ensures
        r matches Some(i) ==> i < idx && names@[i as int]@ == target@ && forall|j: int|
            0 <= j < i ==> names@[j]@ != target@,
        r is None ==> forall|j: int| 0 <= j < idx ==> names@[j]@ != target@,
{
    let mut i: usize = 0;
    while i < idx
        invariant
            i <= idx <= names@.len(),
            forall|j: int| 0 <= j < i ==> names@[j]@ != target@,
        decreases idx - i,
    {
        if str_equal(names[i].as_str(), target) {
            return Some(i);
        }
        i = i + 1;
    }
    None
}

/// Whether every `#[sp(len = ..)]` names a field that comes before the annotated one
/// (deriving refuses the type otherwise).
pub open spec fn spec_len_fields_resolve(names: Seq<String>, len_attrs: Seq<Option<String>>) -> bool {
    forall|idx: int|
        0 <= idx < len_attrs.len() && #[trigger] len_attrs[idx] is Some ==> exists|j: int|
            0 <= j < idx && names[j]@ == len_attrs[idx]->Some_0@
}

/// For each field, the field that holds its number of items (`#[sp(len = ..)]`): the first
/// field before it with that name; `None` for fields without the attribute.
pub fn len_field_links(names: &Vec<String>, len_attrs: &Vec<Option<String>>) -> (r: Vec<Option<usize>>)
    requires
        names@.len() == len_attrs@.len(),
        spec_len_fields_resolve(names@, len_attrs@),
    ensures
        r@.len() == len_attrs@.len(),
        forall|idx: int|
            0 <= idx < r@.len() ==> match #[trigger] len_attrs@[idx] {
                None => r@[idx] is None,
                Some(t) => r@[idx] matches Some(j) && j < idx && names@[j as int]@ == t@ && forall|
                    k: int,
                | 0 <= k < j ==> names@[k]@ != t@,
            },
{
    let mut links: Vec<Option<usize>> = Vec::new();
    let mut idx: usize = 0;
    while idx < len_attrs.len()
        invariant
            idx <= len_attrs@.len(),
            names@.len() == len_attrs@.len(),
            spec_len_fields_resolve(names@, len_attrs@),
            links@.len() == idx,
            forall|i: int|
                0 <= i < idx ==> match #[trigger] len_attrs@[i] {
                    None => links@[i] is None,
                    Some(t) => links@[i] matches Some(j) && j < i && names@[j as int]@ == t@
                        && forall|k: int| 0 <= k < j ==> names@[k]@ != t@,
                },
        decreases len_attrs@.len() - idx,
    {
        match &len_attrs[idx] {
            None => {
                links.push(None);
            },
            Some(t) => {
                let found = find_field_before(names, idx, t.as_str());
                proof {
                    assert(len_attrs@[idx as int] is Some);
                    if found is None {
                        let j = choose|j: int| 0 <= j < idx && names@[j]@ == len_attrs@[idx as int]->Some_0@;
                        assert(names@[j]@ != t@);
                    }
                }
                links.push(found);
            },
        }
        idx = idx + 1;
    }
    links
}

/// The last field that links to field `k`.
fn last_link_to(links: &Vec<Option<usize>>, k: usize) -> (r: Option<usize>)
    ensures
        r matches Some(j) ==> j < links@.len() && links@[j as int] == Some(k) && forall|j2: int|
            j < j2 < links@.len() ==> links@[j2] != Some(k),
        r is None ==> forall|j: int| 0 <= j < links@.len() ==> links@[j] != Some(k),
{
    let mut j: usize = links.len();
    while j > 0
        invariant
            j <= links@.len(),
            forall|j2: int| j <= j2 < links@.len() ==> links@[j2] != Some(k),
        decreases j,
    {
        j = j - 1;
        if links[j] == Some(k) {
            return Some(j);
        }
    }
    None
}

/// For each field, the field whose number of items it holds, as writing needs it: the last
/// field that links to it (see `len_field_links`), or `None`.
pub fn count_holders(links: &Vec<Option<usize>>) -> (r: Vec<Option<usize>>)
    ensures
        r@.len() == links@.len(),
        forall|k: int|
            0 <= k < r@.len() ==> match #[trigger] r@[k] {
                Some(j) => j < links@.len() && links@[j as int] == Some(k as usize) && forall|
                    j2: int,
                | j < j2 < links@.len() ==> links@[j2] != Some(k as usize),
                None => forall|j: int| 0 <= j < links@.len() ==> links@[j] != Some(k as usize),
            },
{
    let mut holders: Vec<Option<usize>> = Vec::new();
    let mut k: usize = 0;
    while k < links.len()
        invariant
            k <= links@.len(),
            holders@.len() == k,
            forall|i: int|
                0 <= i < k ==> match #[trigger] holders@[i] {
                    Some(j) => j < links@.len() && links@[j as int] == Some(i as usize) && forall|
                        j2: int,
                    | j < j2 < links@.len() ==> links@[j2] != Some(i as usize),
                    None => forall|j: int| 0 <= j < links@.len() ==> links@[j] != Some(i as usize),
                },
        decreases links@.len() - k,
    {
        let found = last_link_to(links, k);
        holders.push(found);
        k = k + 1;
    }
    holders
}

/* Byte orders of fields */

/// The byte order of each field: its own `#[sp(endian = ..)]`, else the one of the type.
pub fn field_byte_orders(default_is_le: bool, field_endians: &Vec<Option<String>>) -> (r: Vec<bool>)
    requires
        forall|i: int|
            0 <= i < field_endians@.len() ==> (#[trigger] field_endians@[i] matches Some(e) ==> (
            e@ == "little"@ || e@ == "big"@)),
    ensures
        r@.len() == field_endians@.len(),
        forall|i: int|
            0 <= i < r@.len() ==> r@[i] == match #[trigger] field_endians@[i] {
                Some(e) => e@ == "little"@,
                None => default_is_le,
            },
{
    let mut les: Vec<bool> = Vec::new();
    let mut i: usize = 0;
    while i < field_endians.len()
        invariant
            i <= field_endians@.len(),
            les@.len() == i,
            forall|k: int|
                0 <= k < field_endians@.len() ==> (#[trigger] field_endians@[k] matches Some(e) ==> (
                e@ == "little"@ || e@ == "big"@)),
            forall|k: int|
                0 <= k < i ==> les@[k] == match #[trigger] field_endians@[k] {
                    Some(e) => e@ == "little"@,
                    None => default_is_le,
                },
        decreases field_endians@.len() - i,
    {
        let le = match &field_endians[i] {
            Some(e) => is_lower_endian(e.as_str()),
            None => default_is_le,
        };
        les.push(le);
        i = i + 1;
    }
    les
}

/* The fixed-size part of a type */

/// The sum of the first `n` sizes.
pub open spec fn sum_sizes(sizes: Seq<usize>, n: nat) -> nat
    decreases n,
{
    if n == 0 || n > sizes.len() {
        0
    } else {
        sum_sizes(sizes, (n - 1) as nat) + sizes[n - 1] as nat
    }
}

/// How many fields count towards the fixed-size part of a struct: all of them up to and
/// including the first variably sized one.
pub open spec fn spec_fixed_fields(is_var: Seq<bool>) -> nat
    decreases is_var.len(),
{
    if is_var.len() == 0 {
        0
    } else if is_var[0] {
        1
    } else {
        1 + spec_fixed_fields(is_var.drop_first())
    }
}

proof fn lemma_fixed_fields_step(is_var: Seq<bool>, i: nat)
    requires
        i < is_var.len(),
        forall|k: int| 0 <= k < i ==> !is_var[k],
    ensures
        spec_fixed_fields(is_var) == if is_var[i as int] {
            i + 1
        } else {
            i + 1 + spec_fixed_fields(is_var.skip((i + 1) as int))
        },
    decreases i,
{
    if i > 0 {
        lemma_fixed_fields_step(is_var.drop_first(), (i - 1) as nat);
        assert(is_var.drop_first().skip(i as int) =~= is_var.skip((i + 1) as int));
    }
}

/// The hints deriving gives a struct: whether it is variably sized (has a variably sized
/// field), and the size of its fixed part: the sizes of its fields added up to and including
/// the first variably sized one.
pub fn struct_hints(sizes: &Vec<usize>, is_var: &Vec<bool>) -> (r: (bool, usize))
    requires
        sizes@.len() == is_var@.len(),
        sum_sizes(sizes@, spec_fixed_fields(is_var@)) <= usize::MAX,
    ensures
        r.0 == exists|i: int| 0 <= i < is_var@.len() && is_var@[i],
        r.1 == sum_sizes(sizes@, spec_fixed_fields(is_var@)),
{
    let mut static_size: usize = 0;
    let mut got_var = false;
    let mut idx: usize = 0;
    while idx < sizes.len()
        invariant
            idx <= sizes@.len() == is_var@.len(),
            sum_sizes(sizes@, spec_fixed_fields(is_var@)) <= usize::MAX,
            got_var == exists|i: int| 0 <= i < idx && is_var@[i],
            !got_var ==> static_size == sum_sizes(sizes@, idx as nat) && spec_fixed_fields(is_var@)
                >= idx,
            got_var ==> static_size == sum_sizes(sizes@, spec_fixed_fields(is_var@)),
        decreases sizes@.len() - idx,
    {
        if !got_var {
            proof {
                lemma_fixed_fields_step(is_var@, idx as nat);
                lemma_fixed_fields_bound(is_var@);
                lemma_sum_sizes_monotone(sizes@, (idx + 1) as nat, spec_fixed_fields(is_var@));
            }
            static_size = static_size + sizes[idx];
        }
        if is_var[idx] {
            got_var = true;
        }
        idx = idx + 1;
    }
    proof {
        if !got_var {
            lemma_fixed_fields_all(is_var@);
        }
    }
    (got_var, static_size)
}

proof fn lemma_sum_sizes_monotone(sizes: Seq<usize>, a: nat, b: nat)
    requires
        a <= b <= sizes.len(),
    ensures
        sum_sizes(sizes, a) <= sum_sizes(sizes, b),
    decreases b,
{
    if a < b {
        lemma_sum_sizes_monotone(sizes, a, (b - 1) as nat);
    }
}

proof fn lemma_fixed_fields_bound(is_var: Seq<bool>)
    ensures
        spec_fixed_fields(is_var) <= is_var.len(),
    decreases is_var.len(),
{
    if is_var.len() > 0 {
        lemma_fixed_fields_bound(is_var.drop_first());
    }
}

proof fn lemma_fixed_fields_all(is_var: Seq<bool>)
    requires
        forall|k: int| 0 <= k < is_var.len() ==> !is_var[k],
    ensures
        spec_fixed_fields(is_var) == is_var.len(),
    decreases is_var.len(),
{
    if is_var.len() > 0 {
        lemma_fixed_fields_all(is_var.drop_first());
    }
}

/// Whether two neighbouring variants have fixed parts of different sizes.
pub open spec fn spec_sizes_differ(sizes: Seq<usize>) -> bool {
    exists|i: int| 0 <= i && i + 1 < sizes.len() && #[trigger] sizes[i] != sizes[i + 1]
}

/// The hints deriving gives an enum, from the size of its id type and the hints of its
/// variants: it is variably sized when a variant is or when the variants' fixed parts differ
/// in size; its fixed part is the id, plus the common size of the variants' fixed parts when
/// they all have the same.
pub fn enum_hints(id_size: usize, sizes: &Vec<usize>, is_var: &Vec<bool>) -> (r: (bool, usize))
    requires
        sizes@.len() == is_var@.len(),
        sizes@.len() > 0 ==> id_size + sizes@.last() <= usize::MAX,
    ensures
        sizes@.len() == 0 ==> r == (false, id_size),
        sizes@.len() > 0 ==> r.0 == ((exists|i: int| 0 <= i < is_var@.len() && is_var@[i])
            || spec_sizes_differ(sizes@)),
        sizes@.len() > 0 ==> r.1 == id_size + if spec_sizes_differ(sizes@) {
            0
        } else {
            sizes@.last() as int
        },
{
    let num_variants = sizes.len();
    if num_variants == 0 {
        return (false, id_size);
    }
    let mut is_var_any = false;
    let mut differ = false;
    let mut idx: usize = 0;
    while idx < num_variants
        invariant
            idx <= num_variants == sizes@.len() == is_var@.len(),
            is_var_any == exists|i: int| 0 <= i < idx && is_var@[i],
            differ == exists|i: int| 0 <= i && i + 1 < idx && #[trigger] sizes@[i] != sizes@[i + 1],
        decreases num_variants - idx,
    {
        if is_var[idx] {
            is_var_any = true;
        }
        if idx > 0 && sizes[idx - 1] != sizes[idx] {
            differ = true;
        }
        idx = idx + 1;
    }
    let static_size = if !differ { sizes[num_variants - 1] } else { 0 };
    (is_var_any || differ, id_size + static_size)
}

/* Names of fields in generated code */

/// The character of the decimal digit `d`.
pub open spec fn spec_digit(d: nat) -> char {
    ('0' as nat + d) as char
}

/// The decimal digits of `n`, without leading zeros.
pub open spec fn spec_decimal(n: nat) -> Seq<char>
    decreases n,
{
    if n < 10 {
        seq![spec_digit(n)]
    } else {
        spec_decimal(n / 10).push(spec_digit(n % 10))
    }
}

/// The decimal digit `d`, below 10, as a string.
fn digit_str(d: usize) -> (r: &'static str)
    requires
        d < 10,
    ensures
        r@ == seq![spec_digit(d as nat)],
{
    proof {
        reveal_strlit("0");
        reveal_strlit("1");
        reveal_strlit("2");
        reveal_strlit("3");
        reveal_strlit("4");
        reveal_strlit("5");
        reveal_strlit("6");
        reveal_strlit("7");
        reveal_strlit("8");
        reveal_strlit("9");
    }
    if d == 0 {
        "0"
    } else if d == 1 {
        "1"
    } else if d == 2 {
        "2"
    } else if d == 3 {
        "3"
    } else if d == 4 {
        "4"
    } else if d == 5 {
        "5"
    } else if d == 6 {
        "6"
    } else if d == 7 {
        "7"
    } else if d == 8 {
        "8"
    } else {
        "9"
    }
}

/// The decimal digits of `n`, without sign or leading zeros (what `n.to_string()` gives).
fn decimal(n: usize) -> (r: String)
    ensures
        r@ == spec_decimal(n as nat),
    decreases n,
{
    if n < 10 {
        let mut s = String::new();
        s.append(digit_str(n));
        s
    } else {
        let mut s = decimal(n / 10);
        s.append(digit_str(n % 10));
        s
    }
}

/// The name that generated code uses for field number `idx`: its identifier, or
/// `field_{idx}` for a tuple field; behind `obj_name.` when there is an object
/// (`obj_name.{idx}` for a tuple field); with a `*` in front when references are to be
/// dereferenced and the field's type (as text) starts with `&`.
pub open spec fn spec_field_name(
    ident: Option<Seq<char>>,
    idx: nat,
    obj_name: Option<Seq<char>>,
    deref_references: bool,
    field_type: Seq<char>,
) -> Seq<char> {
    let base = match ident {
        Some(i) => match obj_name {
            Some(o) => o + seq!['.'] + i,
            None => i,
        },
        None => match obj_name {
            Some(o) => o + seq!['.'] + spec_decimal(idx),
            None => "field_"@ + spec_decimal(idx),
        },
    };
    if deref_references && field_type.len() > 0 && field_type[0] == '&' {
        seq!['*'] + base
    } else {
        base
    }
}

/// Returns the name of a field as generated code refers to it (see `spec_field_name`).
pub fn generate_field_name(
    ident: Option<&str>,
    idx: usize,
    obj_name: Option<&str>,
    deref_references: bool,
    field_type: &str,
) -> (r: String)
    ensures
        r@ == spec_field_name(
            match ident {
                Some(i) => Some(i@),
                None => None,
            },
            idx as nat,
            match obj_name {
                Some(o) => Some(o@),
                None => None,
            },
            deref_references,
            field_type@,
        ),
{
    let mut fname = match ident {
        Some(i) => match obj_name {
            Some(name) => {
                let mut s = name.to_owned();
                s.append(".");
                s.append(i);
                proof {
                    reveal_strlit(".");
                }
                s
            },
            None => i.to_owned(),
        },
        None => match obj_name {
            Some(name) => {
                let mut s = name.to_owned();
                s.append(".");
                let digits = decimal(idx);
                s.append(digits.as_str());
                proof {
                    reveal_strlit(".");
                }
                s
            },
            None => {
                let mut s = "field_".to_owned();
                let digits = decimal(idx);
                s.append(digits.as_str());
                s
            },
        },
    };
    if deref_references && field_type.unicode_len() > 0 && field_type.get_char(0) == '&' {
        let mut starred = "*".to_owned();
        starred.append(fname.as_str());
        proof {
            reveal_strlit("*");
        }
        fname = starred;
    }
    fname
}

} // verus!
