//! The `#[sp(validate = ..)]`, `#[sp(reader = ..)]` and `#[sp(writer = ..)]` attributes:
//! a function name (or path) followed by the names of fields handed to it, separated by
//! commas; checked and resolved against the fields of the type.
use vstd::prelude::*;
use vstd::string::StrSliceExecFns;

verus! {

/* Characters */

/// Whether `c` has the Unicode `White_Space` property (what `char::is_whitespace` tests).
pub open spec fn spec_is_whitespace(c: char) -> bool {
    let u = c as u32;
    ||| 0x9 <= u <= 0xd
    ||| u == 0x20
    ||| u == 0x85
    ||| u == 0xa0
    ||| u == 0x1680
    ||| 0x2000 <= u <= 0x200a
    ||| u == 0x2028
    ||| u == 0x2029
    ||| u == 0x202f
    ||| u == 0x205f
    ||| u == 0x3000
}

/// Whether `c` has the Unicode `White_Space` property.
pub fn is_whitespace(c: char) -> (r: bool)
    ensures
        r == spec_is_whitespace(c),
{
    let u = c as u32;
    (0x9 <= u && u <= 0xd) || u == 0x20 || u == 0x85 || u == 0xa0 || u == 0x1680 || (0x2000 <= u
        && u <= 0x200a) || u == 0x2028 || u == 0x2029 || u == 0x202f || u == 0x205f || u == 0x3000
}

/// Whether `c` is alphabetic or numeric in the sense of `char::is_alphanumeric`.
pub uninterp spec fn unicode_alphanumeric(c: char) -> bool;

/// `char::is_alphanumeric` (the Unicode `Alphabetic` or `Numeric` property); the contract
/// only names its result.
#[verifier::external_body]
fn is_alphanumeric(c: char) -> (r: bool)
    ensures
        r == unicode_alphanumeric(c),
{
    c.is_alphanumeric()
}

/* Trimming */

/// How many white-space characters `s` starts with.
pub open spec fn leading_ws(s: Seq<char>) -> nat
    decreases s.len(),
{
    if s.len() > 0 && spec_is_whitespace(s[0]) {
        1 + leading_ws(s.drop_first())
    } else {
        0
    }
}

/// How many white-space characters `s` ends with.
pub open spec fn trailing_ws(s: Seq<char>) -> nat
    decreases s.len(),
{
    if s.len() > 0 && spec_is_whitespace(s.last()) {
        1 + trailing_ws(s.drop_last())
    } else {
        0
    }
}

proof fn lemma_leading_ws_bound(s: Seq<char>)
    ensures
        leading_ws(s) <= s.len(),
    decreases s.len(),
{
    if s.len() > 0 && spec_is_whitespace(s[0]) {
        lemma_leading_ws_bound(s.drop_first());
    }
}

proof fn lemma_trailing_ws_bound(s: Seq<char>)
    ensures
        trailing_ws(s) <= s.len(),
    decreases s.len(),
{
    if s.len() > 0 && spec_is_whitespace(s.last()) {
        lemma_trailing_ws_bound(s.drop_last());
    }
}

/// `s` without the white space at its start and at its end (what `str::trim` gives).
pub open spec fn spec_trim(s: Seq<char>) -> Seq<char> {
    let t = s.skip(leading_ws(s) as int);
    t.take(t.len() - trailing_ws(t))
}

/// `s` without the white space at its start and at its end.
pub fn trim(s: &str) -> (r: &str)
    ensures
        r@ == spec_trim(s@),
{
    let n = s.unicode_len();
    let mut start: usize = 0;
    proof {
        lemma_leading_ws_bound(s@);
        assert(s@.skip(0) =~= s@);
    }
    while start < n && is_whitespace(s.get_char(start))
        invariant
            start <= n == s@.len(),
            leading_ws(s@) == start + leading_ws(s@.skip(start as int)),
        decreases n - start,
    {
        proof {
            assert(s@.skip(start as int).drop_first() =~= s@.skip(start + 1));
        }
        start = start + 1;
    }
    proof {
        if start < n {
            assert(s@.skip(start as int)[0] == s@[start as int]);
        }
    }
    let ghost t = s@.skip(start as int);
    let mut end: usize = n;
    proof {
        assert(s@.subrange(start as int, n as int) =~= t);
        lemma_trailing_ws_bound(t);
    }
    while end > start && is_whitespace(s.get_char(end - 1))
        invariant
            start <= end <= n == s@.len(),
            t == s@.skip(start as int),
            trailing_ws(t) == (n - end) + trailing_ws(s@.subrange(start as int, end as int)),
        decreases end - start,
    {
        proof {
            assert(s@.subrange(start as int, end as int).drop_last() =~= s@.subrange(
                start as int,
                end - 1,
            ));
        }
        end = end - 1;
    }
    proof {
        if end > start {
            assert(s@.subrange(start as int, end as int).last() == s@[end - 1]);
        }
        assert(t.take(t.len() - trailing_ws(t)) =~= s@.subrange(start as int, end as int));
    }
    s.substring_char(start, end)
}

/* Splitting at a separator */

/// Where the first `sep` in `s` is, if there is one.
pub open spec fn char_index(s: Seq<char>, sep: char) -> Option<nat>
    decreases s.len(),
{
    if s.len() == 0 {
        None
    } else if s[0] == sep {
        Some(0)
    } else {
        match char_index(s.drop_first(), sep) {
            Some(k) => Some(k + 1),
            None => None,
        }
    }
}

/// `char_index` finds the first `sep`, or says there is none.
pub proof fn lemma_char_index(s: Seq<char>, sep: char)
    ensures
        char_index(s, sep) matches Some(k) ==> k < s.len() && s[k as int] == sep && forall|j: int|
            0 <= j < k ==> s[j] != sep,
        char_index(s, sep) is None ==> forall|j: int| 0 <= j < s.len() ==> s[j] != sep,
    decreases s.len(),
{
    if s.len() > 0 && s[0] != sep {
        lemma_char_index(s.drop_first(), sep);
        assert forall|j: int| 0 < j < s.len() implies s[j] == s.drop_first()[j - 1] by {}
    }
}

/// The pieces of `s` between occurrences of `sep` (what `str::split` gives for a character:
/// one more piece than there are separators, empty ones included).
pub open spec fn spec_split(s: Seq<char>, sep: char) -> Seq<Seq<char>>
    decreases s.len(),
{
    match char_index(s, sep) {
        None => seq![s],
        Some(k) => {
            proof {
                lemma_char_index(s, sep);
            }
            seq![s.take(k as int)] + spec_split(s.skip((k + 1) as int), sep)
        },
    }
}

/// The pieces of `s` between commas.
pub fn split_commas(s: &str) -> (r: Vec<&str>)
    ensures
        r@.len() == spec_split(s@, ',').len(),
        forall|i: int| 0 <= i < r@.len() ==> #[trigger] r@[i]@ == spec_split(s@, ',')[i],
{
    let n = s.unicode_len();
    let mut parts: Vec<&str> = Vec::new();
    let mut start: usize = 0;
    let mut i: usize = 0;
    assert(s@.skip(0) =~= s@);
    while i < n
        invariant
            start <= i <= n == s@.len(),
            forall|j: int| start <= j < i ==> s@[j] != ',',
            parts@.len() + spec_split(s@.skip(start as int), ',').len() == spec_split(s@, ',').len(),
            forall|k: int|
                0 <= k < parts@.len() ==> #[trigger] parts@[k]@ == spec_split(s@, ',')[k],
            forall|k: int|
                0 <= k < spec_split(s@.skip(start as int), ',').len() ==> #[trigger] spec_split(
                    s@.skip(start as int),
                    ',',
                )[k] == spec_split(s@, ',')[parts@.len() + k],
        decreases n - i,
    {
        if s.get_char(i) == ',' {
            let ghost rest = s@.skip(start as int);
            proof {
                lemma_first_char_index(rest, ',', (i - start) as nat);
                assert(rest.take(i - start) =~= s@.subrange(start as int, i as int));
                assert(rest.skip(i - start + 1) =~= s@.skip(i + 1));
                let k = (i - start) as nat;
                assert(spec_split(rest, ',') == seq![rest.take(k as int)] + spec_split(
                    rest.skip((k + 1) as int),
                    ',',
                ));
                assert forall|m: int|
                    0 <= m < spec_split(s@.skip(i + 1), ',').len() implies #[trigger] spec_split(
                    s@.skip(i + 1),
                    ',',
                )[m] == spec_split(rest, ',')[m + 1] by {}
                assert(spec_split(rest, ',')[0] == spec_split(s@, ',')[parts@.len() + 0int]);
            }
            let part = s.substring_char(start, i);
            parts.push(part);
            start = i + 1;
        }
        i = i + 1;
    }
    let ghost rest = s@.skip(start as int);
    proof {
        lemma_char_index(rest, ',');
        if let Some(k) = char_index(rest, ',') {
            assert(rest[k as int] == s@[start + k]);
        }
        assert(rest =~= s@.subrange(start as int, n as int));
        assert(spec_split(rest, ',') == seq![rest]);
        assert(spec_split(rest, ',')[0] == spec_split(s@, ',')[parts@.len() + 0int]);
    }
    let last = s.substring_char(start, n);
    parts.push(last);
    parts
}

/// A separator at `k` with none before it is the first one.
proof fn lemma_first_char_index(s: Seq<char>, sep: char, k: nat)
    requires
        k < s.len(),
        s[k as int] == sep,
        forall|j: int| 0 <= j < k ==> s[j] != sep,
    ensures
        char_index(s, sep) == Some(k),
    decreases k,
{
    if k > 0 {
        lemma_first_char_index(s.drop_first(), sep, (k - 1) as nat);
    }
}

/* Function names */

/// Whether `s` parses as a Rust path (`syn::Path`).
pub uninterp spec fn parses_as_path(s: Seq<char>) -> bool;

/// Whether `s` parses as a Rust identifier (`syn::Ident`).
pub uninterp spec fn parses_as_ident(s: Seq<char>) -> bool;

/// `syn::parse_str::<syn::Path>`, keeping whether it succeeded and, if not, syn's message;
/// the contract names the outcome, it does not restate Rust's grammar.
#[verifier::external_body]
fn parse_path(s: &str) -> (r: Result<(), String>)
    ensures
        r is Ok == parses_as_path(s@),
{
    match syn::parse_str::<syn::Path>(s) {
        Ok(_) => Ok(()),
        Err(e) => Err(e.to_string()),
    }
}

/// Whether `s` parses as a Rust type (`syn::Type`).
pub uninterp spec fn parses_as_type(s: Seq<char>) -> bool;

/// `syn::parse_str::<syn::Type>`, keeping whether it succeeded and, if not, syn's message;
/// the contract names the outcome, it does not restate Rust's grammar.
#[verifier::external_body]
pub(crate) fn parse_type(s: &str) -> (r: Result<(), String>)
    ensures
        r is Ok == parses_as_type(s@),
{
    match syn::parse_str::<syn::Type>(s) {
        Ok(_) => Ok(()),
        Err(e) => Err(e.to_string()),
    }
}

/// `syn::parse_str::<syn::Ident>`, keeping whether it succeeded and, if not, syn's message;
/// the contract names the outcome, it does not restate Rust's grammar.
#[verifier::external_body]
fn parse_ident(s: &str) -> (r: Result<(), String>)
    ensures
        r is Ok == parses_as_ident(s@),
{
    match syn::parse_str::<syn::Ident>(s) {
        Ok(_) => Ok(()),
        Err(e) => Err(e.to_string()),
    }
}

/* Resolving a custom attribute */

/// Which fields of the type a custom function may be handed, besides the annotated one.
#[derive(Clone, Copy, Debug, PartialEq, Eq, Structural)]
pub enum AllowFields {
    /// Allow references to any field in the struct
    All,
    /// Only allow references to fields before the current
    BeforeCurrent,
    /// Only allow references to fields before the current and fields after as Some()
    AfterCurrentAsSome,
    /// Only allow references to fields before the current and fields after as None
    AfterCurrentAsNone,
}

/// How a field is handed to a custom function.
#[derive(Clone, Copy, Debug, PartialEq, Eq, Structural)]
pub enum FieldArg {
    /// A reference to the field with this index
    Ref(usize),
    /// `Some` of a reference to the field with this index
    SomeRef(usize),
    /// `None`, in place of a field that has not been read yet
    NoneValue,
}

/// Why a custom attribute was refused.
#[derive(Debug)]
pub enum AttrError {
    /// "{function name|field name} is empty"
    Empty { is_fn_name: bool },
    /// "{function name|field name} is invalid : '{text}'"
    InvalidChars { is_fn_name: bool, text: String },
    /// "provided function name '{name}' is an invalid path : {reason}"
    InvalidPath { name: String, reason: String },
    /// "provided function name '{name}' is an invalid identifier : {reason}"
    InvalidIdent { name: String, reason: String },
    /// "field name '{name}' is invalid. Valid options are : {valid:?}"
    UnknownField { name: String, valid: Vec<String> },
    /// "provided id_type '{name}' is an invalid type : {reason}"
    InvalidType { name: String, reason: String },
    /// "Unknown endianness : {text}"
    InvalidEndian { text: String },
    /// "Unable to derive on empty enum"
    EmptyEnum,
    /// "Variant {second} has the same ID as variant {first}"
    DuplicateId { first: usize, second: usize },
}

/// A resolved custom attribute: the function to call and what to hand it.
#[derive(Debug)]
pub struct CustomAttr {
    /// The function to call, trimmed
    pub fn_name: String,
    /// Whether the function was given as a path (it holds `:`)
    pub is_path: bool,
    /// What is handed to the function after the annotated field, in order
    pub args: Vec<FieldArg>,
}

/// Characters allowed in a part: letters, digits, `_` and `-`; in the function name also `:`.
pub open spec fn spec_char_allowed(c: char, is_fn_name: bool) -> bool {
    (is_fn_name && c == ':') || c == '_' || c == '-' || unicode_alphanumeric(c)
}

/// A part is acceptable when it is not empty and all its characters are allowed.
pub open spec fn spec_part_ok(p: Seq<char>, is_fn_name: bool) -> bool {
    p.len() > 0 && forall|i: int| 0 <= i < p.len() ==> spec_char_allowed(#[trigger] p[i], is_fn_name)
}

/// The parts of an attribute: the pieces between commas, trimmed.
pub open spec fn spec_attr_parts(contents: Seq<char>) -> Seq<Seq<char>> {
    spec_split(contents, ',').map_values(|p: Seq<char>| spec_trim(p))
}

/// The first part, from `i` on, that is not acceptable (part `0` is the function name).
pub open spec fn spec_first_bad_part(parts: Seq<Seq<char>>, i: nat) -> Option<nat>
    decreases parts.len() - i,
{
    if i >= parts.len() {
        None
    } else if !spec_part_ok(parts[i as int], i == 0) {
        Some(i)
    } else {
        spec_first_bad_part(parts, i + 1)
    }
}

/// Whether field `j` may be named, the annotated field being `cur`.
pub open spec fn spec_is_candidate(j: nat, cur: nat, allow: AllowFields) -> bool {
    j != cur && (allow is BeforeCurrent ==> j < cur)
}

/// The fields among the first `n` that may be named, in order.
pub open spec fn spec_candidates(n: nat, cur: nat, allow: AllowFields) -> Seq<nat>
    decreases n,
{
    if n == 0 {
        seq![]
    } else if spec_is_candidate((n - 1) as nat, cur, allow) {
        spec_candidates((n - 1) as nat, cur, allow).push((n - 1) as nat)
    } else {
        spec_candidates((n - 1) as nat, cur, allow)
    }
}

/// What naming field `j` hands the function: fields after the annotated one come as
/// `Some(&field)` or `None` when the attribute says so; others as `&field`.
pub open spec fn spec_arg_for(j: nat, cur: nat, allow: AllowFields) -> FieldArg {
    if j > cur && allow is AfterCurrentAsSome {
        FieldArg::SomeRef(j as usize)
    } else if j > cur && allow is AfterCurrentAsNone {
        FieldArg::NoneValue
    } else {
        FieldArg::Ref(j as usize)
    }
}

/// The position in `cands`, below `upto`, of the last field named `name`.
pub open spec fn spec_last_named(
    names: Seq<Seq<char>>,
    cands: Seq<nat>,
    name: Seq<char>,
    upto: nat,
) -> Option<nat>
    decreases upto,
{
    if upto == 0 {
        None
    } else if names[cands[upto - 1] as int] == name {
        Some((upto - 1) as nat)
    } else {
        spec_last_named(names, cands, name, (upto - 1) as nat)
    }
}

/// What `spec_last_named` finds is a field of that name, below `upto`.
pub proof fn lemma_last_named(names: Seq<Seq<char>>, cands: Seq<nat>, name: Seq<char>, upto: nat)
    ensures
        spec_last_named(names, cands, name, upto) matches Some(k) ==> k < upto && names[cands[k as int] as int] == name,
    decreases upto,
{
    if upto > 0 {
        lemma_last_named(names, cands, name, (upto - 1) as nat);
    }
}

/// The first of `requested`, from `i` on, that names no field that may be named.
pub open spec fn spec_first_unknown(
    names: Seq<Seq<char>>,
    cands: Seq<nat>,
    requested: Seq<Seq<char>>,
    i: nat,
) -> Option<nat>
    decreases requested.len() - i,
{
    if i >= requested.len() {
        None
    } else if spec_last_named(names, cands, requested[i as int], cands.len()) is None {
        Some(i)
    } else {
        spec_first_unknown(names, cands, requested, i + 1)
    }
}

/// The views of some strings.
pub open spec fn views(strings: Seq<String>) -> Seq<Seq<char>> {
    strings.map_values(|s: String| s@)
}

/// Checks the parts of an attribute in order (each trimmed; the first is the function name)
/// and hands back the function name, whether it is a path, and the field names.
fn check_parts(parts: &Vec<&str>) -> (r: Result<(String, bool, Vec<String>), AttrError>)
    requires
        parts@.len() >= 1,
    ensures
        ({
            let cleaned = Seq::new(parts@.len(), |i: int| spec_trim(parts@[i]@));
            match spec_first_bad_part(cleaned, 0) {
                Some(k) => match r {
                    Err(AttrError::Empty { is_fn_name }) => cleaned[k as int].len() == 0
                        && is_fn_name == (k == 0),
                    Err(AttrError::InvalidChars { is_fn_name, text }) => cleaned[k as int].len() > 0
                        && is_fn_name == (k == 0) && text@ == cleaned[k as int],
                    _ => false,
                },
                None => match r {
                    Ok((f, p, names)) => f@ == cleaned[0] && p == cleaned[0].contains(':')
                        && views(names@) == cleaned.skip(1),
                    _ => false,
                },
            }
        }),
{
    let ghost cleaned = Seq::new(parts@.len(), |i: int| spec_trim(parts@[i]@));
    let mut fn_name = String::new();
    let mut got_path = false;
    let mut fields: Vec<String> = Vec::new();
    let mut idx: usize = 0;
    while idx < parts.len()
        invariant
            1 <= parts@.len(),
            idx <= parts@.len(),
            cleaned == Seq::new(parts@.len(), |i: int| spec_trim(parts@[i]@)),
            spec_first_bad_part(cleaned, 0) == spec_first_bad_part(cleaned, idx as nat),
            idx > 0 ==> fn_name@ == cleaned[0] && got_path == cleaned[0].contains(':'),
            idx > 0 ==> views(fields@) == cleaned.subrange(1, idx as int),
            idx == 0 ==> fields@.len() == 0,
        decreases parts@.len() - idx,
    {
        let c = trim(parts[idx]);
        assert(c@ == cleaned[idx as int]);
        let n = c.unicode_len();
        if n == 0 {
            return Err(AttrError::Empty { is_fn_name: idx == 0 });
        }
        let mut path_here = false;
        let mut j: usize = 0;
        while j < n
            invariant
                j <= n == c@.len(),
                idx < parts@.len(),
                cleaned == Seq::new(parts@.len(), |i: int| spec_trim(parts@[i]@)),
                c@ == cleaned[idx as int],
                spec_first_bad_part(cleaned, 0) == spec_first_bad_part(cleaned, idx as nat),
                forall|m: int| 0 <= m < j ==> spec_char_allowed(#[trigger] c@[m], idx == 0),
                idx == 0 ==> path_here == exists|m: int| 0 <= m < j && c@[m] == ':',
            decreases n - j,
        {
            let ch = c.get_char(j);
            if idx == 0 && ch == ':' {
                path_here = true;
            } else if ch == '_' || ch == '-' || is_alphanumeric(ch) {
            } else {
                assert(!spec_char_allowed(c@[j as int], idx == 0));
                assert(!spec_part_ok(cleaned[idx as int], idx == 0));
                assert(spec_first_bad_part(cleaned, idx as nat) == Some(idx as nat));
                return Err(AttrError::InvalidChars { is_fn_name: idx == 0, text: c.to_owned() });
            }
            j = j + 1;
        }
        if idx == 0 {
            fn_name = c.to_owned();
            got_path = path_here;
            assert(fields@.len() == 0);
            assert(views(fields@) =~= cleaned.subrange(1, 1));
        } else {
            fields.push(c.to_owned());
            assert(views(fields@) =~= cleaned.subrange(1, idx + 1));
        }
        assert(spec_part_ok(cleaned[idx as int], idx == 0));
        idx = idx + 1;
    }
    assert(cleaned.subrange(1, parts@.len() as int) =~= cleaned.skip(1));
    Ok((fn_name, got_path, fields))
}

/// The fields among the first `n` that may be named, in order.
fn candidates(n: usize, cur: usize, allow: AllowFields) -> (r: Vec<usize>)
    ensures
        r@.len() == spec_candidates(n as nat, cur as nat, allow).len(),
        forall|k: int| 0 <= k < r@.len() ==> r@[k] as nat == #[trigger] spec_candidates(n as nat, cur as nat, allow)[k],
        forall|k: int| 0 <= k < r@.len() ==> r@[k] < n,
{
    let mut cands: Vec<usize> = Vec::new();
    let mut idx: usize = 0;
    while idx < n
        invariant
            idx <= n,
            cands@.len() == spec_candidates(idx as nat, cur as nat, allow).len(),
            forall|k: int| 0 <= k < cands@.len() ==> cands@[k] as nat == #[trigger] spec_candidates(idx as nat, cur as nat, allow)[k],
            forall|k: int| 0 <= k < cands@.len() ==> cands@[k] < idx,
        decreases n - idx,
    {
        let keep = idx != cur && (!(allow == AllowFields::BeforeCurrent) || idx < cur);
        if keep {
            cands.push(idx);
        }
        assert(keep == spec_is_candidate(idx as nat, cur as nat, allow));
        idx = idx + 1;
    }
    cands
}

/// What naming field `j` hands the function.
fn arg_for(j: usize, cur: usize, allow: AllowFields) -> (r: FieldArg)
    ensures
        r == spec_arg_for(j as nat, cur as nat, allow),
{
    if j > cur && allow == AllowFields::AfterCurrentAsSome {
        FieldArg::SomeRef(j)
    } else if j > cur && allow == AllowFields::AfterCurrentAsNone {
        FieldArg::NoneValue
    } else {
        FieldArg::Ref(j)
    }
}

/// Indices as natural numbers.
pub open spec fn nat_indices(s: Seq<usize>) -> Seq<nat> {
    s.map_values(|c: usize| c as nat)
}

/// The position in `cands` of the last field named `name`.
fn find_last_named(names: &Vec<String>, cands: &Vec<usize>, name: &str) -> (r: Option<usize>)
    requires
        forall|k: int| 0 <= k < cands@.len() ==> cands@[k] < names@.len(),
    ensures
        r == match spec_last_named(views(names@), nat_indices(cands@), name@, cands@.len()) {
            Some(k) => Some(k as usize),
            None => None::<usize>,
        },
        r matches Some(k) ==> k < cands@.len(),
{
    let ghost nv = views(names@);
    let ghost cv = nat_indices(cands@);
    let mut upto: usize = cands.len();
    while upto > 0
        invariant
            upto <= cands@.len(),
            nv == views(names@),
            cv == nat_indices(cands@),
            forall|k: int| 0 <= k < cands@.len() ==> cands@[k] < names@.len(),
            spec_last_named(nv, cv, name@, cands@.len() as nat) == spec_last_named(nv, cv, name@, upto as nat),
        decreases upto,
    {
        let k = upto - 1;
        let found = crate::derive_rules::str_equal(names[cands[k]].as_str(), name);
        assert(nv[cv[k as int] as int] == names@[cands@[k as int] as int]@);
        if found {
            return Some(k);
        }
        upto = k;
    }
    None
}

/// What resolving the custom attribute `contents` gives, the fields being named `field_names`
/// and the annotated one being `cur_field_idx` (see `split_custom_attr`).
pub open spec fn spec_attr_outcome(
    contents: Seq<char>,
    field_names: Seq<String>,
    cur_field_idx: nat,
    allow: AllowFields,
    r: Result<CustomAttr, AttrError>,
) -> bool {
    let parts = spec_attr_parts(contents);
    let names = views(field_names);
    let cands = spec_candidates(field_names.len(), cur_field_idx, allow);
    let fname = parts[0];
    let is_path = fname.contains(':');
    match spec_first_bad_part(parts, 0) {
        Some(k) => match r {
            Err(AttrError::Empty { is_fn_name }) => parts[k as int].len() == 0
                && is_fn_name == (k == 0),
            Err(AttrError::InvalidChars { is_fn_name, text }) => parts[k as int].len() > 0
                && is_fn_name == (k == 0) && text@ == parts[k as int],
            _ => false,
        },
        None => if is_path && !parses_as_path(fname) {
            r matches Err(AttrError::InvalidPath { name, reason }) && name@ == fname
        } else if !is_path && !parses_as_ident(fname) {
            r matches Err(AttrError::InvalidIdent { name, reason }) && name@ == fname
        } else {
            match spec_first_unknown(names, cands, parts.skip(1), 0) {
                Some(u) => r matches Err(AttrError::UnknownField { name, valid }) && name@
                    == parts[u + 1int] && views(valid@) == cands.map_values(
                    |j: nat| names[j as int],
                ),
                None => r matches Ok(a) && a.fn_name@ == fname && a.is_path == is_path
                    && a.args@.len() == parts.len() - 1 && forall|i: int|
                    0 <= i < a.args@.len() ==> #[trigger] a.args@[i] == spec_arg_for(
                        cands[spec_last_named(names, cands, parts[i + 1], cands.len())->Some_0 as int],
                        cur_field_idx,
                        allow,
                    ),
            }
        },
    }
}

/// Whether the custom attribute `contents` is accepted (see `split_custom_attr`).
pub open spec fn spec_attr_ok(contents: Seq<char>, field_names: Seq<String>, cur_field_idx: nat, allow: AllowFields) -> bool {
    let parts = spec_attr_parts(contents);
    let fname = parts[0];
    &&& spec_first_bad_part(parts, 0) is None
    &&& if fname.contains(':') {
        parses_as_path(fname)
    } else {
        parses_as_ident(fname)
    }
    &&& spec_first_unknown(
        views(field_names),
        spec_candidates(field_names.len(), cur_field_idx, allow),
        parts.skip(1),
        0,
    ) is None
}

/// The outcome of resolving an attribute is a success exactly when the attribute is accepted.
pub proof fn lemma_attr_outcome_ok(
    contents: Seq<char>,
    field_names: Seq<String>,
    cur_field_idx: nat,
    allow: AllowFields,
    r: Result<CustomAttr, AttrError>,
)
    requires
        spec_attr_outcome(contents, field_names, cur_field_idx, allow, r),
    ensures
        r is Ok <==> spec_attr_ok(contents, field_names, cur_field_idx, allow),
{
}

/// Checks a custom attribute (`"function, field, field, .."`) and resolves the field names
/// it lists against `field_names`, the annotated field being `cur_field_idx`:
///   - each part is trimmed; the first part that is empty, or holds a character other than
///     a letter, a digit, `_`, `-` (or, in the function name, `:`), refuses the attribute;
///   - a function name with `:` has to be a Rust path, any other one a Rust identifier;
///   - each field name has to be one of the fields that may be named (see `AllowFields`),
///     the last one of that name; the first that is not refuses the attribute, with the
///     names that may be used.
pub fn split_custom_attr(
    contents: &str,
    field_names: &Vec<String>,
    cur_field_idx: usize,
    allow: AllowFields,
) -> (r: Result<CustomAttr, AttrError>)
    ensures
        spec_attr_outcome(contents@, field_names@, cur_field_idx as nat, allow, r),
{
    let parts = split_commas(contents);
    let ghost cleaned = Seq::new(parts@.len(), |i: int| spec_trim(parts@[i]@));
    proof {
        assert(cleaned =~= spec_attr_parts(contents@));
    }
    let (fn_name, got_path, requested) = check_parts(&parts)?;
    if got_path {
        if let Err(reason) = parse_path(fn_name.as_str()) {
            return Err(AttrError::InvalidPath { name: fn_name, reason });
        }
    } else {
        if let Err(reason) = parse_ident(fn_name.as_str()) {
            return Err(AttrError::InvalidIdent { name: fn_name, reason });
        }
    }
    let ghost names = views(field_names@);
    let cands = candidates(field_names.len(), cur_field_idx, allow);
    let ghost cv = spec_candidates(field_names@.len(), cur_field_idx as nat, allow);
    proof {
        assert(nat_indices(cands@) =~= cv);
    }
    let mut valid: Vec<String> = Vec::new();
    let mut k: usize = 0;
    while k < cands.len()
        invariant
            k <= cands@.len() == cv.len(),
            forall|m: int| 0 <= m < cands@.len() ==> cands@[m] as nat == cv[m],
            forall|m: int| 0 <= m < cands@.len() ==> cands@[m] < field_names@.len(),
            names == views(field_names@),
            views(valid@) =~= cv.take(k as int).map_values(|j: nat| names[j as int]),
        decreases cands@.len() - k,
    {
        let name = field_names[cands[k]].clone();
        assert(name@ == names[cv[k as int] as int]);
        let ghost old_views = views(valid@);
        valid.push(name);
        assert(views(valid@) =~= old_views.push(name@));
        assert(cv.take(k + 1) =~= cv.take(k as int).push(cv[k as int]));
        assert(views(valid@) =~= cv.take(k + 1).map_values(|j: nat| names[j as int]));
        k = k + 1;
    }
    assert(cv.take(cands@.len() as int) =~= cv);
    assert(views(valid@) == cv.map_values(|j: nat| names[j as int]));
    let mut args: Vec<FieldArg> = Vec::new();
    let mut i: usize = 0;
    while i < requested.len()
        invariant
            i <= requested@.len(),
            views(requested@) == cleaned.skip(1),
            cands@.len() == cv.len(),
            forall|m: int| 0 <= m < cands@.len() ==> cands@[m] as nat == cv[m],
            forall|m: int| 0 <= m < cands@.len() ==> cands@[m] < field_names@.len(),
            nat_indices(cands@) == cv,
            names == views(field_names@),
            cleaned == spec_attr_parts(contents@),
            spec_first_bad_part(cleaned, 0) is None,
            fn_name@ == cleaned[0],
            got_path == cleaned[0].contains(':'),
            got_path ==> parses_as_path(cleaned[0]),
            !got_path ==> parses_as_ident(cleaned[0]),
            cv == spec_candidates(field_names@.len(), cur_field_idx as nat, allow),
            views(valid@) == cv.map_values(|j: nat| names[j as int]),
            spec_first_unknown(names, cv, cleaned.skip(1), 0) == spec_first_unknown(names, cv, cleaned.skip(1), i as nat),
            args@.len() == i,
            forall|m: int| 0 <= m < i ==> #[trigger] args@[m] == spec_arg_for(
                cv[spec_last_named(names, cv, cleaned.skip(1)[m], cv.len())->Some_0 as int],
                cur_field_idx as nat,
                allow,
            ),
        decreases requested@.len() - i,
    {
        assert(requested@[i as int]@ == cleaned.skip(1)[i as int]);
        match find_last_named(field_names, &cands, requested[i].as_str()) {
            Some(pos) => {
                proof {
                    let res = spec_last_named(views(field_names@), nat_indices(cands@), requested@[i as int]@, cands@.len());
                    // `find_last_named` found `pos`, which is below `cands.len()`.
                    assert(res is Some);
                    lemma_last_named(views(field_names@), nat_indices(cands@), requested@[i as int]@, cands@.len());
                    assert(res->Some_0 as usize == pos && res->Some_0 < cands@.len());
                }
                assert(cands@[pos as int] as nat == cv[pos as int]);
                let arg = arg_for(cands[pos], cur_field_idx, allow);
                args.push(arg);
                assert(args@[i as int] == spec_arg_for(
                    cv[spec_last_named(names, cv, cleaned.skip(1)[i as int], cv.len())->Some_0 as int],
                    cur_field_idx as nat,
                    allow,
                ));
            },
            None => {
                assert(spec_first_unknown(names, cv, cleaned.skip(1), i as nat) == Some(i as nat));
                return Err(AttrError::UnknownField { name: requested[i].clone(), valid });
            },
        }
        i = i + 1;
    }
    Ok(CustomAttr { fn_name, is_path: got_path, args })
}

} // verus!
