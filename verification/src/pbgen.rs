//! Schema inference and protobuf text generation.
//!
//! A parsed JSON tree is first turned into a `Message` schema tree, then the
//! schema tree is rendered as an indented protobuf message definition. Field
//! order follows the object's member order, and field numbers are the
//! one-based positions in that order.
//!
//! Empty objects and empty arrays are rejected: no field or element exists to
//! infer a type from. Of a non-empty array only the first element's shape is
//! inspected; later elements are not validated against it. Of members sharing
//! a key the first occurrence wins: later occurrences contribute no field and
//! their values are not inspected, so generated field names never repeat.

use vstd::prelude::*;
use crate::numlit::JsonNum;
use crate::parser::{JsonValue, JsonView};

verus! {

/// The protobuf scalar types a JSON leaf can map to.
#[derive(Debug, PartialEq, Eq, Structural, Clone, Copy)]
pub enum ScalarValue {
    Double,
    Int64,
    Bool,
    Str,
}

/// The type of one message field.
#[derive(Debug, PartialEq)]
pub enum BaseValue {
    Scalar(ScalarValue),
    Message(Message),
    List(ListEle),
}

/// One field of a message: its name and its type.
#[derive(Debug, PartialEq)]
pub struct ObjField {
    pub field_type: BaseValue,
    pub field_name: String,
}

/// The element type of a repeated field.
#[derive(Debug, PartialEq)]
pub enum ListEle {
    Scalar(ScalarValue),
    Message(Message),
}

/// An ordered message schema: fields in their original object order.
#[derive(Debug, PartialEq)]
pub struct Message(pub Vec<ObjField>);

/// Mathematical model of a field.
pub struct FieldView {
    pub field_name: Seq<char>,
    pub field_type: BaseView,
}

/// Mathematical model of a field type.
pub enum BaseView {
    Scalar(ScalarValue),
    Message(Seq<FieldView>),
    List(ListView),
}

/// Mathematical model of a repeated field's element type.
pub enum ListView {
    Scalar(ScalarValue),
    Message(Seq<FieldView>),
}

pub open spec fn msg_view(m: Message) -> Seq<FieldView>
    decreases m, 2int, 0int,
{
    fields_view(m.0, m.0@.len() as int)
}

/// Views of the first `n` fields.
pub open spec fn fields_view(fs: Vec<ObjField>, n: int) -> Seq<FieldView>
    decreases fs, 1int, n,
{
    if 0 < n <= fs@.len() {
        fields_view(fs, n - 1).push(field_view(fs[n - 1]))
    } else {
        Seq::empty()
    }
}

pub open spec fn field_view(f: ObjField) -> FieldView
    decreases f, 2int, 0int,
{
    FieldView { field_name: f.field_name@, field_type: base_view(f.field_type) }
}

pub open spec fn base_view(bv: BaseValue) -> BaseView
    decreases bv, 2int, 0int,
{
    match bv {
        BaseValue::Scalar(sv) => BaseView::Scalar(sv),
        BaseValue::Message(m) => BaseView::Message(msg_view(m)),
        BaseValue::List(le) => BaseView::List(list_view(le)),
    }
}

pub open spec fn list_view(le: ListEle) -> ListView
    decreases le, 2int, 0int,
{
    match le {
        ListEle::Scalar(sv) => ListView::Scalar(sv),
        ListEle::Message(m) => ListView::Message(msg_view(m)),
    }
}

pub proof fn lemma_fields_view_len(fs: Vec<ObjField>, n: int)
    requires
        0 <= n <= fs@.len(),
    ensures
        fields_view(fs, n).len() == n,
    decreases n,
{
    if n > 0 {
        lemma_fields_view_len(fs, n - 1);
    }
}

pub proof fn lemma_fields_view_index(fs: Vec<ObjField>, n: int, i: int)
    requires
        0 <= i < n <= fs@.len(),
    ensures
        fields_view(fs, n).len() == n,
        fields_view(fs, n)[i] == field_view(fs[i]),
    decreases n,
{
    lemma_fields_view_len(fs, n);
    if i < n - 1 {
        lemma_fields_view_index(fs, n - 1, i);
    } else {
        lemma_fields_view_len(fs, n - 1);
    }
}

/// Well-formed JSON that cannot be turned into a message schema.
#[derive(Debug, PartialEq, Eq, Structural, Clone, Copy)]
pub enum SchemaError {
    /// The root value is an array, not an object.
    RootNotObject,
    /// An object has no members, so no field can be inferred.
    EmptyObject,
    /// An array is empty, so its element type cannot be inferred.
    EmptyArray,
    /// An array appears directly inside an array.
    NestedArrayUnsupported,
}

/// The description text of each schema error.
pub open spec fn schema_description(e: SchemaError) -> Seq<char> {
    match e {
        SchemaError::RootNotObject => "root value must be an object"@,
        SchemaError::EmptyObject => "cannot infer a type for an empty object"@,
        SchemaError::EmptyArray => "cannot infer the element type of an empty array"@,
        SchemaError::NestedArrayUnsupported => "protobuf does not support nested arrays"@,
    }
}

impl SchemaError {
    /// A human-readable description of the error.
    pub fn describe(&self) -> (r: &'static str)
        ensures
            r@ == schema_description(*self),
            r@.len() > 0,
    {
        let r = match self {
            SchemaError::RootNotObject => "root value must be an object",
            SchemaError::EmptyObject => "cannot infer a type for an empty object",
            SchemaError::EmptyArray => "cannot infer the element type of an empty array",
            SchemaError::NestedArrayUnsupported => "protobuf does not support nested arrays",
        };
        proof {
            reveal_strlit("root value must be an object");
            reveal_strlit("cannot infer a type for an empty object");
            reveal_strlit("cannot infer the element type of an empty array");
            reveal_strlit("protobuf does not support nested arrays");
        }
        r
    }
}

/// The scalar type of a number: a 64-bit integer when its value is an
/// integer within the safe-integer bound, a double otherwise.
pub open spec fn spec_parse_num(num: JsonNum) -> ScalarValue {
    if num.integral && num.in_bound {
        ScalarValue::Int64
    } else {
        ScalarValue::Double
    }
}

/// The schema of a non-root JSON value.
pub open spec fn spec_visit_ele(v: JsonView) -> Result<BaseView, SchemaError>
    decreases v, 3int, 0int,
{
    match v {
        JsonView::Num(num) => Ok(BaseView::Scalar(spec_parse_num(num))),
        JsonView::Boolean(_) => Ok(BaseView::Scalar(ScalarValue::Bool)),
        JsonView::Str(_) => Ok(BaseView::Scalar(ScalarValue::Str)),
        JsonView::Array(arr) => if arr.len() == 0 {
            Err(SchemaError::EmptyArray)
        } else {
            match spec_visit_list_ele(arr[0]) {
                Ok(le) => Ok(BaseView::List(le)),
                Err(e) => Err(e),
            }
        },
        JsonView::Object(ms) => match spec_object_msg(ms) {
            Ok(fs) => Ok(BaseView::Message(fs)),
            Err(e) => Err(e),
        },
    }
}

/// The schema of an array element: only scalars and objects are allowed.
pub open spec fn spec_visit_list_ele(v: JsonView) -> Result<ListView, SchemaError>
    decreases v, 3int, 0int,
{
    match v {
        JsonView::Object(ms) => match spec_object_msg(ms) {
            Ok(fs) => Ok(ListView::Message(fs)),
            Err(e) => Err(e),
        },
        JsonView::Array(_) => Err(SchemaError::NestedArrayUnsupported),
        JsonView::Num(num) => Ok(ListView::Scalar(spec_parse_num(num))),
        JsonView::Boolean(_) => Ok(ListView::Scalar(ScalarValue::Bool)),
        JsonView::Str(_) => Ok(ListView::Scalar(ScalarValue::Str)),
    }
}

/// The message schema of an object's member list; empty objects are refused.
pub open spec fn spec_object_msg(ms: Seq<(Seq<char>, JsonView)>) -> Result<
    Seq<FieldView>,
    SchemaError,
>
    decreases ms, 2int, 0int,
{
    if ms.len() == 0 {
        Err(SchemaError::EmptyObject)
    } else {
        spec_obj_fields(ms, ms.len() as int)
    }
}

/// Member `i`'s key already occurred at an earlier member.
pub open spec fn key_seen(ms: Seq<(Seq<char>, JsonView)>, i: int) -> bool {
    exists|j: int| 0 <= j < i && #[trigger] ms[j].0 == ms[i].0
}

/// The first `n` members with later occurrences of a duplicated key dropped:
/// the first occurrence wins.
pub open spec fn dedup_members(ms: Seq<(Seq<char>, JsonView)>, n: int) -> Seq<
    (Seq<char>, JsonView),
>
    decreases n,
{
    if 0 < n <= ms.len() {
        if key_seen(ms, n - 1) {
            dedup_members(ms, n - 1)
        } else {
            dedup_members(ms, n - 1).push(ms[n - 1])
        }
    } else {
        Seq::empty()
    }
}

/// The fields inferred from the first `n` members, in member order. The first
/// occurrence of a duplicated key wins: a member whose key already occurred
/// is skipped and its value is not inspected. The first failing inspected
/// member's error wins.
pub open spec fn spec_obj_fields(ms: Seq<(Seq<char>, JsonView)>, n: int) -> Result<
    Seq<FieldView>,
    SchemaError,
>
    decreases ms, 1int, n,
{
    if 0 < n <= ms.len() {
        match spec_obj_fields(ms, n - 1) {
            Err(e) => Err(e),
            Ok(pre) => if key_seen(ms, n - 1) {
                Ok(pre)
            } else {
                match spec_visit_ele(ms[n - 1].1) {
                    Err(e) => Err(e),
                    Ok(bv) => Ok(
                        pre.push(FieldView { field_name: ms[n - 1].0, field_type: bv }),
                    ),
                }
            },
        }
    } else {
        Ok(Seq::empty())
    }
}

/// The schema of a whole document: the root must be a non-empty object.
pub open spec fn spec_visit_root(v: JsonView) -> Result<Seq<FieldView>, SchemaError> {
    match v {
        JsonView::Object(ms) => spec_object_msg(ms),
        _ => Err(SchemaError::RootNotObject),
    }
}

/// An inference error on some member prefix persists for every longer prefix.
proof fn lemma_obj_fields_err(ms: Seq<(Seq<char>, JsonView)>, i: int, n: int, e: SchemaError)
    requires
        0 <= i <= n <= ms.len(),
        spec_obj_fields(ms, i) == Err::<Seq<FieldView>, SchemaError>(e),
    ensures
        spec_obj_fields(ms, n) == Err::<Seq<FieldView>, SchemaError>(e),
    decreases n,
{
    if n > i {
        lemma_obj_fields_err(ms, i, n - 1, e);
    }
}

/// What successful inference says of each field: the fields correspond
/// one-to-one, in order, to the members that survive deduplication.
pub proof fn lemma_obj_fields_ok(ms: Seq<(Seq<char>, JsonView)>, n: int)
    requires
        0 <= n <= ms.len(),
        spec_obj_fields(ms, n) is Ok,
    ensures
        spec_obj_fields(ms, n)->Ok_0.len() == dedup_members(ms, n).len(),
        forall|i: int|
            0 <= i < dedup_members(ms, n).len() ==> (#[trigger] spec_obj_fields(ms, n)->Ok_0[i])
                .field_name == dedup_members(ms, n)[i].0 && spec_visit_ele(
                dedup_members(ms, n)[i].1,
            ) == Ok::<BaseView, SchemaError>(spec_obj_fields(ms, n)->Ok_0[i].field_type),
    decreases n,
{
    if n > 0 {
        lemma_obj_fields_ok(ms, n - 1);
    }
}

/// Every member that survives deduplication is one of the original members,
/// and not itself a later duplicate.
pub proof fn lemma_dedup_member(ms: Seq<(Seq<char>, JsonView)>, n: int, i: int)
    requires
        0 <= n <= ms.len(),
        0 <= i < dedup_members(ms, n).len(),
    ensures
        exists|j: int|
            0 <= j < n && !key_seen(ms, j) && #[trigger] ms[j] == dedup_members(ms, n)[i],
    decreases n,
{
    if n > 0 {
        if key_seen(ms, n - 1) {
            lemma_dedup_member(ms, n - 1, i);
            let j = choose|j: int|
                0 <= j < n - 1 && !key_seen(ms, j) && #[trigger] ms[j] == dedup_members(
                    ms,
                    n - 1,
                )[i];
            assert(ms[j] == dedup_members(ms, n)[i]);
        } else {
            if i < dedup_members(ms, n - 1).len() {
                lemma_dedup_member(ms, n - 1, i);
                let j = choose|j: int|
                    0 <= j < n - 1 && !key_seen(ms, j) && #[trigger] ms[j] == dedup_members(
                        ms,
                        n - 1,
                    )[i];
                assert(ms[j] == dedup_members(ms, n)[i]);
            } else {
                assert(ms[n - 1] == dedup_members(ms, n)[i]);
            }
        }
    }
}

/// Deduplicated members carry pairwise distinct keys.
pub proof fn lemma_dedup_keys_distinct(ms: Seq<(Seq<char>, JsonView)>, n: int)
    requires
        0 <= n <= ms.len(),
    ensures
        forall|i: int, k: int|
            0 <= i < k < dedup_members(ms, n).len() ==> (#[trigger] dedup_members(ms, n)[i].0)
                != (#[trigger] dedup_members(ms, n)[k].0),
    decreases n,
{
    if n > 0 {
        lemma_dedup_keys_distinct(ms, n - 1);
        if !key_seen(ms, n - 1) {
            let d = dedup_members(ms, n);
            assert forall|i: int, k: int| 0 <= i < k < d.len() implies (#[trigger] d[i].0) != (
            #[trigger] d[k].0) by {
                if k == d.len() - 1 {
                    lemma_dedup_member(ms, n - 1, i);
                    let j = choose|j: int|
                        0 <= j < n - 1 && !key_seen(ms, j) && #[trigger] ms[j] == dedup_members(
                            ms,
                            n - 1,
                        )[i];
                    if d[i].0 == d[k].0 {
                        assert(ms[j].0 == ms[n - 1].0);
                        assert(key_seen(ms, n - 1));
                    }
                }
            }
        }
    }
}

/// When no key repeats, deduplication keeps every member.
pub proof fn lemma_dedup_identity(ms: Seq<(Seq<char>, JsonView)>, n: int)
    requires
        0 <= n <= ms.len(),
        forall|i: int| 0 <= i < n ==> !(#[trigger] key_seen(ms, i)),
    ensures
        dedup_members(ms, n).len() == n,
        forall|i: int| 0 <= i < n ==> #[trigger] dedup_members(ms, n)[i] == ms[i],
    decreases n,
{
    if n > 0 {
        lemma_dedup_identity(ms, n - 1);
    }
}

/// Generated field names are pairwise distinct: of members sharing a key,
/// only the first contributes a field.
pub proof fn lemma_field_names_distinct(ms: Seq<(Seq<char>, JsonView)>)
    requires
        spec_visit_root(JsonView::Object(ms)) is Ok,
    ensures
        forall|i: int, k: int|
            0 <= i < k < spec_visit_root(JsonView::Object(ms))->Ok_0.len() ==> (
            #[trigger] spec_visit_root(JsonView::Object(ms))->Ok_0[i]).field_name != (
            #[trigger] spec_visit_root(JsonView::Object(ms))->Ok_0[k]).field_name,
{
    lemma_obj_fields_ok(ms, ms.len() as int);
    lemma_dedup_keys_distinct(ms, ms.len() as int);
}

fn parse_num(num: JsonNum) -> (r: ScalarValue)
    ensures
        r == spec_parse_num(num),
{
    if num.integral && num.in_bound {
        ScalarValue::Int64
    } else {
        ScalarValue::Double
    }
}

fn visit_json_ele(v: &JsonValue) -> (r: Result<BaseValue, SchemaError>)
    ensures
        match r {
            Ok(bv) => spec_visit_ele(v.view()) == Ok::<BaseView, SchemaError>(base_view(bv)),
            Err(e) => spec_visit_ele(v.view()) == Err::<BaseView, SchemaError>(e),
        },
    decreases v, 3int, 0int,
{
    match v {
        JsonValue::Num(num) => Ok(BaseValue::Scalar(parse_num(*num))),
        JsonValue::Boolean(_) => Ok(BaseValue::Scalar(ScalarValue::Bool)),
        JsonValue::Str(_) => Ok(BaseValue::Scalar(ScalarValue::Str)),
        JsonValue::Array(arr) => {
            if arr.len() == 0 {
                proof {
                    assert(JsonValue::view_arr(*arr, 0) =~= Seq::<JsonView>::empty());
                }
                Err(SchemaError::EmptyArray)
            } else {
                proof {
                    crate::parser::lemma_view_arr_index(*arr, arr@.len() as int, 0);
                }
                match visit_list_ele(&arr[0]) {
                    Ok(le) => Ok(BaseValue::List(le)),
                    Err(e) => Err(e),
                }
            }
        },
        JsonValue::Object(ms) => {
            match parse_object(ms) {
                Ok(m) => Ok(BaseValue::Message(m)),
                Err(e) => Err(e),
            }
        },
    }
}

fn visit_list_ele(v: &JsonValue) -> (r: Result<ListEle, SchemaError>)
    ensures
        match r {
            Ok(le) => spec_visit_list_ele(v.view()) == Ok::<ListView, SchemaError>(list_view(le)),
            Err(e) => spec_visit_list_ele(v.view()) == Err::<ListView, SchemaError>(e),
        },
    decreases v, 3int, 0int,
{
    match v {
        JsonValue::Object(ms) => {
            match parse_object(ms) {
                Ok(m) => Ok(ListEle::Message(m)),
                Err(e) => Err(e),
            }
        },
        JsonValue::Array(_) => Err(SchemaError::NestedArrayUnsupported),
        JsonValue::Num(num) => Ok(ListEle::Scalar(parse_num(*num))),
        JsonValue::Boolean(_) => Ok(ListEle::Scalar(ScalarValue::Bool)),
        JsonValue::Str(_) => Ok(ListEle::Scalar(ScalarValue::Str)),
    }
}

/// Whether member `i`'s key equals the key of some earlier member.
fn key_occurs_before(obj: &Vec<(String, JsonValue)>, i: usize) -> (r: bool)
    requires
        i < obj@.len(),
    ensures
        r == key_seen(JsonValue::view_obj(*obj, obj@.len() as int), i as int),
{
    let ghost msv = JsonValue::view_obj(*obj, obj@.len() as int);
    proof {
        crate::parser::lemma_view_obj_index(*obj, obj@.len() as int, i as int);
    }
    let mut j: usize = 0;
    while j < i
        invariant
            j <= i,
            i < obj@.len(),
            msv == JsonValue::view_obj(*obj, obj@.len() as int),
            !(exists|q: int| 0 <= q < j && #[trigger] msv[q].0 == msv[i as int].0),
        decreases i - j,
    {
        proof {
            crate::parser::lemma_view_obj_index(*obj, obj@.len() as int, j as int);
            crate::parser::lemma_view_obj_index(*obj, obj@.len() as int, i as int);
        }
        let pj = &obj[j];
        let pi = &obj[i];
        if pj.0 == pi.0 {
            proof {
                assert(msv[j as int].0 == msv[i as int].0);
            }
            return true;
        }
        proof {
            assert(msv[j as int].0 != msv[i as int].0);
            if exists|q: int| 0 <= q < j + 1 && #[trigger] msv[q].0 == msv[i as int].0 {
                let q = choose|q: int| 0 <= q < j + 1 && #[trigger] msv[q].0 == msv[i as int].0;
                assert(q == j);
                assert(false);
            }
        }
        j = j + 1;
    }
    false
}

/// Infers the message schema of an object's member list: one field per
/// distinct key, at the position of the key's first occurrence; members
/// repeating an earlier key are skipped without inspecting their values.
fn parse_object(obj: &Vec<(String, JsonValue)>) -> (r: Result<Message, SchemaError>)
    ensures
        match r {
            Ok(m) => spec_object_msg(JsonValue::view_obj(*obj, obj@.len() as int)) == Ok::<
                Seq<FieldView>,
                SchemaError,
            >(msg_view(m)),
            Err(e) => spec_object_msg(JsonValue::view_obj(*obj, obj@.len() as int)) == Err::<
                Seq<FieldView>,
                SchemaError,
            >(e),
        },
    decreases obj, 2int, 0int,
{
    let ghost msv = JsonValue::view_obj(*obj, obj@.len() as int);
    proof {
        crate::parser::lemma_view_obj_len(*obj, obj@.len() as int);
    }
    if obj.len() == 0 {
        return Err(SchemaError::EmptyObject);
    }
    let mut out: Vec<ObjField> = Vec::new();
    let mut i: usize = 0;
    while i < obj.len()
        invariant
            0 <= i <= obj@.len(),
            msv == JsonValue::view_obj(*obj, obj@.len() as int),
            msv.len() == obj@.len(),
            out@.len() <= i,
            spec_obj_fields(msv, i as int) == Ok::<Seq<FieldView>, SchemaError>(
                fields_view(out, out@.len() as int),
            ),
        decreases obj@.len() - i,
    {
        proof {
            crate::parser::lemma_view_obj_index(*obj, obj@.len() as int, i as int);
        }
        if key_occurs_before(obj, i) {
            // The key's first occurrence already contributed this field.
            i = i + 1;
            continue;
        }
        let pair = &obj[i];
        match visit_json_ele(&pair.1) {
            Err(e) => {
                proof {
                    lemma_obj_fields_err(msv, i + 1, obj@.len() as int, e);
                }
                return Err(e);
            },
            Ok(bv) => {
                let ghost old_out = out;
                let ghost olen = out@.len() as int;
                out.push(ObjField { field_type: bv, field_name: pair.0.clone() });
                proof {
                    assert(out@ =~= old_out@.push(out@[olen]));
                    assert(fields_view(out, olen + 1) == fields_view(out, olen).push(
                        field_view(out[olen]),
                    ));
                    lemma_fields_view_congruent(old_out, out, olen);
                }
                i = i + 1;
            },
        }
    }
    Ok(Message(out))
}

/// Views of a prefix depend only on the elements of that prefix.
proof fn lemma_fields_view_congruent(fs1: Vec<ObjField>, fs2: Vec<ObjField>, n: int)
    requires
        0 <= n <= fs1@.len(),
        n <= fs2@.len(),
        forall|i: int| 0 <= i < n ==> fs1@[i] == fs2@[i],
    ensures
        fields_view(fs1, n) == fields_view(fs2, n),
    decreases n,
{
    if n > 0 {
        lemma_fields_view_congruent(fs1, fs2, n - 1);
    }
}

/// Infers the root message schema: the root must be a non-empty JSON object.
pub fn visit_json_root(v: &JsonValue) -> (r: Result<Message, SchemaError>)
    ensures
        match r {
            Ok(m) => spec_visit_root(v.view()) == Ok::<Seq<FieldView>, SchemaError>(msg_view(m)),
            Err(e) => spec_visit_root(v.view()) == Err::<Seq<FieldView>, SchemaError>(e),
        },
{
    match v {
        JsonValue::Object(ms) => parse_object(ms),
        _ => Err(SchemaError::RootNotObject),
    }
}

/// A name for what `char::to_uppercase` yields first: it depends on the
/// character alone.
pub uninterp spec fn upper_first_of(c: char) -> char;

/// A name for what `char::to_lowercase` yields first: it depends on the
/// character alone.
pub uninterp spec fn lower_first_of(c: char) -> char;

/// Relies on char::to_uppercase: the first character of the Unicode uppercase
/// mapping of `c`, which std documents as locale-independent. The mapping
/// always yields at least one character, so the fallback never applies.
#[verifier::external_body]
fn upper_first(c: char) -> (r: char)
    ensures
        r == upper_first_of(c),
{
    c.to_uppercase().next().unwrap_or(c)
}

/// Relies on char::to_lowercase: the first character of the Unicode lowercase
/// mapping of `c`, which std documents as locale-independent.
#[verifier::external_body]
fn lower_first(c: char) -> (r: char)
    ensures
        r == lower_first_of(c),
{
    c.to_lowercase().next().unwrap_or(c)
}

/// Relies on String::push: appends exactly one character at the end.
#[verifier::external_body]
fn push_char(s: &mut String, c: char)
    ensures
        final(s)@ == old(s)@ + seq![c],
{
    s.push(c)
}

/// `n` spaces.
pub open spec fn spaces(n: int) -> Seq<char>
    decreases n,
{
    if n <= 0 {
        Seq::empty()
    } else {
        spaces(n - 1).push(' ')
    }
}

/// The decimal digits of `n`, most significant first.
pub open spec fn dec_digits(n: nat) -> Seq<char>
    decreases n,
{
    if n < 10 {
        seq![(48 + n) as u8 as char]
    } else {
        dec_digits(n / 10).push((48 + n % 10) as u8 as char)
    }
}

/// Renders `n` in decimal.
fn u64_to_dec(n: u64) -> (r: String)
    ensures
        r@ == dec_digits(n as nat),
    decreases n,
{
    if n < 10 {
        let mut s = String::new();
        push_char(&mut s, ((48 + n) as u8) as char);
        proof {
            assert(s@ =~= dec_digits(n as nat));
        }
        s
    } else {
        let mut s = u64_to_dec(n / 10);
        push_char(&mut s, ((48 + n % 10) as u8) as char);
        proof {
            assert(s@ =~= dec_digits(n as nat));
        }
        s
    }
}

/// The protobuf name of a scalar type.
pub open spec fn scalar_name(sv: ScalarValue) -> Seq<char> {
    match sv {
        ScalarValue::Str => "string"@,
        ScalarValue::Bool => "bool"@,
        ScalarValue::Double => "double"@,
        ScalarValue::Int64 => "int64"@,
    }
}

impl ScalarValue {
    /// The protobuf name of this scalar type.
    pub fn to_string(&self) -> (r: String)
        ensures
            r@ == scalar_name(*self),
    {
        match self {
            ScalarValue::Str => String::from_str("string"),
            ScalarValue::Bool => String::from_str("bool"),
            ScalarValue::Double => String::from_str("double"),
            ScalarValue::Int64 => String::from_str("int64"),
        }
    }
}

/// PascalCase conversion of the characters of a field name: `_` separates
/// words and is dropped; a word's first character is uppercased, the rest are
/// lowercased. `start` says whether the next character starts a word.
pub open spec fn pascal_chars(s: Seq<char>, start: bool) -> Seq<char>
    decreases s.len(),
{
    if s.len() == 0 {
        Seq::empty()
    } else if s[0] == '_' {
        pascal_chars(s.drop_first(), true)
    } else if start {
        seq![upper_first_of(s[0])] + pascal_chars(s.drop_first(), false)
    } else {
        seq![lower_first_of(s[0])] + pascal_chars(s.drop_first(), false)
    }
}

/// The nested-message type name derived from a field name; an empty name gets
/// a fixed placeholder.
pub open spec fn pascal_of(s: Seq<char>) -> Seq<char> {
    if s.len() == 0 {
        "DefaultMessageName"@
    } else {
        pascal_chars(s, true)
    }
}

/// Derives a nested message's type name from its field's name.
pub fn to_message_name(s: &str) -> (r: String)
    ensures
        r@ == pascal_of(s@),
{
    let len = s.unicode_len();
    if len == 0 {
        return String::from_str("DefaultMessageName");
    }
    let mut out = String::new();
    let mut start = true;
    let mut i: usize = 0;
    proof {
        assert(s@.skip(0) =~= s@);
        assert(out@ + pascal_chars(s@, true) =~= pascal_chars(s@, true));
    }
    while i < len
        invariant
            i <= len,
            len == s@.len(),
            pascal_chars(s@, true) == out@ + pascal_chars(s@.skip(i as int), start),
        decreases len - i,
    {
        let c = s.get_char(i);
        proof {
            assert(s@.skip(i as int)[0] == s@[i as int]);
            assert(s@.skip(i as int).drop_first() =~= s@.skip(i + 1));
        }
        let ghost pre = out@;
        if c == '_' {
            start = true;
        } else if start {
            let u = upper_first(c);
            push_char(&mut out, u);
            start = false;
            proof {
                assert(out@ + pascal_chars(s@.skip(i + 1), false) =~= pre + (seq![
                    upper_first_of(c),
                ] + pascal_chars(s@.skip(i + 1), false)));
            }
        } else {
            let l = lower_first(c);
            push_char(&mut out, l);
            proof {
                assert(out@ + pascal_chars(s@.skip(i + 1), false) =~= pre + (seq![
                    lower_first_of(c),
                ] + pascal_chars(s@.skip(i + 1), false)));
            }
        }
        i = i + 1;
    }
    proof {
        assert(s@.skip(len as int) =~= Seq::<char>::empty());
    }
    out
}

/// A text buffer that tracks the current indentation.
#[derive(Debug)]
pub struct IdentBuffer {
    pub ident: usize,
    pub buf: String,
}

impl IdentBuffer {
    /// An empty buffer at the given indentation.
    pub fn new(ident: usize) -> (r: Self)
        ensures
            r.ident == ident,
            r.buf@ == Seq::<char>::empty(),
    {
        IdentBuffer { ident, buf: String::new() }
    }

    /// Writes the current indentation.
    fn write_ident(&mut self)
        ensures
            final(self).ident == old(self).ident,
            final(self).buf@ == old(self).buf@ + spaces(old(self).ident as int),
    {
        let n = self.ident;
        let mut j: usize = 0;
        while j < n
            invariant
                j <= n,
                self.ident == n,
                self.buf@ == old(self).buf@ + spaces(j as int),
            decreases n - j,
        {
            let ghost pre = self.buf@;
            push_char(&mut self.buf, ' ');
            proof {
                assert(pre + seq![' '] =~= old(self).buf@ + spaces(j + 1));
            }
            j = j + 1;
        }
    }

    /// Appends `data` and a newline.
    pub fn writeln(&mut self, data: &str)
        ensures
            final(self).ident == old(self).ident,
            final(self).buf@ == old(self).buf@ + data@ + seq!['\n'],
    {
        self.write(data);
        push_char(&mut self.buf, '\n');
    }

    /// Writes the indentation, then `data` and a newline.
    pub fn writeln_with_ident(&mut self, data: &str)
        ensures
            final(self).ident == old(self).ident,
            final(self).buf@ == old(self).buf@ + spaces(old(self).ident as int) + data@ + seq![
                '\n',
            ],
    {
        self.write_with_ident(data);
        push_char(&mut self.buf, '\n');
    }

    /// Writes the indentation, then `data`.
    pub fn write_with_ident(&mut self, data: &str)
        ensures
            final(self).ident == old(self).ident,
            final(self).buf@ == old(self).buf@ + spaces(old(self).ident as int) + data@,
    {
        self.write_ident();
        self.write(data);
    }

    /// Appends `data`.
    pub fn write(&mut self, data: &str)
        ensures
            final(self).ident == old(self).ident,
            final(self).buf@ == old(self).buf@ + data@,
    {
        self.buf.append(data);
    }

    /// Deepens the indentation by `delta`.
    pub fn add_ident(&mut self, delta: usize)
        requires
            old(self).ident + delta <= usize::MAX,
        ensures
            final(self).ident == old(self).ident + delta,
            final(self).buf@ == old(self).buf@,
    {
        self.ident = self.ident + delta;
    }

    /// Shallows the indentation by `delta`, stopping at zero.
    pub fn dec_ident(&mut self, delta: usize)
        ensures
            final(self).ident == if old(self).ident >= delta {
                old(self).ident - delta
            } else {
                0
            },
            final(self).buf@ == old(self).buf@,
    {
        if self.ident >= delta {
            self.ident = self.ident - delta;
        } else {
            self.ident = 0;
        }
    }

    /// The accumulated text.
    pub fn to_string(&self) -> (r: String)
        ensures
            r@ == self.buf@,
    {
        self.buf.clone()
    }
}

/// Whether a field declares a nested message type.
pub open spec fn is_nested_field(f: FieldView) -> bool {
    match f.field_type {
        BaseView::Message(_) => true,
        BaseView::List(ListView::Message(_)) => true,
        _ => false,
    }
}

/// Whether any of the first `n` fields declares a nested message type.
pub open spec fn has_nested(fs: Seq<FieldView>, n: int) -> bool
    decreases n,
{
    if 0 < n <= fs.len() {
        has_nested(fs, n - 1) || is_nested_field(fs[n - 1])
    } else {
        false
    }
}

/// The tail every field line shares: space, name, ` = `, number, `;`, newline.
pub open spec fn line_tail(name: Seq<char>, num: int) -> Seq<char> {
    " "@ + name + " = "@ + dec_digits(num as nat) + ";"@ + seq!['\n']
}

/// One rendered field line at indentation `ind` with field number `num`.
pub open spec fn field_line(f: FieldView, num: int, ind: int) -> Seq<char> {
    match f.field_type {
        BaseView::Scalar(sv) => spaces(ind) + scalar_name(sv) + line_tail(f.field_name, num),
        BaseView::Message(_) => spaces(ind) + pascal_of(f.field_name) + line_tail(
            f.field_name,
            num,
        ),
        BaseView::List(lv) => spaces(ind) + "repeated"@ + " "@ + (match lv {
            ListView::Scalar(sv) => scalar_name(sv),
            ListView::Message(_) => pascal_of(f.field_name),
        }) + line_tail(f.field_name, num),
    }
}

/// The first `n` field lines, numbered from one.
pub open spec fn fields_text(fs: Seq<FieldView>, n: int, ind: int) -> Seq<char>
    decreases fs, 1int, n,
{
    if 0 < n <= fs.len() {
        fields_text(fs, n - 1, ind) + field_line(fs[n - 1], n, ind)
    } else {
        Seq::empty()
    }
}

/// The nested message blocks of the first `n` fields, in field order.
pub open spec fn nested_text(fs: Seq<FieldView>, n: int, ind: int) -> Seq<char>
    decreases fs, 1int, n,
{
    if 0 < n <= fs.len() {
        nested_text(fs, n - 1, ind) + (match fs[n - 1].field_type {
            BaseView::Message(sub) => msg_text(sub, pascal_of(fs[n - 1].field_name), ind),
            BaseView::List(ListView::Message(sub)) => msg_text(
                sub,
                pascal_of(fs[n - 1].field_name),
                ind,
            ),
            _ => Seq::empty(),
        })
    } else {
        Seq::empty()
    }
}

/// One full `message <name> { ... }` block at indentation `ind`: the field
/// lines, then, if any field nests a message, a blank line and the nested
/// blocks, indented one unit deeper.
pub open spec fn msg_text(fs: Seq<FieldView>, name: Seq<char>, ind: int) -> Seq<char>
    decreases fs, 2int, 0int,
{
    spaces(ind) + "message"@ + " "@ + name + " {"@ + seq!['\n'] + fields_text(
        fs,
        fs.len() as int,
        ind + 4,
    ) + (if has_nested(fs, fs.len() as int) {
        seq!['\n'] + nested_text(fs, fs.len() as int, ind + 4)
    } else {
        Seq::empty()
    }) + spaces(ind) + "}"@ + seq!['\n']
}

/// Nesting of messages below a field list is at most `d` levels deep.
pub open spec fn mdepth_le(fs: Seq<FieldView>, d: int) -> bool
    decreases fs,
{
    forall|i: int| 0 <= i < fs.len() ==> base_depth_le(#[trigger] fs[i].field_type, d)
}

/// Nesting of messages below a field type is at most `d` levels deep.
pub open spec fn base_depth_le(bv: BaseView, d: int) -> bool
    decreases bv,
{
    match bv {
        BaseView::Scalar(_) => d >= 0,
        BaseView::Message(sub) => d >= 1 && mdepth_le(sub, d - 1),
        BaseView::List(lv) => match lv {
            ListView::Scalar(_) => d >= 0,
            ListView::Message(sub) => d >= 1 && mdepth_le(sub, d - 1),
        },
    }
}

pub proof fn lemma_mdepth_mono(fs: Seq<FieldView>, d1: int, d2: int)
    requires
        mdepth_le(fs, d1),
        d1 <= d2,
    ensures
        mdepth_le(fs, d2),
    decreases fs,
{
    assert forall|i: int| 0 <= i < fs.len() implies base_depth_le(
        #[trigger] fs[i].field_type,
        d2,
    ) by {
        match fs[i].field_type {
            BaseView::Scalar(_) => {},
            BaseView::Message(sub) => {
                lemma_mdepth_mono(sub, d1 - 1, d2 - 1);
            },
            BaseView::List(lv) => {
                match lv {
                    ListView::Scalar(_) => {},
                    ListView::Message(sub) => {
                        lemma_mdepth_mono(sub, d1 - 1, d2 - 1);
                    },
                }
            },
        }
    }
}

/// Writes one field's line: its type token, name, number and terminator.
fn write_field_line(buf: &mut IdentBuffer, f: &ObjField, num: u64)
    requires
        num >= 1,
    ensures
        final(buf).ident == old(buf).ident,
        final(buf).buf@ == old(buf).buf@ + field_line(
            field_view(*f),
            num as int,
            old(buf).ident as int,
        ),
{
    match &f.field_type {
        BaseValue::Scalar(sv) => {
            let ts = sv.to_string();
            buf.write_with_ident(ts.as_str());
        },
        BaseValue::Message(_) => {
            let tn = to_message_name(f.field_name.as_str());
            buf.write_with_ident(tn.as_str());
        },
        BaseValue::List(ele) => {
            buf.write_with_ident("repeated");
            buf.write(" ");
            match ele {
                ListEle::Scalar(sv) => {
                    let ts = sv.to_string();
                    buf.write(ts.as_str());
                },
                ListEle::Message(_) => {
                    let tn = to_message_name(f.field_name.as_str());
                    buf.write(tn.as_str());
                },
            }
        },
    }
    buf.write(" ");
    buf.write(f.field_name.as_str());
    buf.write(" = ");
    let numstr = u64_to_dec(num);
    buf.write(numstr.as_str());
    buf.writeln(";");
    proof {
        assert(final(buf).buf@ =~= old(buf).buf@ + field_line(
            field_view(*f),
            num as int,
            old(buf).ident as int,
        ));
    }
}

impl Message {
    /// An empty message schema.
    pub fn new() -> (r: Self)
        ensures
            msg_view(r) == Seq::<FieldView>::empty(),
    {
        Message(Vec::new())
    }

    /// Appends one field.
    pub fn push(&mut self, data: ObjField)
        ensures
            final(self).0@.len() == old(self).0@.len() + 1,
            msg_view(*final(self)) == msg_view(*old(self)).push(field_view(data)),
    {
        let ghost pre = self.0;
        let ghost gdata = data;
        self.0.push(data);
        proof {
            lemma_fields_view_congruent(pre, self.0, pre@.len() as int);
            assert(self.0[self.0@.len() - 1] == gdata);
        }
    }

    /// Renders this message block, named `name`, at the buffer's current
    /// indentation. The ghost bound `d` caps message nesting so that the
    /// indentation arithmetic stays within machine range.
    #[verifier::rlimit(100)]
    pub fn gen(&self, buf: &mut IdentBuffer, name: &str, d: Ghost<int>)
        requires
            d@ >= 0,
            mdepth_le(msg_view(*self), d@),
            old(buf).ident + 4 + 4 * d@ <= usize::MAX,
        ensures
            final(buf).ident == old(buf).ident,
            final(buf).buf@ == old(buf).buf@ + msg_text(
                msg_view(*self),
                name@,
                old(buf).ident as int,
            ),
        decreases *self, 3int, 0int,
    {
        let ghost base = old(buf).buf@;
        let ghost gi = old(buf).ident as int;
        let ghost fsv = msg_view(*self);
        let n = self.0.len();
        proof {
            lemma_fields_view_len(self.0, n as int);
        }
        buf.write_with_ident("message");
        buf.write(" ");
        buf.write(name);
        buf.writeln(" {");
        let ghost header = spaces(gi) + "message"@ + " "@ + name@ + " {"@ + seq!['\n'];
        proof {
            assert(buf.buf@ =~= base + header);
        }
        buf.add_ident(4);
        let mut has_sub = false;
        let mut i: usize = 0;
        while i < n
            invariant
                i <= n,
                n == self.0@.len(),
                fsv == msg_view(*self),
                fsv.len() == n,
                buf.ident == gi + 4,
                gi == old(buf).ident,
                old(buf).ident + 4 + 4 * d@ <= usize::MAX,
                buf.buf@ == base + header + fields_text(fsv, i as int, gi + 4),
                has_sub == has_nested(fsv, i as int),
            decreases n - i,
        {
            proof {
                lemma_fields_view_index(self.0, n as int, i as int);
            }
            let ghost pre = buf.buf@;
            let f = &self.0[i];
            match &f.field_type {
                BaseValue::Scalar(_) => {},
                BaseValue::Message(_) => {
                    has_sub = true;
                },
                BaseValue::List(ele) => {
                    match ele {
                        ListEle::Scalar(_) => {},
                        ListEle::Message(_) => {
                            has_sub = true;
                        },
                    }
                },
            }
            write_field_line(buf, f, (i + 1) as u64);
            proof {
                assert(buf.buf@ =~= base + header + fields_text(fsv, i + 1, gi + 4));
            }
            i = i + 1;
        }
        let ghost body = fields_text(fsv, n as int, gi + 4);
        if has_sub {
            buf.writeln("");
            proof {
                reveal_strlit("");
                assert(buf.buf@ =~= base + header + body + seq!['\n'] + nested_text(
                    fsv,
                    0,
                    gi + 4,
                ));
            }
            let mut j: usize = 0;
            while j < n
                invariant
                    j <= n,
                    n == self.0@.len(),
                    fsv == msg_view(*self),
                    fsv.len() == n,
                    d@ >= 0,
                    mdepth_le(fsv, d@),
                    buf.ident == gi + 4,
                    gi == old(buf).ident,
                    old(buf).ident + 4 + 4 * d@ <= usize::MAX,
                    buf.buf@ == base + header + body + seq!['\n'] + nested_text(
                        fsv,
                        j as int,
                        gi + 4,
                    ),
                decreases n - j,
            {
                proof {
                    lemma_fields_view_index(self.0, n as int, j as int);
                }
                let ghost pre = buf.buf@;
                let f = &self.0[j];
                match &f.field_type {
                    BaseValue::Message(sub) => {
                        proof {
                            assert(base_depth_le(fsv[j as int].field_type, d@));
                        }
                        let tn = to_message_name(f.field_name.as_str());
                        sub.gen(buf, tn.as_str(), Ghost(d@ - 1));
                        proof {
                            assert(buf.buf@ =~= base + header + body + seq!['\n'] + nested_text(
                                fsv,
                                j + 1,
                                gi + 4,
                            ));
                        }
                    },
                    BaseValue::List(ele) => {
                        match ele {
                            ListEle::Message(sub) => {
                                proof {
                                    assert(base_depth_le(fsv[j as int].field_type, d@));
                                }
                                let tn = to_message_name(f.field_name.as_str());
                                sub.gen(buf, tn.as_str(), Ghost(d@ - 1));
                                proof {
                                    assert(buf.buf@ =~= base + header + body + seq!['\n']
                                        + nested_text(fsv, j + 1, gi + 4));
                                }
                            },
                            ListEle::Scalar(_) => {
                                proof {
                                    assert(buf.buf@ =~= base + header + body + seq!['\n']
                                        + nested_text(fsv, j + 1, gi + 4));
                                }
                            },
                        }
                    },
                    BaseValue::Scalar(_) => {
                        proof {
                            assert(buf.buf@ =~= base + header + body + seq!['\n'] + nested_text(
                                fsv,
                                j + 1,
                                gi + 4,
                            ));
                        }
                    },
                }
                j = j + 1;
            }
        }
        buf.dec_ident(4);
        buf.writeln_with_ident("}");
        proof {
            if has_nested(fsv, n as int) {
                assert(buf.buf@ =~= base + msg_text(fsv, name@, gi));
            } else {
                assert(buf.buf@ =~= base + msg_text(fsv, name@, gi));
            }
        }
    }
}

/// The rendered definition of a whole schema: one `message root_data` block.
pub open spec fn spec_gen_pb_def(fs: Seq<FieldView>) -> Seq<char> {
    msg_text(fs, "root_data"@, 0)
}

/// How deeply `gen_pb_def` lets messages nest; matches the parser's bound.
pub const GEN_DEPTH: usize = 500;

/// Renders a schema as protobuf text, rooted at a message named `root_data`.
pub fn gen_pb_def(obj: &Message) -> (r: String)
    requires
        mdepth_le(msg_view(*obj), GEN_DEPTH as int),
    ensures
        r@ == spec_gen_pb_def(msg_view(*obj)),
{
    let mut buf = IdentBuffer::new(0);
    obj.gen(&mut buf, "root_data", Ghost(GEN_DEPTH as int));
    let r = buf.to_string();
    proof {
        assert(r@ =~= spec_gen_pb_def(msg_view(*obj)));
    }
    r
}

/// Inference cannot deepen nesting: a schema inferred from a JSON value whose
/// containers nest at most `d` levels keeps its messages within `d` levels.
pub proof fn lemma_infer_depth(v: JsonView, d: int)
    requires
        crate::parser::jdepth_le(v, d),
    ensures
        spec_visit_ele(v) is Ok ==> base_depth_le(spec_visit_ele(v)->Ok_0, d),
        spec_visit_list_ele(v) is Ok ==> base_depth_le(
            BaseView::List(spec_visit_list_ele(v)->Ok_0),
            d,
        ),
    decreases v,
{
    match v {
        JsonView::Object(ms) => {
            if spec_object_msg(ms) is Ok {
                let fs = spec_object_msg(ms)->Ok_0;
                lemma_obj_fields_ok(ms, ms.len() as int);
                assert forall|i: int| 0 <= i < fs.len() implies base_depth_le(
                    #[trigger] fs[i].field_type,
                    d - 1,
                ) by {
                    lemma_dedup_member(ms, ms.len() as int, i);
                    let j = choose|j: int|
                        0 <= j < ms.len() && !key_seen(ms, j) && #[trigger] ms[j]
                            == dedup_members(ms, ms.len() as int)[i];
                    lemma_infer_depth(ms[j].1, d - 1);
                }
                assert(mdepth_le(fs, d - 1));
            }
        },
        JsonView::Array(arr) => {
            if arr.len() > 0 {
                lemma_infer_depth(arr[0], d - 1);
                if spec_visit_list_ele(arr[0]) is Ok {
                    match spec_visit_list_ele(arr[0])->Ok_0 {
                        ListView::Message(sub) => {
                            lemma_mdepth_mono(sub, d - 2, d - 1);
                        },
                        ListView::Scalar(_) => {},
                    }
                }
            }
        },
        _ => {},
    }
}

/// The root schema inferred from a depth-bounded document is depth-bounded.
pub proof fn lemma_infer_root_depth(v: JsonView, d: int)
    requires
        crate::parser::jdepth_le(v, d),
        spec_visit_root(v) is Ok,
    ensures
        mdepth_le(spec_visit_root(v)->Ok_0, d),
{
    match v {
        JsonView::Object(ms) => {
            let fs = spec_visit_root(v)->Ok_0;
            lemma_obj_fields_ok(ms, ms.len() as int);
            assert forall|i: int| 0 <= i < fs.len() implies base_depth_le(
                #[trigger] fs[i].field_type,
                d - 1,
            ) by {
                lemma_dedup_member(ms, ms.len() as int, i);
                let j = choose|j: int|
                    0 <= j < ms.len() && !key_seen(ms, j) && #[trigger] ms[j] == dedup_members(
                        ms,
                        ms.len() as int,
                    )[i];
                lemma_infer_depth(ms[j].1, d - 1);
            }
            lemma_mdepth_mono(fs, d - 1, d);
        },
        _ => {},
    }
}

/// An array's element type is decided by its first element alone: two
/// non-empty arrays that agree on their first element get the same schema,
/// whatever their later elements hold.
pub proof fn lemma_list_type_from_first_element(arr: Seq<JsonView>, other: Seq<JsonView>)
    requires
        arr.len() > 0,
        other.len() > 0,
        arr[0] == other[0],
    ensures
        spec_visit_ele(JsonView::Array(arr)) == spec_visit_ele(JsonView::Array(other)),
        spec_visit_ele(JsonView::Array(arr)) == (match spec_visit_list_ele(arr[0]) {
            Ok(le) => Ok::<BaseView, SchemaError>(BaseView::List(le)),
            Err(e) => Err::<BaseView, SchemaError>(e),
        }),
{
}

/// The JSON value maps to a single scalar field type.
pub open spec fn is_scalar_json(v: JsonView) -> bool {
    match v {
        JsonView::Str(_) => true,
        JsonView::Boolean(_) => true,
        JsonView::Num(_) => true,
        _ => false,
    }
}

/// Inference of an all-scalar member list always succeeds, and every field
/// it yields is scalar.
proof fn lemma_scalar_obj_fields(ms: Seq<(Seq<char>, JsonView)>, n: int)
    requires
        0 <= n <= ms.len(),
        forall|i: int| 0 <= i < ms.len() ==> is_scalar_json(#[trigger] (ms[i].1)),
    ensures
        spec_obj_fields(ms, n) is Ok,
        forall|i: int|
            0 <= i < spec_obj_fields(ms, n)->Ok_0.len() ==> (#[trigger] spec_obj_fields(
                ms,
                n,
            )->Ok_0[i]).field_type is Scalar,
    decreases n,
{
    if n > 0 {
        lemma_scalar_obj_fields(ms, n - 1);
        assert(is_scalar_json(ms[n - 1].1));
        match ms[n - 1].1 {
            JsonView::Str(_) => {},
            JsonView::Boolean(_) => {},
            JsonView::Num(_) => {},
            _ => {},
        }
        assert(spec_visit_ele(ms[n - 1].1) is Ok);
        assert(spec_visit_ele(ms[n - 1].1)->Ok_0 is Scalar);
    }
}

/// A message whose fields are all scalar declares no nested message.
proof fn lemma_scalar_no_nested(fs: Seq<FieldView>, n: int)
    requires
        0 <= n <= fs.len(),
        forall|i: int| 0 <= i < fs.len() ==> (#[trigger] fs[i]).field_type is Scalar,
    ensures
        !has_nested(fs, n),
    decreases n,
{
    if n > 0 {
        lemma_scalar_no_nested(fs, n - 1);
    }
}

/// Round-trip shape stability: a JSON object whose members are all scalar
/// always yields a message with one field per distinct key, named after the
/// members in first-occurrence order - with pairwise distinct keys, exactly N
/// fields carrying the N members' names in their order. Its rendered
/// definition is the plain header, those field lines numbered from one in
/// that order (`fields_text` renders line `i` with number `i + 1`), and the
/// closing brace - no nested blocks.
pub proof fn lemma_scalar_object_shape(ms: Seq<(Seq<char>, JsonView)>)
    requires
        ms.len() > 0,
        forall|i: int| 0 <= i < ms.len() ==> is_scalar_json(#[trigger] (ms[i].1)),
    ensures
        spec_visit_root(JsonView::Object(ms)) is Ok,
        spec_visit_root(JsonView::Object(ms))->Ok_0.len() == dedup_members(
            ms,
            ms.len() as int,
        ).len(),
        forall|i: int|
            0 <= i < spec_visit_root(JsonView::Object(ms))->Ok_0.len() ==> (
            #[trigger] spec_visit_root(JsonView::Object(ms))->Ok_0[i]).field_name
                == dedup_members(ms, ms.len() as int)[i].0,
        (forall|i: int| 0 <= i < ms.len() ==> !(#[trigger] key_seen(ms, i)))
            ==> spec_visit_root(JsonView::Object(ms))->Ok_0.len() == ms.len() && (forall|i: int|
            0 <= i < ms.len() ==> (#[trigger] spec_visit_root(JsonView::Object(ms))->Ok_0[i])
                .field_name == ms[i].0),
        spec_gen_pb_def(spec_visit_root(JsonView::Object(ms))->Ok_0) == spaces(0) + "message"@
            + " "@ + "root_data"@ + " {"@ + seq!['\n'] + fields_text(
            spec_visit_root(JsonView::Object(ms))->Ok_0,
            spec_visit_root(JsonView::Object(ms))->Ok_0.len() as int,
            4,
        ) + spaces(0) + "}"@ + seq!['\n'],
        forall|i: int|
            0 <= i < spec_visit_root(JsonView::Object(ms))->Ok_0.len() ==> fields_text(
                spec_visit_root(JsonView::Object(ms))->Ok_0,
                i + 1,
                4,
            ) == fields_text(spec_visit_root(JsonView::Object(ms))->Ok_0, i, 4) + #[trigger]
                field_line(spec_visit_root(JsonView::Object(ms))->Ok_0[i], i + 1, 4),
{
    lemma_scalar_obj_fields(ms, ms.len() as int);
    lemma_obj_fields_ok(ms, ms.len() as int);
    let fs = spec_visit_root(JsonView::Object(ms))->Ok_0;
    lemma_scalar_no_nested(fs, fs.len() as int);
    if forall|i: int| 0 <= i < ms.len() ==> !(#[trigger] key_seen(ms, i)) {
        lemma_dedup_identity(ms, ms.len() as int);
    }
}

} // verus!
