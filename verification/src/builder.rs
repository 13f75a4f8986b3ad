//! What a builder derive decides about the fields of a struct, on a model
//! of the struct that holds what those decisions read.
//!
//! A field's type is read along the chain of its first type arguments: for
//! `Option<Vec<String>>` the chain is the type itself, `Vec<String>` and
//! `String`. Of each type on the chain the model holds whether it is named
//! `Option`; a type is referred to by its place on the chain.

use vstd::prelude::*;

verus! {

/// The message of the error for a `builder` attribute that names
/// anything but `each`.
pub const EXPECTED_EACH: &'static str = "expected `builder(each = \"...\")`";

/// The value of a name-value entry.
pub enum Literal {
    Text(String),
    Other,
}

/// An entry of an attribute's list. `each` says whether a name-value
/// entry has the name `each`.
pub enum Nested {
    NameValue { each: bool, value: Literal },
    Other,
}

/// An attribute: a list named `builder` with its entries, or anything else.
pub enum Attribute {
    Builder(Vec<Nested>),
    Other,
}

/// A field as written: its name if it has one, of each type on the chain
/// of its type whether it is named `Option`, and its attributes.
pub struct Field {
    pub name: Option<String>,
    pub options: Vec<bool>,
    pub attrs: Vec<Attribute>,
}

/// What the derive was put on.
pub enum Input {
    Named(Vec<Field>),
    Unnamed,
    NotStruct,
}

/// A field as the derive sees it: its name, the place on the chain of the
/// type that its setter takes, whether it may be left unset, and the name
/// of the setter that adds one element, or the place of the attribute that
/// is in error.
pub struct FieldRepr {
    pub name: String,
    pub ty: usize,
    pub optional: bool,
    pub repeated: Result<Option<String>, usize>,
}

/// What an entry, a list or a run of attributes says about `each`.
pub enum Verdict {
    /// `each` is given this name.
    Each(String),
    /// Something else than `each` is named.
    Wrong,
    /// Nothing is said.
    Silent,
}

pub open spec fn entry_verdict(entry: Nested) -> Verdict {
    match entry {
        Nested::NameValue { each: true, value: Literal::Text(name) } => Verdict::Each(name),
        Nested::NameValue { each: true, value: Literal::Other } => Verdict::Silent,
        Nested::NameValue { each: false, value: _ } => Verdict::Wrong,
        Nested::Other => Verdict::Silent,
    }
}

/// The verdict of the first of the first `k` entries that says anything.
pub open spec fn list_verdict(list: Seq<Nested>, k: int) -> Verdict
    decreases k,
{
    if k <= 0 {
        Verdict::Silent
    } else if list_verdict(list, k - 1) is Silent {
        entry_verdict(list[k - 1])
    } else {
        list_verdict(list, k - 1)
    }
}

pub open spec fn attribute_verdict(attr: Attribute) -> Verdict {
    match attr {
        Attribute::Builder(list) => list_verdict(list@, list@.len() as int),
        Attribute::Other => Verdict::Silent,
    }
}

/// The place of the first of the first `k` attributes that says anything,
/// or `k` if none does.
pub open spec fn first_speaking(attrs: Seq<Attribute>, k: int) -> int
    decreases k,
{
    if k <= 0 {
        0
    } else if first_speaking(attrs, k - 1) < k - 1 {
        first_speaking(attrs, k - 1)
    } else if attribute_verdict(attrs[k - 1]) is Silent {
        k
    } else {
        k - 1
    }
}

/// What the attributes of a field say: the name that the first speaking
/// attribute gives to `each`, the place of that attribute if it names
/// something else, or nothing.
pub open spec fn repeated_of(attrs: Seq<Attribute>) -> Result<Option<String>, usize> {
    let at = first_speaking(attrs, attrs.len() as int);
    if at >= attrs.len() {
        Ok(None)
    } else {
        match attribute_verdict(attrs[at]) {
            Verdict::Each(name) => Ok(Some(name)),
            _ => Err(at as usize),
        }
    }
}

pub proof fn lemma_first_speaking(attrs: Seq<Attribute>, k: int)
    requires
        0 <= k <= attrs.len(),
    ensures
        0 <= first_speaking(attrs, k) <= k,
        forall|j: int|
            0 <= j < first_speaking(attrs, k) ==> attribute_verdict(#[trigger] attrs[j]) is Silent,
        first_speaking(attrs, k) < k ==> !(attribute_verdict(attrs[first_speaking(attrs, k)])
            is Silent),
    decreases k,
{
    if k > 0 {
        lemma_first_speaking(attrs, k - 1);
    }
}

/// What one list of entries says.
fn read_list(list: &Vec<Nested>) -> (said: Verdict)
    ensures
        said == list_verdict(list@, list@.len() as int),
{
    let mut k: usize = 0;
    while k < list.len()
        invariant
            0 <= k <= list@.len(),
            list_verdict(list@, k as int) is Silent,
        decreases list@.len() - k,
    {
        match &list[k] {
            Nested::NameValue { each, value } => {
                if *each {
                    match value {
                        Literal::Text(name) => {
                            let said = Verdict::Each(name.clone());
                            proof {
                                lemma_verdict_stays(list@, k as int + 1, list@.len() as int);
                            }
                            return said;
                        },
                        Literal::Other => {},
                    }
                } else {
                    proof {
                        lemma_verdict_stays(list@, k as int + 1, list@.len() as int);
                    }
                    return Verdict::Wrong;
                }
            },
            Nested::Other => {},
        }
        k = k + 1;
    }
    Verdict::Silent
}

/// Once a verdict is spoken, later entries do not change it.
proof fn lemma_verdict_stays(list: Seq<Nested>, k: int, l: int)
    requires
        0 <= k <= l,
        !(list_verdict(list, k) is Silent),
    ensures
        list_verdict(list, l) == list_verdict(list, k),
    decreases l,
{
    if k < l {
        lemma_verdict_stays(list, k, l - 1);
    }
}

/// Once an attribute has spoken, later ones are not asked.
proof fn lemma_speaking_stays(attrs: Seq<Attribute>, k: int, l: int)
    requires
        0 <= k <= l,
        first_speaking(attrs, k) < k,
    ensures
        first_speaking(attrs, l) == first_speaking(attrs, k),
    decreases l,
{
    if k < l {
        lemma_speaking_stays(attrs, k, l - 1);
    }
}

/// Reads the name of the setter that adds one element from a field's
/// attributes. The attributes are read in order and each list entry by
/// entry: `each = "name"` gives the name, any other name with a value is
/// an error at that attribute, and whatever else stands there says nothing.
pub fn parse_repeated(attrs: &Vec<Attribute>) -> (repeated: Result<Option<String>, usize>)
    ensures
        repeated == repeated_of(attrs@),
        repeated matches Err(at) ==> at < attrs@.len(),
{
    let mut k: usize = 0;
    while k < attrs.len()
        invariant
            0 <= k <= attrs@.len(),
            first_speaking(attrs@, k as int) == k,
        decreases attrs@.len() - k,
    {
        match &attrs[k] {
            Attribute::Builder(list) => {
                match read_list(list) {
                    Verdict::Each(name) => {
                        proof {
                            lemma_speaking_stays(attrs@, k as int + 1, attrs@.len() as int);
                        }
                        return Ok(Some(name));
                    },
                    Verdict::Wrong => {
                        proof {
                            lemma_speaking_stays(attrs@, k as int + 1, attrs@.len() as int);
                        }
                        return Err(k);
                    },
                    Verdict::Silent => {},
                }
            },
            Attribute::Other => {},
        }
        k = k + 1;
    }
    Ok(None)
}

/// Whether the type at place `ty` of the chain is named `Option`.
pub fn optional(options: &Vec<bool>, ty: usize) -> (is: bool)
    ensures
        is == (ty < options@.len() && options@[ty as int]),
{
    ty < options.len() && options[ty]
}

/// The place of the first type argument of the type at place `ty`, if it
/// has one.
pub fn extract_optional(options: &Vec<bool>, ty: usize) -> (inner: Option<usize>)
    ensures
        inner == if ty + 1 < options@.len() {
            Some((ty + 1) as usize)
        } else {
            None
        },
{
    if ty < options.len() && ty + 1 < options.len() {
        Some(ty + 1)
    } else {
        None
    }
}

/// Whether a field can be taken in: it has a name, and a type named
/// `Option` has an argument.
pub open spec fn field_supported(field: Field) -> bool {
    &&& field.name is Some
    &&& field.options@.len() >= 1
    &&& field.options@[0] ==> field.options@.len() >= 2
}

/// Whether the derive supports its input: a struct with named fields, each
/// of which can be taken in.
pub open spec fn input_supported(input: Input) -> bool {
    input matches Input::Named(fields) && forall|k: int|
        0 <= k < fields@.len() ==> field_supported(#[trigger] fields@[k])
}

/// A field as the derive sees it. An optional field's setter takes the
/// argument of `Option`, any other the field's own type.
pub open spec fn repr_of(field: Field) -> FieldRepr {
    FieldRepr {
        name: field.name->0,
        ty: if field.options@[0] {
            1
        } else {
            0
        },
        optional: field.options@[0],
        repeated: repeated_of(field.attrs@),
    }
}

/// Whether the derive supports its input.
pub fn supported(input: &Input) -> (ok: bool)
    ensures
        ok == input_supported(*input),
{
    match input {
        Input::Named(fields) => {
            let mut k: usize = 0;
            while k < fields.len()
                invariant
                    *input == Input::Named(*fields),
                    0 <= k <= fields@.len(),
                    forall|j: int| 0 <= j < k ==> field_supported(#[trigger] fields@[j]),
                decreases fields@.len() - k,
            {
                let field = &fields[k];
                let named = field.name.is_some();
                let shaped = field.options.len() >= 1 && (!field.options[0] || field.options.len()
                    >= 2);
                if !(named && shaped) {
                    assert(!field_supported(fields@[k as int]));
                    assert(input->Named_0 == *fields);
                    assert(!input_supported(*input));
                    return false;
                }
                k = k + 1;
            }
            true
        },
        _ => false,
    }
}

/// The fields of a struct as the derive sees them, in their order.
pub fn get_fields(input: &Input) -> (fields: Vec<FieldRepr>)
    requires
        input_supported(*input),
    ensures
        input matches Input::Named(written) && fields@.len() == written@.len() && forall|k: int|
            0 <= k < written@.len() ==> #[trigger] fields@[k] == repr_of(written@[k]),
{
    let mut fields: Vec<FieldRepr> = Vec::new();
    match input {
        Input::Named(written) => {
            let mut k: usize = 0;
            while k < written.len()
                invariant
                    0 <= k <= written@.len(),
                    forall|j: int|
                        0 <= j < written@.len() ==> field_supported(#[trigger] written@[j]),
                    fields@.len() == k,
                    forall|j: int| 0 <= j < k ==> #[trigger] fields@[j] == repr_of(written@[j]),
                decreases written@.len() - k,
            {
                let field = &written[k];
                assert(field_supported(*field));
                let name = match &field.name {
                    Some(name) => name.clone(),
                    None => String::new(),
                };
                let is_optional = optional(&field.options, 0);
                let ty = if is_optional {
                    match extract_optional(&field.options, 0) {
                        Some(inner) => inner,
                        None => 0,
                    }
                } else {
                    0
                };
                fields.push(
                    FieldRepr {
                        name,
                        ty,
                        optional: is_optional,
                        repeated: parse_repeated(&field.attrs),
                    },
                );
                k = k + 1;
            }
        },
        _ => {},
    }
    fields
}

/// A field whose attributes are in error, and the place of the attribute.
pub struct Misuse {
    pub field: usize,
    pub attribute: usize,
}

/// The errors of the first `k` fields, in their order.
pub open spec fn errors_of(fields: Seq<FieldRepr>, k: int) -> Seq<Misuse>
    decreases k,
{
    if k <= 0 {
        Seq::empty()
    } else {
        match fields[k - 1].repeated {
            Err(at) => errors_of(fields, k - 1).push(
                Misuse { field: (k - 1) as usize, attribute: at },
            ),
            Ok(_) => errors_of(fields, k - 1),
        }
    }
}

pub proof fn lemma_errors_empty(fields: Seq<FieldRepr>, k: int)
    requires
        0 <= k <= fields.len(),
    ensures
        errors_of(fields, k).len() == 0 <==> forall|j: int|
            0 <= j < k ==> (#[trigger] fields[j]).repeated is Ok,
    decreases k,
{
    if k > 0 {
        lemma_errors_empty(fields, k - 1);
    }
}

/// The errors that the fields' attributes hold, or nothing where none is
/// in error.
pub fn parse_errors(fields: &Vec<FieldRepr>) -> (errors: Option<Vec<Misuse>>)
    ensures
        errors is None <==> forall|j: int|
            0 <= j < fields@.len() ==> (#[trigger] fields@[j]).repeated is Ok,
        errors matches Some(list) ==> list@ == errors_of(fields@, fields@.len() as int),
{
    let mut list: Vec<Misuse> = Vec::new();
    let mut k: usize = 0;
    while k < fields.len()
        invariant
            0 <= k <= fields@.len(),
            list@ == errors_of(fields@, k as int),
        decreases fields@.len() - k,
    {
        match &fields[k].repeated {
            Err(at) => {
                list.push(Misuse { field: k, attribute: *at });
            },
            Ok(_) => {},
        }
        k = k + 1;
    }
    proof {
        lemma_errors_empty(fields@, fields@.len() as int);
    }
    if list.len() == 0 {
        None
    } else {
        Some(list)
    }
}

/// How the builder treats a field.
pub enum Plan {
    /// Set once; building fails while it is unset.
    Required,
    /// Set once or left unset.
    Optional,
    /// Filled one element at a time by the setter `each`, whose argument
    /// has the type at place `element` of the chain.
    Repeated { each: String, element: usize },
}

pub open spec fn plan_of(field: FieldRepr) -> Plan {
    match field.repeated {
        Ok(Some(each)) => Plan::Repeated { each, element: (field.ty + 1) as usize },
        _ => if field.optional {
            Plan::Optional
        } else {
            Plan::Required
        },
    }
}

/// How the builder treats a field whose attributes are in order. For a
/// repeated field the type must have an argument: the element.
pub fn plan(field: &FieldRepr, options: &Vec<bool>) -> (how: Plan)
    requires
        field.repeated is Ok,
        field.repeated matches Ok(Some(_)) ==> field.ty + 1 < options@.len(),
    ensures
        how == plan_of(*field),
{
    match &field.repeated {
        Ok(Some(each)) => {
            let element = match extract_optional(options, field.ty) {
                Some(inner) => inner,
                None => field.ty,
            };
            Plan::Repeated { each: each.clone(), element }
        },
        _ => {
            if field.optional {
                Plan::Optional
            } else {
                Plan::Required
            }
        },
    }
}

} // verus!
