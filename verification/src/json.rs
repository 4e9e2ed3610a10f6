//! JSON documents, as far as the object formats need them, and the two calls
//! into `serde_json` that print and read them.

use vstd::prelude::*;

verus! {

/// A JSON document. Scalars other than strings are not told apart: no object
/// format of this library holds one.
#[derive(Debug)]
pub enum Json {
    /// `null`, a boolean or a number.
    Other,
    Text(String),
    Array(Vec<Json>),
    /// The members of an object, in order.
    Object(Vec<Member>),
}

/// One member of an object.
#[derive(Debug)]
pub struct Member {
    pub name: String,
    pub value: Json,
}

/// What a `Json` stands for in specifications.
pub enum JsonValue {
    Other,
    Text(Seq<char>),
    Array(Seq<JsonValue>),
    Object(Seq<MemberValue>),
}

/// What a `Member` stands for in specifications.
pub struct MemberValue {
    pub name: Seq<char>,
    pub value: JsonValue,
}

impl View for Json {
    type V = JsonValue;

    open spec fn view(&self) -> JsonValue
        decreases self,
    {
        match self {
            Json::Other => JsonValue::Other,
            Json::Text(text) => JsonValue::Text(text@),
            Json::Array(items) => JsonValue::Array(
                Seq::new(
                    items@.len(),
                    |i: int|
                        if 0 <= i < items@.len() {
                            items@[i]@
                        } else {
                            JsonValue::Other
                        },
                ),
            ),
            Json::Object(members) => JsonValue::Object(
                Seq::new(
                    members@.len(),
                    |i: int|
                        if 0 <= i < members@.len() {
                            MemberValue { name: members@[i].name@, value: members@[i].value@ }
                        } else {
                            MemberValue { name: Seq::empty(), value: JsonValue::Other }
                        },
                ),
            ),
        }
    }
}

/// `serde_json::Value`, the crate's own tree of a document.
#[verifier::external_type_specification]
#[verifier::external_body]
pub struct ExValue(serde_json::Value);

/// What `serde_json::to_string_pretty` prints for a document.
pub uninterp spec fn json_text(doc: JsonValue) -> Seq<char>;

/// What `serde_json::from_str` reads from a text: a document, or nothing
/// where the text is not JSON.
pub uninterp spec fn json_parse(text: Seq<char>) -> Option<JsonValue>;

/// Rewrites a document as a `serde_json::Value`, variant by variant. A scalar
/// that is not a string becomes `null`.
#[verifier::external_body]
fn to_outside(doc: &Json) -> serde_json::Value {
    match doc {
        Json::Other => serde_json::Value::Null,
        Json::Text(text) => serde_json::Value::String(text.clone()),
        Json::Array(items) => serde_json::Value::Array(items.iter().map(to_outside).collect()),
        Json::Object(members) => serde_json::Value::Object(
            members.iter().map(|m| (m.name.clone(), to_outside(&m.value))).collect(),
        ),
    }
}

/// Rewrites a `serde_json::Value` as a document, variant by variant.
#[verifier::external_body]
fn from_outside(value: serde_json::Value) -> Json {
    match value {
        serde_json::Value::Null => Json::Other,
        serde_json::Value::Bool(_) => Json::Other,
        serde_json::Value::Number(_) => Json::Other,
        serde_json::Value::String(text) => Json::Text(text),
        serde_json::Value::Array(items) => Json::Array(
            items.into_iter().map(from_outside).collect(),
        ),
        serde_json::Value::Object(members) => Json::Object(
            members.into_iter().map(|m| Member { name: m.0, value: from_outside(m.1) }).collect(),
        ),
    }
}

/// `serde_json::to_string_pretty` on the document. Trusted: a text comes
/// back, and it depends on the document alone. The call prints into a
/// vector of bytes, and printing a `serde_json::Value` fails only where the
/// writer does, which a vector never does.
#[verifier::external_body]
fn print_pretty(doc: &Json) -> (text: Option<String>)
    ensures
        text is Some,
        text.unwrap()@ == json_text(doc@),
{
    serde_json::to_string_pretty(&to_outside(doc)).ok()
}

/// `serde_json::from_str`, reading a whole document. Trusted: what is read
/// depends on the text alone.
#[verifier::external_body]
fn read_document(text: &str) -> (doc: Option<Json>)
    ensures
        match doc {
            Some(d) => json_parse(text@) == Some(d@),
            None => json_parse(text@).is_none(),
        },
{
    serde_json::from_str::<serde_json::Value>(text).ok().map(from_outside)
}

/// The text that is printed for the document reads back as the document.
/// It does not where the members of an object are not in the order in which
/// they are read, or come twice, or where a scalar is not a string.
pub open spec fn reads_back(doc: JsonValue) -> bool {
    json_parse(json_text(doc)) == Some(doc)
}

/// Whether two documents are the same.
pub fn same_json(a: &Json, b: &Json) -> (same: bool)
    ensures
        same == (a@ == b@),
    decreases a,
{
    match (a, b) {
        (Json::Other, Json::Other) => true,
        (Json::Text(x), Json::Text(y)) => *x == *y,
        (Json::Array(xs), Json::Array(ys)) => {
            if xs.len() != ys.len() {
                assert(a@->Array_0.len() != b@->Array_0.len());
                return false;
            }
            let mut i: usize = 0;
            while i < xs.len()
                invariant
                    0 <= i <= xs.len(),
                    xs.len() == ys.len(),
                    a == Json::Array(*xs),
                    b == Json::Array(*ys),
                    forall|k: int| 0 <= k < i ==> xs@[k]@ == ys@[k]@,
                decreases xs.len() - i,
            {
                if !same_json(&xs[i], &ys[i]) {
                    assert(a@->Array_0[i as int] != b@->Array_0[i as int]);
                    return false;
                }
                i += 1;
            }
            assert(a@->Array_0 =~= b@->Array_0);
            true
        },
        (Json::Object(xs), Json::Object(ys)) => {
            if xs.len() != ys.len() {
                assert(a@->Object_0.len() != b@->Object_0.len());
                return false;
            }
            let mut i: usize = 0;
            while i < xs.len()
                invariant
                    0 <= i <= xs.len(),
                    xs.len() == ys.len(),
                    a == Json::Object(*xs),
                    b == Json::Object(*ys),
                    forall|k: int|
                        0 <= k < i ==> xs@[k].name@ == ys@[k].name@ && xs@[k].value@ == ys@[k].value@,
                decreases xs.len() - i,
            {
                if xs[i].name != ys[i].name || !same_json(&xs[i].value, &ys[i].value) {
                    assert(a@->Object_0[i as int] != b@->Object_0[i as int]);
                    return false;
                }
                i += 1;
            }
            assert(a@->Object_0 =~= b@->Object_0);
            true
        },
        _ => false,
    }
}

impl Json {
    /// Prints the document, and gives the text exactly where it reads back
    /// as the document.
    pub fn render(&self) -> (text: Option<String>)
        ensures
            text is Some <==> reads_back(self@),
            text matches Some(t) ==> t@ == json_text(self@) && json_parse(t@) == Some(self@),
    {
        match print_pretty(self) {
            Some(text) => {
                let back = read_document(text.as_str());
                self.confirm(text, back)
            },
            None => None,
        }
    }

    /// Decides whether a text that was printed for the document is kept,
    /// given what the text reads back as: it is kept where it reads back as
    /// the document itself, and dropped where it reads back as another
    /// document or as none.
    pub fn confirm(&self, text: String, back: Option<Json>) -> (kept: Option<String>)
        ensures
            match kept {
                Some(t) => t == text && back is Some && back.unwrap()@ == self@,
                None => !(back is Some && back.unwrap()@ == self@),
            },
    {
        match back {
            Some(doc) => if same_json(&doc, self) {
                Some(text)
            } else {
                None
            },
            None => None,
        }
    }

    /// Reads a document from a text.
    pub fn parse(text: &String) -> (doc: Option<Json>)
        ensures
            match doc {
                Some(d) => json_parse(text@) == Some(d@),
                None => json_parse(text@).is_none(),
            },
    {
        read_document(text.as_str())
    }
}

} // verus!
