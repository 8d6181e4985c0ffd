//! JSON values as the synchronization logic sees them, and the texts that they are stored as.

use vstd::prelude::*;

use crate::text::characters;

verus! {

/// The error that `serde_json` reports for a text that it cannot read.
#[verifier::external_type_specification]
#[verifier::external_body]
pub struct ExJsonError(serde_json::Error);

/// The compact text of a JSON number, array or object.
#[derive(Debug)]
pub struct Json {
    text: String,
}

/// A JSON value.
///
/// The logic compares values and looks at strings; numbers, arrays and objects are held as
/// their compact text.
#[derive(Debug)]
pub enum Value {
    /// `null`.
    Null,
    /// `true` or `false`.
    Bool(bool),
    /// A string.
    Text(String),
    /// A number, an array or an object.
    Other(Json),
}

/// What a [`Value`] is.
pub enum ValueView {
    Null,
    Bool(bool),
    Text(Seq<char>),
    Other(Seq<char>),
}

impl View for Json {
    type V = Seq<char>;

    closed spec fn view(&self) -> Seq<char> {
        self.text@
    }
}

impl DeepView for Value {
    type V = ValueView;

    open spec fn deep_view(&self) -> ValueView {
        match self {
            Value::Null => ValueView::Null,
            Value::Bool(b) => ValueView::Bool(*b),
            Value::Text(s) => ValueView::Text(s@),
            Value::Other(json) => ValueView::Other(json@),
        }
    }
}

/// The value that `serde_json` reads from a text.
pub uninterp spec fn json_value(text: Seq<char>) -> Option<ValueView>;

/// The datetime, key and value that `serde_json` reads from the array `[datetime, key, value]`.
pub uninterp spec fn entry_of_text(text: Seq<char>) -> Option<(Seq<char>, ValueView, ValueView)>;

/// The compact text of the array `[datetime, key, value]`.
pub uninterp spec fn entry_text(datetime: Seq<char>, key: ValueView, value: ValueView) -> Seq<char>;

/// The path, datetime, key and value that `serde_json` reads from the array
/// `[path, datetime, key, value]`.
pub uninterp spec fn path_entry_of_text(text: Seq<char>) -> Option<
    (Seq<Seq<char>>, Seq<char>, ValueView, ValueView),
>;

/// The compact text of the array `[path, datetime, key, value]`.
pub uninterp spec fn path_entry_text(
    path: Seq<Seq<char>>,
    datetime: Seq<char>,
    key: ValueView,
    value: ValueView,
) -> Seq<char>;

/// The text stays on one line.
pub open spec fn one_line(text: Seq<char>) -> bool {
    forall|i: int| 0 <= i < text.len() ==> #[trigger] text[i] != '\n' && text[i] != '\r'
}

/// The text is the one that `serde_json` writes for some number, array or object.
pub uninterp spec fn is_compact(text: Seq<char>) -> bool;

/// A number that two texts of numbers, arrays and objects share exactly if `serde_json` takes
/// their values for equal.
pub uninterp spec fn json_class(text: Seq<char>) -> int;

/// The compact text of an array.
pub uninterp spec fn array_text(items: Seq<ValueView>) -> Seq<char>;

/// The compact text of the object that fields are collected into.
pub uninterp spec fn object_text(fields: Seq<(Seq<char>, ValueView)>) -> Seq<char>;

/// How far a JSON text has been gone through.
pub struct Scan {
    /// The number of arrays and objects that are open.
    pub depth: int,
    /// The largest number that were open at once.
    pub deepest: int,
    /// Whether a string is open.
    pub quoted: bool,
    /// Whether a backslash stands before the next character of the string.
    pub escaped: bool,
}

/// One more character of a JSON text.
pub open spec fn step(scan: Scan, c: char) -> Scan {
    if scan.quoted {
        Scan {
            quoted: scan.escaped || c != '"',
            escaped: !scan.escaped && c == '\\',
            ..scan
        }
    } else if c == '"' {
        Scan { quoted: true, ..scan }
    } else if c == '[' || c == '{' {
        Scan {
            depth: scan.depth + 1,
            deepest: if scan.depth + 1 > scan.deepest {
                scan.depth + 1
            } else {
                scan.deepest
            },
            ..scan
        }
    } else if c == ']' || c == '}' {
        Scan { depth: scan.depth - 1, ..scan }
    } else {
        scan
    }
}

/// A JSON text, gone through from its start.
pub open spec fn scanned(text: Seq<char>) -> Scan
    decreases text.len(),
{
    if text.len() == 0 {
        Scan { depth: 0, deepest: 0, quoted: false, escaped: false }
    } else {
        step(scanned(text.drop_last()), text.last())
    }
}

/// How deeply the arrays and objects of a JSON text nest.
pub open spec fn nesting(text: Seq<char>) -> int {
    scanned(text).deepest
}

impl ValueView {
    /// The value can still be read back as an element of an array.
    ///
    /// `serde_json` refuses texts that nest more than 127 levels deep, and an array is one level
    /// deeper than its elements.
    pub open spec fn readable(self) -> bool {
        match self {
            ValueView::Other(text) => nesting(text) <= 126,
            _ => true,
        }
    }

    /// Equality of JSON values, as `serde_json` has it.
    pub open spec fn same(self, other: ValueView) -> bool {
        match (self, other) {
            (ValueView::Other(s), ValueView::Other(t)) => json_class(s) == json_class(t),
            _ => self == other,
        }
    }
}

impl Json {
    /// The text is one that `serde_json` wrote.
    #[verifier::type_invariant]
    spec fn canonical(&self) -> bool {
        is_compact(self.text@)
    }

    /// The compact text.
    pub fn as_str(&self) -> (r: &str)
        ensures
            r@ == self@,
            is_compact(r@),
    {
        proof {
            use_type_invariant(self);
        }
        self.text.as_str()
    }

    /// The compact text.
    pub(crate) fn into_text(self) -> (r: String)
        ensures
            r@ == self@,
    {
        self.text
    }

    fn copy(&self) -> (r: Json)
        ensures
            r@ == self@,
    {
        proof {
            use_type_invariant(self);
        }
        Json { text: self.text.clone() }
    }
}

/// `serde_json::from_str::<serde_json::Value>`: the value of a JSON text, or the error.
///
/// Which value a text has is named, not stated. Numbers, arrays and objects are taken over as
/// the compact text that `serde_json::Value::to_string` gives of them. Such a text can be read if
/// it nests at most 127 levels deep, and from it the same text comes again.
#[verifier::external_body]
fn parse_value(text: &str) -> (r: Result<Value, serde_json::Error>)
    ensures
        r is Ok <==> json_value(text@) is Some,
        r matches Ok(value) ==> json_value(text@) == Some(value.deep_view()),
        is_compact(text@) ==> (r is Ok <==> nesting(text@) <= 127),
        r matches Ok(value) ==> is_compact(text@) ==> value.deep_view() == ValueView::Other(text@),
{
    Ok(match serde_json::from_str::<serde_json::Value>(text)? {
        serde_json::Value::Null => Value::Null,
        serde_json::Value::Bool(b) => Value::Bool(b),
        serde_json::Value::String(s) => Value::Text(s),
        other => Value::Other(Json { text: other.to_string() }),
    })
}

/// `serde_json::from_str` into a datetime, a key and a value, or the error.
///
/// What a text holds is named, not stated. The key and the value come as the values of JSON
/// texts do. As they were read as elements of an array, they can be written and read as such
/// again.
#[verifier::external_body]
pub(crate) fn parse_entry(text: &str) -> (r: Result<(String, Value, Value), serde_json::Error>)
    ensures
        r is Ok <==> entry_of_text(text@) is Some,
        r matches Ok(entry) ==> entry_of_text(text@) == Some(
            (entry.0@, entry.1.deep_view(), entry.2.deep_view()),
        ),
        r matches Ok(entry) ==> entry.1.deep_view().readable() && entry.2.deep_view().readable(),
{
    let held = |value: serde_json::Value| match value {
        serde_json::Value::Null => Value::Null,
        serde_json::Value::Bool(b) => Value::Bool(b),
        serde_json::Value::String(s) => Value::Text(s),
        other => Value::Other(Json { text: other.to_string() }),
    };
    let (datetime, key, value): (String, _, _) = serde_json::from_str(text)?;
    Ok((datetime, held(key), held(value)))
}

/// `serde_json::from_str` into a path, a datetime, a key and a value, or the error.
///
/// What a text holds is named, not stated. The key and the value come as the values of JSON
/// texts do. As they were read as elements of an array, they can be written and read as such
/// again.
#[verifier::external_body]
pub(crate) fn parse_path_entry(text: &str) -> (r: Result<
    (Vec<String>, String, Value, Value),
    serde_json::Error,
>)
    ensures
        r is Ok <==> path_entry_of_text(text@) is Some,
        r matches Ok(entry) ==> path_entry_of_text(text@) == Some(
            (entry.0.deep_view(), entry.1@, entry.2.deep_view(), entry.3.deep_view()),
        ),
        r matches Ok(entry) ==> entry.2.deep_view().readable() && entry.3.deep_view().readable(),
{
    let held = |value: serde_json::Value| match value {
        serde_json::Value::Null => Value::Null,
        serde_json::Value::Bool(b) => Value::Bool(b),
        serde_json::Value::String(s) => Value::Text(s),
        other => Value::Other(Json { text: other.to_string() }),
    };
    let (path, datetime, key, value): (Vec<String>, String, _, _) = serde_json::from_str(text)?;
    Ok((path, datetime, held(key), held(value)))
}

/// `serde_json::to_string` of a datetime, a key and a value: the compact array of the three.
///
/// Numbers, arrays and objects are handed over as the `serde_json::Value` of their text, read by
/// `serde_json::Deserializer` without its limit on nesting. The result is named. It has no line
/// breaks, and where the key and the value can be read as elements of an array, reading it gives
/// back what was written.
#[verifier::external_body]
pub(crate) fn write_entry(datetime: &String, key: &Value, value: &Value) -> (r: Json)
    ensures
        r@ == entry_text(datetime@, key.deep_view(), value.deep_view()),
        one_line(r@),
        key.deep_view().readable() && value.deep_view().readable() ==> entry_of_text(r@) == Some(
            (datetime@, key.deep_view(), value.deep_view()),
        ),
{
    let whole = |value: &Value| match value {
        Value::Null => serde_json::Value::Null,
        Value::Bool(b) => serde_json::Value::Bool(*b),
        Value::Text(s) => serde_json::Value::String(s.clone()),
        Value::Other(json) => {
            let mut text = serde_json::Deserializer::from_str(&json.text);
            text.disable_recursion_limit();
            text.into_iter().next().unwrap().unwrap()
        },
    };
    Json { text: serde_json::to_string(&(datetime, whole(key), whole(value))).unwrap() }
}

/// `serde_json::to_string` of a path, a datetime, a key and a value: the compact array of the
/// four.
///
/// Numbers, arrays and objects are handed over as the `serde_json::Value` of their text, read by
/// `serde_json::Deserializer` without its limit on nesting. The result is named. It has no line
/// breaks, and where the key and the value can be read as elements of an array, reading it gives
/// back what was written.
#[verifier::external_body]
pub(crate) fn write_path_entry(
    path: &Vec<String>,
    datetime: &String,
    key: &Value,
    value: &Value,
) -> (r: Json)
    ensures
        r@ == path_entry_text(path.deep_view(), datetime@, key.deep_view(), value.deep_view()),
        one_line(r@),
        key.deep_view().readable() && value.deep_view().readable() ==> path_entry_of_text(r@) == Some(
            (path.deep_view(), datetime@, key.deep_view(), value.deep_view()),
        ),
{
    let whole = |value: &Value| match value {
        Value::Null => serde_json::Value::Null,
        Value::Bool(b) => serde_json::Value::Bool(*b),
        Value::Text(s) => serde_json::Value::String(s.clone()),
        Value::Other(json) => {
            let mut text = serde_json::Deserializer::from_str(&json.text);
            text.disable_recursion_limit();
            text.into_iter().next().unwrap().unwrap()
        },
    };
    Json { text: serde_json::to_string(&(path, datetime, whole(key), whole(value))).unwrap() }
}

/// `==` of `serde_json::Value`: whether the values of two texts are equal.
///
/// The values are read by `serde_json::Deserializer` without its limit on nesting. That `==` is an
/// equivalence is what the contract says, and which texts it puts together is named, not stated.
#[verifier::external_body]
fn same_json(a: &Json, b: &Json) -> (r: bool)
    ensures
        r == (json_class(a@) == json_class(b@)),
{
    let whole = |json: &Json| -> serde_json::Value {
        let mut text = serde_json::Deserializer::from_str(&json.text);
        text.disable_recursion_limit();
        text.into_iter().next().unwrap().unwrap()
    };
    whole(a) == whole(b)
}

/// `serde_json::Value::to_string` of an array. The text is named, not stated.
#[verifier::external_body]
fn write_array(items: &Vec<Value>) -> (r: Json)
    ensures
        r@ == array_text(items.deep_view()),
{
    let whole = |value: &Value| match value {
        Value::Null => serde_json::Value::Null,
        Value::Bool(b) => serde_json::Value::Bool(*b),
        Value::Text(s) => serde_json::Value::String(s.clone()),
        Value::Other(json) => {
            let mut text = serde_json::Deserializer::from_str(&json.text);
            text.disable_recursion_limit();
            text.into_iter().next().unwrap().unwrap()
        },
    };
    Json { text: serde_json::Value::Array(items.iter().map(whole).collect()).to_string() }
}

/// `serde_json::Value::to_string` of the object that `serde_json::Map` collects the fields into.
/// The text is named, not stated.
#[verifier::external_body]
fn write_object(fields: &Vec<(String, Value)>) -> (r: Json)
    ensures
        r@ == object_text(fields.deep_view()),
{
    let whole = |field: &(String, Value)| (field.0.clone(), match &field.1 {
        Value::Null => serde_json::Value::Null,
        Value::Bool(b) => serde_json::Value::Bool(*b),
        Value::Text(s) => serde_json::Value::String(s.clone()),
        Value::Other(json) => {
            let mut text = serde_json::Deserializer::from_str(&json.text);
            text.disable_recursion_limit();
            text.into_iter().next().unwrap().unwrap()
        },
    });
    Json { text: serde_json::Value::Object(fields.iter().map(whole).collect()).to_string() }
}

/// How deeply the arrays and objects of a JSON text nest.
fn nesting_of(text: &str) -> (r: i128)
    ensures
        r == nesting(text@),
{
    let chars = characters(text);
    let mut depth: i128 = 0;
    let mut deepest: i128 = 0;
    let mut quoted: bool = false;
    let mut escaped: bool = false;
    let mut i: usize = 0;
    while i < chars.len()
        invariant
            i <= chars@.len(),
            chars@ == text@,
            -(i as int) <= depth <= i,
            0 <= deepest <= i,
            scanned(text@.take(i as int)) == (Scan {
                depth: depth as int,
                deepest: deepest as int,
                quoted,
                escaped,
            }),
        decreases chars@.len() - i,
    {
        assert(text@.take(i + 1).drop_last() == text@.take(i as int));
        assert(text@.take(i + 1).last() == chars@[i as int]);
        let c = chars[i];
        if quoted {
            quoted = escaped || c != '"';
            escaped = !escaped && c == '\\';
        } else if c == '"' {
            quoted = true;
        } else if c == '[' || c == '{' {
            depth = depth + 1;
            if depth > deepest {
                deepest = depth;
            }
        } else if c == ']' || c == '}' {
            depth = depth - 1;
        }
        i = i + 1;
    }
    assert(text@.take(text@.len() as int) == text@);
    deepest
}

impl Value {
    /// Reads a value from JSON text. The compact text of a value gives the value back, unless it
    /// nests more than 127 levels deep.
    pub fn parse(text: &str) -> (r: Result<Value, serde_json::Error>)
        ensures
            r is Ok <==> json_value(text@) is Some,
            r matches Ok(value) ==> json_value(text@) == Some(value.deep_view()),
            is_compact(text@) ==> (r is Ok <==> nesting(text@) <= 127),
            r matches Ok(value) ==> is_compact(text@) ==> value.deep_view() == ValueView::Other(
                text@,
            ),
    {
        parse_value(text)
    }

    /// The array of the given items.
    pub fn array(items: Vec<Value>) -> (r: Value)
        ensures
            r.deep_view() == ValueView::Other(array_text(items.deep_view())),
    {
        Value::Other(write_array(&items))
    }

    /// The object with the given fields.
    pub fn object(fields: Vec<(String, Value)>) -> (r: Value)
        ensures
            r.deep_view() == ValueView::Other(object_text(fields.deep_view())),
    {
        Value::Other(write_object(&fields))
    }

    /// Whether the value can still be read back as an element of an array.
    pub fn is_readable(&self) -> (r: bool)
        ensures
            r == self.deep_view().readable(),
    {
        match self {
            Value::Other(json) => nesting_of(json.as_str()) <= 126,
            _ => true,
        }
    }

    /// The string, if the value is one.
    pub fn as_str(&self) -> (r: Option<&str>)
        ensures
            r is Some <==> self.deep_view() is Text,
            r matches Some(s) ==> self.deep_view() == ValueView::Text(s@),
    {
        match self {
            Value::Text(s) => Some(s.as_str()),
            _ => None,
        }
    }
}

impl PartialEq for Value {
    fn eq(&self, other: &Value) -> (r: bool) {
        match (self, other) {
            (Value::Null, Value::Null) => true,
            (Value::Bool(a), Value::Bool(b)) => *a == *b,
            (Value::Text(a), Value::Text(b)) => *a == *b,
            (Value::Other(a), Value::Other(b)) => same_json(a, b),
            _ => false,
        }
    }
}

impl vstd::std_specs::cmp::PartialEqSpecImpl for Value {
    open spec fn obeys_eq_spec() -> bool {
        true
    }

    open spec fn eq_spec(&self, other: &Value) -> bool {
        self.deep_view().same(other.deep_view())
    }
}

impl Clone for Value {
    fn clone(&self) -> (r: Value)
        ensures
            r.deep_view() == self.deep_view(),
    {
        match self {
            Value::Null => Value::Null,
            Value::Bool(b) => Value::Bool(*b),
            Value::Text(s) => Value::Text(s.clone()),
            Value::Other(json) => Value::Other(json.copy()),
        }
    }
}

/// Values are the same if they are both `null`, the same truth value, the same string, or numbers,
/// arrays or objects that `serde_json` takes for equal, and not otherwise.
pub proof fn same_values(a: ValueView, b: ValueView)
    ensures
        a.same(b) <==> match a {
            ValueView::Null => b is Null,
            ValueView::Bool(x) => b == ValueView::Bool(x),
            ValueView::Text(x) => b == ValueView::Text(x),
            ValueView::Other(x) => b matches ValueView::Other(y) && json_class(x) == json_class(y),
        },
        a.same(a),
        a.same(b) ==> b.same(a),
{
}

} // verus!
