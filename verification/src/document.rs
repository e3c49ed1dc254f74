//! JSON documents as plain values.
use crate::decimal::is_digit;
use crate::double::{is_special, scale, significand, SIGN};
use crate::text::str_eq;
use json::JsonValue;
use vstd::arithmetic::power::pow;
use vstd::arithmetic::power2::pow2;
use vstd::prelude::*;
use vstd::string::*;

verus! {

/// A JSON value. A number is held as the bits of the IEEE 754 double that it is converted to.
pub enum Json {
    Null,
    Text(String),
    Number(u64),
    Boolean(bool),
    Object(Vec<(String, Json)>),
    Array(Vec<Json>),
}

/// A number as it is written: no number at all, or a whole number, scaled by a power of ten.
pub enum NumberParts {
    Nan,
    Decimal { positive: bool, mantissa: u64, exponent: i16 },
}

/// A JSON value as mathematical data, numbers as they are written.
pub enum JsonTree {
    Null,
    Text(Seq<char>),
    Number(NumberParts),
    Boolean(bool),
    Object(Seq<(Seq<char>, JsonTree)>),
    Array(Seq<JsonTree>),
}

#[verifier::external_type_specification]
#[verifier::external_body]
pub struct ExJsonValue(json::JsonValue);

/// What a value of the JSON library holds.
pub uninterp spec fn json_tree(value: JsonValue) -> JsonTree;

/// The value that the JSON library reads from a text, or the text of its complaint.
pub uninterp spec fn json_document(text: Seq<char>) -> Result<JsonTree, Seq<char>>;

/// The bits of the double that the JSON library makes of a number that is scaled by at most 22
/// powers of ten.
pub uninterp spec fn double_bits(positive: bool, mantissa: u64, exponent: i16) -> u64;

/// The size of the double, its sign aside, is exactly this number.
pub open spec fn has_size(bits: u64, number: nat) -> bool {
    &&& !is_special(bits)
    &&& if scale(bits) >= 0 {
        significand(bits) * pow2(scale(bits) as nat) == number
    } else {
        significand(bits) == number * pow2((-scale(bits)) as nat)
    }
}

/// Two to the power of 53: up to here every whole number is a double.
pub const MAX_WHOLE: u64 = 0x20_0000_0000_0000;

/// The whole number that a mantissa, scaled by a power of ten, is, where it is one and neither it
/// nor the mantissa is too large to be a double.
pub open spec fn whole_number(mantissa: u64, exponent: i16) -> Option<nat> {
    if 0 <= exponent <= 22 && mantissa * pow(10, exponent as nat) <= MAX_WHOLE {
        Some((mantissa * pow(10, exponent as nat)) as nat)
    } else if -22 <= exponent < 0 && mantissa <= MAX_WHOLE && mantissa as int % pow(10, (-exponent) as nat) == 0 {
        Some((mantissa as int / pow(10, (-exponent) as nat)) as nat)
    } else {
        None
    }
}

/// What holds of the double that a number with a power of ten up to 22 is converted to: it has the
/// number's sign, and is the number where that is a whole one that is not too large.
pub open spec fn rounds_to(positive: bool, mantissa: u64, exponent: i16, bits: u64) -> bool {
    &&& !is_special(bits)
    &&& positive <==> bits < SIGN
    &&& whole_number(mantissa, exponent) matches Some(number) ==> has_size(bits, number)
}

/// The bits are what a number, as it is written, is converted to. Of a number that is scaled by
/// more than 22 powers of ten nothing is said: its conversion goes through a power function whose
/// precision is left to the machine.
pub open spec fn converts_to(number: NumberParts, bits: u64) -> bool {
    match number {
        NumberParts::Nan => is_special(bits),
        NumberParts::Decimal { positive, mantissa, exponent } => -22 <= exponent <= 22 ==> {
            &&& bits == double_bits(positive, mantissa, exponent)
            &&& rounds_to(positive, mantissa, exponent, bits)
        },
    }
}

/// A document is what a tree describes.
pub open spec fn describes(tree: JsonTree, document: Json) -> bool
    decreases tree,
{
    match (tree, document) {
        (JsonTree::Null, Json::Null) => true,
        (JsonTree::Text(a), Json::Text(b)) => a == b@,
        (JsonTree::Number(a), Json::Number(b)) => converts_to(a, b),
        (JsonTree::Boolean(a), Json::Boolean(b)) => a == b,
        (JsonTree::Array(a), Json::Array(b)) => {
            &&& a.len() == b@.len()
            &&& forall|i: int| 0 <= i < a.len() ==> describes(#[trigger] a[i], b@[i])
        },
        (JsonTree::Object(a), Json::Object(b)) => {
            &&& a.len() == b@.len()
            &&& forall|i: int|
                0 <= i < a.len() ==> (#[trigger] a[i]).0 == b@[i].0@ && describes(a[i].1, b@[i].1)
        },
        _ => false,
    }
}

/// The outermost layer of a JSON value.
enum Layer {
    Null,
    Text(String),
    Number,
    Boolean(bool),
    Object,
    Array,
}

/// The variants of `json::JsonValue`, told apart: a string of either representation is its text.
#[verifier::external_body]
fn json_layer(value: &JsonValue) -> (layer: Layer)
    ensures
        match layer {
            Layer::Null => json_tree(*value) == JsonTree::Null,
            Layer::Text(s) => json_tree(*value) == JsonTree::Text(s@),
            Layer::Number => json_tree(*value) is Number,
            Layer::Boolean(b) => json_tree(*value) == JsonTree::Boolean(b),
            Layer::Object => json_tree(*value) is Object,
            Layer::Array => json_tree(*value) is Array,
        },
{
    match value {
        JsonValue::Null => Layer::Null,
        JsonValue::Short(s) => Layer::Text(s.as_str().to_owned()),
        JsonValue::String(s) => Layer::Text(s.clone()),
        JsonValue::Number(_) => Layer::Number,
        JsonValue::Boolean(b) => Layer::Boolean(*b),
        JsonValue::Object(_) => Layer::Object,
        JsonValue::Array(_) => Layer::Array,
    }
}

/// `json::JsonValue::as_f64`, for a number, as the bits of the result. Where the number's power of
/// ten stands in the library's table, which goes up to 22, they are a function of the number's
/// parts: the mantissa as a double, multiplied or divided by the power, with the number's sign. The
/// doubles of whole numbers up to two to the power of 53 and of those powers are exact, and so are
/// products and quotients of them that are such numbers. For no number the bits are those of no
/// number. For the other powers of ten the library calls a power function whose precision is left to
/// the machine: of those results nothing is claimed.
#[verifier::external_body]
fn json_number(value: &JsonValue) -> (bits: u64)
    requires
        json_tree(*value) is Number,
    ensures
        match json_tree(*value)->Number_0 {
            NumberParts::Nan => is_special(bits),
            NumberParts::Decimal { positive, mantissa, exponent } => -22 <= exponent <= 22 ==> {
                &&& bits == double_bits(positive, mantissa, exponent)
                &&& rounds_to(positive, mantissa, exponent, bits)
            },
        },
{
    value.as_f64().unwrap_or_default().to_bits()
}

/// `json::JsonValue::members`: the members of an array, in order.
#[verifier::external_body]
fn json_members(value: &JsonValue) -> (members: Vec<&JsonValue>)
    requires
        json_tree(*value) is Array,
    ensures
        members@.len() == json_tree(*value)->Array_0.len(),
        forall|i: int|
            0 <= i < members@.len() ==> #[trigger] json_tree(*value)->Array_0[i] == json_tree(*members@[i]),
{
    value.members().collect()
}

/// `json::JsonValue::entries`: the entries of an object, in the order in which their keys came.
#[verifier::external_body]
fn json_entries(value: &JsonValue) -> (entries: Vec<(&str, &JsonValue)>)
    requires
        json_tree(*value) is Object,
    ensures
        entries@.len() == json_tree(*value)->Object_0.len(),
        forall|i: int|
            0 <= i < entries@.len() ==> #[trigger] json_tree(*value)->Object_0[i] == (
                entries@[i].0@,
                json_tree(*entries@[i].1),
            ),
{
    value.entries().collect()
}

/// Where the end of a text stands: outside of strings, inside of one, or behind a backslash in one.
pub enum Quoting {
    Outside,
    Inside,
    Escaped,
}

/// Where the next character stands.
pub open spec fn next_quoting(quoting: Quoting, c: char) -> Quoting {
    match quoting {
        Quoting::Outside => if c == '"' {
            Quoting::Inside
        } else {
            Quoting::Outside
        },
        Quoting::Inside => if c == '"' {
            Quoting::Outside
        } else if c == '\\' {
            Quoting::Escaped
        } else {
            Quoting::Inside
        },
        Quoting::Escaped => Quoting::Inside,
    }
}

/// Where the end of a text stands.
pub open spec fn quoting(s: Seq<char>) -> Quoting
    decreases s.len(),
{
    if s.len() == 0 {
        Quoting::Outside
    } else {
        next_quoting(quoting(s.drop_last()), s.last())
    }
}

/// So many digits of a fraction the JSON library counts without overflow.
pub const MAX_FRACTION: usize = 32768;

/// So many zeros may open a fraction of any length: of the digits behind them the library counts no
/// more than twenty.
pub const MAX_ZEROS: usize = 32748;

/// At position `p`, outside of strings, stands a point with nothing but a zero in front of it.
pub open spec fn lone_zero_point(s: Seq<char>, p: int) -> bool {
    &&& 1 <= p < s.len()
    &&& s[p] == '.'
    &&& s[p - 1] == '0'
    &&& p >= 2 ==> !is_digit(s[p - 2])
    &&& quoting(s.take(p)) is Outside
}

/// Behind the point at position `p` stands a fraction of a number smaller than one whose digits the
/// JSON library cannot count: too many of them, and too many zeros in front.
pub open spec fn tiny_fraction_at(s: Seq<char>, p: int) -> bool {
    &&& lone_zero_point(s, p)
    &&& p + MAX_FRACTION + 1 < s.len()
    &&& forall|j: int| p < j <= p + MAX_FRACTION + 1 ==> is_digit(#[trigger] s[j])
    &&& forall|j: int| p < j <= p + MAX_ZEROS + 1 ==> #[trigger] s[j] == '0'
}

/// The JSON library can count the digits of every fraction in a text.
pub open spec fn countable_fractions(s: Seq<char>) -> bool {
    forall|p: int| !#[trigger] tiny_fraction_at(s, p)
}

/// `json::parse`: the value of a document, or the text of the error. Both depend on the text alone.
/// The library counts the digits of a fraction down from zero, in sixteen bits, for as long as the
/// number without its point fits into 64 bits. Only for a number smaller than one that opens with
/// very many zeros can that overflow.
#[verifier::external_body]
fn json_parse(text: &str) -> (parsed: Result<JsonValue, String>)
    requires
        countable_fractions(text@),
    ensures
        match parsed {
            Ok(value) => json_document(text@) == Ok::<JsonTree, Seq<char>>(json_tree(value)),
            Err(message) => json_document(text@) == Err::<JsonTree, Seq<char>>(message@),
        },
{
    match json::parse(text) {
        Ok(value) => Ok(value),
        Err(error) => Err(error.to_string()),
    }
}

/// Whether the JSON library can count the digits of every fraction in a text.
pub fn has_countable_fractions(text: &str) -> (yes: bool)
    ensures
        yes == countable_fractions(text@),
{
    let n: usize = text.unicode_len();
    let mut chars = text.chars();
    let ghost s = text@;
    let mut place = Quoting::Outside;
    let mut last: char = ' ';
    let mut last_but_one: char = ' ';
    let mut point: Option<usize> = None;
    let mut k: usize = 0;
    assert(s.skip(0) =~= s);
    while k < n
        invariant
            s == text@,
            n == s.len(),
            k <= n,
            vstd::std_specs::iter::IteratorSpec::obeys_prophetic_iter_laws(&chars),
            vstd::std_specs::iter::IteratorSpec::remaining(&chars) == s.skip(k as int),
            place == quoting(s.take(k as int)),
            last == (if k >= 1 { s[k - 1] } else { ' ' }),
            last_but_one == (if k >= 2 { s[k - 2] } else { ' ' }),
            forall|p: int| p < k && #[trigger] tiny_fraction_at(s, p) ==> point == Some(p as usize),
            point matches Some(p) ==> {
                &&& p < k <= p + MAX_FRACTION + 1
                &&& lone_zero_point(s, p as int)
                &&& forall|j: int| p < j < k ==> is_digit(#[trigger] s[j])
                &&& forall|j: int| p < j < k && j <= p + MAX_ZEROS + 1 ==> #[trigger] s[j] == '0'
            },
        decreases n - k,
    {
        let c: char = match chars.next() {
            Some(c) => c,
            None => ' ',
        };
        assert(c == s[k as int]);
        assert(s.skip(k as int).drop_first() =~= s.skip(k + 1));
        assert(s.take(k + 1).drop_last() =~= s.take(k as int));
        assert(s.take(k + 1).last() == c);
        let digit = '0' <= c && c <= '9';
        if let Some(p) = point {
            if !digit || (k - p <= MAX_ZEROS + 1 && c != '0') {
                assert(!tiny_fraction_at(s, p as int));
                point = None;
            } else if k - p == MAX_FRACTION + 1 {
                assert(tiny_fraction_at(s, p as int));
                return false;
            }
        }
        let outside = matches!(place, Quoting::Outside);
        if c == '.' && outside && last == '0' && !('0' <= last_but_one && last_but_one <= '9') {
            point = Some(k);
        }
        place = match place {
            Quoting::Outside => if c == '"' {
                Quoting::Inside
            } else {
                Quoting::Outside
            },
            Quoting::Inside => if c == '"' {
                Quoting::Outside
            } else if c == '\\' {
                Quoting::Escaped
            } else {
                Quoting::Inside
            },
            Quoting::Escaped => Quoting::Inside,
        };
        last_but_one = last;
        last = c;
        k += 1;
    }
    true
}

/// Takes a value of the JSON library over.
fn convert(value: &JsonValue) -> (document: Json)
    ensures
        describes(json_tree(*value), document),
    decreases json_tree(*value),
{
    match json_layer(value) {
        Layer::Null => Json::Null,
        Layer::Text(s) => Json::Text(s),
        Layer::Number => Json::Number(json_number(value)),
        Layer::Boolean(b) => Json::Boolean(b),
        Layer::Array => {
            let members = json_members(value);
            let ghost tree = json_tree(*value)->Array_0;
            let n: usize = members.len();
            let mut items: Vec<Json> = Vec::new();
            let mut i: usize = 0;
            while i < n
                invariant
                    n == members@.len(),
                    n == tree.len(),
                    json_tree(*value) == JsonTree::Array(tree),
                    forall|k: int| 0 <= k < n ==> #[trigger] tree[k] == json_tree(*members@[k]),
                    i <= n,
                    items@.len() == i,
                    forall|k: int| 0 <= k < i ==> describes(#[trigger] tree[k], items@[k]),
                decreases n - i,
            {
                assert(tree[i as int] == json_tree(*members@[i as int]));
                assert(decreases_to!(json_tree(*value) => json_tree(*value)->Array_0[i as int]));
                items.push(convert(members[i]));
                i += 1;
            }
            Json::Array(items)
        },
        Layer::Object => {
            let entries = json_entries(value);
            let ghost tree = json_tree(*value)->Object_0;
            let n: usize = entries.len();
            let mut items: Vec<(String, Json)> = Vec::new();
            let mut i: usize = 0;
            while i < n
                invariant
                    n == entries@.len(),
                    n == tree.len(),
                    json_tree(*value) == JsonTree::Object(tree),
                    forall|k: int|
                        0 <= k < n ==> #[trigger] tree[k] == (entries@[k].0@, json_tree(*entries@[k].1)),
                    i <= n,
                    items@.len() == i,
                    forall|k: int|
                        0 <= k < i ==> (#[trigger] tree[k]).0 == items@[k].0@ && describes(
                            tree[k].1,
                            items@[k].1,
                        ),
                decreases n - i,
            {
                let (key, item) = entries[i];
                let ghost entry = tree[i as int];
                assert(entry == (key@, json_tree(*item)));
                assert(decreases_to!(json_tree(*value) => json_tree(*value)->Object_0[i as int].1));
                items.push((key.to_owned(), convert(item)));
                i += 1;
            }
            Json::Object(items)
        },
    }
}

/// Reads a JSON document; where there is none, gives the complaint.
pub fn parse_json(text: &str) -> (document: Result<Json, String>)
    requires
        countable_fractions(text@),
    ensures
        match document {
            Ok(document) => json_document(text@) matches Ok(tree) && describes(tree, document),
            Err(message) => json_document(text@) == Err::<JsonTree, Seq<char>>(message@),
        },
{
    match json_parse(text) {
        Ok(value) => Ok(convert(&value)),
        Err(message) => Err(message),
    }
}

/// The value under a key: that of its first entry, or null where it has none.
pub open spec fn member(entries: Seq<(String, Json)>, key: Seq<char>) -> Json
    decreases entries.len(),
{
    if entries.len() == 0 {
        Json::Null
    } else if entries[0].0@ == key {
        entries[0].1
    } else {
        member(entries.drop_first(), key)
    }
}

/// The value under a key, if it has one.
pub fn get_member<'a>(entries: &'a Vec<(String, Json)>, key: &str) -> (value: Option<&'a Json>)
    ensures
        match value {
            Some(value) => member(entries@, key@) == *value,
            None => member(entries@, key@) is Null,
        },
{
    let n: usize = entries.len();
    let mut i: usize = 0;
    assert(entries@.skip(0) =~= entries@);
    while i < n
        invariant
            n == entries@.len(),
            i <= n,
            member(entries@, key@) == member(entries@.skip(i as int), key@),
        decreases n - i,
    {
        let entry = &entries[i];
        assert(entries@.skip(i as int)[0] == entries@[i as int]);
        if str_eq(entry.0.as_str(), key) {
            return Some(&entry.1);
        }
        assert(entries@.skip(i as int).drop_first() =~= entries@.skip(i + 1));
        i += 1;
    }
    None
}

/// The text of a value that is one.
pub open spec fn text_of(value: Json) -> Option<Seq<char>> {
    match value {
        Json::Text(s) => Some(s@),
        _ => None,
    }
}

/// The text under a key, if the value there is one.
pub fn get_text<'a>(entries: &'a Vec<(String, Json)>, key: &str) -> (text: Option<&'a String>)
    ensures
        match text {
            Some(s) => text_of(member(entries@, key@)) == Some(s@),
            None => text_of(member(entries@, key@)) is None,
        },
{
    match get_member(entries, key) {
        Some(Json::Text(s)) => Some(s),
        _ => None,
    }
}

} // verus!
