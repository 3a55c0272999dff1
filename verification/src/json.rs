//! Reading training data from JSON text, and writing it.
//!
//! The text is parsed by `rustc_serialize`. What its functions return is
//! described here by a model of a JSON value; the loader is verified against
//! that description. The writer is verified against the text that it
//! promises.
//!
//! The parser is not handed every text. It panics on an exponent of twenty
//! digits, on keys that fill its buffer and on a brace that closes behind a
//! comma, and it overflows its stack on deep nesting. So a text is read
//! character by character first, and one beyond the limits of
//! [`safe_json_text`] is refused without a call of the parser.

use rustc_serialize::json::{Json, ParserError};
use vstd::prelude::*;
use vstd::string::*;
use crate::data::{TrainingData, TrainingDataView};
use crate::ortho::OrthographicContext;
use crate::text::{byte_len, lower, utf8_width, width};

verus! {

/// A JSON value of `rustc_serialize`. Nothing of its inside is known here.
#[verifier::external_type_specification]
#[verifier::external_body]
pub struct ExJson(Json);

/// The error of the JSON parser of `rustc_serialize`.
#[verifier::external_type_specification]
#[verifier::external_body]
pub struct ExParserError(ParserError);

/// What a JSON value is.
pub enum JsonModel {
    Null,
    Boolean(bool),
    /// A number that was read as a signed integer.
    I64(i64),
    /// A number that was read as an unsigned integer.
    U64(u64),
    /// Any other number.
    Real,
    Text(Seq<char>),
    Array(Seq<JsonModel>),
    /// The members of an object, in the order in which the object yields
    /// them.
    Object(Seq<(Seq<char>, JsonModel)>),
}

/// What the JSON value `j` holds.
pub uninterp spec fn json_model(j: Json) -> JsonModel;

/// The value that `Json::from_str` reads from `text`; `None` where it
/// reports an error.
pub uninterp spec fn json_parsed(text: Seq<char>) -> Option<JsonModel>;

/// The deepest nesting of arrays and objects that a text may have to be
/// handed to the parser.
pub const MAX_DEPTH: usize = 16;

/// The most bytes that a string of a text may take between its quotes to be
/// handed to the parser.
pub const MAX_STRING_BYTES: usize = 4095;

/// The most digits that an exponent of a number may have to be handed to
/// the parser.
pub const MAX_EXPONENT_DIGITS: usize = 9;

/// The most bytes that a text may take to be handed to the parser.
pub const MAX_TEXT_BYTES: usize = 0x7fff_ffff;

/// Where a reader of JSON text stands between two characters, as far as the
/// limits of the parser go.
pub struct Lexer {
    /// Inside a string.
    pub in_string: bool,
    /// Inside a string, behind a backslash that escapes the next character.
    pub escaped: bool,
    /// How many arrays and objects are open.
    pub depth: int,
    /// How many bytes the string has taken so far.
    pub string_bytes: int,
    /// Behind the `e` of a number, its sign or its digits.
    pub exponent: bool,
    /// How many digits the exponent has so far.
    pub exponent_digits: int,
    /// Outside a string, behind a comma and nothing but white space.
    pub comma: bool,
}

impl Lexer {
    /// Where the reader stands before the first character.
    pub open spec fn start() -> Lexer {
        Lexer {
            in_string: false,
            escaped: false,
            depth: 0,
            string_bytes: 0,
            exponent: false,
            exponent_digits: 0,
            comma: false,
        }
    }

    /// Whether the reader is within the limits.
    pub open spec fn within(self) -> bool {
        &&& 0 <= self.depth <= MAX_DEPTH
        &&& 0 <= self.string_bytes <= MAX_STRING_BYTES
        &&& 0 <= self.exponent_digits <= MAX_EXPONENT_DIGITS
    }

    /// Where the reader stands behind the character `c` of a string; `None`
    /// where the string grows beyond its limit. A backslash escapes the
    /// character behind it, and a quote that is not escaped ends the string.
    pub open spec fn in_string_step(self, c: char) -> Option<Lexer> {
        if !self.escaped && c == '"' {
            Some(Lexer { in_string: false, string_bytes: 0, ..self })
        } else if self.string_bytes + width(c) > MAX_STRING_BYTES {
            None
        } else {
            Some(
                Lexer {
                    escaped: !self.escaped && c == '\\',
                    string_bytes: self.string_bytes + width(c),
                    ..self
                },
            )
        }
    }

    /// Where the reader stands behind the character `c` outside a string;
    /// `None` where a limit is passed: an array or object opens too deep, an
    /// exponent gets too many digits, or a brace closes behind a comma.
    pub open spec fn outside_step(self, c: char) -> Option<Lexer> {
        let plain = Lexer { exponent: false, exponent_digits: 0, comma: false, ..self };
        if c == '"' {
            Some(Lexer { in_string: true, escaped: false, string_bytes: 0, ..plain })
        } else if c == '[' || c == '{' {
            if self.depth + 1 > MAX_DEPTH {
                None
            } else {
                Some(Lexer { depth: self.depth + 1, ..plain })
            }
        } else if c == ']' {
            Some(Lexer { depth: lower_depth(self.depth), ..plain })
        } else if c == '}' {
            if self.comma {
                None
            } else {
                Some(Lexer { depth: lower_depth(self.depth), ..plain })
            }
        } else if c == ',' {
            Some(Lexer { comma: true, ..plain })
        } else if c == ' ' || c == '\n' || c == '\t' || c == '\r' {
            Some(Lexer { exponent: false, exponent_digits: 0, ..self })
        } else if c == 'e' || c == 'E' {
            Some(Lexer { exponent: true, ..plain })
        } else if (c == '+' || c == '-') && self.exponent && self.exponent_digits == 0 {
            Some(Lexer { exponent: true, ..plain })
        } else if '0' <= c && c <= '9' && self.exponent {
            if self.exponent_digits + 1 > MAX_EXPONENT_DIGITS {
                None
            } else {
                Some(
                    Lexer { exponent: true, exponent_digits: self.exponent_digits + 1, ..plain },
                )
            }
        } else {
            Some(plain)
        }
    }

    /// Where the reader stands behind the character `c`; `None` where a
    /// limit is passed.
    pub open spec fn step(self, c: char) -> Option<Lexer> {
        if self.in_string {
            self.in_string_step(c)
        } else {
            self.outside_step(c)
        }
    }
}

/// The depth behind a closing bracket.
pub open spec fn lower_depth(depth: int) -> int {
    if depth > 0 {
        depth - 1
    } else {
        0
    }
}

/// Whether a reader that stands before the character `i` of `s` gets to the
/// end of `s` without passing a limit.
pub open spec fn within_limits(s: Seq<char>, i: int, at: Lexer) -> bool
    decreases s.len() - i,
{
    if i >= s.len() || i < 0 {
        true
    } else {
        match at.step(s[i]) {
            Some(next) => within_limits(s, i + 1, next),
            None => false,
        }
    }
}

/// Whether the text can be handed to the parser: it takes no more than
/// `MAX_TEXT_BYTES` bytes, its arrays and objects are nested no deeper than
/// `MAX_DEPTH`, none of its strings takes more than `MAX_STRING_BYTES` bytes
/// between its quotes, no exponent of a number has more than
/// `MAX_EXPONENT_DIGITS` digits, and no closing brace follows a comma.
/// Strings are told from the rest by their quotes and backslashes alone, and
/// every `e` outside a string counts as the start of an exponent.
pub open spec fn safe_json_text(s: Seq<char>) -> bool {
    byte_len(s) <= MAX_TEXT_BYTES && within_limits(s, 0, Lexer::start())
}

/// `Json::from_str`: parses `text`. The value that comes back holds what
/// the name `json_parsed` says, and an error comes back where that is
/// `None`.
///
/// The parser panics or overflows its stack on some texts, which `requires`
/// leaves out. It counts the digits of an exponent in a machine word without
/// a check; it keeps the keys of the objects that are open in a buffer whose
/// places are 16 bits wide; it takes one level too many off its stack at a
/// brace that closes behind a comma; it counts lines, columns and the
/// elements of an array without a check; and it builds the value by
/// recursion, one call for each level of nesting.
#[verifier::external_body]
fn json_parse(text: &str) -> (r: Result<Json, ParserError>)
    requires
        safe_json_text(text@),
    ensures
        match r {
            Ok(j) => json_parsed(text@) == Some(json_model(j)),
            Err(_) => json_parsed(text@) is None,
        },
{
    Json::from_str(text)
}

/// `Json::find`: the member of an object under the key `key`. `None` where
/// the value is no object or has no such member. An object has one member
/// under a key at most.
#[verifier::external_body]
fn json_find<'a>(j: &'a Json, key: &str) -> (r: Option<&'a Json>)
    ensures
        match r {
            Some(x) => json_model(*j) matches JsonModel::Object(members) && (exists|i: int|
                0 <= i < members.len() && (#[trigger] members[i]).0 == key@) && (forall|i: int|
                0 <= i < members.len() && (#[trigger] members[i]).0 == key@ ==> members[i].1
                    == json_model(*x)),
            None => json_model(*j) matches JsonModel::Object(members) ==> forall|i: int|
                0 <= i < members.len() ==> (#[trigger] members[i]).0 != key@,
        },
{
    j.find(key)
}

/// `Json::is_object`: whether the value is an object.
#[verifier::external_body]
fn json_is_object(j: &Json) -> (b: bool)
    ensures
        b == (json_model(*j) is Object),
{
    j.is_object()
}

/// `Json::as_array`: the elements of an array, in their order. `None` where
/// the value is no array.
#[verifier::external_body]
fn json_as_array<'a>(j: &'a Json) -> (r: Option<&'a Vec<Json>>)
    ensures
        match json_model(*j) {
            JsonModel::Array(elements) => r matches Some(v) && v.len() == elements.len()
                && forall|i: int| 0 <= i < v.len() ==> json_model(#[trigger] v[i]) == elements[i],
            _ => r is None,
        },
{
    j.as_array()
}

/// `Json::as_string`: the text of a string. `None` where the value is no
/// string.
#[verifier::external_body]
fn json_as_string<'a>(j: &'a Json) -> (r: Option<&'a str>)
    ensures
        match json_model(*j) {
            JsonModel::Text(s) => r matches Some(t) && t@ == s,
            _ => r is None,
        },
{
    j.as_string()
}

/// `Json::as_u64`: the number, where the value is an unsigned integer or a
/// signed integer that is not negative. `None` for every other value.
#[verifier::external_body]
fn json_as_u64(j: &Json) -> (r: Option<u64>)
    ensures
        r == match json_model(*j) {
            JsonModel::I64(n) => if n >= 0 {
                Some(n as u64)
            } else {
                None
            },
            JsonModel::U64(n) => Some(n),
            _ => None,
        },
{
    j.as_u64()
}

/// `Json::as_object`, and the members that the map yields, collected: the
/// keys and values of an object, in the order of the model. `None` where the
/// value is no object.
#[verifier::external_body]
fn json_members<'a>(j: &'a Json) -> (r: Option<Vec<(&'a String, &'a Json)>>)
    ensures
        match json_model(*j) {
            JsonModel::Object(members) => r matches Some(v) && v.len() == members.len()
                && forall|i: int|
                0 <= i < v.len() ==> (#[trigger] v[i]).0@ == members[i].0 && json_model(*v[i].1)
                    == members[i].1,
            _ => r is None,
        },
{
    j.as_object().map(|m| m.iter().collect())
}

/// Why training data could not be loaded.
#[derive(Clone, Copy, Debug, PartialEq, Eq, Structural)]
pub enum LoadError {
    /// The text is no JSON within the limits of the parser, or its value is
    /// no object.
    NoObject,
    /// A list of the bundle is there, and is no array.
    Path,
    /// The orthographic context of the bundle is there, and is no object.
    OrthographicContext,
}

impl LoadError {
    /// The error in words.
    pub open spec fn text(self) -> Seq<char> {
        match self {
            LoadError::NoObject => "no json object found containing training data"@,
            LoadError::Path => "failed to parse expected path"@,
            LoadError::OrthographicContext => "failed to parse orthographic context section"@,
        }
    }

    /// The error in words.
    pub fn message(&self) -> (r: &'static str)
        ensures
            r@ == self.text(),
    {
        match *self {
            LoadError::NoObject => "no json object found containing training data",
            LoadError::Path => "failed to parse expected path",
            LoadError::OrthographicContext => "failed to parse orthographic context section",
        }
    }
}

/// The member of the object with the members `members` under `key`, if
/// there is one.
pub open spec fn member(members: Seq<(Seq<char>, JsonModel)>, key: Seq<char>) -> Option<JsonModel> {
    if exists|i: int| 0 <= i < members.len() && (#[trigger] members[i]).0 == key {
        let i = choose|i: int| 0 <= i < members.len() && (#[trigger] members[i]).0 == key;
        Some(members[i].1)
    } else {
        None
    }
}

/// The data with the strings among the first `n` of `elements` added as
/// abbreviations. An element that is no string is passed over.
pub open spec fn abbrevs_loaded(d: TrainingDataView, elements: Seq<JsonModel>, n: int) -> TrainingDataView
    decreases n,
{
    if n <= 0 {
        d
    } else {
        let before = abbrevs_loaded(d, elements, n - 1);
        match elements[n - 1] {
            JsonModel::Text(s) => before.with_abbrev(s),
            _ => before,
        }
    }
}

/// The data with the strings among the first `n` of `elements` added as
/// sentence starters. An element that is no string is passed over.
pub open spec fn starters_loaded(d: TrainingDataView, elements: Seq<JsonModel>, n: int) -> TrainingDataView
    decreases n,
{
    if n <= 0 {
        d
    } else {
        let before = starters_loaded(d, elements, n - 1);
        match elements[n - 1] {
            JsonModel::Text(s) => before.with_sentence_starter(s),
            _ => before,
        }
    }
}

/// The pair of strings that `e` holds, where it is an array of two strings.
pub open spec fn string_pair(e: JsonModel) -> Option<(Seq<char>, Seq<char>)> {
    match e {
        JsonModel::Array(a) => if a.len() == 2 {
            match (a[0], a[1]) {
                (JsonModel::Text(l), JsonModel::Text(r)) => Some((l, r)),
                _ => None,
            }
        } else {
            None
        },
        _ => None,
    }
}

/// The data with the pairs among the first `n` of `elements` added as
/// collocations. An element that is no array of two strings is passed over.
pub open spec fn collocations_loaded(
    d: TrainingDataView,
    elements: Seq<JsonModel>,
    n: int,
) -> TrainingDataView
    decreases n,
{
    if n <= 0 {
        d
    } else {
        let before = collocations_loaded(d, elements, n - 1);
        match string_pair(elements[n - 1]) {
            Some((l, r)) => before.with_collocation(l, r),
            None => before,
        }
    }
}

/// The byte that `e` holds, where it is an integer from 0 to 255.
pub open spec fn small_number(e: JsonModel) -> Option<u8> {
    match e {
        JsonModel::I64(n) => if 0 <= n <= 255 {
            Some(n as u8)
        } else {
            None
        },
        JsonModel::U64(n) => if n <= 255 {
            Some(n as u8)
        } else {
            None
        },
        _ => None,
    }
}

/// The data with the first `n` of `members` added to the orthographic
/// context. A member whose value is no integer from 0 to 255 is passed over.
pub open spec fn ortho_loaded(
    d: TrainingDataView,
    members: Seq<(Seq<char>, JsonModel)>,
    n: int,
) -> TrainingDataView
    decreases n,
{
    if n <= 0 {
        d
    } else {
        let before = ortho_loaded(d, members, n - 1);
        match small_number(members[n - 1].1) {
            Some(c) => before.with_ortho(members[n - 1].0, c),
            None => before,
        }
    }
}

/// The elements of the list of the bundle under `key`: none where the
/// bundle has no such member, and an error where the member is no array.
pub open spec fn list_of(members: Seq<(Seq<char>, JsonModel)>, key: Seq<char>) -> Option<
    Seq<JsonModel>,
> {
    match member(members, key) {
        None => Some(Seq::empty()),
        Some(JsonModel::Array(a)) => Some(a),
        Some(_) => None,
    }
}

/// The members of the orthographic context of the bundle: none where the
/// bundle has no such member, and an error where the member is no object.
pub open spec fn context_of(members: Seq<(Seq<char>, JsonModel)>) -> Option<
    Seq<(Seq<char>, JsonModel)>,
> {
    match member(members, "ortho_context"@) {
        None => Some(Seq::empty()),
        Some(JsonModel::Object(m)) => Some(m),
        Some(_) => None,
    }
}

/// The training data that the JSON value `j` describes.
///
/// The value must be an object. Its members `abbrev_types` and
/// `sentence_starters` are arrays of strings, `collocations` is an array of
/// arrays of two strings, left and right, and `ortho_context` is an object
/// of integers from 0 to 255. A member that is not there counts as empty;
/// one of another kind is an error; other members are not looked at.
pub open spec fn loaded(j: JsonModel) -> Result<TrainingDataView, LoadError> {
    match j {
        JsonModel::Object(members) => {
            let abbrevs = list_of(members, "abbrev_types"@);
            let starters = list_of(members, "sentence_starters"@);
            let collocations = list_of(members, "collocations"@);
            let context = context_of(members);
            if abbrevs is None || starters is None || collocations is None {
                Err(LoadError::Path)
            } else if context is None {
                Err(LoadError::OrthographicContext)
            } else {
                let d1 = abbrevs_loaded(
                    TrainingDataView::empty(),
                    abbrevs->0,
                    abbrevs->0.len() as int,
                );
                let d2 = starters_loaded(d1, starters->0, starters->0.len() as int);
                let d3 = collocations_loaded(d2, collocations->0, collocations->0.len() as int);
                Ok(ortho_loaded(d3, context->0, context->0.len() as int))
            }
        },
        _ => Err(LoadError::NoObject),
    }
}

/// The training data that the JSON text `text` describes, by the value that
/// the parser reads from it.
pub open spec fn loaded_from(parsed: Option<JsonModel>) -> Result<TrainingDataView, LoadError> {
    match parsed {
        Some(j) => loaded(j),
        None => Err(LoadError::NoObject),
    }
}

/// The array under `key` in the object `j`. `Ok(None)` where there is no
/// such member, and an error where the member is no array.
fn list_member<'a>(j: &'a Json, key: &str) -> (r: Result<Option<&'a Vec<Json>>, LoadError>)
    requires
        json_model(*j) is Object,
    ensures
        match list_of(json_model(*j)->Object_0, key@) {
            None => r == Err::<Option<&Vec<Json>>, LoadError>(LoadError::Path),
            Some(a) => match r {
                Ok(Some(v)) => v.len() == a.len() && forall|i: int|
                    0 <= i < v.len() ==> json_model(#[trigger] v[i]) == a[i],
                Ok(None) => a.len() == 0,
                Err(_) => false,
            },
        },
{
    let ghost members = json_model(*j)->Object_0;
    match json_find(j, key) {
        None => Ok(None),
        Some(x) => {
            match json_as_array(x) {
                Some(v) => Ok(Some(v)),
                None => Err(LoadError::Path),
            }
        },
    }
}

impl TrainingData {
    /// Loads training data from a JSON value.
    pub fn from_json_value(j: &Json) -> (r: Result<TrainingData, LoadError>)
        ensures
            match loaded(json_model(*j)) {
                Ok(view) => r matches Ok(d) && d@ == view && d.wf(),
                Err(e) => r matches Err(f) && f == e,
            },
    {
        if !json_is_object(j) {
            return Err(LoadError::NoObject);
        }
        let ghost members = json_model(*j)->Object_0;
        let abbrevs = list_member(j, "abbrev_types");
        let starters = list_member(j, "sentence_starters");
        let collocations = list_member(j, "collocations");
        if abbrevs.is_err() || starters.is_err() || collocations.is_err() {
            return Err(LoadError::Path);
        }
        let context = match json_find(j, "ortho_context") {
            None => None,
            Some(x) => {
                match json_members(x) {
                    Some(v) => Some(v),
                    None => {
                        return Err(LoadError::OrthographicContext);
                    },
                }
            },
        };
        let mut data = TrainingData::new();
        let ghost a = list_of(members, "abbrev_types"@)->0;
        let ghost s = list_of(members, "sentence_starters"@)->0;
        let ghost c = list_of(members, "collocations"@)->0;
        let ghost o = context_of(members)->0;
        if let Ok(Some(v)) = abbrevs {
            let mut i: usize = 0;
            while i < v.len()
                invariant
                    i <= v.len(),
                    v.len() == a.len(),
                    forall|k: int| 0 <= k < v.len() ==> json_model(#[trigger] v[k]) == a[k],
                    data.wf(),
                    data@ == abbrevs_loaded(TrainingDataView::empty(), a, i as int),
                decreases v.len() - i,
            {
                if let Some(t) = json_as_string(&v[i]) {
                    data.insert_abbrev(t);
                }
                i += 1;
            }
        }
        let ghost d1 = data@;
        if let Ok(Some(v)) = starters {
            let mut i: usize = 0;
            while i < v.len()
                invariant
                    i <= v.len(),
                    v.len() == s.len(),
                    forall|k: int| 0 <= k < v.len() ==> json_model(#[trigger] v[k]) == s[k],
                    data.wf(),
                    data@ == starters_loaded(d1, s, i as int),
                decreases v.len() - i,
            {
                if let Some(t) = json_as_string(&v[i]) {
                    data.insert_sentence_starter(t);
                }
                i += 1;
            }
        }
        let ghost d2 = data@;
        if let Ok(Some(v)) = collocations {
            let mut i: usize = 0;
            while i < v.len()
                invariant
                    i <= v.len(),
                    v.len() == c.len(),
                    forall|k: int| 0 <= k < v.len() ==> json_model(#[trigger] v[k]) == c[k],
                    data.wf(),
                    data@ == collocations_loaded(d2, c, i as int),
                decreases v.len() - i,
            {
                if let Some(pair) = json_as_array(&v[i]) {
                    if pair.len() == 2 {
                        if let Some(l) = json_as_string(&pair[0]) {
                            if let Some(r) = json_as_string(&pair[1]) {
                                data.insert_collocation(l, r);
                            }
                        }
                    }
                }
                i += 1;
            }
        }
        let ghost d3 = data@;
        if let Some(v) = context {
            let mut i: usize = 0;
            while i < v.len()
                invariant
                    i <= v.len(),
                    v.len() == o.len(),
                    forall|k: int|
                        0 <= k < v.len() ==> (#[trigger] v[k]).0@ == o[k].0 && json_model(*v[k].1)
                            == o[k].1,
                    data.wf(),
                    data@ == ortho_loaded(d3, o, i as int),
                decreases v.len() - i,
            {
                if let Some(n) = json_as_u64(v[i].1) {
                    if n <= 255 {
                        data.insert_orthographic_context(v[i].0.as_str(), n as u8);
                    }
                }
                i += 1;
            }
        }
        Ok(data)
    }

    /// Loads training data from JSON text. The bundle is an object with the
    /// members `abbrev_types`, `sentence_starters`, `collocations` and
    /// `ortho_context`. A text beyond the limits of the parser is refused as
    /// one that holds no object, and is not handed to the parser.
    pub fn from_json(text: &str) -> (r: Result<TrainingData, LoadError>)
        ensures
            match loaded_text(text@) {
                Ok(view) => r matches Ok(d) && d@ == view && d.wf(),
                Err(e) => r matches Err(f) && f == e,
            },
    {
        if !is_safe_json_text(text) {
            return Err(LoadError::NoObject);
        }
        match json_parse(text) {
            Ok(j) => TrainingData::from_json_value(&j),
            Err(_) => Err(LoadError::NoObject),
        }
    }
}

/// The training data that the JSON text `text` describes: that of the value
/// that the parser reads from it, where the text is within the limits of the
/// parser.
pub open spec fn loaded_text(text: Seq<char>) -> Result<TrainingDataView, LoadError> {
    if safe_json_text(text) {
        loaded_from(json_parsed(text))
    } else {
        Err(LoadError::NoObject)
    }
}

/// Where a reader of JSON text stands, in numbers of the machine.
#[derive(Clone, Copy)]
struct LexerState {
    in_string: bool,
    escaped: bool,
    depth: usize,
    string_bytes: usize,
    exponent: bool,
    exponent_digits: usize,
    comma: bool,
}

impl View for LexerState {
    type V = Lexer;

    closed spec fn view(&self) -> Lexer {
        Lexer {
            in_string: self.in_string,
            escaped: self.escaped,
            depth: self.depth as int,
            string_bytes: self.string_bytes as int,
            exponent: self.exponent,
            exponent_digits: self.exponent_digits as int,
            comma: self.comma,
        }
    }
}

/// Where the reader stands behind the character `c`; `None` where a limit
/// is passed.
fn lexer_step(at: LexerState, c: char) -> (r: Option<LexerState>)
    requires
        at@.within(),
    ensures
        match at@.step(c) {
            Some(next) => r matches Some(n) && n@ == next && next.within(),
            None => r is None,
        },
{
    if at.in_string {
        if !at.escaped && c == '"' {
            Some(LexerState { in_string: false, string_bytes: 0, ..at })
        } else {
            let w = utf8_width(c);
            if at.string_bytes + w > MAX_STRING_BYTES {
                None
            } else {
                Some(
                    LexerState {
                        escaped: !at.escaped && c == '\\',
                        string_bytes: at.string_bytes + w,
                        ..at
                    },
                )
            }
        }
    } else {
        let plain = LexerState { exponent: false, exponent_digits: 0, comma: false, ..at };
        let lower = if at.depth > 0 {
            at.depth - 1
        } else {
            0
        };
        if c == '"' {
            Some(LexerState { in_string: true, escaped: false, string_bytes: 0, ..plain })
        } else if c == '[' || c == '{' {
            if at.depth + 1 > MAX_DEPTH {
                None
            } else {
                Some(LexerState { depth: at.depth + 1, ..plain })
            }
        } else if c == ']' {
            Some(LexerState { depth: lower, ..plain })
        } else if c == '}' {
            if at.comma {
                None
            } else {
                Some(LexerState { depth: lower, ..plain })
            }
        } else if c == ',' {
            Some(LexerState { comma: true, ..plain })
        } else if c == ' ' || c == '\n' || c == '\t' || c == '\r' {
            Some(LexerState { exponent: false, exponent_digits: 0, ..at })
        } else if c == 'e' || c == 'E' {
            Some(LexerState { exponent: true, ..plain })
        } else if (c == '+' || c == '-') && at.exponent && at.exponent_digits == 0 {
            Some(LexerState { exponent: true, ..plain })
        } else if '0' <= c && c <= '9' && at.exponent {
            if at.exponent_digits + 1 > MAX_EXPONENT_DIGITS {
                None
            } else {
                Some(
                    LexerState {
                        exponent: true,
                        exponent_digits: at.exponent_digits + 1,
                        ..plain
                    },
                )
            }
        } else {
            Some(plain)
        }
    }
}

/// Whether the text is within the limits of the parser.
pub fn is_safe_json_text(text: &str) -> (b: bool)
    ensures
        b == safe_json_text(text@),
{
    let bytes = text.as_bytes().len();
    assert(byte_len(text@) == bytes);
    if bytes > MAX_TEXT_BYTES {
        return false;
    }
    let mut at = LexerState {
        in_string: false,
        escaped: false,
        depth: 0,
        string_bytes: 0,
        exponent: false,
        exponent_digits: 0,
        comma: false,
    };
    let ghost s = text@;
    for c in it: text.chars()
        invariant
            it.seq() == s,
            s == text@,
            byte_len(s) <= MAX_TEXT_BYTES,
            at@.within(),
            within_limits(s, it.index() as int, at@) == within_limits(s, 0, Lexer::start()),
    {
        match lexer_step(at, c) {
            Some(next) => {
                at = next;
            },
            None => {
                return false;
            },
        }
    }
    true
}

/// Training data is read from JSON text; the error is the message of the
/// [`LoadError`].
impl std::str::FromStr for TrainingData {
    type Err = &'static str;

    /// Loads training data from JSON text, as `from_json` does: the data of
    /// the bundle that the parser reads from the text, or the words of the
    /// error that stands in its way.
    fn from_str(s: &str) -> (r: Result<TrainingData, &'static str>)
        ensures
            match loaded_text(s@) {
                Ok(view) => r matches Ok(d) && d@ == view && d.wf(),
                Err(e) => r matches Err(words) && words@ == e.text(),
            },
    {
        match TrainingData::from_json(s) {
            Ok(data) => Ok(data),
            Err(e) => Err(e.message()),
        }
    }
}

/// The character that stands for the digit `d` of a number in base 16 or
/// below.
pub open spec fn digit_char(d: int) -> char {
    if d < 10 {
        (48 + d) as char
    } else {
        (87 + d) as char
    }
}

/// How a character is written inside a JSON string: a quote or a backslash
/// behind a backslash, a control character by its number, every other
/// character as it is.
pub open spec fn escaped_char(c: char) -> Seq<char> {
    if c == '"' {
        seq!['\\', '"']
    } else if c == '\\' {
        seq!['\\', '\\']
    } else if (c as u32) < 32 {
        seq!['\\', 'u', '0', '0', digit_char((c as u32) as int / 16), digit_char((c as u32) as int % 16)]
    } else {
        seq![c]
    }
}

/// How the characters of `s` are written inside a JSON string.
pub open spec fn escaped(s: Seq<char>) -> Seq<char>
    decreases s.len(),
{
    if s.len() == 0 {
        Seq::empty()
    } else {
        escaped(s.drop_last()) + escaped_char(s.last())
    }
}

/// The JSON string that holds `s`.
pub open spec fn quoted(s: Seq<char>) -> Seq<char> {
    seq!['"'] + escaped(s) + seq!['"']
}

/// The number `n` in decimal digits.
pub open spec fn decimal(n: u8) -> Seq<char> {
    if n >= 100 {
        seq![digit_char(n as int / 100), digit_char((n as int / 10) % 10), digit_char(n as int % 10)]
    } else if n >= 10 {
        seq![digit_char(n as int / 10), digit_char(n as int % 10)]
    } else {
        seq![digit_char(n as int)]
    }
}

/// What stands between two entries of a list.
pub open spec fn separator(first: bool) -> Seq<char> {
    if first {
        Seq::empty()
    } else {
        ", "@
    }
}

/// The first `n` strings of `list` as JSON strings in a row.
pub open spec fn strings_text(list: Seq<Seq<char>>, n: int) -> Seq<char>
    decreases n,
{
    if n <= 0 {
        Seq::empty()
    } else {
        strings_text(list, n - 1) + separator(n == 1) + quoted(list[n - 1])
    }
}

/// The first `n` pairs of `list` as JSON arrays of two strings in a row.
pub open spec fn pairs_text(list: Seq<(Seq<char>, Seq<char>)>, n: int) -> Seq<char>
    decreases n,
{
    if n <= 0 {
        Seq::empty()
    } else {
        pairs_text(list, n - 1) + separator(n == 1) + seq!['['] + quoted(list[n - 1].0) + ", "@
            + quoted(list[n - 1].1) + seq![']']
    }
}

/// The first `n` entries of `list` as members of a JSON object in a row.
pub open spec fn contexts_text(list: Seq<(Seq<char>, OrthographicContext)>, n: int) -> Seq<char>
    decreases n,
{
    if n <= 0 {
        Seq::empty()
    } else {
        contexts_text(list, n - 1) + separator(n == 1) + quoted(list[n - 1].0) + ": "@ + decimal(
            list[n - 1].1,
        )
    }
}

/// The JSON text of a bundle with the four lists.
pub open spec fn bundle_text(
    abbrevs: Seq<Seq<char>>,
    starters: Seq<Seq<char>>,
    collocations: Seq<(Seq<char>, Seq<char>)>,
    contexts: Seq<(Seq<char>, OrthographicContext)>,
) -> Seq<char> {
    "{\"abbrev_types\": ["@ + strings_text(abbrevs, abbrevs.len() as int)
        + "], \"sentence_starters\": ["@ + strings_text(starters, starters.len() as int)
        + "], \"collocations\": ["@ + pairs_text(collocations, collocations.len() as int)
        + "], \"ortho_context\": {"@ + contexts_text(contexts, contexts.len() as int) + "}}"@
}

/// The character that stands for the digit `d`.
fn digit(d: u8) -> (c: char)
    requires
        d < 16,
    ensures
        c == digit_char(d as int),
{
    if d < 10 {
        (48u8 + d) as char
    } else {
        (87u8 + d) as char
    }
}

/// Appends the JSON string that holds `s` to `out`.
fn push_quoted(out: &mut String, s: &str)
    ensures
        final(out)@ == old(out)@ + quoted(s@),
{
    let ghost before = out@;
    out.push('"');
    for c in it: s.chars()
        invariant
            it.seq() == s@,
            out@ == before + seq!['"'] + escaped(it.seq().take(it.index() as int)),
    {
        let ghost so_far = out@;
        let ghost done = it.seq().take(it.index() as int);
        if c == '"' {
            out.push('\\');
            out.push('"');
        } else if c == '\\' {
            out.push('\\');
            out.push('\\');
        } else if (c as u32) < 32 {
            let n = c as u32 as u8;
            out.push('\\');
            out.push('u');
            out.push('0');
            out.push('0');
            out.push(digit(n / 16));
            out.push(digit(n % 16));
        } else {
            out.push(c);
        }
        proof {
            assert(out@ =~= so_far + escaped_char(c));
            assert(it.seq().take(it.index() + 1).drop_last() =~= done);
            assert(it.seq().take(it.index() + 1).last() == c);
            assert(before + seq!['"'] + (escaped(done) + escaped_char(c)) =~= (before + seq!['"']
                + escaped(done)) + escaped_char(c));
        }
    }
    assert(s@.take(s@.len() as int) =~= s@);
    out.push('"');
    assert(out@ =~= before + (seq!['"'] + escaped(s@) + seq!['"']));
}

/// Appends the number `n` in decimal digits to `out`.
fn push_decimal(out: &mut String, n: u8)
    ensures
        final(out)@ == old(out)@ + decimal(n),
{
    let ghost before = out@;
    if n >= 100 {
        out.push(digit(n / 100));
        out.push(digit((n / 10) % 10));
        out.push(digit(n % 10));
    } else if n >= 10 {
        out.push(digit(n / 10));
        out.push(digit(n % 10));
    } else {
        out.push(digit(n));
    }
    assert(out@ =~= before + decimal(n));
}

/// Appends what stands between two entries of a list to `out`.
fn push_separator(out: &mut String, first: bool)
    ensures
        final(out)@ == old(out)@ + separator(first),
{
    if !first {
        out.append(", ");
    } else {
        assert(out@ + Seq::<char>::empty() =~= out@);
    }
}

impl TrainingData {
    /// The data as the JSON text of a bundle: the four tables as the
    /// members `abbrev_types`, `sentence_starters`, `collocations` and
    /// `ortho_context`, each with its entries in the order of the lists of
    /// the data.
    pub fn to_json(&self) -> (r: String)
        requires
            self.wf(),
        ensures
            r@ == bundle_text(
                self.abbrev_list(),
                self.sentence_starter_list(),
                self.collocation_list(),
                self.context_list(),
            ),
    {
        let abbrevs = self.abbrevs();
        let starters = self.sentence_starters();
        let collocations = self.collocations();
        let contexts = self.orthographic_contexts();
        let ghost a = self.abbrev_list();
        let ghost s = self.sentence_starter_list();
        let ghost c = self.collocation_list();
        let ghost o = self.context_list();
        let mut out = String::new();
        out.append("{\"abbrev_types\": [");
        assert(out@ =~= "{\"abbrev_types\": ["@);
        let ghost t0 = out@;
        let mut i: usize = 0;
        while i < abbrevs.len()
            invariant
                i <= abbrevs.len(),
                abbrevs@.map_values(|k: String| k@) == a,
                out@ == t0 + strings_text(a, i as int),
            decreases abbrevs.len() - i,
        {
            assert(a[i as int] == abbrevs[i as int]@);
            push_separator(&mut out, i == 0);
            push_quoted(&mut out, abbrevs[i].as_str());
            assert(out@ =~= t0 + (strings_text(a, i as int) + separator(i == 0) + quoted(a[i as int])));
            i += 1;
        }
        assert(a.len() == abbrevs.len());
        out.append("], \"sentence_starters\": [");
        let ghost t1 = out@;
        let mut i: usize = 0;
        while i < starters.len()
            invariant
                i <= starters.len(),
                starters@.map_values(|k: String| k@) == s,
                out@ == t1 + strings_text(s, i as int),
            decreases starters.len() - i,
        {
            assert(s[i as int] == starters[i as int]@);
            push_separator(&mut out, i == 0);
            push_quoted(&mut out, starters[i].as_str());
            assert(out@ =~= t1 + (strings_text(s, i as int) + separator(i == 0) + quoted(s[i as int])));
            i += 1;
        }
        assert(s.len() == starters.len());
        out.append("], \"collocations\": [");
        let ghost t2 = out@;
        let mut i: usize = 0;
        while i < collocations.len()
            invariant
                i <= collocations.len(),
                collocations@.map_values(|p: (String, String)| (p.0@, p.1@)) == c,
                out@ == t2 + pairs_text(c, i as int),
            decreases collocations.len() - i,
        {
            assert(c[i as int] == (collocations[i as int].0@, collocations[i as int].1@));
            push_separator(&mut out, i == 0);
            out.push('[');
            push_quoted(&mut out, collocations[i].0.as_str());
            out.append(", ");
            push_quoted(&mut out, collocations[i].1.as_str());
            out.push(']');
            assert(out@ =~= t2 + (pairs_text(c, i as int) + separator(i == 0) + seq!['['] + quoted(
                c[i as int].0,
            ) + ", "@ + quoted(c[i as int].1) + seq![']']));
            i += 1;
        }
        assert(c.len() == collocations.len());
        out.append("], \"ortho_context\": {");
        let ghost t3 = out@;
        let mut i: usize = 0;
        while i < contexts.len()
            invariant
                i <= contexts.len(),
                contexts@.map_values(|p: (String, OrthographicContext)| (p.0@, p.1)) == o,
                out@ == t3 + contexts_text(o, i as int),
            decreases contexts.len() - i,
        {
            assert(o[i as int] == (contexts[i as int].0@, contexts[i as int].1));
            push_separator(&mut out, i == 0);
            push_quoted(&mut out, contexts[i].0.as_str());
            out.append(": ");
            push_decimal(&mut out, contexts[i].1);
            assert(out@ =~= t3 + (contexts_text(o, i as int) + separator(i == 0) + quoted(
                o[i as int].0,
            ) + ": "@ + decimal(o[i as int].1)));
            i += 1;
        }
        assert(o.len() == contexts.len());
        out.append("}}");
        out
    }
}

/// The JSON value of a bundle with the four lists: an object whose members
/// hold the lists, strings as strings, pairs as arrays of two strings, and
/// each record of orthographic context as a number under its type.
pub open spec fn bundle_model(
    abbrevs: Seq<Seq<char>>,
    starters: Seq<Seq<char>>,
    collocations: Seq<(Seq<char>, Seq<char>)>,
    contexts: Seq<(Seq<char>, OrthographicContext)>,
) -> JsonModel {
    JsonModel::Object(
        seq![
            ("abbrev_types"@, JsonModel::Array(texts(abbrevs))),
            ("sentence_starters"@, JsonModel::Array(texts(starters))),
            ("collocations"@, JsonModel::Array(text_pairs(collocations))),
            ("ortho_context"@, JsonModel::Object(numbers(contexts))),
        ],
    )
}

/// The strings of `list` as JSON strings.
pub open spec fn texts(list: Seq<Seq<char>>) -> Seq<JsonModel> {
    Seq::new(list.len(), |i: int| JsonModel::Text(list[i]))
}

/// The pairs of `list` as JSON arrays of two strings.
pub open spec fn text_pairs(list: Seq<(Seq<char>, Seq<char>)>) -> Seq<JsonModel> {
    Seq::new(
        list.len(),
        |i: int| JsonModel::Array(seq![JsonModel::Text(list[i].0), JsonModel::Text(list[i].1)]),
    )
}

/// The entries of `list` as members of a JSON object.
pub open spec fn numbers(list: Seq<(Seq<char>, OrthographicContext)>) -> Seq<
    (Seq<char>, JsonModel),
> {
    Seq::new(list.len(), |i: int| (list[i].0, JsonModel::U64(list[i].1 as u64)))
}

/// Loading the first `n` strings of a list in lower case as abbreviations
/// adds just those strings.
proof fn lemma_abbrevs_loaded(d: TrainingDataView, list: Seq<Seq<char>>, n: int)
    requires
        0 <= n <= list.len(),
        forall|i: int| 0 <= i < list.len() ==> lower(#[trigger] list[i]) == list[i],
    ensures
        abbrevs_loaded(d, texts(list), n) == (TrainingDataView {
            abbrevs: Set::new(
                |k: Seq<char>| d.abbrevs.contains(k) || exists|i: int| 0 <= i < n && list[i] == k,
            ),
            ..d
        }),
    decreases n,
{
    let target = TrainingDataView {
        abbrevs: Set::new(
            |k: Seq<char>| d.abbrevs.contains(k) || exists|i: int| 0 <= i < n && list[i] == k,
        ),
        ..d
    };
    if n > 0 {
        lemma_abbrevs_loaded(d, list, n - 1);
        assert(texts(list)[n - 1] == JsonModel::Text(list[n - 1]));
        let got = abbrevs_loaded(d, texts(list), n);
        assert forall|k: Seq<char>| got.abbrevs.contains(k) == target.abbrevs.contains(k) by {
            if exists|i: int| 0 <= i < n && list[i] == k {
                let i = choose|i: int| 0 <= i < n && list[i] == k;
                if i < n - 1 {
                    assert(0 <= i < n - 1 && list[i] == k);
                }
            }
        }
        assert(got.abbrevs =~= target.abbrevs);
    } else {
        assert(d.abbrevs =~= target.abbrevs);
    }
}

/// Loading the first `n` strings of a list in lower case as sentence
/// starters adds just those strings.
proof fn lemma_starters_loaded(d: TrainingDataView, list: Seq<Seq<char>>, n: int)
    requires
        0 <= n <= list.len(),
        forall|i: int| 0 <= i < list.len() ==> lower(#[trigger] list[i]) == list[i],
    ensures
        starters_loaded(d, texts(list), n) == (TrainingDataView {
            sentence_starters: Set::new(
                |k: Seq<char>|
                    d.sentence_starters.contains(k) || exists|i: int| 0 <= i < n && list[i] == k,
            ),
            ..d
        }),
    decreases n,
{
    let target = TrainingDataView {
        sentence_starters: Set::new(
            |k: Seq<char>|
                d.sentence_starters.contains(k) || exists|i: int| 0 <= i < n && list[i] == k,
        ),
        ..d
    };
    if n > 0 {
        lemma_starters_loaded(d, list, n - 1);
        assert(texts(list)[n - 1] == JsonModel::Text(list[n - 1]));
        let got = starters_loaded(d, texts(list), n);
        assert forall|k: Seq<char>|
            got.sentence_starters.contains(k) == target.sentence_starters.contains(k) by {
            if exists|i: int| 0 <= i < n && list[i] == k {
                let i = choose|i: int| 0 <= i < n && list[i] == k;
                if i < n - 1 {
                    assert(0 <= i < n - 1 && list[i] == k);
                }
            }
        }
        assert(got.sentence_starters =~= target.sentence_starters);
    } else {
        assert(d.sentence_starters =~= target.sentence_starters);
    }
}

/// Loading the first `n` pairs of a list in lower case as collocations adds
/// just those pairs.
proof fn lemma_collocations_loaded(
    d: TrainingDataView,
    list: Seq<(Seq<char>, Seq<char>)>,
    n: int,
)
    requires
        0 <= n <= list.len(),
        forall|i: int|
            0 <= i < list.len() ==> lower((#[trigger] list[i]).0) == list[i].0 && lower(list[i].1)
                == list[i].1,
    ensures
        collocations_loaded(d, text_pairs(list), n) == (TrainingDataView {
            collocations: Set::new(
                |p: (Seq<char>, Seq<char>)|
                    d.collocations.contains(p) || exists|i: int| 0 <= i < n && list[i] == p,
            ),
            ..d
        }),
    decreases n,
{
    let target = TrainingDataView {
        collocations: Set::new(
            |p: (Seq<char>, Seq<char>)|
                d.collocations.contains(p) || exists|i: int| 0 <= i < n && list[i] == p,
        ),
        ..d
    };
    if n > 0 {
        lemma_collocations_loaded(d, list, n - 1);
        let e = text_pairs(list)[n - 1];
        assert(e == JsonModel::Array(
            seq![JsonModel::Text(list[n - 1].0), JsonModel::Text(list[n - 1].1)],
        ));
        assert(string_pair(e) == Some((list[n - 1].0, list[n - 1].1)));
        let got = collocations_loaded(d, text_pairs(list), n);
        assert forall|p: (Seq<char>, Seq<char>)|
            got.collocations.contains(p) == target.collocations.contains(p) by {
            if exists|i: int| 0 <= i < n && list[i] == p {
                let i = choose|i: int| 0 <= i < n && list[i] == p;
                if i < n - 1 {
                    assert(0 <= i < n - 1 && list[i] == p);
                }
            }
        }
        assert(got.collocations =~= target.collocations);
    } else {
        assert(d.collocations =~= target.collocations);
    }
}

/// Loading the first `n` entries of a list of distinct types in lower case
/// into data without orthographic context gives each of those types its
/// record.
proof fn lemma_ortho_loaded(
    d: TrainingDataView,
    list: Seq<(Seq<char>, OrthographicContext)>,
    n: int,
)
    requires
        0 <= n <= list.len(),
        d.orthographic_context == Map::<Seq<char>, OrthographicContext>::empty(),
        forall|i: int| 0 <= i < list.len() ==> lower((#[trigger] list[i]).0) == list[i].0,
        forall|i: int, j: int| 0 <= i < j < list.len() ==> list[i].0 != list[j].0,
    ensures
        ortho_loaded(d, numbers(list), n).abbrevs == d.abbrevs,
        ortho_loaded(d, numbers(list), n).sentence_starters == d.sentence_starters,
        ortho_loaded(d, numbers(list), n).collocations == d.collocations,
        forall|k: Seq<char>|
            ortho_loaded(d, numbers(list), n).orthographic_context.contains_key(k) <==> exists|
                i: int,
            |
                0 <= i < n && (#[trigger] list[i]).0 == k,
        forall|i: int|
            0 <= i < n ==> ortho_loaded(d, numbers(list), n).orthographic_context[(
            #[trigger] list[i]).0] == list[i].1,
    decreases n,
{
    if n > 0 {
        lemma_ortho_loaded(d, list, n - 1);
        let before = ortho_loaded(d, numbers(list), n - 1);
        let got = ortho_loaded(d, numbers(list), n);
        let key = list[n - 1].0;
        let c = list[n - 1].1;
        assert(numbers(list)[n - 1] == (key, JsonModel::U64(c as u64)));
        assert(small_number(JsonModel::U64(c as u64)) == Some(c));
        assert(!before.orthographic_context.contains_key(key)) by {
            if before.orthographic_context.contains_key(key) {
                let i = choose|i: int| 0 <= i < n - 1 && (#[trigger] list[i]).0 == key;
                assert(list[i].0 != list[n - 1].0);
            }
        }
        assert(before.ortho(key) == 0);
        assert(0u8 | c == c) by (bit_vector);
        assert(got == before.with_ortho(key, c));
        assert forall|k: Seq<char>|
            got.orthographic_context.contains_key(k) <==> exists|i: int|
                0 <= i < n && (#[trigger] list[i]).0 == k by {
            if got.orthographic_context.contains_key(k) {
                if k == key {
                    assert(list[n - 1].0 == k);
                } else {
                    let i = choose|i: int| 0 <= i < n - 1 && (#[trigger] list[i]).0 == k;
                    assert(0 <= i < n && list[i].0 == k);
                }
            }
            if exists|i: int| 0 <= i < n && (#[trigger] list[i]).0 == k {
                let i = choose|i: int| 0 <= i < n && (#[trigger] list[i]).0 == k;
                if i < n - 1 {
                    assert(before.orthographic_context.contains_key(k));
                }
            }
        }
        assert forall|i: int| 0 <= i < n implies got.orthographic_context[(#[trigger] list[i]).0]
            == list[i].1 by {
            if i < n - 1 {
                assert(list[i].0 != list[n - 1].0);
            }
        }
    }
}

/// The four keys of a bundle differ from each other.
proof fn lemma_bundle_keys()
    ensures
        "abbrev_types"@ != "sentence_starters"@,
        "abbrev_types"@ != "collocations"@,
        "abbrev_types"@ != "ortho_context"@,
        "sentence_starters"@ != "collocations"@,
        "sentence_starters"@ != "ortho_context"@,
        "collocations"@ != "ortho_context"@,
{
    reveal_strlit("abbrev_types");
    reveal_strlit("sentence_starters");
    reveal_strlit("collocations");
    reveal_strlit("ortho_context");
    assert("abbrev_types"@[0] == 'a');
    assert("sentence_starters"@[0] == 's');
    assert("collocations"@[0] == 'c');
    assert("ortho_context"@[0] == 'o');
}

/// The round trip, value by value: the JSON value of the bundle of data
/// loads as that data. So what `to_json` writes is read back by `from_json`
/// as the same four tables, wherever the text is within the limits of the
/// parser and the parser reads it as the value of that bundle.
pub proof fn lemma_bundle_loads_as_data(d: TrainingData)
    requires
        d.wf(),
    ensures
        loaded(
            bundle_model(
                d.abbrev_list(),
                d.sentence_starter_list(),
                d.collocation_list(),
                d.context_list(),
            ),
        ) == Ok::<TrainingDataView, LoadError>(d@),
{
    let a = d.abbrev_list();
    let s = d.sentence_starter_list();
    let c = d.collocation_list();
    let o = d.context_list();
    d.lemma_lists();
    crate::data::lemma_keys_are_lowercase(d);
    lemma_bundle_keys();
    let members = seq![
        ("abbrev_types"@, JsonModel::Array(texts(a))),
        ("sentence_starters"@, JsonModel::Array(texts(s))),
        ("collocations"@, JsonModel::Array(text_pairs(c))),
        ("ortho_context"@, JsonModel::Object(numbers(o))),
    ];
    assert(member(members, "abbrev_types"@) == Some(JsonModel::Array(texts(a)))) by {
        assert(members[0].0 == "abbrev_types"@);
        let i = choose|i: int|
            0 <= i < members.len() && (#[trigger] members[i]).0 == "abbrev_types"@;
        assert(i == 0);
    }
    assert(member(members, "sentence_starters"@) == Some(JsonModel::Array(texts(s)))) by {
        assert(members[1].0 == "sentence_starters"@);
        let i = choose|i: int|
            0 <= i < members.len() && (#[trigger] members[i]).0 == "sentence_starters"@;
        assert(i == 1);
    }
    assert(member(members, "collocations"@) == Some(JsonModel::Array(text_pairs(c)))) by {
        assert(members[2].0 == "collocations"@);
        let i = choose|i: int|
            0 <= i < members.len() && (#[trigger] members[i]).0 == "collocations"@;
        assert(i == 2);
    }
    assert(member(members, "ortho_context"@) == Some(JsonModel::Object(numbers(o)))) by {
        assert(members[3].0 == "ortho_context"@);
        let i = choose|i: int|
            0 <= i < members.len() && (#[trigger] members[i]).0 == "ortho_context"@;
        assert(i == 3);
    }
    assert forall|i: int| 0 <= i < a.len() implies lower(#[trigger] a[i]) == a[i] by {
        assert(a.contains(a[i]));
    }
    assert forall|i: int| 0 <= i < s.len() implies lower(#[trigger] s[i]) == s[i] by {
        assert(s.contains(s[i]));
    }
    assert forall|i: int| 0 <= i < c.len() implies lower((#[trigger] c[i]).0) == c[i].0 && lower(
        c[i].1,
    ) == c[i].1 by {
        assert(c.contains(c[i]));
        assert(d@.collocations.contains((c[i].0, c[i].1)));
    }
    assert forall|i: int| 0 <= i < o.len() implies lower((#[trigger] o[i]).0) == o[i].0 by {
        assert(o.contains(o[i]));
        assert(d@.orthographic_context.contains_key(o[i].0));
    }
    let e = TrainingDataView::empty();
    lemma_abbrevs_loaded(e, a, a.len() as int);
    let d1 = abbrevs_loaded(e, texts(a), a.len() as int);
    lemma_starters_loaded(d1, s, s.len() as int);
    let d2 = starters_loaded(d1, texts(s), s.len() as int);
    lemma_collocations_loaded(d2, c, c.len() as int);
    let d3 = collocations_loaded(d2, text_pairs(c), c.len() as int);
    lemma_ortho_loaded(d3, o, o.len() as int);
    let d4 = ortho_loaded(d3, numbers(o), o.len() as int);
    assert(texts(a).len() == a.len());
    assert(texts(s).len() == s.len());
    assert(text_pairs(c).len() == c.len());
    assert(numbers(o).len() == o.len());
    assert(d4.abbrevs =~= d@.abbrevs) by {
        assert forall|k: Seq<char>| d4.abbrevs.contains(k) == d@.abbrevs.contains(k) by {
            if a.contains(k) {
                let i = choose|i: int| 0 <= i < a.len() && a[i] == k;
            }
        }
    }
    assert(d4.sentence_starters =~= d@.sentence_starters) by {
        assert forall|k: Seq<char>|
            d4.sentence_starters.contains(k) == d@.sentence_starters.contains(k) by {
            if s.contains(k) {
                let i = choose|i: int| 0 <= i < s.len() && s[i] == k;
            }
        }
    }
    assert(d4.collocations =~= d@.collocations) by {
        assert forall|p: (Seq<char>, Seq<char>)|
            d4.collocations.contains(p) == d@.collocations.contains(p) by {
            if c.contains(p) {
                let i = choose|i: int| 0 <= i < c.len() && c[i] == p;
            }
        }
    }
    assert(d4.orthographic_context =~= d@.orthographic_context) by {
        assert forall|k: Seq<char>|
            d4.orthographic_context.contains_key(k) == d@.orthographic_context.contains_key(k) by {
            if d4.orthographic_context.contains_key(k) {
                let i = choose|i: int| 0 <= i < o.len() && (#[trigger] o[i]).0 == k;
                assert(o.contains(o[i]));
                assert(d@.orthographic_context.contains_pair(o[i].0, o[i].1));
            }
            if d@.orthographic_context.contains_key(k) {
                let p = (k, d@.orthographic_context[k]);
                assert(d@.orthographic_context.contains_pair(p.0, p.1));
                assert(o.contains(p));
                let i = choose|i: int| 0 <= i < o.len() && o[i] == p;
                assert(o[i].0 == k);
            }
        }
        assert forall|k: Seq<char>| d4.orthographic_context.contains_key(k) implies d4.orthographic_context[k]
            == d@.orthographic_context[k] by {
            let i = choose|i: int| 0 <= i < o.len() && (#[trigger] o[i]).0 == k;
            assert(o.contains(o[i]));
            assert(d@.orthographic_context.contains_pair(o[i].0, o[i].1));
        }
    }
    assert(d4 =~= d@);
}

} // verus!
