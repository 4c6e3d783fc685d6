//! Envelopes of cache files: JSON objects, zip archives with one entry, and toolkit versions.

use crate::text::{chars_of, find, first_at, number_of_text, parse_number, text_equal};
use serde_json::Value;
use std::io::{Cursor, Read, Write};
use vstd::prelude::*;

verus! {

/// One member of a JSON object, as far as a cache file uses it: an unsigned number, another number
/// by its text, a text, a truth value, a list whose texts are kept, an object by its text, or null.
#[derive(Debug)]
pub enum JsonField {
    Number(u64),
    Decimal(String),
    Text(String),
    Flag(bool),
    List(Vec<Option<String>>),
    Object(String),
    Null,
}

/// A member, as mathematics.
pub enum FieldView {
    Number(nat),
    Decimal(Seq<char>),
    Text(Seq<char>),
    Flag(bool),
    List(Seq<Option<Seq<char>>>),
    Object(Seq<char>),
    Null,
}

/// The texts of a list.
pub open spec fn list_texts(s: Seq<Option<String>>) -> Seq<Option<Seq<char>>> {
    Seq::new(
        s.len(),
        |i: int|
            match s[i] {
                None => None,
                Some(t) => Some(t@),
            },
    )
}

impl View for JsonField {
    type V = FieldView;

    open spec fn view(&self) -> FieldView {
        match self {
            JsonField::Number(n) => FieldView::Number(*n as nat),
            JsonField::Decimal(t) => FieldView::Decimal(t@),
            JsonField::Text(t) => FieldView::Text(t@),
            JsonField::Flag(b) => FieldView::Flag(*b),
            JsonField::List(l) => FieldView::List(list_texts(l@)),
            JsonField::Object(t) => FieldView::Object(t@),
            JsonField::Null => FieldView::Null,
        }
    }
}

/// The members of an object, as mathematics.
pub open spec fn members(s: Seq<(String, JsonField)>) -> Seq<(Seq<char>, FieldView)> {
    Seq::new(s.len(), |i: int| (s[i].0@, s[i].1@))
}

/// The members of the object that a JSON text holds, as `serde_json` reads it; `None` where the
/// text does not parse or holds no object.
pub uninterp spec fn json_members(text: Seq<char>) -> Option<Seq<(Seq<char>, FieldView)>>;

/// Calls `serde_json::from_str` and hands the members of the resulting object out, each changed
/// to the library's own type: unsigned integers by `Number::as_u64`, other numbers and nested
/// objects by their texts, strings and arrays of strings by what they hold.
///
/// The contract says that the members depend on the text alone; what they are for a given text
/// is left unsaid here, and said by [`json_text`] for the texts that it writes.
#[verifier::external_body]
fn json_object(data: &str) -> (r: Option<Vec<(String, JsonField)>>)
    ensures
        match r {
            None => json_members(data@) is None,
            Some(m) => json_members(data@) == Some(members(m@)),
        },
{
    let parsed: Value = serde_json::from_str(data).ok()?;
    Some(parsed.as_object()?.iter().map(|(k, v)| (k.clone(), match v {
        Value::Number(n) => n.as_u64().map_or_else(
            || JsonField::Decimal(n.to_string()), JsonField::Number),
        Value::String(t) => JsonField::Text(t.clone()),
        Value::Bool(b) => JsonField::Flag(*b),
        Value::Array(a) => JsonField::List(
            a.iter().map(|x| x.as_str().map(str::to_owned)).collect()),
        Value::Object(_) => JsonField::Object(v.to_string()),
        Value::Null => JsonField::Null,
    })).collect())
}

/// Whether a member is neither a list nor an object, and no number but an unsigned one.
pub open spec fn flat(f: FieldView) -> bool {
    f is Number || f is Text || f is Flag || f is Null
}

/// Whether an object that a member holds has flat members only.
pub open spec fn storable(f: FieldView) -> bool {
    f matches FieldView::Object(t) ==> (json_members(t) matches Some(m) && forall|i: int|
        0 <= i < m.len() ==> flat((#[trigger] m[i]).1))
}

/// Whether every member is storable, and no two have the same name.
pub open spec fn writable(m: Seq<(Seq<char>, FieldView)>) -> bool {
    &&& forall|i: int| 0 <= i < m.len() ==> storable((#[trigger] m[i]).1)
    &&& forall|i: int, j: int|
        0 <= i < m.len() && 0 <= j < m.len() && i != j ==> (#[trigger] m[i]).0 != (#[trigger]
        m[j]).0
}

/// What reading gives back of a member that was written: the member itself, an object with the
/// same members, or some number for a number given by its text.
pub open spec fn reads_back(written: FieldView, read: Option<FieldView>) -> bool {
    match written {
        FieldView::Decimal(_) => read matches Some(f) && (f is Number || f is Decimal),
        FieldView::Object(t) => read matches Some(FieldView::Object(u)) && json_members(u)
            == json_members(t),
        _ => read == Some(written),
    }
}

/// Whether a member is what reading gives back of one of those that were written.
pub open spec fn is_one_of(read: (Seq<char>, FieldView), given: Seq<(Seq<char>, FieldView)>) -> bool {
    exists|i: int|
        0 <= i < given.len() && (#[trigger] given[i]).0 == read.0 && reads_back(
            given[i].1,
            Some(read.1),
        )
}

/// Whether a text that was written reads back as its members, and holds no others.
pub open spec fn holds_members(text: Seq<char>, given: Seq<(Seq<char>, FieldView)>) -> bool {
    &&& json_members(text) is Some
    &&& forall|i: int|
        0 <= i < given.len() ==> reads_back(
            (#[trigger] given[i]).1,
            member(json_members(text)->0, given[i].0, 0),
        )
    &&& forall|j: int|
        0 <= j < (json_members(text)->0).len() ==> is_one_of(
            #[trigger] (json_members(text)->0)[j],
            given,
        )
}

/// An object of flat members may be a member of another.
pub proof fn lemma_flat_object(text: Seq<char>, given: Seq<(Seq<char>, FieldView)>)
    requires
        holds_members(text, given),
        forall|i: int| 0 <= i < given.len() ==> flat((#[trigger] given[i]).1),
    ensures
        storable(FieldView::Object(text)),
{
    let m = json_members(text)->0;
    assert forall|j: int| 0 <= j < m.len() implies flat((#[trigger] m[j]).1) by {
        assert(is_one_of(m[j], given));
    }
}

/// The text of the object with given members, as `serde_json` writes it; `None` where the text of
/// a number or of a nested object does not parse as one.
pub uninterp spec fn json_written(given: Seq<(Seq<char>, FieldView)>) -> Option<Seq<char>>;

/// Calls `serde_json::to_string` on the object with the given members, each changed to a
/// `serde_json::Value`; numbers and objects that are given by their texts pass through
/// `serde_json::from_str`.
///
/// The contract says that the text depends on the members alone, that there is one where no
/// member is given by a text that has to parse, and that the text of members that are writable
/// reads back as those members. What a number that is given by its text reads back as is left
/// unsaid beyond its being a number.
#[verifier::external_body]
fn json_text(given: &Vec<(String, JsonField)>) -> (r: Option<String>)
    ensures
        match r {
            None => json_written(members(given@)) is None,
            Some(t) => json_written(members(given@)) == Some(t@),
        },
        r is None ==> exists|i: int|
            0 <= i < given@.len() && ((#[trigger] given@[i]).1 is Decimal || (given@[i].1 is Object
                && !storable(given@[i].1@))),
        r is Some && writable(members(given@)) ==> holds_members(r->0@, members(given@)),
{
    let object: serde_json::Result<Value> = given.iter().map(|(k, f)| Ok((k.clone(), match f {
        JsonField::Number(n) => (*n).into(),
        JsonField::Decimal(t) => Value::Number(serde_json::from_str(t)?),
        JsonField::Text(t) => t.as_str().into(),
        JsonField::Flag(b) => (*b).into(),
        JsonField::List(l) => l.iter().cloned().collect(),
        JsonField::Object(t) => Value::Object(serde_json::from_str(t)?),
        JsonField::Null => Value::Null,
    }))).collect();
    serde_json::to_string(&object.ok()?).ok()
}

/// The text of the object with given members; empty where it cannot be written.
pub open spec fn written_text(given: Seq<(Seq<char>, FieldView)>) -> Seq<char> {
    match json_written(given) {
        Some(t) => t,
        None => Seq::<char>::empty(),
    }
}

/// Writes an object with given members; empty where a number or a nested object that is given by
/// its text does not parse.
pub fn write_object(given: &Vec<(String, JsonField)>) -> (r: String)
    ensures
        r@ == written_text(members(given@)),
        json_written(members(given@)) is None ==> exists|i: int|
            0 <= i < given@.len() && ((#[trigger] given@[i]).1 is Decimal || (given@[i].1 is Object
                && !storable(given@[i].1@))),
        json_written(members(given@)) is Some && writable(members(given@)) ==> holds_members(
            r@,
            members(given@),
        ),
{
    match json_text(given) {
        Some(t) => t,
        None => {
            let none: String = "".to_owned();
            proof {
                reveal_strlit("");
            }
            assert(none@ =~= Seq::<char>::empty());
            none
        },
    }
}

/// The member of a given name, at or after a position.
pub open spec fn member(s: Seq<(Seq<char>, FieldView)>, key: Seq<char>, from: int) -> Option<
    FieldView,
>
    decreases s.len() - from,
{
    if from < 0 || from >= s.len() {
        None
    } else if s[from].0 == key {
        Some(s[from].1)
    } else {
        member(s, key, from + 1)
    }
}

/// A JSON object that a text was read as.
#[derive(Debug)]
pub struct JsonObject {
    members: Vec<(String, JsonField)>,
}

impl View for JsonObject {
    type V = Seq<(Seq<char>, FieldView)>;

    closed spec fn view(&self) -> Seq<(Seq<char>, FieldView)> {
        members(self.members@)
    }
}

impl JsonObject {
    /// Reads a text as a JSON object.
    pub fn parse(data: &str) -> (r: Option<JsonObject>)
        ensures
            match r {
                None => json_members(data@) is None,
                Some(o) => json_members(data@) == Some(o@),
            },
    {
        match json_object(data) {
            None => None,
            Some(m) => Some(JsonObject { members: m }),
        }
    }

    fn find(&self, key: &str) -> (r: Option<&JsonField>)
        ensures
            match r {
                None => member(self@, key@, 0) is None,
                Some(f) => member(self@, key@, 0) == Some(f@),
            },
    {
        let ghost s = self@;
        let mut i: usize = 0;
        while i < self.members.len()
            invariant
                i <= self.members.len(),
                s == members(self.members@),
                member(s, key@, 0) == member(s, key@, i as int),
            decreases self.members.len() - i,
        {
            assert(s[i as int] == (self.members@[i as int].0@, self.members@[i as int].1@));
            if text_equal(self.members[i].0.as_str(), key) {
                return Some(&self.members[i].1);
            }
            i = i + 1;
        }
        None
    }

    /// The text of a member.
    pub fn text(&self, key: &str) -> (r: Option<&String>)
        ensures
            match r {
                None => !(member(self@, key@, 0) matches Some(FieldView::Text(_))),
                Some(t) => member(self@, key@, 0) == Some(FieldView::Text(t@)),
            },
    {
        match self.find(key) {
            Some(JsonField::Text(t)) => Some(t),
            _ => None,
        }
    }

    /// The unsigned number of a member.
    pub fn number(&self, key: &str) -> (r: Option<u64>)
        ensures
            match r {
                None => !(member(self@, key@, 0) matches Some(FieldView::Number(_))),
                Some(n) => member(self@, key@, 0) == Some(FieldView::Number(n as nat)),
            },
    {
        match self.find(key) {
            Some(JsonField::Number(n)) => Some(*n),
            _ => None,
        }
    }

    /// The truth value of a member.
    pub fn flag(&self, key: &str) -> (r: Option<bool>)
        ensures
            match r {
                None => !(member(self@, key@, 0) matches Some(FieldView::Flag(_))),
                Some(b) => member(self@, key@, 0) == Some(FieldView::Flag(b)),
            },
    {
        match self.find(key) {
            Some(JsonField::Flag(b)) => Some(*b),
            _ => None,
        }
    }

    /// The text of a member that may be missing or null; `None` where it is something else.
    pub fn optional_text(&self, key: &str) -> (r: Option<Option<String>>)
        ensures
            match r {
                None => optional_text_of(self@, key@) is None,
                Some(None) => optional_text_of(self@, key@) == Some(None::<Seq<char>>),
                Some(Some(t)) => optional_text_of(self@, key@) == Some(Some(t@)),
            },
    {
        match self.find(key) {
            None => Some(None),
            Some(JsonField::Null) => Some(None),
            Some(JsonField::Text(t)) => Some(Some(t.clone())),
            _ => None,
        }
    }

    /// The object that a member holds.
    pub fn object(&self, key: &str) -> (r: Option<JsonObject>)
        ensures
            match r {
                None => object_of(self@, key@) is None,
                Some(o) => object_of(self@, key@) == Some(o@),
            },
    {
        match self.find(key) {
            Some(JsonField::Object(t)) => JsonObject::parse(t.as_str()),
            _ => None,
        }
    }

    /// How many members there are.
    pub fn count(&self) -> (r: usize)
        ensures
            r == self@.len(),
    {
        self.members.len()
    }

    /// The name of a member.
    pub fn name(&self, i: usize) -> (r: &String)
        requires
            i < self@.len(),
        ensures
            r@ == self@[i as int].0,
    {
        &self.members[i].0
    }

    /// The length of a member that is a list.
    pub fn list_len(&self, key: &str) -> (r: Option<usize>)
        ensures
            match r {
                None => !(member(self@, key@, 0) matches Some(FieldView::List(_))),
                Some(n) => member(self@, key@, 0) matches Some(FieldView::List(s)) && s.len() == n,
            },
    {
        match self.find(key) {
            Some(JsonField::List(l)) => Some(l.len()),
            _ => None,
        }
    }

    /// The texts of a list that holds nothing else, where it has the expected length.
    pub fn texts(&self, key: &str, expected: usize) -> (r: Option<Vec<String>>)
        ensures
            match r {
                None => text_list(self@, key@, expected as int) is None,
                Some(v) => text_list(self@, key@, expected as int) == Some(
                    crate::payload::strings(v@),
                ),
            },
    {
        let list: &Vec<Option<String>> = match self.find(key) {
            Some(JsonField::List(l)) => l,
            _ => {
                return None;
            },
        };
        let ghost s = list_texts(list@);
        if list.len() != expected {
            return None;
        }
        let mut out: Vec<String> = Vec::with_capacity(list.len());
        let mut i: usize = 0;
        while i < list.len()
            invariant
                i <= list.len(),
                list.len() == expected,
                s == list_texts(list@),
                member(self@, key@, 0) == Some(FieldView::List(s)),
                out.len() == i,
                forall|k: int| 0 <= k < i ==> (#[trigger] s[k]) == Some(out@[k]@),
            decreases list.len() - i,
        {
            match &list[i] {
                None => {
                    assert(s[i as int] is None);
                    return None;
                },
                Some(t) => {
                    assert(s[i as int] == Some(t@));
                    out.push(t.clone());
                },
            }
            i = i + 1;
        }
        assert(crate::payload::strings(out@) =~= all_texts(s));
        Some(out)
    }
}

/// The text of a member that may be missing or null; `None` where it is something else.
pub open spec fn optional_text_of(o: Seq<(Seq<char>, FieldView)>, key: Seq<char>) -> Option<
    Option<Seq<char>>,
> {
    match member(o, key, 0) {
        None => Some(None),
        Some(FieldView::Null) => Some(None),
        Some(FieldView::Text(t)) => Some(Some(t)),
        _ => None,
    }
}

/// The members of the object that a member holds.
pub open spec fn object_of(o: Seq<(Seq<char>, FieldView)>, key: Seq<char>) -> Option<
    Seq<(Seq<char>, FieldView)>,
> {
    match member(o, key, 0) {
        Some(FieldView::Object(t)) => json_members(t),
        _ => None,
    }
}

/// The texts of a list that holds nothing else.
pub open spec fn all_texts(s: Seq<Option<Seq<char>>>) -> Seq<Seq<char>> {
    Seq::new(s.len(), |i: int| s[i]->0)
}

/// The texts of a member that is a list of the expected length and holds texts only.
pub open spec fn text_list(o: Seq<(Seq<char>, FieldView)>, key: Seq<char>, expected: int) -> Option<
    Seq<Seq<char>>,
> {
    match member(o, key, 0) {
        Some(FieldView::List(s)) => if s.len() == expected && forall|i: int|
            0 <= i < s.len() ==> (#[trigger] s[i]) is Some {
            Some(all_texts(s))
        } else {
            None
        },
        _ => None,
    }
}

/// A list that holds given texts and nothing else.
pub open spec fn list_of(texts: Seq<Seq<char>>) -> FieldView {
    FieldView::List(Seq::new(texts.len(), |i: int| Some(texts[i])))
}

/// A list that holds given texts and nothing else.
pub fn text_field(texts: &Vec<String>) -> (r: JsonField)
    ensures
        r@ == list_of(crate::payload::strings(texts@)),
        r is List,
{
    let mut out: Vec<Option<String>> = Vec::with_capacity(texts.len());
    let mut i: usize = 0;
    while i < texts.len()
        invariant
            i <= texts.len(),
            out.len() == i,
            forall|k: int|
                0 <= k < i ==> ((#[trigger] out@[k]) matches Some(t) && t@ == texts@[k]@),
        decreases texts.len() - i,
    {
        out.push(Some(texts[i].clone()));
        i = i + 1;
    }
    assert(list_texts(out@) =~= Seq::new(
        crate::payload::strings(texts@).len(),
        |k: int| Some(crate::payload::strings(texts@)[k]),
    ));
    JsonField::List(out)
}

/// A member that reads back as a list of texts gives those texts.
pub proof fn lemma_list_reads_back(o: Seq<(Seq<char>, FieldView)>, key: Seq<char>, texts: Seq<Seq<char>>)
    requires
        member(o, key, 0) == Some(list_of(texts)),
    ensures
        text_list(o, key, texts.len() as int) == Some(texts),
{
    let s = Seq::new(texts.len(), |i: int| Some(texts[i]));
    assert(all_texts(s) =~= texts);
}

/// The text of the entry of a given name in a zip archive, as the `zip` crate reads it; `None`
/// where the bytes are no archive, have no such entry, or the entry is damaged or no text.
pub uninterp spec fn zip_text(bytes: Seq<u8>, name: Seq<char>) -> Option<Seq<char>>;

/// The archive with one entry of a given name and text, as the `zip` crate writes it with
/// deflate compression and 64-bit headers; `None` where the crate reports an error.
pub uninterp spec fn zip_archive(text: Seq<char>, name: Seq<char>) -> Option<Seq<u8>>;

/// Whether a name consists of ASCII letters, digits, dots, underscores, plus and minus signs.
pub open spec fn plain_name(name: Seq<char>) -> bool {
    name.len() > 0 && forall|i: int|
        0 <= i < name.len() ==> {
            let c = (#[trigger] name[i]) as u32;
            48 <= c <= 57 || 65 <= c <= 90 || 97 <= c <= 122 || c == 46 || c == 95 || c == 43 || c
                == 45
        }
}

/// Longest name of an archive entry.
pub const ENTRY_NAME_LIMIT: usize = 16_000;

/// Calls `zip::ZipArchive::new`, `by_name` and `read_to_string`.
///
/// The contract says that the text depends on the bytes and the name alone; what it is for given
/// bytes is left unsaid here, and said by [`zip_with_entry`] for the archives that it makes.
#[verifier::external_body]
fn zip_entry_text(bytes: &Vec<u8>, name: &str) -> (r: Option<String>)
    ensures
        match r {
            None => zip_text(bytes@, name@) is None,
            Some(t) => zip_text(bytes@, name@) == Some(t@),
        },
{
    let mut archive = zip::ZipArchive::new(Cursor::new(bytes.as_slice())).ok()?;
    let mut entry = archive.by_name(name).ok()?;
    let mut data = String::new();
    entry.read_to_string(&mut data).ok()?;
    Some(data)
}

/// Calls `zip::ZipWriter::start_file`, `write_all` and `finish` on a buffer in memory, with
/// deflate compression and 64-bit headers.
///
/// The contract says that the archive depends on the text and the name alone (the crate is built
/// without its clock feature, so every entry carries the same date), and that an archive that is
/// made holds the text under the name: reading the entry gives the text back. When no archive is
/// made is left unsaid.
#[verifier::external_body]
fn zip_with_entry(text: &str, name: &str) -> (r: Option<Vec<u8>>)
    requires
        plain_name(name@),
        name@.len() <= ENTRY_NAME_LIMIT,
    ensures
        match r {
            None => zip_archive(text@, name@) is None,
            Some(z) => zip_archive(text@, name@) == Some(z@) && zip_text(z@, name@) == Some(
                text@,
            ),
        },
{
    let mut writer = zip::ZipWriter::new(Cursor::new(Vec::new()));
    let options = zip::write::SimpleFileOptions::default()
        .compression_method(zip::CompressionMethod::Deflated)
        .large_file(true);
    writer.start_file(name, options).ok()?;
    writer.write_all(text.as_bytes()).ok()?;
    Some(writer.finish().ok()?.into_inner())
}

/// Compresses a text into an archive with one entry; empty where that fails.
pub fn compress_to_zip(json: &str, entry_name: &str) -> (r: Vec<u8>)
    requires
        plain_name(entry_name@),
        entry_name@.len() <= ENTRY_NAME_LIMIT,
    ensures
        r@ == (match zip_archive(json@, entry_name@) {
            Some(z) => z,
            None => Seq::<u8>::empty(),
        }),
        zip_archive(json@, entry_name@) is Some ==> zip_text(r@, entry_name@) == Some(json@),
{
    match zip_with_entry(json, entry_name) {
        None => Vec::new(),
        Some(z) => z,
    }
}

/// The text of an archive entry.
pub fn read_zip_text(bytes: &Vec<u8>, entry_name: &str) -> (r: Option<String>)
    ensures
        match r {
            None => zip_text(bytes@, entry_name@) is None,
            Some(t) => zip_text(bytes@, entry_name@) == Some(t@),
        },
{
    zip_entry_text(bytes, entry_name)
}

/// A part of a version, or zero where it is no number.
pub open spec fn version_number(s: Seq<char>) -> nat {
    match number_of_text(s, u64::MAX as nat) {
        Some(n) => n,
        None => 0,
    }
}

/// The position of the first dot at or after a position, or the end.
pub open spec fn dot_or_end(s: Seq<char>, from: int) -> int {
    match first_at(s, seq!['.'], from) {
        Some(i) => i,
        None => s.len() as int,
    }
}

/// Major, minor and patch number of a version; the patch number is all that follows the second
/// dot, and a part that is missing or no number counts as zero.
pub open spec fn version_numbers(s: Seq<char>) -> (nat, nat, nat) {
    let a = dot_or_end(s, 0);
    let b = if a < s.len() {
        dot_or_end(s, a + 1)
    } else {
        s.len() as int
    };
    (
        version_number(s.subrange(0, a)),
        if a < s.len() {
            version_number(s.subrange(a + 1, b))
        } else {
            0
        },
        if b < s.len() {
            version_number(s.subrange(b + 1, s.len() as int))
        } else {
            0
        },
    )
}

/// Whether one triple comes strictly before another.
pub open spec fn triple_less(a: (nat, nat, nat), b: (nat, nat, nat)) -> bool {
    a.0 < b.0 || (a.0 == b.0 && (a.1 < b.1 || (a.1 == b.1 && a.2 < b.2)))
}

/// Whether version `a` is strictly older than `b`.
pub open spec fn older(a: Seq<char>, b: Seq<char>) -> bool {
    triple_less(version_numbers(a), version_numbers(b))
}

fn number_between(chars: &Vec<char>, from: usize, to: usize) -> (r: u64)
    requires
        from <= to <= chars.len(),
    ensures
        r == version_number(chars@.subrange(from as int, to as int)),
{
    match parse_number(chars, from, to, u64::MAX) {
        Some(n) => n,
        None => 0,
    }
}

fn parse_version(text: &str) -> (r: (u64, u64, u64))
    ensures
        (r.0 as nat, r.1 as nat, r.2 as nat) == version_numbers(text@),
{
    let chars: Vec<char> = chars_of(text);
    let dot: Vec<char> = vec!['.'];
    assert(dot@ =~= seq!['.']);
    let n: usize = chars.len();
    let a: usize = match find(&chars, &dot, 0) {
        Some(i) => i,
        None => n,
    };
    let major: u64 = number_between(&chars, 0, a);
    if a == n {
        return (major, 0, 0);
    }
    let b: usize = match find(&chars, &dot, a + 1) {
        Some(i) => i,
        None => n,
    };
    let minor: u64 = number_between(&chars, a + 1, b);
    if b == n {
        return (major, minor, 0);
    }
    (major, minor, number_between(&chars, b + 1, n))
}

/// Whether version `a` is strictly older than `b`.
pub fn version_is_older(a: &str, b: &str) -> (r: bool)
    ensures
        r == older(a@, b@),
{
    let x: (u64, u64, u64) = parse_version(a);
    let y: (u64, u64, u64) = parse_version(b);
    x.0 < y.0 || (x.0 == y.0 && (x.1 < y.1 || (x.1 == y.1 && x.2 < y.2)))
}

/// Being older is a strict order: no version is older than itself, of two versions at most one
/// is older, and an older version of an older version is older.
pub proof fn law_older_is_strict(a: Seq<char>, b: Seq<char>, c: Seq<char>)
    ensures
        !older(a, a),
        !(older(a, b) && older(b, a)),
        older(a, b) && older(b, c) ==> older(a, c),
{
}

} // verus!
