//! Entries of a Wiktionary export: one record per line, kept as text and
//! decoded on demand.
use vstd::prelude::*;
use std::cmp::Ordering;
use crate::language::name_order;
use crate::text::{chars_of, lex_less, views};
use crate::json::{
    array_elements, find_member, json_elements, json_members, json_nullable_string,
    json_nullable_strings, member_of, nullable_string, nullable_strings, object_members,
    pair_views, string_field, string_member,
};

verus! {

/// An entry as plain values: its surface word, its part of speech and its
/// record text.
pub ghost struct EntryModel {
    pub word: Seq<char>,
    pub pos: Seq<char>,
    pub content: Seq<char>,
}

/// One word sense: the word as written, its part of speech (`type_`) and the
/// whole record as JSON text.
#[derive(Clone, Debug)]
pub struct WiktionaryEntry {
    pub word: String,
    pub type_: String,
    pub unparsed_json: String,
}

impl View for WiktionaryEntry {
    type V = EntryModel;

    open spec fn view(&self) -> EntryModel {
        EntryModel { word: self.word@, pos: self.type_@, content: self.unparsed_json@ }
    }
}

impl PartialEq for WiktionaryEntry {
    /// Entries are equal when their words are.
    fn eq(&self, other: &Self) -> (r: bool)
        ensures
            r == (self.word@ == other.word@),
    {
        self.word == other.word
    }
}

impl vstd::std_specs::cmp::PartialEqSpecImpl for WiktionaryEntry {
    open spec fn obeys_eq_spec() -> bool {
        true
    }

    open spec fn eq_spec(&self, other: &WiktionaryEntry) -> bool {
        self.word@ == other.word@
    }
}

impl PartialOrd for WiktionaryEntry {
    /// Entries are ordered by their words.
    fn partial_cmp(&self, other: &Self) -> (r: Option<Ordering>)
        ensures
            r == Some(name_order(self.word@, other.word@)),
    {
        if lex_less(&chars_of(self.word.as_str()), &chars_of(other.word.as_str())) {
            Some(Ordering::Less)
        } else if self.word == other.word {
            Some(Ordering::Equal)
        } else {
            Some(Ordering::Greater)
        }
    }
}

impl vstd::std_specs::cmp::PartialOrdSpecImpl for WiktionaryEntry {
    open spec fn obeys_partial_cmp_spec() -> bool {
        true
    }

    open spec fn partial_cmp_spec(&self, other: &WiktionaryEntry) -> Option<Ordering> {
        Some(name_order(self.word@, other.word@))
    }
}

/// Why a record could not be read.
#[derive(Clone, Debug, PartialEq, Eq)]
pub enum MalformedRecord {
    /// The text is not one well-formed JSON object.
    NotAnObject,
    /// The object lacks the named string member.
    MissingField(String),
}

pub open spec fn entry_views(v: Seq<WiktionaryEntry>) -> Seq<EntryModel> {
    v.map_values(|e: WiktionaryEntry| e@)
}

impl WiktionaryEntry {
    /// Reads one record: an object with a string `word` and a string `pos`.
    /// The record text is kept whole as the entry's payload.
    pub fn parse(unparsed_json: &str) -> (r: Result<Self, MalformedRecord>)
        ensures
            r is Ok <==> string_field(unparsed_json@, "word"@) is Some
                && string_field(unparsed_json@, "pos"@) is Some,
            r matches Ok(e) ==> string_field(unparsed_json@, "word"@) == Some(e.word@)
                && string_field(unparsed_json@, "pos"@) == Some(e.type_@)
                && e.unparsed_json@ == unparsed_json@,
            r matches Err(MalformedRecord::NotAnObject) ==> json_members(unparsed_json@) is None,
            r matches Err(MalformedRecord::MissingField(f)) ==> json_members(unparsed_json@) is Some
                && ((f@ == "word"@ && string_field(unparsed_json@, "word"@) is None) || (f@
                == "pos"@ && string_field(unparsed_json@, "word"@) is Some && string_field(
                unparsed_json@,
                "pos"@,
            ) is None)),
    {
        let members = match object_members(unparsed_json) {
            Some(ms) => ms,
            None => return Err(MalformedRecord::NotAnObject),
        };
        let word_key = "word".to_owned();
        let pos_key = "pos".to_owned();
        let word = match string_member(&members, &word_key) {
            Some(w) => w,
            None => return Err(MalformedRecord::MissingField(word_key)),
        };
        let type_ = match string_member(&members, &pos_key) {
            Some(p) => p,
            None => return Err(MalformedRecord::MissingField(pos_key)),
        };
        Ok(WiktionaryEntry { word, type_, unparsed_json: unparsed_json.to_owned() })
    }

    pub fn new(word: String, type_: String, unparsed_json: String) -> (r: Self)
        ensures
            r.word == word,
            r.type_ == type_,
            r.unparsed_json == unparsed_json,
    {
        WiktionaryEntry { word, type_, unparsed_json }
    }

    /// The top-level members of the record, decoded now; `None` where the
    /// payload is not an object.
    pub fn parse_json(&self) -> (r: Option<Vec<(String, String)>>)
        ensures
            r is None <==> json_members(self.unparsed_json@) is None,
            r matches Some(v) ==> json_members(self.unparsed_json@) == Some(pair_views(v@)),
    {
        object_members(self.unparsed_json.as_str())
    }

    /// The forms listed under `forms`, decoded now. A missing or non-array
    /// `forms` gives none; an element of the wrong shape is skipped.
    pub fn forms(&self) -> (r: Vec<Form>)
        ensures
            form_views(r@) == entry_forms(self.unparsed_json@),
    {
        let members = match self.parse_json() {
            Some(ms) => ms,
            None => return Vec::new(),
        };
        let forms_key = "forms".to_owned();
        let raw = match find_member(&members, &forms_key) {
            Some(raw) => raw,
            None => return Vec::new(),
        };
        let elements = match array_elements(raw.as_str()) {
            Some(es) => es,
            None => return Vec::new(),
        };
        let mut out: Vec<Form> = Vec::new();
        let mut i: usize = 0;
        while i < elements.len()
            invariant
                i <= elements.len(),
                form_views(out@) == decoded_forms(views(elements@).take(i as int)),
            decreases elements.len() - i,
        {
            let decoded = Form::decode(elements[i].as_str());
            proof {
                let pre = views(elements@).take(i as int);
                let post = views(elements@).take(i + 1);
                assert(post.drop_last() =~= pre);
            }
            match decoded {
                Some(f) => {
                    let ghost before = out@;
                    out.push(f);
                    proof {
                        assert(form_views(out@) =~= form_views(before).push(f@));
                    }
                },
                None => {},
            }
            i = i + 1;
        }
        assert(views(elements@).take(i as int) =~= views(elements@));
        out
    }
}

/// One inflected form: its spelling, its grammatical tags and the table it
/// was read from.
#[derive(Clone, Debug)]
pub struct Form {
    pub form: String,
    pub tags: Option<Vec<String>>,
    pub source: Option<String>,
}

/// A form as plain values.
pub ghost struct FormModel {
    pub form: Seq<char>,
    pub tags: Option<Seq<Seq<char>>>,
    pub source: Option<Seq<char>>,
}

impl View for Form {
    type V = FormModel;

    open spec fn view(&self) -> FormModel {
        FormModel {
            form: self.form@,
            tags: match self.tags {
                Some(t) => Some(views(t@)),
                None => None,
            },
            source: match self.source {
                Some(s) => Some(s@),
                None => None,
            },
        }
    }
}

pub open spec fn form_views(v: Seq<Form>) -> Seq<FormModel> {
    v.map_values(|f: Form| f@)
}

/// An optional member: absent reads as `null`; `None` where present but
/// of the wrong shape.
pub open spec fn optional_string(ms: Seq<(Seq<char>, Seq<char>)>, key: Seq<char>) -> Option<
    Option<Seq<char>>,
> {
    match member_of(ms, key) {
        None => Some(None),
        Some(raw) => json_nullable_string(raw),
    }
}

pub open spec fn optional_strings(ms: Seq<(Seq<char>, Seq<char>)>, key: Seq<char>) -> Option<
    Option<Seq<Seq<char>>>,
> {
    match member_of(ms, key) {
        None => Some(None),
        Some(raw) => json_nullable_strings(raw),
    }
}

/// A form read from the raw text of one element of `forms`: an object with
/// a string `form`, optional string-array `tags` and optional string
/// `source`; `None` where the element has another shape.
pub open spec fn decoded_form(raw: Seq<char>) -> Option<FormModel> {
    match json_members(raw) {
        None => None,
        Some(ms) => match (string_field(raw, "form"@), optional_strings(ms, "tags"@), optional_string(ms, "source"@)) {
            (Some(form), Some(tags), Some(source)) => Some(FormModel { form, tags, source }),
            _ => None,
        },
    }
}

/// The well-shaped forms among raw elements, in order.
pub open spec fn decoded_forms(raws: Seq<Seq<char>>) -> Seq<FormModel>
    decreases raws.len(),
{
    if raws.len() == 0 {
        Seq::empty()
    } else {
        let pre = decoded_forms(raws.drop_last());
        match decoded_form(raws.last()) {
            Some(f) => pre.push(f),
            None => pre,
        }
    }
}

/// The forms that a record lists, decoded.
pub open spec fn entry_forms(text: Seq<char>) -> Seq<FormModel> {
    match json_members(text) {
        None => Seq::empty(),
        Some(ms) => match member_of(ms, "forms"@) {
            None => Seq::empty(),
            Some(raw) => match json_elements(raw) {
                None => Seq::empty(),
                Some(es) => decoded_forms(es),
            },
        },
    }
}

impl Form {
    /// Reads one element of a `forms` array; `None` where it has the wrong
    /// shape.
    pub fn decode(raw: &str) -> (r: Option<Form>)
        ensures
            r is None <==> decoded_form(raw@) is None,
            r matches Some(f) ==> decoded_form(raw@) == Some(f@),
    {
        let members = match object_members(raw) {
            Some(ms) => ms,
            None => return None,
        };
        let form_key = "form".to_owned();
        let tags_key = "tags".to_owned();
        let source_key = "source".to_owned();
        let form = match string_member(&members, &form_key) {
            Some(f) => f,
            None => return None,
        };
        let tags = match find_member(&members, &tags_key) {
            None => None,
            Some(t) => match nullable_strings(t.as_str()) {
                Some(t) => t,
                None => return None,
            },
        };
        let source = match find_member(&members, &source_key) {
            None => None,
            Some(s) => match nullable_string(s.as_str()) {
                Some(s) => s,
                None => return None,
            },
        };
        Some(Form { form, tags, source })
    }
}

/// The entries of one import, in the order of the export.
pub struct WiktionaryEntries(pub Vec<WiktionaryEntry>);

impl View for WiktionaryEntries {
    type V = Seq<EntryModel>;

    open spec fn view(&self) -> Seq<EntryModel> {
        entry_views(self.0@)
    }
}

/// The entries that the lines of an export read as, where each is a record.
pub open spec fn parsed_records(lines: Seq<Seq<char>>) -> Seq<EntryModel> {
    lines.map_values(
        |l: Seq<char>|
            EntryModel {
                word: string_field(l, "word"@).unwrap(),
                pos: string_field(l, "pos"@).unwrap(),
                content: l,
            },
    )
}

/// Every line of `lines` reads as a record.
pub open spec fn all_records(lines: Seq<Seq<char>>) -> bool {
    forall|i: int| 0 <= i < lines.len() ==> string_field(lines[i], "word"@) is Some
        && string_field(lines[i], "pos"@) is Some
}

impl WiktionaryEntries {
    /// Reads every line of an export. The first line that is not a record
    /// fails the whole import, with its index.
    pub fn parse_data(lines: &Vec<String>) -> (r: Result<Self, (usize, MalformedRecord)>)
        ensures
            r is Ok <==> all_records(views(lines@)),
            r matches Ok(es) ==> es@ == parsed_records(views(lines@)),
            r matches Ok(es) ==> es.0.len() == lines.len() && forall|i: int|
                0 <= i < lines.len() ==> {
                    &&& string_field(lines@[i]@, "word"@) == Some(#[trigger] es.0@[i].word@)
                    &&& string_field(lines@[i]@, "pos"@) == Some(es.0@[i].type_@)
                    &&& es.0@[i].unparsed_json@ == lines@[i]@
                },
            r matches Err((n, _)) ==> n < lines.len() && !(string_field(lines@[n as int]@, "word"@) is Some
                && string_field(lines@[n as int]@, "pos"@) is Some),
    {
        let mut entries: Vec<WiktionaryEntry> = Vec::new();
        let mut i: usize = 0;
        while i < lines.len()
            invariant
                i <= lines.len(),
                entries.len() == i,
                forall|k: int| 0 <= k < i ==> {
                    &&& string_field(lines@[k]@, "word"@) == Some(#[trigger] entries@[k].word@)
                    &&& string_field(lines@[k]@, "pos"@) == Some(entries@[k].type_@)
                    &&& entries@[k].unparsed_json@ == lines@[k]@
                },
            decreases lines.len() - i,
        {
            match WiktionaryEntry::parse(lines[i].as_str()) {
                Ok(e) => entries.push(e),
                Err(fault) => {
                    proof {
                        assert(views(lines@)[i as int] == lines@[i as int]@);
                    }
                    return Err((i, fault));
                },
            }
            i = i + 1;
        }
        proof {
            assert forall|k: int| 0 <= k < lines.len() implies string_field(views(lines@)[k], "word"@) is Some
                && string_field(views(lines@)[k], "pos"@) is Some by {
                assert(views(lines@)[k] == lines@[k]@);
                assert(string_field(lines@[k]@, "word"@) == Some(entries@[k].word@));
            }
        }
        let r = WiktionaryEntries(entries);
        assert(r@ =~= parsed_records(views(lines@)));
        Ok(r)
    }

    pub fn iter(&self) -> (r: std::slice::Iter<'_, WiktionaryEntry>)
        ensures
            vstd::std_specs::iter::IteratorSpec::remaining(&r) == self.0@.as_ref(),
    {
        self.0.iter()
    }
}

} // verus!
