//! The entry store: per-language tables, the registry of installed
//! languages, and the import pipeline that fills them.
use vstd::prelude::*;
use vstd::string::StringExecFns;
use crate::entry::{MalformedRecord, WiktionaryEntries, WiktionaryEntry, EntryModel, all_records, parsed_records};
use crate::json::string_field;
use crate::language::{
    Language, codes_unique, drop_code, installable, registry, registry_of, sorted_by_name, stamp, stamped,
    without_code,
};
use crate::synth::{has_entry, synthesize};
use crate::tables::{
    LangTables, TablesModel, catalogued, stubs_catalogued, contents_with_word, distinct_values, parts_of_speech,
    words_matching, by_length, page, lemma_distinct_values_distinct,
};
use crate::text::{views};
use crate::{DB_DIR, MAJOR, MINOR, PATCH};
use crate::version::Version;

verus! {

broadcast use vstd::seq_lib::group_seq_properties;

/// Why a store operation failed.
#[derive(Clone, Debug, PartialEq, Eq)]
pub enum DbError {
    /// The backing storage cannot be written.
    PermissionDenied,
    /// An entry names a part of speech that the catalog lacks.
    MissingPartOfSpeech,
    /// The line at the given index is not a record.
    MalformedRecord(usize, MalformedRecord),
}

/// No two tables belong to the same language.
pub open spec fn codes_distinct(ts: Seq<LangTables>) -> bool {
    forall|i: int, j: int| 0 <= i < j < ts.len() ==> #[trigger] ts[i].code@ != #[trigger] ts[j].code@
}

/// The tables of language `code`, if it has any.
pub open spec fn lang_of(ts: Seq<LangTables>, code: Seq<char>) -> Option<TablesModel> {
    if exists|i: int| 0 <= i < ts.len() && (#[trigger] ts[i]).code@ == code {
        Some(ts[choose|i: int| 0 <= i < ts.len() && (#[trigger] ts[i]).code@ == code].model())
    } else {
        None
    }
}

proof fn lemma_lang_at(ts: Seq<LangTables>, i: int)
    requires
        codes_distinct(ts),
        0 <= i < ts.len(),
    ensures
        lang_of(ts, ts[i].code@) == Some(ts[i].model()),
{
    let c = ts[i].code@;
    assert(ts[i].code@ == c);
    let j = choose|j: int| 0 <= j < ts.len() && (#[trigger] ts[j]).code@ == c;
    if j != i {
        if j < i {
            assert(ts[j].code@ != ts[i].code@);
        } else {
            assert(ts[i].code@ != ts[j].code@);
        }
    }
}

proof fn lemma_lang_update(ts: Seq<LangTables>, i: int, t: LangTables)
    requires
        codes_distinct(ts),
        0 <= i < ts.len(),
        t.code@ == ts[i].code@,
    ensures
        codes_distinct(ts.update(i, t)),
        lang_of(ts.update(i, t), t.code@) == Some(t.model()),
        forall|c: Seq<char>| c != t.code@ ==> lang_of(ts.update(i, t), c) == lang_of(ts, c),
{
    let u = ts.update(i, t);
    assert forall|a: int, b: int| 0 <= a < b < u.len() implies #[trigger] u[a].code@ != #[trigger] u[b].code@ by {
        assert(ts[a].code@ != ts[b].code@);
    }
    lemma_lang_at(u, i);
    assert forall|c: Seq<char>| c != t.code@ implies lang_of(u, c) == lang_of(ts, c) by {
        if exists|k: int| 0 <= k < ts.len() && (#[trigger] ts[k]).code@ == c {
            let k = choose|k: int| 0 <= k < ts.len() && (#[trigger] ts[k]).code@ == c;
            lemma_lang_at(ts, k);
            assert(u[k] == ts[k]);
            lemma_lang_at(u, k);
        } else {
            assert forall|k: int| 0 <= k < u.len() implies (#[trigger] u[k]).code@ != c by {
                if k != i {
                    assert(u[k] == ts[k]);
                }
            }
        }
    }
}

proof fn lemma_lang_push(ts: Seq<LangTables>, t: LangTables)
    requires
        codes_distinct(ts),
        forall|k: int| 0 <= k < ts.len() ==> (#[trigger] ts[k]).code@ != t.code@,
    ensures
        codes_distinct(ts.push(t)),
        lang_of(ts.push(t), t.code@) == Some(t.model()),
        forall|c: Seq<char>| c != t.code@ ==> lang_of(ts.push(t), c) == lang_of(ts, c),
{
    let u = ts.push(t);
    assert forall|a: int, b: int| 0 <= a < b < u.len() implies #[trigger] u[a].code@ != #[trigger] u[b].code@ by {
        if b == ts.len() {
            assert(u[a] == ts[a]);
        }
    }
    lemma_lang_at(u, ts.len() as int);
    assert forall|c: Seq<char>| c != t.code@ implies lang_of(u, c) == lang_of(ts, c) by {
        if exists|k: int| 0 <= k < ts.len() && (#[trigger] ts[k]).code@ == c {
            let k = choose|k: int| 0 <= k < ts.len() && (#[trigger] ts[k]).code@ == c;
            lemma_lang_at(ts, k);
            assert(u[k] == ts[k]);
            lemma_lang_at(u, k);
        } else {
            assert forall|k: int| 0 <= k < u.len() implies (#[trigger] u[k]).code@ != c by {
                if k < ts.len() {
                    assert(u[k] == ts[k]);
                }
            }
        }
    }
}

/// A database of Wiktionary entries: the tables of each installed language,
/// the registry of installed languages (in order of name) and the list of
/// installable ones.
pub struct WordDb {
    pub db_path: String,
    pub writable: bool,
    pub tables: Vec<LangTables>,
    pub installed_langs: Vec<Language>,
    pub installable_langs: Vec<Language>,
}

impl WordDb {
    /// Tables are well formed and one per language; the registry is in order
    /// of name with one row per code.
    pub open spec fn wf(&self) -> bool {
        &&& codes_distinct(self.tables@)
        &&& forall|i: int| 0 <= i < self.tables.len() ==> (#[trigger] self.tables@[i]).wf()
        &&& sorted_by_name(self.installed_langs@)
        &&& codes_unique(self.installed_langs@)
    }

    /// The tables of language `code`, if it has any.
    pub open spec fn lang(&self, code: Seq<char>) -> Option<TablesModel> {
        lang_of(self.tables@, code)
    }

    /// Whether the backing storage can be written.
    pub open spec fn writable(&self) -> bool {
        self.writable
    }

    /// Where the backing storage lives.
    pub open spec fn path(&self) -> Seq<char> {
        self.db_path@
    }

    /// A store over the database file `db_name` in `DB_DIR`, with no tables
    /// yet. `writable` tells whether that file can be written; `rows` are
    /// the registry's rows as stored.
    pub fn new(db_name: &str, writable: bool, rows: Vec<Language>) -> (r: Self)
        ensures
            r.wf(),
            r.writable() == writable,
            r.path() == DB_DIR@ + "/"@ + db_name@,
            r.installed_langs@ == registry(rows@),
            installable(r.installable_langs@),
            forall|c: Seq<char>| r.lang(c) is None,
    {
        let mut db_path = String::new();
        db_path.append(DB_DIR);
        db_path.append("/");
        db_path.append(db_name);
        let r = WordDb {
            db_path,
            writable,
            tables: Vec::new(),
            installed_langs: registry_of(rows),
            installable_langs: Language::list_langs(),
        };
        r
    }

    /// Lists the installable languages, one ` - name (code)` line each.
    pub fn list_available(&self) -> (r: String)
        ensures
            r@ == listing(self.installable_langs@),
    {
        let mut list = String::new();
        let mut i: usize = 0;
        while i < self.installable_langs.len()
            invariant
                i <= self.installable_langs.len(),
                list@ == listing(self.installable_langs@.take(i as int)),
            decreases self.installable_langs.len() - i,
        {
            let lang = &self.installable_langs[i];
            list.append(" - ");
            list.append(lang.name.as_str());
            list.append(" (");
            list.append(lang.code.as_str());
            list.append(")\n");
            proof {
                assert(self.installable_langs@.take(i + 1).drop_last() =~= self.installable_langs@.take(i as int));
            }
            i = i + 1;
        }
        assert(self.installable_langs@.take(i as int) =~= self.installable_langs@);
        list
    }

    /// The installable language with code `code`.
    pub fn get_lang(&self, code: &str) -> (r: Option<Language>)
        ensures
            r == first_with_code(self.installable_langs@, code@, 0),
    {
        let wanted = code.to_owned();
        let mut i: usize = 0;
        while i < self.installable_langs.len()
            invariant
                i <= self.installable_langs.len(),
                wanted@ == code@,
                first_with_code(self.installable_langs@, code@, 0) == first_with_code(
                    self.installable_langs@,
                    code@,
                    i as int,
                ),
            decreases self.installable_langs.len() - i,
        {
            if self.installable_langs[i].code == wanted {
                assert(first_with_code(self.installable_langs@, code@, i as int) == Some(
                    self.installable_langs@[i as int],
                ));
                return Some(self.installable_langs[i].cloned());
            }
            i = i + 1;
        }
        None
    }

    /// The index of the tables of language `code`.
    fn table_index(&self, code: &String) -> (r: Option<usize>)
        ensures
            r matches Some(i) ==> i < self.tables.len() && self.tables@[i as int].code@ == code@,
            r is None ==> forall|k: int| 0 <= k < self.tables.len() ==> (#[trigger] self.tables@[k]).code@ != code@,
    {
        let mut i: usize = 0;
        while i < self.tables.len()
            invariant
                i <= self.tables.len(),
                forall|k: int| 0 <= k < i ==> (#[trigger] self.tables@[k]).code@ != code@,
            decreases self.tables.len() - i,
        {
            if self.tables[i].code == *code {
                return Some(i);
            }
            i = i + 1;
        }
        None
    }

    /// The tables of language `code`, as stored.
    pub fn tables(&self, code: &str) -> (r: Option<&LangTables>)
        requires
            self.wf(),
        ensures
            r is None <==> self.lang(code@) is None,
            r matches Some(t) ==> t.code@ == code@ && self.lang(code@) == Some(t.model()) && t.wf(),
    {
        let code = code.to_owned();
        match self.table_index(&code) {
            Some(i) => {
                proof {
                    lemma_lang_at(self.tables@, i as int);
                }
                Some(&self.tables[i])
            },
            None => None,
        }
    }

    /// The index of the tables of a language that has them.
    fn index_of_lang(&self, code: &String) -> (r: usize)
        requires
            self.wf(),
            self.lang(code@) is Some,
        ensures
            r < self.tables.len(),
            self.tables@[r as int].code@ == code@,
            self.lang(code@) == Some(self.tables@[r as int].model()),
    {
        match self.table_index(code) {
            Some(i) => {
                proof {
                    lemma_lang_at(self.tables@, i as int);
                }
                i
            },
            None => {
                proof {
                    assert(!exists|i: int| 0 <= i < self.tables@.len() && (#[trigger] self.tables@[i]).code@ == code@);
                }
                unreached()
            },
        }
    }

    /// Takes out the tables at index `i`, to be put back with `put_table`.
    fn take_table(&mut self, i: usize) -> (r: LangTables)
        requires
            i < old(self).tables.len(),
        ensures
            r == old(self).tables@[i as int],
            final(self).tables@ == old(self).tables@.remove(i as int),
            final(self).installed_langs == old(self).installed_langs,
            final(self).installable_langs == old(self).installable_langs,
            final(self).writable == old(self).writable,
            final(self).db_path == old(self).db_path,
    {
        self.tables.remove(i)
    }

    /// Puts tables back at index `i`.
    fn put_table(&mut self, i: usize, t: LangTables)
        requires
            i <= old(self).tables.len(),
        ensures
            final(self).tables@ == old(self).tables@.insert(i as int, t),
            final(self).installed_langs == old(self).installed_langs,
            final(self).installable_langs == old(self).installable_langs,
            final(self).writable == old(self).writable,
            final(self).db_path == old(self).db_path,
    {
        self.tables.insert(i, t);
    }

    /// Adds to the catalog of `lang` the parts of speech of `entries` that it
    /// lacks, each where it first occurs.
    pub fn insert_types(&mut self, lang: &Language, entries: &WiktionaryEntries)
        requires
            old(self).wf(),
            old(self).lang(lang.code@) is Some,
        ensures
            final(self).wf(),
            final(self).lang(lang.code@) == Some(TablesModel {
                types: distinct_values(old(self).lang(lang.code@).unwrap().types + parts_of_speech(entries@)),
                entries: old(self).lang(lang.code@).unwrap().entries,
            }),
            forall|c: Seq<char>| c != lang.code@ ==> #[trigger] final(self).lang(c) == old(self).lang(c),
            final(self).installed_langs == old(self).installed_langs,
            final(self).installable_langs == old(self).installable_langs,
            final(self).writable() == old(self).writable(),
            final(self).path() == old(self).path(),
    {
        let i = self.index_of_lang(&lang.code);
        let mut t = self.take_table(i);
        t.add_types(entries);
        self.put_table(i, t);
        proof {
            assert(self.tables@ =~= old(self).tables@.update(i as int, t));
            lemma_lang_update(old(self).tables@, i as int, t);
            assert(t.model() =~= (TablesModel {
                types: distinct_values(old(self).lang(lang.code@).unwrap().types + parts_of_speech(entries@)),
                entries: old(self).lang(lang.code@).unwrap().entries,
            }));
        }
    }

    /// Inserts one row for `entry` into the tables of `lang`. Fails with
    /// `MissingPartOfSpeech`, changing nothing, where the catalog lacks the
    /// entry's part of speech.
    pub fn insert_entry(&mut self, lang: &Language, entry: &WiktionaryEntry) -> (r: Result<(), DbError>)
        requires
            old(self).wf(),
            old(self).lang(lang.code@) is Some,
        ensures
            final(self).wf(),
            r is Ok <==> old(self).lang(lang.code@).unwrap().types.contains(entry.type_@),
            r is Err ==> r == Err::<(), DbError>(DbError::MissingPartOfSpeech) && *final(self) == *old(self),
            r is Ok ==> final(self).lang(lang.code@) == Some(TablesModel {
                types: old(self).lang(lang.code@).unwrap().types,
                entries: old(self).lang(lang.code@).unwrap().entries.push(entry@),
            }),
            forall|c: Seq<char>| c != lang.code@ ==> #[trigger] final(self).lang(c) == old(self).lang(c),
            final(self).installed_langs == old(self).installed_langs,
            final(self).installable_langs == old(self).installable_langs,
            final(self).writable() == old(self).writable(),
            final(self).path() == old(self).path(),
    {
        let i = self.index_of_lang(&lang.code);
        let id = match self.tables[i].type_id(&entry.type_) {
            Some(id) => id,
            None => return Err(DbError::MissingPartOfSpeech),
        };
        let mut t = self.take_table(i);
        t.push_row(entry.word.clone(), id, entry.unparsed_json.clone());
        self.put_table(i, t);
        proof {
            assert(self.tables@ =~= old(self).tables@.update(i as int, t));
            lemma_lang_update(old(self).tables@, i as int, t);
            assert(views(old(self).tables@[i as int].types@)[id as int] == entry.type_@);
            assert(t.model() =~= (TablesModel {
                types: old(self).lang(lang.code@).unwrap().types,
                entries: old(self).lang(lang.code@).unwrap().entries.push(entry@),
            }));
        }
        Ok(())
    }

    /// Inserts one row for each of `entries`, in order, into the tables of
    /// `lang`. Fails with `MissingPartOfSpeech`, changing nothing, where the
    /// catalog lacks the part of speech of any of them.
    pub fn insert_entries(&mut self, lang: &Language, entries: &WiktionaryEntries) -> (r: Result<(), DbError>)
        requires
            old(self).wf(),
            old(self).lang(lang.code@) is Some,
        ensures
            final(self).wf(),
            r is Ok <==> catalogued(old(self).lang(lang.code@).unwrap().types, entries@),
            r is Err ==> r == Err::<(), DbError>(DbError::MissingPartOfSpeech) && *final(self) == *old(self),
            r is Ok ==> final(self).lang(lang.code@) == Some(TablesModel {
                types: old(self).lang(lang.code@).unwrap().types,
                entries: old(self).lang(lang.code@).unwrap().entries + entries@,
            }),
            forall|c: Seq<char>| c != lang.code@ ==> #[trigger] final(self).lang(c) == old(self).lang(c),
            final(self).installed_langs == old(self).installed_langs,
            final(self).installable_langs == old(self).installable_langs,
            final(self).writable() == old(self).writable(),
            final(self).path() == old(self).path(),
    {
        let i = self.index_of_lang(&lang.code);
        if !self.tables[i].all_catalogued(entries) {
            return Err(DbError::MissingPartOfSpeech);
        }
        let mut t = self.take_table(i);
        t.add_entries(entries);
        self.put_table(i, t);
        proof {
            assert(self.tables@ =~= old(self).tables@.update(i as int, t));
            lemma_lang_update(old(self).tables@, i as int, t);
            assert(t.model() =~= (TablesModel {
                types: old(self).lang(lang.code@).unwrap().types,
                entries: old(self).lang(lang.code@).unwrap().entries + entries@,
            }));
        }
        Ok(())
    }

    /// Generates the missing "form-of" entries: runs the synthesizer over
    /// `entries` against the tables of `lang`. Fails with
    /// `MissingPartOfSpeech`, changing nothing, where an entry with runs of
    /// recognised forms has a part of speech that the catalog lacks; an
    /// entry without such forms needs none.
    pub fn generate_entries(&mut self, lang: &Language, entries: &WiktionaryEntries) -> (r: Result<(), DbError>)
        requires
            old(self).wf(),
            old(self).lang(lang.code@) is Some,
        ensures
            final(self).wf(),
            r is Ok <==> stubs_catalogued(old(self).lang(lang.code@).unwrap().types, entries@),
            r is Err ==> r == Err::<(), DbError>(DbError::MissingPartOfSpeech) && *final(self) == *old(self),
            r is Ok ==> final(self).lang(lang.code@) == Some(TablesModel {
                types: old(self).lang(lang.code@).unwrap().types,
                entries: synthesize(old(self).lang(lang.code@).unwrap().entries, entries@),
            }),
            forall|c: Seq<char>| c != lang.code@ ==> #[trigger] final(self).lang(c) == old(self).lang(c),
            final(self).installed_langs == old(self).installed_langs,
            final(self).installable_langs == old(self).installable_langs,
            final(self).writable() == old(self).writable(),
            final(self).path() == old(self).path(),
    {
        let i = self.index_of_lang(&lang.code);
        if !self.tables[i].all_stubs_catalogued(entries) {
            return Err(DbError::MissingPartOfSpeech);
        }
        let mut t = self.take_table(i);
        t.add_stubs(entries);
        self.put_table(i, t);
        proof {
            assert(self.tables@ =~= old(self).tables@.update(i as int, t));
            lemma_lang_update(old(self).tables@, i as int, t);
            assert(t.model() =~= (TablesModel {
                types: old(self).lang(lang.code@).unwrap().types,
                entries: synthesize(old(self).lang(lang.code@).unwrap().entries, entries@),
            }));
        }
        Ok(())
    }

    /// Records in the registry that `lang` is installed at this build's
    /// version.
    pub fn insert_version(&mut self, lang: &Language)
        requires
            old(self).wf(),
        ensures
            final(self).wf(),
            final(self).installed_langs@ == stamp(old(self).installed_langs@, installed_at(lang, Version(MAJOR, MINOR, PATCH))),
            forall|c: Seq<char>| #[trigger] final(self).lang(c) == old(self).lang(c),
            final(self).installable_langs == old(self).installable_langs,
            final(self).writable() == old(self).writable(),
            final(self).path() == old(self).path(),
    {
        let stamp_row = Language::from_row(lang.code.clone(), lang.name.clone(), MAJOR, MINOR, PATCH);
        self.installed_langs = stamped(&self.installed_langs, stamp_row);
    }

    /// Installs or upgrades `lang` from the lines of an export: its registry
    /// row is deleted and its tables reset; then every line is read as a
    /// record, the tables are rebuilt (catalog, rows, synthesised stubs) and
    /// a registry row is stamped with this build's version. Fails with
    /// `PermissionDenied`, changing nothing, where the storage cannot be
    /// written; fails with `MalformedRecord` at the first line that is not a
    /// record, leaving the language reset and without a registry row.
    pub fn upgrade_lang(&mut self, lang: &Language, lines: &Vec<String>) -> (r: Result<(), DbError>)
        requires
            old(self).wf(),
        ensures
            final(self).wf(),
            r is Ok <==> all_records(views(lines@)) && old(self).writable(),
            r matches Err(e) ==> e is PermissionDenied || e is MalformedRecord,
            !old(self).writable() ==> r == Err::<(), DbError>(DbError::PermissionDenied) && *final(self)
                == *old(self),
            old(self).writable() && !all_records(views(lines@)) ==> {
                &&& r matches Err(DbError::MalformedRecord(_, _))
                &&& final(self).lang(lang.code@) == Some(TablesModel { types: Seq::empty(), entries: Seq::empty() })
                &&& forall|c: Seq<char>| c != lang.code@ ==> #[trigger] final(self).lang(c) == old(self).lang(c)
                &&& final(self).installed_langs@ == without_code(old(self).installed_langs@, lang.code@)
                &&& final(self).installable_langs == old(self).installable_langs
                &&& final(self).writable() == old(self).writable()
                &&& final(self).path() == old(self).path()
            },
            r matches Err(DbError::MalformedRecord(n, _)) ==> n < lines.len() && !(string_field(
                lines@[n as int]@,
                "word"@,
            ) is Some && string_field(lines@[n as int]@, "pos"@) is Some),
            r is Ok ==> {
                let es = parsed_records(views(lines@));
                &&& final(self).lang(lang.code@) == Some(TablesModel {
                    types: distinct_values(parts_of_speech(es)),
                    entries: synthesize(es, es),
                })
                &&& forall|c: Seq<char>| c != lang.code@ ==> #[trigger] final(self).lang(c) == old(self).lang(c)
                &&& final(self).installed_langs@ == stamp(
                    without_code(old(self).installed_langs@, lang.code@),
                    installed_at(lang, Version(MAJOR, MINOR, PATCH)),
                )
                &&& final(self).installable_langs == old(self).installable_langs
                &&& final(self).writable() == old(self).writable()
                &&& final(self).path() == old(self).path()
            },
    {
        match self.clean_tables(lang) {
            Ok(()) => {},
            Err(e) => return Err(e),
        }
        let entries = match WiktionaryEntries::parse_data(lines) {
            Ok(es) => es,
            Err((n, fault)) => return Err(DbError::MalformedRecord(n, fault)),
        };
        let ghost es = entries@;
        self.insert_types(lang, &entries);
        proof {
            let ps = parts_of_speech(es);
            assert(Seq::<Seq<char>>::empty() + ps =~= ps);
            lemma_distinct_values_distinct(ps);
            assert forall|i: int| 0 <= i < es.len() implies distinct_values(ps).contains(#[trigger] es[i].pos) by {
                assert(ps[i] == es[i].pos);
                assert(ps.contains(es[i].pos));
            }
        }
        match self.insert_entries(lang, &entries) {
            Ok(()) => {},
            Err(_) => {
                proof {
                    assert(false);
                }
                return Err(DbError::MissingPartOfSpeech);
            },
        }
        proof {
            assert(Seq::<EntryModel>::empty() + es =~= es);
        }
        match self.generate_entries(lang, &entries) {
            Ok(()) => {},
            Err(_) => {
                proof {
                    assert(false);
                }
                return Err(DbError::MissingPartOfSpeech);
            },
        }
        self.insert_version(lang);
        Ok(())
    }

    /// The payload of a row of `code` spelled `word` under part of speech
    /// `pos`, if there is one.
    pub fn lookup_exact(&self, code: &str, word: &String, pos: &String) -> (r: Option<String>)
        requires
            self.wf(),
        ensures
            r is Some <==> self.lang(code@) is Some && has_entry(self.lang(code@).unwrap().entries, word@, pos@),
            r matches Some(c) ==> exists|i: int|
                0 <= i < self.lang(code@).unwrap().entries.len() && #[trigger] self.lang(code@).unwrap().entries[i]
                    == (EntryModel { word: word@, pos: pos@, content: c@ }),
    {
        match self.tables(code) {
            None => None,
            Some(t) => match t.find_entry(word, pos) {
                None => None,
                Some(i) => {
                    let c = t.words[i].content.clone();
                    assert(self.lang(code@).unwrap().entries[i as int] == (EntryModel { word: word@, pos: pos@, content: c@ }));
                    Some(c)
                },
            },
        }
    }

    /// The payloads of all rows of `code` spelled `word`, across parts of
    /// speech, in row order.
    pub fn lookup_by_word(&self, code: &str, word: &str) -> (r: Vec<String>)
        requires
            self.wf(),
        ensures
            views(r@) == match self.lang(code@) {
                None => Seq::empty(),
                Some(m) => contents_with_word(m.entries, word@),
            },
    {
        match self.tables(code) {
            None => {
                let r: Vec<String> = Vec::new();
                assert(views(r@) =~= Seq::<Seq<char>>::empty());
                r
            },
            Some(t) => t.contents_of(&word.to_owned()),
        }
    }

    /// The distinct words of `code` that contain `pattern`, shortest first
    /// (ties in row order), at most `limit` of them from index `offset` on.
    pub fn lookup_by_substring(&self, code: &str, pattern: &str, limit: usize, offset: usize) -> (r: Vec<String>)
        requires
            self.wf(),
        ensures
            views(r@) == match self.lang(code@) {
                None => Seq::empty(),
                Some(m) => page(by_length(words_matching(m.entries, pattern@)), limit as int, offset as int),
            },
    {
        match self.tables(code) {
            None => {
                let r: Vec<String> = Vec::new();
                assert(views(r@) =~= Seq::<Seq<char>>::empty());
                r
            },
            Some(t) => t.words_like(pattern, limit, offset),
        }
    }

    /// Drops and recreates the tables of `lang`, and removes its registry
    /// row. Fails with `PermissionDenied`, changing nothing, where the
    /// storage cannot be written.
    pub fn clean_tables(&mut self, lang: &Language) -> (r: Result<(), DbError>)
        requires
            old(self).wf(),
        ensures
            final(self).wf(),
            !old(self).writable() ==> r == Err::<(), DbError>(DbError::PermissionDenied) && *final(self) == *old(self),
            old(self).writable() ==> r is Ok,
            r is Ok ==> {
                &&& final(self).lang(lang.code@) == Some(TablesModel { types: Seq::empty(), entries: Seq::empty() })
                &&& forall|c: Seq<char>| c != lang.code@ ==> #[trigger] final(self).lang(c) == old(self).lang(c)
                &&& final(self).installed_langs@ == without_code(old(self).installed_langs@, lang.code@)
                &&& final(self).installable_langs == old(self).installable_langs
                &&& final(self).writable() == old(self).writable()
                &&& final(self).path() == old(self).path()
            },
    {
        if !self.writable {
            return Err(DbError::PermissionDenied);
        }
        let fresh = LangTables::empty(lang.code.clone());
        match self.table_index(&lang.code) {
            Some(i) => {
                self.tables.set(i, fresh);
                proof {
                    lemma_lang_update(old(self).tables@, i as int, fresh);
                }
            },
            None => {
                self.tables.push(fresh);
                proof {
                    lemma_lang_push(old(self).tables@, fresh);
                }
            },
        }
        let rest = drop_code(&self.installed_langs, &lang.code);
        proof {
            crate::language::lemma_without_code_keeps_order(self.installed_langs@, lang.code@);
        }
        self.installed_langs = rest;
        Ok(())
    }
}

/// `lang` as its registry row reads once installed at version `v`.
pub open spec fn installed_at(lang: &Language, v: Version) -> Language {
    Language { code: lang.code, name: lang.name, version: Some(v) }
}

/// The listing of `langs`: one ` - name (code)` line each.
pub open spec fn listing(langs: Seq<Language>) -> Seq<char>
    decreases langs.len(),
{
    if langs.len() == 0 {
        Seq::empty()
    } else {
        listing(langs.drop_last()) + " - "@ + langs.last().name@ + " ("@ + langs.last().code@ + ")\n"@
    }
}

/// The first language of `langs` from index `i` on with code `code`.
pub open spec fn first_with_code(langs: Seq<Language>, code: Seq<char>, i: int) -> Option<Language>
    decreases langs.len() - i,
{
    if i < 0 || i >= langs.len() {
        None
    } else if langs[i].code@ == code {
        Some(langs[i])
    } else {
        first_with_code(langs, code, i + 1)
    }
}

} // verus!
