use inflectived::database::{DbError, WordDb};
use inflectived::entry::{Form, MalformedRecord, WiktionaryEntries, WiktionaryEntry};
use inflectived::language::Language;
use inflectived::tables::extract_types;
use inflectived::version::Version;
use inflectived::views::{get_entries, get_entries_like, get_langs};
use std::cmp::Ordering;

fn lines(records: &[&str]) -> Vec<String> {
    records.iter().map(|r| r.to_string()).collect()
}

fn polish() -> Language {
    Language::new("pol", "Polish")
}

fn biec_record() -> &'static str {
    r#"{"word":"biec","pos":"verb","forms":[{"form":"biegę","tags":["first-person","singular"],"source":"Conjugation"},{"form":"biegę","tags":["imperative"],"source":"Declension"},{"form":"bieżysz","tags":["second-person"],"source":"free-text"}]}"#
}

fn row_count(db: &WordDb, code: &str) -> usize {
    db.tables(code).map(|t| t.words.len()).unwrap_or(0)
}

#[test]
fn parse_keeps_word_and_pos_verbatim() {
    let line = r#"{"word":"Biegę ","pos":"Verb","senses":[{"glosses":["x"]}]}"#;
    let e = WiktionaryEntry::parse(line).unwrap();
    assert_eq!(e.word, "Biegę ");
    assert_eq!(e.type_, "Verb");
    assert_eq!(e.unparsed_json, line);
}

#[test]
fn parse_reads_escaped_strings() {
    let e = WiktionaryEntry::parse(r#"{"word":"a\"b","pos":"noun"}"#).unwrap();
    assert_eq!(e.word, "a\"b");
}

#[test]
fn parse_rejects_missing_word() {
    let r = WiktionaryEntry::parse(r#"{"pos":"noun"}"#);
    assert_eq!(r.unwrap_err(), MalformedRecord::MissingField("word".to_string()));
}

#[test]
fn parse_rejects_missing_pos() {
    let r = WiktionaryEntry::parse(r#"{"word":"dom"}"#);
    assert_eq!(r.unwrap_err(), MalformedRecord::MissingField("pos".to_string()));
}

#[test]
fn parse_rejects_non_string_pos() {
    let r = WiktionaryEntry::parse(r#"{"word":"dom","pos":3}"#);
    assert_eq!(r.unwrap_err(), MalformedRecord::MissingField("pos".to_string()));
}

#[test]
fn parse_rejects_blank_and_non_objects() {
    assert_eq!(WiktionaryEntry::parse("").unwrap_err(), MalformedRecord::NotAnObject);
    assert_eq!(WiktionaryEntry::parse("[1,2]").unwrap_err(), MalformedRecord::NotAnObject);
    assert_eq!(WiktionaryEntry::parse(r#"{"word":"a","pos":"b"} {}"#).unwrap_err(), MalformedRecord::NotAnObject);
    assert_eq!(WiktionaryEntry::parse(r#"{"word":"a","#).unwrap_err(), MalformedRecord::NotAnObject);
}

#[test]
fn parse_data_fails_on_first_bad_line() {
    let r = WiktionaryEntries::parse_data(&lines(&[r#"{"word":"a","pos":"noun"}"#, "", r#"{"pos":"x"}"#]));
    match r {
        Err((n, fault)) => {
            assert_eq!(n, 1);
            assert_eq!(fault, MalformedRecord::NotAnObject);
        }
        Ok(_) => panic!("a blank line must fail the import"),
    }
}

#[test]
fn forms_are_decoded_on_demand() {
    let e = WiktionaryEntry::parse(biec_record()).unwrap();
    let forms = e.forms();
    assert_eq!(forms.len(), 3);
    assert_eq!(forms[0].form, "biegę");
    assert_eq!(forms[0].tags, Some(vec!["first-person".to_string(), "singular".to_string()]));
    assert_eq!(forms[2].source, Some("free-text".to_string()));
}

#[test]
fn forms_missing_or_not_a_list_give_none() {
    let e = WiktionaryEntry::parse(r#"{"word":"a","pos":"noun"}"#).unwrap();
    assert_eq!(e.forms().len(), 0);
    let e = WiktionaryEntry::parse(r#"{"word":"a","pos":"noun","forms":{"form":"b"}}"#).unwrap();
    assert_eq!(e.forms().len(), 0);
}

#[test]
fn misshapen_form_is_skipped() {
    let e = WiktionaryEntry::parse(
        r#"{"word":"a","pos":"noun","forms":[{"tags":["x"]},{"form":"b","tags":"x"},{"form":"c","source":null}]}"#,
    )
    .unwrap();
    let forms = e.forms();
    assert_eq!(forms.len(), 1);
    assert_eq!(forms[0].form, "c");
    assert_eq!(forms[0].source, None);
    assert!(Form::decode("7").is_none());
}

#[test]
fn type_extractor_yields_distinct_tags() {
    let es = WiktionaryEntries::parse_data(&lines(&[
        r#"{"word":"a","pos":"noun"}"#,
        r#"{"word":"b","pos":"noun"}"#,
        r#"{"word":"c","pos":"verb"}"#,
    ]))
    .unwrap();
    let types = extract_types(&es);
    assert_eq!(types, vec!["noun".to_string(), "verb".to_string()]);
}

#[test]
fn type_extractor_is_case_sensitive() {
    let es = WiktionaryEntries::parse_data(&lines(&[
        r#"{"word":"a","pos":"Noun"}"#,
        r#"{"word":"b","pos":"noun"}"#,
    ]))
    .unwrap();
    assert_eq!(extract_types(&es).len(), 2);
}

#[test]
fn synthesizer_bundles_senses_of_one_spelling() {
    let mut db = WordDb::new("test.db", true, vec![]);
    db.upgrade_lang(&polish(), &lines(&[biec_record()])).unwrap();
    let stub = db
        .lookup_exact("pol", &"biegę".to_string(), &"verb".to_string())
        .expect("a stub for the inflected form");
    let expected = [
        r#"{"pos":"verb","senses":["#,
        r#"{"form_of":[{"word":"biec"}],"glosses":["first-person singular"],"tags":["first-person","singular","form-of","auto-generated"]},"#,
        r#"{"form_of":[{"word":"biec"}],"glosses":["imperative"],"tags":["imperative","form-of","auto-generated"]}"#,
        r#"],"word":"biegę"}"#,
    ]
    .join("");
    assert_eq!(stub, expected);
    let value: serde_json::Value = serde_json::from_str(&stub).unwrap();
    assert_eq!(value["senses"].as_array().unwrap().len(), 2);
    assert_eq!(db.lookup_by_word("pol", "biegę").len(), 1);
    assert!(db.lookup_by_word("pol", "bieżysz").is_empty());
    assert_eq!(row_count(&db, "pol"), 2);
}

#[test]
fn existing_headword_wins_over_stub() {
    let mut db = WordDb::new("test.db", true, vec![]);
    let records = [biec_record(), r#"{"word":"biegę","pos":"verb","senses":[]}"#];
    db.upgrade_lang(&polish(), &lines(&records)).unwrap();
    assert_eq!(db.lookup_by_word("pol", "biegę"), vec![records[1].to_string()]);
    assert_eq!(row_count(&db, "pol"), 2);
}

#[test]
fn stub_text_escapes_quotes() {
    let mut db = WordDb::new("test.db", true, vec![]);
    let record = r#"{"word":"x","pos":"noun","forms":[{"form":"y\"z","tags":["a\"b"],"source":"Declension"}]}"#;
    db.upgrade_lang(&Language::new("eng", "English"), &lines(&[record])).unwrap();
    let stub = db.lookup_exact("eng", &"y\"z".to_string(), &"noun".to_string()).unwrap();
    assert_eq!(
        stub,
        r#"{"pos":"noun","senses":[{"form_of":[{"word":"x"}],"glosses":["a\"b"],"tags":["a\"b","form-of","auto-generated"]}],"word":"y\"z"}"#
    );
}

#[test]
fn form_without_tags_gets_empty_gloss() {
    let mut db = WordDb::new("test.db", true, vec![]);
    let record = r#"{"word":"x","pos":"noun","forms":[{"form":"xs","source":"Declension"}]}"#;
    db.upgrade_lang(&Language::new("eng", "English"), &lines(&[record])).unwrap();
    let stub = db.lookup_exact("eng", &"xs".to_string(), &"noun".to_string()).unwrap();
    assert_eq!(
        stub,
        r#"{"pos":"noun","senses":[{"form_of":[{"word":"x"}],"glosses":[""],"tags":["form-of","auto-generated"]}],"word":"xs"}"#
    );
}

#[test]
fn synthesizer_second_run_adds_nothing() {
    let mut db = WordDb::new("test.db", true, vec![]);
    let records = lines(&[biec_record(), r#"{"word":"iść","pos":"verb","forms":[{"form":"idę","source":"Conjugation"}]}"#]);
    db.upgrade_lang(&polish(), &records).unwrap();
    let before = row_count(&db, "pol");
    let entries = WiktionaryEntries::parse_data(&records).unwrap();
    db.generate_entries(&polish(), &entries).unwrap();
    assert_eq!(row_count(&db, "pol"), before);
    assert_eq!(before, 4);
}

#[test]
fn substring_lookup_is_shortest_first_and_paged() {
    let mut db = WordDb::new("test.db", true, vec![]);
    let records = [
        r#"{"word":"bieganie","pos":"noun"}"#,
        r#"{"word":"biegę","pos":"verb"}"#,
        r#"{"word":"biegowy","pos":"adj"}"#,
        r#"{"word":"biegę","pos":"noun"}"#,
    ];
    db.upgrade_lang(&polish(), &lines(&records)).unwrap();
    assert_eq!(db.lookup_by_substring("pol", "bieg", 2, 0), vec!["biegę".to_string(), "biegowy".to_string()]);
    assert_eq!(db.lookup_by_substring("pol", "bieg", 2, 2), vec!["bieganie".to_string()]);
    assert_eq!(db.lookup_by_substring("pol", "bieg", 10, 5), Vec::<String>::new());
    assert_eq!(db.lookup_by_substring("pol", "Bieg", 10, 0), Vec::<String>::new());
    assert_eq!(get_entries_like(&db, "pol", "owy", usize::MAX, 0), vec!["biegowy".to_string()]);
    assert_eq!(db.lookup_by_substring("eng", "bieg", 2, 0), Vec::<String>::new());
}

#[test]
fn reset_on_read_only_store_is_denied() {
    let mut db = WordDb::new("test.db", true, vec![]);
    db.upgrade_lang(&Language::new("eng", "English"), &lines(&[r#"{"word":"run","pos":"verb"}"#])).unwrap();
    db.writable = false;
    assert_eq!(db.clean_tables(&polish()), Err(DbError::PermissionDenied));
    assert_eq!(db.clean_tables(&Language::new("eng", "English")), Err(DbError::PermissionDenied));
    assert_eq!(db.lookup_by_word("eng", "run"), vec![r#"{"word":"run","pos":"verb"}"#.to_string()]);
    assert!(db.tables("pol").is_none());
    let r = db.upgrade_lang(&polish(), &lines(&[r#"{"word":"a","pos":"b"}"#]));
    assert_eq!(r, Err(DbError::PermissionDenied));
}

#[test]
fn reset_clears_only_its_language() {
    let mut db = WordDb::new("test.db", true, vec![]);
    db.upgrade_lang(&Language::new("eng", "English"), &lines(&[r#"{"word":"run","pos":"verb"}"#])).unwrap();
    db.upgrade_lang(&polish(), &lines(&[r#"{"word":"biec","pos":"verb"}"#])).unwrap();
    db.clean_tables(&polish()).unwrap();
    assert_eq!(row_count(&db, "pol"), 0);
    assert_eq!(row_count(&db, "eng"), 1);
    assert_eq!(db.installed_langs.len(), 1);
    assert_eq!(db.installed_langs[0].code, "eng");
}

#[test]
fn upgrade_reports_malformed_line() {
    let mut db = WordDb::new("test.db", true, vec![]);
    db.upgrade_lang(&polish(), &lines(&[r#"{"word":"a","pos":"b"}"#])).unwrap();
    assert_eq!(db.installed_langs.len(), 1);
    let r = db.upgrade_lang(&polish(), &lines(&[r#"{"word":"a","pos":"b"}"#, r#"{"word":"a"}"#]));
    assert_eq!(r, Err(DbError::MalformedRecord(1, MalformedRecord::MissingField("pos".to_string()))));
    assert_eq!(row_count(&db, "pol"), 0);
    assert!(db.tables("pol").is_some());
    assert!(db.installed_langs.is_empty());
}

#[test]
fn read_only_store_is_denied_before_reading_lines() {
    let mut db = WordDb::new("test.db", false, vec![]);
    let r = db.upgrade_lang(&polish(), &lines(&["", r#"{"word":"a"}"#]));
    assert_eq!(r, Err(DbError::PermissionDenied));
    assert!(db.tables("pol").is_none());
}

#[test]
fn entries_without_forms_need_no_catalog() {
    let mut db = WordDb::new("test.db", true, vec![]);
    db.clean_tables(&polish()).unwrap();
    let es = WiktionaryEntries::parse_data(&lines(&[
        r#"{"word":"dom","pos":"noun"}"#,
        r#"{"word":"biec","pos":"verb","forms":[{"form":"bieżysz","source":"free-text"}]}"#,
    ]))
    .unwrap();
    assert_eq!(db.generate_entries(&polish(), &es), Ok(()));
    assert_eq!(row_count(&db, "pol"), 0);
    let with_forms = WiktionaryEntries::parse_data(&lines(&[biec_record()])).unwrap();
    assert_eq!(db.generate_entries(&polish(), &with_forms), Err(DbError::MissingPartOfSpeech));
    assert_eq!(row_count(&db, "pol"), 0);
}

#[test]
fn insert_entry_needs_catalogued_pos() {
    let mut db = WordDb::new("test.db", true, vec![]);
    db.clean_tables(&polish()).unwrap();
    let e = WiktionaryEntry::new("dom".to_string(), "noun".to_string(), "{}".to_string());
    assert_eq!(db.insert_entry(&polish(), &e), Err(DbError::MissingPartOfSpeech));
    let es = WiktionaryEntries(vec![e.clone()]);
    assert_eq!(db.insert_entries(&polish(), &es), Err(DbError::MissingPartOfSpeech));
    db.insert_types(&polish(), &es);
    assert_eq!(db.insert_entry(&polish(), &e), Ok(()));
    assert_eq!(db.lookup_exact("pol", &"dom".to_string(), &"noun".to_string()), Some("{}".to_string()));
    assert_eq!(db.lookup_exact("pol", &"dom".to_string(), &"verb".to_string()), None);
}

#[test]
fn registry_is_sorted_by_name_and_stamped() {
    let rows = vec![
        Language::from_row("spa".to_string(), "Spanish".to_string(), 0, 1, 0),
        Language::from_row("eng".to_string(), "English".to_string(), 0, 0, 9),
        Language::from_row("ger".to_string(), "German".to_string(), 0, 1, 0),
    ];
    let mut db = WordDb::new("inflectived.db", true, rows);
    let names: Vec<String> = db.installed_langs.iter().map(|l| l.name.clone()).collect();
    assert_eq!(names, vec!["English", "German", "Spanish"]);
    db.upgrade_lang(&Language::new("eng", "English"), &lines(&[r#"{"word":"run","pos":"verb"}"#])).unwrap();
    assert_eq!(db.installed_langs.len(), 3);
    assert_eq!(db.installed_langs[0].code, "eng");
    assert_eq!(db.installed_langs[0].version, Some(Version(0, 1, 0)));
    db.upgrade_lang(&Language::new("fre", "French"), &lines(&[r#"{"word":"courir","pos":"verb"}"#])).unwrap();
    let codes: Vec<String> = get_langs(&db, true).iter().map(|l| l.code.clone()).collect();
    assert_eq!(codes, vec!["eng", "fre", "ger", "spa"]);
    assert_eq!(get_langs(&db, false).len(), 8);
}

#[test]
fn new_store_path_and_listing() {
    let db = WordDb::new("inflectived.db", true, vec![]);
    assert_eq!(db.db_path, "/usr/share/inflectived/inflectived.db");
    let listing = db.list_available();
    assert!(listing.starts_with(" - English (eng)\n - French (fre)\n"));
    assert!(listing.ends_with(" - Spanish (spa)\n"));
    assert_eq!(listing.lines().count(), 8);
}

#[test]
fn get_lang_finds_installable_only() {
    let db = WordDb::new("inflectived.db", true, vec![]);
    let pol = db.get_lang("pol").unwrap();
    assert_eq!(pol.name, "Polish");
    assert_eq!(pol.version, None);
    assert!(db.get_lang("xyz").is_none());
}

#[test]
fn get_entries_frames_a_json_array() {
    let mut db = WordDb::new("test.db", true, vec![]);
    let records = [r#"{"word":"a","pos":"noun"}"#, r#"{"word":"a","pos":"verb"}"#, r#"{"word":"b","pos":"verb"}"#];
    db.upgrade_lang(&polish(), &lines(&records)).unwrap();
    assert_eq!(get_entries(&db, "pol", "a"), format!("[{},{}]", records[0], records[1]));
    assert_eq!(get_entries(&db, "pol", "c"), "[]");
    assert_eq!(get_entries(&db, "eng", "a"), "[]");
}

#[test]
fn version_order_is_lexicographic() {
    assert_eq!(Version(1, 0, 0).partial_cmp(&Version(0, 9, 9)), Some(Ordering::Greater));
    assert_eq!(Version(0, 1, 2).partial_cmp(&Version(0, 1, 3)), Some(Ordering::Less));
    assert_eq!(Version(0, 2, 0).partial_cmp(&Version(0, 1, 7)), Some(Ordering::Greater));
    assert_eq!(Version(3, 1, 4).partial_cmp(&Version(3, 1, 4)), Some(Ordering::Equal));
    assert!(Version(0, 1, 0) < Version(0, 1, 1));
}

#[test]
fn languages_compare_by_name() {
    let a = Language::new("eng", "English");
    let b = Language::from_row("xxx".to_string(), "English".to_string(), 1, 2, 3);
    let c = Language::new("fre", "French");
    assert!(a == b);
    assert_eq!(a.partial_cmp(&c), Some(Ordering::Less));
    assert_eq!(c.partial_cmp(&a), Some(Ordering::Greater));
    assert_eq!(Language::list_langs()[4].code, "pol");
}
