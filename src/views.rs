//! What the serving API answers: entries by word, words by substring, and
//! the language lists.
use vstd::prelude::*;
use vstd::string::StringExecFns;
use crate::database::WordDb;
use crate::language::{Language, sorted_by_name};
use crate::tables::{by_length, contents_with_word, page, words_matching};
use crate::text::{join, joined, views};

verus! {

/// The payloads of every entry of language `lang` spelled `word`, as one
/// JSON array.
pub fn get_entries(db: &WordDb, lang: &str, word: &str) -> (r: String)
    requires
        db.wf(),
    ensures
        r@ == "["@ + joined(
            match db.lang(lang@) {
                None => Seq::empty(),
                Some(m) => contents_with_word(m.entries, word@),
            },
            ","@,
        ) + "]"@,
{
    let contents = db.lookup_by_word(lang, word);
    let mut words = String::new();
    words.append("[");
    let body = join(&contents, ",");
    words.append(body.as_str());
    words.append("]");
    words
}

/// The distinct words of language `lang` containing `like`, shortest first,
/// at most `limit` of them from index `offset` on.
pub fn get_entries_like(db: &WordDb, lang: &str, like: &str, limit: usize, offset: usize) -> (r: Vec<String>)
    requires
        db.wf(),
    ensures
        views(r@) == match db.lang(lang@) {
            None => Seq::empty(),
            Some(m) => page(by_length(words_matching(m.entries, like@)), limit as int, offset as int),
        },
{
    db.lookup_by_substring(lang, like, limit, offset)
}

/// The installed languages (in order of name) or the installable ones.
pub fn get_langs(db: &WordDb, installed: bool) -> (r: Vec<Language>)
    requires
        db.wf(),
    ensures
        r@ == if installed {
            db.installed_langs@
        } else {
            db.installable_langs@
        },
        installed ==> sorted_by_name(r@),
{
    let source = if installed {
        &db.installed_langs
    } else {
        &db.installable_langs
    };
    let mut langs: Vec<Language> = Vec::new();
    let mut i: usize = 0;
    while i < source.len()
        invariant
            i <= source.len(),
            langs@ == source@.take(i as int),
        decreases source.len() - i,
    {
        langs.push(source[i].cloned());
        assert(langs@ =~= source@.take(i + 1));
        i = i + 1;
    }
    assert(source@.take(i as int) =~= source@);
    langs
}

} // verus!
