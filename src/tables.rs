//! The two relations of one language: the part-of-speech catalog and the
//! word rows that refer to it.
use vstd::prelude::*;
use crate::entry::{EntryModel, WiktionaryEntries};
use crate::synth::{
    add_groups, form_groups, lemma_form_groups_nonempty, has_entry, recognized_forms, runs_by_surface, sort_by_surface,
    stub_for, stub_json, synthesize, group_views,
};
use crate::entry::{form_views, FormModel};
use crate::text::{chars_of, contains_run, has_substring, views};
use vstd::hash_map::StringHashMap;
use vstd::hash_set::StringHashSet;

verus! {

broadcast use vstd::seq_lib::group_seq_properties;

/// One word row: its spelling, the catalog index of its part of speech and
/// its payload.
pub struct WordRow {
    pub word: String,
    pub type_id: usize,
    pub content: String,
}

/// The catalog and the word table of one language, with the table's index
/// from each spelling to the rows that have it.
pub struct LangTables {
    pub code: String,
    pub types: Vec<String>,
    pub words: Vec<WordRow>,
    pub index: StringHashMap<Vec<usize>>,
}

/// The tables of a language as plain values: the catalog's names, and each
/// row with its part of speech by name.
pub ghost struct TablesModel {
    pub types: Seq<Seq<char>>,
    pub entries: Seq<EntryModel>,
}

/// No value occurs twice.
pub open spec fn distinct(s: Seq<Seq<char>>) -> bool {
    forall|i: int, j: int| 0 <= i < j < s.len() ==> #[trigger] s[i] != #[trigger] s[j]
}

/// The values of `s` without repeats, each where it first occurs.
pub open spec fn distinct_values(s: Seq<Seq<char>>) -> Seq<Seq<char>>
    decreases s.len(),
{
    if s.len() == 0 {
        s
    } else {
        let pre = distinct_values(s.drop_last());
        if pre.contains(s.last()) {
            pre
        } else {
            pre.push(s.last())
        }
    }
}

/// The parts of speech of `es`, in order.
pub open spec fn parts_of_speech(es: Seq<EntryModel>) -> Seq<Seq<char>> {
    es.map_values(|e: EntryModel| e.pos)
}

/// Every entry of `es` has its part of speech in `types`.
pub open spec fn catalogued(types: Seq<Seq<char>>, es: Seq<EntryModel>) -> bool {
    forall|i: int| 0 <= i < es.len() ==> types.contains(#[trigger] es[i].pos)
}

/// Every entry of `es` that has runs of recognised forms has its part of
/// speech in `types`: the stubs it may add can be catalogued.
pub open spec fn stubs_catalogued(types: Seq<Seq<char>>, es: Seq<EntryModel>) -> bool {
    forall|i: int| 0 <= i < es.len() && form_groups(es[i].content).len() > 0 ==> types.contains(#[trigger] es[i].pos)
}

pub open spec fn row_entry(types: Seq<String>, r: WordRow) -> EntryModel {
    EntryModel { word: r.word@, pos: types[r.type_id as int]@, content: r.content@ }
}

/// Collects the distinct parts of speech of a batch, each where it first
/// occurs.
pub fn extract_types(entries: &WiktionaryEntries) -> (r: Vec<String>)
    ensures
        views(r@) == distinct_values(parts_of_speech(entries@)),
{
    let mut out: Vec<String> = Vec::new();
    add_distinct(&mut out, entries);
    out
}

/// Appends to `names` the parts of speech of `entries` that it lacks.
fn add_distinct(names: &mut Vec<String>, entries: &WiktionaryEntries)
    requires
        views(old(names)@) == distinct_values(views(old(names)@)),
    ensures
        views(final(names)@) == distinct_values(views(old(names)@) + parts_of_speech(entries@)),
{
    let ghost start = views(names@);
    let ghost ps = parts_of_speech(entries@);
    let mut i: usize = 0;
    proof {
        assert(start + ps.take(0) =~= start);
    }
    while i < entries.0.len()
        invariant
            i <= entries.0.len(),
            ps == parts_of_speech(entries@),
            ps.len() == entries.0.len(),
            views(names@) == distinct_values(start + ps.take(i as int)),
        decreases entries.0.len() - i,
    {
        let pos = &entries.0[i].type_;
        let mut found = false;
        let mut k: usize = 0;
        while k < names.len() && !found
            invariant
                k <= names.len(),
                found ==> views(names@).contains(pos@),
                !found ==> forall|m: int| 0 <= m < k ==> views(names@)[m] != pos@,
            decreases names.len() - k + (if found { 0int } else { 1int }),
        {
            if names[k] == *pos {
                found = true;
                proof {
                    assert(views(names@)[k as int] == pos@);
                }
            } else {
                k = k + 1;
            }
        }
        proof {
            let cur = start + ps.take(i as int);
            let next = start + ps.take(i + 1);
            assert(ps[i as int] == pos@);
            assert(next =~= cur.push(pos@));
            assert(next.drop_last() =~= cur);
        }
        if !found {
            let ghost before = names@;
            names.push(pos.clone());
            proof {
                assert(views(names@) =~= views(before).push(pos@));
            }
        }
        i = i + 1;
    }
    proof {
        assert(ps.take(i as int) =~= ps);
    }
}

/// The payloads of the rows spelled `word`, in row order.
pub open spec fn contents_with_word(rows: Seq<EntryModel>, word: Seq<char>) -> Seq<Seq<char>> {
    rows.filter(|e: EntryModel| e.word == word).map_values(|e: EntryModel| e.content)
}

proof fn lemma_contents_none(s: Seq<EntryModel>, w: Seq<char>)
    requires
        forall|i: int| 0 <= i < s.len() ==> (#[trigger] s[i]).word != w,
    ensures
        contents_with_word(s, w) == Seq::<Seq<char>>::empty(),
    decreases s.len(),
{
    if s.len() > 0 {
        lemma_contents_none(s.drop_last(), w);
        assert(s =~= s.drop_last().push(s.last()));
        s.drop_last().lemma_filter_push(s.last(), |e: EntryModel| e.word == w);
        assert(s[s.len() - 1] == s.last());
    } else {
        reveal(Seq::filter);
    }
}

proof fn lemma_contents_split(a: Seq<EntryModel>, b: Seq<EntryModel>, w: Seq<char>)
    ensures
        contents_with_word(a + b, w) == contents_with_word(a, w) + contents_with_word(b, w),
{
    let pred = |e: EntryModel| e.word == w;
    Seq::filter_distributes_over_add(a, b, pred);
    let f = |e: EntryModel| e.content;
    assert((a.filter(pred) + b.filter(pred)).map_values(f) =~= a.filter(pred).map_values(f) + b.filter(pred).map_values(f));
}

proof fn lemma_contents_one(e: EntryModel, w: Seq<char>)
    requires
        e.word == w,
    ensures
        contents_with_word(seq![e], w) == seq![e.content],
{
    let pred = |x: EntryModel| x.word == w;
    assert(seq![e] =~= Seq::<EntryModel>::empty().push(e));
    Seq::<EntryModel>::empty().lemma_filter_push(e, pred);
    reveal(Seq::filter);
    assert(Seq::<EntryModel>::empty().filter(pred) =~= Seq::<EntryModel>::empty());
    assert(seq![e].filter(pred).map_values(|x: EntryModel| x.content) =~= seq![e.content]);
}

/// The distinct spellings that contain `pattern`, each where it first
/// occurs in row order.
pub open spec fn words_matching(rows: Seq<EntryModel>, pattern: Seq<char>) -> Seq<Seq<char>> {
    distinct_values(
        rows.filter(|e: EntryModel| has_substring(e.word, pattern)).map_values(|e: EntryModel| e.word),
    )
}

/// The words of `ws` of length `n`, in order.
pub open spec fn of_length(ws: Seq<Seq<char>>, n: int) -> Seq<Seq<char>> {
    ws.filter(|w: Seq<char>| w.len() == n)
}

/// The words of `ws` of length at most `n`, shortest first; words of equal
/// length keep their order.
pub open spec fn by_length_upto(ws: Seq<Seq<char>>, n: int) -> Seq<Seq<char>>
    decreases n,
{
    if n <= 0 {
        of_length(ws, 0)
    } else {
        by_length_upto(ws, n - 1) + of_length(ws, n)
    }
}

/// The length of the longest word of `ws`.
pub open spec fn longest(ws: Seq<Seq<char>>) -> int
    decreases ws.len(),
{
    if ws.len() == 0 {
        0
    } else if longest(ws.drop_last()) < ws.last().len() {
        ws.last().len() as int
    } else {
        longest(ws.drop_last())
    }
}

/// `ws` shortest first; words of equal length keep their order.
pub open spec fn by_length(ws: Seq<Seq<char>>) -> Seq<Seq<char>> {
    by_length_upto(ws, longest(ws))
}

/// At most `limit` items of `s`, starting at index `offset`.
pub open spec fn page(s: Seq<Seq<char>>, limit: int, offset: int) -> Seq<Seq<char>> {
    let start = if offset < s.len() { offset } else { s.len() as int };
    let end = if limit > s.len() - start { s.len() as int } else { start + limit };
    s.subrange(start, end)
}

/// A copy of a list of row indices.
fn copy_indices(v: &Vec<usize>) -> (r: Vec<usize>)
    ensures
        r@ == v@,
{
    let mut out: Vec<usize> = Vec::new();
    let mut i: usize = 0;
    while i < v.len()
        invariant
            i <= v.len(),
            out@ == v@.take(i as int),
        decreases v.len() - i,
    {
        out.push(v[i]);
        assert(out@ =~= v@.take(i + 1));
        i = i + 1;
    }
    assert(v@.take(i as int) =~= v@);
    out
}

/// The words of `ws` of length `n`, in order.
fn words_of_length(ws: &Vec<String>, lens: &Vec<usize>, n: usize, out: &mut Vec<String>)
    requires
        lens.len() == ws.len(),
        forall|k: int| 0 <= k < ws.len() ==> lens@[k] == (#[trigger] ws@[k])@.len(),
    ensures
        views(final(out)@) == views(old(out)@) + of_length(views(ws@), n as int),
{
    let ghost start = views(out@);
    let mut k: usize = 0;
    while k < ws.len()
        invariant
            k <= ws.len(),
            lens.len() == ws.len(),
            forall|m: int| 0 <= m < ws.len() ==> lens@[m] == (#[trigger] ws@[m])@.len(),
            views(out@) == start + of_length(views(ws@).take(k as int), n as int),
        decreases ws.len() - k,
    {
        proof {
            assert(views(ws@).take(k + 1) =~= views(ws@).take(k as int).push(ws@[k as int]@));
            views(ws@).take(k as int).lemma_filter_push(ws@[k as int]@, |w: Seq<char>| w.len() == n as int);
        }
        if lens[k] == n {
            let ghost before = out@;
            out.push(ws[k].clone());
            proof {
                assert(views(out@) =~= views(before).push(ws@[k as int]@));
            }
        }
        k = k + 1;
    }
    assert(views(ws@).take(k as int) =~= views(ws@));
}

/// `ws` shortest first; words of equal length keep their order.
fn shortest_first(ws: &Vec<String>) -> (r: Vec<String>)
    ensures
        views(r@) == by_length(views(ws@)),
{
    let mut lens: Vec<usize> = Vec::new();
    let mut longest_len: usize = 0;
    let mut k: usize = 0;
    while k < ws.len()
        invariant
            k <= ws.len(),
            lens.len() == k,
            forall|m: int| 0 <= m < k ==> lens@[m] == (#[trigger] ws@[m])@.len(),
            longest_len == longest(views(ws@).take(k as int)),
        decreases ws.len() - k,
    {
        let n = chars_of(ws[k].as_str()).len();
        proof {
            assert(views(ws@).take(k + 1).drop_last() =~= views(ws@).take(k as int));
        }
        lens.push(n);
        if longest_len < n {
            longest_len = n;
        }
        k = k + 1;
    }
    assert(views(ws@).take(k as int) =~= views(ws@));
    let mut out: Vec<String> = Vec::new();
    words_of_length(ws, &lens, 0, &mut out);
    assert(views(out@) =~= by_length_upto(views(ws@), 0));
    let mut n: usize = 0;
    while n < longest_len
        invariant
            n <= longest_len,
            longest_len == longest(views(ws@)),
            lens.len() == ws.len(),
            forall|m: int| 0 <= m < ws.len() ==> lens@[m] == (#[trigger] ws@[m])@.len(),
            views(out@) == by_length_upto(views(ws@), n as int),
        decreases longest_len - n,
    {
        n = n + 1;
        words_of_length(ws, &lens, n, &mut out);
    }
    out
}

impl LangTables {
    /// Catalog names are unique, every row refers to a catalog entry, and
    /// the index lists each row under its spelling and nothing else.
    pub open spec fn wf(&self) -> bool {
        &&& distinct(views(self.types@))
        &&& forall|i: int| 0 <= i < self.words.len() ==> (#[trigger] self.words@[i]).type_id < self.types.len()
        &&& self.index_wf()
    }

    pub open spec fn index_wf(&self) -> bool {
        &&& forall|w: Seq<char>, k: int|
            #![trigger self.index@[w]@[k]]
            self.index@.contains_key(w) && 0 <= k < self.index@[w].len() ==> self.index@[w]@[k]
                < self.words.len() && self.words@[self.index@[w]@[k] as int].word@ == w
        &&& forall|i: int|
            0 <= i < self.words.len() ==> self.index@.contains_key((#[trigger] self.words@[i]).word@)
                && self.index@[self.words@[i].word@]@.contains(i as usize)
        &&& forall|w: Seq<char>, a: int, b: int|
            #![trigger self.index@[w]@[a], self.index@[w]@[b]]
            self.index@.contains_key(w) && 0 <= a < b < self.index@[w].len() ==> self.index@[w]@[a]
                < self.index@[w]@[b]
    }

    pub open spec fn entries(&self) -> Seq<EntryModel> {
        self.words@.map_values(|r: WordRow| row_entry(self.types@, r))
    }

    pub open spec fn model(&self) -> TablesModel {
        TablesModel { types: views(self.types@), entries: self.entries() }
    }

    /// Fresh, empty tables for a language.
    pub fn empty(code: String) -> (r: Self)
        ensures
            r.code == code,
            r.wf(),
            r.model() == (TablesModel { types: Seq::empty(), entries: Seq::empty() }),
    {
        let r = LangTables { code, types: Vec::new(), words: Vec::new(), index: StringHashMap::new() };
        assert(r.model().types =~= Seq::<Seq<char>>::empty());
        assert(r.model().entries =~= Seq::<EntryModel>::empty());
        r
    }

    /// The catalog index of part of speech `name`.
    pub fn type_id(&self, name: &String) -> (r: Option<usize>)
        ensures
            r matches Some(k) ==> k < self.types.len() && self.types@[k as int]@ == name@,
            r is None ==> !views(self.types@).contains(name@),
    {
        let mut k: usize = 0;
        while k < self.types.len()
            invariant
                k <= self.types.len(),
                forall|m: int| 0 <= m < k ==> self.types@[m]@ != name@,
            decreases self.types.len() - k,
        {
            if self.types[k] == *name {
                return Some(k);
            }
            k = k + 1;
        }
        proof {
            if views(self.types@).contains(name@) {
                let m = choose|m: int| 0 <= m < views(self.types@).len() && views(self.types@)[m] == name@;
                assert(self.types@[m]@ == name@);
            }
        }
        None
    }

    /// Adds to the catalog the parts of speech of `entries` that it lacks.
    pub fn add_types(&mut self, entries: &WiktionaryEntries)
        requires
            old(self).wf(),
        ensures
            final(self).wf(),
            final(self).code == old(self).code,
            final(self).model().types == distinct_values(old(self).model().types + parts_of_speech(entries@)),
            final(self).model().entries == old(self).model().entries,
    {
        let ghost before = self.types@;
        proof {
            lemma_distinct_fixed(views(self.types@));
        }
        add_distinct(&mut self.types, entries);
        proof {
            lemma_distinct_values_distinct(views(old(self).types@) + parts_of_speech(entries@));
            lemma_distinct_values_extends(views(old(self).types@), parts_of_speech(entries@));
            assert forall|i: int| 0 <= i < self.words.len() implies (#[trigger] self.words@[i]).type_id < self.types.len() by {
                assert(old(self).words@[i].type_id < before.len());
                assert(views(before).is_prefix_of(views(self.types@)));
            }
            assert forall|i: int| 0 <= i < self.words.len() implies #[trigger] row_entry(self.types@, self.words@[i])
                == row_entry(before, self.words@[i]) by {
                let t = self.words@[i].type_id as int;
                assert(views(before).is_prefix_of(views(self.types@)));
                assert(views(before)[t] == views(self.types@)[t]);
            }
            assert(self.entries() =~= old(self).entries());
        }
    }

    /// Appends a row.
    pub fn push_row(&mut self, word: String, type_id: usize, content: String)
        requires
            old(self).wf(),
            type_id < old(self).types.len(),
        ensures
            final(self).wf(),
            final(self).code == old(self).code,
            final(self).model().types == old(self).model().types,
            final(self).model().entries == old(self).model().entries.push(EntryModel {
                word: word@,
                pos: old(self).types@[type_id as int]@,
                content: content@,
            }),
    {
        let n = self.words.len();
        let mut bucket: Vec<usize> = match self.index.get(word.as_str()) {
            Some(b) => copy_indices(b),
            None => Vec::new(),
        };
        let ghost old_bucket = bucket@;
        bucket.push(n);
        self.index.insert(word.clone(), bucket);
        self.words.push(WordRow { word, type_id, content });
        proof {
            let w = word@;
            assert forall|v: Seq<char>, k: int|
                #![trigger self.index@[v]@[k]]
                self.index@.contains_key(v) && 0 <= k < self.index@[v].len() implies self.index@[v]@[k]
                    < self.words.len() && self.words@[self.index@[v]@[k] as int].word@ == v by {
                if v == w {
                    if k < old_bucket.len() {
                        assert(self.index@[v]@[k] == old(self).index@[v]@[k]);
                    }
                } else {
                    assert(self.index@[v] == old(self).index@[v]);
                }
            }
            assert forall|v: Seq<char>, a: int, b: int|
                #![trigger self.index@[v]@[a], self.index@[v]@[b]]
                self.index@.contains_key(v) && 0 <= a < b < self.index@[v].len() implies self.index@[v]@[a]
                    < self.index@[v]@[b] by {
                if v == w {
                    if b < old_bucket.len() {
                        assert(self.index@[v]@[a] == old(self).index@[v]@[a]);
                        assert(self.index@[v]@[b] == old(self).index@[v]@[b]);
                    } else {
                        assert(self.index@[v]@[a] == old(self).index@[v]@[a]);
                        assert(old(self).index@[v]@[a] < n);
                    }
                } else {
                    assert(self.index@[v] == old(self).index@[v]);
                }
            }
            assert forall|i: int| 0 <= i < self.words.len() implies self.index@.contains_key(
                (#[trigger] self.words@[i]).word@,
            ) && self.index@[self.words@[i].word@]@.contains(i as usize) by {
                if i < n {
                    assert(self.words@[i] == old(self).words@[i]);
                    let v = self.words@[i].word@;
                    assert(old(self).index@[v]@.contains(i as usize));
                    if v == w {
                        let k = choose|k: int| 0 <= k < old(self).index@[v]@.len() && old(self).index@[v]@[k] == i as usize;
                        assert(self.index@[v]@[k] == i as usize);
                    }
                } else {
                    assert(self.index@[w]@[old_bucket.len() as int] == n);
                }
            }
        }
        assert(self.entries() =~= old(self).entries().push(EntryModel {
            word: word@,
            pos: old(self).types@[type_id as int]@,
            content: content@,
        }));
    }

    /// A row with spelling `word` and part of speech `pos`, found through the
    /// index.
    pub fn find_entry(&self, word: &String, pos: &String) -> (r: Option<usize>)
        requires
            self.wf(),
        ensures
            r is None <==> !has_entry(self.entries(), word@, pos@),
            r matches Some(i) ==> i < self.words.len() && self.entries()[i as int].word == word@
                && self.entries()[i as int].pos == pos@,
    {
        let bucket = match self.index.get(word.as_str()) {
            Some(b) => b,
            None => {
                proof {
                    if has_entry(self.entries(), word@, pos@) {
                        let i = choose|i: int| 0 <= i < self.entries().len() && (#[trigger] self.entries()[i]).word == word@ && self.entries()[i].pos == pos@;
                        assert(self.words@[i].word@ == word@);
                    }
                }
                return None;
            },
        };
        let mut k: usize = 0;
        while k < bucket.len()
            invariant
                self.wf(),
                self.index@.contains_key(word@),
                *bucket == self.index@[word@],
                k <= bucket.len(),
                forall|m: int| 0 <= m < k ==> self.entries()[(#[trigger] bucket@[m]) as int].pos != pos@,
            decreases bucket.len() - k,
        {
            let i = bucket[k];
            assert(self.index@[word@]@[k as int] == i);
            let row = &self.words[i];
            if self.types[row.type_id] == *pos {
                assert(self.entries()[i as int] == row_entry(self.types@, self.words@[i as int]));
                return Some(i);
            }
            k = k + 1;
        }
        proof {
            if has_entry(self.entries(), word@, pos@) {
                let i = choose|i: int| 0 <= i < self.entries().len() && (#[trigger] self.entries()[i]).word == word@ && self.entries()[i].pos == pos@;
                assert(self.words@[i].word@ == word@);
                assert(self.index@[word@]@.contains(i as usize));
                let m = choose|m: int| 0 <= m < bucket@.len() && bucket@[m] == i as usize;
                assert(self.entries()[bucket@[m] as int].pos != pos@);
            }
        }
        None
    }

    /// The payloads of the rows spelled `word`, in row order, found through
    /// the index.
    pub fn contents_of(&self, word: &String) -> (r: Vec<String>)
        requires
            self.wf(),
        ensures
            views(r@) == contents_with_word(self.entries(), word@),
    {
        let ghost rows = self.entries();
        let ghost w = word@;
        let mut out: Vec<String> = Vec::new();
        let bucket = match self.index.get(word.as_str()) {
            Some(b) => b,
            None => {
                proof {
                    assert forall|i: int| 0 <= i < rows.len() implies (#[trigger] rows[i]).word != w by {
                        assert(self.words@[i].word@ == rows[i].word);
                    }
                    lemma_contents_none(rows, w);
                    assert(views(out@) =~= Seq::<Seq<char>>::empty());
                }
                return out;
            },
        };
        let mut k: usize = 0;
        let mut next: usize = 0;
        proof {
            assert(rows.take(0) =~= Seq::<EntryModel>::empty());
            lemma_contents_none(rows.take(0), w);
            assert(views(out@) =~= Seq::<Seq<char>>::empty());
        }
        while k < bucket.len()
            invariant
                self.wf(),
                rows == self.entries(),
                w == word@,
                self.index@.contains_key(w),
                *bucket == self.index@[w],
                k <= bucket.len(),
                next <= self.words.len(),
                k == 0 ==> next == 0,
                k > 0 ==> next == bucket@[k - 1] + 1,
                views(out@) == contents_with_word(rows.take(next as int), w),
            decreases bucket.len() - k,
        {
            let i = bucket[k];
            proof {
                assert(self.index@[w]@[k as int] == i);
                assert(i < self.words.len());
                if k > 0 {
                    assert(self.index@[w]@[k - 1] < self.index@[w]@[k as int]);
                }
                assert forall|j: int| next <= j < i implies (#[trigger] rows[j]).word != w by {
                    if rows[j].word == w {
                        assert(self.words@[j].word@ == w);
                        assert(self.index@[w]@.contains(j as usize));
                        let m = choose|m: int| 0 <= m < bucket@.len() && bucket@[m] == j as usize;
                        if m < k {
                            if m < k - 1 {
                                assert(self.index@[w]@[m] < self.index@[w]@[k - 1]);
                            }
                        } else if m > k {
                            assert(self.index@[w]@[k as int] < self.index@[w]@[m]);
                        }
                    }
                }
                let mid = rows.subrange(next as int, i as int);
                lemma_contents_none(mid, w);
                assert(rows.take(i + 1) =~= rows.take(next as int) + mid + seq![rows[i as int]]);
                lemma_contents_split(rows.take(next as int) + mid, seq![rows[i as int]], w);
                lemma_contents_split(rows.take(next as int), mid, w);
                assert(rows[i as int].word == w);
                lemma_contents_one(rows[i as int], w);
            }
            let ghost before = out@;
            out.push(self.words[i].content.clone());
            proof {
                assert(views(out@) =~= views(before).push(rows[i as int].content));
                assert(views(before) + seq![rows[i as int].content] =~= views(before).push(rows[i as int].content));
            }
            next = i + 1;
            k = k + 1;
        }
        proof {
            assert forall|j: int| next <= j < rows.len() implies (#[trigger] rows[j]).word != w by {
                if rows[j].word == w {
                    assert(self.words@[j].word@ == w);
                    assert(self.index@[w]@.contains(j as usize));
                    let m = choose|m: int| 0 <= m < bucket@.len() && bucket@[m] == j as usize;
                    if m < k - 1 {
                        assert(self.index@[w]@[m] < self.index@[w]@[k - 1]);
                    }
                }
            }
            let tail = rows.subrange(next as int, rows.len() as int);
            lemma_contents_none(tail, w);
            assert(rows =~= rows.take(next as int) + tail);
            lemma_contents_split(rows.take(next as int), tail, w);
            assert(views(out@) + Seq::<Seq<char>>::empty() =~= views(out@));
        }
        out
    }

    /// The distinct spellings that contain `pattern`, shortest first (ties in
    /// row order), at most `limit` of them from index `offset` on.
    pub fn words_like(&self, pattern: &str, limit: usize, offset: usize) -> (r: Vec<String>)
        requires
            self.wf(),
        ensures
            views(r@) == page(by_length(words_matching(self.entries(), pattern@)), limit as int, offset as int),
    {
        let ghost rows = self.entries();
        let pat = chars_of(pattern);
        let mut found: Vec<String> = Vec::new();
        let mut seen = StringHashSet::new();
        let mut i: usize = 0;
        while i < self.words.len()
            invariant
                self.wf(),
                rows == self.entries(),
                pat@ == pattern@,
                i <= self.words.len(),
                views(found@) == words_matching(rows.take(i as int), pattern@),
                forall|x: Seq<char>| seen@.contains(x) <==> views(found@).contains(x),
            decreases self.words.len() - i,
        {
            let ghost pred = |e: EntryModel| has_substring(e.word, pattern@);
            let ghost pre = rows.take(i as int).filter(pred).map_values(|e: EntryModel| e.word);
            proof {
                assert(rows.take(i + 1) =~= rows.take(i as int).push(rows[i as int]));
                rows.take(i as int).lemma_filter_push(rows[i as int], pred);
            }
            let word = &self.words[i].word;
            if contains_run(&chars_of(word.as_str()), &pat) {
                proof {
                    let f = rows.take(i as int).filter(pred);
                    assert(f.push(rows[i as int]).map_values(|e: EntryModel| e.word) =~= pre.push(word@));
                    assert(pre.push(word@).drop_last() =~= pre);
                }
                if seen.insert(word.clone()) {
                    let ghost before = found@;
                    found.push(word.clone());
                    proof {
                        assert(views(found@) =~= views(before).push(word@));
                        assert forall|x: Seq<char>| seen@.contains(x) <==> views(found@).contains(x) by {
                            if views(before).contains(x) {
                                let m = choose|m: int| 0 <= m < views(before).len() && views(before)[m] == x;
                                assert(views(found@)[m] == x);
                            }
                            if views(found@).contains(x) && x != word@ {
                                let m = choose|m: int| 0 <= m < views(found@).len() && views(found@)[m] == x;
                                assert(views(before)[m] == x);
                            }
                            if x == word@ {
                                assert(views(found@)[views(before).len() as int] == x);
                            }
                        }
                    }
                }
            }
            i = i + 1;
        }
        assert(rows.take(i as int) =~= rows);
        let sorted = shortest_first(&found);
        let len = sorted.len();
        let start = if offset < len { offset } else { len };
        let end = if limit > len - start { len } else { start + limit };
        let mut out: Vec<String> = Vec::new();
        let mut j: usize = start;
        while j < end
            invariant
                start <= j <= end,
                end <= sorted.len(),
                views(out@) == views(sorted@).subrange(start as int, j as int),
            decreases end - j,
        {
            let ghost before = out@;
            out.push(sorted[j].clone());
            proof {
                assert(views(out@) =~= views(before).push(sorted@[j as int]@));
                assert(views(sorted@).subrange(start as int, j + 1) =~= views(sorted@).subrange(
                    start as int,
                    j as int,
                ).push(views(sorted@)[j as int]));
            }
            j = j + 1;
        }
        out
    }

    /// Whether every entry's part of speech is in the catalog.
    pub fn all_catalogued(&self, entries: &WiktionaryEntries) -> (r: bool)
        ensures
            r == catalogued(self.model().types, entries@),
    {
        let mut i: usize = 0;
        while i < entries.0.len()
            invariant
                i <= entries.0.len(),
                forall|m: int| 0 <= m < i ==> self.model().types.contains(#[trigger] entries@[m].pos),
            decreases entries.0.len() - i,
        {
            let found = self.type_id(&entries.0[i].type_);
            if found.is_none() {
                assert(!self.model().types.contains(entries@[i as int].pos));
                return false;
            }
            proof {
                let k = found.unwrap() as int;
                assert(self.model().types[k] == entries@[i as int].pos);
            }
            i = i + 1;
        }
        true
    }

    /// Whether every entry that has runs of recognised forms has its part of
    /// speech in the catalog.
    pub fn all_stubs_catalogued(&self, entries: &WiktionaryEntries) -> (r: bool)
        ensures
            r == stubs_catalogued(self.model().types, entries@),
    {
        let mut i: usize = 0;
        while i < entries.0.len()
            invariant
                i <= entries.0.len(),
                forall|m: int| 0 <= m < i && form_groups(entries@[m].content).len() > 0 ==> self.model().types.contains(#[trigger] entries@[m].pos),
            decreases entries.0.len() - i,
        {
            let e = &entries.0[i];
            let groups = runs_by_surface(sort_by_surface(recognized_forms(e.forms())));
            assert(group_views(groups@) == form_groups(entries@[i as int].content));
            if groups.len() > 0 {
                let found = self.type_id(&e.type_);
                if found.is_none() {
                    assert(!self.model().types.contains(entries@[i as int].pos));
                    return false;
                }
                proof {
                    let k = found.unwrap() as int;
                    assert(self.model().types[k] == entries@[i as int].pos);
                }
            }
            i = i + 1;
        }
        true
    }

    /// Appends a row for each entry, in order.
    pub fn add_entries(&mut self, entries: &WiktionaryEntries)
        requires
            old(self).wf(),
            catalogued(old(self).model().types, entries@),
        ensures
            final(self).wf(),
            final(self).code == old(self).code,
            final(self).model().types == old(self).model().types,
            final(self).model().entries == old(self).model().entries + entries@,
    {
        let mut i: usize = 0;
        while i < entries.0.len()
            invariant
                self.wf(),
                self.code == old(self).code,
                i <= entries.0.len(),
                self.model().types == old(self).model().types,
                catalogued(self.model().types, entries@),
                self.model().entries == old(self).model().entries + entries@.take(i as int),
            decreases entries.0.len() - i,
        {
            let e = &entries.0[i];
            assert(self.model().types.contains(entries@[i as int].pos));
            let id = self.type_id(&e.type_).unwrap();
            self.push_row(e.word.clone(), id, e.unparsed_json.clone());
            assert(entries@.take(i + 1) =~= entries@.take(i as int).push(entries@[i as int]));
            i = i + 1;
        }
        assert(entries@.take(i as int) =~= entries@);
    }

    /// Runs the synthesizer over `entries`: adds a stub for every run of
    /// recognised forms whose spelling is not yet a word of the entry's part
    /// of speech.
    pub fn add_stubs(&mut self, entries: &WiktionaryEntries)
        requires
            old(self).wf(),
            stubs_catalogued(old(self).model().types, entries@),
        ensures
            final(self).wf(),
            final(self).code == old(self).code,
            final(self).model().types == old(self).model().types,
            final(self).model().entries == synthesize(old(self).model().entries, entries@),
    {
        let mut i: usize = 0;
        while i < entries.0.len()
            invariant
                self.wf(),
                self.code == old(self).code,
                i <= entries.0.len(),
                self.model().types == old(self).model().types,
                stubs_catalogued(self.model().types, entries@),
                self.model().entries == synthesize(old(self).model().entries, entries@.take(i as int)),
            decreases entries.0.len() - i,
        {
            let e = &entries.0[i];
            let groups = runs_by_surface(sort_by_surface(recognized_forms(e.forms())));
            let ghost gs = form_groups(e@.content);
            let ghost start = self.model().entries;
            assert(group_views(groups@) == gs);
            if groups.len() > 0 {
                assert(self.model().types.contains(entries@[i as int].pos));
                let id = self.type_id(&e.type_).unwrap();
                let mut k: usize = 0;
                while k < groups.len()
                    invariant
                        self.wf(),
                        self.code == old(self).code,
                        k <= groups.len(),
                        gs == group_views(groups@),
                        gs == form_groups(e@.content),
                        id < self.types.len(),
                        self.model().types[id as int] == e.type_@,
                        self.model().types == old(self).model().types,
                        self.model().entries == add_groups(start, e@, gs.take(k as int)),
                    decreases groups.len() - k,
                {
                    let group = &groups[k];
                    assert(gs.take(k + 1).drop_last() =~= gs.take(k as int));
                    assert(gs[k as int] == form_views(group@));
                    proof {
                        lemma_form_groups_nonempty(e@.content);
                        assert(form_groups(e@.content)[k as int].len() > 0);
                    }
                    let surface = &group[0].form;
                    if self.find_entry(surface, &e.type_).is_none() {
                        let content = stub_json(surface.as_str(), e.type_.as_str(), e.word.as_str(), group);
                        self.push_row(surface.clone(), id, content);
                        assert(stub_for(e@, gs[k as int]).content == content@);
                    }
                    k = k + 1;
                }
                assert(gs.take(k as int) =~= gs);
            } else {
                assert(gs =~= Seq::<Seq<FormModel>>::empty());
            }
            assert(entries@.take(i + 1).drop_last() =~= entries@.take(i as int));
            assert(entries@.take(i + 1).last() == e@);
            i = i + 1;
        }
        assert(entries@.take(i as int) =~= entries@);
    }
}

proof fn lemma_distinct_fixed(s: Seq<Seq<char>>)
    requires
        distinct(s),
    ensures
        distinct_values(s) == s,
    decreases s.len(),
{
    if s.len() > 0 {
        lemma_distinct_fixed(s.drop_last());
        assert(!s.drop_last().contains(s.last()));
        assert(s.drop_last().push(s.last()) =~= s);
    }
}

pub(crate) proof fn lemma_distinct_values_distinct(s: Seq<Seq<char>>)
    ensures
        distinct(distinct_values(s)),
        forall|x: Seq<char>| distinct_values(s).contains(x) <==> s.contains(x),
    decreases s.len(),
{
    if s.len() > 0 {
        lemma_distinct_values_distinct(s.drop_last());
        assert(s =~= s.drop_last().push(s.last()));
        assert forall|x: Seq<char>| s.contains(x) <==> s.drop_last().contains(x) || x == s.last() by {
            if s.contains(x) {
                let k = choose|k: int| 0 <= k < s.len() && s[k] == x;
                if k < s.len() - 1 {
                    assert(s.drop_last()[k] == x);
                }
            }
            if s.drop_last().contains(x) {
                let k = choose|k: int| 0 <= k < s.drop_last().len() && s.drop_last()[k] == x;
                assert(s[k] == x);
            }
            if x == s.last() {
                assert(s[s.len() - 1] == x);
            }
        }
    }
}

proof fn lemma_distinct_values_extends(a: Seq<Seq<char>>, b: Seq<Seq<char>>)
    requires
        distinct(a),
    ensures
        a.is_prefix_of(distinct_values(a + b)),
    decreases b.len(),
{
    if b.len() == 0 {
        assert(a + b =~= a);
        lemma_distinct_fixed(a);
    } else {
        lemma_distinct_values_extends(a, b.drop_last());
        assert((a + b).drop_last() =~= a + b.drop_last());
    }
}

} // verus!
