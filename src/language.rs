//! Languages: the installable ones, and the registry of installed ones kept
//! in order of display name.
use vstd::prelude::*;
use std::cmp::Ordering;
use crate::text::{chars_of, lex_less, lex_lt, lemma_lex_order};
use crate::version::Version;

verus! {

broadcast use vstd::seq_lib::group_seq_properties;

/// A language: its ISO 639-2 code, its English name and, once installed,
/// the version it was installed with.
#[derive(Debug, Clone)]
pub struct Language {
    pub code: String,
    pub name: String,
    pub version: Option<Version>,
}

/// How two strings compare in code-point order.
pub open spec fn name_order(a: Seq<char>, b: Seq<char>) -> Ordering {
    if lex_lt(a, b) {
        Ordering::Less
    } else if a == b {
        Ordering::Equal
    } else {
        Ordering::Greater
    }
}

/// `langs` is the list of installable languages, in order of name, none
/// of them installed.
pub open spec fn installable(langs: Seq<Language>) -> bool {
    &&& langs.len() == 8
    &&& forall|i: int| 0 <= i < 8 ==> (#[trigger] langs[i]).version is None
    &&& langs[0].code@ == "eng"@ && langs[0].name@ == "English"@
    &&& langs[1].code@ == "fre"@ && langs[1].name@ == "French"@
    &&& langs[2].code@ == "ger"@ && langs[2].name@ == "German"@
    &&& langs[3].code@ == "ita"@ && langs[3].name@ == "Italian"@
    &&& langs[4].code@ == "pol"@ && langs[4].name@ == "Polish"@
    &&& langs[5].code@ == "por"@ && langs[5].name@ == "Portuguese"@
    &&& langs[6].code@ == "rus"@ && langs[6].name@ == "Russian"@
    &&& langs[7].code@ == "spa"@ && langs[7].name@ == "Spanish"@
}

impl Language {
    pub fn new(code: &str, name: &str) -> (r: Self)
        ensures
            r.code@ == code@,
            r.name@ == name@,
            r.version is None,
    {
        Language { code: code.to_owned(), name: name.to_owned(), version: None }
    }

    /// A language as a row of the registry records it: installed at the
    /// given version.
    pub fn from_row(code: String, name: String, major: u32, minor: u32, patch: u32) -> (r: Self)
        ensures
            r.code == code,
            r.name == name,
            r.version == Some(Version(major, minor, patch)),
    {
        Language { code, name, version: Some(Version(major, minor, patch)) }
    }

    /// A copy of this language.
    pub fn cloned(&self) -> (r: Self)
        ensures
            r == *self,
    {
        Language { code: self.code.clone(), name: self.name.clone(), version: self.version }
    }

    /// The languages that can be installed, in order of name.
    pub fn list_langs() -> (r: Vec<Self>)
        ensures
            installable(r@),
    {
        let langs = vec![
            Self::new("eng", "English"),
            Self::new("fre", "French"),
            Self::new("ger", "German"),
            Self::new("ita", "Italian"),
            Self::new("pol", "Polish"),
            Self::new("por", "Portuguese"),
            Self::new("rus", "Russian"),
            Self::new("spa", "Spanish"),
        ];
        langs
    }
}

impl PartialEq for Language {
    fn eq(&self, other: &Self) -> (r: bool)
        ensures
            r == (self.name@ == other.name@),
    {
        self.name == other.name
    }
}

impl vstd::std_specs::cmp::PartialEqSpecImpl for Language {
    open spec fn obeys_eq_spec() -> bool {
        true
    }

    open spec fn eq_spec(&self, other: &Language) -> bool {
        self.name@ == other.name@
    }
}

impl PartialOrd for Language {
    fn partial_cmp(&self, other: &Self) -> (r: Option<Ordering>)
        ensures
            r == Some(name_order(self.name@, other.name@)),
    {
        let a = chars_of(self.name.as_str());
        let b = chars_of(other.name.as_str());
        if lex_less(&a, &b) {
            Some(Ordering::Less)
        } else if self.name == other.name {
            Some(Ordering::Equal)
        } else {
            Some(Ordering::Greater)
        }
    }
}

impl vstd::std_specs::cmp::PartialOrdSpecImpl for Language {
    open spec fn obeys_partial_cmp_spec() -> bool {
        true
    }

    open spec fn partial_cmp_spec(&self, other: &Language) -> Option<Ordering> {
        Some(name_order(self.name@, other.name@))
    }
}

/// No language comes after one whose name is greater.
pub open spec fn sorted_by_name(s: Seq<Language>) -> bool {
    forall|i: int, j: int| 0 <= i < j < s.len() ==> !lex_lt(#[trigger] s[j].name@, #[trigger] s[i].name@)
}

/// No two languages share a code.
pub open spec fn codes_unique(s: Seq<Language>) -> bool {
    forall|i: int, j: int| 0 <= i < j < s.len() ==> #[trigger] s[i].code@ != #[trigger] s[j].code@
}

/// The languages whose code is not `code`, in order.
pub open spec fn without_code(s: Seq<Language>, code: Seq<char>) -> Seq<Language> {
    s.filter(|l: Language| l.code@ != code)
}

/// The index at which a language named `name` enters `rest`: before the
/// first language whose name is greater.
pub open spec fn name_insertion_point(rest: Seq<Language>, name: Seq<char>, i: int) -> int
    decreases rest.len() - i,
{
    if i < 0 || i >= rest.len() {
        rest.len() as int
    } else if lex_lt(name, rest[i].name@) {
        i
    } else {
        name_insertion_point(rest, name, i + 1)
    }
}

/// The registry `reg` with `lang` recorded: any language of the same code
/// leaves, and `lang` enters before the first language whose name is greater.
pub open spec fn stamp(reg: Seq<Language>, lang: Language) -> Seq<Language> {
    let rest = without_code(reg, lang.code@);
    rest.insert(name_insertion_point(rest, lang.name@, 0), lang)
}

/// The languages of `langs` whose code differs from `code`.
pub fn drop_code(langs: &Vec<Language>, code: &String) -> (r: Vec<Language>)
    ensures
        r@ == without_code(langs@, code@),
{
    let mut out: Vec<Language> = Vec::new();
    let mut i: usize = 0;
    while i < langs.len()
        invariant
            i <= langs.len(),
            out@ == without_code(langs@.take(i as int), code@),
        decreases langs.len() - i,
    {
        proof {
            assert(langs@.take(i + 1) =~= langs@.take(i as int).push(langs@[i as int]));
            langs@.take(i as int).lemma_filter_push(langs@[i as int], |l: Language| l.code@ != code@);
        }
        if langs[i].code != *code {
            out.push(langs[i].cloned());
        }
        i = i + 1;
    }
    assert(langs@.take(i as int) =~= langs@);
    out
}

pub(crate) proof fn lemma_without_code_keeps_order(s: Seq<Language>, code: Seq<char>)
    requires
        sorted_by_name(s),
        codes_unique(s),
    ensures
        sorted_by_name(without_code(s, code)),
        codes_unique(without_code(s, code)),
        forall|l: Language| without_code(s, code).contains(l) <==> s.contains(l) && l.code@ != code,
    decreases s.len(),
{
    reveal(Seq::filter);
    if s.len() > 0 {
        let pre = s.drop_last();
        assert(sorted_by_name(pre));
        assert(codes_unique(pre));
        lemma_without_code_keeps_order(pre, code);
        let fp = without_code(pre, code);
        assert(s =~= pre.push(s.last()));
        pre.lemma_filter_push(s.last(), |l: Language| l.code@ != code);
        assert forall|l: Language| s.contains(l) <==> pre.contains(l) || l == s.last() by {
            if s.contains(l) {
                let k = choose|k: int| 0 <= k < s.len() && s[k] == l;
                if k < s.len() - 1 {
                    assert(pre[k] == l);
                }
            }
            if pre.contains(l) {
                let k = choose|k: int| 0 <= k < pre.len() && pre[k] == l;
                assert(s[k] == l);
            }
            if l == s.last() {
                assert(s[s.len() - 1] == l);
            }
        }
        if s.last().code@ != code {
            let f = without_code(s, code);
            assert(f == fp.push(s.last()));
            assert forall|i: int, j: int| 0 <= i < j < f.len() implies !lex_lt(
                #[trigger] f[j].name@,
                #[trigger] f[i].name@,
            ) by {
                if j == f.len() - 1 {
                    assert(fp.contains(f[i]));
                    assert(pre.contains(f[i]));
                    let k = choose|k: int| 0 <= k < pre.len() && pre[k] == f[i];
                    assert(s[k] == f[i]);
                    assert(s[s.len() - 1] == s.last());
                }
            }
            assert forall|i: int, j: int| 0 <= i < j < f.len() implies #[trigger] f[i].code@
                != #[trigger] f[j].code@ by {
                if j == f.len() - 1 {
                    assert(fp.contains(f[i]));
                    assert(pre.contains(f[i]));
                    let k = choose|k: int| 0 <= k < pre.len() && pre[k] == f[i];
                    assert(s[k] == f[i]);
                    assert(s[s.len() - 1] == s.last());
                }
            }
        }
    }
}

/// The registry `langs` with `lang` recorded: any language of the same code
/// leaves, and `lang` takes its place in order of name.
pub fn stamped(langs: &Vec<Language>, lang: Language) -> (r: Vec<Language>)
    requires
        sorted_by_name(langs@),
        codes_unique(langs@),
    ensures
        r@ == stamp(langs@, lang),
        sorted_by_name(r@),
        codes_unique(r@),
{
    let mut rest = drop_code(langs, &lang.code);
    proof {
        lemma_without_code_keeps_order(langs@, lang.code@);
    }
    let ghost rest0 = rest@;
    let target = chars_of(lang.name.as_str());
    let mut p: usize = 0;
    let mut found = false;
    while p < rest.len() && !found
        invariant
            rest@ == rest0,
            p <= rest.len(),
            target@ == lang.name@,
            forall|i: int| 0 <= i < p ==> !lex_lt(lang.name@, #[trigger] rest@[i].name@),
            found ==> p < rest.len() && lex_lt(lang.name@, rest@[p as int].name@),
            name_insertion_point(rest0, lang.name@, 0) == (if found {
                p as int
            } else {
                name_insertion_point(rest0, lang.name@, p as int)
            }),
        decreases rest.len() - p + (if found { 0int } else { 1int }),
    {
        let other = chars_of(rest[p].name.as_str());
        if lex_less(&target, &other) {
            found = true;
        } else {
            p = p + 1;
        }
    }
    proof {
        assert forall|i: int| p <= i < rest0.len() implies lex_lt(lang.name@, #[trigger] rest0[i].name@) by {
            lemma_lex_order(lang.name@, rest0[p as int].name@, rest0[i].name@);
            lemma_lex_order(rest0[p as int].name@, rest0[i].name@, rest0[i].name@);
            lemma_lex_order(rest0[i].name@, rest0[p as int].name@, rest0[i].name@);
        }
    }
    rest.insert(p, lang);
    proof {
        let r = rest@;
        assert(r =~= rest0.insert(p as int, lang));
        assert forall|i: int, j: int| 0 <= i < j < r.len() implies !lex_lt(
            #[trigger] r[j].name@,
            #[trigger] r[i].name@,
        ) by {
            if i < p && j == p {
                lemma_lex_order(lang.name@, rest0[i].name@, rest0[i].name@);
                lemma_lex_order(rest0[i].name@, lang.name@, rest0[i].name@);
            } else if i == p {
                lemma_lex_order(rest0[j - 1].name@, lang.name@, rest0[j - 1].name@);
                lemma_lex_order(lang.name@, rest0[j - 1].name@, lang.name@);
            } else if i < p && j > p {
                assert(r[j] == rest0[j - 1]);
            } else if i > p {
                assert(r[i] == rest0[i - 1]);
                assert(r[j] == rest0[j - 1]);
            }
        }
        assert forall|i: int, j: int| 0 <= i < j < r.len() implies #[trigger] r[i].code@
            != #[trigger] r[j].code@ by {
            if i == p {
                assert(without_code(langs@, lang.code@).contains(r[j]));
            } else if j == p {
                assert(without_code(langs@, lang.code@).contains(r[i]));
            } else if i < p && j > p {
                assert(r[j] == rest0[j - 1]);
            } else if i > p {
                assert(r[i] == rest0[i - 1]);
                assert(r[j] == rest0[j - 1]);
            }
        }
    }
    rest
}

/// The registry after the rows `rows` are recorded in order.
pub open spec fn registry(rows: Seq<Language>) -> Seq<Language>
    decreases rows.len(),
{
    if rows.len() == 0 {
        rows
    } else {
        stamp(registry(rows.drop_last()), rows.last())
    }
}

/// Every row of `langs` recorded in order, starting from an empty registry.
pub fn registry_of(langs: Vec<Language>) -> (r: Vec<Language>)
    ensures
        r@ == registry(langs@),
        sorted_by_name(r@),
        codes_unique(r@),
{
    let mut out: Vec<Language> = Vec::new();
    let mut i: usize = 0;
    while i < langs.len()
        invariant
            i <= langs.len(),
            out@ == registry(langs@.take(i as int)),
            sorted_by_name(out@),
            codes_unique(out@),
        decreases langs.len() - i,
    {
        assert(langs@.take(i + 1).drop_last() =~= langs@.take(i as int));
        out = stamped(&out, langs[i].cloned());
        i = i + 1;
    }
    assert(langs@.take(i as int) =~= langs@);
    out
}

} // verus!
