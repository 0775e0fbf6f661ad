//! Inflection synthesis: from the forms that an entry lists, the stub
//! entries that make each inflected spelling a word of its own.
//!
//! The forms of an entry are filtered down to those read from a declension
//! or conjugation table, sorted by spelling (stably), and cut into runs of
//! equal spelling. Each run becomes one candidate stub, with one sense per
//! form of the run.
use vstd::prelude::*;
use vstd::string::StringExecFns;
use crate::entry::{Form, FormModel, form_views, entry_forms, EntryModel};
use crate::json::{json_quoted, push_quoted};
use crate::text::{chars_of, lex_less, lex_lt, join, joined, views};

verus! {

broadcast use vstd::seq_lib::group_seq_properties;

/// Forms read from a declension or conjugation table.
pub open spec fn recognized(f: FormModel) -> bool {
    f.source == Some("Declension"@) || f.source == Some("Conjugation"@)
}

/// The index at which a form spelled `key` enters `v`: after every form
/// whose spelling is not greater, so that equal spellings keep their order.
pub open spec fn insertion_point(v: Seq<FormModel>, key: Seq<char>, i: int) -> int
    decreases v.len() - i,
{
    if i < 0 || i >= v.len() {
        v.len() as int
    } else if lex_lt(key, v[i].form) {
        i
    } else {
        insertion_point(v, key, i + 1)
    }
}

/// `v` sorted by spelling, stably.
pub open spec fn sorted_by_surface(v: Seq<FormModel>) -> Seq<FormModel>
    decreases v.len(),
{
    if v.len() == 0 {
        v
    } else {
        let pre = sorted_by_surface(v.drop_last());
        pre.insert(insertion_point(pre, v.last().form, 0), v.last())
    }
}

/// `v` cut into maximal runs of neighbours with equal spelling.
pub open spec fn surface_runs(v: Seq<FormModel>) -> Seq<Seq<FormModel>>
    decreases v.len(),
{
    if v.len() == 0 {
        Seq::empty()
    } else {
        let pre = surface_runs(v.drop_last());
        if pre.len() > 0 && pre.last().len() > 0 && pre.last().last().form == v.last().form {
            pre.update(pre.len() - 1, pre.last().push(v.last()))
        } else {
            pre.push(seq![v.last()])
        }
    }
}

/// The runs of recognised forms that a record lists, in order of spelling.
pub open spec fn form_groups(text: Seq<char>) -> Seq<Seq<FormModel>> {
    surface_runs(sorted_by_surface(entry_forms(text).filter(|f: FormModel| recognized(f))))
}

/// The tags of a form, or none.
pub open spec fn form_tags(f: FormModel) -> Seq<Seq<char>> {
    match f.tags {
        Some(t) => t,
        None => Seq::empty(),
    }
}

/// The tags of a synthesised sense: the form's own, then `form-of` and
/// `auto-generated`.
pub open spec fn sense_tags(f: FormModel) -> Seq<Seq<char>> {
    form_tags(f) + seq!["form-of"@, "auto-generated"@]
}

/// The gloss of a synthesised sense: the form's tags joined by spaces.
pub open spec fn sense_gloss(f: FormModel) -> Seq<char> {
    joined(form_tags(f), " "@)
}

/// The JSON text of the sense that `f`, a form of `word`, contributes.
pub open spec fn sense_text(word: Seq<char>, f: FormModel) -> Seq<char> {
    "{\"form_of\":[{\"word\":"@ + json_quoted(word) + "}],\"glosses\":["@ + json_quoted(
        sense_gloss(f),
    ) + "],\"tags\":["@ + joined(sense_tags(f).map_values(|t: Seq<char>| json_quoted(t)), ","@)
        + "]}"@
}

/// The JSON payload of the stub for spelling `surface` under part of speech
/// `pos`, with one sense for each form of `group`, all forms of `word`.
pub open spec fn stub_content(
    surface: Seq<char>,
    pos: Seq<char>,
    word: Seq<char>,
    group: Seq<FormModel>,
) -> Seq<char> {
    "{\"pos\":"@ + json_quoted(pos) + ",\"senses\":["@ + joined(
        group.map_values(|f: FormModel| sense_text(word, f)),
        ","@,
    ) + "],\"word\":"@ + json_quoted(surface) + "}"@
}

/// Whether `f` was read from a declension or conjugation table.
pub fn is_recognized(f: &Form) -> (r: bool)
    ensures
        r == recognized(f@),
{
    match &f.source {
        Some(s) => *s == "Declension".to_owned() || *s == "Conjugation".to_owned(),
        None => false,
    }
}

/// The forms of `forms` read from a declension or conjugation table, in
/// order.
pub fn recognized_forms(forms: Vec<Form>) -> (r: Vec<Form>)
    ensures
        form_views(r@) == form_views(forms@).filter(|f: FormModel| recognized(f)),
{
    let ghost all = form_views(forms@);
    let mut rest = forms;
    let mut out: Vec<Form> = Vec::new();
    let ghost n: int = all.len() as int;
    while rest.len() > 0
        invariant
            form_views(rest@) == all.skip(n - rest.len()),
            n == all.len(),
            rest.len() <= n,
            form_views(out@) == all.take(n - rest.len()).filter(|f: FormModel| recognized(f)),
        decreases rest.len(),
    {
        let ghost i: int = n - rest.len();
        let f = rest.remove(0);
        proof {
            assert(all.take(i + 1) =~= all.take(i).push(all[i]));
            assert(all[i] == f@) by {
                assert(all.skip(i)[0] == all[i]);
            }
            all.take(i).lemma_filter_push(all[i], |f: FormModel| recognized(f));
            assert(form_views(rest@) =~= all.skip(n - rest.len()));
        }
        if is_recognized(&f) {
            out.push(f);
            proof {
                assert(form_views(out@) =~= form_views(out@.drop_last()).push(f@));
            }
        }
    }
    assert(all.take(n) =~= all);
    out
}

/// `forms` sorted by spelling; forms of equal spelling keep their order.
pub fn sort_by_surface(forms: Vec<Form>) -> (r: Vec<Form>)
    ensures
        form_views(r@) == sorted_by_surface(form_views(forms@)),
{
    let ghost all = form_views(forms@);
    let ghost n: int = all.len() as int;
    let mut rest = forms;
    let mut out: Vec<Form> = Vec::new();
    while rest.len() > 0
        invariant
            form_views(rest@) == all.skip(n - rest.len()),
            n == all.len(),
            rest.len() <= n,
            form_views(out@) == sorted_by_surface(all.take(n - rest.len())),
        decreases rest.len(),
    {
        let ghost i: int = n - rest.len();
        let f = rest.remove(0);
        proof {
            assert(all.take(i + 1).drop_last() =~= all.take(i));
            assert(all[i] == f@) by {
                assert(all.skip(i)[0] == all[i]);
            }
            assert(form_views(rest@) =~= all.skip(n - rest.len()));
        }
        let key = chars_of(f.form.as_str());
        let mut p: usize = 0;
        let ghost sorted = form_views(out@);
        while p < out.len() && !lex_less(&key, &chars_of(out[p].form.as_str()))
            invariant
                p <= out.len(),
                sorted == form_views(out@),
                key@ == f@.form,
                insertion_point(sorted, key@, 0) == insertion_point(sorted, key@, p as int),
            decreases out.len() - p,
        {
            p = p + 1;
        }
        out.insert(p, f);
        proof {
            assert(form_views(out@) =~= sorted.insert(p as int, f@));
        }
    }
    assert(all.take(n) =~= all);
    out
}

pub open spec fn group_views(v: Seq<Vec<Form>>) -> Seq<Seq<FormModel>> {
    v.map_values(|g: Vec<Form>| form_views(g@))
}

/// `forms` cut into maximal runs of neighbours with equal spelling.
pub fn runs_by_surface(forms: Vec<Form>) -> (r: Vec<Vec<Form>>)
    ensures
        group_views(r@) == surface_runs(form_views(forms@)),
{
    let ghost all = form_views(forms@);
    let ghost n: int = all.len() as int;
    let mut rest = forms;
    let mut out: Vec<Vec<Form>> = Vec::new();
    while rest.len() > 0
        invariant
            form_views(rest@) == all.skip(n - rest.len()),
            n == all.len(),
            rest.len() <= n,
            group_views(out@) == surface_runs(all.take(n - rest.len())),
        decreases rest.len(),
    {
        let ghost i: int = n - rest.len();
        let ghost pre = group_views(out@);
        let f = rest.remove(0);
        proof {
            assert(all.take(i + 1).drop_last() =~= all.take(i));
            assert(all[i] == f@) by {
                assert(all.skip(i)[0] == all[i]);
            }
            assert(form_views(rest@) =~= all.skip(n - rest.len()));
        }
        let joins = match out.last() {
            Some(g) => match g.last() {
                Some(h) => h.form == f.form,
                None => false,
            },
            None => false,
        };
        if joins {
            let mut g = out.pop().unwrap();
            proof {
                assert(pre.last() == form_views(g@));
            }
            g.push(f);
            out.push(g);
            proof {
                assert(form_views(g@) =~= pre.last().push(f@));
                assert(group_views(out@) =~= pre.update(pre.len() - 1, pre.last().push(f@)));
            }
        } else {
            let mut g: Vec<Form> = Vec::new();
            g.push(f);
            out.push(g);
            proof {
                assert(form_views(g@) =~= seq![f@]);
                assert(group_views(out@) =~= pre.push(seq![f@]));
            }
        }
    }
    assert(all.take(n) =~= all);
    out
}

/// The tags of a form, or none.
pub fn tags_of(f: &Form) -> (r: Vec<String>)
    ensures
        views(r@) == form_tags(f@),
{
    match &f.tags {
        Some(t) => {
            let mut out: Vec<String> = Vec::new();
            let mut i: usize = 0;
            while i < t.len()
                invariant
                    i <= t.len(),
                    views(out@) == views(t@).take(i as int),
                decreases t.len() - i,
            {
                let ghost before = out@;
                out.push(t[i].clone());
                proof {
                    assert(views(out@) =~= views(before).push(t@[i as int]@));
                    assert(views(t@).take(i + 1) =~= views(t@).take(i as int).push(
                        t@[i as int]@,
                    ));
                }
                i = i + 1;
            }
            proof {
                assert(views(t@).take(i as int) =~= views(t@));
            }
            out
        },
        None => {
            let out: Vec<String> = Vec::new();
            proof {
                assert(views(out@) =~= Seq::<Seq<char>>::empty());
            }
            out
        },
    }
}

/// Each string of `v` as a JSON string literal.
fn quoted_all(v: &Vec<String>) -> (r: Vec<String>)
    ensures
        views(r@) == views(v@).map_values(|t: Seq<char>| json_quoted(t)),
{
    let mut out: Vec<String> = Vec::new();
    let mut i: usize = 0;
    while i < v.len()
        invariant
            i <= v.len(),
            views(out@) == views(v@).take(i as int).map_values(|t: Seq<char>| json_quoted(t)),
        decreases v.len() - i,
    {
        let mut q = String::new();
        push_quoted(&mut q, v[i].as_str());
        let ghost before = out@;
        out.push(q);
        proof {
            assert(views(out@) =~= views(before).push(json_quoted(v@[i as int]@)));
            assert(views(v@).take(i + 1).map_values(|t: Seq<char>| json_quoted(t)) =~= views(
                v@,
            ).take(i as int).map_values(|t: Seq<char>| json_quoted(t)).push(json_quoted(v@[i as int]@)));
        }
        i = i + 1;
    }
    proof {
        assert(views(v@).take(i as int) =~= views(v@));
    }
    out
}

/// The JSON text of the sense that `f`, a form of `word`, contributes.
pub fn sense_json(word: &str, f: &Form) -> (r: String)
    ensures
        r@ == sense_text(word@, f@),
{
    let tags = tags_of(f);
    let gloss = join(&tags, " ");
    let mut all_tags = tags;
    all_tags.push("form-of".to_owned());
    all_tags.push("auto-generated".to_owned());
    proof {
        assert(views(all_tags@) =~= sense_tags(f@));
    }
    let quoted_tags = quoted_all(&all_tags);
    let mut out = String::new();
    out.append("{\"form_of\":[{\"word\":");
    push_quoted(&mut out, word);
    out.append("}],\"glosses\":[");
    push_quoted(&mut out, gloss.as_str());
    out.append("],\"tags\":[");
    let tag_list = join(&quoted_tags, ",");
    out.append(tag_list.as_str());
    out.append("]}");
    proof {
        assert(out@ =~= sense_text(word@, f@));
    }
    out
}

/// The JSON payload of the stub for spelling `surface` under `pos`, with
/// one sense for each form of `group`, all forms of `word`.
pub fn stub_json(surface: &str, pos: &str, word: &str, group: &Vec<Form>) -> (r: String)
    ensures
        r@ == stub_content(surface@, pos@, word@, form_views(group@)),
{
    let mut senses: Vec<String> = Vec::new();
    let mut i: usize = 0;
    while i < group.len()
        invariant
            i <= group.len(),
            views(senses@) == form_views(group@).take(i as int).map_values(
                |f: FormModel| sense_text(word@, f),
            ),
        decreases group.len() - i,
    {
        let s = sense_json(word, &group[i]);
        let ghost before = senses@;
        senses.push(s);
        proof {
            assert(views(senses@) =~= views(before).push(sense_text(word@, group@[i as int]@)));
            assert(form_views(group@).take(i + 1).map_values(|f: FormModel| sense_text(word@, f))
                =~= form_views(group@).take(i as int).map_values(
                |f: FormModel| sense_text(word@, f),
            ).push(sense_text(word@, group@[i as int]@)));
        }
        i = i + 1;
    }
    proof {
        assert(form_views(group@).take(i as int) =~= form_views(group@));
    }
    let mut out = String::new();
    out.append("{\"pos\":");
    push_quoted(&mut out, pos);
    out.append(",\"senses\":[");
    let sense_list = join(&senses, ",");
    out.append(sense_list.as_str());
    out.append("],\"word\":");
    push_quoted(&mut out, surface);
    out.append("}");
    proof {
        assert(out@ =~= stub_content(surface@, pos@, word@, form_views(group@)));
    }
    out
}

/// Some row of `rows` has spelling `word` and part of speech `pos`.
pub open spec fn has_entry(rows: Seq<EntryModel>, word: Seq<char>, pos: Seq<char>) -> bool {
    exists|i: int| 0 <= i < rows.len() && (#[trigger] rows[i]).word == word && rows[i].pos == pos
}

/// The stub for the run `group` of forms of entry `e`.
pub open spec fn stub_for(e: EntryModel, group: Seq<FormModel>) -> EntryModel {
    EntryModel {
        word: group[0].form,
        pos: e.pos,
        content: stub_content(group[0].form, e.pos, e.word, group),
    }
}

/// `rows` after the runs `groups` of entry `e` are considered in order: a
/// run whose spelling is already a word of `e`'s part of speech is skipped,
/// any other adds its stub.
pub open spec fn add_groups(rows: Seq<EntryModel>, e: EntryModel, groups: Seq<Seq<FormModel>>) -> Seq<
    EntryModel,
>
    decreases groups.len(),
{
    if groups.len() == 0 {
        rows
    } else {
        let pre = add_groups(rows, e, groups.drop_last());
        if has_entry(pre, groups.last()[0].form, e.pos) {
            pre
        } else {
            pre.push(stub_for(e, groups.last()))
        }
    }
}

/// `rows` after the synthesizer has run over the entries `es` in order.
pub open spec fn synthesize(rows: Seq<EntryModel>, es: Seq<EntryModel>) -> Seq<EntryModel>
    decreases es.len(),
{
    if es.len() == 0 {
        rows
    } else {
        add_groups(synthesize(rows, es.drop_last()), es.last(), form_groups(es.last().content))
    }
}

/// Every run of every entry of `es` has a word of the entry's part of
/// speech in `rows`.
pub open spec fn all_groups_present(rows: Seq<EntryModel>, es: Seq<EntryModel>) -> bool {
    forall|j: int, k: int|
        0 <= j < es.len() && 0 <= k < form_groups(es[j].content).len() ==> has_entry(
            rows,
            (#[trigger] form_groups(es[j].content)[k])[0].form,
            es[j].pos,
        )
}

proof fn lemma_add_groups_extends(rows: Seq<EntryModel>, e: EntryModel, groups: Seq<Seq<FormModel>>)
    ensures
        rows.is_prefix_of(add_groups(rows, e, groups)),
        forall|k: int|
            0 <= k < groups.len() ==> has_entry(
                add_groups(rows, e, groups),
                (#[trigger] groups[k])[0].form,
                e.pos,
            ),
    decreases groups.len(),
{
    if groups.len() > 0 {
        let pre = add_groups(rows, e, groups.drop_last());
        lemma_add_groups_extends(rows, e, groups.drop_last());
        let r = add_groups(rows, e, groups);
        assert(pre.is_prefix_of(r));
        assert forall|k: int| 0 <= k < groups.len() implies has_entry(r, (#[trigger] groups[k])[0].form, e.pos) by {
            if k < groups.len() - 1 {
                assert(groups.drop_last()[k] == groups[k]);
                let i = choose|i: int| 0 <= i < pre.len() && (#[trigger] pre[i]).word == groups[k][0].form && pre[i].pos == e.pos;
                assert(r[i] == pre[i]);
            } else if !has_entry(pre, groups.last()[0].form, e.pos) {
                assert(r[pre.len() as int] == stub_for(e, groups.last()));
            }
        }
    }
}

proof fn lemma_prefix_keeps_entry(a: Seq<EntryModel>, b: Seq<EntryModel>, word: Seq<char>, pos: Seq<char>)
    requires
        a.is_prefix_of(b),
        has_entry(a, word, pos),
    ensures
        has_entry(b, word, pos),
{
    let i = choose|i: int| 0 <= i < a.len() && (#[trigger] a[i]).word == word && a[i].pos == pos;
    assert(b[i] == a[i]);
}

proof fn lemma_synthesize_covers(rows: Seq<EntryModel>, es: Seq<EntryModel>)
    ensures
        rows.is_prefix_of(synthesize(rows, es)),
        all_groups_present(synthesize(rows, es), es),
    decreases es.len(),
{
    if es.len() > 0 {
        let pre = synthesize(rows, es.drop_last());
        let e = es.last();
        lemma_synthesize_covers(rows, es.drop_last());
        lemma_add_groups_extends(pre, e, form_groups(e.content));
        let r = synthesize(rows, es);
        assert forall|j: int, k: int|
            0 <= j < es.len() && 0 <= k < form_groups(es[j].content).len() implies has_entry(
                r,
                (#[trigger] form_groups(es[j].content)[k])[0].form,
                es[j].pos,
            ) by {
            if j < es.len() - 1 {
                assert(es.drop_last()[j] == es[j]);
                lemma_prefix_keeps_entry(pre, r, form_groups(es[j].content)[k][0].form, es[j].pos);
            } else {
                assert(es[j] == e);
            }
        }
    }
}

proof fn lemma_add_groups_idle(rows: Seq<EntryModel>, e: EntryModel, groups: Seq<Seq<FormModel>>)
    requires
        forall|k: int| 0 <= k < groups.len() ==> has_entry(rows, (#[trigger] groups[k])[0].form, e.pos),
    ensures
        add_groups(rows, e, groups) == rows,
    decreases groups.len(),
{
    if groups.len() > 0 {
        assert forall|k: int| 0 <= k < groups.drop_last().len() implies has_entry(
            rows,
            (#[trigger] groups.drop_last()[k])[0].form,
            e.pos,
        ) by {
            assert(groups.drop_last()[k] == groups[k]);
        }
        lemma_add_groups_idle(rows, e, groups.drop_last());
        assert(has_entry(rows, groups[groups.len() - 1][0].form, e.pos));
    }
}

proof fn lemma_synthesize_idle(rows: Seq<EntryModel>, es: Seq<EntryModel>)
    requires
        all_groups_present(rows, es),
    ensures
        synthesize(rows, es) == rows,
    decreases es.len(),
{
    if es.len() > 0 {
        let e = es.last();
        assert(all_groups_present(rows, es.drop_last())) by {
            assert forall|j: int, k: int|
                0 <= j < es.drop_last().len() && 0 <= k < form_groups(es.drop_last()[j].content).len()
                implies has_entry(
                rows,
                (#[trigger] form_groups(es.drop_last()[j].content)[k])[0].form,
                es.drop_last()[j].pos,
            ) by {
                assert(es.drop_last()[j] == es[j]);
            }
        }
        lemma_synthesize_idle(rows, es.drop_last());
        assert forall|k: int| 0 <= k < form_groups(e.content).len() implies has_entry(
            rows,
            (#[trigger] form_groups(e.content)[k])[0].form,
            e.pos,
        ) by {
            assert(es[es.len() - 1] == e);
        }
        lemma_add_groups_idle(rows, e, form_groups(e.content));
    }
}

/// Synthesis is idempotent: running it a second time over the same entries
/// adds no row.
pub proof fn lemma_synthesize_idempotent(rows: Seq<EntryModel>, es: Seq<EntryModel>)
    ensures
        synthesize(synthesize(rows, es), es) == synthesize(rows, es),
{
    lemma_synthesize_covers(rows, es);
    lemma_synthesize_idle(synthesize(rows, es), es);
}

/// A stub is only ever added for a spelling and part of speech that had no
/// row: synthesis leaves no two rows of its own with the same pair, nor one
/// that repeats a pair already present.
pub proof fn lemma_synthesize_no_duplicates(rows: Seq<EntryModel>, es: Seq<EntryModel>)
    ensures
        rows.is_prefix_of(synthesize(rows, es)),
        forall|i: int, j: int|
            0 <= i < j < synthesize(rows, es).len() && rows.len() <= j ==> !(
            (#[trigger] synthesize(rows, es)[i]).word == (#[trigger] synthesize(rows, es)[j]).word
                && synthesize(rows, es)[i].pos == synthesize(rows, es)[j].pos),
    decreases es.len(),
{
    if es.len() > 0 {
        lemma_synthesize_no_duplicates(rows, es.drop_last());
        lemma_add_groups_fresh(synthesize(rows, es.drop_last()), es.last(), form_groups(es.last().content));
        let pre = synthesize(rows, es.drop_last());
        let r = synthesize(rows, es);
        assert forall|i: int, j: int| 0 <= i < j < r.len() && rows.len() <= j implies !(
            (#[trigger] r[i]).word == (#[trigger] r[j]).word && r[i].pos == r[j].pos) by {
            if j < pre.len() {
                assert(r[i] == pre[i]);
                assert(r[j] == pre[j]);
            }
        }
    }
}

proof fn lemma_add_groups_fresh(rows: Seq<EntryModel>, e: EntryModel, groups: Seq<Seq<FormModel>>)
    ensures
        rows.is_prefix_of(add_groups(rows, e, groups)),
        forall|i: int, j: int|
            0 <= i < j < add_groups(rows, e, groups).len() && rows.len() <= j ==> !(
            (#[trigger] add_groups(rows, e, groups)[i]).word == (#[trigger] add_groups(rows, e, groups)[j]).word
                && add_groups(rows, e, groups)[i].pos == add_groups(rows, e, groups)[j].pos),
    decreases groups.len(),
{
    lemma_add_groups_extends(rows, e, groups);
    if groups.len() > 0 {
        lemma_add_groups_fresh(rows, e, groups.drop_last());
        let pre = add_groups(rows, e, groups.drop_last());
        let r = add_groups(rows, e, groups);
        assert forall|i: int, j: int| 0 <= i < j < r.len() && rows.len() <= j implies !(
            (#[trigger] r[i]).word == (#[trigger] r[j]).word && r[i].pos == r[j].pos) by {
            if j < pre.len() {
                assert(r[i] == pre[i]);
                assert(r[j] == pre[j]);
            } else {
                assert(r[i] == pre[i]);
            }
        }
    }
}

proof fn lemma_runs_nonempty(v: Seq<FormModel>)
    ensures
        forall|k: int| 0 <= k < surface_runs(v).len() ==> (#[trigger] surface_runs(v)[k]).len() > 0,
    decreases v.len(),
{
    if v.len() > 0 {
        lemma_runs_nonempty(v.drop_last());
        let pre = surface_runs(v.drop_last());
        let r = surface_runs(v);
        assert forall|k: int| 0 <= k < r.len() implies (#[trigger] r[k]).len() > 0 by {
            if pre.len() > 0 && pre.last().len() > 0 && pre.last().last().form == v.last().form {
                if k < pre.len() - 1 {
                    assert(r[k] == pre[k]);
                }
            } else {
                if k < pre.len() {
                    assert(r[k] == pre[k]);
                }
            }
        }
    }
}

/// Every run of forms holds at least one form.
pub proof fn lemma_form_groups_nonempty(text: Seq<char>)
    ensures
        forall|k: int| 0 <= k < form_groups(text).len() ==> (#[trigger] form_groups(text)[k]).len() > 0,
{
    lemma_runs_nonempty(sorted_by_surface(entry_forms(text).filter(|f: FormModel| recognized(f))));
}

} // verus!
