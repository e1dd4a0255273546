use vstd::prelude::*;

use crate::entry::{EntryView, HarnessEntry, harness_entries, law_entries_concatenate, opt_view};
use crate::files::{
    FileView, FixtureFile, TestEntry, TestView, collect_matching_files, files_view,
    law_collected_tests_carry_the_settings, law_matching_tests_are_the_matching_files, matching_tests, sort_files, test_of, tests_view,
};
use crate::generate::{generated, law_generated_union, module_names, module_tokens, strictly_ordered};
use crate::ignore::{compute_ignore_reason, ignore_reason};
use crate::pattern::Pattern;
use crate::text::strings_view;
use crate::tokens::{OutView, TokenView};

verus! {

/// Appends the tests of one harness entry, given its compiled pattern, which of
/// its `ignore_if_env` / `ignore_unless_env` variables are set, and the files
/// under its fixture directory: the tests of the matching files in path order,
/// all carrying the entry's ignore reason.
pub fn add_entry_tests(
    entry: &HarnessEntry,
    pattern: &Pattern,
    if_set: &Vec<bool>,
    unless_set: &Vec<bool>,
    files: &Vec<FixtureFile>,
    sep: char,
    tests: &mut Vec<TestEntry>,
)
    requires
        pattern.source_view() == entry.pattern@,
        if_set@.len() == entry.ignore_if_env@.len(),
        unless_set@.len() == entry.ignore_unless_env@.len(),
    ensures
        tests_view(final(tests)@) == tests_view(old(tests)@) + matching_tests(
            sort_files(files_view(files@)),
            sep,
            entry.pattern@,
            entry.test_fn@,
            entry.is_async,
            opt_view(entry.attr),
            ignore_reason(
                strings_view(entry.ignore_if_env@),
                if_set@,
                strings_view(entry.ignore_unless_env@),
                unless_set@,
            ),
        ),
        tests_view(final(tests)@) == tests_view(old(tests)@) + entry_tests(
            entry@,
            EntryOutside { if_set: if_set@, unless_set: unless_set@, files: files_view(files@) },
            sep,
        ),
{
    let reason = compute_ignore_reason(&entry.ignore_if_env, if_set, &entry.ignore_unless_env, unless_set);
    collect_matching_files(
        files,
        sep,
        pattern,
        entry.test_fn.as_str(),
        entry.is_async,
        &entry.attr,
        &reason,
        tests,
    );
}

/// What the environment and the file system tell of one entry: which of its
/// `ignore_if_env` and `ignore_unless_env` variables are set, and the files
/// under its fixture directory (their names and displayed paths; their content
/// is not part of it).
pub struct EntryOutside {
    pub if_set: Seq<bool>,
    pub unless_set: Seq<bool>,
    pub files: Seq<FileView>,
}

/// The tests of one entry.
pub open spec fn entry_tests(e: EntryView, o: EntryOutside, sep: char) -> Seq<TestView> {
    matching_tests(
        sort_files(o.files),
        sep,
        e.pattern,
        e.test_fn,
        e.is_async,
        e.attr,
        ignore_reason(e.ignore_if_env, o.if_set, e.ignore_unless_env, o.unless_set),
    )
}

/// The tests of the entries, entry after entry; `os[i]` is what the outside
/// tells of `es[i]`.
pub open spec fn all_tests(es: Seq<EntryView>, os: Seq<EntryOutside>, sep: char) -> Seq<TestView>
    decreases es.len(),
{
    if es.len() == 0 {
        Seq::empty()
    } else {
        all_tests(es.drop_last(), os, sep) + entry_tests(es.last(), os[es.len() - 1], sep)
    }
}

/// Everything the macro emits for its input tokens, given what the outside
/// tells of each entry.
pub open spec fn expansion(input: Seq<TokenView>, os: Seq<EntryOutside>, sep: char) -> Seq<OutView> {
    generated(all_tests(harness_entries(input), os, sep))
}

/// The expansion depends on the files only through their names and displayed
/// paths: two runs over the same input and environment, whose fixture files
/// have the same names and paths (whatever their contents), emit the same tokens.
pub proof fn law_expansion_ignores_file_contents(
    input: Seq<TokenView>,
    os1: Seq<EntryOutside>,
    os2: Seq<EntryOutside>,
    sep: char,
)
    requires
        os1.len() == os2.len(),
        forall|i: int| 0 <= i < os1.len() ==> {
            &&& (#[trigger] os1[i]).if_set == os2[i].if_set
            &&& os1[i].unless_set == os2[i].unless_set
            &&& os1[i].files.len() == os2[i].files.len()
            &&& forall|j: int| 0 <= j < os1[i].files.len() ==> {
                &&& (#[trigger] os1[i].files[j]).components == os2[i].files[j].components
                &&& os1[i].files[j].keys == os2[i].files[j].keys
                &&& os1[i].files[j].path == os2[i].files[j].path
            }
        },
    ensures
        expansion(input, os1, sep) == expansion(input, os2, sep),
{
    assert forall|i: int| 0 <= i < os1.len() implies os1[i] == os2[i] by {
        assert(os1[i].files =~= os2[i].files);
    }
    assert(os1 =~= os2);
}

proof fn lemma_all_tests_prefix(es: Seq<EntryView>, os: Seq<EntryOutside>, more: Seq<EntryOutside>, sep: char)
    requires
        os.len() >= es.len(),
    ensures
        all_tests(es, os + more, sep) == all_tests(es, os, sep),
    decreases es.len(),
{
    if es.len() > 0 {
        lemma_all_tests_prefix(es.drop_last(), os, more, sep);
        assert((os + more)[es.len() - 1] == os[es.len() - 1]);
    }
}

proof fn lemma_all_tests_concat(e1: Seq<EntryView>, e2: Seq<EntryView>, o1: Seq<EntryOutside>, o2: Seq<EntryOutside>, sep: char)
    requires
        o1.len() == e1.len(),
        o2.len() >= e2.len(),
    ensures
        all_tests(e1 + e2, o1 + o2, sep) == all_tests(e1, o1, sep) + all_tests(e2, o2, sep),
    decreases e2.len(),
{
    if e2.len() == 0 {
        assert(e1 + e2 =~= e1);
        lemma_all_tests_prefix(e1, o1, o2, sep);
        assert(all_tests(e1, o1, sep) + all_tests(e2, o2, sep) =~= all_tests(e1, o1, sep));
    } else {
        lemma_all_tests_concat(e1, e2.drop_last(), o1, o2, sep);
        assert((e1 + e2).drop_last() =~= e1 + e2.drop_last());
        assert((e1 + e2).last() == e2.last());
        assert((o1 + o2)[(e1 + e2).len() - 1] == o2[e2.len() - 1]);
        assert(all_tests(e1 + e2, o1 + o2, sep) =~= all_tests(e1, o1, sep) + all_tests(e2, o2, sep));
    }
}

proof fn lemma_all_tests_modules(es: Seq<EntryView>, os: Seq<EntryOutside>, sep: char)
    ensures
        forall|i: int| 0 <= i < all_tests(es, os, sep).len() ==> exists|k: int|
            0 <= k < es.len() && (#[trigger] all_tests(es, os, sep)[i]).module_name == es[k].test_fn,
    decreases es.len(),
{
    if es.len() > 0 {
        let init = es.drop_last();
        lemma_all_tests_modules(init, os, sep);
        let t0 = all_tests(init, os, sep);
        let e = es.last();
        let o = os[es.len() - 1];
        let r = ignore_reason(e.ignore_if_env, o.if_set, e.ignore_unless_env, o.unless_set);
        law_matching_tests_are_the_matching_files(sort_files(o.files), sep, e.pattern, e.test_fn, e.is_async, e.attr, r);
        let t1 = entry_tests(e, o, sep);
        let t = all_tests(es, os, sep);
        assert forall|i: int| 0 <= i < t.len() implies exists|k: int|
            0 <= k < es.len() && (#[trigger] t[i]).module_name == es[k].test_fn by {
            if i < t0.len() {
                assert(t[i] == t0[i]);
                let k = choose|k: int| 0 <= k < init.len() && t0[i].module_name == init[k].test_fn;
                assert(es[k] == init[k]);
            } else {
                assert(t[i] == t1[i - t0.len()]);
                let f = choose|f: int| 0 <= f < sort_files(o.files).len()
                    && crate::pattern::regex_finds(e.pattern, crate::files::rel_path(sort_files(o.files)[f], sep))
                    && #[trigger] t1[i - t0.len()] == test_of(sort_files(o.files)[f], sep, e.test_fn, e.is_async, e.attr, r);
                assert(es[es.len() - 1] == e);
            }
        }
    }
}

/// Two groups of entries written one after the other, whose test names differ:
/// the tests are those of the first group, then those of the second, and the
/// emitted modules are those of both groups, in string order, each emitted as
/// its own group emits it.
pub proof fn law_expansion_union(
    a: Seq<TokenView>,
    b: Seq<TokenView>,
    oa: Seq<EntryOutside>,
    ob: Seq<EntryOutside>,
    sep: char,
)
    requires
        oa.len() == harness_entries(a).len(),
        ob.len() == harness_entries(b).len(),
        forall|i: int, j: int|
            0 <= i < harness_entries(a).len() && 0 <= j < harness_entries(b).len()
                ==> #[trigger] harness_entries(a)[i].test_fn != #[trigger] harness_entries(b)[j].test_fn,
    ensures
        ({
            let input = a + seq![TokenView::Punct(',')] + b;
            let t1 = all_tests(harness_entries(a), oa, sep);
            let t2 = all_tests(harness_entries(b), ob, sep);
            &&& all_tests(harness_entries(input), oa + ob, sep) == t1 + t2
            &&& expansion(input, oa + ob, sep) == generated(t1 + t2)
            &&& strictly_ordered(module_names(t1 + t2))
            &&& forall|n: Seq<char>| #[trigger] module_names(t1 + t2).contains(n) <==> (module_names(t1).contains(n) || module_names(t2).contains(n))
            &&& forall|n: Seq<char>| module_names(t1).contains(n) ==> #[trigger] module_tokens(t1 + t2, n) == module_tokens(t1, n)
            &&& forall|n: Seq<char>| module_names(t2).contains(n) ==> #[trigger] module_tokens(t1 + t2, n) == module_tokens(t2, n)
        }),
{
    let c = seq![TokenView::Punct(',')];
    let input = a + c + b;
    law_entries_concatenate(a, c);
    law_entries_concatenate(a + c, b);
    let ea = harness_entries(a);
    let eb = harness_entries(b);
    assert(harness_entries(a + c) =~= ea);
    assert(harness_entries(input) == ea + eb);
    lemma_all_tests_concat(ea, eb, oa, ob, sep);
    let t1 = all_tests(ea, oa, sep);
    let t2 = all_tests(eb, ob, sep);
    lemma_all_tests_modules(ea, oa, sep);
    lemma_all_tests_modules(eb, ob, sep);
    assert forall|i: int, j: int| 0 <= i < t1.len() && 0 <= j < t2.len() implies #[trigger] t1[i].module_name != #[trigger] t2[j].module_name by {
        let k1 = choose|k: int| 0 <= k < ea.len() && t1[i].module_name == ea[k].test_fn;
        let k2 = choose|k: int| 0 <= k < eb.len() && t2[j].module_name == eb[k].test_fn;
        assert(ea[k1].test_fn != eb[k2].test_fn);
    }
    law_generated_union(t1, t2);
}

/// Every test of an entry carries that entry's settings: it goes in the module
/// named after the entry's test function and calls that function, it is
/// `async` exactly when the entry is, it has the entry's attribute, and it is
/// ignored with the reason that the entry's environment variables give.
pub proof fn law_entry_tests_carry_the_entry(e: EntryView, o: EntryOutside, sep: char)
    ensures
        forall|i: int|
            0 <= i < entry_tests(e, o, sep).len() ==> {
                let t = #[trigger] entry_tests(e, o, sep)[i];
                &&& t.module_name == e.test_fn
                &&& t.test_fn == e.test_fn
                &&& t.is_async == e.is_async
                &&& t.attr == e.attr
                &&& t.ignore_reason == ignore_reason(e.ignore_if_env, o.if_set, e.ignore_unless_env, o.unless_set)
            },
{
    let r = ignore_reason(e.ignore_if_env, o.if_set, e.ignore_unless_env, o.unless_set);
    law_collected_tests_carry_the_settings(sort_files(o.files), sep, e.pattern, e.test_fn, e.is_async, e.attr, r);
}

} // verus!
