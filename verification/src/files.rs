use vstd::prelude::*;

use crate::entry::opt_view;
use crate::pattern::{Pattern, regex_finds};
use crate::text::{
    bytes_eq, bytes_lt, bytes_vec_lt, chars_of, join, join_strings, lemma_bytes_lt_asymmetric,
    lemma_bytes_lt_irreflexive, lemma_bytes_lt_total, lemma_bytes_lt_transitive, string_of_chars,
    strings_view,
};

verus! {

/// A file found under a fixture directory. Its content is not part of it: the
/// generated tests read it when they run, so nothing the library produces
/// depends on it.
pub struct FixtureFile {
    /// The names of the directories that lead to the file, then the file's own
    /// name, relative to the fixture directory, as strings (`to_string_lossy`).
    pub components: Vec<String>,
    /// The same names as the bytes of the file system (`OsStr::as_encoded_bytes`),
    /// by which paths are ordered.
    pub keys: Vec<Vec<u8>>,
    /// The file's full path, as `Path::display` shows it.
    pub path: String,
}

/// The mathematical model of a `FixtureFile`.
pub struct FileView {
    pub components: Seq<Seq<char>>,
    pub keys: Seq<Seq<u8>>,
    pub path: Seq<char>,
}

/// The views of a sequence of byte vectors.
pub open spec fn byte_vecs_view(v: Seq<Vec<u8>>) -> Seq<Seq<u8>> {
    v.map_values(|b: Vec<u8>| b@)
}

impl View for FixtureFile {
    type V = FileView;

    open spec fn view(&self) -> FileView {
        FileView { components: strings_view(self.components@), keys: byte_vecs_view(self.keys@), path: self.path@ }
    }
}

/// A test function to generate, for one fixture file.
pub struct TestEntry {
    /// The module the test goes in: the entry's test function name.
    pub module_name: String,
    /// The generated function's name.
    pub test_name: String,
    /// The fixture file's full path.
    pub path: String,
    /// The test function to call.
    pub test_fn: String,
    /// Whether the generated test is `async`.
    pub is_async: bool,
    /// The test attribute to use in place of the default one.
    pub attr: Option<String>,
    /// The reason for `#[ignore = ".."]`, when the test is ignored.
    pub ignore_reason: Option<String>,
}

/// The mathematical model of a `TestEntry`.
pub struct TestView {
    pub module_name: Seq<char>,
    pub test_name: Seq<char>,
    pub path: Seq<char>,
    pub test_fn: Seq<char>,
    pub is_async: bool,
    pub attr: Option<Seq<char>>,
    pub ignore_reason: Option<Seq<char>>,
}

impl View for TestEntry {
    type V = TestView;

    open spec fn view(&self) -> TestView {
        TestView {
            module_name: self.module_name@,
            test_name: self.test_name@,
            path: self.path@,
            test_fn: self.test_fn@,
            is_async: self.is_async,
            attr: opt_view(self.attr),
            ignore_reason: opt_view(self.ignore_reason),
        }
    }
}

/// The views of a sequence of tests.
pub open spec fn tests_view(ts: Seq<TestEntry>) -> Seq<TestView> {
    ts.map_values(|t: TestEntry| t@)
}

/// The views of a sequence of files.
pub open spec fn files_view(fs: Seq<FixtureFile>) -> Seq<FileView> {
    fs.map_values(|f: FixtureFile| f@)
}

/// The order of paths: component by component, each name compared by its
/// bytes, and a path before the paths inside it. It is the order of `Path`.
pub open spec fn path_lt(a: Seq<Seq<u8>>, b: Seq<Seq<u8>>) -> bool
    decreases a.len(),
{
    if a.len() == 0 {
        b.len() > 0
    } else if b.len() == 0 {
        false
    } else if a[0] != b[0] {
        bytes_lt(a[0], b[0])
    } else {
        path_lt(a.drop_first(), b.drop_first())
    }
}

pub proof fn lemma_path_lt_irreflexive(a: Seq<Seq<u8>>)
    ensures
        !path_lt(a, a),
    decreases a.len(),
{
    if a.len() > 0 {
        lemma_path_lt_irreflexive(a.drop_first());
    }
}

pub proof fn lemma_path_lt_transitive(a: Seq<Seq<u8>>, b: Seq<Seq<u8>>, c: Seq<Seq<u8>>)
    requires
        path_lt(a, b),
        path_lt(b, c),
    ensures
        path_lt(a, c),
    decreases a.len(),
{
    if a.len() > 0 && b.len() > 0 && c.len() > 0 {
        if a[0] == b[0] && b[0] == c[0] {
            lemma_path_lt_transitive(a.drop_first(), b.drop_first(), c.drop_first());
        } else if a[0] == b[0] {
        } else if b[0] == c[0] {
        } else {
            lemma_bytes_lt_transitive(a[0], b[0], c[0]);
            if a[0] == c[0] {
                lemma_bytes_lt_asymmetric(a[0], b[0]);
            }
        }
    }
}

pub proof fn lemma_path_lt_total(a: Seq<Seq<u8>>, b: Seq<Seq<u8>>)
    ensures
        a == b || path_lt(a, b) || path_lt(b, a),
    decreases a.len(),
{
    if a.len() > 0 && b.len() > 0 {
        if a[0] == b[0] {
            lemma_path_lt_total(a.drop_first(), b.drop_first());
            if a.drop_first() == b.drop_first() {
                assert(a =~= seq![a[0]] + a.drop_first());
                assert(b =~= seq![b[0]] + b.drop_first());
            }
        } else {
            lemma_bytes_lt_total(a[0], b[0]);
        }
    } else if a.len() == 0 && b.len() == 0 {
        assert(a =~= b);
    }
}

/// Whether path `a` comes strictly before path `b`.
pub fn keys_lt(a: &Vec<Vec<u8>>, b: &Vec<Vec<u8>>) -> (r: bool)
    ensures
        r == path_lt(byte_vecs_view(a@), byte_vecs_view(b@)),
{
    let ghost av = byte_vecs_view(a@);
    let ghost bv = byte_vecs_view(b@);
    let mut i: usize = 0;
    assert(av.skip(0) =~= av);
    assert(bv.skip(0) =~= bv);
    while i < a.len() && i < b.len()
        invariant
            av == byte_vecs_view(a@),
            bv == byte_vecs_view(b@),
            i <= a@.len(),
            i <= b@.len(),
            path_lt(av, bv) == path_lt(av.skip(i as int), bv.skip(i as int)),
        decreases a@.len() - i,
    {
        assert(av.skip(i as int)[0] == a@[i as int]@);
        assert(bv.skip(i as int)[0] == b@[i as int]@);
        if !bytes_eq(&a[i], &b[i]) {
            return bytes_vec_lt(&a[i], &b[i]);
        }
        assert(av.skip(i as int).drop_first() =~= av.skip(i + 1));
        assert(bv.skip(i as int).drop_first() =~= bv.skip(i + 1));
        i = i + 1;
    }
    i < b.len()
}

/// Inserts `f` into `s` after every file whose path (by its keys) is not after `f`'s.
pub open spec fn insert_file(s: Seq<FileView>, f: FileView) -> Seq<FileView>
    decreases s.len(),
{
    if s.len() == 0 {
        seq![f]
    } else if path_lt(f.keys, s[0].keys) {
        seq![f] + s
    } else {
        seq![s[0]] + insert_file(s.drop_first(), f)
    }
}

/// The files in path order; files with equal paths keep their order.
pub open spec fn sort_files(fs: Seq<FileView>) -> Seq<FileView>
    decreases fs.len(),
{
    if fs.len() == 0 {
        Seq::empty()
    } else {
        insert_file(sort_files(fs.drop_last()), fs.last())
    }
}

/// A file's path relative to the fixture directory, its components joined by `sep`.
pub open spec fn rel_path(f: FileView, sep: char) -> Seq<char> {
    join(f.components, seq![sep])
}

/// A test name made of a relative path: the separator, `-` and `.` become `_`.
pub open spec fn test_name_of(rel: Seq<char>, sep: char) -> Seq<char> {
    rel.map_values(|c: char| if c == sep || c == '-' || c == '.' { '_' } else { c })
}

/// The test generated for a fixture file.
pub open spec fn test_of(
    f: FileView,
    sep: char,
    test_fn: Seq<char>,
    is_async: bool,
    attr: Option<Seq<char>>,
    ignore_reason: Option<Seq<char>>,
) -> TestView {
    TestView {
        module_name: test_fn,
        test_name: test_name_of(rel_path(f, sep), sep),
        path: f.path,
        test_fn: test_fn,
        is_async: is_async,
        attr: attr,
        ignore_reason: ignore_reason,
    }
}

/// The tests for the files of `fs` whose relative path the pattern matches, in the order of `fs`.
pub open spec fn matching_tests(
    fs: Seq<FileView>,
    sep: char,
    pattern: Seq<char>,
    test_fn: Seq<char>,
    is_async: bool,
    attr: Option<Seq<char>>,
    ignore_reason: Option<Seq<char>>,
) -> Seq<TestView>
    decreases fs.len(),
{
    if fs.len() == 0 {
        Seq::empty()
    } else {
        matching_tests(fs.drop_last(), sep, pattern, test_fn, is_async, attr, ignore_reason)
            + if regex_finds(pattern, rel_path(fs.last(), sep)) {
            seq![test_of(fs.last(), sep, test_fn, is_async, attr, ignore_reason)]
        } else {
            Seq::empty()
        }
    }
}

/// A test name made of a relative path.
pub fn make_test_name(rel: &str, sep: char) -> (name: String)
    ensures
        name@ == test_name_of(rel@, sep),
{
    let cs = chars_of(rel);
    let mut out: Vec<char> = Vec::new();
    let mut i: usize = 0;
    while i < cs.len()
        invariant
            cs@ == rel@,
            i <= cs@.len(),
            out@ == test_name_of(rel@.take(i as int), sep),
        decreases cs@.len() - i,
    {
        let c = cs[i];
        if c == sep || c == '-' || c == '.' {
            out.push('_');
        } else {
            out.push(c);
        }
        i = i + 1;
        assert(out@ =~= test_name_of(rel@.take(i as int), sep));
    }
    assert(rel@.take(cs@.len() as int) =~= rel@);
    string_of_chars(out.as_slice())
}

proof fn lemma_insert_at(s: Seq<FileView>, f: FileView, pos: int)
    requires
        0 <= pos <= s.len(),
        forall|k: int| 0 <= k < pos ==> !path_lt(f.keys, #[trigger] s[k].keys),
        pos == s.len() || path_lt(f.keys, s[pos].keys),
    ensures
        insert_file(s, f) == s.insert(pos, f),
    decreases pos,
{
    if s.len() == 0 {
        assert(s.insert(pos, f) =~= seq![f]);
    } else if pos == 0 {
        assert(s.insert(pos, f) =~= seq![f] + s);
    } else {
        let t = s.drop_first();
        assert forall|k: int| 0 <= k < pos - 1 implies !path_lt(f.keys, #[trigger] t[k].keys) by {
            assert(t[k] == s[k + 1]);
        }
        lemma_insert_at(t, f, pos - 1);
        assert(s.insert(pos, f) =~= seq![s[0]] + t.insert(pos - 1, f));
    }
}

/// The files of `fs` at the positions `order`.
spec fn pick(fs: Seq<FileView>, order: Seq<usize>) -> Seq<FileView> {
    order.map_values(|k: usize| fs[k as int])
}

/// The positions of the files in path order (a stable insertion sort).
fn sorted_order(files: &Vec<FixtureFile>) -> (order: Vec<usize>)
    ensures
        forall|k: int| 0 <= k < order@.len() ==> #[trigger] order@[k] < files@.len(),
        pick(files_view(files@), order@) == sort_files(files_view(files@)),
{
    let ghost fv = files_view(files@);
    let mut order: Vec<usize> = Vec::new();
    let mut i: usize = 0;
    assert(pick(fv, order@) =~= sort_files(fv.take(0)));
    while i < files.len()
        invariant
            fv == files_view(files@),
            i <= files@.len(),
            forall|k: int| 0 <= k < order@.len() ==> #[trigger] order@[k] < i,
            pick(fv, order@) == sort_files(fv.take(i as int)),
        decreases files@.len() - i,
    {
        let ghost s = pick(fv, order@);
        let mut pos: usize = 0;
        while pos < order.len() && !keys_lt(&files[i].keys, &files[order[pos]].keys)
            invariant
                fv == files_view(files@),
                i < files@.len(),
                pos <= order@.len(),
                s == pick(fv, order@),
                forall|k: int| 0 <= k < order@.len() ==> #[trigger] order@[k] < i,
                forall|k: int| 0 <= k < pos ==> !path_lt(fv[i as int].keys, #[trigger] s[k].keys),
            decreases order@.len() - pos,
        {
            pos = pos + 1;
        }
        proof {
            lemma_insert_at(s, fv[i as int], pos as int);
            assert(fv.take(i + 1).drop_last() =~= fv.take(i as int));
        }
        order.insert(pos, i);
        assert(pick(fv, order@) =~= s.insert(pos as int, fv[i as int]));
        i = i + 1;
    }
    assert(fv.take(files@.len() as int) =~= fv);
    order
}

/// Picks the fixture files whose relative path (components joined by `sep`)
/// the pattern matches, in path order (by the bytes of the names), and appends a test for each: named after
/// the relative path with `sep`, `-` and `.` turned into `_`, in the module
/// `test_fn`, calling `test_fn` on the file's full path.
///
/// Path order is the order in which a walk of the fixture directory meets the
/// files when it lists each directory sorted by path and descends into a
/// subdirectory where it meets it (`law_sorted_files_follow_the_walk`): two
/// files are ordered by the first component in which their paths differ.
pub fn collect_matching_files(
    files: &Vec<FixtureFile>,
    sep: char,
    pattern: &Pattern,
    test_fn: &str,
    is_async: bool,
    attr: &Option<String>,
    ignore_reason: &Option<String>,
    tests: &mut Vec<TestEntry>,
)
    ensures
        tests_view(final(tests)@) == tests_view(old(tests)@) + matching_tests(
            sort_files(files_view(files@)),
            sep,
            pattern.source_view(),
            test_fn@,
            is_async,
            opt_view(*attr),
            opt_view(*ignore_reason),
        ),
{
    let ghost fv = files_view(files@);
    let ghost sorted = sort_files(fv);
    let ghost start = tests_view(tests@);
    let order = sorted_order(files);
    let mut sep_chars: Vec<char> = Vec::new();
    sep_chars.push(sep);
    let sep_str = string_of_chars(sep_chars.as_slice());
    let mut k: usize = 0;
    assert(tests_view(tests@) =~= start + matching_tests(sorted.take(0), sep, pattern.source_view(), test_fn@, is_async, opt_view(*attr), opt_view(*ignore_reason)));
    while k < order.len()
        invariant
            fv == files_view(files@),
            sorted == sort_files(fv),
            pick(fv, order@) == sorted,
            forall|j: int| 0 <= j < order@.len() ==> #[trigger] order@[j] < files@.len(),
            sep_str@ == seq![sep],
            k <= order@.len(),
            tests_view(tests@) == start + matching_tests(sorted.take(k as int), sep, pattern.source_view(), test_fn@, is_async, opt_view(*attr), opt_view(*ignore_reason)),
        decreases order@.len() - k,
    {
        let f = &files[order[k]];
        assert(sorted[k as int] == f@);
        let rel = join_strings(&f.components, sep_str.as_str());
        let ghost before = tests_view(tests@);
        assert(sorted.take(k + 1).drop_last() =~= sorted.take(k as int));
        assert(sorted.take(k + 1).last() == f@);
        if pattern.is_match(rel.as_str()) {
            let test_name = make_test_name(rel.as_str(), sep);
            let t = TestEntry {
                module_name: test_fn.to_owned(),
                test_name,
                path: f.path.clone(),
                test_fn: test_fn.to_owned(),
                is_async,
                attr: match attr { Some(a) => Some(a.clone()), None => None },
                ignore_reason: match ignore_reason { Some(r) => Some(r.clone()), None => None },
            };
            tests.push(t);
            assert(tests_view(tests@) =~= before + seq![t@]);
        } else {
            assert(tests_view(tests@) =~= before + Seq::<TestView>::empty());
        }
        k = k + 1;
    }
    assert(sorted.take(order@.len() as int) =~= sorted);
}

proof fn lemma_insert_file_position(s: Seq<FileView>, f: FileView) -> (p: int)
    ensures
        0 <= p <= s.len(),
        forall|k: int| 0 <= k < p ==> !path_lt(f.keys, #[trigger] s[k].keys),
        p == s.len() || path_lt(f.keys, s[p].keys),
        insert_file(s, f) == s.insert(p, f),
    decreases s.len(),
{
    if s.len() == 0 {
        lemma_insert_at(s, f, 0);
        0
    } else if path_lt(f.keys, s[0].keys) {
        lemma_insert_at(s, f, 0);
        0
    } else {
        let t = s.drop_first();
        let q = lemma_insert_file_position(t, f);
        assert forall|k: int| 0 <= k < q + 1 implies !path_lt(f.keys, #[trigger] s[k].keys) by {
            if k > 0 {
                assert(s[k] == t[k - 1]);
            }
        }
        if q < t.len() {
            assert(s[q + 1] == t[q]);
        }
        lemma_insert_at(s, f, q + 1);
        q + 1
    }
}

/// Whether the files of `s` are in path order.
pub open spec fn in_path_order(s: Seq<FileView>) -> bool {
    forall|i: int, j: int|
        0 <= i < j < s.len() ==> !path_lt(#[trigger] s[j].keys, #[trigger] s[i].keys)
}

proof fn lemma_insert_file_ordered(s: Seq<FileView>, f: FileView)
    requires
        in_path_order(s),
    ensures
        in_path_order(insert_file(s, f)),
        insert_file(s, f).to_multiset() == s.to_multiset().insert(f),
{
    let p = lemma_insert_file_position(s, f);
    let r = s.insert(p, f);
    assert forall|i: int, j: int| 0 <= i < j < r.len() implies !path_lt(#[trigger] r[j].keys, #[trigger] r[i].keys) by {
        if i < p && j < p {
            assert(r[i] == s[i] && r[j] == s[j]);
        } else if i > p && j > p {
            assert(r[i] == s[i - 1] && r[j] == s[j - 1]);
        } else if i < p && j > p {
            assert(r[i] == s[i] && r[j] == s[j - 1]);
        } else if i < p && j == p {
            assert(r[i] == s[i] && r[j] == f);
        } else {
            // i == p < j
            assert(r[i] == f && r[j] == s[j - 1]);
            if path_lt(s[j - 1].keys, f.keys) {
                lemma_path_lt_transitive(s[j - 1].keys, f.keys, s[p].keys);
                if j - 1 == p {
                    lemma_path_lt_irreflexive(s[p].keys);
                }
            }
        }
    }
    vstd::seq_lib::to_multiset_remove(r, p);
    assert(r.remove(p) =~= s);
    assert(r.contains(f)) by {
        assert(r[p] == f);
    }
    r.to_multiset_ensures();
    assert(r.to_multiset() =~= s.to_multiset().insert(f));
}

/// Sorting puts the files in path order, and keeps every file: the result is a
/// permutation of the input.
pub proof fn law_sort_files_ordered_permutation(fs: Seq<FileView>)
    ensures
        in_path_order(sort_files(fs)),
        sort_files(fs).to_multiset() == fs.to_multiset(),
    decreases fs.len(),
{
    if fs.len() == 0 {
        assert(sort_files(fs) =~= fs);
    } else {
        let init = fs.drop_last();
        law_sort_files_ordered_permutation(init);
        lemma_insert_file_ordered(sort_files(init), fs.last());
        vstd::seq_lib::to_multiset_build(init, fs.last());
        assert(init.push(fs.last()) =~= fs);
    }
}

/// Every collected test comes from a file whose relative path the pattern
/// matches, and every such file gives a test: the tests are those of the
/// matching files, each once.
pub proof fn law_matching_tests_are_the_matching_files(
    fs: Seq<FileView>,
    sep: char,
    pattern: Seq<char>,
    test_fn: Seq<char>,
    is_async: bool,
    attr: Option<Seq<char>>,
    ignore_reason: Option<Seq<char>>,
)
    ensures
        forall|i: int|
            0 <= i < matching_tests(fs, sep, pattern, test_fn, is_async, attr, ignore_reason).len()
                ==> exists|k: int|
                0 <= k < fs.len() && regex_finds(pattern, rel_path(fs[k], sep))
                    && #[trigger] matching_tests(fs, sep, pattern, test_fn, is_async, attr, ignore_reason)[i]
                    == test_of(fs[k], sep, test_fn, is_async, attr, ignore_reason),
        forall|k: int|
            0 <= k < fs.len() && regex_finds(pattern, rel_path(#[trigger] fs[k], sep))
                ==> matching_tests(fs, sep, pattern, test_fn, is_async, attr, ignore_reason).contains(
                test_of(fs[k], sep, test_fn, is_async, attr, ignore_reason),
            ),
    decreases fs.len(),
{
    if fs.len() > 0 {
        let init = fs.drop_last();
        law_matching_tests_are_the_matching_files(init, sep, pattern, test_fn, is_async, attr, ignore_reason);
        let m0 = matching_tests(init, sep, pattern, test_fn, is_async, attr, ignore_reason);
        let m = matching_tests(fs, sep, pattern, test_fn, is_async, attr, ignore_reason);
        assert forall|i: int| 0 <= i < m.len() implies exists|k: int|
            0 <= k < fs.len() && regex_finds(pattern, rel_path(fs[k], sep))
                && #[trigger] m[i] == test_of(fs[k], sep, test_fn, is_async, attr, ignore_reason) by {
            if i < m0.len() {
                assert(m[i] == m0[i]);
                let k = choose|k: int| 0 <= k < init.len() && regex_finds(pattern, rel_path(init[k], sep))
                    && m0[i] == test_of(init[k], sep, test_fn, is_async, attr, ignore_reason);
                assert(fs[k] == init[k]);
            } else {
                assert(fs[fs.len() - 1] == fs.last());
            }
        }
        assert forall|k: int| 0 <= k < fs.len() && regex_finds(pattern, rel_path(#[trigger] fs[k], sep)) implies m.contains(
            test_of(fs[k], sep, test_fn, is_async, attr, ignore_reason)) by {
            let t = test_of(fs[k], sep, test_fn, is_async, attr, ignore_reason);
            if k < init.len() {
                assert(init[k] == fs[k]);
                let j = choose|j: int| 0 <= j < m0.len() && m0[j] == t;
                assert(m[j] == m0[j]);
            } else {
                assert(m[m.len() - 1] == t);
            }
        }
    }
}

/// A test name holds no separator, `-` or `.`, and has the length of the
/// relative path (for a separator other than `_`, which the renaming writes).
pub proof fn law_test_name_plain(rel: Seq<char>, sep: char)
    requires
        sep != '_',
    ensures
        test_name_of(rel, sep).len() == rel.len(),
        forall|i: int|
            0 <= i < rel.len() ==> {
                let c = #[trigger] test_name_of(rel, sep)[i];
                c != sep && c != '-' && c != '.'
            },
{
}

/// Renaming a relative path into a test name keeps every character at its
/// position, except that each separator, `-` and `.` becomes `_`: in
/// particular letters, digits and `_` are kept as they are.
pub proof fn law_test_name_keeps_other_characters(rel: Seq<char>, sep: char)
    ensures
        test_name_of(rel, sep).len() == rel.len(),
        forall|i: int|
            0 <= i < rel.len() && rel[i] != sep && rel[i] != '-' && rel[i] != '.'
                ==> #[trigger] test_name_of(rel, sep)[i] == rel[i],
        forall|i: int|
            0 <= i < rel.len() && (rel[i] == sep || rel[i] == '-' || rel[i] == '.')
                ==> #[trigger] test_name_of(rel, sep)[i] == '_',
{
}

/// The test name of a path written in two parts is the test names of the two
/// parts, one after the other: each character is renamed on its own.
pub proof fn law_test_name_of_concatenation(a: Seq<char>, b: Seq<char>, sep: char)
    ensures
        test_name_of(a + b, sep) == test_name_of(a, sep) + test_name_of(b, sep),
{
    assert(test_name_of(a + b, sep) =~= test_name_of(a, sep) + test_name_of(b, sep));
}

/// Each collected test carries the settings of its entry as they were given:
/// its module and test function are the entry's test function, and its
/// `async` flag, attribute and ignore reason are the ones passed in, whatever
/// their values. Its path and name are those of a file whose relative path
/// the pattern matches.
pub proof fn law_collected_tests_carry_the_settings(
    fs: Seq<FileView>,
    sep: char,
    pattern: Seq<char>,
    test_fn: Seq<char>,
    is_async: bool,
    attr: Option<Seq<char>>,
    ignore_reason: Option<Seq<char>>,
)
    ensures
        forall|i: int|
            0 <= i < matching_tests(fs, sep, pattern, test_fn, is_async, attr, ignore_reason).len() ==> {
                let t = #[trigger] matching_tests(fs, sep, pattern, test_fn, is_async, attr, ignore_reason)[i];
                &&& t.module_name == test_fn
                &&& t.test_fn == test_fn
                &&& t.is_async == is_async
                &&& t.attr == attr
                &&& t.ignore_reason == ignore_reason
                &&& exists|k: int|
                    0 <= k < fs.len() && regex_finds(pattern, rel_path(fs[k], sep)) && t.path == fs[k].path
                        && t.test_name == test_name_of(rel_path(fs[k], sep), sep)
            },
    decreases fs.len(),
{
    if fs.len() > 0 {
        let init = fs.drop_last();
        law_collected_tests_carry_the_settings(init, sep, pattern, test_fn, is_async, attr, ignore_reason);
        let m0 = matching_tests(init, sep, pattern, test_fn, is_async, attr, ignore_reason);
        let m = matching_tests(fs, sep, pattern, test_fn, is_async, attr, ignore_reason);
        assert forall|i: int| 0 <= i < m.len() implies {
            let t = #[trigger] m[i];
            &&& t.module_name == test_fn
            &&& t.test_fn == test_fn
            &&& t.is_async == is_async
            &&& t.attr == attr
            &&& t.ignore_reason == ignore_reason
            &&& exists|k: int|
                0 <= k < fs.len() && regex_finds(pattern, rel_path(fs[k], sep)) && t.path == fs[k].path
                    && t.test_name == test_name_of(rel_path(fs[k], sep), sep)
        } by {
            if i < m0.len() {
                assert(m[i] == m0[i]);
                let k = choose|k: int|
                    0 <= k < init.len() && regex_finds(pattern, rel_path(init[k], sep)) && m0[i].path == init[k].path
                        && m0[i].test_name == test_name_of(rel_path(init[k], sep), sep);
                assert(fs[k] == init[k]);
            } else {
                let k = fs.len() - 1;
                assert(fs[k] == fs.last());
            }
        }
    }
}

/// A fixture directory's entry, as a walk of the directory meets it: a file
/// with its name (as a string and as bytes) and displayed path, or a directory
/// with its name (as a string and as bytes) and entries.
pub enum FsNode {
    File(Seq<char>, Seq<u8>, Seq<char>),
    Dir(Seq<char>, Seq<u8>, Seq<FsNode>),
}

/// The bytes of a directory entry's name.
pub open spec fn node_key(n: FsNode) -> Seq<u8> {
    match n {
        FsNode::File(_, key, _) => key,
        FsNode::Dir(_, key, _) => key,
    }
}

/// The files that a depth-first walk meets, taking the entries of each
/// directory in the order given and descending into a directory where it
/// meets it; `prefix` is the path of the directory that holds `ns`.
pub open spec fn walk(ns: Seq<FsNode>, cprefix: Seq<Seq<char>>, prefix: Seq<Seq<u8>>) -> Seq<FileView>
    decreases ns,
{
    if ns.len() == 0 {
        Seq::empty()
    } else {
        walk(ns.drop_last(), cprefix, prefix) + match ns.last() {
            FsNode::File(name, key, path) => seq![FileView { components: cprefix.push(name), keys: prefix.push(key), path: path }],
            FsNode::Dir(name, key, children) => walk(children, cprefix.push(name), prefix.push(key)),
        }
    }
}

/// Whether every directory listing in `ns` is sorted by the bytes of the names, names all distinct
/// (the order in which the walk of the original takes a directory's entries).
pub open spec fn listings_sorted(ns: Seq<FsNode>) -> bool
    decreases ns,
{
    &&& forall|i: int, j: int| 0 <= i < j < ns.len() ==> bytes_lt(node_key(#[trigger] ns[i]), node_key(#[trigger] ns[j]))
    &&& ns.len() > 0 ==> match ns.last() {
        FsNode::Dir(_, _, children) => listings_sorted(children),
        FsNode::File(_, _, _) => true,
    }
    &&& ns.len() > 0 ==> listings_sorted(ns.drop_last())
}

/// Whether the files of `s` are in strictly increasing path order.
pub open spec fn strictly_in_path_order(s: Seq<FileView>) -> bool {
    forall|i: int, j: int| 0 <= i < j < s.len() ==> path_lt(#[trigger] s[i].keys, #[trigger] s[j].keys)
}

proof fn lemma_path_lt_common_prefix(p: Seq<Seq<u8>>, a: Seq<Seq<u8>>, b: Seq<Seq<u8>>)
    requires
        a.len() > p.len(),
        b.len() > p.len(),
        a.take(p.len() as int) == p,
        b.take(p.len() as int) == p,
        bytes_lt(a[p.len() as int], b[p.len() as int]),
    ensures
        path_lt(a, b),
    decreases p.len(),
{
    if p.len() == 0 {
        if a[0] == b[0] {
            lemma_bytes_lt_irreflexive(a[0]);
        }
    } else {
        assert(a[0] == p[0]);
        assert(b[0] == p[0]);
        let p1 = p.drop_first();
        assert(a.drop_first().take(p1.len() as int) =~= p1);
        assert(b.drop_first().take(p1.len() as int) =~= p1);
        assert(a.drop_first()[p1.len() as int] == a[p.len() as int]);
        assert(b.drop_first()[p1.len() as int] == b[p.len() as int]);
        lemma_path_lt_common_prefix(p1, a.drop_first(), b.drop_first());
    }
}

/// The names of the entries `ns`.
spec fn names_of(ns: Seq<FsNode>) -> Seq<Seq<u8>> {
    Seq::new(ns.len(), |i: int| node_key(ns[i]))
}

/// Whether the path of `f` continues `prefix` with one of the `names`.
spec fn under(f: FileView, prefix: Seq<Seq<u8>>, names: Seq<Seq<u8>>) -> bool {
    &&& f.keys.len() > prefix.len()
    &&& f.keys.take(prefix.len() as int) == prefix
    &&& names.contains(f.keys[prefix.len() as int])
}

proof fn lemma_under_deeper(f: FileView, prefix: Seq<Seq<u8>>, name: Seq<u8>, inner: Seq<Seq<u8>>)
    requires
        under(f, prefix.push(name), inner),
    ensures
        f.keys.len() > prefix.len(),
        f.keys.take(prefix.len() as int) == prefix,
        f.keys[prefix.len() as int] == name,
{
    let q = prefix.push(name);
    assert(f.keys.take(prefix.len() as int) =~= f.keys.take(q.len() as int).take(prefix.len() as int));
    assert(q.take(prefix.len() as int) =~= prefix);
    assert(f.keys[prefix.len() as int] == f.keys.take(q.len() as int)[prefix.len() as int]);
}

proof fn lemma_walk_under(ns: Seq<FsNode>, cprefix: Seq<Seq<char>>, prefix: Seq<Seq<u8>>)
    ensures
        forall|i: int| 0 <= i < walk(ns, cprefix, prefix).len() ==> under(#[trigger] walk(ns, cprefix, prefix)[i], prefix, names_of(ns)),
    decreases ns,
{
    if ns.len() > 0 {
        let init = ns.drop_last();
        lemma_walk_under(init, cprefix, prefix);
        let w0 = walk(init, cprefix, prefix);
        let w = walk(ns, cprefix, prefix);
        let m = ns.len() - 1;
        let nm = names_of(ns);
        assert(nm[m] == node_key(ns.last()));
        let tail = match ns.last() {
            FsNode::File(name, key, path) => seq![FileView { components: cprefix.push(name), keys: prefix.push(key), path: path }],
            FsNode::Dir(name, key, children) => walk(children, cprefix.push(name), prefix.push(key)),
        };
        assert(w == w0 + tail);
        assert forall|i: int| 0 <= i < w.len() implies under(#[trigger] w[i], prefix, nm) by {
            if i < w0.len() {
                assert(w[i] == w0[i]);
                assert(under(w0[i], prefix, names_of(init)));
                let k = choose|k: int| 0 <= k < names_of(init).len() && names_of(init)[k] == w0[i].keys[prefix.len() as int];
                assert(nm[k] == names_of(init)[k]);
            } else {
                let f = tail[i - w0.len()];
                assert(w[i] == f);
                match ns.last() {
                    FsNode::File(name, key, path) => {
                        assert(prefix.push(key).take(prefix.len() as int) =~= prefix);
                        assert(f.keys[prefix.len() as int] == nm[m]);
                    },
                    FsNode::Dir(name, key, children) => {
                        lemma_walk_under(children, cprefix.push(name), prefix.push(key));
                        assert(under(f, prefix.push(key), names_of(children)));
                        lemma_under_deeper(f, prefix, key, names_of(children));
                        assert(f.keys[prefix.len() as int] == nm[m]);
                    },
                }
            }
        }
    }
}

/// A walk that takes each directory's entries sorted by the bytes of their names, as the original
/// does, meets the files in strictly increasing path order.
pub proof fn law_sorted_walk_in_path_order(ns: Seq<FsNode>, cprefix: Seq<Seq<char>>, prefix: Seq<Seq<u8>>)
    requires
        listings_sorted(ns),
    ensures
        strictly_in_path_order(walk(ns, cprefix, prefix)),
    decreases ns,
{
    if ns.len() > 0 {
        let init = ns.drop_last();
        let m = ns.len() - 1;
        assert(ns[m] == ns.last());
        law_sorted_walk_in_path_order(init, cprefix, prefix);
        lemma_walk_under(init, cprefix, prefix);
        let w0 = walk(init, cprefix, prefix);
        let w = walk(ns, cprefix, prefix);
        let tail = match ns.last() {
            FsNode::File(name, key, path) => seq![FileView { components: cprefix.push(name), keys: prefix.push(key), path: path }],
            FsNode::Dir(name, key, children) => walk(children, cprefix.push(name), prefix.push(key)),
        };
        assert(w == w0 + tail);
        // every file of the tail continues `prefix` with the last name
        assert forall|i: int| 0 <= i < tail.len() implies {
            &&& (#[trigger] tail[i]).keys.len() > prefix.len()
            &&& tail[i].keys.take(prefix.len() as int) == prefix
            &&& tail[i].keys[prefix.len() as int] == node_key(ns[m])
        } by {
            match ns.last() {
                FsNode::File(name, key, path) => {
                    assert(prefix.push(key).take(prefix.len() as int) =~= prefix);
                },
                FsNode::Dir(name, key, children) => {
                    lemma_walk_under(children, cprefix.push(name), prefix.push(key));
                    assert(under(tail[i], prefix.push(key), names_of(children)));
                    lemma_under_deeper(tail[i], prefix, key, names_of(children));
                },
            }
        }
        match ns.last() {
            FsNode::Dir(name, key, children) => {
                law_sorted_walk_in_path_order(children, cprefix.push(name), prefix.push(key));
            },
            FsNode::File(_, _, _) => {},
        }
        assert forall|i: int, j: int| 0 <= i < j < w.len() implies path_lt(#[trigger] w[i].keys, #[trigger] w[j].keys) by {
            if j < w0.len() {
                assert(w[i] == w0[i] && w[j] == w0[j]);
            } else if i >= w0.len() {
                assert(w[i] == tail[i - w0.len()] && w[j] == tail[j - w0.len()]);
            } else {
                assert(w[i] == w0[i] && w[j] == tail[j - w0.len()]);
                assert(under(w0[i], prefix, names_of(init)));
                let k = choose|k: int| 0 <= k < names_of(init).len() && names_of(init)[k] == w0[i].keys[prefix.len() as int];
                assert(init[k] == ns[k]);
                assert(bytes_lt(node_key(ns[k]), node_key(ns[m])));
                lemma_path_lt_common_prefix(prefix, w[i].keys, w[j].keys);
            }
        }
    }
}

proof fn lemma_ordered_unique(a: Seq<FileView>, b: Seq<FileView>)
    requires
        strictly_in_path_order(a),
        in_path_order(b),
        a.to_multiset() == b.to_multiset(),
    ensures
        a == b,
    decreases a.len(),
{
    a.to_multiset_ensures();
    b.to_multiset_ensures();
    if a.len() == 0 {
        assert(b.len() == 0);
        assert(a =~= b);
    } else {
        assert(b.len() == a.len());
        assert(b.contains(b[0])) by {
            assert(b[0] == b[0]);
        }
        assert(a.contains(a[0])) by {
            assert(a[0] == a[0]);
        }
        assert(b.to_multiset().count(b[0]) > 0);
        assert(a.to_multiset().count(a[0]) > 0);
        assert(a.contains(b[0]));
        assert(b.contains(a[0]));
        let k = choose|k: int| 0 <= k < a.len() && a[k] == b[0];
        let m = choose|m: int| 0 <= m < b.len() && b[m] == a[0];
        if k > 0 {
            assert(path_lt(a[0].keys, a[k].keys));
            if m > 0 {
                assert(!path_lt(b[m].keys, b[0].keys));
            } else {
                lemma_path_lt_irreflexive(a[0].keys);
            }
        }
        assert(a[0] == b[0]);
        vstd::seq_lib::to_multiset_remove(a, 0);
        vstd::seq_lib::to_multiset_remove(b, 0);
        assert(a.remove(0) =~= a.drop_first());
        assert(b.remove(0) =~= b.drop_first());
        let a1 = a.drop_first();
        let b1 = b.drop_first();
        assert forall|i: int, j: int| 0 <= i < j < a1.len() implies path_lt(#[trigger] a1[i].keys, #[trigger] a1[j].keys) by {
            assert(a1[i] == a[i + 1] && a1[j] == a[j + 1]);
        }
        assert forall|i: int, j: int| 0 <= i < j < b1.len() implies !path_lt(#[trigger] b1[j].keys, #[trigger] b1[i].keys) by {
            assert(b1[i] == b[i + 1] && b1[j] == b[j + 1]);
        }
        lemma_ordered_unique(a1, b1);
        assert(a =~= seq![a[0]] + a1);
        assert(b =~= seq![b[0]] + b1);
    }
}

/// Whatever order the files of a fixture directory are listed in, sorting
/// them by path gives the order in which the original's walk meets them, the
/// walk that takes each directory's entries sorted by the bytes of their names.
pub proof fn law_sorted_files_follow_the_walk(ns: Seq<FsNode>, cprefix: Seq<Seq<char>>, prefix: Seq<Seq<u8>>, fs: Seq<FileView>)
    requires
        listings_sorted(ns),
        fs.to_multiset() == walk(ns, cprefix, prefix).to_multiset(),
    ensures
        sort_files(fs) == walk(ns, cprefix, prefix),
{
    law_sorted_walk_in_path_order(ns, cprefix, prefix);
    law_sort_files_ordered_permutation(fs);
    lemma_ordered_unique(walk(ns, cprefix, prefix), sort_files(fs));
}

} // verus!
