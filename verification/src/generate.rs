use vstd::prelude::*;

use crate::files::{TestEntry, TestView, tests_view};
use crate::text::{
    lemma_lex_lt_asymmetric, lemma_lex_lt_total, lemma_lex_lt_transitive, lex_lt, owned, push_str,
    str_eq, string_lt,
};
use crate::tokens::{
    Delimiter, OutTree, OutView, Spacing, out_append, out_group, out_ident, out_punct, out_push,
    outs_view,
};

verus! {

/// An identifier.
pub open spec fn ident(s: Seq<char>) -> OutView {
    OutView::Ident(s)
}

/// A punctuation that stands alone.
pub open spec fn punct(c: char) -> OutView {
    OutView::Punct(c, Spacing::Alone)
}

/// The path separator `::`.
pub open spec fn path_sep() -> Seq<OutView> {
    seq![OutView::Punct(':', Spacing::Joint), OutView::Punct(':', Spacing::Alone)]
}

/// The test attribute: the one given, else `tokio::test` for an async test, else `test`.
pub open spec fn attr_text(t: TestView) -> Seq<char> {
    match t.attr {
        Some(a) => a,
        None => if t.is_async {
            "tokio::test"@
        } else {
            "test"@
        },
    }
}

/// `#[attr]`, then `#[ignore = "reason"]` when the test is ignored.
pub open spec fn attribute_tokens(t: TestView) -> Seq<OutView> {
    seq![punct('#'), OutView::Group(Delimiter::Bracket, seq![OutView::Source(attr_text(t))])]
        + match t.ignore_reason {
        Some(r) => seq![
            punct('#'),
            OutView::Group(Delimiter::Bracket, seq![ident("ignore"@), punct('='), OutView::Str(r)]),
        ],
        None => Seq::empty(),
    }
}

/// `std::path::Path::new("PATH"), &__content`: the arguments of the call.
pub open spec fn call_arguments(t: TestView) -> Seq<OutView> {
    seq![ident("std"@)] + path_sep() + seq![ident("path"@)] + path_sep() + seq![ident("Path"@)]
        + path_sep() + seq![
        ident("new"@),
        OutView::Group(Delimiter::Parenthesis, seq![OutView::Str(t.path)]),
        punct(','),
        punct('&'),
        ident("__content"@),
    ]
}

/// The body of a test: read the fixture, call the test function, unwrap.
///
/// `let __content = std::fs::read_to_string("PATH").expect("failed to read fixture file: PATH");
///  super::test_fn(std::path::Path::new("PATH"), &__content)[.await].unwrap();`
pub open spec fn body_tokens(t: TestView) -> Seq<OutView> {
    seq![ident("let"@), ident("__content"@), punct('='), ident("std"@)] + path_sep() + seq![
        ident("fs"@),
    ] + path_sep() + seq![
        ident("read_to_string"@),
        OutView::Group(Delimiter::Parenthesis, seq![OutView::Str(t.path)]),
        punct('.'),
        ident("expect"@),
        OutView::Group(
            Delimiter::Parenthesis,
            seq![OutView::Str("failed to read fixture file: "@ + t.path)],
        ),
        punct(';'),
        ident("super"@),
    ] + path_sep() + seq![
        ident(t.test_fn),
        OutView::Group(Delimiter::Parenthesis, call_arguments(t)),
    ] + (if t.is_async {
        seq![punct('.'), ident("await"@)]
    } else {
        Seq::empty()
    }) + seq![
        punct('.'),
        ident("unwrap"@),
        OutView::Group(Delimiter::Parenthesis, Seq::empty()),
        punct(';'),
    ]
}

/// The tokens of one test function: attributes, `[async] fn NAME() { BODY }`.
pub open spec fn test_tokens(t: TestView) -> Seq<OutView> {
    attribute_tokens(t) + (if t.is_async {
        seq![ident("async"@)]
    } else {
        Seq::empty()
    }) + seq![
        ident("fn"@),
        ident(t.test_name),
        OutView::Group(Delimiter::Parenthesis, Seq::empty()),
        OutView::Group(Delimiter::Brace, body_tokens(t)),
    ]
}

/// The tokens of the test functions for `ts`, in order.
pub open spec fn tests_tokens(ts: Seq<TestView>) -> Seq<OutView>
    decreases ts.len(),
{
    if ts.len() == 0 {
        Seq::empty()
    } else {
        tests_tokens(ts.drop_last()) + test_tokens(ts.last())
    }
}

/// The tests of `ts` that go in the module `name`, in order.
pub open spec fn module_tests(ts: Seq<TestView>, name: Seq<char>) -> Seq<TestView>
    decreases ts.len(),
{
    if ts.len() == 0 {
        Seq::empty()
    } else {
        module_tests(ts.drop_last(), name) + if ts.last().module_name == name {
            seq![ts.last()]
        } else {
            Seq::empty()
        }
    }
}

/// Inserts `n` into the ordered names `s`, unless it is there already.
pub open spec fn insert_name(s: Seq<Seq<char>>, n: Seq<char>) -> Seq<Seq<char>>
    decreases s.len(),
{
    if s.len() == 0 {
        seq![n]
    } else if n == s[0] {
        s
    } else if lex_lt(n, s[0]) {
        seq![n] + s
    } else {
        seq![s[0]] + insert_name(s.drop_first(), n)
    }
}

/// The module names of the tests, each once, in string order: the keys of a
/// `BTreeMap<String, _>` filled with the tests' module names. The library keeps
/// them in an ordered vector instead (see `module_names_exec`), because vstd's
/// specification of `BTreeMap` proves little about `String` keys; the order is
/// that of `String`'s `Ord` (see `lex_lt`).
pub open spec fn module_names(ts: Seq<TestView>) -> Seq<Seq<char>>
    decreases ts.len(),
{
    if ts.len() == 0 {
        Seq::empty()
    } else {
        insert_name(module_names(ts.drop_last()), ts.last().module_name)
    }
}

/// The tokens of one module: `mod NAME { TESTS }`, or the bare tests for an empty name.
pub open spec fn module_tokens(ts: Seq<TestView>, name: Seq<char>) -> Seq<OutView> {
    if name.len() == 0 {
        tests_tokens(module_tests(ts, name))
    } else {
        seq![ident("mod"@), ident(name), OutView::Group(Delimiter::Brace, tests_tokens(module_tests(ts, name)))]
    }
}

/// The tokens of the modules `names`, in order.
pub open spec fn modules_tokens(ts: Seq<TestView>, names: Seq<Seq<char>>) -> Seq<OutView>
    decreases names.len(),
{
    if names.len() == 0 {
        Seq::empty()
    } else {
        modules_tokens(ts, names.drop_last()) + module_tokens(ts, names.last())
    }
}

/// Everything the macro emits for the tests: one module per test function name,
/// in string order, each holding its tests in the order they were collected.
pub open spec fn generated(ts: Seq<TestView>) -> Seq<OutView> {
    modules_tokens(ts, module_names(ts))
}

fn no_tokens() -> (v: Vec<OutTree>)
    ensures
        outs_view(v@) == Seq::<OutView>::empty(),
{
    let v: Vec<OutTree> = Vec::new();
    assert(outs_view(v@) =~= Seq::<OutView>::empty());
    v
}

fn push_path_sep(v: &mut Vec<OutTree>)
    ensures
        outs_view(final(v)@) == outs_view(old(v)@) + path_sep(),
{
    out_push(v, OutTree::Punct(':', Spacing::Joint));
    out_push(v, OutTree::Punct(':', Spacing::Alone));
    assert(outs_view(v@) =~= outs_view(old(v)@) + path_sep());
}

fn attribute_tokens_exec(t: &TestEntry) -> (v: Vec<OutTree>)
    ensures
        outs_view(v@) == attribute_tokens(t@),
{
    let attr_str = match &t.attr {
        Some(a) => a.clone(),
        None => if t.is_async {
            owned("tokio::test")
        } else {
            owned("test")
        },
    };
    assert(attr_str@ == attr_text(t@));
    let ghost attr_view = attr_str@;
    let mut v: Vec<OutTree> = Vec::new();
    out_push(&mut v, out_punct('#'));
    let mut inner: Vec<OutTree> = Vec::new();
    out_push(&mut inner, OutTree::Source(attr_str));
    assert(outs_view(inner@) =~= seq![OutView::Source(attr_view)]);
    out_push(&mut v, out_group(Delimiter::Bracket, inner));
    if let Some(reason) = &t.ignore_reason {
        out_push(&mut v, out_punct('#'));
        let mut g: Vec<OutTree> = Vec::new();
        out_push(&mut g, out_ident("ignore"));
        out_push(&mut g, out_punct('='));
        out_push(&mut g, OutTree::Str(reason.clone()));
        assert(outs_view(g@) =~= seq![ident("ignore"@), punct('='), OutView::Str(reason@)]);
        out_push(&mut v, out_group(Delimiter::Bracket, g));
    }
    assert(outs_view(v@) =~= attribute_tokens(t@));
    v
}

fn call_arguments_exec(t: &TestEntry) -> (v: Vec<OutTree>)
    ensures
        outs_view(v@) == call_arguments(t@),
{
    let mut v: Vec<OutTree> = Vec::new();
    out_push(&mut v, out_ident("std"));
    push_path_sep(&mut v);
    out_push(&mut v, out_ident("path"));
    push_path_sep(&mut v);
    out_push(&mut v, out_ident("Path"));
    push_path_sep(&mut v);
    out_push(&mut v, out_ident("new"));
    let mut p: Vec<OutTree> = Vec::new();
    out_push(&mut p, OutTree::Str(t.path.clone()));
    assert(outs_view(p@) =~= seq![OutView::Str(t.path@)]);
    out_push(&mut v, out_group(Delimiter::Parenthesis, p));
    out_push(&mut v, out_punct(','));
    out_push(&mut v, out_punct('&'));
    out_push(&mut v, out_ident("__content"));
    assert(outs_view(v@) =~= call_arguments(t@));
    v
}

fn body_tokens_exec(t: &TestEntry) -> (v: Vec<OutTree>)
    ensures
        outs_view(v@) == body_tokens(t@),
{
    let mut v: Vec<OutTree> = Vec::new();
    out_push(&mut v, out_ident("let"));
    out_push(&mut v, out_ident("__content"));
    out_push(&mut v, out_punct('='));
    out_push(&mut v, out_ident("std"));
    push_path_sep(&mut v);
    out_push(&mut v, out_ident("fs"));
    push_path_sep(&mut v);
    out_push(&mut v, out_ident("read_to_string"));
    let mut p: Vec<OutTree> = Vec::new();
    out_push(&mut p, OutTree::Str(t.path.clone()));
    assert(outs_view(p@) =~= seq![OutView::Str(t.path@)]);
    out_push(&mut v, out_group(Delimiter::Parenthesis, p));
    out_push(&mut v, out_punct('.'));
    out_push(&mut v, out_ident("expect"));
    let mut message = owned("failed to read fixture file: ");
    push_str(&mut message, t.path.as_str());
    let mut m: Vec<OutTree> = Vec::new();
    let ghost mv = message@;
    out_push(&mut m, OutTree::Str(message));
    assert(outs_view(m@) =~= seq![OutView::Str(mv)]);
    out_push(&mut v, out_group(Delimiter::Parenthesis, m));
    out_push(&mut v, out_punct(';'));
    out_push(&mut v, out_ident("super"));
    push_path_sep(&mut v);
    out_push(&mut v, OutTree::Ident(t.test_fn.clone()));
    out_push(&mut v, out_group(Delimiter::Parenthesis, call_arguments_exec(t)));
    if t.is_async {
        out_push(&mut v, out_punct('.'));
        out_push(&mut v, out_ident("await"));
    }
    out_push(&mut v, out_punct('.'));
    out_push(&mut v, out_ident("unwrap"));
    out_push(&mut v, out_group(Delimiter::Parenthesis, no_tokens()));
    out_push(&mut v, out_punct(';'));
    assert(outs_view(v@) =~= body_tokens(t@));
    v
}

/// The tokens of one test function.
pub fn test_tokens_exec(t: &TestEntry) -> (v: Vec<OutTree>)
    ensures
        outs_view(v@) == test_tokens(t@),
{
    let mut v = attribute_tokens_exec(t);
    if t.is_async {
        out_push(&mut v, out_ident("async"));
    }
    out_push(&mut v, out_ident("fn"));
    out_push(&mut v, OutTree::Ident(t.test_name.clone()));
    out_push(&mut v, out_group(Delimiter::Parenthesis, no_tokens()));
    out_push(&mut v, out_group(Delimiter::Brace, body_tokens_exec(t)));
    assert(outs_view(v@) =~= test_tokens(t@));
    v
}

proof fn lemma_insert_name_at(s: Seq<Seq<char>>, n: Seq<char>, pos: int)
    requires
        0 <= pos <= s.len(),
        forall|k: int| 0 <= k < pos ==> #[trigger] s[k] != n && !lex_lt(n, s[k]),
        pos == s.len() || s[pos] == n || lex_lt(n, s[pos]),
    ensures
        insert_name(s, n) == if pos < s.len() && s[pos] == n {
            s
        } else {
            s.insert(pos, n)
        },
    decreases pos,
{
    if s.len() == 0 {
        assert(s.insert(pos, n) =~= seq![n]);
    } else if pos == 0 {
        assert(s.insert(pos, n) =~= seq![n] + s);
    } else {
        let t = s.drop_first();
        assert forall|k: int| 0 <= k < pos - 1 implies #[trigger] t[k] != n && !lex_lt(n, t[k]) by {
            assert(t[k] == s[k + 1]);
        }
        lemma_insert_name_at(t, n, pos - 1);
        assert(s.insert(pos, n) =~= seq![s[0]] + t.insert(pos - 1, n));
        assert(s =~= seq![s[0]] + t);
    }
}

fn module_names_exec(tests: &Vec<TestEntry>) -> (names: Vec<String>)
    ensures
        crate::text::strings_view(names@) == module_names(tests_view(tests@)),
{
    let ghost tv = tests_view(tests@);
    let mut names: Vec<String> = Vec::new();
    let mut i: usize = 0;
    assert(crate::text::strings_view(names@) =~= module_names(tv.take(0)));
    while i < tests.len()
        invariant
            tv == tests_view(tests@),
            i <= tests@.len(),
            crate::text::strings_view(names@) == module_names(tv.take(i as int)),
        decreases tests@.len() - i,
    {
        let ghost s = crate::text::strings_view(names@);
        let n = &tests[i].module_name;
        let mut pos: usize = 0;
        while pos < names.len() && !str_eq(names[pos].as_str(), n.as_str()) && !string_lt(n.as_str(), names[pos].as_str())
            invariant
                s == crate::text::strings_view(names@),
                pos <= names@.len(),
                forall|k: int| 0 <= k < pos ==> #[trigger] s[k] != n@ && !lex_lt(n@, s[k]),
            decreases names@.len() - pos,
        {
            pos = pos + 1;
        }
        proof {
            lemma_insert_name_at(s, n@, pos as int);
            assert(tv.take(i + 1).drop_last() =~= tv.take(i as int));
            assert(tv.take(i + 1).last().module_name == n@);
        }
        if pos < names.len() && str_eq(names[pos].as_str(), n.as_str()) {
        } else {
            names.insert(pos, n.clone());
            assert(crate::text::strings_view(names@) =~= s.insert(pos as int, n@));
        }
        i = i + 1;
    }
    assert(tv.take(tests@.len() as int) =~= tv);
    names
}

/// The tokens of the tests of `tests` that go in the module `name`, in order.
fn module_body_exec(tests: &Vec<TestEntry>, name: &str) -> (v: Vec<OutTree>)
    ensures
        outs_view(v@) == tests_tokens(module_tests(tests_view(tests@), name@)),
{
    let ghost tv = tests_view(tests@);
    let mut v: Vec<OutTree> = Vec::new();
    let mut j: usize = 0;
    assert(outs_view(v@) =~= tests_tokens(module_tests(tv.take(0), name@)));
    while j < tests.len()
        invariant
            tv == tests_view(tests@),
            j <= tests@.len(),
            outs_view(v@) == tests_tokens(module_tests(tv.take(j as int), name@)),
        decreases tests@.len() - j,
    {
        let ghost before = module_tests(tv.take(j as int), name@);
        assert(tv.take(j + 1).drop_last() =~= tv.take(j as int));
        assert(tv.take(j + 1).last() == tests@[j as int]@);
        if str_eq(tests[j].module_name.as_str(), name) {
            let ghost after = before + seq![tests@[j as int]@];
            assert(after.drop_last() =~= before);
            out_append(&mut v, test_tokens_exec(&tests[j]));
        } else {
            assert(before + Seq::<TestView>::empty() =~= before);
        }
        j = j + 1;
    }
    assert(tv.take(tests@.len() as int) =~= tv);
    v
}

/// Generates the test functions: grouped into one module per test function
/// name (`mod NAME { .. }`, or no module for an empty name), the modules in
/// string order, each holding its tests in order. A test is
/// `#[attr] [#[ignore = "reason"]] [async] fn NAME() { .. }`, whose body reads
/// the fixture file and calls the test function on its path and content, then
/// unwraps the result (after awaiting it, when async).
pub fn generate_test_functions(tests: &Vec<TestEntry>) -> (out: Vec<OutTree>)
    ensures
        outs_view(out@) == generated(tests_view(tests@)),
{
    let ghost tv = tests_view(tests@);
    let names = module_names_exec(tests);
    let ghost nv = crate::text::strings_view(names@);
    let mut out: Vec<OutTree> = Vec::new();
    let mut k: usize = 0;
    assert(outs_view(out@) =~= modules_tokens(tv, nv.take(0)));
    while k < names.len()
        invariant
            tv == tests_view(tests@),
            nv == crate::text::strings_view(names@),
            nv == module_names(tv),
            k <= names@.len(),
            outs_view(out@) == modules_tokens(tv, nv.take(k as int)),
        decreases names@.len() - k,
    {
        assert(nv.take(k + 1).drop_last() =~= nv.take(k as int));
        assert(nv.take(k + 1).last() == names@[k as int]@);
        let name = &names[k];
        let body = module_body_exec(tests, name.as_str());
        if name.as_str().is_empty() {
            out_append(&mut out, body);
        } else {
            let mut m: Vec<OutTree> = Vec::new();
            out_push(&mut m, out_ident("mod"));
            out_push(&mut m, OutTree::Ident(name.clone()));
            out_push(&mut m, out_group(Delimiter::Brace, body));
            assert(outs_view(m@) =~= module_tokens(tv, name@));
            out_append(&mut out, m);
        }
        k = k + 1;
    }
    assert(nv.take(names@.len() as int) =~= nv);
    out
}

proof fn lemma_insert_name_position(s: Seq<Seq<char>>, n: Seq<char>) -> (pos: int)
    ensures
        0 <= pos <= s.len(),
        forall|k: int| 0 <= k < pos ==> #[trigger] s[k] != n && !lex_lt(n, s[k]),
        pos == s.len() || s[pos] == n || lex_lt(n, s[pos]),
        insert_name(s, n) == if pos < s.len() && s[pos] == n {
            s
        } else {
            s.insert(pos, n)
        },
    decreases s.len(),
{
    if s.len() == 0 || n == s[0] || lex_lt(n, s[0]) {
        lemma_insert_name_at(s, n, 0);
        0
    } else {
        let t = s.drop_first();
        let q = lemma_insert_name_position(t, n);
        assert forall|k: int| 0 <= k < q + 1 implies #[trigger] s[k] != n && !lex_lt(n, s[k]) by {
            if k > 0 {
                assert(s[k] == t[k - 1]);
            }
        }
        if q < t.len() {
            assert(s[q + 1] == t[q]);
        }
        lemma_insert_name_at(s, n, q + 1);
        q + 1
    }
}

/// Whether the names are in strictly increasing string order (so each occurs once).
pub open spec fn strictly_ordered(s: Seq<Seq<char>>) -> bool {
    forall|i: int, j: int| 0 <= i < j < s.len() ==> lex_lt(#[trigger] s[i], #[trigger] s[j])
}

proof fn lemma_insert_name_ordered(s: Seq<Seq<char>>, n: Seq<char>)
    requires
        strictly_ordered(s),
    ensures
        strictly_ordered(insert_name(s, n)),
        forall|x: Seq<char>| #[trigger] insert_name(s, n).contains(x) <==> (s.contains(x) || x == n),
{
    let pos = lemma_insert_name_position(s, n);
    if pos < s.len() && s[pos] == n {
    } else {
        let r = s.insert(pos, n);
        assert forall|i: int, j: int| 0 <= i < j < r.len() implies lex_lt(#[trigger] r[i], #[trigger] r[j]) by {
            if j < pos {
                assert(r[i] == s[i] && r[j] == s[j]);
            } else if i > pos {
                assert(r[i] == s[i - 1] && r[j] == s[j - 1]);
            } else if i < pos && j > pos {
                assert(r[i] == s[i] && r[j] == s[j - 1]);
            } else if j == pos {
                assert(r[i] == s[i] && r[j] == n);
                lemma_lex_lt_total(s[i], n);
            } else {
                assert(r[i] == n && r[j] == s[j - 1]);
                if j - 1 > pos {
                    lemma_lex_lt_transitive(n, s[pos], s[j - 1]);
                }
            }
        }
        assert forall|x: Seq<char>| #[trigger] r.contains(x) <==> (s.contains(x) || x == n) by {
            if r.contains(x) {
                let k = choose|k: int| 0 <= k < r.len() && r[k] == x;
                if k < pos {
                    assert(s[k] == x);
                } else if k > pos {
                    assert(s[k - 1] == x);
                }
            }
            if s.contains(x) {
                let k = choose|k: int| 0 <= k < s.len() && s[k] == x;
                if k < pos {
                    assert(r[k] == x);
                } else {
                    assert(r[k + 1] == x);
                }
            }
            if x == n {
                assert(r[pos] == x);
            }
        }
    }
}

/// The module names are in strictly increasing string order, and they are
/// exactly the module names of the tests.
pub proof fn law_module_names_ordered_and_complete(ts: Seq<TestView>)
    ensures
        strictly_ordered(module_names(ts)),
        forall|n: Seq<char>|
            #[trigger] module_names(ts).contains(n) <==> exists|i: int|
                0 <= i < ts.len() && #[trigger] ts[i].module_name == n,
    decreases ts.len(),
{
    if ts.len() > 0 {
        let init = ts.drop_last();
        law_module_names_ordered_and_complete(init);
        lemma_insert_name_ordered(module_names(init), ts.last().module_name);
        assert forall|n: Seq<char>| #[trigger] module_names(ts).contains(n) <==> exists|i: int|
            0 <= i < ts.len() && #[trigger] ts[i].module_name == n by {
            if module_names(init).contains(n) {
                let i = choose|i: int| 0 <= i < init.len() && #[trigger] init[i].module_name == n;
                assert(ts[i] == init[i]);
            }
            if exists|i: int| 0 <= i < ts.len() && #[trigger] ts[i].module_name == n {
                let i = choose|i: int| 0 <= i < ts.len() && #[trigger] ts[i].module_name == n;
                if i < init.len() {
                    assert(init[i] == ts[i]);
                }
            }
        }
    }
}

/// The tests of the modules `names`, module after module.
pub open spec fn grouped(ts: Seq<TestView>, names: Seq<Seq<char>>) -> Seq<TestView>
    decreases names.len(),
{
    if names.len() == 0 {
        Seq::empty()
    } else {
        grouped(ts, names.drop_last()) + module_tests(ts, names.last())
    }
}

proof fn lemma_grouped_push(init: Seq<TestView>, t: TestView, names: Seq<Seq<char>>)
    requires
        strictly_ordered(names),
    ensures
        grouped(init.push(t), names).to_multiset() == if names.contains(t.module_name) {
            grouped(init, names).to_multiset().insert(t)
        } else {
            grouped(init, names).to_multiset()
        },
    decreases names.len(),
{
    broadcast use vstd::seq_lib::lemma_multiset_commutative;

    let ts = init.push(t);
    if names.len() > 0 {
        let front = names.drop_last();
        let m = names.last();
        assert forall|i: int, j: int| 0 <= i < j < front.len() implies lex_lt(#[trigger] front[i], #[trigger] front[j]) by {
            assert(front[i] == names[i] && front[j] == names[j]);
        }
        lemma_grouped_push(init, t, front);
        assert(ts.drop_last() =~= init);
        vstd::seq_lib::to_multiset_build(module_tests(init, m), t);
        if front.contains(m) {
            let k = choose|k: int| 0 <= k < front.len() && front[k] == m;
            assert(names[k] == m && names[names.len() - 1] == m);
            crate::text::lemma_lex_lt_irreflexive(m);
        }
        assert(names.contains(t.module_name) <==> (front.contains(t.module_name) || m == t.module_name)) by {
            if names.contains(t.module_name) {
                let k = choose|k: int| 0 <= k < names.len() && names[k] == t.module_name;
                if k < front.len() {
                    assert(front[k] == names[k]);
                }
            }
            if front.contains(t.module_name) {
                let k = choose|k: int| 0 <= k < front.len() && front[k] == t.module_name;
                assert(names[k] == front[k]);
            }
        }
        let gi = grouped(init, front);
        let gt = grouped(ts, front);
        let mi = module_tests(init, m);
        let mt = module_tests(ts, m);
        assert(grouped(ts, names) == gt + mt);
        assert(grouped(init, names) == gi + mi);
        assert((gt + mt).to_multiset() == gt.to_multiset().add(mt.to_multiset()));
        assert((gi + mi).to_multiset() == gi.to_multiset().add(mi.to_multiset()));
        if m == t.module_name {
            assert(mt =~= mi.push(t));
            assert(!front.contains(t.module_name));
            assert(mt.to_multiset() == mi.to_multiset().insert(t));
            assert(grouped(ts, names).to_multiset() =~= grouped(init, names).to_multiset().insert(t));
        } else {
            assert(mt =~= mi);
            if front.contains(t.module_name) {
                assert(grouped(ts, names).to_multiset() =~= grouped(init, names).to_multiset().insert(t));
            } else {
                assert(grouped(ts, names).to_multiset() =~= grouped(init, names).to_multiset());
            }
        }
    }
}

/// Grouping the tests by module keeps every test exactly once: the tests of
/// all modules, module after module, are a permutation of the tests.
pub proof fn law_every_test_generated_once(ts: Seq<TestView>)
    ensures
        grouped(ts, module_names(ts)).to_multiset() == ts.to_multiset(),
{
    law_module_names_ordered_and_complete(ts);
    lemma_grouped_covers(ts, module_names(ts));
}

proof fn lemma_grouped_covers(ts: Seq<TestView>, names: Seq<Seq<char>>)
    requires
        strictly_ordered(names),
        forall|i: int| 0 <= i < ts.len() ==> names.contains(#[trigger] ts[i].module_name),
    ensures
        grouped(ts, names).to_multiset() == ts.to_multiset(),
    decreases ts.len(),
{
    if ts.len() == 0 {
        lemma_grouped_empty(ts, names);
        assert(ts =~= Seq::<TestView>::empty());
        assert(grouped(ts, names) =~= Seq::<TestView>::empty());
    } else {
        let init = ts.drop_last();
        assert forall|i: int| 0 <= i < init.len() implies names.contains(#[trigger] init[i].module_name) by {
            assert(init[i] == ts[i]);
        }
        lemma_grouped_covers(init, names);
        assert(init.push(ts.last()) =~= ts);
        assert(names.contains(ts[ts.len() - 1].module_name));
        lemma_grouped_push(init, ts.last(), names);
        vstd::seq_lib::to_multiset_build(init, ts.last());
    }
}

proof fn lemma_grouped_empty(ts: Seq<TestView>, names: Seq<Seq<char>>)
    requires
        ts.len() == 0,
    ensures
        grouped(ts, names).len() == 0,
    decreases names.len(),
{
    if names.len() > 0 {
        lemma_grouped_empty(ts, names.drop_last());
    }
}

proof fn lemma_module_tests_concat(a: Seq<TestView>, b: Seq<TestView>, n: Seq<char>)
    ensures
        module_tests(a + b, n) == module_tests(a, n) + module_tests(b, n),
    decreases b.len(),
{
    if b.len() == 0 {
        assert(a + b =~= a);
        assert(module_tests(a, n) + module_tests(b, n) =~= module_tests(a, n));
    } else {
        lemma_module_tests_concat(a, b.drop_last(), n);
        assert((a + b).drop_last() =~= a + b.drop_last());
        assert((a + b).last() == b.last());
        assert(module_tests(a + b, n) =~= module_tests(a, n) + module_tests(b, n));
    }
}

proof fn lemma_module_tests_nonempty(ts: Seq<TestView>, n: Seq<char>)
    ensures
        module_tests(ts, n).len() > 0 <==> exists|i: int| 0 <= i < ts.len() && #[trigger] ts[i].module_name == n,
    decreases ts.len(),
{
    if ts.len() > 0 {
        let init = ts.drop_last();
        lemma_module_tests_nonempty(init, n);
        if exists|i: int| 0 <= i < ts.len() && #[trigger] ts[i].module_name == n {
            let i = choose|i: int| 0 <= i < ts.len() && #[trigger] ts[i].module_name == n;
            if i < init.len() {
                assert(init[i] == ts[i]);
            }
        }
        if exists|i: int| 0 <= i < init.len() && #[trigger] init[i].module_name == n {
            let i = choose|i: int| 0 <= i < init.len() && #[trigger] init[i].module_name == n;
            assert(ts[i] == init[i]);
        }
    }
}

proof fn lemma_strictly_ordered_unique(s1: Seq<Seq<char>>, s2: Seq<Seq<char>>)
    requires
        strictly_ordered(s1),
        strictly_ordered(s2),
        forall|x: Seq<char>| s1.contains(x) <==> s2.contains(x),
    ensures
        s1 == s2,
    decreases s1.len() + s2.len(),
{
    if s1.len() == 0 {
        if s2.len() > 0 {
            assert(s2.contains(s2[0]));
        }
        assert(s1 =~= s2);
    } else if s2.len() == 0 {
        assert(s1.contains(s1[0]));
    } else {
        assert(s1.contains(s1[0]));
        assert(s2.contains(s2[0]));
        let k = choose|k: int| 0 <= k < s2.len() && s2[k] == s1[0];
        let m = choose|m: int| 0 <= m < s1.len() && s1[m] == s2[0];
        if k > 0 && m > 0 {
            assert(lex_lt(s2[0], s2[k]));
            assert(lex_lt(s1[0], s1[m]));
            lemma_lex_lt_asymmetric(s1[0], s2[0]);
        } else if k > 0 {
            assert(lex_lt(s2[0], s2[k]));
            crate::text::lemma_lex_lt_irreflexive(s1[0]);
        } else if m > 0 {
            assert(lex_lt(s1[0], s1[m]));
            crate::text::lemma_lex_lt_irreflexive(s2[0]);
        }
        let t1 = s1.drop_first();
        let t2 = s2.drop_first();
        assert forall|i: int, j: int| 0 <= i < j < t1.len() implies lex_lt(#[trigger] t1[i], #[trigger] t1[j]) by {
            assert(t1[i] == s1[i + 1] && t1[j] == s1[j + 1]);
        }
        assert forall|i: int, j: int| 0 <= i < j < t2.len() implies lex_lt(#[trigger] t2[i], #[trigger] t2[j]) by {
            assert(t2[i] == s2[i + 1] && t2[j] == s2[j + 1]);
        }
        assert forall|x: Seq<char>| t1.contains(x) <==> t2.contains(x) by {
            if t1.contains(x) {
                let i = choose|i: int| 0 <= i < t1.len() && t1[i] == x;
                assert(s1[i + 1] == x);
                assert(lex_lt(s1[0], s1[i + 1]));
                assert(s2.contains(x));
                let j = choose|j: int| 0 <= j < s2.len() && s2[j] == x;
                if j == 0 {
                    crate::text::lemma_lex_lt_irreflexive(x);
                }
                assert(t2[j - 1] == x);
            }
            if t2.contains(x) {
                let i = choose|i: int| 0 <= i < t2.len() && t2[i] == x;
                assert(s2[i + 1] == x);
                assert(lex_lt(s2[0], s2[i + 1]));
                assert(s1.contains(x));
                let j = choose|j: int| 0 <= j < s1.len() && s1[j] == x;
                if j == 0 {
                    crate::text::lemma_lex_lt_irreflexive(x);
                }
                assert(t1[j - 1] == x);
            }
        }
        lemma_strictly_ordered_unique(t1, t2);
        assert(s1 =~= seq![s1[0]] + t1);
        assert(s2 =~= seq![s2[0]] + t2);
    }
}

proof fn lemma_modules_tokens_congruent(t1: Seq<TestView>, t2: Seq<TestView>, names: Seq<Seq<char>>)
    requires
        forall|n: Seq<char>| #[trigger] module_tests(t1, n) == module_tests(t2, n),
    ensures
        modules_tokens(t1, names) == modules_tokens(t2, names),
    decreases names.len(),
{
    if names.len() > 0 {
        lemma_modules_tokens_congruent(t1, t2, names.drop_last());
        assert(module_tests(t1, names.last()) == module_tests(t2, names.last()));
    }
}

/// The generated tokens depend only on the tests of each module, in order: two
/// test lists that hold the same tests for every module, in the same order
/// within each module (however the modules' tests interleave), generate the
/// same tokens.
pub proof fn law_generated_depends_on_modules_only(t1: Seq<TestView>, t2: Seq<TestView>)
    requires
        forall|n: Seq<char>| #[trigger] module_tests(t1, n) == module_tests(t2, n),
    ensures
        generated(t1) == generated(t2),
{
    law_module_names_ordered_and_complete(t1);
    law_module_names_ordered_and_complete(t2);
    assert forall|x: Seq<char>| module_names(t1).contains(x) <==> module_names(t2).contains(x) by {
        lemma_module_tests_nonempty(t1, x);
        lemma_module_tests_nonempty(t2, x);
        assert(module_tests(t1, x) == module_tests(t2, x));
    }
    lemma_strictly_ordered_unique(module_names(t1), module_names(t2));
    lemma_modules_tokens_congruent(t1, t2, module_names(t1));
}

/// The tests of two harness parts whose module names differ: the generated
/// modules are those of both parts, in string order (`generated` keeps
/// `module_names` strictly ordered), and each module is generated as its own
/// part generates it.
pub proof fn law_generated_union(t1: Seq<TestView>, t2: Seq<TestView>)
    requires
        forall|i: int, j: int| 0 <= i < t1.len() && 0 <= j < t2.len() ==> #[trigger] t1[i].module_name != #[trigger] t2[j].module_name,
    ensures
        generated(t1 + t2) == modules_tokens(t1 + t2, module_names(t1 + t2)),
        strictly_ordered(module_names(t1 + t2)),
        forall|n: Seq<char>| #[trigger] module_names(t1 + t2).contains(n) <==> (module_names(t1).contains(n) || module_names(t2).contains(n)),
        forall|n: Seq<char>| module_names(t1).contains(n) ==> #[trigger] module_tokens(t1 + t2, n) == module_tokens(t1, n),
        forall|n: Seq<char>| module_names(t2).contains(n) ==> #[trigger] module_tokens(t1 + t2, n) == module_tokens(t2, n),
{
    let t = t1 + t2;
    law_module_names_ordered_and_complete(t);
    law_module_names_ordered_and_complete(t1);
    law_module_names_ordered_and_complete(t2);
    assert forall|n: Seq<char>| #[trigger] module_names(t).contains(n) <==> (module_names(t1).contains(n) || module_names(t2).contains(n)) by {
        if module_names(t).contains(n) {
            let i = choose|i: int| 0 <= i < t.len() && #[trigger] t[i].module_name == n;
            if i < t1.len() {
                assert(t1[i] == t[i]);
            } else {
                assert(t2[i - t1.len()] == t[i]);
            }
        }
        if module_names(t1).contains(n) {
            let i = choose|i: int| 0 <= i < t1.len() && #[trigger] t1[i].module_name == n;
            assert(t[i] == t1[i]);
        }
        if module_names(t2).contains(n) {
            let i = choose|i: int| 0 <= i < t2.len() && #[trigger] t2[i].module_name == n;
            assert(t[t1.len() + i] == t2[i]);
        }
    }
    assert forall|n: Seq<char>| module_names(t1).contains(n) implies #[trigger] module_tokens(t, n) == module_tokens(t1, n) by {
        lemma_module_tests_concat(t1, t2, n);
        lemma_module_tests_nonempty(t2, n);
        let i = choose|i: int| 0 <= i < t1.len() && #[trigger] t1[i].module_name == n;
        if module_tests(t2, n).len() > 0 {
            let j = choose|j: int| 0 <= j < t2.len() && #[trigger] t2[j].module_name == n;
            assert(t1[i].module_name != t2[j].module_name);
        }
        assert(module_tests(t, n) =~= module_tests(t1, n));
    }
    assert forall|n: Seq<char>| module_names(t2).contains(n) implies #[trigger] module_tokens(t, n) == module_tokens(t2, n) by {
        lemma_module_tests_concat(t1, t2, n);
        lemma_module_tests_nonempty(t1, n);
        let j = choose|j: int| 0 <= j < t2.len() && #[trigger] t2[j].module_name == n;
        if module_tests(t1, n).len() > 0 {
            let i = choose|i: int| 0 <= i < t1.len() && #[trigger] t1[i].module_name == n;
            assert(t1[i].module_name != t2[j].module_name);
        }
        assert(module_tests(t, n) =~= module_tests(t2, n));
    }
}

/// The layout of a generated test function. It opens with `#[ATTR]`, where
/// `ATTR` is the attribute the test was given, whether or not the test is
/// `async`; without one it is `tokio::test` for an async test and `test`
/// otherwise. An ignored test then has `#[ignore = "REASON"]`. Then come
/// `async` exactly for an async test, `fn`, the test's name, `()` and the body.
/// The body reads the fixture at the test's path, calls the test function with
/// that path, awaits the call exactly for an async test, and unwraps the
/// result. Returns the position of `fn`.
pub proof fn law_test_function_layout(t: TestView) -> (n: int)
    ensures
        n == (if t.ignore_reason is Some { 4int } else { 2int }) + (if t.is_async { 1int } else { 0int }),
        test_tokens(t).len() == n + 4,
        test_tokens(t)[0] == punct('#'),
        t.attr matches Some(a) ==> test_tokens(t)[1] == OutView::Group(
            Delimiter::Bracket,
            seq![OutView::Source(a)],
        ),
        t.attr is None && t.is_async ==> test_tokens(t)[1] == OutView::Group(
            Delimiter::Bracket,
            seq![OutView::Source("tokio::test"@)],
        ),
        t.attr is None && !t.is_async ==> test_tokens(t)[1] == OutView::Group(
            Delimiter::Bracket,
            seq![OutView::Source("test"@)],
        ),
        t.ignore_reason matches Some(r) ==> test_tokens(t)[2] == punct('#') && test_tokens(t)[3]
            == OutView::Group(Delimiter::Bracket, seq![ident("ignore"@), punct('='), OutView::Str(r)]),
        t.is_async ==> test_tokens(t)[n - 1] == ident("async"@),
        test_tokens(t)[n] == ident("fn"@),
        test_tokens(t)[n + 1] == ident(t.test_name),
        test_tokens(t)[n + 2] == OutView::Group(Delimiter::Parenthesis, Seq::<OutView>::empty()),
        test_tokens(t)[n + 3] matches OutView::Group(Delimiter::Brace, body) && {
            &&& body[9] == ident("read_to_string"@)
            &&& body[10] == OutView::Group(Delimiter::Parenthesis, seq![OutView::Str(t.path)])
            &&& body[13] == OutView::Group(
                Delimiter::Parenthesis,
                seq![OutView::Str("failed to read fixture file: "@ + t.path)],
            )
            &&& body[18] == ident(t.test_fn)
            &&& body[19] matches OutView::Group(Delimiter::Parenthesis, args) && args[9] == ident("new"@) && args[10]
                == OutView::Group(Delimiter::Parenthesis, seq![OutView::Str(t.path)])
            &&& body[20] == punct('.')
            &&& t.is_async ==> body[21] == ident("await"@) && body[22] == punct('.') && body[23] == ident("unwrap"@)
            &&& !t.is_async ==> body[21] == ident("unwrap"@)
        },
{
    let attrs = attribute_tokens(t);
    let k = if t.ignore_reason is Some { 4int } else { 2int };
    assert(attrs.len() == k);
    let n = k + if t.is_async { 1int } else { 0int };
    let body = body_tokens(t);
    let args = call_arguments(t);
    assert(args[10] == OutView::Group(Delimiter::Parenthesis, seq![OutView::Str(t.path)]));
    assert(test_tokens(t)[n + 3] == OutView::Group(Delimiter::Brace, body));
    assert(body[18] == ident(t.test_fn));
    n
}

/// A single test with a module name is generated inside `mod NAME { .. }`
/// holding exactly that test's function.
pub proof fn law_single_test_in_its_module(t: TestView)
    requires
        t.module_name.len() > 0,
    ensures
        generated(seq![t]) == seq![
            ident("mod"@),
            ident(t.module_name),
            OutView::Group(Delimiter::Brace, test_tokens(t)),
        ],
{
    let ts = seq![t];
    let name = t.module_name;
    assert(ts.drop_last() =~= Seq::<TestView>::empty());
    assert(module_names(ts.drop_last()) == Seq::<Seq<char>>::empty());
    assert(module_names(ts) == insert_name(Seq::<Seq<char>>::empty(), name));
    assert(module_names(ts) == seq![name]);
    assert(module_tests(ts.drop_last(), name) == Seq::<TestView>::empty());
    assert(module_tests(ts, name) =~= seq![t]);
    assert(tests_tokens(seq![t]) =~= tests_tokens(Seq::<TestView>::empty()) + test_tokens(t));
    assert(seq![name].drop_last() =~= Seq::<Seq<char>>::empty());
    assert(modules_tokens(ts, seq![name]) =~= modules_tokens(ts, Seq::<Seq<char>>::empty()) + module_tokens(ts, name));
}

/// The test functions of two lists of tests, one after the other, are those of
/// the first list then those of the second; a single test gives its own
/// function.
pub proof fn law_tests_tokens_concatenate(a: Seq<TestView>, b: Seq<TestView>)
    ensures
        tests_tokens(a + b) == tests_tokens(a) + tests_tokens(b),
        b.len() == 1 ==> tests_tokens(b) == test_tokens(b[0]),
    decreases b.len(),
{
    if b.len() == 0 {
        assert(a + b =~= a);
        assert(tests_tokens(a) + tests_tokens(b) =~= tests_tokens(a));
    } else {
        law_tests_tokens_concatenate(a, b.drop_last());
        assert((a + b).drop_last() =~= a + b.drop_last());
        assert((a + b).last() == b.last());
        assert(tests_tokens(a + b) =~= tests_tokens(a) + tests_tokens(b));
        if b.len() == 1 {
            assert(b.drop_last() =~= Seq::<TestView>::empty());
            assert(tests_tokens(b) =~= test_tokens(b[0]));
        }
    }
}

/// A module holds the tests named for it, in the order they come: the tests
/// of two lists for a module are those of the first list then those of the
/// second, and a single test belongs to exactly the module it names.
pub proof fn law_module_tests_in_order(a: Seq<TestView>, b: Seq<TestView>, name: Seq<char>)
    ensures
        module_tests(a + b, name) == module_tests(a, name) + module_tests(b, name),
        b.len() == 1 ==> module_tests(b, name) == if b[0].module_name == name {
            seq![b[0]]
        } else {
            Seq::<TestView>::empty()
        },
    decreases b.len(),
{
    if b.len() == 0 {
        assert(a + b =~= a);
        assert(module_tests(a, name) + module_tests(b, name) =~= module_tests(a, name));
    } else {
        law_module_tests_in_order(a, b.drop_last(), name);
        assert((a + b).drop_last() =~= a + b.drop_last());
        assert((a + b).last() == b.last());
        assert(module_tests(a + b, name) =~= module_tests(a, name) + module_tests(b, name));
        if b.len() == 1 {
            assert(b.drop_last() =~= Seq::<TestView>::empty());
            assert(module_tests(b.drop_last(), name) == Seq::<TestView>::empty());
            assert(module_tests(b, name) =~= if b[0].module_name == name {
                seq![b[0]]
            } else {
                Seq::<TestView>::empty()
            });
        }
    }
}

} // verus!
