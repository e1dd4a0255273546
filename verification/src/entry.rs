use vstd::prelude::*;

use crate::literal::{literal_ok, literal_readable, literal_value, parse_string_literal};
use crate::text::{str_eq, strings_view};
use crate::tokens::{Delimiter, TokenTree, TokenView, is_punct, is_punct_at, token_at, trees_view};

verus! {

/// One `{ test = .., root = .., pattern = .., .. }` entry of the macro input.
pub struct HarnessEntry {
    /// The name of the test function, also the name of the generated module.
    pub test_fn: String,
    /// The fixture directory, relative to the manifest directory.
    pub root: String,
    /// The regular expression that relative fixture paths are matched against.
    pub pattern: String,
    /// Whether the generated tests are `async fn`.
    pub is_async: bool,
    /// The test attribute to use in place of the default one.
    pub attr: Option<String>,
    /// Names of environment variables: the tests are ignored if any is set.
    pub ignore_if_env: Vec<String>,
    /// Names of environment variables: the tests are ignored unless one is set.
    pub ignore_unless_env: Vec<String>,
}

/// The mathematical model of a `HarnessEntry`.
pub struct EntryView {
    pub test_fn: Seq<char>,
    pub root: Seq<char>,
    pub pattern: Seq<char>,
    pub is_async: bool,
    pub attr: Option<Seq<char>>,
    pub ignore_if_env: Seq<Seq<char>>,
    pub ignore_unless_env: Seq<Seq<char>>,
}

/// The view of an optional string.
pub open spec fn opt_view(o: Option<String>) -> Option<Seq<char>> {
    match o {
        Some(s) => Some(s@),
        None => None,
    }
}

impl View for HarnessEntry {
    type V = EntryView;

    open spec fn view(&self) -> EntryView {
        EntryView {
            test_fn: self.test_fn@,
            root: self.root@,
            pattern: self.pattern@,
            is_async: self.is_async,
            attr: opt_view(self.attr),
            ignore_if_env: strings_view(self.ignore_if_env@),
            ignore_unless_env: strings_view(self.ignore_unless_env@),
        }
    }
}

/// The view of an optional token.
pub open spec fn token_opt_view(t: Option<&TokenTree>) -> Option<TokenView> {
    match t {
        Some(t) => Some(t.tree_view()),
        None => None,
    }
}

/// The string values of the literal tokens among `ts`, in order; other tokens are skipped.
pub open spec fn literal_values(ts: Seq<TokenView>) -> Seq<Seq<char>>
    decreases ts.len(),
{
    if ts.len() == 0 {
        Seq::empty()
    } else {
        literal_values(ts.drop_last()) + match ts.last() {
            TokenView::Literal(l) => seq![literal_value(l)],
            _ => Seq::empty(),
        }
    }
}

/// Whether every literal token among `ts` can be read.
pub open spec fn literals_ok_in(ts: Seq<TokenView>) -> bool {
    forall|i: int| 0 <= i < ts.len() ==> (#[trigger] ts[i] matches TokenView::Literal(l) ==> literal_ok(l))
}

/// The names that an `ignore_if_env` / `ignore_unless_env` value stands for:
/// one string literal, or the string literals inside a `[..]` group.
pub open spec fn env_list_value(t: Option<TokenView>) -> Seq<Seq<char>> {
    match t {
        Some(TokenView::Literal(l)) => seq![literal_value(l)],
        Some(TokenView::Group(Delimiter::Bracket, inner)) => literal_values(inner),
        _ => Seq::empty(),
    }
}

/// Whether a token is a literal.
pub open spec fn is_literal_token(t: TokenView) -> bool {
    t is Literal
}

/// The string value of a literal token.
pub open spec fn literal_token_value(t: TokenView) -> Seq<char> {
    literal_value(t->Literal_0)
}

/// An env-list value names what it writes: a single literal gives its one
/// value; a bracketed list gives one name for each literal token inside it,
/// in order, so that it has as many names as literal tokens (a list of one
/// literal gives one name); any other token, or none, gives no names.
pub proof fn law_env_list_names_its_literals(t: Option<TokenView>)
    ensures
        t matches Some(TokenView::Literal(l)) ==> env_list_value(t) == seq![literal_value(l)],
        t matches Some(TokenView::Group(Delimiter::Bracket, inner)) ==> {
            &&& env_list_value(t) == inner.filter(|x: TokenView| is_literal_token(x)).map_values(
                |x: TokenView| literal_token_value(x),
            )
            &&& env_list_value(t).len() == inner.filter(|x: TokenView| is_literal_token(x)).len()
        },
        !(t matches Some(TokenView::Literal(_))) && !(t matches Some(TokenView::Group(Delimiter::Bracket, _)))
            ==> env_list_value(t).len() == 0,
{
    if let Some(TokenView::Group(Delimiter::Bracket, inner)) = t {
        lemma_literal_values_filter(inner);
    }
}

proof fn lemma_literal_values_filter(ts: Seq<TokenView>)
    ensures
        literal_values(ts) == ts.filter(|x: TokenView| is_literal_token(x)).map_values(
            |x: TokenView| literal_token_value(x),
        ),
    decreases ts.len(),
{
    reveal(Seq::filter);
    let p = |x: TokenView| is_literal_token(x);
    let g = |x: TokenView| literal_token_value(x);
    if ts.len() == 0 {
        assert(ts.filter(p) =~= Seq::<TokenView>::empty());
        assert(literal_values(ts) =~= ts.filter(p).map_values(g));
    } else {
        let init = ts.drop_last();
        lemma_literal_values_filter(init);
        let fi = init.filter(p);
        assert(ts.filter(p) == if p(ts.last()) { fi.push(ts.last()) } else { fi });
        if p(ts.last()) {
            assert(fi.push(ts.last()).map_values(g) =~= fi.map_values(g) + seq![g(ts.last())]);
        } else {
            assert(fi.map_values(g) =~= fi.map_values(g) + Seq::<Seq<char>>::empty());
        }
    }
}

/// Whether the literals that `env_list_value` reads can be read.
pub open spec fn env_list_ok(t: Option<TokenView>) -> bool {
    match t {
        Some(TokenView::Literal(l)) => literal_ok(l),
        Some(TokenView::Group(Delimiter::Bracket, inner)) => literals_ok_in(inner),
        _ => true,
    }
}

/// Reads an `ignore_if_env` / `ignore_unless_env` value: either a single string
/// literal `"VAR"` or a bracketed list of string literals `["A", "B"]` (any
/// other token inside the brackets, such as the commas, is skipped). Anything
/// else, or no token at all, gives no names.
pub fn parse_env_list(token: Option<&TokenTree>) -> (names: Vec<String>)
    requires
        env_list_ok(token_opt_view(token)),
    ensures
        strings_view(names@) == env_list_value(token_opt_view(token)),
{
    match token {
        Some(TokenTree::Literal(lit)) => {
            let v = parse_string_literal(lit.as_str());
            let mut names: Vec<String> = Vec::new();
            names.push(v);
            assert(strings_view(names@) =~= seq![v@]);
            names
        },
        Some(TokenTree::Group(Delimiter::Bracket, inner)) => {
            let ghost iv = token_opt_view(token)->0->Group_1;
            assert(iv.len() == inner@.len());
            let mut names: Vec<String> = Vec::new();
            let mut j: usize = 0;
            while j < inner.len()
                invariant
                    iv.len() == inner@.len(),
                    forall|k: int| 0 <= k < iv.len() ==> iv[k] == #[trigger] inner@[k].tree_view(),
                    literals_ok_in(iv),
                    j <= inner@.len(),
                    strings_view(names@) == literal_values(iv.take(j as int)),
                decreases inner@.len() - j,
            {
                assert(iv.take(j + 1).drop_last() =~= iv.take(j as int));
                assert(iv.take(j + 1).last() == inner@[j as int].tree_view());
                match &inner[j] {
                    TokenTree::Literal(lit) => {
                        assert(iv[j as int] matches TokenView::Literal(_));
                        let v = parse_string_literal(lit.as_str());
                        names.push(v);
                        assert(strings_view(names@) =~= literal_values(iv.take(j as int)) + seq![v@]);
                    },
                    _ => {
                        assert(strings_view(names@) =~= literal_values(iv.take(j as int)) + Seq::<Seq<char>>::empty());
                    },
                }
                j = j + 1;
            }
            assert(iv.take(inner@.len() as int) =~= iv);
            names
        },
        _ => Vec::new(),
    }
}

/// The fields gathered while reading an entry, and whether every literal read
/// so far could be read.
pub struct EntryScan {
    pub test_fn: Option<Seq<char>>,
    pub root: Option<Seq<char>>,
    pub pattern: Option<Seq<char>>,
    pub is_async: bool,
    pub attr: Option<Seq<char>>,
    pub ignore_if_env: Seq<Seq<char>>,
    pub ignore_unless_env: Seq<Seq<char>>,
    pub ok: bool,
}

/// Nothing read yet.
pub open spec fn scan_start() -> EntryScan {
    EntryScan {
        test_fn: None,
        root: None,
        pattern: None,
        is_async: false,
        attr: None,
        ignore_if_env: Seq::empty(),
        ignore_unless_env: Seq::empty(),
        ok: true,
    }
}

/// The position after taking one token at `p`, if there is one.
pub open spec fn next_pos(ts: Seq<TokenView>, p: int) -> int {
    if p < ts.len() {
        p + 1
    } else {
        p
    }
}

/// The position after an optional `,` at `p`.
pub open spec fn after_comma(ts: Seq<TokenView>, p: int) -> int {
    if is_punct_at(ts, p, ',') {
        p + 1
    } else {
        p
    }
}

/// Reads the value of `key = ` from position `p`: a known key takes the next token
/// and keeps it when it has the expected kind; an unknown key takes nothing.
/// Returns the position after the value and the updated fields.
pub open spec fn scan_value(ts: Seq<TokenView>, p: int, key: Seq<char>, f: EntryScan) -> (int, EntryScan) {
    let t = token_at(ts, p);
    let q = next_pos(ts, p);
    if key == "test"@ {
        (q, match t {
            Some(TokenView::Ident(name)) => EntryScan { test_fn: Some(name), ..f },
            _ => f,
        })
    } else if key == "root"@ {
        (q, match t {
            Some(TokenView::Literal(l)) => EntryScan { root: Some(literal_value(l)), ok: f.ok && literal_ok(l), ..f },
            _ => f,
        })
    } else if key == "pattern"@ {
        (q, match t {
            Some(TokenView::Literal(l)) => EntryScan { pattern: Some(literal_value(l)), ok: f.ok && literal_ok(l), ..f },
            _ => f,
        })
    } else if key == "attr"@ {
        (q, match t {
            Some(TokenView::Literal(l)) => EntryScan { attr: Some(literal_value(l)), ok: f.ok && literal_ok(l), ..f },
            _ => f,
        })
    } else if key == "ignore_if_env"@ {
        (q, EntryScan { ignore_if_env: env_list_value(t), ok: f.ok && env_list_ok(t), ..f })
    } else if key == "ignore_unless_env"@ {
        (q, EntryScan { ignore_unless_env: env_list_value(t), ok: f.ok && env_list_ok(t), ..f })
    } else {
        (p, f)
    }
}

/// One step of reading an entry, at the token at `pos`. Tokens other than
/// identifiers are skipped. A bare `async` sets the async flag and may be
/// followed by `= "attr"`. Any other identifier is a key: the token after it is
/// taken, and when that token is a punctuation other than `=` the key is
/// dropped; otherwise the value is read. An optional `,` follows.
pub open spec fn scan_step(ts: Seq<TokenView>, pos: int, f: EntryScan) -> (int, EntryScan) {
    match ts[pos] {
        TokenView::Ident(key) => {
            let p = pos + 1;
            if key == "async"@ {
                let g = EntryScan { is_async: true, ..f };
                if is_punct_at(ts, p, '=') {
                    let p1 = p + 1;
                    match token_at(ts, p1) {
                        Some(TokenView::Literal(l)) => (
                            after_comma(ts, p1 + 1),
                            EntryScan { attr: Some(literal_value(l)), ok: g.ok && literal_ok(l), ..g },
                        ),
                        _ => (after_comma(ts, next_pos(ts, p1)), g),
                    }
                } else {
                    (after_comma(ts, p), g)
                }
            } else if p < ts.len() && (ts[p] matches TokenView::Punct(c) && c != '=') {
                (p + 1, f)
            } else {
                let (q, g) = scan_value(ts, next_pos(ts, p), key, f);
                (after_comma(ts, q), g)
            }
        },
        _ => (pos + 1, f),
    }
}

/// Reads the tokens of an entry from position `pos` on.
pub open spec fn scan_from(ts: Seq<TokenView>, pos: int, f: EntryScan) -> EntryScan
    decreases ts.len() - pos,
{
    if 0 <= pos < ts.len() {
        let (p, g) = scan_step(ts, pos, f);
        if pos < p <= ts.len() {
            scan_from(ts, p, g)
        } else {
            g
        }
    } else {
        f
    }
}

/// The fields read from all the tokens of an entry.
pub open spec fn entry_scan(ts: Seq<TokenView>) -> EntryScan {
    scan_from(ts, 0, scan_start())
}

/// The entry read from its tokens: there is one when `test`, `root` and `pattern` were all given.
pub open spec fn single_entry(ts: Seq<TokenView>) -> Option<EntryView> {
    let f = entry_scan(ts);
    if f.test_fn is Some && f.root is Some && f.pattern is Some {
        Some(EntryView {
            test_fn: f.test_fn->0,
            root: f.root->0,
            pattern: f.pattern->0,
            is_async: f.is_async,
            attr: f.attr,
            ignore_if_env: f.ignore_if_env,
            ignore_unless_env: f.ignore_unless_env,
        })
    } else {
        None
    }
}

proof fn lemma_scan_step_advances(ts: Seq<TokenView>, pos: int, f: EntryScan)
    requires
        0 <= pos < ts.len(),
    ensures
        pos < scan_step(ts, pos, f).0 <= ts.len(),
{
}

proof fn lemma_scan_ok_monotone(ts: Seq<TokenView>, pos: int, f: EntryScan)
    requires
        scan_from(ts, pos, f).ok,
    ensures
        f.ok,
    decreases ts.len() - pos,
{
    if 0 <= pos < ts.len() {
        lemma_scan_step_advances(ts, pos, f);
        let (p, g) = scan_step(ts, pos, f);
        lemma_scan_ok_monotone(ts, p, g);
    }
}

/// Whether `parse_env_list` can read the literals of an env-list value.
pub fn env_list_readable(token: Option<&TokenTree>) -> (ok: bool)
    ensures
        ok == env_list_ok(token_opt_view(token)),
{
    match token {
        Some(TokenTree::Literal(lit)) => literal_readable(lit.as_str()),
        Some(TokenTree::Group(Delimiter::Bracket, inner)) => {
            let ghost iv = token_opt_view(token)->0->Group_1;
            assert(token_opt_view(token) == Some(TokenView::Group(Delimiter::Bracket, iv)));
            assert(iv.len() == inner@.len());
            let mut j: usize = 0;
            while j < inner.len()
                invariant
                    token_opt_view(token) == Some(TokenView::Group(Delimiter::Bracket, iv)),
                    iv.len() == inner@.len(),
                    forall|k: int| 0 <= k < iv.len() ==> iv[k] == #[trigger] inner@[k].tree_view(),
                    j <= inner@.len(),
                    forall|k: int| 0 <= k < j ==> (#[trigger] iv[k] matches TokenView::Literal(l) ==> literal_ok(l)),
                decreases inner@.len() - j,
            {
                assert(iv[j as int] == inner@[j as int].tree_view());
                if let TokenTree::Literal(lit) = &inner[j] {
                    if !literal_readable(lit.as_str()) {
                        assert(iv[j as int] == TokenView::Literal(lit@));
                        assert(!literals_ok_in(iv));
                        return false;
                    }
                }
                j = j + 1;
            }
            true
        },
        _ => true,
    }
}

/// The fields gathered so far while reading an entry, and whether every literal
/// read so far could be read.
struct EntryFields {
    test_fn: Option<String>,
    root: Option<String>,
    pattern: Option<String>,
    is_async: bool,
    attr: Option<String>,
    ignore_if_env: Vec<String>,
    ignore_unless_env: Vec<String>,
    ok: bool,
}

spec fn fields_view(b: EntryFields) -> EntryScan {
    EntryScan {
        test_fn: opt_view(b.test_fn),
        root: opt_view(b.root),
        pattern: opt_view(b.pattern),
        is_async: b.is_async,
        attr: opt_view(b.attr),
        ignore_if_env: strings_view(b.ignore_if_env@),
        ignore_unless_env: strings_view(b.ignore_unless_env@),
        ok: b.ok,
    }
}

/// Reads the literal at position `p` of `ts` into `field` when it can be read,
/// else clears `ok`.
fn read_literal_into(ts: &Vec<TokenTree>, p: usize, field: &mut Option<String>, ok: &mut bool)
    requires
        *old(ok),
    ensures
        match token_at(trees_view(ts@), p as int) {
            Some(TokenView::Literal(l)) => *final(ok) == literal_ok(l) && (*final(ok) ==> opt_view(*final(field)) == Some(literal_value(l))),
            _ => *final(ok) && *final(field) == *old(field),
        },
{
    if p < ts.len() {
        if let TokenTree::Literal(lit) = &ts[p] {
            if literal_readable(lit.as_str()) {
                *field = Some(parse_string_literal(lit.as_str()));
            } else {
                *ok = false;
            }
        }
    }
}

/// Reads the env-list value at position `p` of `ts` into `field` when its
/// literals can be read, else clears `ok`.
fn read_env_list_into(ts: &Vec<TokenTree>, p: usize, field: &mut Vec<String>, ok: &mut bool)
    requires
        *old(ok),
    ensures
        *final(ok) == env_list_ok(token_at(trees_view(ts@), p as int)),
        *final(ok) ==> strings_view(final(field)@) == env_list_value(token_at(trees_view(ts@), p as int)),
{
    let t = if p < ts.len() { Some(&ts[p]) } else { None };
    assert(token_opt_view(t) == token_at(trees_view(ts@), p as int));
    if env_list_readable(t) {
        *field = parse_env_list(t);
    } else {
        *ok = false;
    }
}

fn scan_value_exec(ts: &Vec<TokenTree>, p: usize, key: &str, b: &mut EntryFields) -> (q: usize)
    requires
        p <= ts@.len(),
        old(b).ok,
    ensures
        q == scan_value(trees_view(ts@), p as int, key@, fields_view(*old(b))).0,
        final(b).ok == scan_value(trees_view(ts@), p as int, key@, fields_view(*old(b))).1.ok,
        final(b).ok ==> fields_view(*final(b)) == scan_value(trees_view(ts@), p as int, key@, fields_view(*old(b))).1,
{
    let q = if p < ts.len() { p + 1 } else { p };
    if str_eq(key, "test") {
        if p < ts.len() {
            if let TokenTree::Ident(name) = &ts[p] {
                b.test_fn = Some(name.clone());
            }
        }
        q
    } else if str_eq(key, "root") {
        read_literal_into(ts, p, &mut b.root, &mut b.ok);
        q
    } else if str_eq(key, "pattern") {
        read_literal_into(ts, p, &mut b.pattern, &mut b.ok);
        q
    } else if str_eq(key, "attr") {
        read_literal_into(ts, p, &mut b.attr, &mut b.ok);
        q
    } else if str_eq(key, "ignore_if_env") {
        read_env_list_into(ts, p, &mut b.ignore_if_env, &mut b.ok);
        q
    } else if str_eq(key, "ignore_unless_env") {
        read_env_list_into(ts, p, &mut b.ignore_unless_env, &mut b.ok);
        q
    } else {
        p
    }
}

fn scan_step_exec(ts: &Vec<TokenTree>, pos: usize, b: &mut EntryFields) -> (next: usize)
    requires
        pos < ts@.len(),
        old(b).ok,
    ensures
        next == scan_step(trees_view(ts@), pos as int, fields_view(*old(b))).0,
        final(b).ok == scan_step(trees_view(ts@), pos as int, fields_view(*old(b))).1.ok,
        final(b).ok ==> fields_view(*final(b)) == scan_step(trees_view(ts@), pos as int, fields_view(*old(b))).1,
{
    let n = ts.len();
    match &ts[pos] {
        TokenTree::Ident(key) => {
            let p = pos + 1;
            if str_eq(key.as_str(), "async") {
                b.is_async = true;
                let mut q = p;
                if p < n && is_punct(&ts[p], '=') {
                    let p1 = p + 1;
                    q = p1;
                    if p1 < n {
                        q = p1 + 1;
                    }
                    read_literal_into(ts, p1, &mut b.attr, &mut b.ok);
                }
                if q < n && is_punct(&ts[q], ',') {
                    q = q + 1;
                }
                q
            } else {
                if p < n {
                    if let TokenTree::Punct(c) = &ts[p] {
                        if *c != '=' {
                            return p + 1;
                        }
                    }
                }
                let p1 = if p < n { p + 1 } else { p };
                let mut q = scan_value_exec(ts, p1, key.as_str(), b);
                if q < n && is_punct(&ts[q], ',') {
                    q = q + 1;
                }
                q
            }
        },
        _ => pos + 1,
    }
}

/// Reads all the tokens of an entry; stops at the first literal that cannot be read.
fn scan_entry(stream: &Vec<TokenTree>) -> (b: EntryFields)
    ensures
        b.ok == entry_scan(trees_view(stream@)).ok,
        b.ok ==> fields_view(b) == entry_scan(trees_view(stream@)),
{
    let ghost tv = trees_view(stream@);
    let mut b = EntryFields {
        test_fn: None,
        root: None,
        pattern: None,
        is_async: false,
        attr: None,
        ignore_if_env: Vec::new(),
        ignore_unless_env: Vec::new(),
        ok: true,
    };
    assert(strings_view(b.ignore_if_env@) =~= Seq::<Seq<char>>::empty());
    assert(strings_view(b.ignore_unless_env@) =~= Seq::<Seq<char>>::empty());
    assert(fields_view(b) == scan_start());
    let mut i: usize = 0;
    while i < stream.len()
        invariant
            tv == trees_view(stream@),
            i <= stream@.len(),
            b.ok,
            scan_from(tv, i as int, fields_view(b)) == entry_scan(tv),
        decreases stream@.len() - i,
    {
        proof {
            lemma_scan_step_advances(tv, i as int, fields_view(b));
        }
        let ghost (p, g) = scan_step(tv, i as int, fields_view(b));
        i = scan_step_exec(stream, i, &mut b);
        if !b.ok {
            proof {
                if entry_scan(tv).ok {
                    lemma_scan_ok_monotone(tv, p, g);
                }
            }
            return b;
        }
    }
    b
}

/// Whether `parse_single_entry` can read every literal it reads in the entry's tokens.
pub fn entry_readable(stream: &Vec<TokenTree>) -> (ok: bool)
    ensures
        ok == entry_scan(trees_view(stream@)).ok,
{
    scan_entry(stream).ok
}

/// Reads one entry from the tokens inside its braces. Keys are `test = ident`,
/// `root = "..."`, `pattern = "..."`, `attr = "..."`, `ignore_if_env = ..`,
/// `ignore_unless_env = ..` and the bare flag `async` (optionally `async = "attr"`);
/// a later key overrides an earlier one. There is an entry only when `test`,
/// `root` and `pattern` were all given.
pub fn parse_single_entry(stream: &Vec<TokenTree>) -> (entry: Option<HarnessEntry>)
    requires
        entry_scan(trees_view(stream@)).ok,
    ensures
        match entry {
            Some(e) => single_entry(trees_view(stream@)) == Some(e@),
            None => single_entry(trees_view(stream@)) is None,
        },
{
    let b = scan_entry(stream);
    match (b.test_fn, b.root, b.pattern) {
        (Some(test_fn), Some(root), Some(pattern)) => Some(
            HarnessEntry {
                test_fn,
                root,
                pattern,
                is_async: b.is_async,
                attr: b.attr,
                ignore_if_env: b.ignore_if_env,
                ignore_unless_env: b.ignore_unless_env,
            },
        ),
        _ => None,
    }
}

/// What a top-level token gives: a brace group gives its entry, if it forms one.
pub open spec fn token_entry(t: TokenView) -> Seq<EntryView> {
    match t {
        TokenView::Group(Delimiter::Brace, inner) => match single_entry(inner) {
            Some(e) => seq![e],
            None => Seq::empty(),
        },
        _ => Seq::empty(),
    }
}

/// The entries of the macro input: one for each top-level brace group that
/// forms an entry, in order. Every other token is skipped.
pub open spec fn harness_entries(ts: Seq<TokenView>) -> Seq<EntryView>
    decreases ts.len(),
{
    if ts.len() == 0 {
        Seq::empty()
    } else {
        harness_entries(ts.drop_last()) + token_entry(ts.last())
    }
}

/// Whether every literal that reading the input reads can be read.
pub open spec fn harness_input_ok(ts: Seq<TokenView>) -> bool {
    forall|i: int|
        0 <= i < ts.len() ==> (#[trigger] ts[i] matches TokenView::Group(Delimiter::Brace, inner)
            ==> entry_scan(inner).ok)
}

/// The views of a sequence of entries.
pub open spec fn entries_view(es: Seq<HarnessEntry>) -> Seq<EntryView> {
    es.map_values(|e: HarnessEntry| e@)
}

/// Reads the entries of the macro input: each `{ .. }` group is read by
/// `parse_single_entry`, and kept when it forms an entry.
pub fn parse_harness_entries(input: &Vec<TokenTree>) -> (entries: Vec<HarnessEntry>)
    requires
        harness_input_ok(trees_view(input@)),
    ensures
        entries_view(entries@) == harness_entries(trees_view(input@)),
{
    let ghost tv = trees_view(input@);
    let mut entries: Vec<HarnessEntry> = Vec::new();
    let mut i: usize = 0;
    assert(entries_view(entries@) =~= harness_entries(tv.take(0)));
    while i < input.len()
        invariant
            tv == trees_view(input@),
            harness_input_ok(tv),
            i <= input@.len(),
            entries_view(entries@) == harness_entries(tv.take(i as int)),
        decreases input@.len() - i,
    {
        assert(tv.take(i + 1).drop_last() =~= tv.take(i as int));
        assert(tv.take(i + 1).last() == tv[i as int]);
        let ghost before = entries@;
        match &input[i] {
            TokenTree::Group(Delimiter::Brace, inner) => {
                assert(tv[i as int] matches TokenView::Group(Delimiter::Brace, _));
                assert(tv[i as int]->Group_1 =~= trees_view(inner@));
                if let Some(e) = parse_single_entry(inner) {
                    entries.push(e);
                    assert(entries_view(entries@) =~= entries_view(before) + seq![e@]);
                } else {
                    assert(entries_view(entries@) =~= entries_view(before) + Seq::<EntryView>::empty());
                }
            },
            _ => {
                assert(token_entry(tv[i as int]) =~= Seq::<EntryView>::empty());
                assert(entries_view(entries@) =~= entries_view(before) + Seq::<EntryView>::empty());
            },
        }
        i = i + 1;
        if i < input.len() && is_punct(&input[i], ',') {
            assert(tv.take(i + 1).drop_last() =~= tv.take(i as int));
            assert(token_entry(tv[i as int]) =~= Seq::<EntryView>::empty());
            assert(entries_view(entries@) =~= harness_entries(tv.take(i as int)) + Seq::<EntryView>::empty());
            i = i + 1;
        }
    }
    assert(tv.take(input@.len() as int) =~= tv);
    entries
}

/// Whether `parse_harness_entries` can read every literal it reads in the input.
pub fn harness_input_readable(input: &Vec<TokenTree>) -> (ok: bool)
    ensures
        ok == harness_input_ok(trees_view(input@)),
{
    let ghost tv = trees_view(input@);
    let mut i: usize = 0;
    while i < input.len()
        invariant
            tv == trees_view(input@),
            i <= input@.len(),
            forall|k: int|
                0 <= k < i ==> (#[trigger] tv[k] matches TokenView::Group(Delimiter::Brace, inner)
                    ==> entry_scan(inner).ok),
        decreases input@.len() - i,
    {
        if let TokenTree::Group(Delimiter::Brace, inner) = &input[i] {
            assert(tv[i as int] matches TokenView::Group(Delimiter::Brace, _));
            assert(tv[i as int]->Group_1 =~= trees_view(inner@));
            if !entry_readable(inner) {
                return false;
            }
        }
        i = i + 1;
    }
    true
}

/// One item of a well-formed entry, as it is written between the braces.
pub enum EntryItem {
    /// `async,`
    AsyncFlag,
    /// `async = LITERAL,` (the literal's text)
    AsyncAttr(Seq<char>),
    /// `KEY = VALUE,` with a single-token value
    Pair(Seq<char>, TokenView),
}

/// The tokens that write an item.
pub open spec fn item_tokens(it: EntryItem) -> Seq<TokenView> {
    match it {
        EntryItem::AsyncFlag => seq![TokenView::Ident("async"@), TokenView::Punct(',')],
        EntryItem::AsyncAttr(l) => seq![
            TokenView::Ident("async"@),
            TokenView::Punct('='),
            TokenView::Literal(l),
            TokenView::Punct(','),
        ],
        EntryItem::Pair(k, v) => seq![TokenView::Ident(k), TokenView::Punct('='), v, TokenView::Punct(',')],
    }
}

/// The tokens that write the items, one after the other.
pub open spec fn items_tokens(items: Seq<EntryItem>) -> Seq<TokenView>
    decreases items.len(),
{
    if items.len() == 0 {
        Seq::empty()
    } else {
        item_tokens(items[0]) + items_tokens(items.drop_first())
    }
}

/// Whether `key` is one of the keys an entry reads a value for.
pub open spec fn is_known_key(key: Seq<char>) -> bool {
    key == "test"@ || key == "root"@ || key == "pattern"@ || key == "attr"@ || key == "ignore_if_env"@
        || key == "ignore_unless_env"@
}

/// Whether an item reads as written: a `KEY = VALUE` item is not keyed `async`
/// (that is `AsyncAttr`), and the value of an unknown key is not the
/// identifier `async`, which the reader would take for the async flag.
pub open spec fn item_ok(it: EntryItem) -> bool {
    match it {
        EntryItem::Pair(k, v) => k != "async"@ && (!is_known_key(k) ==> v != TokenView::Ident("async"@)),
        _ => true,
    }
}

/// What an item does to the fields: the async flag sets `is_async`, with an
/// attribute also sets `attr`; a known key takes its value from the item (as
/// `scan_value` reads a value token), an unknown key changes nothing.
pub open spec fn apply_item(f: EntryScan, it: EntryItem) -> EntryScan {
    match it {
        EntryItem::AsyncFlag => EntryScan { is_async: true, ..f },
        EntryItem::AsyncAttr(l) => EntryScan {
            is_async: true,
            attr: Some(literal_value(l)),
            ok: f.ok && literal_ok(l),
            ..f
        },
        EntryItem::Pair(k, v) => scan_value(seq![v], 0, k, f).1,
    }
}

/// The fields after the items, taken in order.
pub open spec fn apply_items(f: EntryScan, items: Seq<EntryItem>) -> EntryScan
    decreases items.len(),
{
    if items.len() == 0 {
        f
    } else {
        apply_items(apply_item(f, items[0]), items.drop_first())
    }
}

proof fn lemma_scan_value_shift(a: Seq<TokenView>, b: Seq<TokenView>, p: int, key: Seq<char>, f: EntryScan)
    requires
        0 <= p,
    ensures
        scan_value(a + b, a.len() + p, key, f).0 == a.len() + scan_value(b, p, key, f).0,
        scan_value(a + b, a.len() + p, key, f).1 == scan_value(b, p, key, f).1,
{
    if p < b.len() {
        assert((a + b)[a.len() + p] == b[p]);
    }
    assert(token_at(a + b, a.len() + p) == token_at(b, p));
}

proof fn lemma_scan_step_shift(a: Seq<TokenView>, b: Seq<TokenView>, i: int, f: EntryScan)
    requires
        0 <= i < b.len(),
    ensures
        scan_step(a + b, a.len() + i, f).0 == a.len() + scan_step(b, i, f).0,
        scan_step(a + b, a.len() + i, f).1 == scan_step(b, i, f).1,
{
    let t = a + b;
    let n = a.len();
    assert forall|k: int| 0 <= k < b.len() implies t[n + k] == b[k] by {}
    assert forall|k: int, c: char| 0 <= k implies is_punct_at(t, n + k, c) == is_punct_at(b, k, c) by {
        if k < b.len() {
            assert(t[n + k] == b[k]);
        }
    }
    assert forall|k: int| 0 <= k implies #[trigger] token_at(t, n + k) == token_at(b, k) by {
        if k < b.len() {
            assert(t[n + k] == b[k]);
        }
    }
    assert(t[n + i] == b[i]);
    match b[i] {
        TokenView::Ident(key) => {
            let p = i + 1;
            assert(is_punct_at(t, n + p, '=') == is_punct_at(b, p, '='));
            if p < b.len() {
                assert(t[n + p] == b[p]);
            }
            lemma_scan_value_shift(a, b, next_pos(b, p), key, f);
            assert(next_pos(t, n + p) == n + next_pos(b, p));
            let (q, g) = scan_value(b, next_pos(b, p), key, f);
            assert(is_punct_at(t, n + q, ',') == is_punct_at(b, q, ','));
            assert(token_at(t, n + p + 1) == token_at(b, p + 1));
            assert(next_pos(t, n + p + 1) == n + next_pos(b, p + 1));
            assert(is_punct_at(t, n + next_pos(b, p + 1), ',') == is_punct_at(b, next_pos(b, p + 1), ','));
            assert(is_punct_at(t, n + p + 2, ',') == is_punct_at(b, p + 2, ','));
            assert(is_punct_at(t, n + p, ',') == is_punct_at(b, p, ','));
        },
        _ => {},
    }
}

proof fn lemma_scan_from_shift(a: Seq<TokenView>, b: Seq<TokenView>, i: int, f: EntryScan)
    requires
        0 <= i,
    ensures
        scan_from(a + b, a.len() + i, f) == scan_from(b, i, f),
    decreases b.len() - i,
{
    if i < b.len() {
        lemma_scan_step_shift(a, b, i, f);
        lemma_scan_step_advances(b, i, f);
        let (p, g) = scan_step(b, i, f);
        lemma_scan_from_shift(a, b, p, g);
    }
}

proof fn lemma_scan_item(it: EntryItem, rest: Seq<TokenView>, f: EntryScan)
    requires
        item_ok(it),
    ensures
        scan_from(item_tokens(it) + rest, 0, f) == scan_from(item_tokens(it) + rest, item_tokens(it).len() as int, apply_item(f, it)),
{
    let ts = item_tokens(it) + rest;
    let n = item_tokens(it).len() as int;
    assert forall|k: int| 0 <= k < n implies ts[k] == item_tokens(it)[k] by {}
    reveal_strlit("async");
    match it {
        EntryItem::AsyncFlag => {
            assert(ts[0] == TokenView::Ident("async"@));
            assert(ts[1] == TokenView::Punct(','));
            assert(!is_punct_at(ts, 1, '='));
            assert(is_punct_at(ts, 1, ','));
            assert(scan_step(ts, 0, f) == (2int, apply_item(f, it)));
            assert(n == 2);
            assert(ts.len() >= 2);
            assert(scan_from(ts, 0, f) == scan_from(ts, 2, apply_item(f, it)));
            assert(scan_from(item_tokens(it) + rest, 0, f) == scan_from(item_tokens(it) + rest, item_tokens(it).len() as int, apply_item(f, it)));
        },
        EntryItem::AsyncAttr(l) => {
            assert(ts[0] == TokenView::Ident("async"@));
            assert(ts[1] == TokenView::Punct('='));
            assert(ts[2] == TokenView::Literal(l));
            assert(ts[3] == TokenView::Punct(','));
        },
        EntryItem::Pair(k, v) => {
            assert(ts[0] == TokenView::Ident(k));
            assert(ts[1] == TokenView::Punct('='));
            assert(ts[2] == v);
            assert(ts[3] == TokenView::Punct(','));
            assert(token_at(ts, 2) == token_at(seq![v], 0));
            let (q, g) = scan_value(ts, 2, k, f);
            if is_known_key(k) {
                assert(q == 3);
                assert(g == apply_item(f, it));
            } else {
                assert(q == 2);
                assert(g == f);
                assert(apply_item(f, it) == f);
                // The value token and the comma are skipped.
                lemma_scan_step_advances(ts, 2, f);
                match v {
                    TokenView::Ident(x) => {
                        assert(x != "async"@);
                        assert(scan_step(ts, 0, f) == (2int, f));
                        assert(scan_step(ts, 2, f) == (4int, f));
                        assert(scan_from(ts, 2, f) == scan_from(ts, 4, f));
                    },
                    TokenView::Punct(c) => {
                        if c == ',' {
                            assert(scan_step(ts, 0, f) == (3int, f));
                            assert(scan_step(ts, 3, f) == (4int, f));
                            assert(scan_from(ts, 3, f) == scan_from(ts, 4, f));
                        } else {
                            assert(scan_step(ts, 0, f) == (2int, f));
                            assert(scan_step(ts, 2, f) == (3int, f));
                            assert(scan_step(ts, 3, f) == (4int, f));
                            assert(scan_from(ts, 3, f) == scan_from(ts, 4, f));
                            assert(scan_from(ts, 2, f) == scan_from(ts, 3, f));
                        }
                    },
                    _ => {
                        assert(scan_step(ts, 0, f) == (2int, f));
                        assert(scan_step(ts, 2, f) == (3int, f));
                        assert(scan_step(ts, 3, f) == (4int, f));
                        assert(scan_from(ts, 3, f) == scan_from(ts, 4, f));
                        assert(scan_from(ts, 2, f) == scan_from(ts, 3, f));
                    },
                }
            }
        },
    }
}

/// For a well-formed entry written as `KEY = VALUE,` items and `async` flags,
/// reading its tokens gives the fields that applying its items in order gives:
/// each known key takes its value from its own item, unknown keys change
/// nothing, and a later item overrides an earlier one.
pub proof fn law_entry_reads_its_items(items: Seq<EntryItem>, f: EntryScan)
    requires
        forall|i: int| 0 <= i < items.len() ==> item_ok(#[trigger] items[i]),
    ensures
        scan_from(items_tokens(items), 0, f) == apply_items(f, items),
    decreases items.len(),
{
    if items.len() > 0 {
        let it = items[0];
        let rest = items.drop_first();
        assert forall|i: int| 0 <= i < rest.len() implies item_ok(#[trigger] rest[i]) by {
            assert(rest[i] == items[i + 1]);
        }
        assert(item_ok(it));
        let tr = items_tokens(rest);
        assert(items_tokens(items) == item_tokens(it) + tr);
        lemma_scan_item(it, tr, f);
        lemma_scan_from_shift(item_tokens(it), tr, 0, apply_item(f, it));
        law_entry_reads_its_items(rest, apply_item(f, it));
    }
}

/// The key an item sets: `async` for the flag, `attr` for the flag with an
/// attribute, the key of a `KEY = VALUE` item.
pub open spec fn item_key(it: EntryItem) -> Seq<char> {
    match it {
        EntryItem::AsyncFlag => "async"@,
        EntryItem::AsyncAttr(_) => "attr"@,
        EntryItem::Pair(k, _) => k,
    }
}

/// Two items with different keys can be swapped: the order of such items does
/// not matter.
pub proof fn law_items_with_different_keys_commute(f: EntryScan, a: EntryItem, b: EntryItem)
    requires
        item_key(a) != item_key(b),
    ensures
        apply_item(apply_item(f, a), b) == apply_item(apply_item(f, b), a),
{
    reveal_strlit("async");
    reveal_strlit("attr");
    reveal_strlit("test");
    reveal_strlit("root");
    reveal_strlit("pattern");
    reveal_strlit("ignore_if_env");
    reveal_strlit("ignore_unless_env");
}

/// Swapping two neighbouring items with different keys leaves what the items
/// read as unchanged.
pub proof fn law_swap_neighbouring_items(f: EntryScan, items: Seq<EntryItem>, i: int)
    requires
        0 <= i,
        i + 1 < items.len(),
        item_key(items[i]) != item_key(items[i + 1]),
    ensures
        apply_items(f, items) == apply_items(f, items.update(i, items[i + 1]).update(i + 1, items[i])),
    decreases i,
{
    let swapped = items.update(i, items[i + 1]).update(i + 1, items[i]);
    if i == 0 {
        law_items_with_different_keys_commute(f, items[0], items[1]);
        let r = items.drop_first().drop_first();
        assert(swapped.drop_first().drop_first() =~= r);
        assert(items.drop_first()[0] == items[1]);
        assert(swapped.drop_first()[0] == items[0]);
        assert(swapped[0] == items[1]);
        let g1 = apply_item(f, items[0]);
        let g2 = apply_item(f, items[1]);
        assert(apply_items(f, items) == apply_items(g1, items.drop_first()));
        assert(apply_items(g1, items.drop_first()) == apply_items(apply_item(g1, items[1]), r));
        assert(apply_items(f, swapped) == apply_items(g2, swapped.drop_first()));
        assert(apply_items(g2, swapped.drop_first()) == apply_items(apply_item(g2, items[0]), r));
    } else {
        let g = apply_item(f, items[0]);
        let rest = items.drop_first();
        law_swap_neighbouring_items(g, rest, i - 1);
        assert(swapped.drop_first() =~= rest.update(i - 1, rest[i]).update(i, rest[i - 1]));
        assert(swapped[0] == items[0]);
    }
}

/// The entries of two inputs written one after the other (with a `,` between
/// them, which gives no entry) are the entries of the first, then those of the second.
pub proof fn law_entries_concatenate(a: Seq<TokenView>, b: Seq<TokenView>)
    ensures
        harness_entries(a + b) == harness_entries(a) + harness_entries(b),
        harness_entries(seq![TokenView::Punct(',')]) == Seq::<EntryView>::empty(),
    decreases b.len(),
{
    if b.len() == 0 {
        assert(a + b =~= a);
        assert(harness_entries(a) + harness_entries(b) =~= harness_entries(a));
    } else {
        law_entries_concatenate(a, b.drop_last());
        assert((a + b).drop_last() =~= a + b.drop_last());
        assert((a + b).last() == b.last());
        assert(harness_entries(a + b) =~= harness_entries(a) + harness_entries(b));
    }
    let c = seq![TokenView::Punct(',')];
    assert(c.drop_last().len() == 0);
    assert(c.last() == TokenView::Punct(','));
    assert(token_entry(c.last()) =~= Seq::<EntryView>::empty());
    assert(harness_entries(c.drop_last()) =~= Seq::<EntryView>::empty());
    assert(harness_entries(c) =~= Seq::<EntryView>::empty());
}

/// Whether an item is `KEY = VALUE` with a key that is not read.
pub open spec fn is_unknown_item(it: EntryItem) -> bool {
    it matches EntryItem::Pair(k, _) && !is_known_key(k)
}

/// The items without those of unknown keys, in order.
pub open spec fn known_items(items: Seq<EntryItem>) -> Seq<EntryItem>
    decreases items.len(),
{
    if items.len() == 0 {
        Seq::empty()
    } else if is_unknown_item(items[0]) {
        known_items(items.drop_first())
    } else {
        seq![items[0]] + known_items(items.drop_first())
    }
}

/// Whether no two items set the same key.
pub open spec fn distinct_keys(items: Seq<EntryItem>) -> bool {
    forall|i: int, j: int| 0 <= i < items.len() && 0 <= j < items.len() && i != j
        ==> item_key(#[trigger] items[i]) != item_key(#[trigger] items[j])
}

proof fn lemma_unknown_items_change_nothing(f: EntryScan, items: Seq<EntryItem>)
    ensures
        apply_items(f, items) == apply_items(f, known_items(items)),
    decreases items.len(),
{
    if items.len() > 0 {
        let it = items[0];
        let rest = items.drop_first();
        if is_unknown_item(it) {
            assert(apply_item(f, it) == f);
            lemma_unknown_items_change_nothing(f, rest);
        } else {
            lemma_unknown_items_change_nothing(apply_item(f, it), rest);
            let k = seq![it] + known_items(rest);
            assert(k[0] == it);
            assert(k.drop_first() =~= known_items(rest));
        }
    }
}

proof fn lemma_move_to_front(f: EntryScan, b: Seq<EntryItem>, k: int)
    requires
        0 <= k < b.len(),
        forall|j: int| 0 <= j < k ==> item_key(#[trigger] b[j]) != item_key(b[k]),
    ensures
        apply_items(f, b) == apply_items(f, seq![b[k]] + b.remove(k)),
    decreases k,
{
    if k == 0 {
        assert(seq![b[0]] + b.remove(0) =~= b);
    } else {
        let c = b.update(k - 1, b[k]).update(k, b[k - 1]);
        law_swap_neighbouring_items(f, b, k - 1);
        assert forall|j: int| 0 <= j < k - 1 implies item_key(#[trigger] c[j]) != item_key(c[k - 1]) by {
            assert(c[j] == b[j]);
        }
        lemma_move_to_front(f, c, k - 1);
        assert(c[k - 1] == b[k]);
        assert(c.remove(k - 1) =~= b.remove(k));
    }
}

proof fn lemma_permuted_items(f: EntryScan, a: Seq<EntryItem>, b: Seq<EntryItem>)
    requires
        distinct_keys(a),
        distinct_keys(b),
        a.to_multiset() == b.to_multiset(),
    ensures
        apply_items(f, a) == apply_items(f, b),
    decreases a.len(),
{
    a.to_multiset_ensures();
    b.to_multiset_ensures();
    if a.len() == 0 {
        assert(b.len() == 0);
        assert(a =~= b);
    } else {
        let x = a[0];
        assert(a.contains(x)) by {
            assert(a[0] == x);
        }
        assert(a.to_multiset().count(x) > 0);
        assert(b.contains(x));
        let k = choose|k: int| 0 <= k < b.len() && b[k] == x;
        assert forall|j: int| 0 <= j < k implies item_key(#[trigger] b[j]) != item_key(b[k]) by {}
        lemma_move_to_front(f, b, k);
        let b1 = b.remove(k);
        let a1 = a.drop_first();
        vstd::seq_lib::to_multiset_remove(a, 0);
        vstd::seq_lib::to_multiset_remove(b, k);
        assert(a.remove(0) =~= a1);
        assert forall|i: int, j: int| 0 <= i < a1.len() && 0 <= j < a1.len() && i != j implies item_key(#[trigger] a1[i]) != item_key(#[trigger] a1[j]) by {
            assert(a1[i] == a[i + 1] && a1[j] == a[j + 1]);
        }
        assert forall|i: int, j: int| 0 <= i < b1.len() && 0 <= j < b1.len() && i != j implies item_key(#[trigger] b1[i]) != item_key(#[trigger] b1[j]) by {
            let bi = if i < k { i } else { i + 1 };
            let bj = if j < k { j } else { j + 1 };
            assert(b1[i] == b[bi] && b1[j] == b[bj]);
        }
        lemma_permuted_items(apply_item(f, x), a1, b1);
        let fr = seq![x] + b1;
        assert(fr[0] == x);
        assert(fr.drop_first() =~= b1);
    }
}

/// Reordering the items of a well-formed entry, and adding or dropping items
/// of unknown keys, reads the same fields, as long as no two read items set
/// the same key.
pub proof fn law_item_order_does_not_matter(f: EntryScan, s1: Seq<EntryItem>, s2: Seq<EntryItem>)
    requires
        forall|i: int| 0 <= i < s1.len() ==> item_ok(#[trigger] s1[i]),
        forall|i: int| 0 <= i < s2.len() ==> item_ok(#[trigger] s2[i]),
        distinct_keys(known_items(s1)),
        distinct_keys(known_items(s2)),
        known_items(s1).to_multiset() == known_items(s2).to_multiset(),
    ensures
        scan_from(items_tokens(s1), 0, f) == scan_from(items_tokens(s2), 0, f),
{
    law_entry_reads_its_items(s1, f);
    law_entry_reads_its_items(s2, f);
    lemma_unknown_items_change_nothing(f, s1);
    lemma_unknown_items_change_nothing(f, s2);
    lemma_permuted_items(f, known_items(s1), known_items(s2));
}

/// Whether one of the items is a bare `async` or an `async = ".."`.
pub open spec fn has_async_item(items: Seq<EntryItem>) -> bool {
    exists|i: int| 0 <= i < items.len() && (#[trigger] items[i] is AsyncFlag || items[i] is AsyncAttr)
}

proof fn lemma_apply_items_async(f: EntryScan, items: Seq<EntryItem>)
    ensures
        apply_items(f, items).is_async == (f.is_async || has_async_item(items)),
    decreases items.len(),
{
    if items.len() > 0 {
        let it = items[0];
        let rest = items.drop_first();
        lemma_apply_items_async(apply_item(f, it), rest);
        assert(apply_item(f, it).is_async == (f.is_async || it is AsyncFlag || it is AsyncAttr));
        if has_async_item(rest) {
            let j = choose|j: int| 0 <= j < rest.len() && (#[trigger] rest[j] is AsyncFlag || rest[j] is AsyncAttr);
            assert(items[j + 1] == rest[j]);
        }
        if has_async_item(items) {
            let j = choose|j: int| 0 <= j < items.len() && (#[trigger] items[j] is AsyncFlag || items[j] is AsyncAttr);
            if j > 0 {
                assert(rest[j - 1] == items[j]);
            }
        }
    }
}

/// Reading an entry makes it `async` only through an `async` item: for a
/// well-formed entry, the flag read is set exactly when its items hold a bare
/// `async` or an `async = ".."`. Every other item, `attr = ".."` among them,
/// leaves the flag as it was.
pub proof fn law_only_async_items_make_an_entry_async(items: Seq<EntryItem>, f: EntryScan)
    requires
        forall|i: int| 0 <= i < items.len() ==> item_ok(#[trigger] items[i]),
    ensures
        scan_from(items_tokens(items), 0, f).is_async == (f.is_async || has_async_item(items)),
        entry_scan(items_tokens(items)).is_async == has_async_item(items),
        single_entry(items_tokens(items)) matches Some(e) ==> e.is_async == has_async_item(items),
{
    law_entry_reads_its_items(items, f);
    law_entry_reads_its_items(items, scan_start());
    lemma_apply_items_async(f, items);
    lemma_apply_items_async(scan_start(), items);
}

proof fn lemma_keys_differ()
    ensures
        "test"@ != "root"@,
        "test"@ != "pattern"@,
        "test"@ != "attr"@,
        "test"@ != "ignore_if_env"@,
        "test"@ != "ignore_unless_env"@,
        "root"@ != "pattern"@,
        "root"@ != "attr"@,
        "root"@ != "ignore_if_env"@,
        "root"@ != "ignore_unless_env"@,
        "pattern"@ != "attr"@,
        "pattern"@ != "ignore_if_env"@,
        "pattern"@ != "ignore_unless_env"@,
        "attr"@ != "ignore_if_env"@,
        "attr"@ != "ignore_unless_env"@,
        "ignore_if_env"@ != "ignore_unless_env"@,
{
    reveal_strlit("attr");
    reveal_strlit("test");
    reveal_strlit("root");
    reveal_strlit("pattern");
    reveal_strlit("ignore_if_env");
    reveal_strlit("ignore_unless_env");
    assert("test"@[0] != "root"@[0]);
    assert("test"@[0] != "attr"@[0]);
    assert("root"@[0] != "attr"@[0]);
    assert("ignore_if_env"@[7] != "ignore_unless_env"@[7]);
    assert("pattern"@[0] != "ignore_if_env"@[0]);
    assert("pattern"@[0] != "ignore_unless_env"@[0]);
}

/// Reading the tokens `KEY = VALUE,` changes at most the field that `KEY`
/// names, and never the `async` flag: `test` takes an identifier, `root`,
/// `pattern` and `attr` take a literal's value, `ignore_if_env` and
/// `ignore_unless_env` take the names the value stands for; a value of another
/// kind, or an unknown key, changes nothing. Returns the fields read.
pub proof fn law_pair_sets_its_key_only(f: EntryScan, k: Seq<char>, v: TokenView) -> (g: EntryScan)
    requires
        item_ok(EntryItem::Pair(k, v)),
    ensures
        g == scan_from(item_tokens(EntryItem::Pair(k, v)), 0, f),
        g.is_async == f.is_async,
        k != "test"@ ==> g.test_fn == f.test_fn,
        k != "root"@ ==> g.root == f.root,
        k != "pattern"@ ==> g.pattern == f.pattern,
        k != "attr"@ ==> g.attr == f.attr,
        k != "ignore_if_env"@ ==> g.ignore_if_env == f.ignore_if_env,
        k != "ignore_unless_env"@ ==> g.ignore_unless_env == f.ignore_unless_env,
        k == "test"@ ==> g.test_fn == match v {
            TokenView::Ident(name) => Some(name),
            _ => f.test_fn,
        },
        k == "root"@ ==> g.root == match v {
            TokenView::Literal(l) => Some(literal_value(l)),
            _ => f.root,
        },
        k == "pattern"@ ==> g.pattern == match v {
            TokenView::Literal(l) => Some(literal_value(l)),
            _ => f.pattern,
        },
        k == "attr"@ ==> g.attr == match v {
            TokenView::Literal(l) => Some(literal_value(l)),
            _ => f.attr,
        },
        k == "ignore_if_env"@ ==> g.ignore_if_env == env_list_value(Some(v)),
        k == "ignore_unless_env"@ ==> g.ignore_unless_env == env_list_value(Some(v)),
{
    let it = EntryItem::Pair(k, v);
    lemma_single_item(f, it);
    assert(token_at(seq![v], 0) == Some(v));
    let g = scan_value(seq![v], 0, k, f).1;
    assert(g == scan_from(item_tokens(it), 0, f));
    lemma_keys_differ();
    if k == "test"@ {
    } else if k == "root"@ {
    } else if k == "pattern"@ {
    } else if k == "attr"@ {
    } else if k == "ignore_if_env"@ {
    } else if k == "ignore_unless_env"@ {
    } else {
        assert(g == f);
    }
    g
}

/// Reading the tokens `async,` sets the `async` flag and nothing else;
/// reading `async = "ATTR",` sets the flag and takes the literal's value as
/// the attribute.
pub proof fn law_async_items_set_the_flag(f: EntryScan, l: Seq<char>)
    ensures
        scan_from(item_tokens(EntryItem::AsyncFlag), 0, f) == (EntryScan { is_async: true, ..f }),
        scan_from(item_tokens(EntryItem::AsyncAttr(l)), 0, f) == (EntryScan {
            is_async: true,
            attr: Some(literal_value(l)),
            ok: f.ok && literal_ok(l),
            ..f
        }),
{
    lemma_single_item(f, EntryItem::AsyncFlag);
    lemma_single_item(f, EntryItem::AsyncAttr(l));
}

proof fn lemma_single_item(f: EntryScan, it: EntryItem)
    requires
        item_ok(it),
    ensures
        scan_from(item_tokens(it), 0, f) == apply_item(f, it),
{
    let items = seq![it];
    assert(items[0] == it);
    law_entry_reads_its_items(items, f);
    assert(items.drop_first() =~= Seq::<EntryItem>::empty());
    assert(items_tokens(items.drop_first()) == Seq::<TokenView>::empty());
    assert(items_tokens(items) =~= item_tokens(it));
    assert(apply_items(apply_item(f, it), items.drop_first()) == apply_item(f, it));
}

/// An entry that gives only `test = NAME, root = "ROOT", pattern = "PATTERN",`
/// reads as that entry, with the defaults for the rest: not `async`, no
/// attribute, and no environment variables.
pub proof fn law_minimal_entry(name: Seq<char>, root: Seq<char>, pattern: Seq<char>)
    ensures
        single_entry(
            items_tokens(
                seq![
                    EntryItem::Pair("test"@, TokenView::Ident(name)),
                    EntryItem::Pair("root"@, TokenView::Literal(root)),
                    EntryItem::Pair("pattern"@, TokenView::Literal(pattern)),
                ],
            ),
        ) == Some(
            EntryView {
                test_fn: name,
                root: literal_value(root),
                pattern: literal_value(pattern),
                is_async: false,
                attr: None,
                ignore_if_env: Seq::empty(),
                ignore_unless_env: Seq::empty(),
            },
        ),
{
    let a = EntryItem::Pair("test"@, TokenView::Ident(name));
    let b = EntryItem::Pair("root"@, TokenView::Literal(root));
    let c = EntryItem::Pair("pattern"@, TokenView::Literal(pattern));
    let items = seq![a, b, c];
    lemma_keys_differ();
    reveal_strlit("async");
    reveal_strlit("test");
    reveal_strlit("root");
    reveal_strlit("pattern");
    assert("test"@ != "async"@) by {
        assert("test"@[0] != "async"@[0]);
    }
    assert("root"@ != "async"@) by {
        assert("root"@[0] != "async"@[0]);
    }
    assert("pattern"@ != "async"@) by {
        assert("pattern"@[0] != "async"@[0]);
    }
    assert(is_known_key("test"@) && is_known_key("root"@) && is_known_key("pattern"@));
    assert(items[0] == a && items[1] == b && items[2] == c);
    law_entry_reads_its_items(items, scan_start());
    let f0 = scan_start();
    let f1 = law_pair_sets_its_key_only(f0, "test"@, TokenView::Ident(name));
    let f2 = law_pair_sets_its_key_only(f1, "root"@, TokenView::Literal(root));
    let f3 = law_pair_sets_its_key_only(f2, "pattern"@, TokenView::Literal(pattern));
    lemma_single_item(f0, a);
    lemma_single_item(f1, b);
    lemma_single_item(f2, c);
    assert(items.drop_first() =~= seq![b, c]);
    assert(seq![b, c].drop_first() =~= seq![c]);
    assert(seq![c].drop_first() =~= Seq::<EntryItem>::empty());
    assert(apply_items(f0, items) == apply_items(f1, seq![b, c]));
    assert(apply_items(f1, seq![b, c]) == apply_items(f2, seq![c]));
    assert(apply_items(f2, seq![c]) == apply_items(f3, Seq::<EntryItem>::empty()));
    assert(entry_scan(items_tokens(items)) == f3);
}

} // verus!
