use vstd::prelude::*;

verus! {

/// The value of a hexadecimal digit, or -1 for any other character.
pub open spec fn hex_value(c: char) -> int {
    let v = c as u32;
    if 48 <= v <= 57 {
        v - 48
    } else if 97 <= v <= 102 {
        v - 87
    } else if 65 <= v <= 70 {
        v - 55
    } else {
        -1
    }
}

/// Whether `c` is a hexadecimal digit.
pub open spec fn is_hex(c: char) -> bool {
    hex_value(c) >= 0
}

/// The number that hexadecimal digits spell, `_` being skipped.
pub open spec fn hex_number(ds: Seq<char>) -> int
    decreases ds.len(),
{
    if ds.len() == 0 {
        0
    } else if ds.last() == '_' {
        hex_number(ds.drop_last())
    } else {
        16 * hex_number(ds.drop_last()) + hex_value(ds.last())
    }
}

/// How many characters of `ds` are not `_`.
pub open spec fn hex_count(ds: Seq<char>) -> nat
    decreases ds.len(),
{
    if ds.len() == 0 {
        0
    } else {
        hex_count(ds.drop_last()) + if ds.last() == '_' {
            0nat
        } else {
            1nat
        }
    }
}

/// The digits of a `\u{..}` escape: a hex digit first, then hex digits and
/// `_`, with one to six hex digits in all.
pub open spec fn unicode_digits_ok(ds: Seq<char>) -> bool {
    &&& ds.len() > 0
    &&& is_hex(ds[0])
    &&& forall|i: int| 0 <= i < ds.len() ==> is_hex(#[trigger] ds[i]) || ds[i] == '_'
    &&& hex_count(ds) <= 6
}

/// Whether `v` is the code of a `char`: at most `0x10FFFF` and no surrogate.
pub open spec fn is_scalar_value(v: int) -> bool {
    0 <= v <= 0x10FFFF && !(0xD800 <= v <= 0xDFFF)
}

/// The position of the first `}` of `s` from position `i` on, or -1.
pub open spec fn find_close(s: Seq<char>, i: int) -> int
    decreases s.len() - i,
{
    if i < 0 || i >= s.len() {
        -1
    } else if s[i] == '}' {
        i
    } else {
        find_close(s, i + 1)
    }
}

/// How many of the characters at the front of `s` are ASCII whitespace
/// (space, tab, line feed, carriage return).
pub open spec fn lead_space(s: Seq<char>) -> nat
    decreases s.len(),
{
    if s.len() > 0 && (s[0] == ' ' || s[0] == '\t' || s[0] == '\n' || s[0] == '\r') {
        1 + lead_space(s.drop_first())
    } else {
        0
    }
}

/// What an escape sequence at the front of `s` (which starts with `\`) stands for.
pub enum Escape {
    /// Not a valid escape.
    Invalid,
    /// The escape takes this many characters and stands for nothing (a line continuation).
    Skip(nat),
    /// The escape takes this many characters and stands for this character.
    Char(nat, char),
}

/// The escape at the front of `s`, as in a Rust string literal: `\"`, `\'`,
/// `\\`, `\n`, `\r`, `\t`, `\0`, `\xHH` (at most `\x7F`), `\u{H..}`, and a
/// backslash before a line feed, which also drops the whitespace after it.
pub open spec fn escape_at(s: Seq<char>) -> Escape {
    if s.len() < 2 {
        Escape::Invalid
    } else {
        let e = s[1];
        if e == '"' {
            Escape::Char(2, '"')
        } else if e == '\'' {
            Escape::Char(2, '\'')
        } else if e == '\\' {
            Escape::Char(2, '\\')
        } else if e == 'n' {
            Escape::Char(2, '\n')
        } else if e == 'r' {
            Escape::Char(2, '\r')
        } else if e == 't' {
            Escape::Char(2, '\t')
        } else if e == '0' {
            Escape::Char(2, '\0')
        } else if e == 'x' {
            if s.len() >= 4 && is_hex(s[2]) && is_hex(s[3]) && 16 * hex_value(s[2]) + hex_value(s[3]) <= 0x7F {
                Escape::Char(4, ((16 * hex_value(s[2]) + hex_value(s[3])) as u32) as char)
            } else {
                Escape::Invalid
            }
        } else if e == 'u' {
            let j = find_close(s, 3);
            if s.len() >= 3 && s[2] == '{' && j >= 3 && unicode_digits_ok(s.subrange(3, j))
                && is_scalar_value(hex_number(s.subrange(3, j))) {
                Escape::Char((j + 1) as nat, (hex_number(s.subrange(3, j)) as u32) as char)
            } else {
                Escape::Invalid
            }
        } else if e == '\n' {
            Escape::Skip(2 + lead_space(s.skip(2)))
        } else {
            Escape::Invalid
        }
    }
}

/// The value that the body of a string literal (the text between its quotes)
/// stands for: its escape sequences resolved, other characters kept. There is
/// none when the body holds an unescaped `"` or an invalid escape.
pub open spec fn unescape(s: Seq<char>) -> Option<Seq<char>>
    decreases s.len(),
{
    if s.len() == 0 {
        Some(Seq::empty())
    } else if s[0] == '"' {
        None
    } else if s[0] == '\\' {
        match escape_at(s) {
            Escape::Char(n, c) => if 0 < n <= s.len() {
                match unescape(s.skip(n as int)) {
                    Some(r) => Some(seq![c] + r),
                    None => None,
                }
            } else {
                None
            },
            Escape::Skip(n) => if 0 < n <= s.len() {
                unescape(s.skip(n as int))
            } else {
                None
            },
            Escape::Invalid => None,
        }
    } else {
        match unescape(s.drop_first()) {
            Some(r) => Some(seq![s[0]] + r),
            None => None,
        }
    }
}

/// The `char` with the code `v`, if there is one.
///
/// Trusted wrapper of `char::from_u32`: the contract claims that it gives a
/// character exactly for the codes of characters, and then the character
/// whose code is `v`.
#[verifier::external_body]
fn char_from_code(v: u32) -> (c: Option<char>)
    ensures
        c is Some <==> is_scalar_value(v as int),
        c matches Some(ch) ==> ch as u32 == v,
{
    char::from_u32(v)
}

/// The value of a hexadecimal digit.
fn hex_digit(c: char) -> (d: Option<u32>)
    ensures
        d is Some <==> is_hex(c),
        d matches Some(v) ==> v == hex_value(c) && v < 16,
{
    let v = c as u32;
    if 48 <= v && v <= 57 {
        Some(v - 48)
    } else if 97 <= v && v <= 102 {
        Some(v - 87)
    } else if 65 <= v && v <= 70 {
        Some(v - 55)
    } else {
        None
    }
}

/// `16` to the power `n`.
pub open spec fn pow16(n: nat) -> int
    decreases n,
{
    if n == 0 {
        1
    } else {
        16 * pow16((n - 1) as nat)
    }
}

proof fn lemma_hex_number_bound(ds: Seq<char>)
    requires
        forall|i: int| 0 <= i < ds.len() ==> is_hex(#[trigger] ds[i]) || ds[i] == '_',
    ensures
        0 <= hex_number(ds) < pow16(hex_count(ds)),
    decreases ds.len(),
{
    if ds.len() > 0 {
        let init = ds.drop_last();
        assert forall|i: int| 0 <= i < init.len() implies is_hex(#[trigger] init[i]) || init[i] == '_' by {
            assert(init[i] == ds[i]);
        }
        lemma_hex_number_bound(init);
        if ds.last() != '_' {
            assert(ds[ds.len() - 1] == ds.last());
            let a = hex_number(init);
            let p = pow16(hex_count(init));
            let h = hex_value(ds.last());
            assert(0 <= h < 16);
            assert(16 * a + h < 16 * p) by (nonlinear_arith)
                requires
                    0 <= a < p,
                    0 <= h < 16,
            ;
            assert(0 <= 16 * a) by (nonlinear_arith)
                requires
                    0 <= a,
            ;
        }
    }
}

/// Reads the `\u{..}` escape that starts at position `i` of `s`; `s[i]` is `\`
/// and `s[i + 1]` is `u`. Returns the length of the escape and its character.
fn unicode_escape(s: &Vec<char>, i: usize) -> (r: Option<(usize, char)>)
    requires
        i + 1 < s@.len(),
        s@[i as int] == '\\',
        s@[i + 1] == 'u',
    ensures
        r matches Some((len, c)) ==> 2 <= len <= s@.len() - i && escape_at(s@.skip(i as int)) == Escape::Char(len as nat, c),
        r is None ==> !(escape_at(s@.skip(i as int)) is Char),
{
    let ghost t = s@.skip(i as int);
    assert(t[1] == 'u');
    let n = s.len();
    if i + 2 >= n || s[i + 2] != '{' {
        return None;
    }
    let mut j: usize = i + 3;
    while j < s.len() && s[j] != '}'
        invariant
            t == s@.skip(i as int),
            i + 3 <= j <= s@.len(),
            find_close(t, 3) == find_close(t, j - i),
        decreases s@.len() - j,
    {
        assert(t[j - i] == s@[j as int]);
        j = j + 1;
    }
    if j >= s.len() {
        assert(find_close(t, 3) == -1);
        assert(escape_at(t) is Invalid);
        return None;
    }
    assert(t[j - i] == s@[j as int]);
    let ghost jj = (j - i) as int;
    assert(find_close(t, 3) == jj);
    let ghost ds = t.subrange(3, jj);
    if j == i + 3 {
        assert(escape_at(t) is Invalid);
        return None;
    }
    // Read the digits.
    let mut acc: u32 = 0;
    let mut count: usize = 0;
    let mut k: usize = i + 3;
    while k < j
        invariant
            t == s@.skip(i as int),
            ds == t.subrange(3, jj),
            jj == j - i,
            find_close(t, 3) == jj,
            t.len() >= 3,
            t[1] == 'u',
            t[2] == '{',
            i + 3 <= k <= j,
            j < s@.len(),
            forall|m: int| 0 <= m < k - i - 3 ==> is_hex(#[trigger] ds[m]) || ds[m] == '_',
            count == hex_count(ds.take(k - i - 3)),
            count <= 6,
            acc == hex_number(ds.take(k - i - 3)),
            acc < pow16(count as nat),
        decreases j - k,
    {
        let ghost m = k - i - 3;
        assert(ds[m as int] == s@[k as int]);
        assert(ds.take(m + 1).drop_last() =~= ds.take(m as int));
        assert(ds.take(m + 1).last() == ds[m as int]);
        let c = s[k];
        if c != '_' {
            match hex_digit(c) {
                Some(d) => {
                    if count == 6 {
                        proof {
                            assert(hex_count(ds.take(m + 1)) == 7);
                            lemma_hex_count_prefix(ds, m + 1);
                            assert(!unicode_digits_ok(ds));
                            assert(escape_at(t) is Invalid);
                        }
                        return None;
                    }
                    assert(pow16(count as nat) <= pow16(5)) by {
                        lemma_pow16_monotone(count as nat, 5);
                    }
                    assert(pow16(5) == 1048576) by {
                        reveal_with_fuel(pow16, 6);
                    }
                    acc = acc * 16 + d;
                    count = count + 1;
                },
                None => {
                    assert(!unicode_digits_ok(ds));
                    assert(escape_at(t) is Invalid);
                    return None;
                },
            }
        }
        k = k + 1;
    }
    assert(ds.take(jj - 3) =~= ds);
    let first = s[i + 3];
    assert(ds[0] == first);
    if first == '_' {
        assert(('_' as u32) == 95);
        assert(!is_hex(ds[0]));
        assert(!unicode_digits_ok(ds));
        assert(escape_at(t) is Invalid);
        return None;
    }
    assert(unicode_digits_ok(ds));
    match char_from_code(acc) {
        Some(c) => {
            proof {
                vstd::utf8::char_u32_cast(c, acc);
            }
            assert(escape_at(t) == Escape::Char((jj + 1) as nat, c));
            Some((j - i + 1, c))
        },
        None => {
            assert(escape_at(t) is Invalid);
            None
        },
    }
}

proof fn lemma_pow16_monotone(a: nat, b: nat)
    requires
        a <= b,
    ensures
        pow16(a) <= pow16(b),
    decreases b,
{
    if a < b {
        lemma_pow16_monotone(a, (b - 1) as nat);
        assert(pow16((b - 1) as nat) > 0) by {
            lemma_pow16_positive((b - 1) as nat);
        }
    }
}

proof fn lemma_pow16_positive(a: nat)
    ensures
        pow16(a) > 0,
    decreases a,
{
    if a > 0 {
        lemma_pow16_positive((a - 1) as nat);
    }
}

proof fn lemma_hex_count_prefix(ds: Seq<char>, m: int)
    requires
        0 <= m <= ds.len(),
    ensures
        hex_count(ds.take(m)) <= hex_count(ds),
    decreases ds.len() - m,
{
    if m < ds.len() {
        lemma_hex_count_prefix(ds, m + 1);
        assert(ds.take(m + 1).drop_last() =~= ds.take(m));
    } else {
        assert(ds.take(m) =~= ds);
    }
}

/// `p` in front of the sequence that `o` holds, if it holds one.
pub open spec fn prefixed(p: Seq<char>, o: Option<Seq<char>>) -> Option<Seq<char>> {
    match o {
        Some(r) => Some(p + r),
        None => None,
    }
}

/// The view of an optional vector of characters.
pub open spec fn opt_chars(o: Option<Vec<char>>) -> Option<Seq<char>> {
    match o {
        Some(v) => Some(v@),
        None => None,
    }
}

proof fn lemma_lead_space(s: Seq<char>, k: int)
    requires
        0 <= k <= s.len(),
        forall|j: int| 0 <= j < k ==> (#[trigger] s[j] == ' ' || s[j] == '\t' || s[j] == '\n' || s[j] == '\r'),
        k == s.len() || !(s[k] == ' ' || s[k] == '\t' || s[k] == '\n' || s[k] == '\r'),
    ensures
        lead_space(s) == k,
    decreases k,
{
    if k > 0 {
        let t = s.drop_first();
        assert forall|j: int| 0 <= j < k - 1 implies (#[trigger] t[j] == ' ' || t[j] == '\t' || t[j] == '\n' || t[j] == '\r') by {
            assert(t[j] == s[j + 1]);
        }
        if k < s.len() {
            assert(t[k - 1] == s[k]);
        }
        lemma_lead_space(t, k - 1);
    }
}

/// Resolves the escapes of a string literal's body (the text between its quotes).
pub fn unescape_body(b: &Vec<char>) -> (r: Option<Vec<char>>)
    ensures
        opt_chars(r) == unescape(b@),
{
    let n = b.len();
    let mut out: Vec<char> = Vec::new();
    let mut i: usize = 0;
    assert(b@.skip(0) =~= b@);
    assert(out@ + Seq::<char>::empty() =~= Seq::<char>::empty());
    while i < n
        invariant
            n == b@.len(),
            i <= n,
            unescape(b@) == prefixed(out@, unescape(b@.skip(i as int))),
        decreases n - i,
    {
        let ghost t = b@.skip(i as int);
        assert(t[0] == b@[i as int]);
        let c = b[i];
        if c == '"' {
            return None;
        }
        if c != '\\' {
            assert(t.drop_first() =~= b@.skip(i + 1));
            let ghost old_out = out@;
            out.push(c);
            proof {
                match unescape(b@.skip(i + 1)) {
                    Some(r) => { assert(old_out + (seq![c] + r) =~= out@ + r); },
                    None => {},
                }
            }
            i = i + 1;
            continue;
        }
        if i + 1 >= n {
            return None;
        }
        assert(t[1] == b@[i + 1]);
        let e = b[i + 1];
        let mut step: usize = 2;
        let mut produced: Option<char> = None;
        if e == '"' {
            assert(escape_at(t) == Escape::Char(2, '"'));
            produced = Some('"');
        } else if e == '\'' {
            produced = Some('\'');
        } else if e == '\\' {
            produced = Some('\\');
        } else if e == 'n' {
            produced = Some('\n');
        } else if e == 'r' {
            produced = Some('\r');
        } else if e == 't' {
            produced = Some('\t');
        } else if e == '0' {
            produced = Some('\0');
        } else if e == 'x' {
            if n - i < 4 {
                return None;
            }
            assert(t[2] == b@[i + 2] && t[3] == b@[i + 3]);
            match (hex_digit(b[i + 2]), hex_digit(b[i + 3])) {
                (Some(h), Some(l)) => {
                    let v = h * 16 + l;
                    if v > 0x7F {
                        return None;
                    }
                    match char_from_code(v) {
                        Some(ch) => {
                            proof {
                                vstd::utf8::char_u32_cast(ch, v);
                            }
                            assert(escape_at(t) == Escape::Char(4, ch));
                            produced = Some(ch);
                            step = 4;
                        },
                        None => {
                            return None;
                        },
                    }
                },
                _ => {
                    return None;
                },
            }
        } else if e == 'u' {
            match unicode_escape(b, i) {
                Some((len, ch)) => {
                    assert(escape_at(t) == Escape::Char(len as nat, ch));
                    produced = Some(ch);
                    step = len;
                },
                None => {
                    return None;
                },
            }
        } else if e == '\n' {
            let mut k: usize = i + 2;
            while k < n && (b[k] == ' ' || b[k] == '\t' || b[k] == '\n' || b[k] == '\r')
                invariant
                    n == b@.len(),
                    i + 2 <= k <= n,
                    forall|j: int| i + 2 <= j < k ==> (#[trigger] b@[j] == ' ' || b@[j] == '\t' || b@[j] == '\n' || b@[j] == '\r'),
                decreases n - k,
            {
                k = k + 1;
            }
            proof {
                let u = t.skip(2);
                assert forall|j: int| 0 <= j < k - i - 2 implies (#[trigger] u[j] == ' ' || u[j] == '\t' || u[j] == '\n' || u[j] == '\r') by {
                    assert(u[j] == b@[i + 2 + j]);
                }
                if k < n {
                    assert(u[k - i - 2] == b@[k as int]);
                }
                lemma_lead_space(u, k - i - 2);
            }
            step = k - i;
        } else {
            return None;
        }
        proof {
            assert(t.skip(step as int) =~= b@.skip(i + step));
            match produced {
                Some(ch) => {
                    assert(escape_at(t) == Escape::Char(step as nat, ch));
                    assert(unescape(t) == prefixed(seq![ch], unescape(t.skip(step as int))));
                },
                None => {
                    assert(escape_at(t) == Escape::Skip(step as nat));
                    assert(unescape(t) == unescape(t.skip(step as int)));
                },
            }
        }
        let ghost old_out = out@;
        if let Some(ch) = produced {
            out.push(ch);
            proof {
                match unescape(b@.skip(i + step)) {
                    Some(r) => { assert(old_out + (seq![ch] + r) =~= out@ + r); },
                    None => {},
                }
            }
        }
        i = i + step;
    }
    assert(b@.skip(n as int) =~= Seq::<char>::empty());
    assert(out@ + Seq::<char>::empty() =~= out@);
    Some(out)
}

/// How a character is written in the body of a string literal: `"`, `\`, and
/// the control characters line feed, carriage return, tab and NUL by their
/// escapes, any other character as itself.
pub open spec fn escape_char(c: char) -> Seq<char> {
    if c == '"' {
        seq!['\\', '"']
    } else if c == '\\' {
        seq!['\\', '\\']
    } else if c == '\n' {
        seq!['\\', 'n']
    } else if c == '\r' {
        seq!['\\', 'r']
    } else if c == '\t' {
        seq!['\\', 't']
    } else if c == '\0' {
        seq!['\\', '0']
    } else {
        seq![c]
    }
}

/// The body of a string literal whose value is `s`.
pub open spec fn escape_text(s: Seq<char>) -> Seq<char>
    decreases s.len(),
{
    if s.len() == 0 {
        Seq::empty()
    } else {
        escape_char(s[0]) + escape_text(s.drop_first())
    }
}

/// Resolving the escapes of a written value gives the value back.
pub proof fn law_unescape_escape(s: Seq<char>)
    ensures
        unescape(escape_text(s)) == Some(s),
    decreases s.len(),
{
    if s.len() == 0 {
    } else {
        let c = s[0];
        let rest = s.drop_first();
        law_unescape_escape(rest);
        let x = escape_text(s);
        let e = escape_char(c);
        assert(x == e + escape_text(rest));
        if e.len() == 1 {
            assert(x[0] == c);
            assert(x.drop_first() =~= escape_text(rest));
        } else {
            assert(x[0] == '\\');
            assert(x[1] == e[1]);
            assert(escape_at(x) == Escape::Char(2, c));
            assert(x.skip(2) =~= escape_text(rest));
        }
        assert(seq![c] + rest =~= s);
    }
}

/// Whether `w` is a `\u{..}` escape whose digits spell the code of `c`.
pub open spec fn writes_unicode(c: char, w: Seq<char>) -> bool {
    &&& w.len() >= 5
    &&& w[0] == '\\'
    &&& w[1] == 'u'
    &&& w[2] == '{'
    &&& w.last() == '}'
    &&& unicode_digits_ok(w.subrange(3, w.len() - 1))
    &&& hex_number(w.subrange(3, w.len() - 1)) == c as u32
}

/// Whether `w` is a `\xHH` escape whose digits spell the code of `c`.
pub open spec fn writes_hex(c: char, w: Seq<char>) -> bool {
    &&& w.len() == 4
    &&& w[0] == '\\'
    &&& w[1] == 'x'
    &&& is_hex(w[2])
    &&& is_hex(w[3])
    &&& 16 * hex_value(w[2]) + hex_value(w[3]) == c as u32
    &&& (c as u32) <= 0x7F
}

/// Whether `w` is one way a string literal may write the character `c`: the
/// character itself (unless it is `"` or `\`), its short escape (`\"`, `\\`,
/// `\n`, `\r`, `\t`, `\0`, `\'`), `\xHH` for an ASCII character, or
/// `\u{..}` with the hexadecimal digits of its code. `Literal::string` writes
/// each character in one of these ways.
pub open spec fn writes_char(c: char, w: Seq<char>) -> bool {
    ||| (w == seq![c] && c != '"' && c != '\\')
    ||| (escape_char(c).len() == 2 && w == escape_char(c))
    ||| (c == '\'' && w == seq!['\\', '\''])
    ||| writes_hex(c, w)
    ||| writes_unicode(c, w)
}

/// The pieces joined one after the other.
pub open spec fn concat_all(ws: Seq<Seq<char>>) -> Seq<char>
    decreases ws.len(),
{
    if ws.len() == 0 {
        Seq::empty()
    } else {
        ws[0] + concat_all(ws.drop_first())
    }
}

proof fn lemma_find_close_at(s: Seq<char>, i: int, k: int)
    requires
        0 <= i <= k < s.len(),
        s[k] == '}',
        forall|m: int| i <= m < k ==> s[m] != '}',
    ensures
        find_close(s, i) == k,
    decreases k - i,
{
    if i < k {
        lemma_find_close_at(s, i + 1, k);
    }
}

proof fn lemma_read_one(c: char, w: Seq<char>, rest: Seq<char>)
    requires
        writes_char(c, w),
    ensures
        unescape(w + rest) == prefixed(seq![c], unescape(rest)),
{
    let x = w + rest;
    vstd::utf8::char_u32_cast(c, c as u32);
    vstd::utf8::char_is_scalar(c);
    if w == seq![c] && c != '"' && c != '\\' {
        assert(x[0] == c);
        assert(x.drop_first() =~= rest);
    } else if escape_char(c).len() == 2 && w == escape_char(c) {
        assert(x[0] == '\\');
        assert(x[1] == w[1]);
        assert(escape_at(x) == Escape::Char(2, c));
        assert(x.skip(2) =~= rest);
    } else if c == '\'' && w == seq!['\\', '\''] {
        assert(x[0] == '\\');
        assert(x[1] == '\'');
        assert(escape_at(x) == Escape::Char(2, c));
        assert(x.skip(2) =~= rest);
    } else if writes_hex(c, w) {
        assert(x[0] == '\\' && x[1] == 'x' && x[2] == w[2] && x[3] == w[3]);
        assert(escape_at(x) == Escape::Char(4, c));
        assert(x.skip(4) =~= rest);
    } else {
        assert(writes_unicode(c, w));
        let n = w.len() as int;
        let ds = w.subrange(3, n - 1);
        assert forall|m: int| 3 <= m < n - 1 implies x[m] != '}' by {
            assert(x[m] == ds[m - 3]);
            assert(is_hex(ds[m - 3]) || ds[m - 3] == '_');
            assert(('}' as u32) == 125);
        }
        assert(x[n - 1] == w.last());
        lemma_find_close_at(x, 3, n - 1);
        assert(x.subrange(3, n - 1) =~= ds);
        assert(x[0] == '\\' && x[1] == 'u' && x[2] == '{');
        assert(is_scalar_value(hex_number(ds)));
        assert(escape_at(x) == Escape::Char(n as nat, c));
        assert(x.skip(n) =~= rest);
    }
}

/// A string literal reads back as its value however its characters are
/// written, one by one, in any of the ways `writes_char` allows; this covers
/// what `Literal::string` writes.
pub proof fn law_any_writing_reads_back(s: Seq<char>, ws: Seq<Seq<char>>)
    requires
        ws.len() == s.len(),
        forall|i: int| 0 <= i < s.len() ==> writes_char(#[trigger] s[i], ws[i]),
    ensures
        unescape(concat_all(ws)) == Some(s),
    decreases s.len(),
{
    if s.len() > 0 {
        let rest = s.drop_first();
        let wr = ws.drop_first();
        assert forall|i: int| 0 <= i < rest.len() implies writes_char(#[trigger] rest[i], wr[i]) by {
            assert(rest[i] == s[i + 1] && wr[i] == ws[i + 1]);
        }
        law_any_writing_reads_back(rest, wr);
        assert(writes_char(s[0], ws[0]));
        lemma_read_one(s[0], ws[0], concat_all(wr));
        assert(seq![s[0]] + rest =~= s);
    }
}

} // verus!
