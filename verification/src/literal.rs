use vstd::prelude::*;
use vstd::string::*;
use vstd::utf8::*;

use crate::escape::{
    concat_all, escape_text, law_any_writing_reads_back, law_unescape_escape, unescape,
    unescape_body, writes_char,
};
use crate::text::{chars_of, owned, string_of_chars};

verus! {

broadcast use vstd::utf8::encode_utf8_valid_utf8, vstd::utf8::encode_utf8_decode_utf8;

/// How many characters at the front of `s` equal `c`.
pub open spec fn lead_count(s: Seq<char>, c: char) -> nat
    decreases s.len(),
{
    if s.len() > 0 && s[0] == c {
        1 + lead_count(s.drop_first(), c)
    } else {
        0
    }
}

/// How many characters at the back of `s` equal `c`.
pub open spec fn trail_count(s: Seq<char>, c: char) -> nat
    decreases s.len(),
{
    if s.len() > 0 && s.last() == c {
        1 + trail_count(s.drop_last(), c)
    } else {
        0
    }
}

/// The text of a literal token read as a raw string: it starts with `r"` or `r#`.
pub open spec fn is_raw_form(s: Seq<char>) -> bool {
    s.len() >= 2 && s[0] == 'r' && (s[1] == '"' || s[1] == '#')
}

/// A raw literal's text once every leading `r` is removed.
pub open spec fn raw_rest(s: Seq<char>) -> Seq<char> {
    s.skip(lead_count(s, 'r') as int)
}

/// The number of `#` that open a raw literal.
pub open spec fn raw_hashes(s: Seq<char>) -> nat {
    lead_count(raw_rest(s), '#')
}

/// The UTF-8 bytes of `raw_rest(s)`, which the raw branch slices by byte offsets.
pub open spec fn raw_bytes(s: Seq<char>) -> Seq<u8> {
    encode_utf8(raw_rest(s))
}

/// The byte offset in `raw_bytes(s)` where the content starts: after the hashes and the quote.
pub open spec fn raw_start(s: Seq<char>) -> int {
    raw_hashes(s) as int + 1
}

/// The byte offset in `raw_bytes(s)` where the content ends: before the quote and the hashes.
pub open spec fn raw_end(s: Seq<char>) -> int {
    raw_bytes(s).len() - raw_hashes(s) - 1
}

/// Whether reading the literal text succeeds: in the raw form, the byte offsets
/// must be in order and fall on character boundaries (otherwise the slice is invalid).
pub open spec fn literal_ok(s: Seq<char>) -> bool {
    is_raw_form(s) ==> {
        &&& raw_start(s) <= raw_end(s)
        &&& is_char_boundary(raw_bytes(s), raw_start(s))
        &&& is_char_boundary(raw_bytes(s), raw_end(s))
    }
}

/// `s` with every leading and trailing `"` removed.
pub open spec fn trim_quotes(s: Seq<char>) -> Seq<char> {
    let a = s.skip(lead_count(s, '"') as int);
    a.take(a.len() - trail_count(a, '"'))
}

/// The text between the first and the last character.
pub open spec fn plain_body(s: Seq<char>) -> Seq<char> {
    s.subrange(1, s.len() - 1)
}

/// The text of a string literal `"..."` whose escapes are all valid.
pub open spec fn is_plain_string(s: Seq<char>) -> bool {
    s.len() >= 2 && s[0] == '"' && s.last() == '"' && unescape(plain_body(s)) is Some
}

/// The string value read from a literal token's text: the content between the
/// hashes and quotes of a raw string; the value of a string literal, its
/// escapes resolved; for any other token text, the text with its leading and
/// trailing quotes trimmed.
pub open spec fn literal_value(s: Seq<char>) -> Seq<char> {
    if is_raw_form(s) {
        decode_utf8(raw_bytes(s).subrange(raw_start(s), raw_end(s)))
    } else if is_plain_string(s) {
        unescape(plain_body(s))->0
    } else {
        trim_quotes(s)
    }
}

proof fn lemma_lead_count(s: Seq<char>, c: char, i: int)
    requires
        0 <= i <= s.len(),
        forall|j: int| 0 <= j < i ==> s[j] == c,
        i == s.len() || s[i] != c,
    ensures
        lead_count(s, c) == i,
    decreases i,
{
    if i > 0 {
        lemma_lead_count(s.drop_first(), c, i - 1);
    }
}

proof fn lemma_trail_count(s: Seq<char>, c: char, i: int)
    requires
        0 <= i <= s.len(),
        forall|j: int| s.len() - i <= j < s.len() ==> s[j] == c,
        i == s.len() || s[s.len() - 1 - i] != c,
    ensures
        trail_count(s, c) == i,
    decreases i,
{
    if i > 0 {
        lemma_trail_count(s.drop_last(), c, i - 1);
    }
}

proof fn lemma_prefix_boundary(b: Seq<u8>, i: int, j: int)
    requires
        valid_utf8(b),
        0 <= i <= j <= b.len(),
        is_char_boundary(b, i),
        is_char_boundary(b, j),
    ensures
        valid_utf8(b.subrange(0, j)),
        is_char_boundary(b.subrange(0, j), i),
{
    valid_utf8_split(b, j);
    let p = b.subrange(0, j);
    if i == j {
        is_char_boundary_start_end_of_seq(p);
    } else {
        is_char_boundary_iff_not_is_continuation_byte(b, i);
        is_char_boundary_iff_not_is_continuation_byte(p, i);
    }
}

/// Counts the characters `c` at the front of `v` from index `from`.
fn count_leading(v: &Vec<char>, from: usize, c: char) -> (k: usize)
    requires
        from <= v@.len(),
    ensures
        from + k <= v@.len(),
        k == lead_count(v@.skip(from as int), c),
{
    let mut i: usize = from;
    while i < v.len() && v[i] == c
        invariant
            from <= i <= v@.len(),
            forall|j: int| from <= j < i ==> v@[j] == c,
        decreases v@.len() - i,
    {
        i = i + 1;
    }
    let k = i - from;
    proof {
        lemma_lead_count(v@.skip(from as int), c, k as int);
    }
    k
}

/// Reads the string value of a literal token from its text (`Literal::to_string`):
/// `r"..."` and `r#"..."#` lose the `r`, hashes and quotes; a string literal
/// `"..."` gives its value, its escape sequences resolved; any other text
/// loses its leading and trailing `"`.
pub fn parse_string_literal(lit: &str) -> (v: String)
    requires
        literal_ok(lit@),
    ensures
        v@ == literal_value(lit@),
{
    let chars = chars_of(lit);
    let n = chars.len();
    if n >= 2 && chars[0] == 'r' && (chars[1] == '"' || chars[1] == '#') {
        let k = count_leading(&chars, 0, 'r');
        assert(chars@.skip(0) =~= chars@);
        let t = lit.substring_char(k, n);
        assert(t@ =~= raw_rest(lit@));
        let h = count_leading(&chars, k, '#');
        assert(chars@.skip(k as int) =~= t@);
        let bytes = t.as_bytes();
        let blen = bytes.len();
        assert(bytes@ == raw_bytes(lit@));
        let end = blen - h - 1;
        let start = h + 1;
        let (left, _right) = t.split_at(end);
        proof {
            lemma_prefix_boundary(raw_bytes(lit@), start as int, end as int);
        }
        let (_head, mid) = left.split_at(start);
        proof {
            assert(mid.spec_bytes() =~= raw_bytes(lit@).subrange(start as int, end as int));
            assert(decode_utf8(encode_utf8(mid@)) == mid@);
        }
        owned(mid)
    } else {
        if n >= 2 && chars[0] == '"' && chars[n - 1] == '"' {
            let mut body: Vec<char> = Vec::new();
            let mut i: usize = 1;
            while i < n - 1
                invariant
                    n == chars@.len(),
                    n >= 2,
                    1 <= i <= n - 1,
                    body@ == chars@.subrange(1, i as int),
                decreases n - 1 - i,
            {
                body.push(chars[i]);
                i = i + 1;
                assert(body@ =~= chars@.subrange(1, i as int));
            }
            assert(body@ == plain_body(lit@));
            if let Some(v) = unescape_body(&body) {
                return string_of_chars(v.as_slice());
            }
        }
        let a = count_leading(&chars, 0, '"');
        assert(chars@.skip(0) =~= chars@);
        let mut b: usize = 0;
        while a + b < n && chars[n - 1 - b] == '"'
            invariant
                n == chars@.len(),
                a <= n,
                a + b <= n,
                forall|j: int| n - b <= j < n ==> chars@[j] == '"',
            decreases n - a - b,
        {
            b = b + 1;
        }
        proof {
            let rest = lit@.skip(a as int);
            assert forall|j: int| rest.len() - b <= j < rest.len() implies rest[j] == '"' by {
                assert(rest[j] == chars@[a + j]);
            }
            if (b as int) < rest.len() {
                assert(rest[rest.len() - 1 - b] == chars@[n - 1 - b as int]);
            }
            lemma_trail_count(rest, '"', b as int);
        }
        let s = lit.substring_char(a, n - b);
        assert(s@ =~= trim_quotes(lit@));
        owned(s)
    }
}

/// Whether `parse_string_literal` can read the literal text.
pub fn literal_readable(lit: &str) -> (ok: bool)
    ensures
        ok == literal_ok(lit@),
{
    let chars = chars_of(lit);
    let n = chars.len();
    if n >= 2 && chars[0] == 'r' && (chars[1] == '"' || chars[1] == '#') {
        let k = count_leading(&chars, 0, 'r');
        assert(chars@.skip(0) =~= chars@);
        let t = lit.substring_char(k, n);
        assert(t@ =~= raw_rest(lit@));
        let h = count_leading(&chars, k, '#');
        assert(chars@.skip(k as int) =~= t@);
        let bytes = t.as_bytes();
        let blen = bytes.len();
        assert(bytes@ == raw_bytes(lit@));
        if blen < h + 1 || blen - h - 1 < h + 1 {
            return false;
        }
        t.is_char_boundary(h + 1) && t.is_char_boundary(blen - h - 1)
    } else {
        true
    }
}

/// `h` hash characters.
pub open spec fn hashes(h: nat) -> Seq<char> {
    Seq::new(h, |i: int| '#')
}

/// The text of the raw string literal `r#..#"body"#..#` with `h` hashes on each side.
pub open spec fn raw_literal_text(h: nat, body: Seq<char>) -> Seq<char> {
    seq!['r'] + hashes(h) + seq!['"'] + body + seq!['"'] + hashes(h)
}

/// The text of the plain string literal `"body"`.
pub open spec fn plain_literal_text(body: Seq<char>) -> Seq<char> {
    seq!['"'] + body + seq!['"']
}

proof fn lemma_encode_concat(a: Seq<char>, b: Seq<char>)
    ensures
        encode_utf8(a + b) == encode_utf8(a) + encode_utf8(b),
    decreases a.len(),
{
    if a.len() == 0 {
        assert(a + b =~= b);
        assert(encode_utf8(a) + encode_utf8(b) =~= encode_utf8(b));
    } else {
        assert((a + b).drop_first() =~= a.drop_first() + b);
        assert((a + b)[0] == a[0]);
        lemma_encode_concat(a.drop_first(), b);
        assert(encode_utf8(a + b) =~= encode_utf8(a) + encode_utf8(b));
    }
}

proof fn lemma_encode_quote_hash_len(a: Seq<char>)
    requires
        forall|i: int| 0 <= i < a.len() ==> a[i] == '#' || a[i] == '"',
    ensures
        encode_utf8(a).len() == a.len(),
    decreases a.len(),
{
    if a.len() > 0 {
        assert(('#' as u32) == 35);
        assert(('"' as u32) == 34);
        lemma_encode_quote_hash_len(a.drop_first());
    }
}

proof fn lemma_join_boundary(a: Seq<char>, b: Seq<char>)
    ensures
        is_char_boundary(encode_utf8(a + b), encode_utf8(a).len() as int),
    decreases a.len(),
{
    lemma_encode_concat(a, b);
    if a.len() > 0 {
        let bytes = encode_utf8(a + b);
        encode_utf8_first_scalar(a + b);
        assert((a + b)[0] == a[0]);
        assert((a + b).drop_first() =~= a.drop_first() + b);
        lemma_encode_concat(a.drop_first(), b);
        assert(pop_first_scalar(bytes) =~= encode_utf8(a.drop_first() + b));
        lemma_join_boundary(a.drop_first(), b);
    }
}

/// Reading a raw string literal gives back exactly its content, whatever the
/// content and the number of hashes.
pub proof fn law_raw_literal_round_trip(h: nat, body: Seq<char>)
    ensures
        literal_ok(raw_literal_text(h, body)),
        literal_value(raw_literal_text(h, body)) == body,
{
    let s = raw_literal_text(h, body);
    let p = hashes(h) + seq!['"'];
    let q = seq!['"'] + hashes(h);
    assert(s[0] == 'r');
    assert(s[1] == (if h > 0 { '#' } else { '"' }));
    lemma_lead_count(s, 'r', 1);
    let rest = p + body + q;
    assert(raw_rest(s) =~= rest);
    assert forall|j: int| 0 <= j < h implies rest[j] == '#' by {}
    assert(rest[h as int] == '"');
    lemma_lead_count(rest, '#', h as int);
    lemma_encode_concat(p, body + q);
    lemma_encode_concat(body, q);
    lemma_encode_concat(p + body, q);
    lemma_encode_concat(p, body);
    assert(p + (body + q) =~= rest);
    assert((p + body) + q =~= rest);
    lemma_encode_quote_hash_len(p);
    lemma_encode_quote_hash_len(q);
    let eb = encode_utf8(body);
    assert(raw_bytes(s) == encode_utf8(p) + eb + encode_utf8(q));
    assert(raw_start(s) == h + 1);
    assert(raw_end(s) == h + 1 + eb.len());
    assert(raw_bytes(s).subrange(raw_start(s), raw_end(s)) =~= eb);
    lemma_join_boundary(p, body + q);
    lemma_join_boundary(p + body, q);
    assert(encode_utf8(p + body).len() == h + 1 + eb.len());
}

/// Reading a string literal gives back its value: for every value, the
/// literal that writes it (quotes, control characters and backslashes
/// escaped) reads as that value.
pub proof fn law_plain_literal_round_trip(value: Seq<char>)
    ensures
        literal_ok(plain_literal_text(escape_text(value))),
        literal_value(plain_literal_text(escape_text(value))) == value,
{
    let s = plain_literal_text(escape_text(value));
    law_unescape_escape(value);
    assert(s[0] == '"');
    assert(s.last() == '"');
    assert(plain_body(s) =~= escape_text(value));
}

/// Reading a string literal gives back its value however the literal writes
/// each character (itself, a short escape, `\xHH` or `\u{..}`), as
/// `Literal::string` and hand-written literals do.
pub proof fn law_literal_reads_its_value(value: Seq<char>, pieces: Seq<Seq<char>>)
    requires
        pieces.len() == value.len(),
        forall|i: int| 0 <= i < value.len() ==> writes_char(#[trigger] value[i], pieces[i]),
    ensures
        literal_ok(plain_literal_text(concat_all(pieces))),
        literal_value(plain_literal_text(concat_all(pieces))) == value,
{
    let s = plain_literal_text(concat_all(pieces));
    law_any_writing_reads_back(value, pieces);
    assert(s[0] == '"');
    assert(s.last() == '"');
    assert(plain_body(s) =~= concat_all(pieces));
}

} // verus!
