//! The error payload wire format: a JSON object whose keys are field
//! identifiers and whose values are single-line diagnostic strings, e.g.
//! `{"name":"field is missing","age":"invalid digit found in string"}`.
//!
//! Serialization emits the canonical form: no whitespace, and only the
//! escapes `\"`, `\\` and `\u00XX` (for control characters). Parsing
//! accepts that form together with the short escapes `\/`, `\n`, `\t`,
//! `\r`, `\b` and `\f`.

use vstd::prelude::*;
use crate::pattern::line_pat;
use crate::pattern::pat_at;
use crate::pattern::pat_in;
use crate::pattern::truncate_at_pat;
use crate::pattern::truncate_msg;
use crate::validator::StructValidator;
use crate::validator::fold_entries;
use crate::validator::pairs_view;

verus! {

/// Appends one character to a string.
///
/// Relies on `String::push`: it appends exactly the given character.
#[verifier::external_body]
fn push_char(out: &mut String, c: char)
    ensures
        final(out)@ == old(out)@ + seq![c],
{
    out.push(c);
}

/// The lower-case hexadecimal digit for `n` (0 to 15).
pub open spec fn hex_digit(n: int) -> char {
    if n == 0 { '0' }
    else if n == 1 { '1' }
    else if n == 2 { '2' }
    else if n == 3 { '3' }
    else if n == 4 { '4' }
    else if n == 5 { '5' }
    else if n == 6 { '6' }
    else if n == 7 { '7' }
    else if n == 8 { '8' }
    else if n == 9 { '9' }
    else if n == 10 { 'a' }
    else if n == 11 { 'b' }
    else if n == 12 { 'c' }
    else if n == 13 { 'd' }
    else if n == 14 { 'e' }
    else { 'f' }
}

/// How one character is written inside a JSON string: quotes and
/// backslashes get a two-character escape, control characters a `\u00XX`
/// escape, everything else stands as itself.
pub open spec fn esc_char(c: char) -> Seq<char> {
    if c == '"' {
        seq!['\\', '"']
    } else if c == '\\' {
        seq!['\\', '\\']
    } else if (c as u32) < 0x20 {
        seq!['\\', 'u', '0', '0', hex_digit((c as u32) as int / 16), hex_digit((c as u32) as int % 16)]
    } else {
        seq![c]
    }
}

/// The body of a JSON string: each character escaped as needed.
pub open spec fn esc_str(s: Seq<char>) -> Seq<char>
    decreases s.len()
{
    if s.len() == 0 {
        Seq::empty()
    } else {
        esc_char(s[0]) + esc_str(s.skip(1))
    }
}

/// A JSON string: the escaped body between double quotes.
pub open spec fn quoted(s: Seq<char>) -> Seq<char> {
    seq!['"'] + esc_str(s) + seq!['"']
}

/// One object member: `"key":"value"`.
pub open spec fn entry_text(k: Seq<char>, v: Seq<char>) -> Seq<char> {
    quoted(k) + seq![':'] + quoted(v)
}

/// The members of an object, separated by commas.
pub open spec fn entries_text(es: Seq<(Seq<char>, Seq<char>)>) -> Seq<char>
    decreases es.len()
{
    if es.len() == 0 {
        Seq::empty()
    } else if es.len() == 1 {
        entry_text(es[0].0, es[0].1)
    } else {
        entry_text(es[0].0, es[0].1) + seq![','] + entries_text(es.skip(1))
    }
}

/// The serialized object: the members between braces.
pub open spec fn json_of(es: Seq<(Seq<char>, Seq<char>)>) -> Seq<char> {
    seq!['{'] + entries_text(es) + seq!['}']
}

/// Escaping a string one character longer appends that character's escape.
pub proof fn lemma_esc_push(t: Seq<char>, c: char)
    ensures
        esc_str(t.push(c)) == esc_str(t) + esc_char(c),
    decreases t.len()
{
    if t.len() == 0 {
        assert(t.push(c)[0] == c);
        assert(t.push(c).skip(1) =~= Seq::<char>::empty());
        assert(esc_str(Seq::<char>::empty()) == Seq::<char>::empty());
        assert(esc_str(t.push(c)) == esc_char(c) + Seq::<char>::empty());
        assert(esc_char(c) + Seq::<char>::empty() =~= esc_char(c));
        assert(esc_str(t) + esc_char(c) =~= esc_char(c));
    } else {
        assert(t.push(c)[0] == t[0]);
        assert(t.push(c).skip(1) =~= t.skip(1).push(c));
        lemma_esc_push(t.skip(1), c);
        assert(esc_char(t[0]) + (esc_str(t.skip(1)) + esc_char(c)) =~= (esc_char(t[0]) + esc_str(
            t.skip(1),
        )) + esc_char(c));
    }
}

/// Serializing one entry more appends a comma (after the first) and the
/// entry's text.
pub proof fn lemma_entries_text_push(es: Seq<(Seq<char>, Seq<char>)>, e: (Seq<char>, Seq<char>))
    ensures
        entries_text(es.push(e)) == if es.len() == 0 {
            entry_text(e.0, e.1)
        } else {
            entries_text(es) + seq![','] + entry_text(e.0, e.1)
        },
    decreases es.len()
{
    let p = es.push(e);
    if es.len() == 0 {
        assert(p.len() == 1);
        assert(p[0] == e);
    } else {
        assert(p[0] == es[0]);
        assert(p.skip(1) =~= es.skip(1).push(e));
        lemma_entries_text_push(es.skip(1), e);
        if es.len() == 1 {
            assert(entries_text(p.skip(1)) == entry_text(e.0, e.1));
            assert(entries_text(p) == entry_text(es[0].0, es[0].1) + seq![','] + entry_text(e.0, e.1));
        } else {
            assert(entries_text(p.skip(1)) == entries_text(es.skip(1)) + seq![','] + entry_text(
                e.0,
                e.1,
            ));
            assert(entry_text(p[0].0, p[0].1) + seq![','] + ((entries_text(es.skip(1)) + seq![','])
                + entry_text(e.0, e.1)) =~= ((entry_text(es[0].0, es[0].1) + seq![',']
                + entries_text(es.skip(1))) + seq![',']) + entry_text(e.0, e.1));
            assert(entries_text(p) =~= entries_text(es) + seq![','] + entry_text(e.0, e.1));
        }
    }
}

/// The lower-case hexadecimal digit character for `n`.
fn hex_digit_exec(n: u8) -> (r: char)
    requires
        n < 16,
    ensures
        r == hex_digit(n as int),
{
    if n == 0 { '0' }
    else if n == 1 { '1' }
    else if n == 2 { '2' }
    else if n == 3 { '3' }
    else if n == 4 { '4' }
    else if n == 5 { '5' }
    else if n == 6 { '6' }
    else if n == 7 { '7' }
    else if n == 8 { '8' }
    else if n == 9 { '9' }
    else if n == 10 { 'a' }
    else if n == 11 { 'b' }
    else if n == 12 { 'c' }
    else if n == 13 { 'd' }
    else if n == 14 { 'e' }
    else { 'f' }
}

/// Appends the escaped body of `s` to `out`.
fn append_escaped(out: &mut String, s: &str)
    ensures
        final(out)@ == old(out)@ + esc_str(s@),
{
    let n = s.unicode_len();
    proof {
        assert(s@.take(0) =~= Seq::<char>::empty());
        assert(old(out)@ + esc_str(s@.take(0)) =~= old(out)@);
    }
    let mut i: usize = 0;
    while i < n
        invariant
            n == s@.len(),
            0 <= i <= n,
            out@ == old(out)@ + esc_str(s@.take(i as int)),
        decreases n - i
    {
        let c = s.get_char(i);
        let u = c as u32;
        if c == '"' {
            push_char(out, '\\');
            push_char(out, '"');
        } else if c == '\\' {
            push_char(out, '\\');
            push_char(out, '\\');
        } else if u < 0x20 {
            push_char(out, '\\');
            push_char(out, 'u');
            push_char(out, '0');
            push_char(out, '0');
            push_char(out, hex_digit_exec((u / 16) as u8));
            push_char(out, hex_digit_exec((u % 16) as u8));
        } else {
            push_char(out, c);
        }
        proof {
            let t = s@.take(i as int);
            assert(s@.take(i + 1) =~= t.push(s@[i as int]));
            lemma_esc_push(t, s@[i as int]);
            assert(out@ =~= old(out)@ + esc_str(s@.take(i + 1)));
        }
        i = i + 1;
    }
    proof {
        assert(s@.take(n as int) =~= s@);
    }
}

/// Appends `s` as a JSON string (quotes and escaping) to `out`.
fn append_quoted(out: &mut String, s: &str)
    ensures
        final(out)@ == old(out)@ + quoted(s@),
{
    push_char(out, '"');
    append_escaped(out, s);
    push_char(out, '"');
    proof {
        assert(((old(out)@ + seq!['"']) + esc_str(s@)) + seq!['"'] =~= old(out)@ + quoted(s@));
    }
}

/// Whether `c` is a hexadecimal digit.
pub open spec fn is_hex(c: char) -> bool {
    let u = c as u32;
    (0x30 <= u && u <= 0x39) || (0x61 <= u && u <= 0x66) || (0x41 <= u && u <= 0x46)
}

/// The value of a hexadecimal digit.
pub open spec fn hex_val(c: char) -> int {
    let u = c as u32;
    if 0x30 <= u && u <= 0x39 {
        u - 0x30
    } else if 0x61 <= u && u <= 0x66 {
        u - 0x57
    } else if 0x41 <= u && u <= 0x46 {
        u - 0x37
    } else {
        0
    }
}

/// The character with the given code.
pub open spec fn char_of(code: u8) -> char {
    code as char
}

/// The character denoted by a short escape `\e`, if `e` is one.
pub open spec fn unescaped(e: char) -> Option<char> {
    if e == '"' { Some('"') }
    else if e == '\\' { Some('\\') }
    else if e == '/' { Some('/') }
    else if e == 'n' { Some('\n') }
    else if e == 't' { Some('\t') }
    else if e == 'r' { Some('\r') }
    else if e == 'b' { Some('\u{8}') }
    else if e == 'f' { Some('\u{c}') }
    else { None }
}

/// Prefixes the parsed text of a string-body result with `acc`.
pub open spec fn with_prefix(acc: Seq<char>, r: Option<(Seq<char>, int)>) -> Option<
    (Seq<char>, int),
> {
    match r {
        Some(p) => Some((acc + p.0, p.1)),
        None => None,
    }
}

/// Parses the body of a JSON string starting at `i` (just after the
/// opening quote); yields the decoded text and the position after the
/// closing quote.
pub open spec fn parse_str_body(s: Seq<char>, i: int) -> Option<(Seq<char>, int)>
    decreases s.len() - i when 0 <= i
{
    if i < 0 || i >= s.len() {
        None
    } else if s[i] == '"' {
        Some((Seq::empty(), i + 1))
    } else if s[i] == '\\' {
        if i + 1 < s.len() {
            let e = s[i + 1];
            if e == 'u' {
                if i + 5 < s.len() && s[i + 2] == '0' && s[i + 3] == '0' && is_hex(s[i + 4])
                    && is_hex(s[i + 5]) {
                    with_prefix(
                        seq![char_of((16 * hex_val(s[i + 4]) + hex_val(s[i + 5])) as u8)],
                        parse_str_body(s, i + 6),
                    )
                } else {
                    None
                }
            } else {
                match unescaped(e) {
                    Some(c) => with_prefix(seq![c], parse_str_body(s, i + 2)),
                    None => None,
                }
            }
        } else {
            None
        }
    } else {
        with_prefix(seq![s[i]], parse_str_body(s, i + 1))
    }
}

/// Parses a JSON string (opening quote at `i`).
pub open spec fn parse_string(s: Seq<char>, i: int) -> Option<(Seq<char>, int)> {
    if 0 <= i && i < s.len() && s[i] == '"' {
        parse_str_body(s, i + 1)
    } else {
        None
    }
}

/// Parses one object member `"key":"value"` starting at `i`.
pub open spec fn parse_entry(s: Seq<char>, i: int) -> Option<((Seq<char>, Seq<char>), int)> {
    match parse_string(s, i) {
        Some(k) => if k.1 < s.len() && s[k.1] == ':' {
            match parse_string(s, k.1 + 1) {
                Some(v) => Some(((k.0, v.0), v.1)),
                None => None,
            }
        } else {
            None
        },
        None => None,
    }
}

/// Prefixes the entries of an entry-list result with `acc`.
pub open spec fn with_entries_prefix(
    acc: Seq<(Seq<char>, Seq<char>)>,
    r: Option<(Seq<(Seq<char>, Seq<char>)>, int)>,
) -> Option<(Seq<(Seq<char>, Seq<char>)>, int)> {
    match r {
        Some(p) => Some((acc + p.0, p.1)),
        None => None,
    }
}

/// Parses one or more comma-separated members starting at `i`.
pub open spec fn parse_entries(s: Seq<char>, i: int) -> Option<(Seq<(Seq<char>, Seq<char>)>, int)>
    decreases s.len() - i when 0 <= i
{
    match parse_entry(s, i) {
        Some(e) => if e.1 < s.len() && s[e.1] == ',' {
            if i < e.1 {
                with_entries_prefix(seq![e.0], parse_entries(s, e.1 + 1))
            } else {
                None
            }
        } else {
            Some((seq![e.0], e.1))
        },
        None => None,
    }
}

/// Parses a whole payload: a braced object covering the entire text.
pub open spec fn parse_json(s: Seq<char>) -> Option<Seq<(Seq<char>, Seq<char>)>> {
    if s.len() >= 2 && s[0] == '{' {
        if s[1] == '}' {
            if s.len() == 2 {
                Some(Seq::empty())
            } else {
                None
            }
        } else {
            match parse_entries(s, 1) {
                Some(p) => if p.1 + 1 == s.len() && 0 <= p.1 < s.len() && s[p.1] == '}' {
                    Some(p.0)
                } else {
                    None
                },
                None => None,
            }
        }
    } else {
        None
    }
}

/// What deserialization yields: the text is first cut at the first
/// `" at line"`, then parsed, then the parsed entries are inserted in
/// order (a duplicated key keeps the later message).
pub open spec fn spec_from_json(text: Seq<char>) -> Option<Seq<(Seq<char>, Seq<char>)>> {
    match parse_json(truncate_at_pat(text)) {
        Some(pes) => Some(fold_entries(pes)),
        None => None,
    }
}

/// The lower-case hexadecimal digits parse back to their value.
proof fn lemma_hex_roundtrip(n: int)
    requires
        0 <= n < 16,
    ensures
        is_hex(hex_digit(n)),
        hex_val(hex_digit(n)) == n,
        hex_digit(n) != ' ',
{
}

/// Escaped text parses back: when the region of `s` starting at `i` holds
/// the escaped body of `m` followed by a closing quote, the string-body
/// parser yields exactly `m` and stops just after that quote.
proof fn lemma_parse_esc(s: Seq<char>, i: int, m: Seq<char>)
    requires
        0 <= i,
        i + esc_str(m).len() + 1 <= s.len(),
        s.subrange(i, i + esc_str(m).len()) == esc_str(m),
        s[i + esc_str(m).len()] == '"',
    ensures
        parse_str_body(s, i) == Some((m, i + esc_str(m).len() + 1)),
    decreases m.len()
{
    let n = esc_str(m).len() as int;
    assert(forall|l: int| 0 <= l < n ==> s[i + l] == esc_str(m)[l]) by {
        assert(forall|l: int|
            0 <= l < n ==> #[trigger] s.subrange(i, i + esc_str(m).len())[l] == s[i + l]);
    }
    if m.len() == 0 {
        assert(n == 0);
        assert(s[i] == '"');
    } else {
        let c = m[0];
        let e = esc_char(c);
        let rest = m.skip(1);
        let er = esc_str(rest);
        assert(esc_str(m) == e + er);
        let ll = e.len() as int;
        assert(forall|l: int| 0 <= l < ll ==> esc_str(m)[l] == e[l]);
        assert(forall|l: int| 0 <= l < er.len() ==> esc_str(m)[ll + l] == er[l]);
        assert(s.subrange(i + ll, i + ll + er.len()) =~= er) by {
            assert(forall|l: int|
                0 <= l < er.len() ==> #[trigger] s.subrange(i + ll, i + ll + er.len())[l] == s[i + ll + l]);
        }
        lemma_parse_esc(s, i + ll, rest);
        assert(seq![c] + rest =~= m);
        if c == '"' {
            assert(e == seq!['\\', '"']);
            assert(s[i] == '\\' && s[i + 1] == '"');
            assert(unescaped(s[i + 1]) == Some('"'));
            assert(parse_str_body(s, i) == with_prefix(seq![c], parse_str_body(s, i + 2)));
        } else if c == '\\' {
            assert(e == seq!['\\', '\\']);
            assert(s[i] == '\\' && s[i + 1] == '\\');
            assert(s[i + 1] != 'u');
            assert(unescaped(s[i + 1]) == Some('\\'));
            assert(parse_str_body(s, i) == with_prefix(seq![c], parse_str_body(s, i + 2)));
        } else if (c as u32) < 0x20 {
            let u = (c as u32) as int;
            assert(e == seq!['\\', 'u', '0', '0', hex_digit(u / 16), hex_digit(u % 16)]);
            assert(s[i] == '\\' && s[i + 1] == 'u' && s[i + 2] == '0' && s[i + 3] == '0');
            assert(s[i + 4] == hex_digit(u / 16) && s[i + 5] == hex_digit(u % 16));
            lemma_hex_roundtrip(u / 16);
            lemma_hex_roundtrip(u % 16);
            assert(16 * hex_val(s[i + 4]) + hex_val(s[i + 5]) == u);
            assert(char_of((16 * hex_val(s[i + 4]) + hex_val(s[i + 5])) as u8) == c) by {
                vstd::utf8::char_u32_cast(c, c as u32);
                assert((c as u32) as u8 == c as u32);
            }
            assert(parse_str_body(s, i) == with_prefix(seq![c], parse_str_body(s, i + 6)));
        } else {
            assert(e == seq![c]);
            assert(s[i] == c);
            assert(s[i] != '"' && s[i] != '\\');
            assert(parse_str_body(s, i) == with_prefix(seq![c], parse_str_body(s, i + 1)));
        }
    }
}

/// A quoted string parses back: when the region of `s` starting at `i`
/// holds `quoted(m)`, the string parser yields `m` and stops after it.
proof fn lemma_parse_quoted(s: Seq<char>, i: int, m: Seq<char>)
    requires
        0 <= i,
        i + quoted(m).len() <= s.len(),
        s.subrange(i, i + quoted(m).len()) == quoted(m),
    ensures
        parse_string(s, i) == Some((m, i + quoted(m).len())),
{
    let q = quoted(m);
    let n = q.len() as int;
    assert(forall|l: int| 0 <= l < n ==> s[i + l] == q[l]) by {
        assert(forall|l: int| 0 <= l < n ==> #[trigger] s.subrange(i, i + q.len())[l] == s[i + l]);
    }
    assert(q[0] == '"');
    assert(forall|l: int| 0 <= l < esc_str(m).len() ==> q[1 + l] == esc_str(m)[l]);
    assert(q[1 + esc_str(m).len() as int] == '"');
    assert(s[i] == '"');
    assert(s.subrange(i + 1, i + 1 + esc_str(m).len()) =~= esc_str(m)) by {
        assert(forall|l: int|
            0 <= l < esc_str(m).len() ==> #[trigger] s.subrange(i + 1, i + 1 + esc_str(m).len())[l] == s[i + 1
                + l]);
    }
    assert(s[i + 1 + esc_str(m).len()] == '"');
    lemma_parse_esc(s, i + 1, m);
}

/// Serialized members parse back: when the region of `s` starting at `i`
/// holds `entries_text(es)` followed by a closing brace, the member
/// parser yields exactly `es` and stops at that brace.
proof fn lemma_parse_entries_enc(s: Seq<char>, i: int, es: Seq<(Seq<char>, Seq<char>)>)
    requires
        0 <= i,
        es.len() >= 1,
        i + entries_text(es).len() + 1 <= s.len(),
        s.subrange(i, i + entries_text(es).len()) == entries_text(es),
        s[i + entries_text(es).len()] == '}',
    ensures
        parse_entries(s, i) == Some((es, i + entries_text(es).len())),
    decreases es.len()
{
    let t = entries_text(es);
    let n = t.len() as int;
    assert(forall|l: int| 0 <= l < n ==> s[i + l] == t[l]) by {
        assert(forall|l: int| 0 <= l < n ==> #[trigger] s.subrange(i, i + t.len())[l] == s[i + l]);
    }
    let k = es[0].0;
    let v = es[0].1;
    let et = entry_text(k, v);
    assert(et == quoted(k) + seq![':'] + quoted(v));
    let qk = quoted(k);
    let qv = quoted(v);
    assert(forall|l: int| 0 <= l < et.len() ==> t[l] == et[l]) by {
        if es.len() == 1 {
        } else {
            assert(t == et + seq![','] + entries_text(es.skip(1)));
        }
    }
    assert(forall|l: int| 0 <= l < qk.len() ==> et[l] == qk[l]);
    assert(et[qk.len() as int] == ':');
    assert(forall|l: int| 0 <= l < qv.len() ==> et[qk.len() + 1 + l] == qv[l]);
    assert(s.subrange(i, i + qk.len()) =~= qk) by {
        assert(forall|l: int| 0 <= l < qk.len() ==> #[trigger] s.subrange(i, i + qk.len())[l] == s[i + l]);
    }
    lemma_parse_quoted(s, i, k);
    let jk = i + qk.len();
    assert(s[jk] == ':');
    assert(s.subrange(jk + 1, jk + 1 + qv.len()) =~= qv) by {
        assert(forall|l: int|
            0 <= l < qv.len() ==> #[trigger] s.subrange(jk + 1, jk + 1 + qv.len())[l] == s[jk + 1 + l]);
    }
    lemma_parse_quoted(s, jk + 1, v);
    let j2 = jk + 1 + qv.len();
    assert(j2 == i + et.len());
    assert(parse_entry(s, i) == Some(((k, v), j2)));
    if es.len() == 1 {
        assert(n == et.len());
        assert(s[j2] == '}');
        assert(!(j2 < s.len() && s[j2] == ','));
        assert(seq![(k, v)] =~= es);
    } else {
        let rest = es.skip(1);
        let rt = entries_text(rest);
        assert(t == et + seq![','] + rt);
        assert(t[et.len() as int] == ',');
        assert(s[j2] == ',');
        assert(i < j2);
        assert(forall|l: int| 0 <= l < rt.len() ==> t[et.len() + 1 + l] == rt[l]);
        assert(s.subrange(j2 + 1, j2 + 1 + rt.len()) =~= rt) by {
            assert(forall|l: int|
                0 <= l < rt.len() ==> #[trigger] s.subrange(j2 + 1, j2 + 1 + rt.len())[l] == s[j2 + 1 + l]);
        }
        assert(j2 + 1 + rt.len() == i + n);
        assert(s[j2 + 1 + rt.len()] == '}');
        lemma_parse_entries_enc(s, j2 + 1, rest);
        assert(parse_entries(s, i) == with_entries_prefix(
            seq![(k, v)],
            parse_entries(s, j2 + 1),
        ));
        assert(seq![(k, v)] + rest =~= es);
    }
}

/// A serialized collector parses back to its entry list exactly.
pub proof fn lemma_parse_json_of(es: Seq<(Seq<char>, Seq<char>)>)
    ensures
        parse_json(json_of(es)) == Some(es),
{
    let s = json_of(es);
    let t = entries_text(es);
    assert(forall|l: int| 0 <= l < t.len() ==> s[1 + l] == t[l]);
    assert(s[0] == '{');
    assert(s[1 + t.len() as int] == '}');
    if es.len() == 0 {
        assert(s.len() == 2);
        assert(s[1] == '}');
        assert(parse_json(s) == Some(Seq::<(Seq<char>, Seq<char>)>::empty()));
        assert(Seq::<(Seq<char>, Seq<char>)>::empty() =~= es);
    } else {
        assert(t[0] == entry_text(es[0].0, es[0].1)[0]) by {
            if es.len() > 1 {
                assert(t == entry_text(es[0].0, es[0].1) + seq![','] + entries_text(es.skip(1)));
            }
        }
        assert(entry_text(es[0].0, es[0].1)[0] == '"');
        assert(s[1] == '"');
        assert(s.subrange(1, 1 + t.len() as int) =~= t) by {
            assert(forall|l: int|
                0 <= l < t.len() ==> #[trigger] s.subrange(1, 1 + t.len() as int)[l] == s[1 + l]);
        }
        lemma_parse_entries_enc(s, 1, es);
        assert(parse_json(s) == Some(es));
    }
}

/// The characters of the truncation marker, and which characters it does
/// not contain.
proof fn lemma_pat_chars()
    ensures
        line_pat().len() == 8,
        line_pat()[0] == ' ',
        forall|l: int|
            0 <= l < 8 ==> (#[trigger] line_pat()[l]) != '\\' && line_pat()[l] != '"'
                && line_pat()[l] != '{' && line_pat()[l] != '}' && line_pat()[l] != ','
                && line_pat()[l] != ':' && line_pat()[l] != 'u' && line_pat()[l] != '0',
{
    assert(line_pat()[0] == ' ');
    assert(line_pat()[1] == 'a');
    assert(line_pat()[2] == 't');
    assert(line_pat()[3] == ' ');
    assert(line_pat()[4] == 'l');
    assert(line_pat()[5] == 'i');
    assert(line_pat()[6] == 'n');
    assert(line_pat()[7] == 'e');
    assert forall|l: int|
        0 <= l < 8 implies (#[trigger] line_pat()[l]) != '\\' && line_pat()[l] != '"'
        && line_pat()[l] != '{' && line_pat()[l] != '}' && line_pat()[l] != ','
        && line_pat()[l] != ':' && line_pat()[l] != 'u' && line_pat()[l] != '0' by {
        if l == 0 {
        } else if l == 1 {
        } else if l == 2 {
        } else if l == 3 {
        } else if l == 4 {
        } else if l == 5 {
        } else if l == 6 {
        } else {
            assert(l == 7);
        }
    }
}

/// A sequence shorter than the marker cannot contain it.
proof fn lemma_short_no_pat(s: Seq<char>)
    requires
        s.len() < 8,
    ensures
        !pat_in(s),
{
    if pat_in(s) {
        let i = choose|i: int| pat_at(s, i);
        assert(false);
    }
}

/// Putting a character the marker does not contain between two
/// marker-free sequences keeps the whole marker-free: an occurrence
/// cannot cross the separator.
proof fn lemma_no_pat_around(x: Seq<char>, q: char, y: Seq<char>)
    requires
        !pat_in(x),
        !pat_in(y),
        forall|l: int| 0 <= l < 8 ==> (#[trigger] line_pat()[l]) != q,
    ensures
        !pat_in(x + seq![q] + y),
{
    let z = x + seq![q] + y;
    let xl = x.len() as int;
    assert(forall|t: int| 0 <= t < xl ==> z[t] == x[t]);
    assert(z[xl] == q);
    assert(forall|t: int| 0 <= t < y.len() ==> z[xl + 1 + t] == y[t]);
    if pat_in(z) {
        let i = choose|i: int| pat_at(z, i);
        assert(z.subrange(i, i + 8) == line_pat());
        assert(forall|l: int| 0 <= l < 8 ==> #[trigger] z.subrange(i, i + 8)[l] == z[i + l]);
        assert(forall|l: int| 0 <= l < 8 ==> z[i + l] == line_pat()[l]);
        if i + 8 <= xl {
            assert(x.subrange(i, i + 8) =~= line_pat()) by {
                assert(forall|l: int|
                    0 <= l < 8 ==> #[trigger] x.subrange(i, i + 8)[l] == x[i + l]);
            }
            assert(pat_at(x, i));
            assert(false);
        } else if i > xl {
            let i2 = i - xl - 1;
            assert(y.subrange(i2, i2 + 8) =~= line_pat()) by {
                assert(forall|l: int|
                    0 <= l < 8 ==> #[trigger] y.subrange(i2, i2 + 8)[l] == y[i2 + l]);
                assert(forall|l: int| 0 <= l < 8 ==> (#[trigger] y[i2 + l]) == z[i + l]);
            }
            assert(pat_at(y, i2));
            assert(false);
        } else {
            assert(i <= xl < i + 8);
            assert(line_pat()[xl - i] == q);
            assert(false);
        }
    }
}

/// When the escaped body of `m` starts with a suffix of the marker, `m`
/// itself starts with that suffix: the marker holds no backslash, so its
/// characters can only come out of escaping unchanged.
proof fn lemma_esc_prefix(m: Seq<char>, k: int)
    requires
        0 <= k <= 8,
        esc_str(m).len() >= 8 - k,
        esc_str(m).subrange(0, 8 - k) == line_pat().skip(k),
    ensures
        m.len() >= 8 - k,
        m.subrange(0, 8 - k) == line_pat().skip(k),
    decreases 8 - k
{
    lemma_pat_chars();
    if k == 8 {
        assert(m.subrange(0, 0) =~= line_pat().skip(8));
    } else {
        assert(forall|l: int|
            0 <= l < 8 - k ==> #[trigger] esc_str(m).subrange(0, 8 - k)[l] == esc_str(m)[l]);
        assert(forall|l: int| 0 <= l < 8 - k ==> esc_str(m)[l] == line_pat().skip(k)[l]);
        assert(forall|l: int| 0 <= l < 8 - k ==> line_pat().skip(k)[l] == line_pat()[k + l]);
        assert(m.len() > 0);
        let c = m[0];
        let e = esc_char(c);
        let rest = esc_str(m.skip(1));
        assert(esc_str(m) == e + rest);
        assert(esc_str(m)[0] == e[0]);
        assert(esc_str(m)[0] == line_pat()[k]);
        if c == '"' || c == '\\' || (c as u32) < 0x20 {
            assert(e[0] == '\\');
            assert(false);
        }
        assert(e == seq![c]);
        assert(c == line_pat()[k]);
        assert(rest.len() >= 8 - (k + 1));
        assert(rest.subrange(0, 8 - (k + 1)) =~= line_pat().skip(k + 1)) by {
            assert(forall|l: int|
                0 <= l < 7 - k ==> #[trigger] rest.subrange(0, 7 - k)[l] == rest[l]);
            assert(forall|l: int| 0 <= l < 7 - k ==> rest[l] == esc_str(m)[1 + l]);
            assert(forall|l: int|
                0 <= l < 7 - k ==> #[trigger] line_pat().skip(k + 1)[l] == line_pat()[k + 1 + l]);
        }
        lemma_esc_prefix(m.skip(1), k + 1);
        assert forall|l: int| 0 <= l < 8 - k implies (#[trigger] m[l]) == line_pat().skip(k)[l] by {
            if l == 0 {
                assert(m[0] == line_pat()[k]);
            } else {
                assert(m.skip(1).subrange(0, 7 - k)[l - 1] == line_pat().skip(k + 1)[l - 1]);
                assert(m.skip(1).subrange(0, 7 - k)[l - 1] == m.skip(1)[l - 1]);
                assert(m.skip(1)[l - 1] == m[l]);
                assert(line_pat().skip(k + 1)[l - 1] == line_pat()[k + l]);
            }
        }
        assert(m.subrange(0, 8 - k) =~= line_pat().skip(k)) by {
            assert(forall|l: int|
                0 <= l < 8 - k ==> #[trigger] m.subrange(0, 8 - k)[l] == m[l]);
        }
    }
}

/// Escaping creates no marker occurrence: if the marker occurs in the
/// escaped body, it already occurred in the message.
proof fn lemma_esc_no_pat(m: Seq<char>)
    ensures
        pat_in(esc_str(m)) ==> pat_in(m),
    decreases m.len()
{
    lemma_pat_chars();
    if pat_in(esc_str(m)) {
        let i = choose|i: int| pat_at(esc_str(m), i);
        assert(esc_str(m).subrange(i, i + 8) == line_pat());
        assert(forall|l: int|
            0 <= l < 8 ==> #[trigger] esc_str(m).subrange(i, i + 8)[l] == esc_str(m)[i + l]);
        assert(forall|l: int| 0 <= l < 8 ==> esc_str(m)[i + l] == line_pat()[l]);
        assert(m.len() > 0);
        let c = m[0];
        let e = esc_char(c);
        let ll = e.len() as int;
        let rest = esc_str(m.skip(1));
        assert(esc_str(m) == e + rest);
        assert(forall|l: int| 0 <= l < ll ==> esc_str(m)[l] == e[l]);
        assert(forall|l: int| 0 <= l < rest.len() ==> esc_str(m)[ll + l] == rest[l]);
        if i == 0 {
            assert(esc_str(m).subrange(0, 8) =~= line_pat().skip(0)) by {
                assert(line_pat().skip(0) =~= line_pat());
            }
            lemma_esc_prefix(m, 0);
            assert(m.subrange(0, 8) == line_pat().skip(0));
            assert(line_pat().skip(0) =~= line_pat());
            assert(pat_at(m, 0));
        } else if i >= ll {
            assert(rest.subrange(i - ll, i - ll + 8) =~= line_pat()) by {
                assert(forall|l: int|
                    0 <= l < 8 ==> #[trigger] rest.subrange(i - ll, i - ll + 8)[l] == rest[i - ll
                        + l]);
                assert(forall|l: int|
                    0 <= l < 8 ==> (#[trigger] rest[i - ll + l]) == esc_str(m)[i + l]);
            }
            assert(pat_at(rest, i - ll));
            lemma_esc_no_pat(m.skip(1));
            let w = choose|w: int| pat_at(m.skip(1), w);
            assert(m.subrange(w + 1, w + 9) =~= line_pat()) by {
                assert(m.skip(1).subrange(w, w + 8) == line_pat());
                assert(forall|l: int|
                    0 <= l < 8 ==> #[trigger] m.skip(1).subrange(w, w + 8)[l] == m.skip(1)[w + l]);
                assert(forall|l: int|
                    0 <= l < 8 ==> (#[trigger] m.skip(1)[w + l]) == m[w + 1 + l]);
                assert(forall|l: int|
                    0 <= l < 8 ==> #[trigger] m.subrange(w + 1, w + 9)[l] == m[w + 1 + l]);
            }
            assert(pat_at(m, w + 1));
        } else {
            assert(0 < i < ll);
            assert(esc_str(m)[i] == line_pat()[0]);
            assert(e[i] == ' ');
            if c == '"' || c == '\\' {
                assert(e[1] == '"' || e[1] == '\\');
                assert(false);
            } else {
                assert((c as u32) < 0x20);
                assert(e == seq!['\\', 'u', '0', '0', hex_digit((c as u32) as int / 16), hex_digit(
                    (c as u32) as int % 16,
                )]);
                assert(hex_digit((c as u32) as int / 16) != ' ');
                assert(hex_digit((c as u32) as int % 16) != ' ');
                assert(false);
            }
        }
    }
}

/// A quoted marker-free string is marker-free.
proof fn lemma_quoted_no_pat(s: Seq<char>)
    requires
        !pat_in(s),
    ensures
        !pat_in(quoted(s)),
{
    lemma_pat_chars();
    lemma_esc_no_pat(s);
    lemma_short_no_pat(Seq::<char>::empty());
    lemma_no_pat_around(Seq::<char>::empty(), '"', esc_str(s));
    assert(Seq::<char>::empty() + seq!['"'] + esc_str(s) =~= seq!['"'] + esc_str(s));
    lemma_no_pat_around(seq!['"'] + esc_str(s), '"', Seq::<char>::empty());
    assert((seq!['"'] + esc_str(s)) + seq!['"'] + Seq::<char>::empty() =~= quoted(s));
}

/// The serialized members of marker-free entries are marker-free.
proof fn lemma_entries_no_pat(es: Seq<(Seq<char>, Seq<char>)>)
    requires
        forall|l: int|
            0 <= l < es.len() ==> !pat_in((#[trigger] es[l]).0) && !pat_in(es[l].1),
    ensures
        !pat_in(entries_text(es)),
    decreases es.len()
{
    lemma_pat_chars();
    if es.len() == 0 {
        lemma_short_no_pat(entries_text(es));
    } else {
        lemma_quoted_no_pat(es[0].0);
        lemma_quoted_no_pat(es[0].1);
        lemma_no_pat_around(quoted(es[0].0), ':', quoted(es[0].1));
        assert(!pat_in(entry_text(es[0].0, es[0].1)));
        if es.len() == 1 {
        } else {
            assert(forall|l: int|
                0 <= l < es.skip(1).len() ==> (#[trigger] es.skip(1)[l]) == es[1 + l]);
            lemma_entries_no_pat(es.skip(1));
            lemma_no_pat_around(entry_text(es[0].0, es[0].1), ',', entries_text(es.skip(1)));
        }
    }
}

/// The whole serialized payload of a marker-free collector is
/// marker-free.
pub proof fn lemma_json_no_pat(es: Seq<(Seq<char>, Seq<char>)>)
    requires
        forall|l: int|
            0 <= l < es.len() ==> !pat_in((#[trigger] es[l]).0) && !pat_in(es[l].1),
    ensures
        !pat_in(json_of(es)),
{
    lemma_pat_chars();
    lemma_entries_no_pat(es);
    lemma_short_no_pat(Seq::<char>::empty());
    lemma_no_pat_around(Seq::<char>::empty(), '{', entries_text(es));
    assert(Seq::<char>::empty() + seq!['{'] + entries_text(es) =~= seq!['{'] + entries_text(es));
    lemma_no_pat_around(seq!['{'] + entries_text(es), '}', Seq::<char>::empty());
    assert((seq!['{'] + entries_text(es)) + seq!['}'] + Seq::<char>::empty() =~= json_of(es));
}

/// Round trip: serializing a collector and deserializing the result
/// restores it exactly, provided no stored key or message contains the
/// literal `" at line"` (such text would be cut by the truncation rule).
pub proof fn lemma_round_trip(c: StructValidator)
    requires
        c.wf(),
        forall|l: int|
            0 <= l < c.entries().len() ==> !pat_in((#[trigger] c.entries()[l]).0) && !pat_in(
                c.entries()[l].1,
            ),
    ensures
        spec_from_json(json_of(c.entries())) == Some(c.entries()),
{
    lemma_json_no_pat(c.entries());
    crate::pattern::lemma_truncate_id(json_of(c.entries()));
    lemma_parse_json_of(c.entries());
    crate::validator::lemma_fold_entries_id(c.entries());
}

/// The payload text was not a well-formed serialized collector.
#[derive(Clone, Copy, Debug, PartialEq, Eq)]
pub struct JsonParseError;

/// The value of a hexadecimal digit character, if it is one.
fn hex_val_exec(c: char) -> (r: Option<u8>)
    ensures
        match r {
            Some(v) => is_hex(c) && v as int == hex_val(c) && v < 16,
            None => !is_hex(c),
        },
{
    let u = c as u32;
    if 0x30 <= u && u <= 0x39 {
        Some((u - 0x30) as u8)
    } else if 0x61 <= u && u <= 0x66 {
        Some((u - 0x57) as u8)
    } else if 0x41 <= u && u <= 0x46 {
        Some((u - 0x37) as u8)
    } else {
        None
    }
}

/// Parses a JSON string starting at `i`; yields the decoded text and the
/// position after the closing quote.
fn parse_string_exec(s: &str, i: usize) -> (r: Option<(String, usize)>)
    ensures
        match r {
            Some(p) => parse_string(s@, i as int) == Some((p.0@, p.1 as int)) && i < p.1
                && p.1 <= s@.len(),
            None => parse_string(s@, i as int) is None,
        },
{
    let n = s.unicode_len();
    if i >= n || s.get_char(i) != '"' {
        return None;
    }
    let ghost start = i + 1;
    let mut out = String::new();
    let mut p: usize = i + 1;
    proof {
        assert(out@ + parse_str_body(s@, p as int).unwrap().0 =~= parse_str_body(
            s@,
            p as int,
        ).unwrap().0) by {
            if parse_str_body(s@, p as int) is Some {
            }
        }
    }
    loop
        invariant
            n == s@.len(),
            start <= p <= n,
            i < n,
            start == i + 1,
            parse_str_body(s@, start as int) == with_prefix(out@, parse_str_body(s@, p as int)),
            s@[i as int] == '"',
        decreases n - p
    {
        if p >= n {
            return None;
        }
        let c = s.get_char(p);
        if c == '"' {
            proof {
                assert(parse_str_body(s@, p as int) == Some((Seq::<char>::empty(), p + 1)));
                assert(out@ + Seq::<char>::empty() =~= out@);
            }
            return Some((out, p + 1));
        }
        let ghost pre = out@;
        if c == '\\' {
            if p + 1 >= n {
                return None;
            }
            let e = s.get_char(p + 1);
            if e == 'u' {
                if n - p < 6 {
                    return None;
                }
                if s.get_char(p + 2) != '0' || s.get_char(p + 3) != '0' {
                    return None;
                }
                let h1 = match hex_val_exec(s.get_char(p + 4)) {
                    Some(v) => v,
                    None => {
                        return None;
                    },
                };
                let h2 = match hex_val_exec(s.get_char(p + 5)) {
                    Some(v) => v,
                    None => {
                        return None;
                    },
                };
                let code: u8 = 16 * h1 + h2;
                let dc = code as char;
                push_char(&mut out, dc);
                proof {
                    assert(dc == char_of(
                        (16 * hex_val(s@[p + 4]) + hex_val(s@[p + 5])) as u8,
                    ));
                    assert(parse_str_body(s@, p as int) == with_prefix(
                        seq![dc],
                        parse_str_body(s@, p + 6),
                    ));
                    let x = parse_str_body(s@, p + 6);
                    if x is Some {
                        assert(pre + (seq![dc] + x.unwrap().0) =~= (pre + seq![dc]) + x.unwrap().0);
                    }
                }
                p = p + 6;
            } else {
                let dc: char = match e {
                    '"' => '"',
                    '\\' => '\\',
                    '/' => '/',
                    'n' => '\n',
                    't' => '\t',
                    'r' => '\r',
                    'b' => '\u{8}',
                    'f' => '\u{c}',
                    _ => {
                        return None;
                    },
                };
                push_char(&mut out, dc);
                proof {
                    assert(unescaped(s@[p + 1]) == Some(dc));
                    assert(parse_str_body(s@, p as int) == with_prefix(
                        seq![dc],
                        parse_str_body(s@, p + 2),
                    ));
                    let x = parse_str_body(s@, p + 2);
                    if x is Some {
                        assert(pre + (seq![dc] + x.unwrap().0) =~= (pre + seq![dc]) + x.unwrap().0);
                    }
                }
                p = p + 2;
            }
        } else {
            push_char(&mut out, c);
            proof {
                assert(parse_str_body(s@, p as int) == with_prefix(
                    seq![c],
                    parse_str_body(s@, p + 1),
                ));
                let x = parse_str_body(s@, p + 1);
                if x is Some {
                    assert(pre + (seq![c] + x.unwrap().0) =~= (pre + seq![c]) + x.unwrap().0);
                }
            }
            p = p + 1;
        }
    }
}

/// Parses one member `"key":"value"` starting at `i`.
fn parse_entry_exec(s: &str, i: usize) -> (r: Option<(String, String, usize)>)
    ensures
        match r {
            Some(p) => parse_entry(s@, i as int) == Some(((p.0@, p.1@), p.2 as int)) && i < p.2
                && p.2 <= s@.len(),
            None => parse_entry(s@, i as int) is None,
        },
{
    let n = s.unicode_len();
    match parse_string_exec(s, i) {
        None => None,
        Some(k) => {
            if k.1 < n && s.get_char(k.1) == ':' {
                match parse_string_exec(s, k.1 + 1) {
                    None => None,
                    Some(v) => Some((k.0, v.0, v.1)),
                }
            } else {
                None
            }
        },
    }
}

/// Parses one or more comma-separated members starting at `i`.
fn parse_entries_exec(s: &str, i: usize) -> (r: Option<(Vec<(String, String)>, usize)>)
    ensures
        match r {
            Some(p) => parse_entries(s@, i as int) == Some((pairs_view(p.0@), p.1 as int)) && i
                < p.1 && p.1 <= s@.len(),
            None => parse_entries(s@, i as int) is None,
        },
{
    let n = s.unicode_len();
    if i >= n {
        return None;
    }
    let mut out: Vec<(String, String)> = Vec::new();
    let mut p: usize = i;
    proof {
        assert(pairs_view(out@) =~= Seq::<(Seq<char>, Seq<char>)>::empty());
    }
    loop
        invariant
            n == s@.len(),
            i <= p <= n,
            parse_entries(s@, i as int) == with_entries_prefix(
                pairs_view(out@),
                parse_entries(s@, p as int),
            ),
        decreases n - p
    {
        let ghost acc = pairs_view(out@);
        match parse_entry_exec(s, p) {
            None => {
                return None;
            },
            Some(e) => {
                let j = e.2;
                let ghost ev = (e.0@, e.1@);
                let comma = j < n && s.get_char(j) == ',';
                out.push((e.0, e.1));
                proof {
                    assert(pairs_view(out@) =~= acc.push(ev));
                    assert(acc + seq![ev] =~= acc.push(ev));
                }
                if comma {
                    proof {
                        assert(parse_entries(s@, p as int) == with_entries_prefix(
                            seq![ev],
                            parse_entries(s@, j + 1),
                        ));
                        let x = parse_entries(s@, j + 1);
                        if x is Some {
                            assert(acc + (seq![ev] + x.unwrap().0) =~= acc.push(ev) + x.unwrap().0);
                        }
                    }
                    p = j + 1;
                } else {
                    proof {
                        assert(parse_entries(s@, p as int) == Some((seq![ev], j as int)));
                        assert(acc + seq![ev] =~= pairs_view(out@));
                    }
                    return Some((out, j));
                }
            },
        }
    }
}

/// Parses a whole payload text.
fn parse_json_exec(s: &str) -> (r: Option<Vec<(String, String)>>)
    ensures
        match r {
            Some(v) => parse_json(s@) == Some(pairs_view(v@)),
            None => parse_json(s@) is None,
        },
{
    let n = s.unicode_len();
    if n < 2 {
        return None;
    }
    if s.get_char(0) != '{' {
        return None;
    }
    if s.get_char(1) == '}' {
        if n == 2 {
            let v: Vec<(String, String)> = Vec::new();
            proof {
                assert(pairs_view(v@) =~= Seq::<(Seq<char>, Seq<char>)>::empty());
            }
            return Some(v);
        } else {
            return None;
        }
    }
    match parse_entries_exec(s, 1) {
        None => None,
        Some(p) => {
            let (v, j) = p;
            if j < n {
                if j + 1 == n && s.get_char(j) == '}' {
                    Some(v)
                } else {
                    None
                }
            } else {
                None
            }
        },
    }
}

impl StructValidator {
    /// The inverse of [`Self::to_json_string`]: cuts the text at the first
    /// `" at line"` (the text may itself have been wrapped by an outer
    /// decoder that appended positional context), then parses it as a JSON
    /// object of strings.
    pub fn from_json_string(text: &str) -> (r: Result<StructValidator, JsonParseError>)
        ensures
            match r {
                Ok(c) => c.wf() && spec_from_json(text@) == Some(c.entries()),
                Err(_) => spec_from_json(text@) is None,
            },
    {
        let t = truncate_msg(text);
        match parse_json_exec(t.as_str()) {
            None => Err(JsonParseError),
            Some(pairs) => {
                let ghost pes = pairs_view(pairs@);
                let mut c = StructValidator::new();
                let n = pairs.len();
                proof {
                    assert(pes.take(0) =~= Seq::<(Seq<char>, Seq<char>)>::empty());
                    assert(c.entries() == fold_entries(pes.take(0)));
                }
                let mut i: usize = 0;
                while i < n
                    invariant
                        n == pairs@.len(),
                        n == pes.len(),
                        0 <= i <= n,
                        c.wf(),
                        c.entries() == fold_entries(pes.take(i as int)),
                        pes == pairs_view(pairs@),
                    decreases n - i
                {
                    assert(pes[i as int] == (pairs@[i as int].0@, pairs@[i as int].1@));
                    let k = pairs[i].0.clone();
                    let v = pairs[i].1.clone();
                    c.insert_raw(k, v);
                    proof {
                        let t1 = pes.take(i + 1);
                        assert(t1.drop_last() =~= pes.take(i as int));
                        assert(t1.last() == pes[i as int]);
                    }
                    i = i + 1;
                }
                proof {
                    assert(pes.take(n as int) =~= pes);
                }
                Ok(c)
            },
        }
    }

    /// Serializes the collector as a JSON object; this cannot fail.
    pub fn to_json_string(&self) -> (r: String)
        ensures
            r@ == json_of(self.entries()),
    {
        let mut out = String::new();
        push_char(&mut out, '{');
        let n = self.len();
        proof {
            assert(self.entries().take(0) =~= Seq::<(Seq<char>, Seq<char>)>::empty());
            assert(out@ =~= seq!['{'] + entries_text(self.entries().take(0)));
        }
        let mut i: usize = 0;
        while i < n
            invariant
                n == self.entries().len(),
                0 <= i <= n,
                out@ == seq!['{'] + entries_text(self.entries().take(i as int)),
            decreases n - i
        {
            let ghost pre = out@;
            let ghost t = self.entries().take(i as int);
            if i > 0 {
                push_char(&mut out, ',');
            }
            append_quoted(&mut out, self.entry_key(i).as_str());
            push_char(&mut out, ':');
            append_quoted(&mut out, self.entry_message(i).as_str());
            proof {
                let e = self.entries()[i as int];
                assert(self.entries().take(i + 1) =~= t.push(e));
                lemma_entries_text_push(t, e);
                if i == 0 {
                    assert(((pre + quoted(e.0)) + seq![':']) + quoted(e.1) =~= seq!['{']
                        + entries_text(self.entries().take(i + 1)));
                } else {
                    assert((((pre + seq![',']) + quoted(e.0)) + seq![':']) + quoted(e.1)
                        =~= seq!['{'] + entries_text(self.entries().take(i + 1)));
                }
            }
            i = i + 1;
        }
        push_char(&mut out, '}');
        proof {
            assert(self.entries().take(n as int) =~= self.entries());
            assert(out@ =~= json_of(self.entries()));
        }
        out
    }
}

} // verus!
