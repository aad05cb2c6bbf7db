//! The persisted document format: one JSON object with a single member,
//! `entries`, holding the array of entries, each an object with the two
//! members `title` and `body`.
//!
//! `encode_doc` is the canonical text that `TodoList::save` produces:
//! no whitespace between tokens, members in title-then-body order, `"`
//! and `\` escaped with a backslash, control characters written as
//! `\u00XX`. The parser accepts every JSON document of this shape:
//! whitespace may stand between tokens, an entry's two members may come
//! in either order, keys may use escapes, and strings may use the short
//! escapes and `\uXXXX` for any code point, surrogate pairs included.
//! Members other than the ones named here are not part of the shape and
//! are rejected.

use vstd::prelude::*;
use vstd::string::StrSliceExecFns;
use vstd::string::StringExecFns;

use crate::model::EntryView;
use crate::model::TodoEntry;

verus! {

// ---------------------------------------------------------------------
// Escaping of a single character and of a whole string.
// ---------------------------------------------------------------------

/// Characters below U+0020 may not stand raw inside a JSON string.
pub open spec fn is_ctl(c: char) -> bool {
    (c as u32) < 0x20
}

/// The lower-case hexadecimal digit for `d`.
pub open spec fn hex_digit(d: int) -> char
    recommends
        0 <= d < 16,
{
    if d < 10 {
        ((48 + d) as u8) as char
    } else {
        ((87 + d) as u8) as char
    }
}

pub open spec fn is_hex(c: char) -> bool {
    ||| 48 <= (c as u32) <= 57
    ||| 97 <= (c as u32) <= 102
    ||| 65 <= (c as u32) <= 70
}

/// The value of a hexadecimal digit character.
pub open spec fn hex_val(c: char) -> int
    recommends
        is_hex(c),
{
    if 48 <= (c as u32) <= 57 {
        (c as u32) - 48
    } else if 97 <= (c as u32) <= 102 {
        (c as u32) - 87
    } else {
        (c as u32) - 55
    }
}

/// Whether four hexadecimal digits stand in `s` at position `i`.
pub open spec fn hex4_at(s: Seq<char>, i: int) -> bool
    recommends
        0 <= i && i + 4 <= s.len(),
{
    is_hex(s[i]) && is_hex(s[i + 1]) && is_hex(s[i + 2]) && is_hex(s[i + 3])
}

/// The value of the four hexadecimal digits at position `i` of `s`.
pub open spec fn hex4_val(s: Seq<char>, i: int) -> int
    recommends
        0 <= i && i + 4 <= s.len(),
        hex4_at(s, i),
{
    hex_val(s[i]) * 4096 + hex_val(s[i + 1]) * 256 + hex_val(s[i + 2]) * 16 + hex_val(s[i + 3])
}

/// How one character stands inside a JSON string literal.
pub open spec fn esc_char(c: char) -> Seq<char> {
    if c == '"' {
        seq!['\\', '"']
    } else if c == '\\' {
        seq!['\\', '\\']
    } else if is_ctl(c) {
        seq!['\\', 'u', '0', '0', hex_digit((c as u32) as int / 16), hex_digit((c as u32) as int % 16)]
    } else {
        seq![c]
    }
}

/// The body of a JSON string literal for the text `s`.
pub open spec fn json_escape_str(s: Seq<char>) -> Seq<char>
    decreases s.len(),
{
    if s.len() == 0 {
        Seq::empty()
    } else {
        esc_char(s[0]) + json_escape_str(s.drop_first())
    }
}

// ---------------------------------------------------------------------
// The fixed tokens of the document.
// ---------------------------------------------------------------------

pub open spec fn doc_open() -> Seq<char> {
    seq!['{', '"', 'e', 'n', 't', 'r', 'i', 'e', 's', '"', ':', '[']
}

pub open spec fn title_open() -> Seq<char> {
    seq!['{', '"', 't', 'i', 't', 'l', 'e', '"', ':', '"']
}

pub open spec fn body_open() -> Seq<char> {
    seq![',', '"', 'b', 'o', 'd', 'y', '"', ':', '"']
}

/// The decoded text of the document's one top-level key.
pub open spec fn entries_key() -> Seq<char> {
    seq!['e', 'n', 't', 'r', 'i', 'e', 's']
}

/// The decoded text of an entry's title key.
pub open spec fn title_key() -> Seq<char> {
    seq!['t', 'i', 't', 'l', 'e']
}

/// The decoded text of an entry's body key.
pub open spec fn body_key() -> Seq<char> {
    seq!['b', 'o', 'd', 'y']
}

/// The whitespace JSON allows between tokens.
pub open spec fn is_ws(c: char) -> bool {
    c == ' ' || c == '\n' || c == '\t' || c == '\r'
}

/// The given text without its leading whitespace.
pub open spec fn skip_ws(s: Seq<char>) -> Seq<char>
    decreases s.len(),
{
    if s.len() > 0 && is_ws(s[0]) {
        skip_ws(s.drop_first())
    } else {
        s
    }
}

// ---------------------------------------------------------------------
// Encoding.
// ---------------------------------------------------------------------

/// One entry as a JSON object.
pub open spec fn encode_entry(e: EntryView) -> Seq<char> {
    title_open() + json_escape_str(e.title) + seq!['"'] + body_open() + json_escape_str(e.body)
        + seq!['"', '}']
}

/// The entries after the first, each preceded by a comma.
pub open spec fn encode_rest(es: Seq<EntryView>) -> Seq<char>
    decreases es.len(),
{
    if es.len() == 0 {
        Seq::empty()
    } else {
        seq![','] + encode_entry(es[0]) + encode_rest(es.drop_first())
    }
}

/// The comma-separated entry array body.
pub open spec fn encode_entries(es: Seq<EntryView>) -> Seq<char> {
    if es.len() == 0 {
        Seq::empty()
    } else {
        encode_entry(es[0]) + encode_rest(es.drop_first())
    }
}

/// The whole persisted document for the entries `es`.
pub open spec fn encode_doc(es: Seq<EntryView>) -> Seq<char> {
    doc_open() + encode_entries(es) + seq![']', '}']
}

// ---------------------------------------------------------------------
// Parsing.
// ---------------------------------------------------------------------

/// The character named by a short escape, if the escape exists.
pub open spec fn esc_code(c: char) -> Option<char> {
    if c == '"' {
        Some('"')
    } else if c == '\\' {
        Some('\\')
    } else if c == '/' {
        Some('/')
    } else if c == 'n' {
        Some('\n')
    } else if c == 't' {
        Some('\t')
    } else if c == 'r' {
        Some('\r')
    } else if c == 'b' {
        Some('\u{8}')
    } else if c == 'f' {
        Some('\u{c}')
    } else {
        None
    }
}

/// Parses a string literal body: `s` stands just after the opening quote,
/// and the result is the decoded text together with what follows the
/// closing quote.
pub open spec fn parse_string_body(s: Seq<char>) -> Option<(Seq<char>, Seq<char>)>
    decreases s.len(),
{
    if s.len() == 0 {
        None
    } else if s[0] == '"' {
        Some((Seq::<char>::empty(), s.drop_first()))
    } else if s[0] == '\\' {
        if s.len() >= 2 && s[1] == 'u' {
            if s.len() >= 6 && hex4_at(s, 2) {
                let v = hex4_val(s, 2);
                if 0xD800 <= v < 0xDC00 {
                    // a high surrogate: only valid right before a low one,
                    // the pair naming one code point past U+FFFF
                    if s.len() >= 12 && s[6] == '\\' && s[7] == 'u' && hex4_at(s, 8) {
                        let w = hex4_val(s, 8);
                        if 0xDC00 <= w < 0xE000 {
                            let cp = 0x10000 + (v - 0xD800) * 0x400 + (w - 0xDC00);
                            match parse_string_body(s.skip(12)) {
                                Some((t, r)) => Some((seq![(cp as u32) as char] + t, r)),
                                None => None,
                            }
                        } else {
                            None
                        }
                    } else {
                        None
                    }
                } else if 0xDC00 <= v < 0xE000 {
                    // a lone low surrogate names no character
                    None
                } else {
                    match parse_string_body(s.skip(6)) {
                        Some((t, r)) => Some((seq![(v as u32) as char] + t, r)),
                        None => None,
                    }
                }
            } else {
                None
            }
        } else if s.len() >= 2 && esc_code(s[1]) is Some {
            match parse_string_body(s.skip(2)) {
                Some((t, r)) => Some((seq![esc_code(s[1])->Some_0] + t, r)),
                None => None,
            }
        } else {
            None
        }
    } else if is_ctl(s[0]) {
        None
    } else {
        match parse_string_body(s.drop_first()) {
            Some((t, r)) => Some((seq![s[0]] + t, r)),
            None => None,
        }
    }
}

/// Parses one object member of the shape `"key" : "value"`, returning
/// the decoded key and value and what follows the value.
pub open spec fn parse_member(s: Seq<char>) -> Option<((Seq<char>, Seq<char>), Seq<char>)> {
    if s.len() >= 1 && s[0] == '"' {
        match parse_string_body(s.drop_first()) {
            Some((key, r1)) => {
                let t2 = skip_ws(r1);
                if t2.len() >= 1 && t2[0] == ':' {
                    let t3 = skip_ws(t2.drop_first());
                    if t3.len() >= 1 && t3[0] == '"' {
                        match parse_string_body(t3.drop_first()) {
                            Some((val, r4)) => Some(((key, val), r4)),
                            None => None,
                        }
                    } else {
                        None
                    }
                } else {
                    None
                }
            },
            None => None,
        }
    } else {
        None
    }
}

/// Parses one entry object: its two members, `title` and `body`, in
/// either order, returning the entry and what follows it.
pub open spec fn parse_entry(s: Seq<char>) -> Option<(EntryView, Seq<char>)> {
    let t = skip_ws(s);
    if t.len() >= 1 && t[0] == '{' {
        let t1 = skip_ws(t.drop_first());
        match parse_member(t1) {
            Some(((k1, v1), r1)) => {
                let t2 = skip_ws(r1);
                if t2.len() >= 1 && t2[0] == ',' {
                    let t3 = skip_ws(t2.drop_first());
                    match parse_member(t3) {
                        Some(((k2, v2), r2)) => {
                            let t4 = skip_ws(r2);
                            if t4.len() >= 1 && t4[0] == '}' {
                                if k1 == title_key() && k2 == body_key() {
                                    Some((EntryView { title: v1, body: v2 }, t4.drop_first()))
                                } else if k1 == body_key() && k2 == title_key() {
                                    Some((EntryView { title: v2, body: v1 }, t4.drop_first()))
                                } else {
                                    None
                                }
                            } else {
                                None
                            }
                        },
                        None => None,
                    }
                } else {
                    None
                }
            },
            None => None,
        }
    } else {
        None
    }
}

/// Parses one or more comma-separated entries followed by the closing
/// bracket, consuming that bracket.
pub open spec fn parse_entries(s: Seq<char>) -> Option<(Seq<EntryView>, Seq<char>)>
    decreases s.len(),
    via parse_entries_decreases
{
    match parse_entry(s) {
        Some((e, r)) => {
            let t = skip_ws(r);
            if t.len() >= 1 && t[0] == ']' {
                Some((seq![e], t.drop_first()))
            } else if t.len() >= 1 && t[0] == ',' {
                match parse_entries(t.drop_first()) {
                    Some((es, r2)) => Some((seq![e] + es, r2)),
                    None => None,
                }
            } else {
                None
            }
        },
        None => None,
    }
}

#[via_fn]
proof fn parse_entries_decreases(s: Seq<char>) {
    lemma_parse_entry_len(s);
    if parse_entry(s) is Some {
        lemma_skip_ws_len(parse_entry(s)->Some_0.1);
    }
}

/// What remains of the document after the entry array: the closing
/// brace and nothing but whitespace around it.
pub open spec fn doc_end(es: Seq<EntryView>, r: Seq<char>) -> Option<Seq<EntryView>> {
    let t = skip_ws(r);
    if t.len() >= 1 && t[0] == '}' {
        if skip_ws(t.drop_first()).len() == 0 {
            Some(es)
        } else {
            None
        }
    } else {
        None
    }
}

/// Parses the whole persisted document.
pub open spec fn parse_doc(s: Seq<char>) -> Option<Seq<EntryView>> {
    let t0 = skip_ws(s);
    if t0.len() >= 1 && t0[0] == '{' {
        let t1 = skip_ws(t0.drop_first());
        if t1.len() >= 1 && t1[0] == '"' {
            match parse_string_body(t1.drop_first()) {
                Some((key, r1)) => if key == entries_key() {
                    let t2 = skip_ws(r1);
                    if t2.len() >= 1 && t2[0] == ':' {
                        let t3 = skip_ws(t2.drop_first());
                        if t3.len() >= 1 && t3[0] == '[' {
                            let t4 = skip_ws(t3.drop_first());
                            if t4.len() >= 1 && t4[0] == ']' {
                                doc_end(Seq::<EntryView>::empty(), t4.drop_first())
                            } else {
                                match parse_entries(t4) {
                                    Some((es, r)) => doc_end(es, r),
                                    None => None,
                                }
                            }
                        } else {
                            None
                        }
                    } else {
                        None
                    }
                } else {
                    None
                },
                None => None,
            }
        } else {
            None
        }
    } else {
        None
    }
}

// ---------------------------------------------------------------------
// What a successful parse consumes.
// ---------------------------------------------------------------------

proof fn lemma_skip_ws_len(s: Seq<char>)
    ensures
        skip_ws(s).len() <= s.len(),
    decreases s.len(),
{
    if s.len() > 0 && is_ws(s[0]) {
        lemma_skip_ws_len(s.drop_first());
    }
}

proof fn lemma_parse_string_body_len(s: Seq<char>)
    ensures
        parse_string_body(s) matches Some((t, r)) ==> r.len() < s.len(),
    decreases s.len(),
{
    if s.len() >= 12 {
        lemma_parse_string_body_len(s.skip(12));
    }
    if s.len() >= 6 {
        lemma_parse_string_body_len(s.skip(6));
    }
    if s.len() >= 2 {
        lemma_parse_string_body_len(s.skip(2));
    }
    if s.len() >= 1 {
        lemma_parse_string_body_len(s.drop_first());
    }
}

proof fn lemma_parse_member_len(s: Seq<char>)
    ensures
        parse_member(s) matches Some((kv, r)) ==> r.len() < s.len(),
{
    if s.len() >= 1 && s[0] == '"' {
        lemma_parse_string_body_len(s.drop_first());
        if parse_string_body(s.drop_first()) is Some {
            let r1 = parse_string_body(s.drop_first())->Some_0.1;
            lemma_skip_ws_len(r1);
            let t2 = skip_ws(r1);
            if t2.len() >= 1 && t2[0] == ':' {
                lemma_skip_ws_len(t2.drop_first());
                let t3 = skip_ws(t2.drop_first());
                if t3.len() >= 1 && t3[0] == '"' {
                    lemma_parse_string_body_len(t3.drop_first());
                }
            }
        }
    }
}

proof fn lemma_parse_entry_len(s: Seq<char>)
    ensures
        parse_entry(s) matches Some((e, r)) ==> r.len() < s.len(),
{
    lemma_skip_ws_len(s);
    let t = skip_ws(s);
    if t.len() >= 1 && t[0] == '{' {
        lemma_skip_ws_len(t.drop_first());
        let t1 = skip_ws(t.drop_first());
        lemma_parse_member_len(t1);
        if parse_member(t1) is Some {
            let r1 = parse_member(t1)->Some_0.1;
            lemma_skip_ws_len(r1);
            let t2 = skip_ws(r1);
            if t2.len() >= 1 && t2[0] == ',' {
                lemma_skip_ws_len(t2.drop_first());
                let t3 = skip_ws(t2.drop_first());
                lemma_parse_member_len(t3);
                if parse_member(t3) is Some {
                    let r2 = parse_member(t3)->Some_0.1;
                    lemma_skip_ws_len(r2);
                }
            }
        }
    }
}

// ---------------------------------------------------------------------
// The round trip: parsing recovers exactly what encoding wrote.
// ---------------------------------------------------------------------

proof fn lemma_hex_digit_round_trip(d: int)
    requires
        0 <= d < 16,
    ensures
        is_hex(hex_digit(d)),
        hex_val(hex_digit(d)) == d,
{
}

proof fn lemma_string_round_trip(t: Seq<char>, rest: Seq<char>)
    ensures
        parse_string_body(json_escape_str(t) + seq!['"'] + rest) == Some((t, rest)),
    decreases t.len(),
{
    let s = json_escape_str(t) + seq!['"'] + rest;
    if t.len() == 0 {
        assert(s =~= seq!['"'] + rest);
        assert(s[0] == '"');
        assert(s.drop_first() =~= rest);
    } else {
        let c = t[0];
        let t2 = t.drop_first();
        let tail = json_escape_str(t2) + seq!['"'] + rest;
        lemma_string_round_trip(t2, rest);
        assert(json_escape_str(t) == esc_char(c) + json_escape_str(t2));
        assert(seq![c] + t2 =~= t);
        if c == '"' {
            assert(s =~= seq!['\\', '"'] + tail);
            assert(s.skip(2) =~= tail);
            assert(esc_code(s[1]) == Some('"'));
        } else if c == '\\' {
            assert(s =~= seq!['\\', '\\'] + tail);
            assert(s.skip(2) =~= tail);
            assert(esc_code(s[1]) == Some('\\'));
        } else if is_ctl(c) {
            let v = (c as u32) as int;
            let hi = v / 16;
            let lo = v % 16;
            vstd::arithmetic::div_mod::lemma_fundamental_div_mod(v, 16);
            lemma_hex_digit_round_trip(hi);
            lemma_hex_digit_round_trip(lo);
            assert(s =~= seq!['\\', 'u', '0', '0', hex_digit(hi), hex_digit(lo)] + tail);
            assert(s.skip(6) =~= tail);
            assert(s[1] == 'u');
            assert(is_hex('0') && hex_val('0') == 0);
            assert(hex4_at(s, 2));
            assert(hex4_val(s, 2) == v);
            assert(((v as u32) as char) == c) by {
                vstd::utf8::char_u32_cast(c, c as u32);
            }
        } else {
            assert(s[0] == c);
            assert(s.drop_first() =~= tail);
        }
    }
}

proof fn lemma_skip_ws_id(s: Seq<char>)
    requires
        s.len() == 0 || !is_ws(s[0]),
    ensures
        skip_ws(s) == s,
{
}

/// A string of ordinary characters needs no escaping, and parses back
/// to itself.
proof fn lemma_plain_string_parse(t: Seq<char>, rest: Seq<char>)
    requires
        forall|i: int|
            0 <= i < t.len() ==> t[i] != '"' && t[i] != '\\' && !is_ctl(#[trigger] t[i]),
    ensures
        parse_string_body(t + seq!['"'] + rest) == Some((t, rest)),
    decreases t.len(),
{
    let s = t + seq!['"'] + rest;
    if t.len() == 0 {
        assert(s =~= seq!['"'] + rest);
        assert(s[0] == '"');
        assert(s.drop_first() =~= rest);
    } else {
        let t2 = t.drop_first();
        lemma_plain_string_parse(t2, rest);
        assert(s[0] == t[0]);
        assert(s.drop_first() =~= t2 + seq!['"'] + rest);
        assert(seq![t[0]] + t2 =~= t);
    }
}

/// Parsing a member written canonically yields its key and value.
proof fn lemma_member_round_trip(key: Seq<char>, val: Seq<char>, rest: Seq<char>)
    requires
        forall|i: int|
            0 <= i < key.len() ==> key[i] != '"' && key[i] != '\\' && !is_ctl(#[trigger] key[i]),
    ensures
        parse_member(
            seq!['"'] + key + seq!['"', ':', '"'] + json_escape_str(val) + seq!['"'] + rest,
        ) == Some(((key, val), rest)),
{
    let s = seq!['"'] + key + seq!['"', ':', '"'] + json_escape_str(val) + seq!['"'] + rest;
    let x = seq![':', '"'] + json_escape_str(val) + seq!['"'] + rest;
    assert(s[0] == '"');
    assert(s.drop_first() =~= key + seq!['"'] + x);
    lemma_plain_string_parse(key, x);
    assert(x[0] == ':');
    lemma_skip_ws_id(x);
    assert(x.drop_first() =~= seq!['"'] + (json_escape_str(val) + seq!['"'] + rest));
    lemma_skip_ws_id(x.drop_first());
    assert(x.drop_first()[0] == '"');
    assert(x.drop_first().drop_first() =~= json_escape_str(val) + seq!['"'] + rest);
    lemma_string_round_trip(val, rest);
}

#[verifier::rlimit(50)]
proof fn lemma_entry_round_trip(e: EntryView, rest: Seq<char>)
    ensures
        parse_entry(encode_entry(e) + rest) == Some((e, rest)),
{
    let s = encode_entry(e) + rest;
    let rest2 = seq!['}'] + rest;
    let rest1 = body_open() + json_escape_str(e.body) + seq!['"', '}'] + rest;
    assert(forall|i: int|
        0 <= i < title_key().len() ==> title_key()[i] != '"' && title_key()[i] != '\\' && !is_ctl(
            #[trigger] title_key()[i],
        ));
    assert(forall|i: int|
        0 <= i < body_key().len() ==> body_key()[i] != '"' && body_key()[i] != '\\' && !is_ctl(
            #[trigger] body_key()[i],
        ));
    assert(s.len() >= 1 && s[0] == '{');
    lemma_skip_ws_id(s);
    assert(s.drop_first() =~= seq!['"'] + title_key() + seq!['"', ':', '"'] + json_escape_str(
        e.title,
    ) + seq!['"'] + rest1);
    lemma_skip_ws_id(s.drop_first());
    lemma_member_round_trip(title_key(), e.title, rest1);
    assert(rest1[0] == ',');
    lemma_skip_ws_id(rest1);
    assert(rest1.drop_first() =~= seq!['"'] + body_key() + seq!['"', ':', '"'] + json_escape_str(
        e.body,
    ) + seq!['"'] + rest2);
    lemma_skip_ws_id(rest1.drop_first());
    lemma_member_round_trip(body_key(), e.body, rest2);
    assert(rest2[0] == '}');
    lemma_skip_ws_id(rest2);
    assert(rest2.drop_first() =~= rest);
    assert(EntryView { title: e.title, body: e.body } == e);
}

#[verifier::rlimit(50)]
proof fn lemma_entries_round_trip(es: Seq<EntryView>, rest: Seq<char>)
    requires
        es.len() > 0,
    ensures
        parse_entries(encode_entries(es) + seq![']'] + rest) == Some((es, rest)),
    decreases es.len(),
{
    let s = encode_entries(es) + seq![']'] + rest;
    let e0 = es[0];
    if es.len() == 1 {
        assert(encode_rest(es.drop_first()) =~= Seq::<char>::empty());
        assert(s =~= encode_entry(e0) + (seq![']'] + rest));
        lemma_entry_round_trip(e0, seq![']'] + rest);
        let r = seq![']'] + rest;
        assert(r[0] == ']');
        lemma_skip_ws_id(r);
        assert(r.drop_first() =~= rest);
        assert(seq![e0] =~= es);
    } else {
        let tail = es.drop_first();
        assert(encode_rest(tail) == seq![','] + encode_entry(tail[0]) + encode_rest(
            tail.drop_first(),
        ));
        assert(encode_rest(tail) =~= seq![','] + encode_entries(tail));
        let r = seq![','] + encode_entries(tail) + seq![']'] + rest;
        assert(s =~= encode_entry(e0) + r);
        lemma_entry_round_trip(e0, r);
        assert(r[0] == ',');
        lemma_skip_ws_id(r);
        assert(r.drop_first() =~= encode_entries(tail) + seq![']'] + rest);
        lemma_entries_round_trip(tail, rest);
        assert(seq![e0] + tail =~= es);
    }
}

/// The round trip of persistence: parsing the canonical document written
/// for any sequence of entries yields exactly that sequence back.
#[verifier::rlimit(50)]
pub proof fn lemma_doc_round_trip(es: Seq<EntryView>)
    ensures
        parse_doc(encode_doc(es)) == Some(es),
{
    let s = encode_doc(es);
    let x = seq![':', '['] + encode_entries(es) + seq![']', '}'];
    let y = encode_entries(es) + seq![']'] + seq!['}'];
    assert(forall|i: int|
        0 <= i < entries_key().len() ==> entries_key()[i] != '"' && entries_key()[i] != '\\'
            && !is_ctl(#[trigger] entries_key()[i]));
    assert(s[0] == '{');
    lemma_skip_ws_id(s);
    assert(s.drop_first() =~= seq!['"'] + (entries_key() + seq!['"'] + x));
    lemma_skip_ws_id(s.drop_first());
    assert(s.drop_first()[0] == '"');
    assert(s.drop_first().drop_first() =~= entries_key() + seq!['"'] + x);
    lemma_plain_string_parse(entries_key(), x);
    assert(x[0] == ':');
    lemma_skip_ws_id(x);
    assert(x.drop_first() =~= seq!['['] + y);
    lemma_skip_ws_id(x.drop_first());
    assert(x.drop_first()[0] == '[');
    assert(x.drop_first().drop_first() =~= y);
    lemma_skip_ws_id(y);
    if es.len() == 0 {
        assert(y =~= seq![']'] + seq!['}']);
        assert(y[0] == ']');
        assert(y.drop_first() =~= seq!['}']);
        lemma_skip_ws_id(seq!['}']);
        assert(seq!['}'].drop_first() =~= Seq::<char>::empty());
        lemma_skip_ws_id(Seq::<char>::empty());
        assert(Seq::<EntryView>::empty() =~= es);
    } else {
        assert(encode_entry(es[0])[0] == '{');
        assert(y[0] == '{');
        lemma_entries_round_trip(es, seq!['}']);
        lemma_skip_ws_id(seq!['}']);
        assert(seq!['}'].drop_first() =~= Seq::<char>::empty());
        lemma_skip_ws_id(Seq::<char>::empty());
    }
}

// ---------------------------------------------------------------------
// The executable encoder.
// ---------------------------------------------------------------------

/// Relies on String::push: appends the character to the end of the string.
#[verifier::external_body]
fn push_char(s: &mut String, c: char)
    ensures
        final(s)@ == old(s)@ + seq![c],
{
    s.push(c);
}

fn hex_digit_x(d: u32) -> (r: char)
    requires
        d < 16,
    ensures
        r == hex_digit(d as int),
{
    let b: u8 = if d < 10 {
        48 + (d as u8)
    } else {
        87 + (d as u8)
    };
    b as char
}

proof fn lemma_escape_concat(a: Seq<char>, b: Seq<char>)
    ensures
        json_escape_str(a + b) == json_escape_str(a) + json_escape_str(b),
    decreases a.len(),
{
    if a.len() == 0 {
        assert(a + b =~= b);
        assert(json_escape_str(a) + json_escape_str(b) =~= json_escape_str(b));
    } else {
        assert((a + b).drop_first() =~= a.drop_first() + b);
        assert((a + b)[0] == a[0]);
        lemma_escape_concat(a.drop_first(), b);
        assert(json_escape_str(a + b) =~= json_escape_str(a) + json_escape_str(b));
    }
}

/// Appends the escaped body of a JSON string literal for `s` to `out`.
fn escape_into(out: &mut String, s: &str)
    ensures
        final(out)@ == old(out)@ + json_escape_str(s@),
{
    let n = s.unicode_len();
    let mut i: usize = 0;
    while i < n
        invariant
            n == s@.len(),
            i <= n,
            out@ == old(out)@ + json_escape_str(s@.take(i as int)),
        decreases n - i,
    {
        let c = s.get_char(i);
        let ghost out0 = out@;
        if c == '"' {
            push_char(out, '\\');
            push_char(out, '"');
        } else if c == '\\' {
            push_char(out, '\\');
            push_char(out, '\\');
        } else if (c as u32) < 0x20 {
            push_char(out, '\\');
            push_char(out, 'u');
            push_char(out, '0');
            push_char(out, '0');
            push_char(out, hex_digit_x((c as u32) / 16));
            push_char(out, hex_digit_x((c as u32) % 16));
        } else {
            push_char(out, c);
        }
        proof {
            assert(out@ =~= out0 + esc_char(c));
            assert(s@.take(i as int + 1) =~= s@.take(i as int) + seq![c]);
            lemma_escape_concat(s@.take(i as int), seq![c]);
            assert(seq![c][0] == c);
            assert(seq![c].drop_first() =~= Seq::<char>::empty());
            assert(json_escape_str(seq![c]) == esc_char(c) + json_escape_str(
                seq![c].drop_first(),
            ));
            assert(json_escape_str(seq![c]) =~= esc_char(c));
            assert(out@ =~= old(out)@ + json_escape_str(s@.take(i as int + 1)));
        }
        i += 1;
    }
    proof {
        assert(s@.take(n as int) =~= s@);
    }
}

/// Appends one entry as a JSON object to `out`.
fn encode_entry_into(out: &mut String, e: &TodoEntry)
    ensures
        final(out)@ == old(out)@ + encode_entry(e@),
{
    out.append("{\"title\":\"");
    proof {
        reveal_strlit("{\"title\":\"");
        assert("{\"title\":\""@ =~= title_open());
    }
    escape_into(out, e.title.as_str());
    out.append("\",\"body\":\"");
    proof {
        reveal_strlit("\",\"body\":\"");
        assert("\",\"body\":\""@ =~= seq!['"'] + body_open());
    }
    escape_into(out, e.body.as_str());
    out.append("\"}");
    proof {
        reveal_strlit("\"}");
        assert("\"}"@ =~= seq!['"', '}']);
        assert(out@ =~= old(out)@ + encode_entry(e@));
    }
}

proof fn lemma_encode_rest_snoc(es: Seq<EntryView>, e: EntryView)
    ensures
        encode_rest(es.push(e)) == encode_rest(es) + seq![','] + encode_entry(e),
    decreases es.len(),
{
    if es.len() == 0 {
        assert(es.push(e)[0] == e);
        assert(es.push(e).drop_first() =~= Seq::<EntryView>::empty());
        assert(encode_rest(es) == Seq::<char>::empty());
        assert(encode_rest(Seq::<EntryView>::empty()) == Seq::<char>::empty());
        assert(encode_rest(es.push(e)) == seq![','] + encode_entry(es.push(e)[0]) + encode_rest(
            es.push(e).drop_first(),
        ));
        assert(encode_rest(es.push(e)) =~= encode_rest(es) + seq![','] + encode_entry(e));
    } else {
        assert(es.push(e)[0] == es[0]);
        assert(es.push(e).drop_first() =~= es.drop_first().push(e));
        lemma_encode_rest_snoc(es.drop_first(), e);
        assert(encode_rest(es.push(e)) =~= encode_rest(es) + seq![','] + encode_entry(e));
    }
}

proof fn lemma_encode_entries_snoc(es: Seq<EntryView>, e: EntryView)
    ensures
        es.len() == 0 ==> encode_entries(es.push(e)) == encode_entry(e),
        es.len() > 0 ==> encode_entries(es.push(e)) == encode_entries(es) + seq![',']
            + encode_entry(e),
{
    if es.len() == 0 {
        assert(es.push(e).drop_first() =~= Seq::<EntryView>::empty());
        assert(encode_entries(es.push(e)) =~= encode_entry(e));
    } else {
        assert(es.push(e)[0] == es[0]);
        assert(es.push(e).drop_first() =~= es.drop_first().push(e));
        lemma_encode_rest_snoc(es.drop_first(), e);
        assert(encode_entries(es.push(e)) =~= encode_entries(es) + seq![','] + encode_entry(e));
    }
}

/// The canonical document text for the given entries.
pub fn encode_doc_str(entries: &Vec<TodoEntry>) -> (r: String)
    ensures
        r@ == encode_doc(entries.deep_view()),
{
    let ghost dv = entries.deep_view();
    let mut out = String::new();
    out.append("{\"entries\":[");
    proof {
        reveal_strlit("{\"entries\":[");
        assert("{\"entries\":["@ =~= doc_open());
        assert(dv.take(0) =~= Seq::<EntryView>::empty());
        assert(out@ =~= doc_open() + encode_entries(dv.take(0)));
    }
    let n = entries.len();
    let mut i: usize = 0;
    while i < n
        invariant
            n == entries@.len(),
            dv == entries.deep_view(),
            dv.len() == n,
            i <= n,
            out@ == doc_open() + encode_entries(dv.take(i as int)),
        decreases n - i,
    {
        if i > 0 {
            out.append(",");
            proof {
                reveal_strlit(",");
                assert(","@ =~= seq![',']);
            }
        }
        encode_entry_into(&mut out, &entries[i]);
        proof {
            assert(entries@[i as int]@ == dv[i as int]);
            assert(dv.take(i as int + 1) =~= dv.take(i as int).push(dv[i as int]));
            lemma_encode_entries_snoc(dv.take(i as int), dv[i as int]);
            assert(out@ =~= doc_open() + encode_entries(dv.take(i as int + 1)));
        }
        i += 1;
    }
    out.append("]}");
    proof {
        reveal_strlit("]}");
        assert("]}"@ =~= seq![']', '}']);
        assert(dv.take(n as int) =~= dv);
        assert(out@ =~= encode_doc(dv));
    }
    out
}

// ---------------------------------------------------------------------
// The executable parser.
// ---------------------------------------------------------------------

spec fn prepend_parse(p: Seq<char>, o: Option<(Seq<char>, Seq<char>)>) -> Option<
    (Seq<char>, Seq<char>),
> {
    match o {
        Some((t, r)) => Some((p + t, r)),
        None => None,
    }
}

proof fn lemma_prepend_parse_assoc(a: Seq<char>, b: Seq<char>, o: Option<(Seq<char>, Seq<char>)>)
    ensures
        prepend_parse(a, prepend_parse(b, o)) == prepend_parse(a + b, o),
{
    if o is Some {
        assert(a + (b + o->Some_0.0) =~= (a + b) + o->Some_0.0);
    }
}

/// Relies on char::from_u32: a character comes back exactly for
/// Unicode scalar values, and it casts back to the given value.
#[verifier::external_body]
fn char_from_u32(v: u32) -> (r: Option<char>)
    ensures
        r is Some <==> vstd::utf8::is_scalar(v),
        r matches Some(c) ==> c as u32 == v,
{
    char::from_u32(v)
}

fn hex_val_x(c: char) -> (r: Option<u32>)
    ensures
        match r {
            Some(v) => is_hex(c) && v as int == hex_val(c) && v < 16,
            None => !is_hex(c),
        },
{
    let u = c as u32;
    if 48 <= u && u <= 57 {
        Some(u - 48)
    } else if 97 <= u && u <= 102 {
        Some(u - 87)
    } else if 65 <= u && u <= 70 {
        Some(u - 55)
    } else {
        None
    }
}

/// Reads four hexadecimal digits at position `i`, giving their value.
fn hex4_at_x(s: &str, i: usize) -> (r: Option<u32>)
    requires
        i + 4 <= s@.len(),
    ensures
        match r {
            Some(v) => hex4_at(s@, i as int) && v as int == hex4_val(s@, i as int) && v < 0x10000,
            None => !hex4_at(s@, i as int),
        },
{
    let n = s.unicode_len();
    let h0 = match hex_val_x(s.get_char(i)) {
        Some(v) => v,
        None => {
            return None;
        },
    };
    let h1 = match hex_val_x(s.get_char(i + 1)) {
        Some(v) => v,
        None => {
            return None;
        },
    };
    let h2 = match hex_val_x(s.get_char(i + 2)) {
        Some(v) => v,
        None => {
            return None;
        },
    };
    let h3 = match hex_val_x(s.get_char(i + 3)) {
        Some(v) => v,
        None => {
            return None;
        },
    };
    Some(h0 * 4096 + h1 * 256 + h2 * 16 + h3)
}

/// The first position at or after `i` holding something other than
/// whitespace.
fn skip_ws_at(s: &str, i: usize) -> (j: usize)
    requires
        i <= s@.len(),
    ensures
        i <= j <= s@.len(),
        skip_ws(s@.skip(i as int)) == s@.skip(j as int),
{
    let n = s.unicode_len();
    let mut k = i;
    loop
        invariant
            n == s@.len(),
            i <= k <= n,
            skip_ws(s@.skip(i as int)) == skip_ws(s@.skip(k as int)),
        decreases n - k,
    {
        if k >= n {
            proof {
                assert(s@.skip(k as int).len() == 0);
            }
            return k;
        }
        let c = s.get_char(k);
        proof {
            assert(s@.skip(k as int)[0] == s@[k as int]);
        }
        if !(c == ' ' || c == '\n' || c == '\t' || c == '\r') {
            return k;
        }
        proof {
            assert(s@.skip(k as int).drop_first() =~= s@.skip(k as int + 1));
        }
        k += 1;
    }
}

/// Parses a string literal body starting at `i`, which stands just after
/// the opening quote; returns the decoded text and the position just
/// after the closing quote.
fn parse_string_at(s: &str, i: usize) -> (r: Option<(String, usize)>)
    requires
        i <= s@.len(),
    ensures
        match r {
            Some((t, j)) => i < j <= s@.len() && parse_string_body(s@.skip(i as int)) == Some(
                (t@, s@.skip(j as int)),
            ),
            None => parse_string_body(s@.skip(i as int)) is None,
        },
{
    let n = s.unicode_len();
    let mut acc = String::new();
    let mut k = i;
    loop
        invariant
            n == s@.len(),
            i <= k <= n,
            parse_string_body(s@.skip(i as int)) == prepend_parse(
                acc@,
                parse_string_body(s@.skip(k as int)),
            ),
        decreases n - k,
    {
        if n - k == 0 {
            return None;
        }
        let c = s.get_char(k);
        proof {
            assert(s@.skip(k as int)[0] == s@[k as int]);
        }
        if c == '"' {
            proof {
                assert(s@.skip(k as int).drop_first() =~= s@.skip(k as int + 1));
                assert(acc@ + Seq::<char>::empty() =~= acc@);
            }
            return Some((acc, k + 1));
        } else if c == '\\' {
            if n - k < 2 {
                return None;
            }
            let c2 = s.get_char(k + 1);
            proof {
                assert(s@.skip(k as int)[1] == s@[k as int + 1]);
            }
            if c2 == 'u' {
                if n - k < 6 {
                    return None;
                }
                proof {
                    assert(s@.skip(k as int)[2] == s@[k as int + 2]);
                    assert(s@.skip(k as int)[3] == s@[k as int + 3]);
                    assert(s@.skip(k as int)[4] == s@[k as int + 4]);
                    assert(s@.skip(k as int)[5] == s@[k as int + 5]);
                }
                let v = match hex4_at_x(s, k + 2) {
                    Some(v) => v,
                    None => {
                        proof {
                            assert(!hex4_at(s@.skip(k as int), 2));
                        }
                        return None;
                    },
                };
                proof {
                    assert(hex4_at(s@.skip(k as int), 2));
                    assert(hex4_val(s@.skip(k as int), 2) == v as int);
                }
                if 0xD800 <= v && v < 0xDC00 {
                    if n - k < 12 {
                        return None;
                    }
                    proof {
                        assert(s@.skip(k as int)[6] == s@[k as int + 6]);
                        assert(s@.skip(k as int)[7] == s@[k as int + 7]);
                        assert(s@.skip(k as int)[8] == s@[k as int + 8]);
                        assert(s@.skip(k as int)[9] == s@[k as int + 9]);
                        assert(s@.skip(k as int)[10] == s@[k as int + 10]);
                        assert(s@.skip(k as int)[11] == s@[k as int + 11]);
                    }
                    if s.get_char(k + 6) != '\\' || s.get_char(k + 7) != 'u' {
                        return None;
                    }
                    let w = match hex4_at_x(s, k + 8) {
                        Some(w) => w,
                        None => {
                            proof {
                                assert(!hex4_at(s@.skip(k as int), 8));
                            }
                            return None;
                        },
                    };
                    proof {
                        assert(hex4_at(s@.skip(k as int), 8));
                        assert(hex4_val(s@.skip(k as int), 8) == w as int);
                    }
                    if !(0xDC00 <= w && w < 0xE000) {
                        return None;
                    }
                    let cp = 0x10000 + (v - 0xD800) * 0x400 + (w - 0xDC00);
                    let c3 = match char_from_u32(cp) {
                        Some(c) => c,
                        None => {
                            proof {
                                assert(false);
                            }
                            '0'
                        },
                    };
                    proof {
                        vstd::utf8::char_u32_cast(c3, cp);
                        let o = parse_string_body(s@.skip(k as int + 12));
                        assert(s@.skip(k as int).skip(12) =~= s@.skip(k as int + 12));
                        assert(parse_string_body(s@.skip(k as int)) == prepend_parse(
                            seq![c3],
                            o,
                        ));
                        lemma_prepend_parse_assoc(acc@, seq![c3], o);
                    }
                    push_char(&mut acc, c3);
                    k = k + 12;
                } else if 0xDC00 <= v && v < 0xE000 {
                    return None;
                } else {
                    let c3 = match char_from_u32(v) {
                        Some(c) => c,
                        None => {
                            proof {
                                assert(false);
                            }
                            '0'
                        },
                    };
                    proof {
                        vstd::utf8::char_u32_cast(c3, v);
                        let o = parse_string_body(s@.skip(k as int + 6));
                        assert(s@.skip(k as int).skip(6) =~= s@.skip(k as int + 6));
                        assert(parse_string_body(s@.skip(k as int)) == prepend_parse(
                            seq![c3],
                            o,
                        ));
                        lemma_prepend_parse_assoc(acc@, seq![c3], o);
                    }
                    push_char(&mut acc, c3);
                    k = k + 6;
                }
            } else {
                let c3 = if c2 == '"' {
                    '"'
                } else if c2 == '\\' {
                    '\\'
                } else if c2 == '/' {
                    '/'
                } else if c2 == 'n' {
                    '\n'
                } else if c2 == 't' {
                    '\t'
                } else if c2 == 'r' {
                    '\r'
                } else if c2 == 'b' {
                    '\u{8}'
                } else if c2 == 'f' {
                    '\u{c}'
                } else {
                    return None;
                };
                proof {
                    let o = parse_string_body(s@.skip(k as int + 2));
                    assert(s@.skip(k as int).skip(2) =~= s@.skip(k as int + 2));
                    assert(esc_code(c2) == Some(c3));
                    assert(parse_string_body(s@.skip(k as int)) == prepend_parse(seq![c3], o));
                    lemma_prepend_parse_assoc(acc@, seq![c3], o);
                }
                push_char(&mut acc, c3);
                k = k + 2;
            }
        } else if (c as u32) < 0x20 {
            return None;
        } else {
            proof {
                let o = parse_string_body(s@.skip(k as int + 1));
                assert(s@.skip(k as int).drop_first() =~= s@.skip(k as int + 1));
                assert(parse_string_body(s@.skip(k as int)) == prepend_parse(seq![c], o));
                lemma_prepend_parse_assoc(acc@, seq![c], o);
            }
            push_char(&mut acc, c);
            k = k + 1;
        }
    }
}

/// Parses one object member starting at `i`: a key, a colon, and a
/// string value; returns the decoded key and value and the position
/// just after the value.
fn parse_member_at(s: &str, i: usize) -> (r: Option<(String, String, usize)>)
    requires
        i <= s@.len(),
    ensures
        match r {
            Some((key, val, j)) => i < j <= s@.len() && parse_member(s@.skip(i as int)) == Some(
                ((key@, val@), s@.skip(j as int)),
            ),
            None => parse_member(s@.skip(i as int)) is None,
        },
{
    let n = s.unicode_len();
    if n - i == 0 {
        return None;
    }
    let c = s.get_char(i);
    proof {
        assert(s@.skip(i as int)[0] == s@[i as int]);
    }
    if c != '"' {
        return None;
    }
    proof {
        assert(s@.skip(i as int).drop_first() =~= s@.skip(i as int + 1));
    }
    let (key, j1) = match parse_string_at(s, i + 1) {
        Some(p) => p,
        None => {
            return None;
        },
    };
    let j2 = skip_ws_at(s, j1);
    if n - j2 == 0 {
        return None;
    }
    let c2 = s.get_char(j2);
    proof {
        assert(s@.skip(j2 as int)[0] == s@[j2 as int]);
    }
    if c2 != ':' {
        return None;
    }
    proof {
        assert(s@.skip(j2 as int).drop_first() =~= s@.skip(j2 as int + 1));
    }
    let j3 = skip_ws_at(s, j2 + 1);
    if n - j3 == 0 {
        return None;
    }
    let c3 = s.get_char(j3);
    proof {
        assert(s@.skip(j3 as int)[0] == s@[j3 as int]);
    }
    if c3 != '"' {
        return None;
    }
    proof {
        assert(s@.skip(j3 as int).drop_first() =~= s@.skip(j3 as int + 1));
    }
    let (val, j4) = match parse_string_at(s, j3 + 1) {
        Some(p) => p,
        None => {
            return None;
        },
    };
    Some((key, val, j4))
}

/// Parses one entry object starting at `i`; returns the entry and the
/// position just after its closing brace.
fn parse_entry_at(s: &str, i: usize) -> (r: Option<(TodoEntry, usize)>)
    requires
        i <= s@.len(),
    ensures
        match r {
            Some((e, j)) => i < j <= s@.len() && parse_entry(s@.skip(i as int)) == Some(
                (e@, s@.skip(j as int)),
            ),
            None => parse_entry(s@.skip(i as int)) is None,
        },
{
    let n = s.unicode_len();
    let i0 = skip_ws_at(s, i);
    if n - i0 == 0 {
        return None;
    }
    let c = s.get_char(i0);
    proof {
        assert(s@.skip(i0 as int)[0] == s@[i0 as int]);
    }
    if c != '{' {
        return None;
    }
    proof {
        assert(s@.skip(i0 as int).drop_first() =~= s@.skip(i0 as int + 1));
    }
    let i1 = skip_ws_at(s, i0 + 1);
    let (k1, v1, j1) = match parse_member_at(s, i1) {
        Some(p) => p,
        None => {
            return None;
        },
    };
    let j2 = skip_ws_at(s, j1);
    if n - j2 == 0 {
        return None;
    }
    let c2 = s.get_char(j2);
    proof {
        assert(s@.skip(j2 as int)[0] == s@[j2 as int]);
    }
    if c2 != ',' {
        return None;
    }
    proof {
        assert(s@.skip(j2 as int).drop_first() =~= s@.skip(j2 as int + 1));
    }
    let j3 = skip_ws_at(s, j2 + 1);
    let (k2, v2, j4) = match parse_member_at(s, j3) {
        Some(p) => p,
        None => {
            return None;
        },
    };
    let j5 = skip_ws_at(s, j4);
    if n - j5 == 0 {
        return None;
    }
    let c3 = s.get_char(j5);
    proof {
        assert(s@.skip(j5 as int)[0] == s@[j5 as int]);
    }
    if c3 != '}' {
        return None;
    }
    proof {
        assert(s@.skip(j5 as int).drop_first() =~= s@.skip(j5 as int + 1));
    }
    let title_lit = String::from_str("title");
    let body_lit = String::from_str("body");
    proof {
        reveal_strlit("title");
        reveal_strlit("body");
        assert("title"@ =~= title_key());
        assert("body"@ =~= body_key());
    }
    if k1 == title_lit && k2 == body_lit {
        return Some((TodoEntry { title: v1, body: v2 }, j5 + 1));
    }
    if k1 == body_lit && k2 == title_lit {
        return Some((TodoEntry { title: v2, body: v1 }, j5 + 1));
    }
    None
}

spec fn prepend_entries(p: Seq<EntryView>, o: Option<(Seq<EntryView>, Seq<char>)>) -> Option<
    (Seq<EntryView>, Seq<char>),
> {
    match o {
        Some((es, r)) => Some((p + es, r)),
        None => None,
    }
}

/// Parses a whole document: the entries it holds, or nothing when the
/// text is not a well-formed document.
#[verifier::rlimit(100)]
pub fn parse_doc_str(s: &str) -> (r: Option<Vec<TodoEntry>>)
    ensures
        match r {
            Some(v) => parse_doc(s@) == Some(v.deep_view()),
            None => parse_doc(s@) is None,
        },
{
    let n = s.unicode_len();
    proof {
        assert(s@.skip(0) =~= s@);
    }
    let p0 = skip_ws_at(s, 0);
    if n - p0 == 0 {
        return None;
    }
    proof {
        assert(s@.skip(p0 as int)[0] == s@[p0 as int]);
    }
    if s.get_char(p0) != '{' {
        return None;
    }
    proof {
        assert(s@.skip(p0 as int).drop_first() =~= s@.skip(p0 as int + 1));
    }
    let p1 = skip_ws_at(s, p0 + 1);
    if n - p1 == 0 {
        return None;
    }
    proof {
        assert(s@.skip(p1 as int)[0] == s@[p1 as int]);
    }
    if s.get_char(p1) != '"' {
        return None;
    }
    proof {
        assert(s@.skip(p1 as int).drop_first() =~= s@.skip(p1 as int + 1));
    }
    let (key, p2) = match parse_string_at(s, p1 + 1) {
        Some(p) => p,
        None => {
            return None;
        },
    };
    let entries_lit = String::from_str("entries");
    proof {
        reveal_strlit("entries");
        assert("entries"@ =~= entries_key());
    }
    if !(key == entries_lit) {
        return None;
    }
    let p3 = skip_ws_at(s, p2);
    if n - p3 == 0 {
        return None;
    }
    proof {
        assert(s@.skip(p3 as int)[0] == s@[p3 as int]);
    }
    if s.get_char(p3) != ':' {
        return None;
    }
    proof {
        assert(s@.skip(p3 as int).drop_first() =~= s@.skip(p3 as int + 1));
    }
    let p4 = skip_ws_at(s, p3 + 1);
    if n - p4 == 0 {
        return None;
    }
    proof {
        assert(s@.skip(p4 as int)[0] == s@[p4 as int]);
    }
    if s.get_char(p4) != '[' {
        return None;
    }
    proof {
        assert(s@.skip(p4 as int).drop_first() =~= s@.skip(p4 as int + 1));
    }
    let p5 = skip_ws_at(s, p4 + 1);
    if n - p5 == 0 {
        proof {
            let t4 = s@.skip(p5 as int);
            assert(t4.len() == 0);
            assert(skip_ws(t4) == t4);
            assert(parse_entry(t4) is None);
            assert(parse_entries(t4) is None);
        }
        return None;
    }
    proof {
        assert(s@.skip(p5 as int)[0] == s@[p5 as int]);
    }
    if s.get_char(p5) == ']' {
        proof {
            assert(s@.skip(p5 as int).drop_first() =~= s@.skip(p5 as int + 1));
        }
        let p6 = skip_ws_at(s, p5 + 1);
        if n - p6 == 0 {
            return None;
        }
        proof {
            assert(s@.skip(p6 as int)[0] == s@[p6 as int]);
        }
        if s.get_char(p6) != '}' {
            return None;
        }
        proof {
            assert(s@.skip(p6 as int).drop_first() =~= s@.skip(p6 as int + 1));
        }
        let p7 = skip_ws_at(s, p6 + 1);
        if n - p7 != 0 {
            return None;
        }
        let v: Vec<TodoEntry> = Vec::new();
        proof {
            assert(s@.skip(p7 as int).len() == 0);
            assert(v.deep_view() =~= Seq::<EntryView>::empty());
        }
        return Some(v);
    }
    let mut v: Vec<TodoEntry> = Vec::new();
    let mut i: usize = p5;
    proof {
        let o = parse_entries(s@.skip(p5 as int));
        if o is Some {
            assert(Seq::<EntryView>::empty() + o->Some_0.0 =~= o->Some_0.0);
        }
        assert(v.deep_view() =~= Seq::<EntryView>::empty());
    }
    loop
        invariant
            n == s@.len(),
            i <= n,
            p5 <= n,
            parse_doc(s@) == (match parse_entries(s@.skip(p5 as int)) {
                Some((es, r)) => doc_end(es, r),
                None => None::<Seq<EntryView>>,
            }),
            parse_entries(s@.skip(p5 as int)) == prepend_entries(
                v.deep_view(),
                parse_entries(s@.skip(i as int)),
            ),
        decreases n - i,
    {
        let (e, j) = match parse_entry_at(s, i) {
            Some(p) => p,
            None => {
                return None;
            },
        };
        let j2 = skip_ws_at(s, j);
        if n - j2 == 0 {
            return None;
        }
        let c2 = s.get_char(j2);
        proof {
            assert(s@.skip(j2 as int)[0] == s@[j2 as int]);
        }
        if c2 == ']' {
            proof {
                assert(s@.skip(j2 as int).drop_first() =~= s@.skip(j2 as int + 1));
                assert(parse_entries(s@.skip(i as int)) == Some(
                    (seq![e@], s@.skip(j2 as int + 1)),
                ));
                let dv = v.deep_view();
                assert(dv + seq![e@] =~= dv.push(e@));
            }
            let ghost dv0 = v.deep_view();
            v.push(e);
            proof {
                assert(v.deep_view() =~= dv0.push(e@));
                assert(parse_entries(s@.skip(p5 as int)) == Some(
                    (v.deep_view(), s@.skip(j2 as int + 1)),
                ));
            }
            let p6 = skip_ws_at(s, j2 + 1);
            if n - p6 == 0 {
                return None;
            }
            let c3 = s.get_char(p6);
            proof {
                assert(s@.skip(p6 as int)[0] == s@[p6 as int]);
            }
            if c3 != '}' {
                return None;
            }
            proof {
                assert(s@.skip(p6 as int).drop_first() =~= s@.skip(p6 as int + 1));
            }
            let p7 = skip_ws_at(s, p6 + 1);
            if n - p7 != 0 {
                return None;
            }
            proof {
                assert(s@.skip(p7 as int).len() == 0);
            }
            return Some(v);
        } else if c2 == ',' {
            proof {
                let o = parse_entries(s@.skip(j2 as int + 1));
                assert(s@.skip(j2 as int).drop_first() =~= s@.skip(j2 as int + 1));
                assert(parse_entries(s@.skip(i as int)) == prepend_entries(seq![e@], o));
                let dv = v.deep_view();
                if o is Some {
                    assert(dv + (seq![e@] + o->Some_0.0) =~= (dv + seq![e@]) + o->Some_0.0);
                }
                assert(dv + seq![e@] =~= dv.push(e@));
            }
            let ghost dv0 = v.deep_view();
            v.push(e);
            proof {
                assert(v.deep_view() =~= dv0.push(e@));
            }
            i = j2 + 1;
        } else {
            return None;
        }
    }
}

} // verus!
