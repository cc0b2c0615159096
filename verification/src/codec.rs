//! The JSON document a store is persisted as, and its parser.
//!
//! The document is the object `{"map":{"<flag>":"<path>", ...}}`. The writer
//! emits one canonical spelling: no whitespace, with `"` and `\` escaped by a
//! backslash and control characters as `\u00XX` with lower-case hex digits.
//! The reader accepts every JSON spelling of that schema: insignificant
//! whitespace around structural tokens, the standard escapes `\" \\ \/ \b \f
//! \n \r \t` and `\uXXXX` in either hex case including surrogate pairs, and a
//! repeated flag, whose last binding wins, as the mapping semantics says. An
//! empty flag name lies outside the store schema and fails the parse. On any
//! document that does not parse, [`MarkerStore::from_json`] falls back to the
//! empty store rather than failing, and [`lemma_parse_encode`] proves that
//! reading back what [`MarkerStore::to_json`] wrote recovers the entries
//! exactly.

use vstd::prelude::*;
use crate::store::{MarkerStore, keys_nonempty, map_of, seq_view};

verus! {

/// The lower-case hex digit of a value below sixteen.
pub open spec fn hex_digit(v: int) -> char {
    if v == 0 { '0' } else if v == 1 { '1' } else if v == 2 { '2' }
    else if v == 3 { '3' } else if v == 4 { '4' } else if v == 5 { '5' }
    else if v == 6 { '6' } else if v == 7 { '7' } else if v == 8 { '8' }
    else if v == 9 { '9' } else if v == 10 { 'a' } else if v == 11 { 'b' }
    else if v == 12 { 'c' } else if v == 13 { 'd' } else if v == 14 { 'e' }
    else { 'f' }
}

/// The value of a hex digit in either case, or a negative number for any
/// other character.
pub open spec fn hex_val(c: char) -> int {
    if c == '0' { 0 } else if c == '1' { 1 } else if c == '2' { 2 }
    else if c == '3' { 3 } else if c == '4' { 4 } else if c == '5' { 5 }
    else if c == '6' { 6 } else if c == '7' { 7 } else if c == '8' { 8 }
    else if c == '9' { 9 } else if c == 'a' || c == 'A' { 10 }
    else if c == 'b' || c == 'B' { 11 } else if c == 'c' || c == 'C' { 12 }
    else if c == 'd' || c == 'D' { 13 } else if c == 'e' || c == 'E' { 14 }
    else if c == 'f' || c == 'F' { 15 } else { -1 }
}

/// The value of four hex digits, or a negative number if any is not one.
pub open spec fn hex4_val(a: char, b: char, c: char, d: char) -> int {
    if hex_val(a) < 0 || hex_val(b) < 0 || hex_val(c) < 0 || hex_val(d) < 0 {
        -1
    } else {
        hex_val(a) * 4096 + hex_val(b) * 256 + hex_val(c) * 16 + hex_val(d)
    }
}

/// A character's code point value.
pub open spec fn char_val(c: char) -> int {
    (c as u32) as int
}

/// JSON's insignificant whitespace characters.
pub open spec fn is_ws(c: char) -> bool {
    c == ' ' || c == '\t' || c == '\n' || c == '\r'
}

/// The input with its leading whitespace dropped.
pub open spec fn skip_ws(s: Seq<char>) -> Seq<char>
    decreases s.len(),
{
    if s.len() > 0 && is_ws(s[0]) {
        skip_ws(s.skip(1))
    } else {
        s
    }
}

/// Dropping whitespace never lengthens the input.
pub proof fn lemma_skip_ws_len(s: Seq<char>)
    ensures
        skip_ws(s).len() <= s.len(),
    decreases s.len(),
{
    if s.len() > 0 && is_ws(s[0]) {
        lemma_skip_ws_len(s.skip(1));
    }
}

/// On input with no leading whitespace, dropping whitespace changes nothing.
proof fn lemma_skip_ws_clean(s: Seq<char>)
    requires
        s.len() == 0 || !is_ws(s[0]),
    ensures
        skip_ws(s) == s,
{
}

/// How one character is written inside a JSON string.
pub open spec fn esc_char(c: char) -> Seq<char> {
    if c == '"' {
        seq!['\\', '"']
    } else if c == '\\' {
        seq!['\\', '\\']
    } else if char_val(c) < 32 {
        seq!['\\', 'u', '0', '0', hex_digit(char_val(c) / 16), hex_digit(char_val(c) % 16)]
    } else {
        seq![c]
    }
}

/// How a whole string is written inside quotes.
pub open spec fn esc_str(s: Seq<char>) -> Seq<char>
    decreases s.len(),
{
    if s.len() == 0 {
        Seq::empty()
    } else {
        esc_char(s[0]) + esc_str(s.skip(1))
    }
}

/// One `"flag":"path"` member of the inner object.
pub open spec fn enc_entry(e: (Seq<char>, Seq<char>)) -> Seq<char> {
    seq!['"'] + esc_str(e.0) + seq!['"', ':', '"'] + esc_str(e.1) + seq!['"']
}

/// The comma-separated members of the inner object.
pub open spec fn enc_entries(es: Seq<(Seq<char>, Seq<char>)>) -> Seq<char>
    decreases es.len(),
{
    if es.len() == 0 {
        Seq::empty()
    } else if es.len() == 1 {
        enc_entry(es[0])
    } else {
        enc_entry(es[0]) + seq![','] + enc_entries(es.skip(1))
    }
}

/// The eight characters every written document opens with.
pub open spec fn doc_header() -> Seq<char> {
    seq!['{', '"', 'm', 'a', 'p', '"', ':', '{']
}

/// The whole written document for a sequence of entries.
pub open spec fn spec_encode(es: Seq<(Seq<char>, Seq<char>)>) -> Seq<char> {
    doc_header() + enc_entries(es) + seq!['}', '}']
}

/// Escaping one more character appends that character's escape.
proof fn lemma_esc_str_snoc(s: Seq<char>, c: char)
    ensures
        esc_str(s.push(c)) == esc_str(s) + esc_char(c),
    decreases s.len(),
{
    if s.len() == 0 {
        assert(s.push(c)[0] == c);
        assert(s.push(c).skip(1) =~= Seq::<char>::empty());
        assert(s.push(c).skip(1).len() == 0);
        assert(esc_str(s.push(c)) == esc_char(c) + esc_str(s.push(c).skip(1)));
        assert(esc_str(s.push(c).skip(1)) =~= Seq::<char>::empty());
        assert(esc_str(s) =~= Seq::<char>::empty());
        assert(esc_str(s.push(c)) =~= esc_str(s) + esc_char(c));
    } else {
        assert(s.push(c)[0] == s[0]);
        assert(s.push(c).skip(1) =~= s.skip(1).push(c));
        lemma_esc_str_snoc(s.skip(1), c);
        assert(esc_str(s.push(c)) =~= esc_str(s) + esc_char(c));
    }
}

/// Encoding one more entry appends a separator (unless the object was empty)
/// and that entry's member text.
proof fn lemma_enc_entries_snoc(es: Seq<(Seq<char>, Seq<char>)>, e: (Seq<char>, Seq<char>))
    ensures
        es.len() == 0 ==> enc_entries(es.push(e)) == enc_entry(e),
        es.len() > 0 ==> enc_entries(es.push(e)) == enc_entries(es) + seq![','] + enc_entry(e),
    decreases es.len(),
{
    if es.len() == 0 {
        assert(es.push(e)[0] == e);
    } else if es.len() == 1 {
        assert(es.push(e)[0] == es[0]);
        assert(es.push(e).skip(1) =~= seq![e]);
        assert(enc_entries(seq![e]) == enc_entry(e));
        assert(enc_entries(es.push(e)) =~= enc_entries(es) + seq![','] + enc_entry(e));
    } else {
        assert(es.push(e)[0] == es[0]);
        assert(es.push(e).skip(1) =~= es.skip(1).push(e));
        lemma_enc_entries_snoc(es.skip(1), e);
        assert(enc_entries(es.push(e)) =~= enc_entries(es) + seq![','] + enc_entry(e));
    }
}

/// One JSON string body, read from the character after the opening quote up
/// to the closing quote: `Some((content, rest))` with `rest` what follows the
/// closing quote, or `None` if the string is unterminated or malformed. All
/// standard escapes are read, `\uXXXX` in either hex case, with a high
/// surrogate joined to the low one that must follow it. `acc` carries the
/// characters read so far.
pub open spec fn parse_string(s: Seq<char>, acc: Seq<char>) -> Option<(Seq<char>, Seq<char>)>
    decreases s.len(),
{
    if s.len() == 0 {
        None
    } else if s[0] == '"' {
        Some((acc, s.skip(1)))
    } else if s[0] == '\\' {
        if s.len() < 2 {
            None
        } else if s[1] == '"' || s[1] == '\\' || s[1] == '/' {
            parse_string(s.skip(2), acc.push(s[1]))
        } else if s[1] == 'b' {
            parse_string(s.skip(2), acc.push('\u{08}'))
        } else if s[1] == 'f' {
            parse_string(s.skip(2), acc.push('\u{0c}'))
        } else if s[1] == 'n' {
            parse_string(s.skip(2), acc.push('\n'))
        } else if s[1] == 'r' {
            parse_string(s.skip(2), acc.push('\r'))
        } else if s[1] == 't' {
            parse_string(s.skip(2), acc.push('\t'))
        } else if s[1] == 'u' {
            if s.len() < 6 {
                None
            } else {
                let v = hex4_val(s[2], s[3], s[4], s[5]);
                if v < 0 {
                    None
                } else if v < 0xD800 || v >= 0xE000 {
                    parse_string(s.skip(6), acc.push((v as u32) as char))
                } else if v < 0xDC00 {
                    if s.len() < 12 || s[6] != '\\' || s[7] != 'u' {
                        None
                    } else {
                        let w = hex4_val(s[8], s[9], s[10], s[11]);
                        if 0xDC00 <= w < 0xE000 {
                            parse_string(
                                s.skip(12),
                                acc.push(
                                    ((0x10000 + (v - 0xD800) * 0x400 + (w - 0xDC00)) as u32)
                                        as char,
                                ),
                            )
                        } else {
                            None
                        }
                    }
                } else {
                    None
                }
            }
        } else {
            None
        }
    } else if char_val(s[0]) < 32 {
        None
    } else {
        parse_string(s.skip(1), acc.push(s[0]))
    }
}

/// A successful string parse consumes at least the closing quote.
pub proof fn lemma_parse_string_rest(s: Seq<char>, acc: Seq<char>)
    ensures
        match parse_string(s, acc) {
            Some(p) => p.1.len() < s.len(),
            None => true,
        },
    decreases s.len(),
{
    if s.len() == 0 {
    } else if s[0] == '"' {
    } else if s[0] == '\\' {
        if s.len() < 2 {
        } else if s[1] == '"' || s[1] == '\\' || s[1] == '/' {
            lemma_parse_string_rest(s.skip(2), acc.push(s[1]));
        } else if s[1] == 'b' {
            lemma_parse_string_rest(s.skip(2), acc.push('\u{08}'));
        } else if s[1] == 'f' {
            lemma_parse_string_rest(s.skip(2), acc.push('\u{0c}'));
        } else if s[1] == 'n' {
            lemma_parse_string_rest(s.skip(2), acc.push('\n'));
        } else if s[1] == 'r' {
            lemma_parse_string_rest(s.skip(2), acc.push('\r'));
        } else if s[1] == 't' {
            lemma_parse_string_rest(s.skip(2), acc.push('\t'));
        } else if s[1] == 'u' && s.len() >= 6 {
            let v = hex4_val(s[2], s[3], s[4], s[5]);
            if v >= 0 {
                if v < 0xD800 || v >= 0xE000 {
                    lemma_parse_string_rest(s.skip(6), acc.push((v as u32) as char));
                } else if v < 0xDC00 && s.len() >= 12 && s[6] == '\\' && s[7] == 'u' {
                    let w = hex4_val(s[8], s[9], s[10], s[11]);
                    if 0xDC00 <= w < 0xE000 {
                        lemma_parse_string_rest(
                            s.skip(12),
                            acc.push(
                                ((0x10000 + (v - 0xD800) * 0x400 + (w - 0xDC00)) as u32) as char,
                            ),
                        );
                    }
                }
            }
        }
    } else if char_val(s[0]) < 32 {
    } else {
        lemma_parse_string_rest(s.skip(1), acc.push(s[0]));
    }
}

/// Whether, after the inner object closed, only whitespace, the document's
/// final `}` and whitespace remain.
pub open spec fn doc_end(s: Seq<char>) -> bool {
    let t = skip_ws(s);
    t.len() > 0 && t[0] == '}' && skip_ws(t.skip(1)).len() == 0
}

/// The members of the inner object, read from the opening quote of a first
/// flag onward up to the document's end. A member under an already-read flag
/// is kept too — the mapping the entries denote lets the later one win — and
/// an empty flag name is outside the store schema and fails the parse. `acc`
/// carries the entries read so far.
pub open spec fn parse_pairs(
    s: Seq<char>,
    acc: Seq<(Seq<char>, Seq<char>)>,
) -> Option<Seq<(Seq<char>, Seq<char>)>>
    decreases s.len(),
    via parse_pairs_decreases
{
    if s.len() == 0 || s[0] != '"' {
        None
    } else {
        match parse_string(s.skip(1), Seq::empty()) {
            None => None,
            Some((k, r1)) => {
                if k.len() == 0 {
                    None
                } else {
                    let r2 = skip_ws(r1);
                    if r2.len() == 0 || r2[0] != ':' {
                        None
                    } else {
                        let r3 = skip_ws(r2.skip(1));
                        if r3.len() == 0 || r3[0] != '"' {
                            None
                        } else {
                            match parse_string(r3.skip(1), Seq::empty()) {
                                None => None,
                                Some((v, r4)) => {
                                    let r5 = skip_ws(r4);
                                    if r5.len() > 0 && r5[0] == ',' {
                                        parse_pairs(skip_ws(r5.skip(1)), acc.push((k, v)))
                                    } else if r5.len() > 0 && r5[0] == '}'
                                        && doc_end(r5.skip(1)) {
                                        Some(acc.push((k, v)))
                                    } else {
                                        None
                                    }
                                },
                            }
                        }
                    }
                }
            },
        }
    }
}

#[via_fn]
proof fn parse_pairs_decreases(s: Seq<char>, acc: Seq<(Seq<char>, Seq<char>)>) {
    if s.len() > 0 && s[0] == '"' {
        lemma_parse_string_rest(s.skip(1), Seq::empty());
        match parse_string(s.skip(1), Seq::empty()) {
            None => {},
            Some((k, r1)) => {
                lemma_skip_ws_len(r1);
                let r2 = skip_ws(r1);
                if k.len() > 0 && r2.len() > 0 && r2[0] == ':' {
                    lemma_skip_ws_len(r2.skip(1));
                    let r3 = skip_ws(r2.skip(1));
                    if r3.len() > 0 && r3[0] == '"' {
                        lemma_parse_string_rest(r3.skip(1), Seq::empty());
                        match parse_string(r3.skip(1), Seq::empty()) {
                            None => {},
                            Some((v, r4)) => {
                                lemma_skip_ws_len(r4);
                                let r5 = skip_ws(r4);
                                if r5.len() > 0 && r5[0] == ',' {
                                    lemma_skip_ws_len(r5.skip(1));
                                }
                            },
                        }
                    }
                }
            },
        }
    }
}

/// The whole document, in any JSON spelling of the schema — even the `map`
/// key may be spelt with escapes. `None` for anything else.
pub open spec fn spec_parse(s: Seq<char>) -> Option<Seq<(Seq<char>, Seq<char>)>> {
    let s0 = skip_ws(s);
    if s0.len() == 0 || s0[0] != '{' {
        None
    } else {
        let s1 = skip_ws(s0.skip(1));
        if s1.len() == 0 || s1[0] != '"' {
            None
        } else {
            match parse_string(s1.skip(1), Seq::empty()) {
                None => None,
                Some((name, r1)) => {
                    if name != seq!['m', 'a', 'p'] {
                        None
                    } else {
                        let r2 = skip_ws(r1);
                        if r2.len() == 0 || r2[0] != ':' {
                            None
                        } else {
                            let r3 = skip_ws(r2.skip(1));
                            if r3.len() == 0 || r3[0] != '{' {
                                None
                            } else {
                                let r4 = skip_ws(r3.skip(1));
                                if r4.len() > 0 && r4[0] == '}' && doc_end(r4.skip(1)) {
                                    Some(Seq::empty())
                                } else {
                                    parse_pairs(r4, Seq::empty())
                                }
                            }
                        }
                    }
                },
            }
        }
    }
}

/// A character below any surrogate is recovered from its code point value.
proof fn lemma_char_round_trip(c: char)
    requires
        (c as u32) < 32,
    ensures
        ((c as u32) as char) == c,
{
}

/// Reading a lower-case hex digit gives back the encoded value.
proof fn lemma_hex_inverse(v: int)
    requires
        0 <= v < 16,
    ensures
        hex_val(hex_digit(v)) == v,
{
}

/// Text with no character that needs escaping is its own escape.
proof fn lemma_esc_plain(k: Seq<char>)
    requires
        forall|i: int| 0 <= i < k.len()
            ==> k[i] != '"' && k[i] != '\\' && char_val(#[trigger] k[i]) >= 32,
    ensures
        esc_str(k) == k,
    decreases k.len(),
{
    if k.len() > 0 {
        assert(esc_char(k[0]) == seq![k[0]]);
        assert(forall|i: int| 0 <= i < k.skip(1).len()
            ==> #[trigger] k.skip(1)[i] == k[i + 1]);
        lemma_esc_plain(k.skip(1));
        assert(esc_str(k) =~= k);
    }
}

/// Reading a string body from its escaped text recovers it exactly: the
/// escape of `k`, a closing quote and any tail parse to `k` and that tail.
proof fn lemma_parse_esc(k: Seq<char>, rest: Seq<char>, acc: Seq<char>)
    ensures
        parse_string(esc_str(k) + seq!['"'] + rest, acc) == Some((acc + k, rest)),
    decreases k.len(),
{
    let s = esc_str(k) + seq!['"'] + rest;
    if k.len() == 0 {
        assert(s =~= seq!['"'] + rest);
        assert(s[0] == '"');
        assert(s.skip(1) =~= rest);
        assert(acc + k =~= acc);
    } else {
        let c = k[0];
        let tail = esc_str(k.skip(1)) + seq!['"'] + rest;
        assert(esc_str(k) == esc_char(c) + esc_str(k.skip(1)));
        assert(s =~= esc_char(c) + tail);
        lemma_parse_esc(k.skip(1), rest, acc.push(c));
        assert(acc.push(c) + k.skip(1) =~= acc + k);
        if c == '"' {
            assert(s[0] == '\\');
            assert(s[1] == '"');
            assert(s.skip(2) =~= tail);
        } else if c == '\\' {
            assert(s[0] == '\\');
            assert(s[1] == '\\');
            assert(s.skip(2) =~= tail);
        } else if char_val(c) < 32 {
            let hi = char_val(c) / 16;
            let lo = char_val(c) % 16;
            assert(char_val(c) >= 0);
            assert(0 <= hi < 16 && 0 <= lo < 16);
            assert(s[0] == '\\');
            assert(s[1] == 'u');
            assert(s[2] == '0');
            assert(s[3] == '0');
            assert(s[4] == hex_digit(hi));
            assert(s[5] == hex_digit(lo));
            lemma_hex_inverse(hi);
            lemma_hex_inverse(lo);
            assert(hex4_val(s[2], s[3], s[4], s[5]) == char_val(c));
            assert((hex4_val(s[2], s[3], s[4], s[5]) as u32) == c as u32);
            lemma_char_round_trip(c);
            assert(((hex4_val(s[2], s[3], s[4], s[5]) as u32) as char) == c);
            assert(s.len() >= 6);
            assert(s.skip(6) =~= tail);
        } else {
            assert(s[0] == c);
            assert(s.skip(1) =~= tail);
        }
    }
}

/// Reading the members back from their encoded text recovers them exactly.
#[verifier::rlimit(50)]
proof fn lemma_parse_pairs_enc(es: Seq<(Seq<char>, Seq<char>)>, acc: Seq<(Seq<char>, Seq<char>)>)
    requires
        keys_nonempty(es),
        es.len() > 0,
    ensures
        parse_pairs(enc_entries(es) + seq!['}', '}'], acc) == Some(acc + es),
    decreases es.len(),
{
    let e0 = es[0];
    let k = e0.0;
    let v = e0.1;
    let s = enc_entries(es) + seq!['}', '}'];
    let t = if es.len() == 1 { seq!['}', '}'] } else {
        seq![','] + enc_entries(es.skip(1)) + seq!['}', '}']
    };
    let r1 = seq![':', '"'] + esc_str(v) + seq!['"'] + t;
    assert(s =~= seq!['"'] + (esc_str(k) + seq!['"'] + r1)) by {
        if es.len() == 1 {
            assert(enc_entries(es) == enc_entry(e0));
        }
        assert(enc_entry(e0) == seq!['"'] + esc_str(e0.0) + seq!['"', ':', '"']
            + esc_str(e0.1) + seq!['"']);
    }
    assert(s[0] == '"');
    assert(s.skip(1) =~= esc_str(k) + seq!['"'] + r1);
    lemma_parse_esc(k, r1, Seq::empty());
    assert(Seq::empty() + k =~= k);
    assert(parse_string(s.skip(1), Seq::empty()) == Some((k, r1)));
    assert(k.len() > 0);
    assert(r1[0] == ':');
    lemma_skip_ws_clean(r1);
    assert(r1.skip(1) =~= seq!['"'] + (esc_str(v) + seq!['"'] + t));
    assert(r1.skip(1)[0] == '"');
    lemma_skip_ws_clean(r1.skip(1));
    assert(r1.skip(1).skip(1) =~= esc_str(v) + seq!['"'] + t);
    lemma_parse_esc(v, t, Seq::empty());
    assert(Seq::empty() + v =~= v);
    assert(parse_string(r1.skip(1).skip(1), Seq::empty()) == Some((v, t)));
    assert((k, v) == e0);
    if es.len() == 1 {
        assert(t[0] == '}');
        lemma_skip_ws_clean(t);
        assert(t.skip(1) =~= seq!['}']);
        lemma_skip_ws_clean(seq!['}']);
        assert(seq!['}'].skip(1) =~= Seq::<char>::empty());
        lemma_skip_ws_clean(Seq::<char>::empty());
        assert(doc_end(t.skip(1)));
        assert(acc.push(e0) =~= acc + es);
    } else {
        assert(t[0] == ',');
        lemma_skip_ws_clean(t);
        assert(t.skip(1) =~= enc_entries(es.skip(1)) + seq!['}', '}']);
        assert(enc_entries(es.skip(1))[0] == '"') by {
            assert(enc_entry(es.skip(1)[0])[0] == '"');
        }
        assert(t.skip(1)[0] == '"');
        lemma_skip_ws_clean(t.skip(1));
        assert(keys_nonempty(es.skip(1))) by {
            assert(forall|a: int|
                0 <= a < es.skip(1).len() ==> #[trigger] es.skip(1)[a] == es[a + 1]);
        }
        assert(acc.push(e0) + es.skip(1) =~= acc + es);
        lemma_parse_pairs_enc(es.skip(1), acc.push(e0));
    }
}

/// The round-trip law: the JSON document written for any entries with
/// non-empty flags — every store's entries are such — parses back to exactly
/// those entries, and so to a store with the same mapping.
pub proof fn lemma_parse_encode(es: Seq<(Seq<char>, Seq<char>)>)
    requires
        keys_nonempty(es),
    ensures
        spec_parse(spec_encode(es)) == Some(es),
{
    let s = spec_encode(es);
    let mp = seq!['m', 'a', 'p'];
    let r1 = seq![':', '{'] + enc_entries(es) + seq!['}', '}'];
    assert(s[0] == '{');
    lemma_skip_ws_clean(s);
    assert(esc_str(mp) == mp) by {
        assert(mp[0] == 'm' && mp[1] == 'a' && mp[2] == 'p');
        lemma_esc_plain(mp);
    }
    assert(s.skip(1) =~= seq!['"'] + (esc_str(mp) + seq!['"'] + r1));
    assert(s.skip(1)[0] == '"');
    lemma_skip_ws_clean(s.skip(1));
    assert(s.skip(1).skip(1) =~= esc_str(mp) + seq!['"'] + r1);
    lemma_parse_esc(mp, r1, Seq::empty());
    assert(Seq::empty() + mp =~= mp);
    assert(parse_string(s.skip(1).skip(1), Seq::empty()) == Some((mp, r1)));
    assert(r1[0] == ':');
    lemma_skip_ws_clean(r1);
    assert(r1.skip(1) =~= seq!['{'] + (enc_entries(es) + seq!['}', '}']));
    assert(r1.skip(1)[0] == '{');
    lemma_skip_ws_clean(r1.skip(1));
    assert(r1.skip(1).skip(1) =~= enc_entries(es) + seq!['}', '}']);
    if es.len() == 0 {
        assert(r1.skip(1).skip(1) =~= seq!['}', '}']);
        assert(r1.skip(1).skip(1)[0] == '}');
        lemma_skip_ws_clean(r1.skip(1).skip(1));
        assert(r1.skip(1).skip(1).skip(1) =~= seq!['}']);
        lemma_skip_ws_clean(seq!['}']);
        assert(seq!['}'].skip(1) =~= Seq::<char>::empty());
        lemma_skip_ws_clean(Seq::<char>::empty());
        assert(doc_end(r1.skip(1).skip(1).skip(1)));
        assert(es =~= Seq::<(Seq<char>, Seq<char>)>::empty());
    } else {
        assert(enc_entries(es)[0] == '"') by {
            assert(enc_entry(es[0])[0] == '"');
        }
        assert(r1.skip(1).skip(1)[0] == '"');
        lemma_skip_ws_clean(r1.skip(1).skip(1));
        assert(Seq::empty() + es =~= es);
        lemma_parse_pairs_enc(es, Seq::empty());
    }
}

/// The round-trip law at store level: a well-formed store's JSON document
/// parses back to exactly the entries it was written from, so a save
/// followed by a load yields a store with an equal mapping.
pub proof fn lemma_round_trip(s: MarkerStore)
    requires
        s.wf(),
    ensures
        spec_parse(spec_encode(s.entries_seq())) == Some(s.entries_seq()),
{
    lemma_parse_encode(s.entries_seq());
}

/// Relies on `char::from_u32`: a Unicode scalar value converts to exactly
/// that code point.
#[verifier::external_body]
fn char_from_u32(v: u32) -> (c: char)
    requires
        v < 0xD800 || (0xE000 <= v && v <= 0x10FFFF),
    ensures
        c == (v as char),
{
    char::from_u32(v).unwrap()
}

/// Relies on `String`'s `FromIterator<char>` impl: collecting characters
/// yields the string of exactly those characters, in order.
#[verifier::external_body]
fn chars_to_string(v: &Vec<char>) -> (r: String)
    ensures
        r@ == v@,
{
    v.iter().collect()
}

/// The characters of a string slice, in order.
fn str_to_chars(s: &str) -> (r: Vec<char>)
    ensures
        r@ == s@,
{
    let n = s.unicode_len();
    let mut out: Vec<char> = Vec::new();
    let mut i: usize = 0;
    while i < n
        invariant
            i <= n,
            n == s@.len(),
            out@ == s@.take(i as int),
        decreases n - i,
    {
        out.push(s.get_char(i));
        proof {
            assert(s@.take(i + 1 as int) =~= s@.take(i as int).push(s@[i as int]));
        }
        i += 1;
    }
    proof {
        assert(s@.take(n as int) =~= s@);
    }
    out
}

/// The lower-case hex digit character for a value below sixteen.
fn hex_digit_exec(v: u8) -> (c: char)
    requires
        v < 16,
    ensures
        c == hex_digit(v as int),
{
    match v {
        0 => '0', 1 => '1', 2 => '2', 3 => '3', 4 => '4', 5 => '5',
        6 => '6', 7 => '7', 8 => '8', 9 => '9', 10 => 'a', 11 => 'b',
        12 => 'c', 13 => 'd', 14 => 'e', _ => 'f',
    }
}

/// The value of a hex digit character in either case, if it is one.
fn hex_val_exec(c: char) -> (r: Option<u8>)
    ensures
        match r {
            Some(v) => v == hex_val(c) && v < 16,
            None => hex_val(c) < 0,
        },
{
    match c {
        '0' => Some(0), '1' => Some(1), '2' => Some(2), '3' => Some(3),
        '4' => Some(4), '5' => Some(5), '6' => Some(6), '7' => Some(7),
        '8' => Some(8), '9' => Some(9),
        'a' | 'A' => Some(10), 'b' | 'B' => Some(11), 'c' | 'C' => Some(12),
        'd' | 'D' => Some(13), 'e' | 'E' => Some(14), 'f' | 'F' => Some(15),
        _ => None,
    }
}

/// Appends the escape of one character.
fn push_escaped_char(out: &mut Vec<char>, c: char)
    ensures
        final(out)@ == old(out)@ + esc_char(c),
{
    if c == '"' {
        out.push('\\');
        out.push('"');
        proof {
            assert(out@ =~= old(out)@ + esc_char(c));
        }
    } else if c == '\\' {
        out.push('\\');
        out.push('\\');
        proof {
            assert(out@ =~= old(out)@ + esc_char(c));
        }
    } else if (c as u32) < 32 {
        let v = c as u32 as u8;
        out.push('\\');
        out.push('u');
        out.push('0');
        out.push('0');
        out.push(hex_digit_exec(v / 16));
        out.push(hex_digit_exec(v % 16));
        proof {
            assert(v == char_val(c));
            assert(out@ =~= old(out)@ + esc_char(c));
        }
    } else {
        out.push(c);
        proof {
            assert(out@ =~= old(out)@ + esc_char(c));
        }
    }
}

/// Appends the escape of a whole string.
fn push_escaped(out: &mut Vec<char>, s: &str)
    ensures
        final(out)@ == old(out)@ + esc_str(s@),
{
    let n = s.unicode_len();
    let mut i: usize = 0;
    while i < n
        invariant
            i <= n,
            n == s@.len(),
            out@ == old(out)@ + esc_str(s@.take(i as int)),
        decreases n - i,
    {
        let c = s.get_char(i);
        push_escaped_char(out, c);
        proof {
            assert(s@.take(i + 1 as int) =~= s@.take(i as int).push(c));
            lemma_esc_str_snoc(s@.take(i as int), c);
            assert(old(out)@ + esc_str(s@.take(i as int)) + esc_char(c)
                =~= old(out)@ + esc_str(s@.take(i + 1 as int)));
        }
        i += 1;
    }
    proof {
        assert(s@.take(n as int) =~= s@);
    }
}

/// Skips whitespace in `s` from `pos` on; the first position holding a
/// non-whitespace character, or the end.
fn skip_ws_exec(s: &Vec<char>, pos: usize) -> (j: usize)
    requires
        pos <= s.len(),
    ensures
        pos <= j <= s.len(),
        s@.skip(j as int) == skip_ws(s@.skip(pos as int)),
{
    let mut j = pos;
    loop
        invariant
            pos <= j <= s.len(),
            skip_ws(s@.skip(pos as int)) == skip_ws(s@.skip(j as int)),
        decreases s.len() - j,
    {
        if j == s.len() {
            proof {
                assert(s@.skip(j as int).len() == 0);
            }
            return j;
        }
        let c = s[j];
        proof {
            assert(s@.skip(j as int)[0] == s@[j as int]);
        }
        if c == ' ' || c == '\t' || c == '\n' || c == '\r' {
            proof {
                assert(s@.skip(j as int).skip(1) =~= s@.skip(j + 1 as int));
            }
            j += 1;
        } else {
            proof {
                assert(!is_ws(s@.skip(j as int)[0]));
            }
            return j;
        }
    }
}

/// Whether only whitespace, one `}` and whitespace remain from `pos` on.
fn doc_end_exec(s: &Vec<char>, pos: usize) -> (r: bool)
    requires
        pos <= s.len(),
    ensures
        r == doc_end(s@.skip(pos as int)),
{
    let j = skip_ws_exec(s, pos);
    if j == s.len() {
        return false;
    }
    proof {
        assert(s@.skip(j as int)[0] == s@[j as int]);
    }
    if s[j] != '}' {
        return false;
    }
    proof {
        assert(s@.skip(j as int).skip(1) =~= s@.skip(j + 1 as int));
    }
    let j2 = skip_ws_exec(s, j + 1);
    j2 == s.len()
}

/// Reads one JSON string body of `s` beginning at `start` (just after the
/// opening quote); on success the content and the position just after the
/// closing quote.
fn parse_string_exec(s: &Vec<char>, start: usize) -> (r: Option<(Vec<char>, usize)>)
    requires
        start <= s.len(),
    ensures
        match r {
            Some(p) => start < p.1 && p.1 <= s.len()
                && parse_string(s@.skip(start as int), Seq::empty())
                    == Some((p.0@, s@.skip(p.1 as int))),
            None => parse_string(s@.skip(start as int), Seq::empty())
                == None::<(Seq<char>, Seq<char>)>,
        },
{
    let mut i: usize = start;
    let mut acc: Vec<char> = Vec::new();
    loop
        invariant
            start <= i <= s.len(),
            parse_string(s@.skip(start as int), Seq::empty())
                == parse_string(s@.skip(i as int), acc@),
        decreases s.len() - i,
    {
        if i == s.len() {
            return None;
        }
        let ghost rem = s@.skip(i as int);
        proof {
            assert(rem[0] == s@[i as int]);
        }
        let c = s[i];
        if c == '"' {
            proof {
                assert(rem.skip(1) =~= s@.skip(i + 1 as int));
            }
            return Some((acc, i + 1));
        } else if c == '\\' {
            if s.len() - i < 2 {
                return None;
            }
            proof {
                assert(rem[1] == s@[i + 1 as int]);
                assert(rem.skip(2) =~= s@.skip(i + 2 as int));
            }
            let d = s[i + 1];
            if d == '"' || d == '\\' || d == '/' {
                acc.push(d);
                i = i + 2;
            } else if d == 'b' {
                acc.push('\u{08}');
                i = i + 2;
            } else if d == 'f' {
                acc.push('\u{0c}');
                i = i + 2;
            } else if d == 'n' {
                acc.push('\n');
                i = i + 2;
            } else if d == 'r' {
                acc.push('\r');
                i = i + 2;
            } else if d == 't' {
                acc.push('\t');
                i = i + 2;
            } else if d == 'u' {
                if s.len() - i < 6 {
                    return None;
                }
                proof {
                    assert(rem[2] == s@[i + 2 as int]);
                    assert(rem[3] == s@[i + 3 as int]);
                    assert(rem[4] == s@[i + 4 as int]);
                    assert(rem[5] == s@[i + 5 as int]);
                }
                let h0 = match hex_val_exec(s[i + 2]) {
                    Some(h) => h,
                    None => { return None; },
                };
                let h1 = match hex_val_exec(s[i + 3]) {
                    Some(h) => h,
                    None => { return None; },
                };
                let h2 = match hex_val_exec(s[i + 4]) {
                    Some(h) => h,
                    None => { return None; },
                };
                let h3 = match hex_val_exec(s[i + 5]) {
                    Some(h) => h,
                    None => { return None; },
                };
                let v: u32 = (h0 as u32) * 4096 + (h1 as u32) * 256 + (h2 as u32) * 16
                    + (h3 as u32);
                proof {
                    assert(v as int == hex4_val(rem[2], rem[3], rem[4], rem[5]));
                }
                if v < 0xD800 || v >= 0xE000 {
                    let c2 = char_from_u32(v);
                    proof {
                        assert((hex4_val(rem[2], rem[3], rem[4], rem[5]) as u32) == v);
                        assert(rem.skip(6) =~= s@.skip(i + 6 as int));
                    }
                    acc.push(c2);
                    i = i + 6;
                } else if v < 0xDC00 {
                    if s.len() - i < 12 {
                        return None;
                    }
                    proof {
                        assert(rem[6] == s@[i + 6 as int]);
                        assert(rem[7] == s@[i + 7 as int]);
                        assert(rem[8] == s@[i + 8 as int]);
                        assert(rem[9] == s@[i + 9 as int]);
                        assert(rem[10] == s@[i + 10 as int]);
                        assert(rem[11] == s@[i + 11 as int]);
                    }
                    if !(s[i + 6] == '\\' && s[i + 7] == 'u') {
                        return None;
                    }
                    let g0 = match hex_val_exec(s[i + 8]) {
                        Some(h) => h,
                        None => { return None; },
                    };
                    let g1 = match hex_val_exec(s[i + 9]) {
                        Some(h) => h,
                        None => { return None; },
                    };
                    let g2 = match hex_val_exec(s[i + 10]) {
                        Some(h) => h,
                        None => { return None; },
                    };
                    let g3 = match hex_val_exec(s[i + 11]) {
                        Some(h) => h,
                        None => { return None; },
                    };
                    let w: u32 = (g0 as u32) * 4096 + (g1 as u32) * 256 + (g2 as u32) * 16
                        + (g3 as u32);
                    proof {
                        assert(w as int == hex4_val(rem[8], rem[9], rem[10], rem[11]));
                    }
                    if !(0xDC00 <= w && w < 0xE000) {
                        return None;
                    }
                    let code: u32 = 0x10000 + (v - 0xD800) * 0x400 + (w - 0xDC00);
                    let c2 = char_from_u32(code);
                    proof {
                        assert(code as int == 0x10000
                            + (hex4_val(rem[2], rem[3], rem[4], rem[5]) - 0xD800) * 0x400
                            + (hex4_val(rem[8], rem[9], rem[10], rem[11]) - 0xDC00));
                        assert(((0x10000
                            + (hex4_val(rem[2], rem[3], rem[4], rem[5]) - 0xD800) * 0x400
                            + (hex4_val(rem[8], rem[9], rem[10], rem[11]) - 0xDC00)) as u32)
                            == code);
                        assert(rem.skip(12) =~= s@.skip(i + 12 as int));
                    }
                    acc.push(c2);
                    i = i + 12;
                } else {
                    return None;
                }
            } else {
                return None;
            }
        } else {
            let v32 = c as u32;
            if v32 < 32 {
                proof {
                    assert(char_val(rem[0]) < 32);
                }
                return None;
            }
            proof {
                assert(char_val(rem[0]) >= 32);
                assert(rem.skip(1) =~= s@.skip(i + 1 as int));
            }
            acc.push(c);
            i = i + 1;
        }
    }
}

/// Reads the members of the inner object from `start` (which must already
/// stand on the first flag's opening quote) up to the document's end.
fn parse_pairs_exec(s: &Vec<char>, start: usize) -> (r: Option<Vec<(String, String)>>)
    requires
        start <= s.len(),
    ensures
        match r {
            Some(entries) => keys_nonempty(seq_view(entries@))
                && parse_pairs(s@.skip(start as int), Seq::empty())
                    == Some(seq_view(entries@)),
            None => parse_pairs(s@.skip(start as int), Seq::empty())
                == None::<Seq<(Seq<char>, Seq<char>)>>,
        },
{
    let mut i: usize = start;
    let mut acc: Vec<(String, String)> = Vec::new();
    proof {
        assert(seq_view(acc@) =~= Seq::<(Seq<char>, Seq<char>)>::empty());
    }
    loop
        invariant
            start <= i <= s.len(),
            keys_nonempty(seq_view(acc@)),
            parse_pairs(s@.skip(start as int), Seq::empty())
                == parse_pairs(s@.skip(i as int), seq_view(acc@)),
        decreases s.len() - i,
    {
        let ghost rem = s@.skip(i as int);
        let ghost accv = seq_view(acc@);
        if i == s.len() {
            return None;
        }
        proof {
            assert(rem[0] == s@[i as int]);
        }
        if s[i] != '"' {
            return None;
        }
        let (kchars, j1) = match parse_string_exec(s, i + 1) {
            Some(p) => p,
            None => {
                proof {
                    assert(rem.skip(1) =~= s@.skip(i + 1 as int));
                }
                return None;
            },
        };
        proof {
            assert(rem.skip(1) =~= s@.skip(i + 1 as int));
        }
        if kchars.len() == 0 {
            return None;
        }
        let k = chars_to_string(&kchars);
        let p2 = skip_ws_exec(s, j1);
        if p2 == s.len() {
            return None;
        }
        proof {
            assert(s@.skip(p2 as int)[0] == s@[p2 as int]);
        }
        if s[p2] != ':' {
            return None;
        }
        proof {
            assert(s@.skip(p2 as int).skip(1) =~= s@.skip(p2 + 1 as int));
        }
        let p3 = skip_ws_exec(s, p2 + 1);
        if p3 == s.len() {
            return None;
        }
        proof {
            assert(s@.skip(p3 as int)[0] == s@[p3 as int]);
        }
        if s[p3] != '"' {
            return None;
        }
        let (vchars, j2) = match parse_string_exec(s, p3 + 1) {
            Some(p) => p,
            None => {
                proof {
                    assert(s@.skip(p3 as int).skip(1) =~= s@.skip(p3 + 1 as int));
                }
                return None;
            },
        };
        proof {
            assert(s@.skip(p3 as int).skip(1) =~= s@.skip(p3 + 1 as int));
        }
        let v = chars_to_string(&vchars);
        acc.push((k, v));
        proof {
            assert(seq_view(acc@) =~= accv.push((kchars@, vchars@)));
            assert(keys_nonempty(seq_view(acc@))) by {
                assert(forall|a: int|
                    0 <= a < accv.len() ==> #[trigger] seq_view(acc@)[a] == accv[a]);
                assert(seq_view(acc@).last().0 == kchars@);
            }
        }
        let p5 = skip_ws_exec(s, j2);
        if p5 == s.len() {
            return None;
        }
        proof {
            assert(s@.skip(p5 as int)[0] == s@[p5 as int]);
            assert(s@.skip(p5 as int).skip(1) =~= s@.skip(p5 + 1 as int));
        }
        if s[p5] == ',' {
            let p6 = skip_ws_exec(s, p5 + 1);
            i = p6;
        } else if s[p5] == '}' {
            if doc_end_exec(s, p5 + 1) {
                return Some(acc);
            } else {
                return None;
            }
        } else {
            return None;
        }
    }
}

impl MarkerStore {
    /// The JSON document this store is saved as.
    pub fn to_json(&self) -> (r: String)
        ensures
            r@ == spec_encode(self.entries_seq()),
    {
        let ghost es = self.entries_seq();
        let mut out: Vec<char> = Vec::new();
        out.push('{');
        out.push('"');
        out.push('m');
        out.push('a');
        out.push('p');
        out.push('"');
        out.push(':');
        out.push('{');
        proof {
            assert(out@ =~= doc_header() + enc_entries(es.take(0)));
        }
        let n = self.len();
        let mut i: usize = 0;
        while i < n
            invariant
                i <= n,
                n == self.entries_seq().len(),
                es == self.entries_seq(),
                out@ == doc_header() + enc_entries(es.take(i as int)),
            decreases n - i,
        {
            if i > 0 {
                out.push(',');
            }
            out.push('"');
            let pair = self.pair_at(i);
            push_escaped(&mut out, pair.0.as_str());
            out.push('"');
            out.push(':');
            out.push('"');
            push_escaped(&mut out, pair.1.as_str());
            out.push('"');
            proof {
                lemma_enc_entries_snoc(es.take(i as int), es[i as int]);
                assert(es.take(i + 1 as int) =~= es.take(i as int).push(es[i as int]));
                assert(out@ =~= doc_header() + enc_entries(es.take(i + 1 as int)));
            }
            i += 1;
        }
        out.push('}');
        out.push('}');
        proof {
            assert(es.take(n as int) =~= es);
            assert(out@ =~= spec_encode(es));
        }
        chars_to_string(&out)
    }

    /// The store a persisted JSON document describes: the mapping its `map`
    /// object's members denote, a later member under the same flag
    /// overriding an earlier one. Any document that does not parse yields
    /// the empty store rather than an error, so that a later save can still
    /// succeed.
    #[verifier::rlimit(100)]
    pub fn from_json(s: &str) -> (r: MarkerStore)
        ensures
            r.wf(),
            match spec_parse(s@) {
                Some(es) => r@ == map_of(es),
                None => r@ == Map::<Seq<char>, Seq<char>>::empty(),
            },
    {
        let cs = str_to_chars(s);
        proof {
            assert(cs@.skip(0) =~= cs@);
        }
        let p0 = skip_ws_exec(&cs, 0);
        if p0 == cs.len() {
            return MarkerStore::new();
        }
        proof {
            assert(cs@.skip(p0 as int)[0] == cs@[p0 as int]);
        }
        if cs[p0] != '{' {
            return MarkerStore::new();
        }
        proof {
            assert(cs@.skip(p0 as int).skip(1) =~= cs@.skip(p0 + 1 as int));
        }
        let p1 = skip_ws_exec(&cs, p0 + 1);
        if p1 == cs.len() {
            return MarkerStore::new();
        }
        proof {
            assert(cs@.skip(p1 as int)[0] == cs@[p1 as int]);
        }
        if cs[p1] != '"' {
            return MarkerStore::new();
        }
        proof {
            assert(cs@.skip(p1 as int).skip(1) =~= cs@.skip(p1 + 1 as int));
        }
        let (name, q1) = match parse_string_exec(&cs, p1 + 1) {
            Some(p) => p,
            None => { return MarkerStore::new(); },
        };
        if !(name.len() == 3 && name[0] == 'm' && name[1] == 'a' && name[2] == 'p') {
            proof {
                assert(name@ != seq!['m', 'a', 'p']);
            }
            return MarkerStore::new();
        }
        proof {
            assert(name@ =~= seq!['m', 'a', 'p']);
        }
        let q2 = skip_ws_exec(&cs, q1);
        if q2 == cs.len() {
            return MarkerStore::new();
        }
        proof {
            assert(cs@.skip(q2 as int)[0] == cs@[q2 as int]);
        }
        if cs[q2] != ':' {
            return MarkerStore::new();
        }
        proof {
            assert(cs@.skip(q2 as int).skip(1) =~= cs@.skip(q2 + 1 as int));
        }
        let q3 = skip_ws_exec(&cs, q2 + 1);
        if q3 == cs.len() {
            return MarkerStore::new();
        }
        proof {
            assert(cs@.skip(q3 as int)[0] == cs@[q3 as int]);
        }
        if cs[q3] != '{' {
            return MarkerStore::new();
        }
        proof {
            assert(cs@.skip(q3 as int).skip(1) =~= cs@.skip(q3 + 1 as int));
        }
        let q4 = skip_ws_exec(&cs, q3 + 1);
        if q4 < cs.len() {
            proof {
                assert(cs@.skip(q4 as int)[0] == cs@[q4 as int]);
                assert(cs@.skip(q4 as int).skip(1) =~= cs@.skip(q4 + 1 as int));
            }
            if cs[q4] == '}' {
                if doc_end_exec(&cs, q4 + 1) {
                    proof {
                        assert(map_of(Seq::<(Seq<char>, Seq<char>)>::empty())
                            =~= Map::<Seq<char>, Seq<char>>::empty());
                    }
                    return MarkerStore::new();
                } else {
                    return MarkerStore::new();
                }
            }
        }
        match parse_pairs_exec(&cs, q4) {
            Some(entries) => {
                let ghost evs = seq_view(entries@);
                let n = entries.len();
                let mut store = MarkerStore::new();
                let mut idx: usize = 0;
                while idx < n
                    invariant
                        idx <= n,
                        n == entries.len(),
                        evs == seq_view(entries@),
                        keys_nonempty(evs),
                        store.wf(),
                        store@ == map_of(evs.take(idx as int)),
                    decreases n - idx,
                {
                    proof {
                        assert(evs[idx as int]
                            == (entries@[idx as int].0@, entries@[idx as int].1@));
                    }
                    let flag = entries[idx].0.clone();
                    let directory = entries[idx].1.clone();
                    store.set(flag, directory);
                    proof {
                        assert(evs.take(idx + 1 as int).drop_last() =~= evs.take(idx as int));
                        assert(evs.take(idx + 1 as int).last() == evs[idx as int]);
                    }
                    idx += 1;
                }
                proof {
                    assert(evs.take(n as int) =~= evs);
                }
                store
            },
            None => MarkerStore::new(),
        }
    }
}

} // verus!
