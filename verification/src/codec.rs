//! The wire form of a protocol frame: a compact self-describing record with a
//! `type` discriminant plus the variant's fields, one frame per transport
//! message.
//!
//! Encoding is canonical: object keys in a fixed order, no interior
//! whitespace, strings escaped exactly as the peers emit them (the two-char
//! escapes for quote, backslash and the usual control abbreviations, and
//! `\u00` plus two lowercase hex digits for the remaining control
//! characters).  Decoding accepts precisely the canonical encodings and
//! rejects anything else, so a malformed frame is dropped, never mistaken for
//! a different message.

use vstd::prelude::*;
use vstd::string::*;
use crate::digits::{dec_char, dec_char_of, dec_digits, digit_run, digit_val, digit_val_exec, is_dec_digit, is_dec_digit_exec, lemma_digit_run_props, lemma_val_of_prefix_le, push_u64_decimal, val_of_digits};
use crate::protocol::{AgentMessage, MessageView};
use crate::strutil::push_char;

verus! {

/// The lowercase hexadecimal digit character for `n < 16`.
pub open spec fn hex_char(n: nat) -> char {
    if n < 10 {
        dec_char(n)
    } else if n == 10 {
        'a'
    } else if n == 11 {
        'b'
    } else if n == 12 {
        'c'
    } else if n == 13 {
        'd'
    } else if n == 14 {
        'e'
    } else {
        'f'
    }
}

/// How one character appears inside a quoted wire string.
pub open spec fn escaped_char(c: char) -> Seq<char> {
    if c == '"' {
        seq!['\\', '"']
    } else if c == '\\' {
        seq!['\\', '\\']
    } else if c == '\u{8}' {
        seq!['\\', 'b']
    } else if c == '\t' {
        seq!['\\', 't']
    } else if c == '\n' {
        seq!['\\', 'n']
    } else if c == '\u{c}' {
        seq!['\\', 'f']
    } else if c == '\r' {
        seq!['\\', 'r']
    } else if (c as u32) < 32 {
        seq!['\\', 'u', '0', '0', hex_char((c as u32 / 16) as nat), hex_char((c as u32 % 16) as nat)]
    } else {
        seq![c]
    }
}

/// A whole string body, escaped character by character.
pub open spec fn escaped(s: Seq<char>) -> Seq<char>
    decreases s.len(),
{
    if s.len() == 0 {
        Seq::empty()
    } else {
        escaped_char(s[0]) + escaped(s.drop_first())
    }
}

/// A string field as it appears on the wire: quoted and escaped.
pub open spec fn quoted(s: Seq<char>) -> Seq<char> {
    seq!['"'] + escaped(s) + seq!['"']
}

/// The canonical wire form of a frame.
pub open spec fn wire_view(m: MessageView) -> Seq<char> {
    match m {
        MessageView::Presence { agent_id } => "{\"type\":\"presence\",\"agent_id\":"@ + quoted(
            agent_id,
        ) + "}"@,
        MessageView::PresenceAck { agent_id } => "{\"type\":\"presence_ack\",\"agent_id\":"@
            + quoted(agent_id) + "}"@,
        MessageView::Ping { agent_id, seq } => "{\"type\":\"ping\",\"agent_id\":"@ + quoted(
            agent_id,
        ) + ",\"seq\":"@ + dec_digits(seq as nat) + "}"@,
        MessageView::Pong { agent_id, seq } => "{\"type\":\"pong\",\"agent_id\":"@ + quoted(
            agent_id,
        ) + ",\"seq\":"@ + dec_digits(seq as nat) + "}"@,
        MessageView::Text { agent_id, content } => "{\"type\":\"text\",\"agent_id\":"@ + quoted(
            agent_id,
        ) + ",\"content\":"@ + quoted(content) + "}"@,
        MessageView::Number { agent_id, value } => "{\"type\":\"number\",\"agent_id\":"@ + quoted(
            agent_id,
        ) + ",\"value\":"@ + dec_digits(value as nat) + "}"@,
    }
}

/// Escaping distributes over concatenation.
pub proof fn lemma_escaped_concat(a: Seq<char>, b: Seq<char>)
    ensures
        escaped(a + b) == escaped(a) + escaped(b),
    decreases a.len(),
{
    if a.len() == 0 {
        assert(a + b =~= b);
        assert(escaped(a) + escaped(b) =~= escaped(b));
    } else {
        assert((a + b).len() > 0);
        assert((a + b)[0] == a[0]);
        assert((a + b).drop_first() =~= a.drop_first() + b);
        lemma_escaped_concat(a.drop_first(), b);
        assert(escaped(a + b) =~= escaped(a) + escaped(b));
    }
}

/// Whether `c` is a digit of lowercase hexadecimal notation.
pub open spec fn is_hex_lower(c: char) -> bool {
    is_dec_digit(c) || 'a' as u32 <= c as u32 <= 'f' as u32
}

/// The value of a lowercase hexadecimal digit character.
pub open spec fn hex_val(c: char) -> nat {
    if is_dec_digit(c) {
        digit_val(c)
    } else {
        (c as u32 - 'a' as u32 + 10) as nat
    }
}

/// `hex_char` emits lowercase hexadecimal digits, and `hex_val` reads them
/// back.
pub proof fn lemma_hex_char_val(n: nat)
    requires
        n < 16,
    ensures
        is_hex_lower(hex_char(n)),
        hex_val(hex_char(n)) == n,
{
}

/// For a lowercase hexadecimal digit, `hex_char` of its value is the digit
/// itself.
pub proof fn lemma_hex_canonical(c: char)
    requires
        is_hex_lower(c),
    ensures
        hex_val(c) < 16,
        hex_char(hex_val(c)) == c,
{
    let v = hex_val(c);
    if v == 0 {
        crate::strutil::lemma_char_injective(c, '0');
    } else if v == 1 {
        crate::strutil::lemma_char_injective(c, '1');
    } else if v == 2 {
        crate::strutil::lemma_char_injective(c, '2');
    } else if v == 3 {
        crate::strutil::lemma_char_injective(c, '3');
    } else if v == 4 {
        crate::strutil::lemma_char_injective(c, '4');
    } else if v == 5 {
        crate::strutil::lemma_char_injective(c, '5');
    } else if v == 6 {
        crate::strutil::lemma_char_injective(c, '6');
    } else if v == 7 {
        crate::strutil::lemma_char_injective(c, '7');
    } else if v == 8 {
        crate::strutil::lemma_char_injective(c, '8');
    } else if v == 9 {
        crate::strutil::lemma_char_injective(c, '9');
    } else if v == 10 {
        crate::strutil::lemma_char_injective(c, 'a');
    } else if v == 11 {
        crate::strutil::lemma_char_injective(c, 'b');
    } else if v == 12 {
        crate::strutil::lemma_char_injective(c, 'c');
    } else if v == 13 {
        crate::strutil::lemma_char_injective(c, 'd');
    } else if v == 14 {
        crate::strutil::lemma_char_injective(c, 'e');
    } else {
        crate::strutil::lemma_char_injective(c, 'f');
    }
}

/// The code point of a character.
pub open spec fn char_code(c: char) -> u32 {
    c as u32
}

/// The character with code point `v`; meaningful only where some character
/// has that code.
pub open spec fn control_char(v: nat) -> char {
    choose|c: char| char_code(c) == v
}

/// Every code below 32 is the code of a character.
pub proof fn lemma_control_char_exists(v: nat)
    requires
        v < 32,
    ensures
        control_char(v) as u32 == v,
{
    if v == 0 {
        assert(char_code('\u{0}') == 0);
    } else if v == 1 {
        assert(char_code('\u{1}') == 1);
    } else if v == 2 {
        assert(char_code('\u{2}') == 2);
    } else if v == 3 {
        assert(char_code('\u{3}') == 3);
    } else if v == 4 {
        assert(char_code('\u{4}') == 4);
    } else if v == 5 {
        assert(char_code('\u{5}') == 5);
    } else if v == 6 {
        assert(char_code('\u{6}') == 6);
    } else if v == 7 {
        assert(char_code('\u{7}') == 7);
    } else if v == 8 {
        assert(char_code('\u{8}') == 8);
    } else if v == 9 {
        assert(char_code('\u{9}') == 9);
    } else if v == 10 {
        assert(char_code('\u{a}') == 10);
    } else if v == 11 {
        assert(char_code('\u{b}') == 11);
    } else if v == 12 {
        assert(char_code('\u{c}') == 12);
    } else if v == 13 {
        assert(char_code('\u{d}') == 13);
    } else if v == 14 {
        assert(char_code('\u{e}') == 14);
    } else if v == 15 {
        assert(char_code('\u{f}') == 15);
    } else if v == 16 {
        assert(char_code('\u{10}') == 16);
    } else if v == 17 {
        assert(char_code('\u{11}') == 17);
    } else if v == 18 {
        assert(char_code('\u{12}') == 18);
    } else if v == 19 {
        assert(char_code('\u{13}') == 19);
    } else if v == 20 {
        assert(char_code('\u{14}') == 20);
    } else if v == 21 {
        assert(char_code('\u{15}') == 21);
    } else if v == 22 {
        assert(char_code('\u{16}') == 22);
    } else if v == 23 {
        assert(char_code('\u{17}') == 23);
    } else if v == 24 {
        assert(char_code('\u{18}') == 24);
    } else if v == 25 {
        assert(char_code('\u{19}') == 25);
    } else if v == 26 {
        assert(char_code('\u{1a}') == 26);
    } else if v == 27 {
        assert(char_code('\u{1b}') == 27);
    } else if v == 28 {
        assert(char_code('\u{1c}') == 28);
    } else if v == 29 {
        assert(char_code('\u{1d}') == 29);
    } else if v == 30 {
        assert(char_code('\u{1e}') == 30);
    } else {
        assert(char_code('\u{1f}') == 31);
    }
    assert(exists|cc: char| char_code(cc) == v);
    assert(char_code(control_char(v)) == v);
}

/// The control codes that have a two-character escape of their own, so their
/// six-character form is not canonical.
pub open spec fn has_short_escape(v: nat) -> bool {
    v == 8 || v == 9 || v == 10 || v == 12 || v == 13
}

/// Reads one escape unit from the front of `t`: the character it denotes and
/// the number of wire characters it occupies.  Recognizes exactly the
/// canonical forms; a closing quote is not a unit.
pub open spec fn read_unit(t: Seq<char>) -> Option<(char, int)> {
    if t.len() == 0 {
        None
    } else if t[0] == '"' {
        None
    } else if t[0] == '\\' {
        if t.len() < 2 {
            None
        } else if t[1] == '"' {
            Some(('"', 2))
        } else if t[1] == '\\' {
            Some(('\\', 2))
        } else if t[1] == 'b' {
            Some(('\u{8}', 2))
        } else if t[1] == 't' {
            Some(('\t', 2))
        } else if t[1] == 'n' {
            Some(('\n', 2))
        } else if t[1] == 'f' {
            Some(('\u{c}', 2))
        } else if t[1] == 'r' {
            Some(('\r', 2))
        } else if t[1] == 'u' {
            if t.len() >= 6 && t[2] == '0' && t[3] == '0' && is_hex_lower(t[4]) && is_hex_lower(
                t[5],
            ) {
                let v = hex_val(t[4]) * 16 + hex_val(t[5]);
                if v < 32 && !has_short_escape(v) {
                    Some((control_char(v), 6))
                } else {
                    None
                }
            } else {
                None
            }
        } else {
            None
        }
    } else if (t[0] as u32) < 32 {
        None
    } else {
        Some((t[0], 1))
    }
}

/// Reading the escaped form of a character back yields that character.
pub proof fn lemma_read_unit_complete(c: char, rest: Seq<char>)
    ensures
        read_unit(escaped_char(c) + rest) == Some((c, escaped_char(c).len() as int)),
{
    let t = escaped_char(c) + rest;
    if c == '"' || c == '\\' || c == '\u{8}' || c == '\t' || c == '\n' || c == '\u{c}' || c
        == '\r' {
    } else if (c as u32) < 32 {
        let u = c as u32;
        let hi = (u / 16) as nat;
        let lo = (u % 16) as nat;
        assert(hi < 2 && lo < 16);
        lemma_hex_char_val(hi);
        lemma_hex_char_val(lo);
        assert(t[4] == hex_char(hi) && t[5] == hex_char(lo));
        let v = hex_val(t[4]) * 16 + hex_val(t[5]);
        assert(v == u) by {
            assert(hex_val(t[4]) == hi && hex_val(t[5]) == lo);
            assert(hi * 16 + lo == u) by (nonlinear_arith)
                requires
                    hi == u / 16,
                    lo == u % 16,
                    u < 32,
            ;
        }
        assert(!has_short_escape(v)) by {
            if v == 8 {
                crate::strutil::lemma_char_injective(c, '\u{8}');
            } else if v == 9 {
                crate::strutil::lemma_char_injective(c, '\t');
            } else if v == 10 {
                crate::strutil::lemma_char_injective(c, '\n');
            } else if v == 12 {
                crate::strutil::lemma_char_injective(c, '\u{c}');
            } else if v == 13 {
                crate::strutil::lemma_char_injective(c, '\r');
            }
        }
        assert(control_char(v) == c) by {
            assert(char_code(c) == v);
            assert(exists|cc: char| char_code(cc) == v);
            assert(char_code(control_char(v)) == v);
            crate::strutil::lemma_char_injective(control_char(v), c);
        }
    } else {
        assert(t[0] == c);
    }
}

/// What `read_unit` accepts is exactly the escaped form of the character it
/// returns.
pub proof fn lemma_read_unit_sound(t: Seq<char>)
    ensures
        read_unit(t) matches Some((c, k)) ==> 1 <= k <= t.len() && t.subrange(0, k)
            == escaped_char(c),
{
    if read_unit(t) matches Some((c, k)) {
        if t[0] == '\\' {
            if t[1] == 'u' {
                let v = hex_val(t[4]) * 16 + hex_val(t[5]);
                lemma_control_char_exists(v);
                let cc = control_char(v);
                assert(cc as u32 == v);
                assert(cc != '"' && cc != '\\') by {
                    assert('"' as u32 == 34 && '\\' as u32 == 92);
                }
                assert(cc != '\u{8}' && cc != '\t' && cc != '\n' && cc != '\u{c}' && cc != '\r')
                    by {
                    assert('\u{8}' as u32 == 8 && '\t' as u32 == 9 && '\n' as u32 == 10
                        && '\u{c}' as u32 == 12 && '\r' as u32 == 13);
                }
                let hi = (v / 16) as nat;
                let lo = (v % 16) as nat;
                assert(hi == hex_val(t[4]) && lo == hex_val(t[5])) by (nonlinear_arith)
                    requires
                        v == hex_val(t[4]) * 16 + hex_val(t[5]),
                        hex_val(t[5]) < 16,
                        hi == v / 16,
                        lo == v % 16,
                {
                }
                lemma_hex_canonical(t[4]);
                lemma_hex_canonical(t[5]);
                assert(escaped_char(cc) =~= seq!['\\', 'u', '0', '0', t[4], t[5]]);
                assert(t.subrange(0, 6) =~= seq!['\\', 'u', '0', '0', t[4], t[5]]);
            } else {
                assert(t.subrange(0, 2) =~= seq![t[0], t[1]]);
                if t[1] == '"' {
                    assert(escaped_char('"') =~= seq!['\\', '"']);
                } else if t[1] == '\\' {
                    assert(escaped_char('\\') =~= seq!['\\', '\\']);
                } else if t[1] == 'b' {
                    assert(escaped_char('\u{8}') =~= seq!['\\', 'b']);
                } else if t[1] == 't' {
                    assert(escaped_char('\t') =~= seq!['\\', 't']);
                } else if t[1] == 'n' {
                    assert(escaped_char('\n') =~= seq!['\\', 'n']);
                } else if t[1] == 'f' {
                    assert(escaped_char('\u{c}') =~= seq!['\\', 'f']);
                } else {
                    assert(escaped_char('\r') =~= seq!['\\', 'r']);
                }
            }
        } else {
            assert(t.subrange(0, 1) =~= seq![t[0]]);
            assert(escaped_char(t[0]) =~= seq![t[0]]);
        }
    }
}

/// Scans a quoted string body up to and including the closing quote,
/// returning the denoted content and the number of wire characters consumed.
pub open spec fn scan_quoted(t: Seq<char>) -> Option<(Seq<char>, int)>
    decreases t.len(),
{
    if t.len() == 0 {
        None
    } else if t[0] == '"' {
        Some((Seq::empty(), 1))
    } else {
        match read_unit(t) {
            Option::None => None,
            Option::Some((c, k)) => {
                if 1 <= k <= t.len() {
                    match scan_quoted(t.skip(k)) {
                        Option::None => None,
                        Option::Some((s, j)) => Some((seq![c] + s, k + j)),
                    }
                } else {
                    None
                }
            },
        }
    }
}

/// Scanning the escaped form of `s`, its closing quote, and anything after
/// yields exactly `s`.
pub proof fn lemma_scan_quoted_complete(s: Seq<char>, rest: Seq<char>)
    ensures
        scan_quoted(escaped(s) + seq!['"'] + rest) == Some((s, escaped(s).len() as int + 1)),
    decreases s.len(),
{
    let t = escaped(s) + seq!['"'] + rest;
    if s.len() == 0 {
        assert(escaped(s).len() == 0);
        assert(t[0] == '"');
        assert(scan_quoted(t) == Some((Seq::<char>::empty(), 1int)));
        assert(s =~= Seq::<char>::empty());
    } else {
        let c = s[0];
        let s1 = s.drop_first();
        let rest1 = escaped(s1) + seq!['"'] + rest;
        assert(escaped(s) == escaped_char(c) + escaped(s1));
        assert(t =~= escaped_char(c) + rest1);
        lemma_read_unit_complete(c, rest1);
        let k = escaped_char(c).len() as int;
        assert(read_unit(t) == Some((c, k)));
        assert(escaped_char(c).len() >= 1) by {
            lemma_escaped_char_len(c);
        }
        assert(t[0] != '"') by {
            lemma_escaped_char_head(c);
            assert(t[0] == escaped_char(c)[0]);
        }
        assert(t.skip(k) =~= rest1);
        lemma_scan_quoted_complete(s1, rest);
        assert(scan_quoted(t.skip(k)) == Some((s1, escaped(s1).len() as int + 1)));
        assert(seq![c] + s1 =~= s);
        assert(escaped(s).len() == k + escaped(s1).len());
    }
}

/// The escaped form of a character is never empty and never begins with a
/// quote.
pub proof fn lemma_escaped_char_len(c: char)
    ensures
        1 <= escaped_char(c).len() <= 6,
{
}

/// The first character of an escaped form is a backslash or the character
/// itself, never a quote.
pub proof fn lemma_escaped_char_head(c: char)
    ensures
        escaped_char(c)[0] != '"',
{
    if c == '"' || c == '\\' || c == '\u{8}' || c == '\t' || c == '\n' || c == '\u{c}' || c
        == '\r' {
    } else if (c as u32) < 32 {
    } else {
        assert(escaped_char(c)[0] == c);
        assert('"' as u32 == 34);
    }
}

/// What the scanner accepts is exactly a quoted form of what it returns.
pub proof fn lemma_scan_quoted_sound(t: Seq<char>)
    ensures
        scan_quoted(t) matches Some((s, k)) ==> 1 <= k <= t.len() && t.subrange(0, k) == escaped(s)
            + seq!['"'],
    decreases t.len(),
{
    if scan_quoted(t) is Some {
        let (s, k) = scan_quoted(t)->Some_0;
        if t[0] == '"' {
            assert(s =~= Seq::<char>::empty());
            assert(escaped(Seq::<char>::empty()) =~= Seq::<char>::empty());
            assert(t.subrange(0, 1) =~= seq![t[0]]);
            assert(escaped(s) + seq!['"'] =~= seq!['"']);
        } else {
            let (c, k0) = read_unit(t)->Some_0;
            lemma_read_unit_sound(t);
            lemma_scan_quoted_sound(t.skip(k0));
            let (s1, j) = scan_quoted(t.skip(k0))->Some_0;
            assert(s == seq![c] + s1 && k == k0 + j);
            assert(t.skip(k0).subrange(0, j) == escaped(s1) + seq!['"']);
            assert(escaped(s) == escaped_char(c) + escaped(s1)) by {
                assert(s[0] == c);
                assert(s.drop_first() =~= s1);
            }
            let lhs = t.subrange(0, k);
            let rhs = escaped(s) + seq!['"'];
            assert(k0 == escaped_char(c).len());
            assert(1 <= j <= t.skip(k0).len());
            assert(t.skip(k0).subrange(0, j).len() == j);
            assert((escaped(s1) + seq!['"']).len() == escaped(s1).len() + 1);
            assert(j == escaped(s1).len() + 1);
            assert(rhs.len() == k);
            assert forall|i: int| 0 <= i < k implies lhs[i] == rhs[i] by {
                assert(lhs[i] == t[i]);
                if i < k0 {
                    assert(rhs[i] == escaped_char(c)[i]);
                    assert(escaped_char(c)[i] == t.subrange(0, k0)[i]);
                    assert(t.subrange(0, k0)[i] == t[i]);
                } else {
                    assert(rhs[i] == (escaped(s1) + seq!['"'])[i - k0]);
                    assert((escaped(s1) + seq!['"'])[i - k0] == t.skip(k0).subrange(0, j)[i - k0]);
                    assert(t.skip(k0).subrange(0, j)[i - k0] == t.skip(k0)[i - k0]);
                    assert(t.skip(k0)[i - k0] == t[i]);
                }
            }
            assert(t.subrange(0, k) =~= escaped(s) + seq!['"']);
        }
    }
}

/// The lowercase hexadecimal digit character for a value below sixteen.
fn hex_char_of(d: u32) -> (c: char)
    requires
        d < 16,
    ensures
        c == hex_char(d as nat),
{
    if d < 10 {
        dec_char_of(d as u64)
    } else if d == 10 {
        'a'
    } else if d == 11 {
        'b'
    } else if d == 12 {
        'c'
    } else if d == 13 {
        'd'
    } else if d == 14 {
        'e'
    } else {
        'f'
    }
}

/// Appends the escaped form of one character to `out`.
fn push_escaped_char(out: &mut String, c: char)
    ensures
        final(out)@ == old(out)@ + escaped_char(c),
{
    if c == '"' {
        out.append("\\\"");
        proof {
            reveal_strlit("\\\"");
            assert(old(out)@ + "\\\""@ =~= old(out)@ + escaped_char(c));
        }
    } else if c == '\\' {
        out.append("\\\\");
        proof {
            reveal_strlit("\\\\");
            assert(old(out)@ + "\\\\"@ =~= old(out)@ + escaped_char(c));
        }
    } else if c == '\u{8}' {
        out.append("\\b");
        proof {
            reveal_strlit("\\b");
            assert(old(out)@ + "\\b"@ =~= old(out)@ + escaped_char(c));
        }
    } else if c == '\t' {
        out.append("\\t");
        proof {
            reveal_strlit("\\t");
            assert(old(out)@ + "\\t"@ =~= old(out)@ + escaped_char(c));
        }
    } else if c == '\n' {
        out.append("\\n");
        proof {
            reveal_strlit("\\n");
            assert(old(out)@ + "\\n"@ =~= old(out)@ + escaped_char(c));
        }
    } else if c == '\u{c}' {
        out.append("\\f");
        proof {
            reveal_strlit("\\f");
            assert(old(out)@ + "\\f"@ =~= old(out)@ + escaped_char(c));
        }
    } else if c == '\r' {
        out.append("\\r");
        proof {
            reveal_strlit("\\r");
            assert(old(out)@ + "\\r"@ =~= old(out)@ + escaped_char(c));
        }
    } else {
        let u = c as u32;
        if u < 32 {
            let ghost mid = out@;
            out.append("\\u00");
            push_char(out, hex_char_of(u / 16));
            push_char(out, hex_char_of(u % 16));
            proof {
                reveal_strlit("\\u00");
                assert(((old(out)@ + "\\u00"@).push(hex_char((u / 16) as nat))).push(
                    hex_char((u % 16) as nat),
                ) =~= old(out)@ + escaped_char(c));
            }
        } else {
            push_char(out, c);
            proof {
                assert(old(out)@.push(c) =~= old(out)@ + escaped_char(c));
            }
        }
    }
}

/// Appends a quoted, escaped string field to `out`.
fn push_quoted(out: &mut String, s: &str)
    ensures
        final(out)@ == old(out)@ + quoted(s@),
{
    push_char(out, '"');
    let n = s.unicode_len();
    let mut i: usize = 0;
    proof {
        assert(escaped(s@.subrange(0, 0)) =~= Seq::<char>::empty());
        assert(out@ =~= old(out)@ + seq!['"'] + escaped(s@.subrange(0, 0)));
    }
    while i < n
        invariant
            i <= n,
            n == s@.len(),
            out@ == old(out)@ + seq!['"'] + escaped(s@.subrange(0, i as int)),
        decreases n - i,
    {
        let c = s.get_char(i);
        push_escaped_char(out, c);
        proof {
            assert(s@.subrange(0, i + 1) =~= s@.subrange(0, i as int) + seq![s@[i as int]]);
            lemma_escaped_concat(s@.subrange(0, i as int), seq![s@[i as int]]);
            assert(seq![c].drop_first() =~= Seq::<char>::empty());
            assert(escaped(Seq::<char>::empty()) =~= Seq::<char>::empty());
            assert(escaped(seq![c]) =~= escaped_char(c));
            assert(out@ =~= old(out)@ + seq!['"'] + escaped(s@.subrange(0, i + 1)));
        }
        i = i + 1;
    }
    push_char(out, '"');
    proof {
        assert(s@.subrange(0, n as int) =~= s@);
        assert(out@ =~= old(out)@ + quoted(s@));
    }
}

/// The character with a control code: every value below 128 is a one-byte
/// Unicode scalar value.
fn char_from_control(v: u32) -> (c: char)
    requires
        v < 32,
    ensures
        c as u32 == v,
{
    let b = v as u8;
    b as char
}

/// Hexadecimal digit test, lowercase notation.
fn is_hex_lower_exec(c: char) -> (r: bool)
    ensures
        r == is_hex_lower(c),
{
    let u = c as u32;
    (48 <= u && u <= 57) || (97 <= u && u <= 102)
}

/// The value of a lowercase hexadecimal digit character.
fn hex_val_exec(c: char) -> (r: u32)
    requires
        is_hex_lower(c),
    ensures
        r == hex_val(c),
        r < 16,
{
    let u = c as u32;
    if u <= 57 {
        u - 48
    } else {
        u - 97 + 10
    }
}

/// Reads one escape unit starting at `i`, mirroring [`read_unit`].
fn read_unit_exec(v: &Vec<char>, i: usize) -> (r: Option<(char, usize)>)
    requires
        i <= v.len(),
    ensures
        match r {
            Option::Some((c, k)) => read_unit(v@.skip(i as int)) == Some((c, k as int)) && 1 <= k
                && i + k <= v@.len(),
            Option::None => read_unit(v@.skip(i as int)) is None,
        },
{
    let ghost t = v@.skip(i as int);
    if i == v.len() {
        return None;
    }
    let c0 = v[i];
    proof {
        assert(t[0] == c0);
    }
    if c0 == '"' {
        return None;
    }
    if c0 == '\\' {
        if i + 1 == v.len() {
            return None;
        }
        let c1 = v[i + 1];
        proof {
            assert(t[1] == c1);
        }
        if c1 == '"' {
            return Some(('"', 2));
        }
        if c1 == '\\' {
            return Some(('\\', 2));
        }
        if c1 == 'b' {
            return Some(('\u{8}', 2));
        }
        if c1 == 't' {
            return Some(('\t', 2));
        }
        if c1 == 'n' {
            return Some(('\n', 2));
        }
        if c1 == 'f' {
            return Some(('\u{c}', 2));
        }
        if c1 == 'r' {
            return Some(('\r', 2));
        }
        if c1 == 'u' {
            if v.len() - i < 6 {
                return None;
            }
            let c2 = v[i + 2];
            let c3 = v[i + 3];
            let c4 = v[i + 4];
            let c5 = v[i + 5];
            proof {
                assert(t[2] == c2 && t[3] == c3 && t[4] == c4 && t[5] == c5);
            }
            if c2 == '0' && c3 == '0' && is_hex_lower_exec(c4) && is_hex_lower_exec(c5) {
                let code = hex_val_exec(c4) * 16 + hex_val_exec(c5);
                if code < 32 && !(code == 8 || code == 9 || code == 10 || code == 12 || code
                    == 13) {
                    let c = char_from_control(code);
                    proof {
                        let vv = hex_val(t[4]) * 16 + hex_val(t[5]);
                        assert(vv == code);
                        assert(char_code(c) == vv);
                        assert(exists|cc: char| char_code(cc) == vv);
                        assert(char_code(control_char(vv)) == vv);
                        crate::strutil::lemma_char_injective(control_char(vv), c);
                    }
                    return Some((c, 6));
                }
            }
            return None;
        }
        return None;
    }
    if (c0 as u32) < 32 {
        return None;
    }
    Some((c0, 1))
}

/// Parses a quoted string field starting at `i`, mirroring [`scan_quoted`]
/// after the opening quote.
fn parse_quoted(v: &Vec<char>, i: usize) -> (r: Option<(String, usize)>)
    requires
        i <= v.len(),
    ensures
        r matches Some((s, k)) ==> i < k <= v@.len(),
        ({
            if i < v@.len() && v@[i as int] == '"' {
                match scan_quoted(v@.skip(i as int + 1)) {
                    Option::Some((s0, j)) => r matches Some((s, k)) && s@ == s0 && k as int == i + 1
                        + j,
                    Option::None => r is None,
                }
            } else {
                r is None
            }
        }),
{
    if i == v.len() {
        return None;
    }
    if v[i] != '"' {
        return None;
    }
    let mut out = String::new();
    let mut j: usize = i + 1;
    while j <= v.len()
        invariant
            i + 1 <= j <= v.len(),
            v@[i as int] == '"',
            i < v@.len(),
            match scan_quoted(v@.skip(j as int)) {
                Option::Some((s2, k2)) => scan_quoted(v@.skip(i as int + 1)) == Some(
                    (out@ + s2, j - i - 1 + k2),
                ),
                Option::None => scan_quoted(v@.skip(i as int + 1)) is None,
            },
        decreases v@.len() - j + 1,
    {
        let ghost t = v@.skip(j as int);
        if j == v.len() {
            proof {
                assert(t.len() == 0);
                assert(scan_quoted(t) is None);
            }
            return None;
        }
        let c = v[j];
        proof {
            assert(t[0] == c);
        }
        if c == '"' {
            proof {
                assert(scan_quoted(t) == Some((Seq::<char>::empty(), 1int)));
                assert(out@ + Seq::<char>::empty() =~= out@);
            }
            return Some((out, j + 1));
        }
        match read_unit_exec(v, j) {
            Option::None => {
                proof {
                    assert(scan_quoted(t) is None);
                }
                return None;
            },
            Option::Some((uc, k0)) => {
                proof {
                    let inner = scan_quoted(t.skip(k0 as int));
                    assert(t.skip(k0 as int) =~= v@.skip(j + k0));
                    match inner {
                        Option::Some((s3, k3)) => {
                            assert(scan_quoted(t) == Some((seq![uc] + s3, k0 + k3)));
                        },
                        Option::None => {
                            assert(scan_quoted(t) is None);
                        },
                    }
                }
                let ghost out0 = out@;
                push_char(&mut out, uc);
                proof {
                    match scan_quoted(v@.skip(j + k0)) {
                        Option::Some((s3, k3)) => {
                            assert(out@ + s3 =~= out0 + (seq![uc] + s3));
                        },
                        Option::None => {},
                    }
                }
                j = j + k0;
            },
        }
    }
    proof {
        assert(false);
    }
    None
}

/// Parses the canonical decimal notation of a `u64` starting at `i`.
fn parse_u64_at(v: &Vec<char>, i: usize) -> (r: Option<(u64, usize)>)
    requires
        i <= v.len(),
    ensures
        r matches Some((x, k)) ==> i < k <= v@.len(),
        ({
            let run = digit_run(v@.skip(i as int));
            if run.len() >= 1 && (run[0] != '0' || run.len() == 1) && val_of_digits(run)
                <= u64::MAX as nat {
                r == Some((val_of_digits(run) as u64, (i + run.len()) as usize))
            } else {
                r is None
            }
        }),
{
    let ghost t = v@.skip(i as int);
    let ghost run = digit_run(t);
    proof {
        lemma_digit_run_props(t);
        assert(forall|q: int| 0 <= q < run.len() ==> run[q] == #[trigger] t[q]);
        assert(forall|q: int| i <= q < i + run.len() ==> #[trigger] v@[q] == t[q - i]);
    }
    if i == v.len() || !is_dec_digit_exec(v[i]) {
        proof {
            if run.len() >= 1 {
                assert(run[0] == t[0] && t[0] == v@[i as int]);
            }
        }
        return None;
    }
    if v[i] == '0' && i + 1 < v.len() && is_dec_digit_exec(v[i + 1]) {
        proof {
            assert(t[0] == v@[i as int] && is_dec_digit(t[0]));
            assert(run.len() >= 1 && run[0] == '0');
            assert(run.len() >= 2) by {
                if run.len() == 1 {
                    assert(t[1] == v@[i + 1]);
                    assert(!is_dec_digit(t[run.len() as int]));
                }
            }
        }
        return None;
    }
    let mut k: usize = i;
    let mut x: u64 = 0;
    while k < v.len() && is_dec_digit_exec(v[k])
        invariant
            i <= k <= v.len(),
            i <= v.len(),
            t == v@.skip(i as int),
            run == digit_run(t),
            run.len() <= t.len(),
            forall|q: int| 0 <= q < run.len() ==> run[q] == #[trigger] t[q],
            forall|q: int| 0 <= q < run.len() ==> is_dec_digit(#[trigger] run[q]),
            run.len() == t.len() || !is_dec_digit(t[run.len() as int]),
            forall|q: int| i <= q < v@.len() ==> #[trigger] v@[q] == t[q - i],
            k - i <= run.len(),
            x == val_of_digits(run.subrange(0, k - i)),
        decreases v@.len() - k,
    {
        let d = digit_val_exec(v[k]);
        proof {
            assert(v@[k as int] == t[k - i]);
            assert(k - i < run.len()) by {
                if k - i == run.len() {
                    assert(run.len() < t.len());
                    assert(!is_dec_digit(t[run.len() as int]));
                }
            }
            assert(run.subrange(0, k - i + 1).drop_last() =~= run.subrange(0, k - i));
            assert(run.subrange(0, k - i + 1).last() == run[k - i]);
            assert(run[k - i] == t[k - i]);
            lemma_val_of_prefix_le(run, k - i + 1);
        }
        let xm = match x.checked_mul(10) {
            Option::Some(y) => y,
            Option::None => {
                proof {
                    assert(val_of_digits(run.subrange(0, k - i + 1)) > u64::MAX as nat);
                }
                return None;
            },
        };
        let xn = match xm.checked_add(d) {
            Option::Some(y) => y,
            Option::None => {
                proof {
                    assert(val_of_digits(run.subrange(0, k - i + 1)) > u64::MAX as nat);
                }
                return None;
            },
        };
        x = xn;
        k = k + 1;
    }
    proof {
        assert(k - i == run.len()) by {
            if k - i < run.len() {
                assert(run[k - i] == t[k - i]);
                assert(is_dec_digit(run[k - i]));
                assert(v@[k as int] == t[k - i]);
                assert(k < v@.len());
            }
        }
        assert(run.subrange(0, k - i) =~= run);
        assert(run[0] == t[0] && t[0] == v@[i as int]);
        assert(run[0] != '0' || run.len() == 1) by {
            if v@[i as int] == '0' {
                if run.len() >= 2 {
                    assert(run[1] == t[1] && t[1] == v@[i + 1]);
                    assert(is_dec_digit(run[1]));
                }
            }
        }
    }
    Some((x, k))
}

/// Checks that the characters of `lit` stand at position `i` of `v`.
fn expect_lit(v: &Vec<char>, i: usize, lit: &str) -> (r: Option<usize>)
    requires
        i <= v.len(),
    ensures
        ({
            let ok = i + lit@.len() <= v@.len() && v@.subrange(i as int, i + lit@.len()) == lit@;
            match r {
                Option::Some(j) => ok && j as int == i + lit@.len(),
                Option::None => !ok,
            }
        }),
{
    let n = lit.unicode_len();
    if v.len() - i < n {
        return None;
    }
    let mut j: usize = 0;
    while j < n
        invariant
            j <= n,
            n == lit@.len(),
            i + n <= v@.len(),
            v@.len() <= usize::MAX,
            forall|q: int| 0 <= q < j ==> v@[i + q] == lit@[q],
        decreases n - j,
    {
        if v[i + j] != lit.get_char(j) {
            proof {
                assert(v@.subrange(i as int, i + lit@.len())[j as int] == v@[i + j]);
            }
            return None;
        }
        j = j + 1;
    }
    proof {
        assert(v@.subrange(i as int, i + lit@.len()) =~= lit@);
    }
    Some(i + n)
}

/// A sequence splits into three parts at the given cut points.
proof fn lemma_cat3(v: Seq<char>, a: Seq<char>, b: Seq<char>, c: Seq<char>, p1: int, p2: int)
    requires
        0 <= p1 <= p2 <= v.len(),
        v.subrange(0, p1) == a,
        v.subrange(p1, p2) == b,
        v.subrange(p2, v.len() as int) == c,
    ensures
        v == a + b + c,
{
    assert(a.len() == p1 && b.len() == p2 - p1 && c.len() == v.len() - p2);
    assert forall|i: int| 0 <= i < v.len() implies v[i] == (a + b + c)[i] by {
        if i < p1 {
            assert(v.subrange(0, p1)[i] == v[i]);
        } else if i < p2 {
            assert(v.subrange(p1, p2)[i - p1] == v[i]);
        } else {
            assert(v.subrange(p2, v.len() as int)[i - p2] == v[i]);
        }
    }
    assert(v =~= a + b + c);
}

/// A sequence splits into five parts at the given cut points.
proof fn lemma_cat5(
    v: Seq<char>,
    a: Seq<char>,
    b: Seq<char>,
    c: Seq<char>,
    d: Seq<char>,
    e: Seq<char>,
    p1: int,
    p2: int,
    p3: int,
    p4: int,
)
    requires
        0 <= p1 <= p2 <= p3 <= p4 <= v.len(),
        v.subrange(0, p1) == a,
        v.subrange(p1, p2) == b,
        v.subrange(p2, p3) == c,
        v.subrange(p3, p4) == d,
        v.subrange(p4, v.len() as int) == e,
    ensures
        v == a + b + c + d + e,
{
    assert(a.len() == p1 && b.len() == p2 - p1 && c.len() == p3 - p2 && d.len() == p4 - p3
        && e.len() == v.len() - p4);
    assert forall|i: int| 0 <= i < v.len() implies v[i] == (a + b + c + d + e)[i] by {
        if i < p1 {
            assert(v.subrange(0, p1)[i] == v[i]);
        } else if i < p2 {
            assert(v.subrange(p1, p2)[i - p1] == v[i]);
        } else if i < p3 {
            assert(v.subrange(p2, p3)[i - p2] == v[i]);
        } else if i < p4 {
            assert(v.subrange(p3, p4)[i - p3] == v[i]);
        } else {
            assert(v.subrange(p4, v.len() as int)[i - p4] == v[i]);
        }
    }
    assert(v =~= a + b + c + d + e);
}

/// A prefix of a concatenation is the first part; the rest follows it.
proof fn lemma_skip_of_concat(v: Seq<char>, a: Seq<char>, x: Seq<char>, i: int)
    requires
        0 <= i,
        i + a.len() + x.len() == v.len(),
        v.skip(i) == a + x,
    ensures
        v.subrange(i, i + a.len() as int) == a,
        v.skip(i + a.len() as int) == x,
{
    assert forall|q: int| 0 <= q < a.len() implies v.subrange(i, i + a.len() as int)[q] == a[q] by {
        assert(v.subrange(i, i + a.len() as int)[q] == v[i + q]);
        assert(v[i + q] == v.skip(i)[q]);
        assert((a + x)[q] == a[q]);
    }
    assert(v.subrange(i, i + a.len() as int) =~= a);
    assert forall|q: int| 0 <= q < x.len() implies v.skip(i + a.len() as int)[q] == x[q] by {
        assert(v.skip(i + a.len() as int)[q] == v[i + a.len() + q]);
        assert(v[i + a.len() + q] == v.skip(i)[a.len() + q]);
        assert((a + x)[a.len() + q] == x[q]);
    }
    assert(v.skip(i + a.len() as int) =~= x);
}

/// Where a quoted field stands at position `i`, the scanner reads exactly it.
proof fn lemma_quoted_at(v: Seq<char>, i: int, s0: Seq<char>, rest: Seq<char>)
    requires
        0 <= i <= v.len(),
        v.skip(i) == quoted(s0) + rest,
    ensures
        i < v.len(),
        v[i] == '"',
        scan_quoted(v.skip(i + 1)) == Some((s0, escaped(s0).len() as int + 1)),
        i + quoted(s0).len() <= v.len(),
        v.skip(i + quoted(s0).len() as int) == rest,
{
    let q = quoted(s0) + rest;
    assert(v.skip(i).len() == q.len());
    assert(quoted(s0).len() == escaped(s0).len() + 2);
    assert(v[i] == v.skip(i)[0]);
    assert(q[0] == (seq!['"'] + escaped(s0) + seq!['"'])[0]);
    assert((seq!['"'] + escaped(s0) + seq!['"'])[0] == '"');
    let mid = escaped(s0) + seq!['"'] + rest;
    assert forall|k: int| 0 <= k < v.len() - i - 1 implies v.skip(i + 1)[k] == mid[k] by {
        assert(v.skip(i + 1)[k] == v[i + 1 + k]);
        assert(v[i + 1 + k] == v.skip(i)[1 + k]);
        let qq = seq!['"'] + escaped(s0) + seq!['"'];
        if 1 + k < qq.len() {
            assert(q[1 + k] == qq[1 + k]);
            if k < escaped(s0).len() {
                assert(qq[1 + k] == escaped(s0)[k]);
                assert(mid[k] == escaped(s0)[k]);
            } else {
                assert(qq[1 + k] == '"');
                assert(mid[k] == (escaped(s0) + seq!['"'])[k]);
                assert((escaped(s0) + seq!['"'])[k] == '"');
            }
        } else {
            assert(q[1 + k] == rest[1 + k - qq.len()]);
            assert(mid[k] == rest[k - escaped(s0).len() - 1]);
        }
    }
    assert(v.skip(i + 1) =~= mid);
    lemma_scan_quoted_complete(s0, rest);
    assert forall|k: int| 0 <= k < rest.len() implies v.skip(i + quoted(s0).len() as int)[k]
        == rest[k] by {
        assert(v.skip(i + quoted(s0).len() as int)[k] == v[i + quoted(s0).len() + k]);
        assert(v[i + quoted(s0).len() + k] == v.skip(i)[quoted(s0).len() + k]);
        assert(q[quoted(s0).len() + k] == rest[k]);
    }
    assert(v.skip(i + quoted(s0).len() as int) =~= rest);
}

/// What the scanner accepted at position `i` is a quoted field standing
/// there.
proof fn lemma_scan_to_quoted(v: Seq<char>, i: int, sv: Seq<char>, k: int)
    requires
        0 <= i < v.len(),
        v[i] == '"',
        i + 1 <= k <= v.len(),
        scan_quoted(v.skip(i + 1)) == Some((sv, k - i - 1)),
    ensures
        v.subrange(i, k) == quoted(sv),
        k == i + quoted(sv).len(),
{
    lemma_scan_quoted_sound(v.skip(i + 1));
    assert(v.skip(i + 1).subrange(0, k - i - 1) == escaped(sv) + seq!['"']);
    assert(k - i - 1 == escaped(sv).len() + 1);
    assert(quoted(sv).len() == escaped(sv).len() + 2);
    assert forall|q: int| 0 <= q < k - i implies v.subrange(i, k)[q] == quoted(sv)[q] by {
        assert(v.subrange(i, k)[q] == v[i + q]);
        let qq = seq!['"'] + escaped(sv) + seq!['"'];
        if q == 0 {
            assert(qq[0] == '"');
        } else {
            assert(v[i + q] == v.skip(i + 1)[q - 1]);
            assert(v.skip(i + 1)[q - 1] == v.skip(i + 1).subrange(0, k - i - 1)[q - 1]);
            assert((escaped(sv) + seq!['"'])[q - 1] == qq[q]);
        }
    }
    assert(v.subrange(i, k) =~= quoted(sv));
}

/// Parses a frame of the shape `lit` + quoted identity + `}`.
fn parse_tail_id(v: &Vec<char>, lit: &str) -> (r: Option<String>)
    ensures
        r matches Some(id) ==> v@ == lit@ + quoted(id@) + "}"@,
        forall|id0: Seq<char>| #![trigger quoted(id0)]
            v@ == lit@ + quoted(id0) + "}"@ ==> r is Some,
{
    let ghost hyp_holds = exists|id0: Seq<char>| v@ == lit@ + #[trigger] quoted(id0) + "}"@;
    let ghost gid: Seq<char> = if hyp_holds {
        choose|id0: Seq<char>| v@ == lit@ + #[trigger] quoted(id0) + "}"@
    } else {
        Seq::empty()
    };
    proof {
        if hyp_holds {
            assert(v@ =~= lit@ + (quoted(gid) + "}"@));
            assert(v@.skip(0) =~= v@);
            lemma_skip_of_concat(v@, lit@, quoted(gid) + "}"@, 0);
            lemma_quoted_at(v@, lit@.len() as int, gid, "}"@);
        }
    }
    let j = match expect_lit(v, 0, lit) {
        Option::Some(j) => j,
        Option::None => {
            proof {
                if hyp_holds {
                    assert(false);
                }
            }
            return None;
        },
    };
    let (id, k) = match parse_quoted(v, j) {
        Option::Some(p) => p,
        Option::None => {
            proof {
                if hyp_holds {
                    assert(false);
                }
            }
            return None;
        },
    };
    let k2 = match expect_lit(v, k, "}") {
        Option::Some(k2) => k2,
        Option::None => {
            proof {
                if hyp_holds {
                    assert(scan_quoted(v@.skip(j + 1)) == Some(
                        (gid, escaped(gid).len() as int + 1),
                    ));
                    assert(id@ == gid);
                    assert(k as int == lit@.len() + quoted(gid).len());
                    assert(v@.skip(k as int) == "}"@);
                    assert(v@.subrange(k as int, k + "}"@.len()) =~= "}"@);
                }
            }
            return None;
        },
    };
    if k2 != v.len() {
        proof {
            if hyp_holds {
                assert(id@ == gid);
                assert(k as int == lit@.len() + quoted(gid).len());
                assert(v@.len() == lit@.len() + quoted(gid).len() + 1);
            }
        }
        return None;
    }
    proof {
        lemma_scan_to_quoted(v@, j as int, id@, k as int);
        lemma_cat3(v@, lit@, quoted(id@), "}"@, j as int, k as int);
    }
    Some(id)
}

/// Where a frame of the decimal shape stands in `v`, each of its parts stands
/// at its place.
#[verifier::rlimit(100)]
proof fn lemma_u64_shape_at(v: Seq<char>, lit: Seq<char>, lit2: Seq<char>, gid: Seq<char>, gx: u64)
    requires
        v == lit + quoted(gid) + lit2 + dec_digits(gx as nat) + "}"@,
    ensures
        ({
            let p1 = lit.len() as int;
            let p2 = p1 + quoted(gid).len() as int;
            let p3 = p2 + lit2.len() as int;
            let p4 = p3 + dec_digits(gx as nat).len() as int;
            &&& v.len() == p4 + 1
            &&& p1 <= v.len() && v.subrange(0, p1) == lit
            &&& p1 < v.len() && v[p1] == '"'
            &&& scan_quoted(v.skip(p1 + 1)) == Some((gid, escaped(gid).len() as int + 1))
            &&& v.subrange(p2, p3) == lit2
            &&& digit_run(v.skip(p3)) == dec_digits(gx as nat)
            &&& dec_digits(gx as nat).len() >= 1
            &&& (dec_digits(gx as nat)[0] != '0' || dec_digits(gx as nat).len() == 1)
            &&& val_of_digits(dec_digits(gx as nat)) == gx as nat
            &&& v.subrange(p4, p4 + 1) == "}"@
        }),
{
    crate::digits::lemma_dec_digits_shape(gx as nat);
    crate::digits::lemma_val_of_dec_digits(gx as nat);
    assert(v =~= lit + (quoted(gid) + (lit2 + (dec_digits(gx as nat) + "}"@))));
    assert(v.skip(0) =~= v);
    lemma_skip_of_concat(v, lit, quoted(gid) + (lit2 + (dec_digits(gx as nat) + "}"@)), 0);
    lemma_quoted_at(v, lit.len() as int, gid, lit2 + (dec_digits(gx as nat) + "}"@));
    lemma_skip_of_concat(
        v,
        lit2,
        dec_digits(gx as nat) + "}"@,
        lit.len() + quoted(gid).len() as int,
    );
    let p3 = lit.len() + quoted(gid).len() + lit2.len() as int;
    lemma_skip_of_concat(v, dec_digits(gx as nat), "}"@, p3);
    assert("}"@.len() == 1 && !is_dec_digit("}"@[0])) by {
        reveal_strlit("}");
        assert("}"@[0] == '}');
    }
    crate::digits::lemma_digit_run_of_digits(dec_digits(gx as nat), "}"@);
    let p4 = p3 + dec_digits(gx as nat).len() as int;
    assert(v.skip(p4) == "}"@);
    assert forall|q: int| 0 <= q < 1 implies v.subrange(p4, p4 + 1)[q] == "}"@[q] by {
        assert(v.subrange(p4, p4 + 1)[q] == v[p4 + q]);
        assert(v.skip(p4)[q] == v[p4 + q]);
    }
    assert(v.subrange(p4, p4 + 1) =~= "}"@);
}

/// Parts parsed in sequence make up a frame of the decimal shape.
#[verifier::rlimit(100)]
proof fn lemma_u64_shape_build(
    v: Seq<char>,
    lit: Seq<char>,
    lit2: Seq<char>,
    idv: Seq<char>,
    x: u64,
    j: int,
    k: int,
    k2: int,
    k3: int,
)
    requires
        0 <= j < v.len(),
        v.subrange(0, j) == lit,
        v[j] == '"',
        j + 1 <= k <= v.len(),
        scan_quoted(v.skip(j + 1)) == Some((idv, k - j - 1)),
        k2 == k + lit2.len(),
        k2 <= v.len(),
        v.subrange(k, k2) == lit2,
        digit_run(v.skip(k2)).len() >= 1,
        digit_run(v.skip(k2))[0] != '0' || digit_run(v.skip(k2)).len() == 1,
        val_of_digits(digit_run(v.skip(k2))) == x as nat,
        k3 == k2 + digit_run(v.skip(k2)).len(),
        k3 + 1 == v.len(),
        v.subrange(k3, k3 + 1) == "}"@,
    ensures
        v == lit + quoted(idv) + lit2 + dec_digits(x as nat) + "}"@,
{
    lemma_scan_to_quoted(v, j, idv, k);
    let run = digit_run(v.skip(k2));
    lemma_digit_run_props(v.skip(k2));
    crate::digits::lemma_digits_canonical(run);
    assert(dec_digits(x as nat) == run);
    assert forall|q: int| 0 <= q < run.len() implies v.subrange(k2, k3)[q] == run[q] by {
        assert(v.subrange(k2, k3)[q] == v[k2 + q]);
        assert(v[k2 + q] == v.skip(k2)[q]);
        assert(v.skip(k2).subrange(0, run.len() as int)[q] == v.skip(k2)[q]);
    }
    assert(v.subrange(k2, k3) =~= dec_digits(x as nat));
    lemma_cat5(v, lit, quoted(idv), lit2, dec_digits(x as nat), "}"@, j, k, k2, k3);
}

/// Parses a frame of the shape `lit` + quoted identity + `lit2` + decimal +
/// `}`.
fn parse_tail_id_u64(v: &Vec<char>, lit: &str, lit2: &str) -> (r: Option<(String, u64)>)
    ensures
        r matches Some((id, x)) ==> v@ == lit@ + quoted(id@) + lit2@ + dec_digits(x as nat)
            + "}"@,
        forall|id0: Seq<char>, x0: u64| #![trigger quoted(id0), dec_digits(x0 as nat)]
            v@ == lit@ + quoted(id0) + lit2@ + dec_digits(x0 as nat) + "}"@ ==> r is Some,
{
    let ghost hyp_holds = exists|id0: Seq<char>, x0: u64|
        #![trigger quoted(id0), dec_digits(x0 as nat)]
        v@ == lit@ + quoted(id0) + lit2@ + dec_digits(x0 as nat) + "}"@;
    let ghost (gid, gx): (Seq<char>, u64) = if hyp_holds {
        choose|id0: Seq<char>, x0: u64|
            #![trigger quoted(id0), dec_digits(x0 as nat)]
            v@ == lit@ + quoted(id0) + lit2@ + dec_digits(x0 as nat) + "}"@
    } else {
        (Seq::empty(), 0u64)
    };
    proof {
        if hyp_holds {
            lemma_u64_shape_at(v@, lit@, lit2@, gid, gx);
        }
    }
    let j = match expect_lit(v, 0, lit) {
        Option::Some(j) => j,
        Option::None => {
            return None;
        },
    };
    let (id, k) = match parse_quoted(v, j) {
        Option::Some(p) => p,
        Option::None => {
            return None;
        },
    };
    let k2 = match expect_lit(v, k, lit2) {
        Option::Some(k2) => k2,
        Option::None => {
            proof {
                if hyp_holds {
                    assert(id@ == gid);
                    assert(k as int == lit@.len() + quoted(gid).len());
                }
            }
            return None;
        },
    };
    let (x, k3) = match parse_u64_at(v, k2) {
        Option::Some(p) => p,
        Option::None => {
            proof {
                if hyp_holds {
                    assert(id@ == gid);
                    assert(k2 as int == lit@.len() + quoted(gid).len() + lit2@.len() as int);
                    assert(digit_run(v@.skip(k2 as int)) == dec_digits(gx as nat));
                }
            }
            return None;
        },
    };
    let k4 = match expect_lit(v, k3, "}") {
        Option::Some(k4) => k4,
        Option::None => {
            proof {
                if hyp_holds {
                    assert(id@ == gid);
                    assert(k2 as int == lit@.len() + quoted(gid).len() + lit2@.len() as int);
                    assert(digit_run(v@.skip(k2 as int)) == dec_digits(gx as nat));
                    assert(k3 as int == k2 + dec_digits(gx as nat).len());
                }
            }
            return None;
        },
    };
    if k4 != v.len() {
        proof {
            if hyp_holds {
                assert(id@ == gid);
                assert(k2 as int == lit@.len() + quoted(gid).len() + lit2@.len() as int);
                assert(digit_run(v@.skip(k2 as int)) == dec_digits(gx as nat));
                assert(k3 as int == k2 + dec_digits(gx as nat).len());
                assert(v@.len() == k3 + 1);
            }
        }
        return None;
    }
    proof {
        reveal_strlit("}");
        let run = digit_run(v@.skip(k2 as int));
        lemma_digit_run_props(v@.skip(k2 as int));
        assert(v@.len() <= usize::MAX);
        assert(k3 as int == k2 + run.len());
        lemma_u64_shape_build(
            v@,
            lit@,
            lit2@,
            id@,
            x,
            j as int,
            k as int,
            k2 as int,
            k3 as int,
        );
    }
    Some((id, x))
}

/// Parses a frame of the shape `lit` + quoted identity + `lit2` + quoted
/// payload + `}`.
fn parse_tail_id_str(v: &Vec<char>, lit: &str, lit2: &str) -> (r: Option<(String, String)>)
    ensures
        r matches Some((id, c)) ==> v@ == lit@ + quoted(id@) + lit2@ + quoted(c@) + "}"@,
        forall|id0: Seq<char>, c0: Seq<char>| #![trigger quoted(id0), quoted(c0)]
            v@ == lit@ + quoted(id0) + lit2@ + quoted(c0) + "}"@ ==> r is Some,
{
    let ghost hyp_holds = exists|id0: Seq<char>, c0: Seq<char>|
        #![trigger quoted(id0), quoted(c0)]
        v@ == lit@ + quoted(id0) + lit2@ + quoted(c0) + "}"@;
    let ghost (gid, gc): (Seq<char>, Seq<char>) = if hyp_holds {
        choose|id0: Seq<char>, c0: Seq<char>|
            #![trigger quoted(id0), quoted(c0)]
            v@ == lit@ + quoted(id0) + lit2@ + quoted(c0) + "}"@
    } else {
        (Seq::empty(), Seq::empty())
    };
    proof {
        if hyp_holds {
            assert(v@ =~= lit@ + (quoted(gid) + (lit2@ + (quoted(gc) + "}"@))));
            assert(v@.skip(0) =~= v@);
            lemma_skip_of_concat(v@, lit@, quoted(gid) + (lit2@ + (quoted(gc) + "}"@)), 0);
            lemma_quoted_at(v@, lit@.len() as int, gid, lit2@ + (quoted(gc) + "}"@));
            lemma_skip_of_concat(
                v@,
                lit2@,
                quoted(gc) + "}"@,
                lit@.len() + quoted(gid).len() as int,
            );
            lemma_quoted_at(
                v@,
                lit@.len() + quoted(gid).len() + lit2@.len() as int,
                gc,
                "}"@,
            );
        }
    }
    let j = match expect_lit(v, 0, lit) {
        Option::Some(j) => j,
        Option::None => {
            proof {
                if hyp_holds {
                    assert(false);
                }
            }
            return None;
        },
    };
    let (id, k) = match parse_quoted(v, j) {
        Option::Some(p) => p,
        Option::None => {
            proof {
                if hyp_holds {
                    assert(false);
                }
            }
            return None;
        },
    };
    proof {
        if hyp_holds {
            assert(id@ == gid);
            assert(k as int == lit@.len() + quoted(gid).len());
        }
    }
    let k2 = match expect_lit(v, k, lit2) {
        Option::Some(k2) => k2,
        Option::None => {
            proof {
                if hyp_holds {
                    assert(v@.subrange(k as int, k + lit2@.len()) == lit2@);
                }
            }
            return None;
        },
    };
    let (c, k3) = match parse_quoted(v, k2) {
        Option::Some(p) => p,
        Option::None => {
            proof {
                if hyp_holds {
                    assert(k2 as int == lit@.len() + quoted(gid).len() + lit2@.len());
                }
            }
            return None;
        },
    };
    proof {
        if hyp_holds {
            assert(c@ == gc);
            assert(k3 as int == lit@.len() + quoted(gid).len() + lit2@.len() + quoted(gc).len());
        }
    }
    let k4 = match expect_lit(v, k3, "}") {
        Option::Some(k4) => k4,
        Option::None => {
            proof {
                if hyp_holds {
                    let p4: int = lit@.len() + quoted(gid).len() + lit2@.len() + quoted(gc).len() as int;
                    assert(v@.skip(p4) == "}"@);
                    assert(v@.subrange(p4, p4 + "}"@.len() as int) =~= "}"@);
                }
            }
            return None;
        },
    };
    if k4 != v.len() {
        proof {
            if hyp_holds {
                assert(v@.len() == lit@.len() + quoted(gid).len() + lit2@.len() + quoted(gc).len()
                    + 1);
            }
        }
        return None;
    }
    proof {
        lemma_scan_to_quoted(v@, j as int, id@, k as int);
        lemma_scan_to_quoted(v@, k2 as int, c@, k3 as int);
        lemma_cat5(
            v@,
            lit@,
            quoted(id@),
            lit2@,
            quoted(c@),
            "}"@,
            j as int,
            k as int,
            k2 as int,
            k3 as int,
        );
    }
    Some((id, c))
}

/// Two frames of the identity shape with the same wire form carry the same
/// identity.
proof fn lemma_id_shape_unambiguous(t: Seq<char>, lit: Seq<char>, a1: Seq<char>, a2: Seq<char>)
    requires
        t == lit + quoted(a1) + "}"@,
        t == lit + quoted(a2) + "}"@,
    ensures
        a1 == a2,
{
    assert(t =~= lit + (quoted(a1) + "}"@));
    assert(t.skip(0) =~= t);
    lemma_skip_of_concat(t, lit, quoted(a1) + "}"@, 0);
    lemma_quoted_at(t, lit.len() as int, a1, "}"@);
    assert(t =~= lit + (quoted(a2) + "}"@));
    lemma_skip_of_concat(t, lit, quoted(a2) + "}"@, 0);
    lemma_quoted_at(t, lit.len() as int, a2, "}"@);
}

/// Two frames of the decimal shape with the same wire form carry the same
/// identity and value.
proof fn lemma_u64_shape_unambiguous(
    t: Seq<char>,
    lit: Seq<char>,
    lit2: Seq<char>,
    a1: Seq<char>,
    x1: u64,
    a2: Seq<char>,
    x2: u64,
)
    requires
        t == lit + quoted(a1) + lit2 + dec_digits(x1 as nat) + "}"@,
        t == lit + quoted(a2) + lit2 + dec_digits(x2 as nat) + "}"@,
    ensures
        a1 == a2,
        x1 == x2,
{
    lemma_u64_shape_at(t, lit, lit2, a1, x1);
    lemma_u64_shape_at(t, lit, lit2, a2, x2);
    assert(a1 == a2);
    assert(digit_run(t.skip(lit.len() + quoted(a1).len() + lit2.len() as int)) == dec_digits(
        x1 as nat,
    ));
    assert(digit_run(t.skip(lit.len() + quoted(a2).len() + lit2.len() as int)) == dec_digits(
        x2 as nat,
    ));
    crate::digits::lemma_val_of_dec_digits(x1 as nat);
    crate::digits::lemma_val_of_dec_digits(x2 as nat);
}

/// Where a frame of the two-string shape stands in `v`, its quoted fields
/// stand at their places.
#[verifier::rlimit(100)]
proof fn lemma_str_shape_at(
    v: Seq<char>,
    lit: Seq<char>,
    lit2: Seq<char>,
    gid: Seq<char>,
    gc: Seq<char>,
)
    requires
        v == lit + quoted(gid) + lit2 + quoted(gc) + "}"@,
    ensures
        scan_quoted(v.skip(lit.len() as int + 1)) == Some((gid, escaped(gid).len() as int + 1)),
        scan_quoted(v.skip(lit.len() + quoted(gid).len() + lit2.len() as int + 1)) == Some(
            (gc, escaped(gc).len() as int + 1),
        ),
{
    assert(v =~= lit + (quoted(gid) + (lit2 + (quoted(gc) + "}"@))));
    assert(v.skip(0) =~= v);
    lemma_skip_of_concat(v, lit, quoted(gid) + (lit2 + (quoted(gc) + "}"@)), 0);
    lemma_quoted_at(v, lit.len() as int, gid, lit2 + (quoted(gc) + "}"@));
    lemma_skip_of_concat(v, lit2, quoted(gc) + "}"@, lit.len() + quoted(gid).len() as int);
    lemma_quoted_at(v, lit.len() + quoted(gid).len() + lit2.len() as int, gc, "}"@);
}

/// Two frames of the two-string shape with the same wire form carry the same
/// identity and payload.
proof fn lemma_str_shape_unambiguous(
    t: Seq<char>,
    lit: Seq<char>,
    lit2: Seq<char>,
    a1: Seq<char>,
    c1: Seq<char>,
    a2: Seq<char>,
    c2: Seq<char>,
)
    requires
        t == lit + quoted(a1) + lit2 + quoted(c1) + "}"@,
        t == lit + quoted(a2) + lit2 + quoted(c2) + "}"@,
    ensures
        a1 == a2,
        c1 == c2,
{
    lemma_str_shape_at(t, lit, lit2, a1, c1);
    lemma_str_shape_at(t, lit, lit2, a2, c2);
    assert(a1 == a2);
}

/// Law: the wire encoding is unambiguous.  Two frames with the same wire form
/// are the same frame, so a frame sent through [`encode_message`] and read
/// back through [`decode_message`] is received verbatim.
pub proof fn lemma_wire_unambiguous(m1: MessageView, m2: MessageView)
    requires
        wire_view(m1) == wire_view(m2),
    ensures
        m1 == m2,
{
    reveal_strlit("{\"type\":\"presence\",\"agent_id\":");
    reveal_strlit("{\"type\":\"presence_ack\",\"agent_id\":");
    reveal_strlit("{\"type\":\"ping\",\"agent_id\":");
    reveal_strlit("{\"type\":\"pong\",\"agent_id\":");
    reveal_strlit("{\"type\":\"text\",\"agent_id\":");
    reveal_strlit("{\"type\":\"number\",\"agent_id\":");
    let t = wire_view(m1);
    match (m1, m2) {
            (MessageView::Presence { agent_id: a1 }, MessageView::Presence { agent_id: a2 }) => {
                lemma_id_shape_unambiguous(t, "{\"type\":\"presence\",\"agent_id\":"@, a1, a2);
            },
            (MessageView::Presence { agent_id: a1 }, MessageView::PresenceAck { agent_id: a2 }) => {
                assert(t[17] == '\"');
                assert(t[17] == '_');
            },
            (MessageView::Presence { agent_id: a1 }, MessageView::Ping { agent_id: a2, seq: x2 }) => {
                assert(t[10] == 'r');
                assert(t[10] == 'i');
            },
            (MessageView::Presence { agent_id: a1 }, MessageView::Pong { agent_id: a2, seq: x2 }) => {
                assert(t[10] == 'r');
                assert(t[10] == 'o');
            },
            (MessageView::Presence { agent_id: a1 }, MessageView::Text { agent_id: a2, content: c2 }) => {
                assert(t[9] == 'p');
                assert(t[9] == 't');
            },
            (MessageView::Presence { agent_id: a1 }, MessageView::Number { agent_id: a2, value: x2 }) => {
                assert(t[9] == 'p');
                assert(t[9] == 'n');
            },
            (MessageView::PresenceAck { agent_id: a1 }, MessageView::Presence { agent_id: a2 }) => {
                assert(t[17] == '_');
                assert(t[17] == '\"');
            },
            (MessageView::PresenceAck { agent_id: a1 }, MessageView::PresenceAck { agent_id: a2 }) => {
                lemma_id_shape_unambiguous(t, "{\"type\":\"presence_ack\",\"agent_id\":"@, a1, a2);
            },
            (MessageView::PresenceAck { agent_id: a1 }, MessageView::Ping { agent_id: a2, seq: x2 }) => {
                assert(t[10] == 'r');
                assert(t[10] == 'i');
            },
            (MessageView::PresenceAck { agent_id: a1 }, MessageView::Pong { agent_id: a2, seq: x2 }) => {
                assert(t[10] == 'r');
                assert(t[10] == 'o');
            },
            (MessageView::PresenceAck { agent_id: a1 }, MessageView::Text { agent_id: a2, content: c2 }) => {
                assert(t[9] == 'p');
                assert(t[9] == 't');
            },
            (MessageView::PresenceAck { agent_id: a1 }, MessageView::Number { agent_id: a2, value: x2 }) => {
                assert(t[9] == 'p');
                assert(t[9] == 'n');
            },
            (MessageView::Ping { agent_id: a1, seq: x1 }, MessageView::Presence { agent_id: a2 }) => {
                assert(t[10] == 'i');
                assert(t[10] == 'r');
            },
            (MessageView::Ping { agent_id: a1, seq: x1 }, MessageView::PresenceAck { agent_id: a2 }) => {
                assert(t[10] == 'i');
                assert(t[10] == 'r');
            },
            (MessageView::Ping { agent_id: a1, seq: x1 }, MessageView::Ping { agent_id: a2, seq: x2 }) => {
                lemma_u64_shape_unambiguous(t, "{\"type\":\"ping\",\"agent_id\":"@, ",\"seq\":"@, a1, x1, a2, x2);
            },
            (MessageView::Ping { agent_id: a1, seq: x1 }, MessageView::Pong { agent_id: a2, seq: x2 }) => {
                assert(t[10] == 'i');
                assert(t[10] == 'o');
            },
            (MessageView::Ping { agent_id: a1, seq: x1 }, MessageView::Text { agent_id: a2, content: c2 }) => {
                assert(t[9] == 'p');
                assert(t[9] == 't');
            },
            (MessageView::Ping { agent_id: a1, seq: x1 }, MessageView::Number { agent_id: a2, value: x2 }) => {
                assert(t[9] == 'p');
                assert(t[9] == 'n');
            },
            (MessageView::Pong { agent_id: a1, seq: x1 }, MessageView::Presence { agent_id: a2 }) => {
                assert(t[10] == 'o');
                assert(t[10] == 'r');
            },
            (MessageView::Pong { agent_id: a1, seq: x1 }, MessageView::PresenceAck { agent_id: a2 }) => {
                assert(t[10] == 'o');
                assert(t[10] == 'r');
            },
            (MessageView::Pong { agent_id: a1, seq: x1 }, MessageView::Ping { agent_id: a2, seq: x2 }) => {
                assert(t[10] == 'o');
                assert(t[10] == 'i');
            },
            (MessageView::Pong { agent_id: a1, seq: x1 }, MessageView::Pong { agent_id: a2, seq: x2 }) => {
                lemma_u64_shape_unambiguous(t, "{\"type\":\"pong\",\"agent_id\":"@, ",\"seq\":"@, a1, x1, a2, x2);
            },
            (MessageView::Pong { agent_id: a1, seq: x1 }, MessageView::Text { agent_id: a2, content: c2 }) => {
                assert(t[9] == 'p');
                assert(t[9] == 't');
            },
            (MessageView::Pong { agent_id: a1, seq: x1 }, MessageView::Number { agent_id: a2, value: x2 }) => {
                assert(t[9] == 'p');
                assert(t[9] == 'n');
            },
            (MessageView::Text { agent_id: a1, content: c1 }, MessageView::Presence { agent_id: a2 }) => {
                assert(t[9] == 't');
                assert(t[9] == 'p');
            },
            (MessageView::Text { agent_id: a1, content: c1 }, MessageView::PresenceAck { agent_id: a2 }) => {
                assert(t[9] == 't');
                assert(t[9] == 'p');
            },
            (MessageView::Text { agent_id: a1, content: c1 }, MessageView::Ping { agent_id: a2, seq: x2 }) => {
                assert(t[9] == 't');
                assert(t[9] == 'p');
            },
            (MessageView::Text { agent_id: a1, content: c1 }, MessageView::Pong { agent_id: a2, seq: x2 }) => {
                assert(t[9] == 't');
                assert(t[9] == 'p');
            },
            (MessageView::Text { agent_id: a1, content: c1 }, MessageView::Text { agent_id: a2, content: c2 }) => {
                lemma_str_shape_unambiguous(t, "{\"type\":\"text\",\"agent_id\":"@, ",\"content\":"@, a1, c1, a2, c2);
            },
            (MessageView::Text { agent_id: a1, content: c1 }, MessageView::Number { agent_id: a2, value: x2 }) => {
                assert(t[9] == 't');
                assert(t[9] == 'n');
            },
            (MessageView::Number { agent_id: a1, value: x1 }, MessageView::Presence { agent_id: a2 }) => {
                assert(t[9] == 'n');
                assert(t[9] == 'p');
            },
            (MessageView::Number { agent_id: a1, value: x1 }, MessageView::PresenceAck { agent_id: a2 }) => {
                assert(t[9] == 'n');
                assert(t[9] == 'p');
            },
            (MessageView::Number { agent_id: a1, value: x1 }, MessageView::Ping { agent_id: a2, seq: x2 }) => {
                assert(t[9] == 'n');
                assert(t[9] == 'p');
            },
            (MessageView::Number { agent_id: a1, value: x1 }, MessageView::Pong { agent_id: a2, seq: x2 }) => {
                assert(t[9] == 'n');
                assert(t[9] == 'p');
            },
            (MessageView::Number { agent_id: a1, value: x1 }, MessageView::Text { agent_id: a2, content: c2 }) => {
                assert(t[9] == 'n');
                assert(t[9] == 't');
            },
            (MessageView::Number { agent_id: a1, value: x1 }, MessageView::Number { agent_id: a2, value: x2 }) => {
                lemma_u64_shape_unambiguous(t, "{\"type\":\"number\",\"agent_id\":"@, ",\"value\":"@, a1, x1, a2, x2);
            },
    }
}

/// Decodes a canonical wire frame; anything else is rejected, so one
/// malformed frame is dropped without disturbing the link.
pub fn decode_message(s: &str) -> (r: Option<AgentMessage>)
    ensures
        r matches Some(m) ==> s@ == wire_view(m@),
        forall|m: MessageView| s@ == #[trigger] wire_view(m) ==> r is Some,
{
    let v = crate::strutil::str_chars(s);
    proof {
        assert forall|m: MessageView| s@ == #[trigger] wire_view(m) implies v@ == wire_view(m) by {}
    }
    if let Option::Some(id) = parse_tail_id(&v, "{\"type\":\"presence\",\"agent_id\":") {
        proof {
            let m = MessageView::Presence { agent_id: id@ };
            assert(v@ == wire_view(m));
        }
        return Some(AgentMessage::Presence { agent_id: id });
    }
    if let Option::Some(id) = parse_tail_id(&v, "{\"type\":\"presence_ack\",\"agent_id\":") {
        proof {
            let m = MessageView::PresenceAck { agent_id: id@ };
            assert(v@ == wire_view(m));
        }
        return Some(AgentMessage::PresenceAck { agent_id: id });
    }
    if let Option::Some((id, x)) = parse_tail_id_u64(
        &v,
        "{\"type\":\"ping\",\"agent_id\":",
        ",\"seq\":",
    ) {
        proof {
            let m = MessageView::Ping { agent_id: id@, seq: x };
            assert(v@ == wire_view(m));
        }
        return Some(AgentMessage::Ping { agent_id: id, seq: x });
    }
    if let Option::Some((id, x)) = parse_tail_id_u64(
        &v,
        "{\"type\":\"pong\",\"agent_id\":",
        ",\"seq\":",
    ) {
        proof {
            let m = MessageView::Pong { agent_id: id@, seq: x };
            assert(v@ == wire_view(m));
        }
        return Some(AgentMessage::Pong { agent_id: id, seq: x });
    }
    if let Option::Some((id, c)) = parse_tail_id_str(
        &v,
        "{\"type\":\"text\",\"agent_id\":",
        ",\"content\":",
    ) {
        proof {
            let m = MessageView::Text { agent_id: id@, content: c@ };
            assert(v@ == wire_view(m));
        }
        return Some(AgentMessage::Text { agent_id: id, content: c });
    }
    if let Option::Some((id, x)) = parse_tail_id_u64(
        &v,
        "{\"type\":\"number\",\"agent_id\":",
        ",\"value\":",
    ) {
        proof {
            let m = MessageView::Number { agent_id: id@, value: x };
            assert(v@ == wire_view(m));
        }
        return Some(AgentMessage::Number { agent_id: id, value: x });
    }
    proof {
        assert forall|m: MessageView| s@ == #[trigger] wire_view(m) implies false by {
            match m {
                MessageView::Presence { agent_id } => {
                    assert(v@ == "{\"type\":\"presence\",\"agent_id\":"@ + quoted(agent_id) + "}"@);
                },
                MessageView::PresenceAck { agent_id } => {
                    assert(v@ == "{\"type\":\"presence_ack\",\"agent_id\":"@ + quoted(agent_id)
                        + "}"@);
                },
                MessageView::Ping { agent_id, seq } => {},
                MessageView::Pong { agent_id, seq } => {},
                MessageView::Text { agent_id, content } => {},
                MessageView::Number { agent_id, value } => {},
            }
        }
    }
    None
}

/// Encodes a frame into its canonical wire form.
pub fn encode_message(m: &AgentMessage) -> (r: String)
    ensures
        r@ == wire_view(m@),
{
    match m {
        AgentMessage::Presence { agent_id } => {
            let mut out = String::from_str("{\"type\":\"presence\",\"agent_id\":");
            push_quoted(&mut out, agent_id.as_str());
            out.append("}");
            proof {
                assert(out@ =~= wire_view(m@));
            }
            out
        },
        AgentMessage::PresenceAck { agent_id } => {
            let mut out = String::from_str("{\"type\":\"presence_ack\",\"agent_id\":");
            push_quoted(&mut out, agent_id.as_str());
            out.append("}");
            proof {
                assert(out@ =~= wire_view(m@));
            }
            out
        },
        AgentMessage::Ping { agent_id, seq } => {
            let mut out = String::from_str("{\"type\":\"ping\",\"agent_id\":");
            push_quoted(&mut out, agent_id.as_str());
            out.append(",\"seq\":");
            push_u64_decimal(&mut out, *seq);
            out.append("}");
            proof {
                assert(out@ =~= wire_view(m@));
            }
            out
        },
        AgentMessage::Pong { agent_id, seq } => {
            let mut out = String::from_str("{\"type\":\"pong\",\"agent_id\":");
            push_quoted(&mut out, agent_id.as_str());
            out.append(",\"seq\":");
            push_u64_decimal(&mut out, *seq);
            out.append("}");
            proof {
                assert(out@ =~= wire_view(m@));
            }
            out
        },
        AgentMessage::Text { agent_id, content } => {
            let mut out = String::from_str("{\"type\":\"text\",\"agent_id\":");
            push_quoted(&mut out, agent_id.as_str());
            out.append(",\"content\":");
            push_quoted(&mut out, content.as_str());
            out.append("}");
            proof {
                assert(out@ =~= wire_view(m@));
            }
            out
        },
        AgentMessage::Number { agent_id, value } => {
            let mut out = String::from_str("{\"type\":\"number\",\"agent_id\":");
            push_quoted(&mut out, agent_id.as_str());
            out.append(",\"value\":");
            push_u64_decimal(&mut out, *value);
            out.append("}");
            proof {
                assert(out@ =~= wire_view(m@));
            }
            out
        },
    }
}

} // verus!
