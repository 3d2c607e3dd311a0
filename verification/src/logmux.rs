//! Pure text arithmetic of the log multiplexer: how wide a line renders,
//! how a line is padded inside a card, which color state an SGR escape
//! leaves behind, how an `agent=path` argument splits, and how blank lines
//! are trimmed from a block.

use vstd::prelude::*;
use vstd::string::*;
use crate::strutil::{is_space, is_space_char, push_char, seq_views, str_chars, trim_of};

verus! {

/// The escape character that opens a terminal control sequence.
pub const ESCAPE_CHAR: char = '\u{1b}';

/// Whether `c` ends a terminal control sequence (the final byte range).
pub open spec fn is_csi_final(c: char) -> bool {
    '@' as u32 <= c as u32 <= '~' as u32
}

/// What `unicode_width::UnicodeWidthChar::width` returns: the character's
/// displayed width in columns, or nothing for a control character; a pure
/// function of the character.
pub uninterp spec fn unicode_width_of(c: char) -> Option<usize>;

/// Relies on `unicode_width::UnicodeWidthChar::width`: a pure lookup of the
/// character's displayed width in the Unicode tables; the crate's rules give
/// every single character a width of at most three columns, and the space is
/// a single-width ASCII character.
#[verifier::external_body]
pub fn char_width(c: char) -> (r: Option<usize>)
    ensures
        r == unicode_width_of(c),
        r matches Some(w) ==> w <= 3,
        c == ' ' ==> r == Some(1usize),
{
    unicode_width::UnicodeWidthChar::width(c)
}

/// The width a character contributes to a rendered line; control characters
/// contribute nothing.
pub open spec fn width0(c: char) -> nat {
    match unicode_width_of(c) {
        Option::Some(w) => w as nat,
        Option::None => 0,
    }
}

/// The widths of all characters summed, with no account of control
/// sequences; for a line without the escape character this is its rendered
/// width.
pub open spec fn widths_sum(s: Seq<char>) -> nat
    decreases s.len(),
{
    if s.len() == 0 {
        0
    } else {
        widths_sum(s.drop_last()) + width0(s.last())
    }
}

/// Width sums add over concatenation.
pub proof fn lemma_widths_sum_concat(a: Seq<char>, b: Seq<char>)
    ensures
        widths_sum(a + b) == widths_sum(a) + widths_sum(b),
    decreases b.len(),
{
    if b.len() == 0 {
        assert(a + b =~= a);
    } else {
        assert((a + b).drop_last() =~= a + b.drop_last());
        assert((a + b).last() == b.last());
        lemma_widths_sum_concat(a, b.drop_last());
    }
}

/// Without the escape character, the rendered width is the plain sum of the
/// character widths.
pub proof fn lemma_vw_no_escape(s: Seq<char>)
    requires
        !has_escape(s),
    ensures
        visible_width_of(s) == widths_sum(s),
{
    lemma_vw_from_no_escape(s, 0);
    assert(s.skip(0) =~= s);
}

proof fn lemma_vw_from_no_escape(s: Seq<char>, i: int)
    requires
        0 <= i <= s.len(),
        forall|j: int| 0 <= j < s.len() ==> s[j] != ESCAPE_CHAR,
    ensures
        visible_width_from(s, i) == widths_sum(s.skip(i)),
    decreases s.len() - i,
{
    if i >= s.len() {
        assert(s.skip(i) =~= Seq::<char>::empty());
    } else {
        lemma_vw_from_no_escape(s, i + 1);
        assert(s.skip(i) =~= seq![s[i]] + s.skip(i + 1));
        lemma_widths_sum_concat(seq![s[i]], s.skip(i + 1));
        assert(widths_sum(seq![s[i]]) == width0(s[i])) by {
            assert(seq![s[i]].drop_last() =~= Seq::<char>::empty());
            assert(widths_sum(Seq::<char>::empty()) == 0);
            assert(seq![s[i]].last() == s[i]);
        }
    }
}

/// The position right after the control sequence that starts at `i` (which
/// is just past the `[`): one past its final byte.
pub open spec fn csi_end(s: Seq<char>, i: int) -> int
    decreases s.len() - i,
{
    if i < 0 || i >= s.len() {
        s.len() as int
    } else if is_csi_final(s[i]) {
        i + 1
    } else {
        csi_end(s, i + 1)
    }
}

/// The end of a control sequence lies past where it starts.
pub proof fn lemma_csi_end_bounds(s: Seq<char>, i: int)
    requires
        0 <= i <= s.len(),
    ensures
        i <= csi_end(s, i) <= s.len(),
    decreases s.len() - i,
{
    if i < s.len() && !is_csi_final(s[i]) {
        lemma_csi_end_bounds(s, i + 1);
    }
}

/// The rendered width of the line from position `i` on: characters count
/// their displayed width, and control sequences count nothing.
pub open spec fn visible_width_from(s: Seq<char>, i: int) -> nat
    decreases s.len() - i, 1int,
    via visible_width_from_decreases
{
    if i < 0 || i >= s.len() {
        0
    } else if s[i] == ESCAPE_CHAR {
        if i + 1 < s.len() && s[i + 1] == '[' {
            visible_width_from(s, csi_end(s, i + 2))
        } else {
            visible_width_from(s, i + 1)
        }
    } else {
        width0(s[i]) + visible_width_from(s, i + 1)
    }
}

#[via_fn]
proof fn visible_width_from_decreases(s: Seq<char>, i: int) {
    if 0 <= i < s.len() && s[i] == ESCAPE_CHAR && i + 1 < s.len() && s[i + 1] == '[' {
        lemma_csi_end_bounds(s, i + 2);
    }
}

/// The rendered width of a whole line.
pub open spec fn visible_width_of(s: Seq<char>) -> nat {
    visible_width_from(s, 0)
}

/// The rendered width of a line, skipping terminal control sequences.
pub fn visible_width(line: &str) -> (r: usize)
    requires
        line@.len() <= usize::MAX,
    ensures
        r == (if visible_width_of(line@) <= usize::MAX {
            visible_width_of(line@)
        } else {
            usize::MAX as nat
        }),
{
    let v = str_chars(line);
    let mut width: usize = 0;
    let mut i: usize = 0;
    let mut saturated = false;
    while i < v.len()
        invariant
            i <= v@.len(),
            v@ == line@,
            v@.len() <= usize::MAX,
            !saturated ==> visible_width_of(v@) == width + visible_width_from(v@, i as int),
            saturated ==> width == usize::MAX && visible_width_of(v@) > usize::MAX,
        decreases v@.len() - i,
    {
        let c = v[i];
        if c == '\u{1b}' {
            if i + 1 < v.len() && v[i + 1] == '[' {
                let mut j = i + 2;
                while j < v.len() && !is_csi_final_exec(v[j])
                    invariant
                        i + 2 <= j <= v@.len(),
                        csi_end(v@, i + 2) == csi_end(v@, j as int),
                    decreases v@.len() - j,
                {
                    j = j + 1;
                }
                proof {
                    if j < v@.len() {
                        assert(csi_end(v@, j as int) == j + 1);
                    }
                }
                if j < v.len() {
                    i = j + 1;
                } else {
                    i = j;
                }
            } else {
                i = i + 1;
            }
        } else {
            let w = match char_width(c) {
                Option::Some(w) => w,
                Option::None => 0,
            };
            proof {
                assert(w == width0(v@[i as int]));
            }
            if !saturated {
                if width <= usize::MAX - w {
                    width = width + w;
                } else {
                    width = usize::MAX;
                    saturated = true;
                }
            }
            i = i + 1;
        }
    }
    if saturated {
        usize::MAX
    } else {
        width
    }
}

/// Final-byte test for control sequences.
fn is_csi_final_exec(c: char) -> (r: bool)
    ensures
        r == is_csi_final(c),
{
    let u = c as u32;
    64 <= u && u <= 126
}

/// Whether the line contains the escape character anywhere.
pub open spec fn has_escape(s: Seq<char>) -> bool {
    exists|i: int| 0 <= i < s.len() && s[i] == ESCAPE_CHAR
}

/// Whether the line already ends with the color-reset sequence.
pub open spec fn ends_with_reset(s: Seq<char>) -> bool {
    s.len() >= 4 && s.subrange(s.len() - 4, s.len() as int) == "\u{1b}[0m"@
}

/// Pads a line with spaces to the target rendered width; a line with colors
/// is reset first so the padding renders plain.  A line already at or past
/// the width is returned unchanged.
pub fn pad_to_width(line: &str, width: usize) -> (r: String)
    requires
        line@.len() + width <= usize::MAX,
    ensures
        visible_width_of(line@) >= width ==> r@ == line@,
        visible_width_of(line@) < width ==> r@ == line@ + (if has_escape(line@)
            && !ends_with_reset(line@) {
            "\u{1b}[0m"@
        } else {
            Seq::<char>::empty()
        }) + spaces((width - visible_width_of(line@)) as nat),
{
    let current = visible_width(line);
    if current >= width {
        return String::from_str(line);
    }
    let mut padded = String::from_str(line);
    let v = str_chars(line);
    let mut has_esc = false;
    let mut k: usize = 0;
    while k < v.len() && !has_esc
        invariant
            k <= v@.len(),
            v@ == line@,
            has_esc ==> has_escape(line@),
            !has_esc ==> forall|q: int| 0 <= q < k ==> v@[q] != ESCAPE_CHAR,
        decreases v@.len() - k,
    {
        if v[k] == '\u{1b}' {
            has_esc = true;
            proof {
                assert(v@[k as int] == ESCAPE_CHAR);
            }
        }
        k = k + 1;
    }
    proof {
        if !has_esc {
            assert(!has_escape(line@));
        }
        assert(has_esc == has_escape(line@));
    }
    let ends_reset = if v.len() >= 4 {
        v[v.len() - 4] == '\u{1b}' && v[v.len() - 3] == '[' && v[v.len() - 2] == '0' && v[v.len()
            - 1] == 'm'
    } else {
        false
    };
    proof {
        reveal_strlit("\u{1b}[0m");
        if v@.len() >= 4 {
            assert(ends_with_reset(line@) <==> (v@[v@.len() - 4] == '\u{1b}' && v@[v@.len() - 3]
                == '[' && v@[v@.len() - 2] == '0' && v@[v@.len() - 1] == 'm')) by {
                let suf = line@.subrange(line@.len() - 4, line@.len() as int);
                assert(suf.len() == 4);
                assert(suf[0] == v@[v@.len() - 4] && suf[1] == v@[v@.len() - 3] && suf[2]
                    == v@[v@.len() - 2] && suf[3] == v@[v@.len() - 1]);
                if suf[0] == '\u{1b}' && suf[1] == '[' && suf[2] == '0' && suf[3] == 'm' {
                    assert(suf =~= "\u{1b}[0m"@);
                }
            }
        }
    }
    let ghost mid0 = padded@;
    if has_esc && !ends_reset {
        padded.append("\u{1b}[0m");
    }
    let ghost mid = padded@;
    let mut left = width - current;
    proof {
        assert(spaces(0) =~= Seq::<char>::empty());
        assert(padded@ =~= mid + spaces(0));
    }
    while left > 0
        invariant
            padded@ == mid + spaces(((width - current) - left) as nat),
            left <= width - current <= width,
            current == visible_width_of(line@),
        decreases left,
    {
        push_char(&mut padded, ' ');
        proof {
            assert(spaces(((width - current) - left + 1) as nat) =~= spaces(
                ((width - current) - left) as nat,
            ).push(' '));
        }
        left = left - 1;
    }
    padded
}

/// A run of spaces.
pub open spec fn spaces(n: nat) -> Seq<char>
    decreases n,
{
    if n == 0 {
        Seq::empty()
    } else {
        spaces((n - 1) as nat).push(' ')
    }
}

/// The color state an SGR escape sequence leaves active: a sequence that is
/// not an SGR one changes nothing; a reset (an empty body, or any
/// `;`-separated part equal to `0`) clears the state; any other SGR sequence
/// replaces it.
pub open spec fn sgr_after(seq_text: Seq<char>, active: Seq<char>) -> Seq<char> {
    if seq_text.len() == 0 || seq_text.last() != 'm' {
        active
    } else {
        let body = strip_m_suffix(strip_esc_prefix(seq_text));
        if body.len() == 0 || has_zero_part(body) {
            Seq::empty()
        } else {
            seq_text
        }
    }
}

/// The text with every leading `ESC [` pair removed.
pub open spec fn strip_esc_prefix(s: Seq<char>) -> Seq<char>
    decreases s.len(),
{
    if s.len() >= 2 && s[0] == ESCAPE_CHAR && s[1] == '[' {
        strip_esc_prefix(s.skip(2))
    } else {
        s
    }
}

/// The text with every trailing `m` removed.
pub open spec fn strip_m_suffix(s: Seq<char>) -> Seq<char>
    decreases s.len(),
{
    if s.len() >= 1 && s.last() == 'm' {
        strip_m_suffix(s.drop_last())
    } else {
        s
    }
}

/// Whether some `;`-separated part of the body is exactly `0`.
pub open spec fn has_zero_part(b: Seq<char>) -> bool {
    exists|p: int|
        0 <= p < b.len() && #[trigger] b[p] == '0' && (p == 0 || b[p - 1] == ';') && (p + 1
            == b.len() || b[p + 1] == ';')
}

/// Applies one escape sequence to the active color state.
#[verifier::rlimit(50)]
pub fn update_sgr_state(seq_text: &str, active: &mut String)
    ensures
        final(active)@ == sgr_after(seq_text@, old(active)@),
{
    let v = str_chars(seq_text);
    if v.len() == 0 || v[v.len() - 1] != 'm' {
        return ;
    }
    let mut f: usize = 0;
    proof {
        assert(v@.skip(0) =~= v@);
    }
    while v.len() - f > 1 && v[f] == '\u{1b}' && v[f + 1] == '['
        invariant
            f <= v@.len(),
            v@ == seq_text@,
            strip_esc_prefix(v@) == strip_esc_prefix(v@.skip(f as int)),
        decreases v@.len() - f,
    {
        proof {
            assert(v@.skip(f as int)[0] == v@[f as int]);
            assert(v@.skip(f as int)[1] == v@[f + 1]);
            assert(v@.skip(f as int).skip(2) =~= v@.skip(f + 2));
        }
        f = f + 2;
    }
    proof {
        let t = v@.skip(f as int);
        assert(!(t.len() >= 2 && t[0] == ESCAPE_CHAR && t[1] == '[')) by {
            if t.len() >= 2 {
                assert(v@.len() - f > 1);
                assert(t[0] == v@[f as int] && t[1] == v@[f + 1]);
            }
        }
        assert(strip_esc_prefix(v@) == v@.skip(f as int));
    }
    let mut b: usize = v.len();
    proof {
        assert(v@.skip(f as int).subrange(0, (v@.len() - f) as int) =~= v@.skip(f as int));
        assert(strip_m_suffix(v@.skip(f as int)) == strip_m_suffix(
            v@.skip(f as int).subrange(0, (b - f) as int),
        ));
    }
    while b > f && v[b - 1] == 'm'
        invariant
            f <= b <= v@.len(),
            v@ == seq_text@,
            strip_m_suffix(v@.skip(f as int)) == strip_m_suffix(
                v@.skip(f as int).subrange(0, (b - f) as int),
            ),
        decreases b,
    {
        proof {
            let t = v@.skip(f as int).subrange(0, (b - f) as int);
            assert(t.len() == b - f);
            assert(t.last() == v@[b - 1]);
            assert(t.drop_last() =~= v@.skip(f as int).subrange(0, (b - 1 - f) as int));
        }
        b = b - 1;
    }
    proof {
        let t = v@.skip(f as int).subrange(0, (b - f) as int);
        if t.len() >= 1 {
            assert(t.last() == v@[b - 1]);
        }
        assert(strip_m_suffix(v@.skip(f as int)) == t);
    }
    let ghost body = strip_m_suffix(strip_esc_prefix(seq_text@));
    proof {
        assert(body == v@.skip(f as int).subrange(0, (b - f) as int));
        assert(body.len() == b - f);
        assert(forall|q: int| 0 <= q < body.len() ==> #[trigger] body[q] == v@[f + q]);
    }
    let mut zero = false;
    let mut p: usize = f;
    while p < b
        invariant
            f <= p <= b <= v@.len(),
            v@ == seq_text@,
            body == strip_m_suffix(strip_esc_prefix(seq_text@)),
            body.len() == b - f,
            forall|q: int| 0 <= q < body.len() ==> #[trigger] body[q] == v@[f + q],
            zero == exists|q: int|
                0 <= q < p - f && #[trigger] body[q] == '0' && (q == 0 || body[q - 1] == ';') && (
                q + 1 == body.len() || body[q + 1] == ';'),
        decreases b - p,
    {
        if v[p] == '0' {
            let left_ok = p == f || v[p - 1] == ';';
            let right_ok = p + 1 == b || v[p + 1] == ';';
            if left_ok && right_ok && !zero {
                zero = true;
                proof {
                    let q = p - f;
                    assert(body[q] == v@[f + q]);
                    assert(f + q == p);
                    assert(body[q] == '0');
                    if q != 0 {
                        assert(body[q - 1] == v@[f + (q - 1)]);
                        assert(f + (q - 1) == p - 1);
                    }
                    if q + 1 != body.len() {
                        assert(body[q + 1] == v@[f + (q + 1)]);
                        assert(f + (q + 1) == p + 1);
                    }
                }
            }
        }
        proof {
            let q = p - f;
            assert(body[q] == v@[f + q]);
            assert(f + q == p);
        }
        p = p + 1;
    }
    proof {
        assert(zero == has_zero_part(body));
    }
    if b == f || zero {
        let empty = String::new();
        *active = empty;
    } else {
        *active = String::from_str(seq_text);
    }
}

/// Splits a multiplexer argument of the form `agent=path` or `agent:path` at
/// the first separator; `=` wins over `:`.
pub fn parse_arg(arg: &str) -> (r: Option<(String, String)>)
    ensures
        ({
            let ie = first_index(arg@, '=');
            let ic = first_index(arg@, ':');
            if ie < arg@.len() {
                r matches Some((l, x)) && l@ == arg@.subrange(0, ie) && x@ == arg@.subrange(
                    ie + 1,
                    arg@.len() as int,
                )
            } else if ic < arg@.len() {
                r matches Some((l, x)) && l@ == arg@.subrange(0, ic) && x@ == arg@.subrange(
                    ic + 1,
                    arg@.len() as int,
                )
            } else {
                r is None
            }
        }),
{
    match split_once_at(arg, '=') {
        Option::Some(p) => Some(p),
        Option::None => split_once_at(arg, ':'),
    }
}

/// The position of the first occurrence of `c`, or the length if there is
/// none.
pub open spec fn first_index(s: Seq<char>, c: char) -> int
    decreases s.len(),
{
    if s.len() == 0 {
        0
    } else if s[0] == c {
        0
    } else {
        1 + first_index(s.drop_first(), c)
    }
}

/// The first occurrence is where the scan finds it.
pub proof fn lemma_first_index_at(s: Seq<char>, c: char, i: int)
    requires
        0 <= i <= s.len(),
        forall|j: int| 0 <= j < i ==> s[j] != c,
        i < s.len() ==> s[i] == c,
    ensures
        first_index(s, c) == (if i < s.len() {
            i
        } else {
            s.len() as int
        }),
    decreases s.len(),
{
    if s.len() > 0 {
        if i == 0 {
        } else {
            assert(s[0] != c);
            assert(forall|j: int| 0 <= j < i - 1 ==> s.drop_first()[j] == s[j + 1]);
            if i < s.len() {
                assert(s.drop_first()[i - 1] == s[i]);
            }
            lemma_first_index_at(s.drop_first(), c, i - 1);
        }
    }
}

/// Splits at the first occurrence of one separator character.
fn split_once_at(s: &str, sep: char) -> (r: Option<(String, String)>)
    ensures
        ({
            let i = first_index(s@, sep);
            if i < s@.len() {
                r matches Some((l, x)) && l@ == s@.subrange(0, i) && x@ == s@.subrange(
                    i + 1,
                    s@.len() as int,
                )
            } else {
                r is None
            }
        }),
{
    let n = s.unicode_len();
    let mut i: usize = 0;
    while i < n
        invariant
            i <= n,
            n == s@.len(),
            forall|j: int| 0 <= j < i ==> s@[j] != sep,
        decreases n - i,
    {
        if s.get_char(i) == sep {
            proof {
                lemma_first_index_at(s@, sep, i as int);
            }
            let left = s.substring_char(0, i);
            let right = s.substring_char(i + 1, n);
            return Some((String::from_str(left), String::from_str(right)));
        }
        i = i + 1;
    }
    proof {
        lemma_first_index_at(s@, sep, n as int);
    }
    None
}

/// A block of lines with the blank lines at both ends removed; a line is
/// blank when trimming leaves nothing.
pub open spec fn trim_blank_lines(ls: Seq<Seq<char>>) -> Seq<Seq<char>>
    decreases ls.len(),
{
    if ls.len() == 0 {
        ls
    } else if trim_of(ls[0]).len() == 0 {
        trim_blank_lines(ls.drop_first())
    } else if trim_of(ls[ls.len() - 1]).len() == 0 {
        trim_blank_lines(ls.drop_last())
    } else {
        ls
    }
}

/// Removes the blank lines at both ends of a block.
pub fn trim_empty_lines(lines: &Vec<String>) -> (r: Vec<String>)
    ensures
        seq_views(r@) == trim_blank_lines(seq_views(lines@)),
{
    let ghost ls = seq_views(lines@);
    proof {
        assert(forall|j: int| 0 <= j < lines@.len() ==> ls[j] == #[trigger] lines@[j]@);
    }
    let mut start: usize = 0;
    let mut end: usize = lines.len();
    proof {
        assert(ls.subrange(0, ls.len() as int) =~= ls);
    }
    while start < end && crate::strutil::trim_str(lines[start].as_str()).unicode_len() == 0
        invariant
            start <= end <= lines@.len(),
            ls == seq_views(lines@),
            ls.len() == lines@.len(),
            forall|j: int| 0 <= j < lines@.len() ==> ls[j] == #[trigger] lines@[j]@,
            trim_blank_lines(ls) == trim_blank_lines(ls.subrange(start as int, end as int)),
            end == lines@.len(),
        decreases end - start,
    {
        proof {
            let t = ls.subrange(start as int, end as int);
            assert(t[0] == ls[start as int]);
            assert(trim_of(t[0]).len() == 0);
            assert(t.drop_first() =~= ls.subrange(start + 1, end as int));
        }
        start = start + 1;
    }
    while end > start && crate::strutil::trim_str(lines[end - 1].as_str()).unicode_len() == 0
        invariant
            start <= end <= lines@.len(),
            ls == seq_views(lines@),
            ls.len() == lines@.len(),
            forall|j: int| 0 <= j < lines@.len() ==> ls[j] == #[trigger] lines@[j]@,
            trim_blank_lines(ls) == trim_blank_lines(ls.subrange(start as int, end as int)),
            start < end ==> trim_of(ls[start as int]).len() != 0,
        decreases end,
    {
        proof {
            let t = ls.subrange(start as int, end as int);
            assert(t[0] == ls[start as int]);
            assert(t[t.len() - 1] == ls[end - 1]);
            assert(trim_of(t[t.len() - 1]).len() == 0);
            assert(t.drop_last() =~= ls.subrange(start as int, end - 1));
        }
        end = end - 1;
    }
    proof {
        let t = ls.subrange(start as int, end as int);
        if t.len() > 0 {
            assert(t[0] == ls[start as int]);
            assert(t[t.len() - 1] == ls[end - 1]);
            assert(trim_of(t[0]).len() != 0);
            assert(trim_of(t[t.len() - 1]).len() != 0);
        }
        assert(trim_blank_lines(t) == t);
    }
    let mut r: Vec<String> = Vec::new();
    let mut i: usize = start;
    while i < end
        invariant
            start <= i <= end <= lines@.len(),
            r@.len() == i - start,
            forall|j: int| 0 <= j < i - start ==> r@[j]@ == #[trigger] lines@[start + j]@,
        decreases end - i,
    {
        r.push(lines[i].clone());
        i = i + 1;
    }
    proof {
        assert(seq_views(r@).len() == end - start);
        assert forall|j: int| 0 <= j < r@.len() implies seq_views(r@)[j] == ls.subrange(
            start as int,
            end as int,
        )[j] by {
            assert(seq_views(r@)[j] == r@[j]@);
            assert(r@[j]@ == lines@[start + j]@);
            assert(ls[start + j] == lines@[start + j]@);
        }
        assert(seq_views(r@) =~= ls.subrange(start as int, end as int));
    }
    r
}

/// Concatenation of a list of chunks.
pub open spec fn concat_all(qs: Seq<Seq<char>>) -> Seq<char>
    decreases qs.len(),
{
    if qs.len() == 0 {
        Seq::empty()
    } else {
        concat_all(qs.drop_last()) + qs.last()
    }
}

/// Breaks one overlong word into chunks bounded by the rendered width.
/// Every character of the word, control sequences included, appears in some
/// chunk, in order, and no chunk is empty.
pub fn split_word(word: &str, width: usize) -> (r: Vec<String>)
    requires
        width <= usize::MAX - 3,
    ensures
        concat_all(crate::strutil::seq_views(r@)) == word@,
        forall|i: int| 0 <= i < r@.len() ==> #[trigger] r@[i]@.len() > 0,
        (!has_escape(word@) && (forall|i: int|
            0 <= i < word@.len() ==> width0(#[trigger] word@[i]) <= width)) ==> forall|q: int|
            0 <= q < r@.len() ==> visible_width_of(#[trigger] r@[q]@) <= width,
{
    let ghost clean = !has_escape(word@) && (forall|i: int|
        0 <= i < word@.len() ==> width0(#[trigger] word@[i]) <= width);
    let v = str_chars(word);
    let mut parts: Vec<String> = Vec::new();
    let mut current = String::new();
    let mut current_width: usize = 0;
    let mut i: usize = 0;
    proof {
        assert(concat_all(seq_views(parts@)) =~= Seq::<char>::empty());
        assert(concat_all(seq_views(parts@)) + current@ =~= v@.subrange(0, 0));
        assert(widths_sum(Seq::<char>::empty()) == 0);
    }
    while i < v.len()
        invariant
            i <= v@.len(),
            v@ == word@,
            width <= usize::MAX - 3,
            current_width <= width,
            current@.len() == 0 ==> current_width == 0,
            concat_all(seq_views(parts@)) + current@ == v@.subrange(0, i as int),
            forall|q: int| 0 <= q < parts@.len() ==> #[trigger] parts@[q]@.len() > 0,
            clean == (!has_escape(word@) && (forall|j: int|
                0 <= j < word@.len() ==> width0(#[trigger] word@[j]) <= width)),
            clean ==> !has_escape(current@) && widths_sum(current@) == current_width,
            clean ==> forall|q: int|
                0 <= q < parts@.len() ==> visible_width_of(#[trigger] parts@[q]@) <= width,
        decreases v@.len() - i,
    {
        let c = v[i];
        if c == '\u{1b}' {
            proof {
                if clean {
                    assert(word@[i as int] == ESCAPE_CHAR);
                    assert(has_escape(word@));
                    assert(false);
                }
            }
            // A control sequence passes through without width.
            let ghost cv = current@;
            push_char(&mut current, c);
            proof {
                lemma_concat_push(seq_views(parts@), cv, c, v@, i as int);
            }
            i = i + 1;
            if i < v.len() && v[i] == '[' {
                let ghost cv = current@;
                push_char(&mut current, '[');
                proof {
                    lemma_concat_push(seq_views(parts@), cv, '[', v@, i as int);
                }
                i = i + 1;
                let ghost i_before = i;
                while i < v.len()
                    invariant
                        i_before <= i <= v@.len(),
                        v@ == word@,
                        width <= usize::MAX - 3,
                        current_width <= width,
                        current@.len() > 0,
                        concat_all(seq_views(parts@)) + current@ == v@.subrange(0, i as int),
                        forall|q: int| 0 <= q < parts@.len() ==> #[trigger] parts@[q]@.len() > 0,
                    decreases v@.len() - i,
                {
                    let n = v[i];
                    let ghost cv = current@;
                    push_char(&mut current, n);
                    proof {
                        lemma_concat_push(seq_views(parts@), cv, n, v@, i as int);
                    }
                    i = i + 1;
                    if is_csi_final_exec(n) {
                        break ;
                    }
                }
            }
        } else {
            let ch_width = match char_width(c) {
                Option::Some(w) => w,
                Option::None => 0,
            };
            if current_width + ch_width > width && current.unicode_len() > 0 {
                let finished = current;
                current = String::new();
                current_width = 0;
                let ghost pv = seq_views(parts@);
                let ghost vec0 = parts@;
                parts.push(finished);
                proof {
                    assert(parts@.subrange(0, parts@.len() - 1) =~= vec0);
                    lemma_views_push_one(parts@, pv);
                    assert(concat_all(seq_views(parts@)) =~= concat_all(pv)
                        + parts@.last()@);
                    assert(concat_all(seq_views(parts@)) + current@ =~= v@.subrange(
                        0,
                        i as int,
                    ));
                    if clean {
                        lemma_vw_no_escape(parts@.last()@);
                        assert(widths_sum(Seq::<char>::empty()) == 0);
                    }
                }
            }
            let ghost cv = current@;
            push_char(&mut current, c);
            proof {
                lemma_concat_push(seq_views(parts@), cv, c, v@, i as int);
                if clean {
                    assert(cv.push(c).drop_last() =~= cv);
                    assert(width0(word@[i as int]) <= width);
                    assert(ch_width == width0(c));
                }
            }
            if current_width + ch_width <= width {
                current_width = current_width + ch_width;
            } else {
                proof {
                    if clean {
                        assert(current_width == widths_sum(cv));
                        assert(false);
                    }
                }
                current_width = width;
            }
            i = i + 1;
        }
    }
    if current.unicode_len() > 0 {
        let ghost pv = seq_views(parts@);
        let ghost cv = current@;
        let ghost vec0 = parts@;
        parts.push(current);
        proof {
            assert(parts@.subrange(0, parts@.len() - 1) =~= vec0);
            lemma_views_push_one(parts@, pv);
            assert(concat_all(seq_views(parts@)) =~= concat_all(pv) + cv);
            if clean {
                lemma_vw_no_escape(cv);
            }
        }
    } else {
        proof {
            assert(current@ =~= Seq::<char>::empty());
            assert(concat_all(seq_views(parts@)) =~= concat_all(seq_views(parts@)) + current@);
        }
    }
    proof {
        assert(v@.subrange(0, v@.len() as int) =~= v@);
    }
    parts
}

/// Appending one character to the open chunk extends the covered prefix.
proof fn lemma_concat_push(pv: Seq<Seq<char>>, cv: Seq<char>, c: char, v: Seq<char>, i: int)
    requires
        0 <= i < v.len(),
        concat_all(pv) + cv == v.subrange(0, i),
        v[i] == c,
    ensures
        concat_all(pv) + cv.push(c) == v.subrange(0, i + 1),
{
    assert(v.subrange(0, i + 1) =~= v.subrange(0, i).push(c));
    assert(concat_all(pv) + cv.push(c) =~= (concat_all(pv) + cv).push(c));
}

/// The views of a vector grown by one element.
proof fn lemma_views_push_one(now: Seq<String>, before: Seq<Seq<char>>)
    requires
        now.len() >= 1,
        before == seq_views(now.subrange(0, now.len() - 1)),
    ensures
        seq_views(now) == before.push(now.last()@),
        seq_views(now).drop_last() == before,
        seq_views(now).last() == now.last()@,
    decreases now.len(),
{
    assert(seq_views(now) =~= before.push(now.last()@)) by {
        assert(forall|q: int| 0 <= q < now.len() ==> seq_views(now)[q] == #[trigger] now[q]@);
        assert(forall|q: int|
            0 <= q < now.len() - 1 ==> before[q] == #[trigger] now.subrange(0, now.len() - 1)[q]@);
    }
    assert(seq_views(now).drop_last() =~= before);
}

/// Every chunk renders within the target width.
pub open spec fn chunks_fit(chunks: Seq<String>, width: usize) -> bool {
    forall|q: int| 0 <= q < chunks.len() ==> visible_width_of(#[trigger] chunks[q]@) <= width
}

/// The characters of a line with all whitespace removed.
pub open spec fn nonspace(s: Seq<char>) -> Seq<char> {
    s.filter(|c: char| !is_space_char(c))
}

/// One more character extends the whitespace-free part exactly when it is
/// not whitespace itself.
proof fn lemma_nonspace_push(s: Seq<char>, c: char)
    ensures
        nonspace(s.push(c)) == (if is_space_char(c) {
            nonspace(s)
        } else {
            nonspace(s).push(c)
        }),
{
    reveal(Seq::filter);
    assert(s.push(c).drop_last() =~= s);
    assert(s.push(c).last() == c);
}

/// One more chunk extends the concatenation of a prefix by that chunk.
proof fn lemma_concat_take_step(q: Seq<Seq<char>>, p: int)
    requires
        0 <= p < q.len(),
    ensures
        concat_all(q.subrange(0, p + 1)) == concat_all(q.subrange(0, p)) + q[p],
{
    assert(q.subrange(0, p + 1).drop_last() =~= q.subrange(0, p));
    assert(q.subrange(0, p + 1).last() == q[p]);
}

/// The state of the word-wrapping scan: the finished chunks, the open chunk
/// and its rendered width, and the word being gathered with its width.
struct WrapState {
    chunks: Vec<String>,
    current: String,
    current_width: usize,
    word: String,
    word_width: usize,
    word_has_text: bool,
}

impl WrapState {
    /// The open chunk never exceeds the target width, and an empty chunk has
    /// no width.
    spec fn inv(&self, width: usize) -> bool {
        &&& self.current_width <= width
        &&& (self.current@.len() == 0 ==> self.current_width == 0)
    }

    /// On an escape-free line the counted widths are the real rendered
    /// widths: no color state is active, the word and the open chunk hold no
    /// escapes, their width counters are their width sums, and every word
    /// character fits the target width on its own.
    spec fn tracks_widths(&self, active_sgr: Seq<char>, width: usize) -> bool {
        &&& !has_escape(self.word@)
        &&& !has_escape(self.current@)
        &&& active_sgr.len() == 0
        &&& widths_sum(self.current@) == self.current_width
        &&& widths_sum(self.word@) == self.word_width
        &&& forall|j: int| 0 <= j < self.word@.len() ==> width0(#[trigger] self.word@[j]) <= width
    }
}

/// Closes the gathered word into the chunks: a word wider than the target is
/// broken up on its own lines, a word that no longer fits opens a new chunk,
/// and any new chunk inherits the active color state.
fn flush_word(st: &mut WrapState, active_sgr: &str, width: usize)
    requires
        width <= usize::MAX / 2,
        old(st).inv(width),
    ensures
        final(st).inv(width),
        final(st).word@.len() == 0,
        final(st).word_width == 0,
        !final(st).word_has_text,
        (forall|q: int| 0 <= q < old(st).chunks@.len() ==> #[trigger] old(st).chunks@[q]@.len() > 0)
            ==> (forall|q: int|
            0 <= q < final(st).chunks@.len() ==> #[trigger] final(st).chunks@[q]@.len() > 0),
        old(st).tracks_widths(active_sgr@, width) ==> (!has_escape(final(st).current@)
            && widths_sum(final(st).current@) == final(st).current_width && (chunks_fit(
            old(st).chunks@,
            width,
        ) ==> chunks_fit(final(st).chunks@, width))),
        (active_sgr@.len() == 0 && (old(st).word_has_text || old(st).word@.len() == 0))
            ==> concat_all(seq_views(final(st).chunks@)) + final(st).current@ == concat_all(
            seq_views(old(st).chunks@),
        ) + old(st).current@ + old(st).word@,
{
    let ghost chunks_clean = forall|q: int|
        0 <= q < old(st).chunks@.len() ==> #[trigger] old(st).chunks@[q]@.len() > 0;
    let ghost exact_widths = old(st).tracks_widths(active_sgr@, width);
    let ghost base_fit = chunks_fit(old(st).chunks@, width);
    let ghost keeps_content = active_sgr@.len() == 0 && (old(st).word_has_text || old(
        st,
    ).word@.len() == 0);
    let ghost base_cat = concat_all(seq_views(old(st).chunks@)) + old(st).current@ + old(
        st,
    ).word@;
    proof {
        assert(widths_sum(Seq::<char>::empty()) == 0);
    }
    if st.word.unicode_len() == 0 {
        st.word = String::new();
        st.word_width = 0;
        st.word_has_text = false;
        proof {
            assert(concat_all(seq_views(st.chunks@)) + st.current@ =~= concat_all(
                seq_views(st.chunks@),
            ) + st.current@ + old(st).word@);
        }
        return ;
    }
    if !st.word_has_text {
        st.word = String::new();
        st.word_width = 0;
        st.word_has_text = false;
        proof {
            if keeps_content {
                assert(old(st).word@.len() == 0);
                assert(false);
            }
        }
        return ;
    }
    if st.word_width > width {
        let parts = split_word(st.word.as_str(), width);
        proof {
            if exact_widths {
                assert(forall|q: int|
                    0 <= q < parts@.len() ==> visible_width_of(#[trigger] parts@[q]@) <= width);
            }
        }
        proof {
            if keeps_content {
                assert(seq_views(parts@).subrange(0, 0) =~= Seq::<Seq<char>>::empty());
                assert(concat_all(seq_views(st.chunks@)) + st.current@ + concat_all(
                    seq_views(parts@).subrange(0, 0),
                ) =~= concat_all(seq_views(st.chunks@)) + st.current@);
            }
        }
        let mut p: usize = 0;
        while p < parts.len()
            invariant
                p <= parts@.len(),
                width <= usize::MAX / 2,
                st.inv(width),
                forall|q: int| 0 <= q < parts@.len() ==> #[trigger] parts@[q]@.len() > 0,
                chunks_clean ==> forall|q: int|
                    0 <= q < st.chunks@.len() ==> #[trigger] st.chunks@[q]@.len() > 0,
                exact_widths == old(st).tracks_widths(active_sgr@, width),
                exact_widths ==> active_sgr@.len() == 0 && !has_escape(st.current@) && widths_sum(
                    st.current@,
                ) == st.current_width,
                exact_widths ==> forall|q: int|
                    0 <= q < parts@.len() ==> visible_width_of(#[trigger] parts@[q]@) <= width,
                exact_widths && base_fit ==> chunks_fit(st.chunks@, width),
                keeps_content == (active_sgr@.len() == 0 && (old(st).word_has_text || old(
                    st,
                ).word@.len() == 0)),
                keeps_content ==> concat_all(seq_views(st.chunks@)) + st.current@ == concat_all(
                    seq_views(old(st).chunks@),
                ) + old(st).current@ + concat_all(seq_views(parts@).subrange(0, p as int)),
            decreases parts@.len() - p,
        {
            if st.current.unicode_len() > 0 {
                let finished = st.current.clone();
                st.current = String::new();
                st.current_width = 0;
                proof {
                    if exact_widths {
                        lemma_vw_no_escape(finished@);
                    }
                    assert(widths_sum(Seq::<char>::empty()) == 0);
                }
                let ghost vec0 = st.chunks@;
                let ghost cv = seq_views(st.chunks@);
                st.chunks.push(finished);
                proof {
                    assert(st.chunks@.subrange(0, st.chunks@.len() - 1) =~= vec0);
                    lemma_views_push_one(st.chunks@, cv);
                    if keeps_content {
                        assert(concat_all(seq_views(st.chunks@)) + st.current@ =~= concat_all(cv)
                            + finished@);
                    }
                }
            }
            let mut line = String::new();
            if active_sgr.unicode_len() > 0 {
                line.append(active_sgr);
            }
            line.append(parts[p].as_str());
            proof {
                if exact_widths || keeps_content {
                    assert(line@ =~= parts@[p as int]@);
                }
            }
            let ghost vec0 = st.chunks@;
            let ghost cv = seq_views(st.chunks@);
            st.chunks.push(line);
            proof {
                assert(st.chunks@.subrange(0, st.chunks@.len() - 1) =~= vec0);
                lemma_views_push_one(st.chunks@, cv);
                if keeps_content {
                    lemma_concat_take_step(seq_views(parts@), p as int);
                    assert(seq_views(parts@)[p as int] == parts@[p as int]@);
                    assert(concat_all(seq_views(st.chunks@)) + st.current@ =~= concat_all(
                        seq_views(old(st).chunks@),
                    ) + old(st).current@ + concat_all(seq_views(parts@).subrange(0, p + 1)));
                }
            }
            p = p + 1;
        }
        proof {
            if keeps_content {
                assert(seq_views(parts@).subrange(0, parts@.len() as int) =~= seq_views(parts@));
                assert(concat_all(seq_views(parts@)) == old(st).word@);
                assert(concat_all(seq_views(st.chunks@)) + st.current@ =~= concat_all(
                    seq_views(old(st).chunks@),
                ) + old(st).current@ + old(st).word@);
            }
        }
    } else if st.current_width + st.word_width > width && st.current.unicode_len() > 0 {
        let finished = st.current.clone();
        st.current = String::new();
        st.current_width = 0;
        proof {
            if exact_widths {
                lemma_vw_no_escape(finished@);
            }
        }
        let ghost vec0 = st.chunks@;
        let ghost cv = seq_views(st.chunks@);
        st.chunks.push(finished);
        proof {
            assert(st.chunks@.subrange(0, st.chunks@.len() - 1) =~= vec0);
            lemma_views_push_one(st.chunks@, cv);
        }
        if active_sgr.unicode_len() > 0 {
            st.current.append(active_sgr);
        }
        st.current.append(st.word.as_str());
        st.current_width = st.word_width;
        proof {
            if st.current@.len() == 0 {
                assert(st.word@.len() == 0);
            }
            if exact_widths || keeps_content {
                assert(st.current@ =~= old(st).word@);
            }
            if keeps_content {
                assert(concat_all(seq_views(st.chunks@)) + st.current@ =~= concat_all(cv)
                    + finished@ + old(st).word@);
                assert(concat_all(seq_views(st.chunks@)) + st.current@ =~= base_cat);
            }
        }
    } else {
        let ghost cur0 = st.current@;
        if st.current.unicode_len() == 0 && active_sgr.unicode_len() > 0 {
            st.current.append(active_sgr);
        }
        st.current.append(st.word.as_str());
        st.current_width = st.current_width + st.word_width;
        proof {
            if st.current@.len() == 0 {
                assert(st.word@.len() == 0);
            }
            if exact_widths || keeps_content {
                assert(st.current@ =~= cur0 + old(st).word@);
            }
            if keeps_content {
                assert(concat_all(seq_views(st.chunks@)) + st.current@ =~= base_cat);
            }
            if exact_widths {
                lemma_widths_sum_concat(cur0, old(st).word@);
                assert(!has_escape(cur0 + old(st).word@)) by {
                    if has_escape(cur0 + old(st).word@) {
                        let k = choose|k: int|
                            0 <= k < (cur0 + old(st).word@).len() && (cur0 + old(st).word@)[k]
                                == ESCAPE_CHAR;
                        if k < cur0.len() {
                            assert(cur0[k] == ESCAPE_CHAR);
                        } else {
                            assert(old(st).word@[k - cur0.len()] == ESCAPE_CHAR);
                        }
                    }
                }
            }
        }
    }
    st.word = String::new();
    st.word_width = 0;
    st.word_has_text = false;
}

/// Wraps one line into chunks of at most the target rendered width, breaking
/// at whitespace where possible, carrying color state into every new chunk,
/// and passing control sequences through with no width.  There is always at
/// least one chunk.
pub fn wrap_line_words(line: &str, width: usize) -> (r: Vec<String>)
    requires
        line@.len() <= (usize::MAX - 3) / 3,
        width <= usize::MAX / 2,
    ensures
        r@.len() >= 1,
        r@.len() > 1 ==> forall|q: int| 0 <= q < r@.len() ==> #[trigger] r@[q]@.len() > 0,
        width == 0 ==> r@.len() == 1 && r@[0]@ == Seq::<char>::empty(),
        line@.len() == 0 ==> r@.len() == 1 && r@[0]@ == Seq::<char>::empty(),
        (!has_escape(line@) && (forall|j: int|
            0 <= j < line@.len() ==> width0(#[trigger] line@[j]) <= width)) ==> chunks_fit(
            r@,
            width,
        ),
        (width > 0 && !has_escape(line@)) ==> nonspace(concat_all(seq_views(r@))) == nonspace(
            line@,
        ),
{
    let ghost clean = !has_escape(line@) && (forall|j: int|
        0 <= j < line@.len() ==> width0(#[trigger] line@[j]) <= width);
    let ghost no_esc = !has_escape(line@);
    if width == 0 {
        let mut only: Vec<String> = Vec::new();
        only.push(String::new());
        return only;
    }
    let v = str_chars(line);
    if v.len() == 0 {
        let mut only: Vec<String> = Vec::new();
        only.push(String::new());
        proof {
            assert(seq_views(only@) =~= seq![only@[0]@]);
            assert(seq![only@[0]@].drop_last() =~= Seq::<Seq<char>>::empty());
            assert(concat_all(Seq::<Seq<char>>::empty()) =~= Seq::<char>::empty());
            assert(only@[0]@ =~= Seq::<char>::empty());
            assert(seq![only@[0]@].last() == only@[0]@);
            assert(concat_all(seq_views(only@)) =~= Seq::<char>::empty());
            assert(line@ =~= Seq::<char>::empty());
        }
        return only;
    }
    let mut st = WrapState {
        chunks: Vec::new(),
        current: String::new(),
        current_width: 0,
        word: String::new(),
        word_width: 0,
        word_has_text: false,
    };
    let mut active_sgr = String::new();
    let mut i: usize = 0;
    proof {
        assert(widths_sum(Seq::<char>::empty()) == 0);
        assert(seq_views(st.chunks@) =~= Seq::<Seq<char>>::empty());
        assert(concat_all(seq_views(st.chunks@)) + st.current@ + st.word@ =~= v@.subrange(0, 0));
    }
    while i < v.len()
        invariant
            i <= v@.len(),
            v@ == line@,
            v@.len() <= (usize::MAX - 3) / 3,
            1 <= width <= usize::MAX / 2,
            st.inv(width),
            st.word_width <= 3 * i,
            forall|q: int| 0 <= q < st.chunks@.len() ==> #[trigger] st.chunks@[q]@.len() > 0,
            clean == (!has_escape(line@) && (forall|j: int|
                0 <= j < line@.len() ==> width0(#[trigger] line@[j]) <= width)),
            clean ==> st.tracks_widths(active_sgr@, width),
            clean ==> chunks_fit(st.chunks@, width),
            no_esc == !has_escape(line@),
            no_esc ==> active_sgr@.len() == 0 && (st.word_has_text || st.word@.len() == 0),
            no_esc ==> nonspace(concat_all(seq_views(st.chunks@)) + st.current@ + st.word@)
                == nonspace(v@.subrange(0, i as int)),
        decreases v@.len() - i,
    {
        let ghost full0 = concat_all(seq_views(st.chunks@)) + st.current@ + st.word@;
        let c = v[i];
        if c == '\u{1b}' {
            proof {
                if clean || no_esc {
                    assert(line@[i as int] == ESCAPE_CHAR);
                    assert(has_escape(line@));
                    assert(false);
                }
            }
            // Collect the whole control sequence; it joins the word with no
            // width and updates the color state.
            let mut seq_buf = String::new();
            push_char(&mut seq_buf, c);
            i = i + 1;
            if i < v.len() && v[i] == '[' {
                push_char(&mut seq_buf, '[');
                i = i + 1;
                let ghost i_before = i;
                while i < v.len()
                    invariant
                        i_before <= i <= v@.len(),
                    decreases v@.len() - i,
                {
                    let n = v[i];
                    push_char(&mut seq_buf, n);
                    i = i + 1;
                    if is_csi_final_exec(n) {
                        break ;
                    }
                }
            }
            update_sgr_state(seq_buf.as_str(), &mut active_sgr);
            st.word.append(seq_buf.as_str());
        } else if is_space(c) {
            flush_word(&mut st, active_sgr.as_str(), width);
            proof {
                if no_esc {
                    assert(concat_all(seq_views(st.chunks@)) + st.current@ + st.word@
                        =~= full0);
                }
            }
            let ghost full1 = concat_all(seq_views(st.chunks@)) + st.current@ + st.word@;
            if st.current.unicode_len() > 0 {
                // A separating space costs the single column the width
                // tables give it.
                let space_cost = match char_width(' ') {
                    Option::Some(w) => w,
                    Option::None => 0,
                };
                if st.current_width + space_cost > width {
                    let finished = st.current.clone();
                    st.current = String::new();
                    st.current_width = 0;
                    proof {
                        if clean {
                            lemma_vw_no_escape(finished@);
                        }
                        assert(widths_sum(Seq::<char>::empty()) == 0);
                    }
                    let ghost vec0 = st.chunks@;
                    let ghost cvw = seq_views(st.chunks@);
                    st.chunks.push(finished);
                    proof {
                        assert(st.chunks@.subrange(0, st.chunks@.len() - 1) =~= vec0);
                        lemma_views_push_one(st.chunks@, cvw);
                        if no_esc {
                            assert(concat_all(seq_views(st.chunks@)) + st.current@ + st.word@
                                =~= full1);
                        }
                    }
                } else {
                    let ghost cur0 = st.current@;
                    push_char(&mut st.current, ' ');
                    st.current_width = st.current_width + space_cost;
                    proof {
                        if clean {
                            assert(cur0.push(' ').drop_last() =~= cur0);
                            assert(width0(' ') == space_cost);
                        }
                        if no_esc {
                            assert(concat_all(seq_views(st.chunks@)) + st.current@ + st.word@
                                =~= full1.push(' '));
                            lemma_nonspace_push(full1, ' ');
                        }
                    }
                }
            }
            proof {
                if no_esc {
                    assert(v@.subrange(0, i + 1) =~= v@.subrange(0, i as int).push(c));
                    lemma_nonspace_push(v@.subrange(0, i as int), c);
                }
            }
            i = i + 1;
        } else {
            let w = match char_width(c) {
                Option::Some(w) => w,
                Option::None => 0,
            };
            let ghost word0 = st.word@;
            push_char(&mut st.word, c);
            st.word_width = st.word_width + w;
            st.word_has_text = true;
            proof {
                if clean {
                    assert(word0.push(c).drop_last() =~= word0);
                    assert(width0(line@[i as int]) <= width);
                    assert(w == width0(c));
                }
                if no_esc {
                    assert(concat_all(seq_views(st.chunks@)) + st.current@ + st.word@
                        =~= full0.push(c));
                    lemma_nonspace_push(full0, c);
                    assert(v@.subrange(0, i + 1) =~= v@.subrange(0, i as int).push(c));
                    lemma_nonspace_push(v@.subrange(0, i as int), c);
                    assert(!is_space_char(c));
                }
            }
            i = i + 1;
        }
    }
    let ghost full_end = concat_all(seq_views(st.chunks@)) + st.current@ + st.word@;
    flush_word(&mut st, active_sgr.as_str(), width);
    proof {
        if no_esc {
            assert(concat_all(seq_views(st.chunks@)) + st.current@ + st.word@ =~= full_end);
            assert(v@.subrange(0, v@.len() as int) =~= v@);
        }
    }
    if st.current.unicode_len() > 0 {
        let last = st.current;
        proof {
            if clean {
                lemma_vw_no_escape(last@);
            }
        }
        let ghost vec0 = st.chunks@;
        let ghost cvw = seq_views(st.chunks@);
        st.chunks.push(last);
        proof {
            assert(st.chunks@.subrange(0, st.chunks@.len() - 1) =~= vec0);
            lemma_views_push_one(st.chunks@, cvw);
            if no_esc {
                assert(concat_all(seq_views(st.chunks@)) =~= full_end);
            }
        }
    } else {
        proof {
            if no_esc {
                assert(concat_all(seq_views(st.chunks@)) =~= full_end);
            }
        }
    }
    if st.chunks.len() == 0 {
        let ghost vec0 = st.chunks@;
        let ghost cvw = seq_views(st.chunks@);
        st.chunks.push(String::new());
        proof {
            assert(st.chunks@.subrange(0, st.chunks@.len() - 1) =~= vec0);
            lemma_views_push_one(st.chunks@, cvw);
            if no_esc {
                assert(concat_all(seq_views(st.chunks@)) =~= full_end);
            }
        }
    }
    st.chunks
}

/// The value a difference saturates to at zero.
pub open spec fn sat_sub(a: nat, b: nat) -> nat {
    if a >= b {
        (a - b) as nat
    } else {
        0
    }
}

/// Subtraction that stops at zero.
pub fn saturating_sub(a: usize, b: usize) -> (r: usize)
    ensures
        r == sat_sub(a as nat, b as nat),
{
    if a >= b {
        a - b
    } else {
        0
    }
}

/// The card width a terminal report yields: the reported width where there
/// is one, ninety otherwise, and never below sixty.
pub fn card_width(reported: Option<usize>) -> (r: usize)
    ensures
        ({
            let base = match reported {
                Option::Some(w) => w,
                Option::None => 90,
            };
            r == (if base >= 60 {
                base
            } else {
                60
            })
        }),
{
    let base = match reported {
        Option::Some(w) => w,
        Option::None => 90,
    };
    if base >= 60 {
        base
    } else {
        60
    }
}

/// The geometry of one card: the inner width between the corners, the title
/// padding on each side, and the width left for content.
pub fn card_geometry(width: usize, title_len: usize) -> (r: (usize, usize, usize, usize))
    ensures
        r.0 == sat_sub(width as nat, 2),
        r.1 == sat_sub(r.0 as nat, title_len as nat) / 2,
        r.2 == sat_sub(r.0 as nat, (title_len + r.1) as nat),
        r.3 == sat_sub(r.0 as nat, 2),
{
    let inner = saturating_sub(width, 2);
    let left_pad = saturating_sub(inner, title_len) / 2;
    let right_pad = if title_len <= usize::MAX - left_pad {
        saturating_sub(inner, title_len + left_pad)
    } else {
        0
    };
    proof {
        if title_len > usize::MAX - left_pad {
            assert(title_len + left_pad > inner);
        }
    }
    let content_width = saturating_sub(inner, 2);
    (inner, left_pad, right_pad, content_width)
}

/// Which width report wins: the terminal's own, else the environment's, if
/// either names a positive width.
pub fn terminal_width_choice(reported: Option<u16>, columns: Option<usize>) -> (r: Option<usize>)
    ensures
        ({
            match reported {
                Option::Some(w) if w > 0 => r == Some(w as usize),
                _ => match columns {
                    Option::Some(c) if c > 0 => r == Some(c),
                    _ => r is None,
                },
            }
        }),
{
    if let Option::Some(w) = reported {
        if w > 0 {
            return Some(w as usize);
        }
    }
    if let Option::Some(c) = columns {
        if c > 0 {
            return Some(c);
        }
    }
    None
}

} // verus!
