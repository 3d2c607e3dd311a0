//! Decimal notation for the numeric protocol fields: emitting a `u64` in its
//! canonical decimal form, parsing it back, and the facts that make the two
//! inverse to each other.

use vstd::prelude::*;
use vstd::string::*;
use crate::strutil::push_char;

verus! {

/// The decimal digit character for `n < 10`.
pub open spec fn dec_char(n: nat) -> char {
    if n == 0 {
        '0'
    } else if n == 1 {
        '1'
    } else if n == 2 {
        '2'
    } else if n == 3 {
        '3'
    } else if n == 4 {
        '4'
    } else if n == 5 {
        '5'
    } else if n == 6 {
        '6'
    } else if n == 7 {
        '7'
    } else if n == 8 {
        '8'
    } else {
        '9'
    }
}

/// Whether `c` is a decimal digit character.
pub open spec fn is_dec_digit(c: char) -> bool {
    '0' as u32 <= c as u32 <= '9' as u32
}

/// The numeric value of a digit character.
pub open spec fn digit_val(c: char) -> nat {
    (c as u32 - '0' as u32) as nat
}

/// The canonical decimal notation of `n`: no leading zeros, and `"0"` for
/// zero itself.
pub open spec fn dec_digits(n: nat) -> Seq<char>
    decreases n,
{
    if n < 10 {
        seq![dec_char(n)]
    } else {
        dec_digits(n / 10).push(dec_char(n % 10))
    }
}

/// The value of a digit string, most significant digit first.
pub open spec fn val_of_digits(d: Seq<char>) -> nat
    decreases d.len(),
{
    if d.len() == 0 {
        0
    } else {
        val_of_digits(d.drop_last()) * 10 + digit_val(d.last())
    }
}

/// Every character of a canonical decimal notation is a digit, the notation
/// is not empty, and it has a leading zero only when it is `"0"` itself.
pub proof fn lemma_dec_digits_shape(n: nat)
    ensures
        dec_digits(n).len() >= 1,
        forall|i: int| 0 <= i < dec_digits(n).len() ==> is_dec_digit(#[trigger] dec_digits(n)[i]),
        n < 10 <==> dec_digits(n).len() == 1,
        dec_digits(n)[0] == '0' ==> n == 0,
    decreases n,
{
    if n < 10 {
        assert(is_dec_digit(dec_char(n))) by {
            if n == 0 {
            } else if n == 1 {
            } else if n == 2 {
            } else if n == 3 {
            } else if n == 4 {
            } else if n == 5 {
            } else if n == 6 {
            } else if n == 7 {
            } else if n == 8 {
            } else {
            }
        }
    } else {
        lemma_dec_digits_shape(n / 10);
        let d = dec_digits(n);
        let p = dec_digits(n / 10);
        assert(d == p.push(dec_char(n % 10)));
        assert(is_dec_digit(dec_char(n % 10))) by {
            let m = n % 10;
            assert(m < 10);
        }
        assert(d[0] == p[0]);
        assert(n / 10 >= 1);
        if p[0] == '0' {
            assert(n / 10 == 0);
        }
    }
}

/// Reading the canonical notation of `n` back yields `n`.
pub proof fn lemma_val_of_dec_digits(n: nat)
    ensures
        val_of_digits(dec_digits(n)) == n,
    decreases n,
{
    if n < 10 {
        let d = dec_digits(n);
        assert(d.drop_last() =~= Seq::<char>::empty());
        assert(val_of_digits(Seq::<char>::empty()) == 0);
        assert(d.last() == dec_char(n));
        assert(val_of_digits(d) == digit_val(dec_char(n)));
        assert(digit_val(dec_char(n)) == n) by {
            if n == 0 {
            } else if n == 1 {
            } else if n == 2 {
            } else if n == 3 {
            } else if n == 4 {
            } else if n == 5 {
            } else if n == 6 {
            } else if n == 7 {
            } else if n == 8 {
            } else {
            }
        }
    } else {
        lemma_val_of_dec_digits(n / 10);
        let d = dec_digits(n);
        let p = dec_digits(n / 10);
        assert(d == p.push(dec_char(n % 10)));
        assert(d.drop_last() =~= p);
        assert(d.last() == dec_char(n % 10));
        assert(digit_val(dec_char(n % 10)) == n % 10) by {
            let m = n % 10;
            assert(m < 10);
            if m == 0 {
            } else if m == 1 {
            } else if m == 2 {
            } else if m == 3 {
            } else if m == 4 {
            } else if m == 5 {
            } else if m == 6 {
            } else if m == 7 {
            } else if m == 8 {
            } else {
            }
        }
        assert(n / 10 * 10 + n % 10 == n) by {
            vstd::arithmetic::div_mod::lemma_fundamental_div_mod(n as int, 10);
        }
    }
}

/// A digit string without a spurious leading zero is the canonical notation
/// of its own value.
pub proof fn lemma_digits_canonical(d: Seq<char>)
    requires
        d.len() >= 1,
        forall|i: int| 0 <= i < d.len() ==> is_dec_digit(#[trigger] d[i]),
        d[0] == '0' ==> d.len() == 1,
    ensures
        dec_digits(val_of_digits(d)) == d,
    decreases d.len(),
{
    if d.len() == 1 {
        let v = digit_val(d[0]);
        assert(d.drop_last() =~= Seq::<char>::empty());
        assert(val_of_digits(Seq::<char>::empty()) == 0);
        assert(d.last() == d[0]);
        assert(val_of_digits(d) == v);
        assert(v < 10) by {
            assert(is_dec_digit(d[0]));
        }
        assert(dec_char(v) == d[0]) by {
            lemma_char_of_digit_val(d[0]);
        }
        assert(dec_digits(v) =~= d);
    } else {
        let p = d.drop_last();
        assert(p.len() >= 1);
        assert(forall|i: int| 0 <= i < p.len() ==> is_dec_digit(#[trigger] p[i])) by {
            assert(forall|i: int| 0 <= i < p.len() ==> p[i] == d[i]);
        }
        assert(p[0] == d[0]);
        if p[0] == '0' {
            assert(d.len() == 1);
        }
        lemma_digits_canonical(p);
        let v = val_of_digits(d);
        let pv = val_of_digits(p);
        assert(v == pv * 10 + digit_val(d.last()));
        assert(digit_val(d.last()) < 10) by {
            assert(is_dec_digit(d.last()));
        }
        assert(pv >= 1) by {
            if pv == 0 {
                lemma_val_zero_means_zeros(p);
                assert(p[0] == '0');
            }
        }
        assert(v >= 10) by {
            assert(pv * 10 >= 10) by (nonlinear_arith)
                requires
                    pv >= 1,
            ;
        }
        assert(v / 10 == pv && v % 10 == digit_val(d.last())) by (nonlinear_arith)
            requires
                v == pv * 10 + digit_val(d.last()),
                digit_val(d.last()) < 10,
        ;
        assert(dec_char(v % 10) == d.last()) by {
            lemma_char_of_digit_val(d.last());
        }
        assert(dec_digits(v) == dec_digits(pv).push(dec_char(v % 10)));
        assert(dec_digits(v) =~= d) by {
            assert(dec_digits(pv) == p);
            assert(p.push(d.last()) =~= d);
        }
    }
}

/// A digit string of value zero is all zeros in its first position.
proof fn lemma_val_zero_means_zeros(d: Seq<char>)
    requires
        d.len() >= 1,
        forall|i: int| 0 <= i < d.len() ==> is_dec_digit(#[trigger] d[i]),
        val_of_digits(d) == 0,
    ensures
        d[0] == '0',
    decreases d.len(),
{
    if d.len() == 1 {
        assert(digit_val(d[0]) == 0);
        lemma_char_of_digit_val(d[0]);
    } else {
        let p = d.drop_last();
        assert(val_of_digits(p) * 10 + digit_val(d.last()) == 0);
        assert(val_of_digits(p) == 0) by (nonlinear_arith)
            requires
                val_of_digits(p) * 10 + digit_val(d.last()) == 0,
        ;
        assert(forall|i: int| 0 <= i < p.len() ==> is_dec_digit(#[trigger] p[i])) by {
            assert(forall|i: int| 0 <= i < p.len() ==> p[i] == d[i]);
        }
        lemma_val_zero_means_zeros(p);
        assert(p[0] == d[0]);
    }
}

/// For a digit character, `dec_char` of its value is the character itself.
proof fn lemma_char_of_digit_val(c: char)
    requires
        is_dec_digit(c),
    ensures
        digit_val(c) < 10,
        dec_char(digit_val(c)) == c,
{
    let u = c as u32;
    assert('0' as u32 == 48 && '9' as u32 == 57);
    let v = digit_val(c);
    if v == 0 {
        crate::strutil::lemma_char_injective(c, '0');
    } else if v == 1 {
        crate::strutil::lemma_char_injective(c, '1');
    } else if v == 2 {
        crate::strutil::lemma_char_injective(c, '2');
    } else if v == 3 {
        crate::strutil::lemma_char_injective(c, '3');
    } else if v == 4 {
        crate::strutil::lemma_char_injective(c, '4');
    } else if v == 5 {
        crate::strutil::lemma_char_injective(c, '5');
    } else if v == 6 {
        crate::strutil::lemma_char_injective(c, '6');
    } else if v == 7 {
        crate::strutil::lemma_char_injective(c, '7');
    } else if v == 8 {
        crate::strutil::lemma_char_injective(c, '8');
    } else {
        crate::strutil::lemma_char_injective(c, '9');
    }
}

/// The run of digit characters at the front of `t`.
pub open spec fn digit_run(t: Seq<char>) -> Seq<char>
    decreases t.len(),
{
    if t.len() > 0 && is_dec_digit(t[0]) {
        seq![t[0]] + digit_run(t.drop_first())
    } else {
        Seq::empty()
    }
}

/// The digit run is the longest all-digit prefix of `t`.
pub proof fn lemma_digit_run_props(t: Seq<char>)
    ensures
        digit_run(t).len() <= t.len(),
        digit_run(t) == t.subrange(0, digit_run(t).len() as int),
        forall|i: int| 0 <= i < digit_run(t).len() ==> is_dec_digit(#[trigger] t[i]),
        digit_run(t).len() == t.len() || !is_dec_digit(t[digit_run(t).len() as int]),
    decreases t.len(),
{
    if t.len() > 0 && is_dec_digit(t[0]) {
        lemma_digit_run_props(t.drop_first());
        let r = digit_run(t);
        let r1 = digit_run(t.drop_first());
        assert(r == seq![t[0]] + r1);
        assert forall|i: int| 0 <= i < r.len() implies r[i] == t[i] by {
            if i > 0 {
                assert(r[i] == r1[i - 1]);
                assert(r1[i - 1] == t.drop_first().subrange(0, r1.len() as int)[i - 1]);
                assert(t.drop_first()[i - 1] == t[i]);
            }
        }
        assert(r =~= t.subrange(0, r.len() as int));
        if r.len() < t.len() {
            assert(t[r.len() as int] == t.drop_first()[r1.len() as int]);
        }
    } else {
        assert(digit_run(t) =~= t.subrange(0, 0));
    }
}

/// In front of anything that does not begin with a digit, the digit run of a
/// canonical notation is that notation itself.
pub proof fn lemma_digit_run_of_digits(d: Seq<char>, rest: Seq<char>)
    requires
        forall|i: int| 0 <= i < d.len() ==> is_dec_digit(#[trigger] d[i]),
        rest.len() == 0 || !is_dec_digit(rest[0]),
    ensures
        digit_run(d + rest) == d,
    decreases d.len(),
{
    if d.len() == 0 {
        assert(d + rest =~= rest);
        if rest.len() > 0 {
            assert(digit_run(rest) =~= d);
        } else {
            assert(digit_run(rest) =~= d);
        }
    } else {
        let t = d + rest;
        assert(t[0] == d[0]);
        assert(t.drop_first() =~= d.drop_first() + rest);
        assert(forall|i: int|
            0 <= i < d.drop_first().len() ==> is_dec_digit(#[trigger] d.drop_first()[i])) by {
            assert(forall|i: int|
                0 <= i < d.drop_first().len() ==> d.drop_first()[i] == d[i + 1]);
        }
        lemma_digit_run_of_digits(d.drop_first(), rest);
        assert(digit_run(t) == seq![d[0]] + d.drop_first());
        assert(seq![d[0]] + d.drop_first() =~= d);
    }
}

/// The value of a prefix never exceeds the value of the whole string.
pub proof fn lemma_val_of_prefix_le(d: Seq<char>, j: int)
    requires
        0 <= j <= d.len(),
    ensures
        val_of_digits(d.subrange(0, j)) <= val_of_digits(d),
    decreases d.len() - j,
{
    if j < d.len() {
        lemma_val_of_prefix_le(d, j + 1);
        let p = d.subrange(0, j + 1);
        assert(p.drop_last() =~= d.subrange(0, j));
        assert(p.last() == d[j]);
        assert(val_of_digits(p) == val_of_digits(d.subrange(0, j)) * 10 + digit_val(d[j]));
        let x = val_of_digits(d.subrange(0, j));
        assert(x <= x * 10) by (nonlinear_arith);
    } else {
        assert(d.subrange(0, j) =~= d);
    }
}

/// The digit character for a value below ten.
pub fn dec_char_of(d: u64) -> (c: char)
    requires
        d < 10,
    ensures
        c == dec_char(d as nat),
{
    if d == 0 {
        '0'
    } else if d == 1 {
        '1'
    } else if d == 2 {
        '2'
    } else if d == 3 {
        '3'
    } else if d == 4 {
        '4'
    } else if d == 5 {
        '5'
    } else if d == 6 {
        '6'
    } else if d == 7 {
        '7'
    } else if d == 8 {
        '8'
    } else {
        '9'
    }
}

/// Appends the canonical decimal notation of `v` to `out`.
pub fn push_u64_decimal(out: &mut String, v: u64)
    ensures
        final(out)@ == old(out)@ + dec_digits(v as nat),
    decreases v,
{
    if v < 10 {
        push_char(out, dec_char_of(v));
        proof {
            assert(old(out)@.push(dec_char(v as nat)) =~= old(out)@ + dec_digits(v as nat));
        }
    } else {
        push_u64_decimal(out, v / 10);
        push_char(out, dec_char_of(v % 10));
        proof {
            assert((old(out)@ + dec_digits((v / 10) as nat)).push(dec_char((v % 10) as nat))
                =~= old(out)@ + dec_digits(v as nat));
        }
    }
}

/// Digit test on a character.
pub fn is_dec_digit_exec(c: char) -> (r: bool)
    ensures
        r == is_dec_digit(c),
{
    let u = c as u32;
    48 <= u && u <= 57
}

/// The numeric value of a digit character.
pub fn digit_val_exec(c: char) -> (r: u64)
    requires
        is_dec_digit(c),
    ensures
        r == digit_val(c),
        r < 10,
{
    let u = c as u32;
    (u - 48) as u64
}

} // verus!
