//! The process configuration, and the pure readings of its raw values: the
//! port number, the enabled flag and the comma-separated peer address list
//! arrive as plain strings; the functions here say exactly which typed value
//! each one denotes.  Fetching the raw strings from the environment is the
//! surrounding process's business.

use vstd::prelude::*;
use vstd::seq_lib::*;
use vstd::string::*;
use crate::digits::{digit_val_exec, is_dec_digit, is_dec_digit_exec, val_of_digits};
use crate::strutil::{lower_of, lowercase, seq_views, str_chars, str_eq, trim_of, trim_str};

verus! {

/// The typed process configuration, loaded once at startup.
#[derive(Debug, Clone)]
pub struct Config {
    pub agent_id: String,
    pub agent_port: u16,
    pub ollama_enabled: bool,
    pub ollama_host: String,
    pub ollama_model: String,
    pub direction: String,
    pub peer_addresses: Vec<String>,
}

/// Every character is a decimal digit.
pub open spec fn all_digits(d: Seq<char>) -> bool {
    forall|i: int| 0 <= i < d.len() ==> is_dec_digit(#[trigger] d[i])
}

/// The string with an optional leading plus sign removed.
pub open spec fn digits_part(s: Seq<char>) -> Seq<char> {
    if s.len() > 0 && s[0] == '+' {
        s.drop_first()
    } else {
        s
    }
}

/// What a decimal string denotes as a `u16`: an optional leading plus sign,
/// then at least one digit, with a value in range; anything else denotes
/// nothing.
pub open spec fn parse_u16_of(s: Seq<char>) -> Option<u16> {
    if digits_part(s).len() >= 1 && all_digits(digits_part(s)) && val_of_digits(digits_part(s))
        <= u16::MAX {
        Some(val_of_digits(digits_part(s)) as u16)
    } else {
        None
    }
}

/// Reads a port number, falling back to the default where the string
/// denotes none.
pub fn parse_port(s: &str, default: u16) -> (r: u16)
    ensures
        r == (match parse_u16_of(s@) {
            Option::Some(v) => v,
            Option::None => default,
        }),
{
    let v = str_chars(s);
    let mut i: usize = 0;
    if v.len() > 0 && v[0] == '+' {
        i = 1;
    }
    let ghost d = digits_part(s@);
    proof {
        assert(d =~= v@.subrange(i as int, v@.len() as int));
    }
    if i == v.len() {
        return default;
    }
    let mut acc: u32 = 0;
    let mut j: usize = i;
    while j < v.len()
        invariant
            i <= j <= v@.len(),
            v@ == s@,
            d == digits_part(s@),
            d == v@.subrange(i as int, v@.len() as int),
            acc == val_of_digits(d.subrange(0, j - i)),
            acc <= u16::MAX,
            forall|q: int| 0 <= q < j - i ==> is_dec_digit(#[trigger] d[q]),
        decreases v@.len() - j,
    {
        if !is_dec_digit_exec(v[j]) {
            proof {
                assert(d[j - i] == v@[j as int]);
                assert(!is_dec_digit(d[j - i]));
                if parse_u16_of(s@) is Some {
                    assert(all_digits(d));
                    assert(is_dec_digit(d[j - i]));
                    assert(false);
                }
            }
            return default;
        }
        let dv = digit_val_exec(v[j]);
        proof {
            assert(d[j - i] == v@[j as int]);
            assert(d.subrange(0, j - i + 1).drop_last() =~= d.subrange(0, j - i));
            assert(d.subrange(0, j - i + 1).last() == d[j - i]);
        }
        let next = acc * 10 + dv as u32;
        if next > 65535 {
            proof {
                assert(val_of_digits(d.subrange(0, j - i + 1)) > u16::MAX);
                if parse_u16_of(s@) is Some {
                    lemma_val_prefix_ge(d, j - i + 1);
                    assert(val_of_digits(d) > u16::MAX);
                    assert(false);
                }
            }
            return default;
        }
        acc = next;
        j = j + 1;
    }
    proof {
        assert(d.subrange(0, (j - i) as int) =~= d);
    }
    acc as u16
}

/// A longer string denotes at least as much as its prefix, so a value
/// already out of range cannot come back into range.
proof fn lemma_val_prefix_ge(d: Seq<char>, p: int)
    requires
        0 <= p <= d.len(),
    ensures
        val_of_digits(d) >= val_of_digits(d.subrange(0, p)),
{
    crate::digits::lemma_val_of_prefix_le(d, p);
}

/// The raw string split at commas.
pub open spec fn split_commas(s: Seq<char>) -> Seq<Seq<char>>
    decreases s.len(),
{
    if s.len() == 0 {
        seq![Seq::<char>::empty()]
    } else if s.last() == ',' {
        split_commas(s.drop_last()).push(Seq::empty())
    } else {
        let p = split_commas(s.drop_last());
        p.update(p.len() - 1, p.last().push(s.last()))
    }
}


/// The peer addresses a raw string denotes: its comma-separated pieces,
/// trimmed, with the empty ones dropped.
pub open spec fn peer_list_of(s: Seq<char>) -> Seq<Seq<char>> {
    split_commas(s).map_values(|p: Seq<char>| trim_of(p)).filter(|p: Seq<char>| p.len() != 0)
}

/// Reads the configured peer address list.
pub fn parse_peer_addresses(s: &str) -> (r: Vec<String>)
    ensures
        seq_views(r@) == peer_list_of(s@),
{
    let v = str_chars(s);
    let mut r: Vec<String> = Vec::new();
    let mut cur = String::new();
    let mut i: usize = 0;
    let ghost mut done: Seq<Seq<char>> = Seq::empty();
    proof {
        assert(v@.subrange(0, 0) =~= Seq::<char>::empty());
        assert(split_commas(v@.subrange(0, 0)) =~= done.push(cur@));
        lemma_pieces_empty();
        assert(seq_views(r@) =~= pieces_result(done)) by {
            assert(seq_views(r@) =~= Seq::<Seq<char>>::empty());
        }
    }
    while i < v.len()
        invariant
            i <= v@.len(),
            split_commas(v@.subrange(0, i as int)) == done.push(cur@),
            seq_views(r@) == pieces_result(done),
        decreases v@.len() - i,
    {
        let c = v[i];
        proof {
            assert(v@.subrange(0, i + 1).drop_last() =~= v@.subrange(0, i as int));
            assert(v@.subrange(0, i + 1).last() == v@[i as int]);
        }
        if c == ',' {
            let piece = trim_str(cur.as_str());
            let keep = piece.unicode_len() > 0;
            proof {
                lemma_pieces_push(done, cur@);
            }
            if keep {
                let ghost rv = seq_views(r@);
                r.push(piece);
                proof {
                    assert(seq_views(r@) =~= rv.push(trim_of(cur@))) by {
                        assert(forall|q: int|
                            0 <= q < r@.len() ==> seq_views(r@)[q] == #[trigger] r@[q]@);
                    }
                }
            } else {
                proof {
                    assert(trim_of(cur@).len() == 0);
                }
            }
            proof {
                done = done.push(cur@);
                assert(split_commas(v@.subrange(0, i + 1)) == split_commas(
                    v@.subrange(0, i as int),
                ).push(Seq::empty()));
            }
            cur = String::new();
            proof {
                assert(split_commas(v@.subrange(0, i + 1)) =~= done.push(cur@));
            }
        } else {
            let ghost cv = cur@;
            crate::strutil::push_char(&mut cur, c);
            proof {
                let prev = split_commas(v@.subrange(0, i as int));
                assert(prev.len() == done.len() + 1);
                assert(prev.last() == cv);
                assert(split_commas(v@.subrange(0, i + 1)) == prev.update(
                    prev.len() - 1,
                    prev.last().push(c),
                ));
                assert(prev.update(prev.len() - 1, prev.last().push(c)) =~= done.push(cur@)) by {
                    assert(cv.push(c) == cur@);
                    assert(forall|q: int| 0 <= q < done.len() ==> prev[q] == #[trigger] done[q]);
                }
            }
        }
        i = i + 1;
    }
    let piece = trim_str(cur.as_str());
    let keep = piece.unicode_len() > 0;
    proof {
        assert(v@.subrange(0, v@.len() as int) =~= v@);
        lemma_pieces_push(done, cur@);
        assert(peer_list_of(s@) == pieces_result(done.push(cur@)));
    }
    if keep {
        let ghost rv = seq_views(r@);
        r.push(piece);
        proof {
            assert(seq_views(r@) =~= rv.push(trim_of(cur@))) by {
                assert(forall|q: int| 0 <= q < r@.len() ==> seq_views(r@)[q] == #[trigger] r@[q]@);
            }
        }
    }
    r
}

/// The empty list of raw pieces contributes nothing.
proof fn lemma_pieces_empty()
    ensures
        pieces_result(Seq::<Seq<char>>::empty()) == Seq::<Seq<char>>::empty(),
{
    reveal(Seq::filter);
    assert(Seq::<Seq<char>>::empty().map_values(|p: Seq<char>| trim_of(p))
        =~= Seq::<Seq<char>>::empty());
}

/// What the completed raw pieces contribute to the final list.
pub open spec fn pieces_result(done: Seq<Seq<char>>) -> Seq<Seq<char>> {
    done.map_values(|p: Seq<char>| trim_of(p)).filter(|p: Seq<char>| p.len() != 0)
}

/// One more completed piece extends the result by its trimmed form exactly
/// when that is not empty.
pub proof fn lemma_pieces_push(done: Seq<Seq<char>>, piece: Seq<char>)
    ensures
        pieces_result(done.push(piece)) == (if trim_of(piece).len() != 0 {
            pieces_result(done).push(trim_of(piece))
        } else {
            pieces_result(done)
        }),
{
    reveal(Seq::filter);
    let mapped = done.push(piece).map_values(|p: Seq<char>| trim_of(p));
    let mapped0 = done.map_values(|p: Seq<char>| trim_of(p));
    assert(mapped =~= mapped0.push(trim_of(piece))) by {
        assert(forall|q: int| 0 <= q < done.len() ==> mapped[q] == trim_of(#[trigger] done[q]));
        assert(forall|q: int|
            0 <= q < done.len() ==> mapped0[q] == trim_of(#[trigger] done[q]));
    }
    assert(mapped0.push(trim_of(piece)).drop_last() =~= mapped0);
}


/// Whether the text backend is enabled: every spelling of the raw flag
/// counts as enabled except the word `false`, compared without case.
pub fn ollama_enabled_flag(s: &str) -> (r: bool)
    ensures
        r == (lower_of(s@) != "false"@),
{
    let lower = lowercase(s);
    !str_eq(lower.as_str(), "false")
}

/// Whether the merged-output mode is requested: the lowercased raw value is
/// one of `1`, `true` or `yes`.
pub fn merged_output_flag(s: &str) -> (r: bool)
    ensures
        r == (lower_of(s@) == "1"@ || lower_of(s@) == "true"@ || lower_of(s@) == "yes"@),
{
    let lower = lowercase(s);
    str_eq(lower.as_str(), "1") || str_eq(lower.as_str(), "true") || str_eq(lower.as_str(), "yes")
}

} // verus!
