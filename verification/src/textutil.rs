//! Text utilities of the agent: splitting text into lines, extracting the
//! first fenced code block from generated output, and sorting a list of
//! numbers read from the user.

use vstd::prelude::*;
use vstd::multiset::Multiset;
use vstd::seq_lib::*;
use vstd::string::*;
use crate::strutil::{is_space, is_space_char, push_char, seq_views, str_chars, trim_of, trim_str};

verus! {

/// The text split at newlines; the final piece is what follows the last
/// newline, possibly empty.
pub open spec fn split_nl(s: Seq<char>) -> Seq<Seq<char>>
    decreases s.len(),
{
    if s.len() == 0 {
        seq![Seq::<char>::empty()]
    } else if s.last() == '\n' {
        split_nl(s.drop_last()).push(Seq::empty())
    } else {
        let p = split_nl(s.drop_last());
        p.update(p.len() - 1, p.last().push(s.last()))
    }
}


/// A line with its trailing carriage return removed.
pub open spec fn strip_cr(l: Seq<char>) -> Seq<char> {
    if l.len() > 0 && l.last() == '\r' {
        l.drop_last()
    } else {
        l
    }
}

/// The lines of a text: newline-separated pieces, without a final empty
/// piece after a terminating newline, each without its trailing carriage
/// return.
pub open spec fn lines_of(s: Seq<char>) -> Seq<Seq<char>> {
    let ps = split_nl(s);
    let kept = if ps.len() > 1 && ps.last().len() == 0 {
        ps.drop_last()
    } else {
        ps
    };
    kept.map_values(|l: Seq<char>| strip_cr(l))
}

/// Splits a text into its lines.
pub fn split_lines(s: &str) -> (r: Vec<String>)
    ensures
        seq_views(r@) == lines_of(s@),
{
    let v = str_chars(s);
    let mut pieces: Vec<String> = Vec::new();
    let mut cur = String::new();
    let mut i: usize = 0;
    let ghost mut done: Seq<Seq<char>> = Seq::empty();
    proof {
        assert(v@.subrange(0, 0) =~= Seq::<char>::empty());
        assert(split_nl(v@.subrange(0, 0)) =~= done.push(cur@));
        assert(seq_views(pieces@) =~= done);
    }
    while i < v.len()
        invariant
            i <= v@.len(),
            split_nl(v@.subrange(0, i as int)) == done.push(cur@),
            seq_views(pieces@) == done,
        decreases v@.len() - i,
    {
        let c = v[i];
        proof {
            assert(v@.subrange(0, i + 1).drop_last() =~= v@.subrange(0, i as int));
            assert(v@.subrange(0, i + 1).last() == v@[i as int]);
        }
        if c == '\n' {
            let ghost pv = seq_views(pieces@);
            pieces.push(cur);
            proof {
                assert(seq_views(pieces@) =~= pv.push(pieces@.last()@)) by {
                    assert(forall|q: int|
                        0 <= q < pieces@.len() ==> seq_views(pieces@)[q] == #[trigger] pieces@[q]@);
                }
                done = done.push(pieces@.last()@);
            }
            cur = String::new();
            proof {
                assert(split_nl(v@.subrange(0, i + 1)) =~= done.push(cur@));
            }
        } else {
            let ghost cv = cur@;
            push_char(&mut cur, c);
            proof {
                let prev = split_nl(v@.subrange(0, i as int));
                assert(prev.len() == done.len() + 1);
                assert(prev.last() == cv);
                assert(split_nl(v@.subrange(0, i + 1)) == prev.update(
                    prev.len() - 1,
                    prev.last().push(c),
                ));
                assert(prev.update(prev.len() - 1, prev.last().push(c)) =~= done.push(cur@)) by {
                    assert(cv.push(c) == cur@);
                    assert(forall|q: int| 0 <= q < done.len() ==> prev[q] == #[trigger] done[q]);
                }
            }
        }
        i = i + 1;
    }
    proof {
        assert(v@.subrange(0, v@.len() as int) =~= v@);
    }
    let keep_last = pieces.len() == 0 || cur.unicode_len() > 0;
    if keep_last {
        let ghost pv = seq_views(pieces@);
        pieces.push(cur);
        proof {
            assert(seq_views(pieces@) =~= pv.push(pieces@.last()@)) by {
                assert(forall|q: int|
                    0 <= q < pieces@.len() ==> seq_views(pieces@)[q] == #[trigger] pieces@[q]@);
            }
        }
    }
    let ghost ps = split_nl(s@);
    let ghost kept = if ps.len() > 1 && ps.last().len() == 0 {
        ps.drop_last()
    } else {
        ps
    };
    proof {
        assert(ps == done.push(cur@));
        assert(ps.last() == cur@);
        if keep_last {
            assert(!(ps.len() > 1 && ps.last().len() == 0));
            assert(seq_views(pieces@) == kept);
        } else {
            assert(ps.len() > 1 && ps.last().len() == 0);
            assert(ps.drop_last() =~= done);
            assert(seq_views(pieces@) == kept);
        }
    }
    let mut r: Vec<String> = Vec::new();
    let mut j: usize = 0;
    while j < pieces.len()
        invariant
            j <= pieces@.len(),
            seq_views(pieces@) == kept,
            r@.len() == j,
            forall|q: int| 0 <= q < j ==> #[trigger] r@[q]@ == strip_cr(pieces@[q]@),
        decreases pieces@.len() - j,
    {
        let piece = &pieces[j];
        let n = piece.unicode_len();
        if n > 0 && piece.get_char(n - 1) == '\r' {
            let stripped = piece.substring_char(0, n - 1);
            proof {
                assert(pieces@[j as int]@.drop_last() =~= pieces@[j as int]@.subrange(
                    0,
                    n - 1,
                ));
            }
            r.push(String::from_str(stripped));
        } else {
            r.push(piece.clone());
        }
        j = j + 1;
    }
    proof {
        assert(seq_views(r@) =~= kept.map_values(|l: Seq<char>| strip_cr(l))) by {
            assert(forall|q: int| 0 <= q < r@.len() ==> seq_views(r@)[q] == #[trigger] r@[q]@);
            assert(forall|q: int|
                0 <= q < kept.len() ==> kept.map_values(|l: Seq<char>| strip_cr(l))[q]
                    == strip_cr(#[trigger] kept[q]));
            assert(forall|q: int| 0 <= q < pieces@.len() ==> kept[q] == #[trigger] pieces@[q]@);
        }
    }
    r
}

/// Whether a line opens or closes a code fence: after leading whitespace it
/// begins with three backticks.
pub open spec fn is_fence(l: Seq<char>) -> bool {
    let t = trim_start_of(l);
    t.len() >= 3 && t[0] == '`' && t[1] == '`' && t[2] == '`'
}

/// The line with its leading whitespace removed.
pub open spec fn trim_start_of(l: Seq<char>) -> Seq<char>
    decreases l.len(),
{
    if l.len() > 0 && is_space_char(l[0]) {
        trim_start_of(l.drop_first())
    } else {
        l
    }
}

/// Fence test on a line.
pub fn is_fence_line(l: &str) -> (r: bool)
    ensures
        r == is_fence(l@),
{
    let n = l.unicode_len();
    let mut i: usize = 0;
    proof {
        assert(l@.skip(0) =~= l@);
    }
    while i < n && is_space(l.get_char(i))
        invariant
            i <= n,
            n == l@.len(),
            trim_start_of(l@) == trim_start_of(l@.skip(i as int)),
        decreases n - i,
    {
        proof {
            assert(l@.skip(i as int)[0] == l@[i as int]);
            assert(l@.skip(i as int).drop_first() =~= l@.skip(i + 1));
        }
        i = i + 1;
    }
    proof {
        let t = l@.skip(i as int);
        if t.len() > 0 {
            assert(t[0] == l@[i as int]);
        }
        assert(trim_start_of(t) == t);
        assert(forall|q: int| 0 <= q < t.len() ==> t[q] == #[trigger] l@[i + q]);
    }
    n - i >= 3 && l.get_char(i) == '`' && l.get_char(i + 1) == '`' && l.get_char(i + 2) == '`'
}

/// The first fence at or after position `i`, or the number of lines if
/// there is none.
pub open spec fn first_fence_from(ls: Seq<Seq<char>>, i: int) -> int
    decreases ls.len() - i,
{
    if !(0 <= i < ls.len()) {
        ls.len() as int
    } else if is_fence(ls[i]) {
        i
    } else {
        first_fence_from(ls, i + 1)
    }
}


/// The lines joined back into a text with newline separators.
pub open spec fn join_nl(ls: Seq<Seq<char>>) -> Seq<char>
    decreases ls.len(),
{
    if ls.len() == 0 {
        Seq::empty()
    } else if ls.len() == 1 {
        ls[0]
    } else {
        join_nl(ls.drop_last()) + seq!['\n'] + ls.last()
    }
}

/// What sanitizing generated code yields: the body of the first fenced code
/// block, trimmed — or the whole text trimmed where there is no fence or
/// the block is empty.
pub open spec fn sanitize_view(code: Seq<char>) -> Seq<char> {
    let t = trim_of(code);
    let ls = lines_of(t);
    let f1 = first_fence_from(ls, 0);
    if f1 < ls.len() {
        let f2 = first_fence_from(ls, f1 + 1);
        let collected = ls.subrange(f1 + 1, f2);
        if collected.len() > 0 {
            trim_of(join_nl(collected))
        } else {
            t
        }
    } else {
        t
    }
}

/// Strips generated program text down to code: the first fenced block if
/// one is there, the trimmed text otherwise.
pub fn sanitize_generated_code(code: &str) -> (r: String)
    ensures
        r@ == sanitize_view(code@),
{
    let trimmed = trim_str(code);
    let lines = split_lines(trimmed.as_str());
    let ghost ls = lines_of(trimmed@);
    proof {
        assert(forall|q: int| 0 <= q < lines@.len() ==> ls[q] == #[trigger] lines@[q]@);
    }
    let mut f1: usize = 0;
    while f1 < lines.len() && !is_fence_line(lines[f1].as_str())
        invariant
            f1 <= lines@.len(),
            ls == lines_of(trimmed@),
            ls.len() == lines@.len(),
            forall|q: int| 0 <= q < lines@.len() ==> ls[q] == #[trigger] lines@[q]@,
            first_fence_from(ls, 0) == first_fence_from(ls, f1 as int),
        decreases lines@.len() - f1,
    {
        f1 = f1 + 1;
    }
    if f1 == lines.len() {
        proof {
            assert(first_fence_from(ls, 0) == ls.len());
        }
        return trimmed;
    }
    let mut f2: usize = f1 + 1;
    while f2 < lines.len() && !is_fence_line(lines[f2].as_str())
        invariant
            f1 + 1 <= f2 <= lines@.len(),
            ls == lines_of(trimmed@),
            ls.len() == lines@.len(),
            forall|q: int| 0 <= q < lines@.len() ==> ls[q] == #[trigger] lines@[q]@,
            first_fence_from(ls, f1 + 1) == first_fence_from(ls, f2 as int),
        decreases lines@.len() - f2,
    {
        f2 = f2 + 1;
    }
    proof {
        assert(first_fence_from(ls, 0) == f1);
        assert(first_fence_from(ls, f1 + 1) == f2);
    }
    if f2 == f1 + 1 {
        proof {
            assert(ls.subrange(f1 + 1, f2 as int).len() == 0);
        }
        return trimmed;
    }
    let ghost collected = ls.subrange(f1 + 1, f2 as int);
    let mut joined = String::new();
    let mut k: usize = f1 + 1;
    proof {
        assert(collected.subrange(0, 1) =~= seq![ls[f1 + 1]]);
    }
    joined.append(lines[f1 + 1].as_str());
    proof {
        assert(joined@ =~= join_nl(collected.subrange(0, 1)));
    }
    k = f1 + 2;
    while k < f2
        invariant
            f1 + 2 <= k <= f2 <= lines@.len(),
            ls == lines_of(trimmed@),
            ls.len() == lines@.len(),
            forall|q: int| 0 <= q < lines@.len() ==> ls[q] == #[trigger] lines@[q]@,
            collected == ls.subrange(f1 + 1, f2 as int),
            joined@ == join_nl(collected.subrange(0, k - f1 - 1)),
        decreases f2 - k,
    {
        push_char(&mut joined, '\n');
        joined.append(lines[k].as_str());
        proof {
            let sub = collected.subrange(0, k - f1);
            assert(sub.len() >= 2);
            assert(sub.drop_last() =~= collected.subrange(0, k - f1 - 1));
            assert(sub.last() == collected[k - f1 - 1]);
            assert(collected[k - f1 - 1] == ls[k as int]);
            assert(joined@ =~= join_nl(sub));
        }
        k = k + 1;
    }
    proof {
        assert(collected.subrange(0, f2 - f1 - 1) =~= collected);
    }
    trim_str(joined.as_str())
}

/// Sorts the numbers ascending; the result is a permutation of the input.
pub fn sort_numbers(numbers: Vec<i32>) -> (r: Vec<i32>)
    ensures
        forall|i: int, j: int| 0 <= i < j < r@.len() ==> r@[i] <= r@[j],
        r@.to_multiset() == numbers@.to_multiset(),
{
    broadcast use vstd::seq_lib::group_to_multiset_ensures;

    let mut out: Vec<i32> = Vec::new();
    let mut i: usize = 0;
    proof {
        assert(numbers@.subrange(0, 0) =~= Seq::<i32>::empty());
        assert(out@ =~= Seq::<i32>::empty());
        assert(Seq::<i32>::empty().to_multiset() =~= Multiset::<i32>::empty());
    }
    while i < numbers.len()
        invariant
            i <= numbers@.len(),
            forall|p: int, q: int| 0 <= p < q < out@.len() ==> out@[p] <= out@[q],
            out@.to_multiset() == numbers@.subrange(0, i as int).to_multiset(),
        decreases numbers@.len() - i,
    {
        broadcast use vstd::seq_lib::group_to_multiset_ensures;

        let x = numbers[i];
        let mut p: usize = 0;
        while p < out.len() && out[p] <= x
            invariant
                p <= out@.len(),
                forall|q: int| 0 <= q < p ==> out@[q] <= x,
            decreases out@.len() - p,
        {
            p = p + 1;
        }
        let ghost before = out@;
        out.insert(p, x);
        proof {
            assert(out@ == before.insert(p as int, x));
            assert(out@.to_multiset() == before.to_multiset().insert(x));
            assert(numbers@.subrange(0, i + 1).drop_last() =~= numbers@.subrange(0, i as int));
            assert(numbers@.subrange(0, i + 1).last() == numbers@[i as int]);
            assert(numbers@.subrange(0, i + 1) =~= numbers@.subrange(0, i as int).push(
                numbers@[i as int],
            ));
            assert(numbers@.subrange(0, i as int).push(x).to_multiset() == numbers@.subrange(
                0,
                i as int,
            ).to_multiset().insert(x));
            assert forall|a: int, b: int| 0 <= a < b < out@.len() implies out@[a] <= out@[b] by {
                if b < p {
                    assert(out@[a] == before[a] && out@[b] == before[b]);
                } else if a < p && b == p {
                    assert(out@[a] == before[a]);
                    assert(out@[b] == x);
                } else if a < p {
                    assert(out@[a] == before[a] && out@[b] == before[b - 1]);
                } else if a == p {
                    assert(out@[a] == x && out@[b] == before[b - 1]);
                } else {
                    assert(out@[a] == before[a - 1] && out@[b] == before[b - 1]);
                }
            }
        }
        i = i + 1;
    }
    proof {
        assert(numbers@.subrange(0, numbers@.len() as int) =~= numbers@);
    }
    out
}

} // verus!
