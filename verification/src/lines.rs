//! Splitting canonical text into terminator-stripped lines.
//!
//! A line ends at a line feed, a carriage return, or a carriage return
//! followed by a line feed (one two-byte terminator). The terminator is
//! not part of the line. A final segment without a terminator is still a
//! line; text that ends at a terminator contributes no extra empty line.

use vstd::prelude::*;

verus! {

/// A byte that ends a line: line feed or carriage return.
pub open spec fn is_term_byte(b: u8) -> bool {
    b == 10 || b == 13
}

/// Length of the terminator that starts at index `i` of `s`:
/// a carriage return followed by a line feed is one two-byte
/// terminator, any other terminator byte stands alone.
pub open spec fn term_len_at(s: Seq<u8>, i: int) -> int {
    if s[i] == 13 && i + 1 < s.len() && s[i + 1] == 10 {
        2
    } else {
        1
    }
}

/// Index of the first terminator byte of `s`, or `s.len()` if there is none.
pub open spec fn first_term(s: Seq<u8>) -> int
    decreases s.len(),
{
    if s.len() == 0 {
        0
    } else if is_term_byte(s[0]) {
        0
    } else {
        1 + first_term(s.skip(1))
    }
}

pub proof fn lemma_first_term_bounds(s: Seq<u8>)
    ensures
        0 <= first_term(s) <= s.len(),
        forall|j: int| 0 <= j < first_term(s) ==> !is_term_byte(s[j]),
        first_term(s) < s.len() ==> is_term_byte(s[first_term(s)]),
    decreases s.len(),
{
    if s.len() == 0 {
    } else if is_term_byte(s[0]) {
    } else {
        lemma_first_term_bounds(s.skip(1));
        assert forall|j: int| 0 <= j < first_term(s) implies !is_term_byte(s[j]) by {
            if j > 0 {
                assert(s[j] == s.skip(1)[j - 1]);
            }
        }
        if first_term(s) < s.len() {
            assert(s[first_term(s)] == s.skip(1)[first_term(s.skip(1))]);
        }
    }
}

/// `first_term` is the unique index with nothing terminator-like before it.
pub proof fn lemma_first_term_is(s: Seq<u8>, i: int)
    requires
        0 <= i <= s.len(),
        forall|j: int| 0 <= j < i ==> !is_term_byte(s[j]),
        i < s.len() ==> is_term_byte(s[i]),
    ensures
        first_term(s) == i,
    decreases s.len(),
{
    if s.len() == 0 {
    } else if is_term_byte(s[0]) {
    } else {
        assert forall|j: int| 0 <= j < i - 1 implies !is_term_byte(s.skip(1)[j]) by {
            assert(s.skip(1)[j] == s[j + 1]);
        }
        if i - 1 < s.skip(1).len() {
            assert(s.skip(1)[i - 1] == s[i]);
        }
        lemma_first_term_is(s.skip(1), i - 1);
    }
}

/// The terminator-stripped lines of `s`, in order.
pub open spec fn split_lines(s: Seq<u8>) -> Seq<Seq<u8>>
    decreases s.len() via split_lines_decreases
{
    if s.len() == 0 {
        Seq::empty()
    } else {
        let i = first_term(s);
        if i == s.len() {
            seq![s]
        } else {
            seq![s.take(i)] + split_lines(s.skip(i + term_len_at(s, i)))
        }
    }
}

#[via_fn]
proof fn split_lines_decreases(s: Seq<u8>) {
    lemma_first_term_bounds(s);
}

/// No line produced by `split_lines` contains a terminator byte.
pub proof fn lemma_split_lines_term_free(s: Seq<u8>)
    ensures
        forall|k: int, j: int|
            0 <= k < split_lines(s).len() && 0 <= j < split_lines(s)[k].len()
                ==> !is_term_byte(#[trigger] split_lines(s)[k][j]),
    decreases s.len(),
{
    lemma_first_term_bounds(s);
    if s.len() == 0 {
    } else {
        let i = first_term(s);
        if i == s.len() {
            assert forall|k: int, j: int|
                0 <= k < split_lines(s).len() && 0 <= j < split_lines(s)[k].len() implies !is_term_byte(
                #[trigger] split_lines(s)[k][j],
            ) by {
                assert(split_lines(s)[k] == s);
            }
        } else {
            let rest = s.skip(i + term_len_at(s, i));
            lemma_split_lines_term_free(rest);
            assert forall|k: int, j: int|
                0 <= k < split_lines(s).len() && 0 <= j < split_lines(s)[k].len() implies !is_term_byte(
                #[trigger] split_lines(s)[k][j],
            ) by {
                if k == 0 {
                    assert(split_lines(s)[k] == s.take(i));
                    assert(s.take(i)[j] == s[j]);
                } else {
                    assert(split_lines(s)[k] == split_lines(rest)[k - 1]);
                }
            }
        }
    }
}

/// The views of a sequence of byte vectors.
pub open spec fn views(lines: Seq<Vec<u8>>) -> Seq<Seq<u8>> {
    lines.map_values(|l: Vec<u8>| l@)
}

/// Split `text` into its terminator-stripped lines, in order.
pub fn split_into_lines(text: &Vec<u8>) -> (lines: Vec<Vec<u8>>)
    ensures
        views(lines@) == split_lines(text@),
{
    let mut lines: Vec<Vec<u8>> = Vec::new();
    let mut pos: usize = 0;
    proof {
        assert(text@.skip(0) =~= text@);
        assert(views(lines@) + split_lines(text@.skip(0)) =~= split_lines(text@));
    }
    while pos < text.len()
        invariant
            pos <= text.len(),
            split_lines(text@) == views(lines@) + split_lines(text@.skip(pos as int)),
        decreases text@.len() - pos,
    {
        let ghost rest = text@.skip(pos as int);
        let mut k: usize = pos;
        while k < text.len() && text[k] != 10 && text[k] != 13
            invariant
                pos <= k <= text.len(),
                forall|j: int| pos <= j < k ==> !is_term_byte(text@[j]),
            decreases text@.len() - k,
        {
            k = k + 1;
        }
        proof {
            assert forall|j: int| 0 <= j < k - pos implies !is_term_byte(rest[j]) by {
                assert(rest[j] == text@[pos + j]);
            }
            if k < text.len() {
                assert(rest[k - pos] == text@[k as int]);
            }
            lemma_first_term_is(rest, k - pos);
        }
        let mut line: Vec<u8> = Vec::new();
        let mut m: usize = pos;
        while m < k
            invariant
                pos <= m <= k <= text.len(),
                line@ == text@.subrange(pos as int, m as int),
            decreases k - m,
        {
            let b = text[m];
            line.push(b);
            proof {
                assert(line@ =~= text@.subrange(pos as int, m + 1));
            }
            m = m + 1;
        }
        proof {
            assert(line@ =~= rest.take(k - pos));
        }
        let ghost old_views = views(lines@);
        lines.push(line);
        proof {
            assert(views(lines@) =~= old_views.push(line@));
        }
        if k < text.len() {
            let ghost i = k - pos;
            let ghost tl = term_len_at(rest, i);
            proof {
                assert(rest[i] == text@[k as int]);
                if i + 1 < rest.len() {
                    assert(rest[i + 1] == text@[k + 1]);
                }
            }
            if text[k] == 13 && k + 1 < text.len() && text[k + 1] == 10 {
                proof {
                    assert(tl == 2);
                    assert(rest.skip(i + tl) =~= text@.skip(k + 2));
                }
                pos = k + 2;
            } else {
                proof {
                    assert(tl == 1);
                    assert(rest.skip(i + tl) =~= text@.skip(k + 1));
                }
                pos = k + 1;
            }
        } else {
            proof {
                assert(first_term(rest) == rest.len());
                assert(line@ =~= rest);
                assert(split_lines(rest) == seq![rest]);
                assert(text@.skip(k as int) =~= Seq::<u8>::empty());
                assert(views(lines@) + split_lines(text@.skip(k as int)) =~= old_views + split_lines(
                    rest,
                ));
            }
            pos = k;
        }
    }
    proof {
        assert(text@.skip(pos as int) =~= Seq::<u8>::empty());
        assert(views(lines@) + split_lines(text@.skip(pos as int)) =~= views(lines@));
    }
    lines
}

} // verus!
