//! First-occurrence deduplication of a sequence of lines, and joining
//! the kept lines back into canonical text.

use vstd::prelude::*;

use crate::lines::{first_term, is_term_byte, lemma_first_term_is, split_lines, term_len_at};

verus! {

/// The first occurrences of the elements of `lines`, in order:
/// element `lines[i]` is kept exactly when it does not occur earlier.
pub open spec fn dedup_first(lines: Seq<Seq<u8>>) -> Seq<Seq<u8>>
    decreases lines.len(),
{
    if lines.len() == 0 {
        Seq::empty()
    } else if lines.drop_last().contains(lines.last()) {
        dedup_first(lines.drop_last())
    } else {
        dedup_first(lines.drop_last()).push(lines.last())
    }
}

/// Deduplication keeps exactly the set of lines of the input.
pub proof fn lemma_dedup_first_contains(lines: Seq<Seq<u8>>)
    ensures
        forall|x: Seq<u8>| #[trigger] dedup_first(lines).contains(x) <==> lines.contains(x),
    decreases lines.len(),
{
    if lines.len() == 0 {
    } else {
        let prefix = lines.drop_last();
        lemma_dedup_first_contains(prefix);
        assert forall|x: Seq<u8>| #[trigger] dedup_first(lines).contains(x) implies lines.contains(
            x,
        ) by {
            if dedup_first(prefix).contains(x) {
                let i = choose|i: int| 0 <= i < prefix.len() && prefix[i] == x;
                assert(lines[i] == x);
            } else {
                assert(x == lines.last());
                assert(lines[lines.len() - 1] == x);
            }
        }
        assert forall|x: Seq<u8>| lines.contains(x) implies #[trigger] dedup_first(lines).contains(
            x,
        ) by {
            let i = choose|i: int| 0 <= i < lines.len() && lines[i] == x;
            if i < lines.len() - 1 {
                assert(prefix[i] == x);
                assert(dedup_first(prefix).contains(x));
                if !prefix.contains(lines.last()) {
                    let j = choose|j: int|
                        0 <= j < dedup_first(prefix).len() && dedup_first(prefix)[j] == x;
                    assert(dedup_first(lines)[j] == x);
                }
            } else {
                assert(x == lines.last());
                if prefix.contains(x) {
                    assert(dedup_first(prefix).contains(x));
                } else {
                    assert(dedup_first(lines).last() == x);
                }
            }
        }
    }
}

/// Deduplication never adds lines.
pub proof fn lemma_dedup_first_len(lines: Seq<Seq<u8>>)
    ensures
        0 <= dedup_first(lines).len() <= lines.len(),
    decreases lines.len(),
{
    if lines.len() == 0 {
    } else {
        lemma_dedup_first_len(lines.drop_last());
    }
}

/// Deduplication leaves no two equal lines behind.
pub proof fn lemma_dedup_first_no_dups(lines: Seq<Seq<u8>>)
    ensures
        forall|i: int, j: int|
            0 <= i < j < dedup_first(lines).len() ==> #[trigger] dedup_first(lines)[i]
                != #[trigger] dedup_first(lines)[j],
    decreases lines.len(),
{
    if lines.len() == 0 {
    } else {
        let prefix = lines.drop_last();
        lemma_dedup_first_no_dups(prefix);
        if !prefix.contains(lines.last()) {
            lemma_dedup_first_contains(prefix);
            assert forall|i: int, j: int|
                0 <= i < j < dedup_first(lines).len() implies #[trigger] dedup_first(lines)[i]
                != #[trigger] dedup_first(lines)[j] by {
                if j < dedup_first(lines).len() - 1 {
                    assert(dedup_first(lines)[i] == dedup_first(prefix)[i]);
                    assert(dedup_first(lines)[j] == dedup_first(prefix)[j]);
                } else {
                    assert(dedup_first(lines)[i] == dedup_first(prefix)[i]);
                    assert(dedup_first(lines)[j] == lines.last());
                    assert(dedup_first(prefix).contains(dedup_first(prefix)[i]));
                }
            }
        }
    }
}

/// On input already free of duplicates, deduplication is the identity.
pub proof fn lemma_dedup_first_identity(lines: Seq<Seq<u8>>)
    requires
        forall|i: int, j: int| 0 <= i < j < lines.len() ==> lines[i] != lines[j],
    ensures
        dedup_first(lines) == lines,
    decreases lines.len(),
{
    if lines.len() == 0 {
        assert(dedup_first(lines) =~= lines);
    } else {
        let prefix = lines.drop_last();
        if prefix.contains(lines.last()) {
            let i = choose|i: int| 0 <= i < prefix.len() && prefix[i] == lines.last();
            assert(lines[i] == lines[lines.len() - 1]);
            assert(false);
        } else {
            lemma_dedup_first_identity(prefix);
            assert(dedup_first(lines) =~= lines);
        }
    }
}

/// Index of the first occurrence of `x` in `lines` (meaningful when
/// `lines` contains `x`).
pub open spec fn first_index_of(lines: Seq<Seq<u8>>, x: Seq<u8>) -> int
    decreases lines.len(),
{
    if lines.len() == 0 {
        0
    } else if lines.first() == x {
        0
    } else {
        1 + first_index_of(lines.drop_first(), x)
    }
}

pub proof fn lemma_first_index_of_mem(lines: Seq<Seq<u8>>, x: Seq<u8>)
    requires
        lines.contains(x),
    ensures
        0 <= first_index_of(lines, x) < lines.len(),
        lines[first_index_of(lines, x)] == x,
        forall|j: int| 0 <= j < first_index_of(lines, x) ==> lines[j] != x,
    decreases lines.len(),
{
    if lines.first() == x {
    } else {
        let tail = lines.drop_first();
        let i = choose|i: int| 0 <= i < lines.len() && lines[i] == x;
        assert(tail[i - 1] == x);
        lemma_first_index_of_mem(tail, x);
        assert forall|j: int| 0 <= j < first_index_of(lines, x) implies lines[j] != x by {
            if j > 0 {
                assert(tail[j - 1] == lines[j]);
            }
        }
    }
}

/// A first occurrence within the prefix is a first occurrence in the whole.
pub proof fn lemma_first_index_of_prefix(lines: Seq<Seq<u8>>, x: Seq<u8>)
    requires
        lines.len() > 0,
        lines.drop_last().contains(x),
    ensures
        first_index_of(lines, x) == first_index_of(lines.drop_last(), x),
    decreases lines.len(),
{
    let prefix = lines.drop_last();
    if lines.first() == x {
        assert(prefix.first() == x);
    } else {
        let tail = lines.drop_first();
        let i = choose|i: int| 0 <= i < prefix.len() && prefix[i] == x;
        assert(i > 0);
        assert(tail.drop_last() =~= prefix.drop_first());
        assert(tail.drop_last()[i - 1] == prefix[i]);
        lemma_first_index_of_prefix(tail, x);
    }
}

/// A line seen nowhere earlier has its first occurrence at the very end.
pub proof fn lemma_first_index_of_last(lines: Seq<Seq<u8>>, x: Seq<u8>)
    requires
        lines.len() > 0,
        !lines.drop_last().contains(x),
        lines.last() == x,
    ensures
        first_index_of(lines, x) == lines.len() - 1,
    decreases lines.len(),
{
    let prefix = lines.drop_last();
    if lines.first() == x {
        if lines.len() > 1 {
            assert(prefix[0] == x);
            assert(false);
        }
    } else {
        let tail = lines.drop_first();
        assert(tail.drop_last() =~= prefix.drop_first());
        assert forall|j: int| 0 <= j < tail.drop_last().len() implies tail.drop_last()[j] != x by {
            assert(tail.drop_last()[j] == prefix[j + 1]);
        }
        assert(tail.last() == x);
        lemma_first_index_of_last(tail, x);
    }
}

/// Order preservation: the deduplicated sequence lists, in input order,
/// exactly the first occurrence of each distinct input line.
pub proof fn lemma_dedup_first_order(lines: Seq<Seq<u8>>)
    ensures
        forall|k: int|
            0 <= k < dedup_first(lines).len() ==> lines.contains(#[trigger] dedup_first(lines)[k])
                && dedup_first(lines)[k] == lines[first_index_of(lines, dedup_first(lines)[k])],
        forall|k1: int, k2: int|
            0 <= k1 < k2 < dedup_first(lines).len() ==> first_index_of(
                lines,
                #[trigger] dedup_first(lines)[k1],
            ) < first_index_of(lines, #[trigger] dedup_first(lines)[k2]),
    decreases lines.len(),
{
    if lines.len() == 0 {
    } else {
        let prefix = lines.drop_last();
        let d = dedup_first(lines);
        lemma_dedup_first_order(prefix);
        lemma_dedup_first_contains(prefix);
        assert forall|k: int| 0 <= k < d.len() implies lines.contains(#[trigger] d[k]) && d[k]
            == lines[first_index_of(lines, d[k])] by {
            if k < dedup_first(prefix).len() {
                assert(d[k] == dedup_first(prefix)[k]);
                assert(prefix.contains(d[k]));
                let i = choose|i: int| 0 <= i < prefix.len() && prefix[i] == d[k];
                assert(lines[i] == d[k]);
                lemma_first_index_of_prefix(lines, d[k]);
                lemma_first_index_of_mem(prefix, d[k]);
                assert(prefix[first_index_of(prefix, d[k])] == lines[first_index_of(
                    prefix,
                    d[k],
                )]);
            } else {
                assert(d[k] == lines.last());
                assert(lines[lines.len() - 1] == d[k]);
                lemma_first_index_of_last(lines, d[k]);
            }
        }
        assert forall|k1: int, k2: int| 0 <= k1 < k2 < d.len() implies first_index_of(
            lines,
            #[trigger] d[k1],
        ) < first_index_of(lines, #[trigger] d[k2]) by {
            if k2 < dedup_first(prefix).len() {
                assert(d[k1] == dedup_first(prefix)[k1]);
                assert(d[k2] == dedup_first(prefix)[k2]);
                assert(prefix.contains(d[k1]));
                assert(prefix.contains(d[k2]));
                lemma_first_index_of_prefix(lines, d[k1]);
                lemma_first_index_of_prefix(lines, d[k2]);
            } else {
                assert(!prefix.contains(lines.last()));
                assert(d[k2] == lines.last());
                assert(d[k1] == dedup_first(prefix)[k1]);
                assert(prefix.contains(d[k1]));
                lemma_first_index_of_prefix(lines, d[k1]);
                lemma_first_index_of_mem(prefix, d[k1]);
                lemma_first_index_of_last(lines, d[k2]);
            }
        }
    }
}

/// The canonical text for a sequence of lines: each line followed by
/// exactly one line feed.
pub open spec fn join_lines(lines: Seq<Seq<u8>>) -> Seq<u8>
    decreases lines.len(),
{
    if lines.len() == 0 {
        Seq::empty()
    } else {
        lines.first() + seq![10u8] + join_lines(lines.drop_first())
    }
}

pub proof fn lemma_join_push(lines: Seq<Seq<u8>>, l: Seq<u8>)
    ensures
        join_lines(lines.push(l)) == join_lines(lines) + l + seq![10u8],
    decreases lines.len(),
{
    if lines.len() == 0 {
        assert(lines.push(l).drop_first() =~= Seq::<Seq<u8>>::empty());
        assert(lines.push(l).first() == l);
        assert(join_lines(lines.push(l)) == lines.push(l).first() + seq![10u8] + join_lines(
            lines.push(l).drop_first(),
        ));
        assert(join_lines(lines.push(l).drop_first()) == Seq::<u8>::empty());
        assert(join_lines(lines.push(l)) =~= join_lines(lines) + l + seq![10u8]);
    } else {
        assert(lines.push(l).drop_first() =~= lines.drop_first().push(l));
        assert(lines.push(l).first() == lines.first());
        lemma_join_push(lines.drop_first(), l);
        assert(join_lines(lines.push(l)) == lines.first() + seq![10u8] + (join_lines(
            lines.drop_first(),
        ) + l + seq![10u8]));
        assert(join_lines(lines.push(l)) =~= join_lines(lines) + l + seq![10u8]);
    }
}

/// Non-empty joined text ends with the canonical newline.
pub proof fn lemma_join_last(lines: Seq<Seq<u8>>)
    requires
        lines.len() > 0,
    ensures
        join_lines(lines).len() > 0,
        join_lines(lines).last() == 10u8,
    decreases lines.len(),
{
    if lines.len() == 1 {
    } else {
        lemma_join_last(lines.drop_first());
    }
}

/// Splitting the joined text of terminator-free lines recovers the lines.
pub proof fn lemma_split_of_join(lines: Seq<Seq<u8>>)
    requires
        forall|k: int, j: int|
            0 <= k < lines.len() && 0 <= j < lines[k].len() ==> !is_term_byte(
                #[trigger] lines[k][j],
            ),
    ensures
        split_lines(join_lines(lines)) == lines,
    decreases lines.len(),
{
    if lines.len() == 0 {
        assert(split_lines(join_lines(lines)) =~= lines);
    } else {
        let head = lines.first();
        let rest = lines.drop_first();
        let s = join_lines(lines);
        assert forall|j: int| 0 <= j < head.len() implies !is_term_byte(s[j]) by {
            assert(s[j] == lines[0][j]);
        }
        assert(s[head.len() as int] == 10u8);
        lemma_first_term_is(s, head.len() as int);
        assert(first_term(s) < s.len());
        assert(term_len_at(s, head.len() as int) == 1);
        assert(s.take(head.len() as int) =~= head);
        assert(s.skip(head.len() + 1 as int) =~= join_lines(rest));
        assert forall|k: int, j: int|
            0 <= k < rest.len() && 0 <= j < rest[k].len() implies !is_term_byte(
            #[trigger] rest[k][j],
        ) by {
            assert(rest[k] == lines[k + 1]);
        }
        lemma_split_of_join(rest);
        assert(split_lines(join_lines(lines)) =~= lines);
    }
}

} // verus!
