//! The line deduplication pipeline: split canonical text into lines,
//! keep the first occurrence of each distinct line, and account for
//! every line read.

use vstd::prelude::*;

use crate::Stats;
use crate::decode::{canonical_text_of, decode_detected};
use crate::dedup::{
    dedup_first, first_index_of, join_lines, lemma_dedup_first_contains, lemma_dedup_first_identity,
    lemma_dedup_first_len, lemma_dedup_first_no_dups, lemma_dedup_first_order, lemma_join_last,
    lemma_join_push, lemma_split_of_join,
};
use crate::lines::{is_term_byte, lemma_split_lines_term_free, split_into_lines, split_lines, views};

verus! {

/// The distinct lines of canonical text `s`, first occurrences in order.
pub open spec fn dedup_lines_of(s: Seq<u8>) -> Seq<Seq<u8>> {
    dedup_first(split_lines(s))
}

/// The deduplicated output text for canonical input text `s`.
pub open spec fn dedup_output_of(s: Seq<u8>) -> Seq<u8> {
    join_lines(dedup_lines_of(s))
}

/// How many lines canonical text `s` holds.
pub open spec fn total_lines_of(s: Seq<u8>) -> int {
    split_lines(s).len() as int
}

/// How many lines of canonical text `s` are written: its distinct lines.
pub open spec fn lines_written_of(s: Seq<u8>) -> int {
    dedup_lines_of(s).len() as int
}

/// How many lines of canonical text `s` repeat an earlier line.
pub open spec fn duplicate_lines_of(s: Seq<u8>) -> int {
    total_lines_of(s) - lines_written_of(s)
}

/// Byte-for-byte equality of two byte vectors.
fn bytes_eq(a: &Vec<u8>, b: &Vec<u8>) -> (r: bool)
    ensures
        r == (a@ == b@),
{
    if a.len() != b.len() {
        return false;
    }
    let mut i: usize = 0;
    while i < a.len()
        invariant
            a@.len() == b@.len(),
            i <= a@.len(),
            forall|j: int| 0 <= j < i ==> a@[j] == b@[j],
        decreases a@.len() - i,
    {
        if a[i] != b[i] {
            return false;
        }
        i = i + 1;
    }
    proof {
        assert(a@ =~= b@);
    }
    true
}

/// Whether `line` already occurs among the kept lines.
fn contains_line(kept: &Vec<Vec<u8>>, line: &Vec<u8>) -> (r: bool)
    ensures
        r == views(kept@).contains(line@),
{
    let mut i: usize = 0;
    while i < kept.len()
        invariant
            i <= kept@.len(),
            forall|j: int| 0 <= j < i ==> views(kept@)[j] != line@,
        decreases kept@.len() - i,
    {
        if bytes_eq(&kept[i], line) {
            proof {
                assert(views(kept@)[i as int] == line@);
            }
            return true;
        }
        proof {
            assert(views(kept@)[i as int] == kept@[i as int]@);
        }
        i = i + 1;
    }
    proof {
        if views(kept@).contains(line@) {
            let j = choose|j: int| 0 <= j < views(kept@).len() && views(kept@)[j] == line@;
            assert(false);
        }
    }
    false
}

/// A fresh copy of a line's bytes.
fn copy_bytes(line: &Vec<u8>) -> (r: Vec<u8>)
    ensures
        r@ == line@,
{
    let mut r: Vec<u8> = Vec::new();
    let mut m: usize = 0;
    while m < line.len()
        invariant
            m <= line@.len(),
            r@ == line@.take(m as int),
        decreases line@.len() - m,
    {
        let b = line[m];
        r.push(b);
        proof {
            assert(r@ =~= line@.take(m + 1));
        }
        m = m + 1;
    }
    proof {
        assert(line@.take(line@.len() as int) =~= line@);
    }
    r
}

/// Append `line` and a single canonical newline to `out`.
fn push_line(out: &mut Vec<u8>, line: &Vec<u8>)
    ensures
        final(out)@ == old(out)@ + line@ + seq![10u8],
{
    let mut m: usize = 0;
    while m < line.len()
        invariant
            m <= line@.len(),
            out@ == old(out)@ + line@.take(m as int),
        decreases line@.len() - m,
    {
        let b = line[m];
        out.push(b);
        proof {
            assert(out@ =~= old(out)@ + line@.take(m + 1));
        }
        m = m + 1;
    }
    out.push(10);
    proof {
        assert(line@.take(line@.len() as int) =~= line@);
        assert(out@ =~= old(out)@ + line@ + seq![10u8]);
    }
}

/// Remove duplicate lines from canonical text: the first occurrence of
/// each distinct terminator-stripped line is written, each followed by
/// exactly one newline, and every input line is counted either as
/// written or as a duplicate.
pub fn dedup_text(text: &Vec<u8>) -> (r: (Vec<u8>, Stats))
    ensures
        r.0@ == dedup_output_of(text@),
        r.1.total_lines == total_lines_of(text@),
        r.1.lines_written == lines_written_of(text@),
        r.1.duplicate_lines == duplicate_lines_of(text@),
        r.1.consistent(),
        text@.len() == 0 ==> r.0@.len() == 0 && r.1.total_lines == 0,
{
    let lines = split_into_lines(text);
    let ghost ls = split_lines(text@);
    let mut kept: Vec<Vec<u8>> = Vec::new();
    let mut out: Vec<u8> = Vec::new();
    let mut total: u64 = 0;
    let mut dups: u64 = 0;
    let mut written: u64 = 0;
    let mut i: usize = 0;
    proof {
        assert(ls.take(0) =~= Seq::<Seq<u8>>::empty());
        assert(views(kept@) =~= Seq::<Seq<u8>>::empty());
    }
    while i < lines.len()
        invariant
            i <= lines@.len(),
            views(lines@) == ls,
            views(kept@) == dedup_first(ls.take(i as int)),
            out@ == join_lines(views(kept@)),
            total == i,
            written == views(kept@).len(),
            total == dups + written,
        decreases lines@.len() - i,
    {
        let line = &lines[i];
        let ghost prefix = ls.take(i as int);
        proof {
            assert(line@ == views(lines@)[i as int]);
            assert(ls.take(i + 1).drop_last() =~= prefix);
            assert(ls.take(i + 1).last() == ls[i as int]);
            lemma_dedup_first_contains(prefix);
        }
        total = total + 1;
        if contains_line(&kept, line) {
            dups = dups + 1;
            proof {
                assert(prefix.contains(line@));
                assert(dedup_first(ls.take(i + 1)) == dedup_first(prefix));
            }
        } else {
            let ghost old_views = views(kept@);
            let c = copy_bytes(line);
            kept.push(c);
            push_line(&mut out, line);
            written = written + 1;
            proof {
                assert(!prefix.contains(line@));
                assert(views(kept@) =~= old_views.push(line@));
                assert(dedup_first(ls.take(i + 1)) == dedup_first(prefix).push(line@));
                lemma_join_push(old_views, line@);
            }
        }
        i = i + 1;
    }
    proof {
        assert(ls.take(ls.len() as int) =~= ls);
    }
    let stats = Stats { total_lines: total, duplicate_lines: dups, lines_written: written };
    (out, stats)
}

/// Process one input's raw bytes: decode them to canonical text under
/// the detected encoding, falling back to the default where detection
/// cannot be asked, then deduplicate the text line by line.
pub fn process_bytes(raw: &Vec<u8>) -> (r: (Vec<u8>, Stats))
    requires
        4 * raw@.len() <= usize::MAX,
    ensures
        r.0@ == dedup_output_of(canonical_text_of(raw@)),
        r.1.total_lines == total_lines_of(canonical_text_of(raw@)),
        r.1.lines_written == lines_written_of(canonical_text_of(raw@)),
        r.1.duplicate_lines == duplicate_lines_of(canonical_text_of(raw@)),
        r.1.consistent(),
        raw@.len() == 0 ==> r.0@.len() == 0 && r.1.total_lines == 0,
{
    let text = decode_detected(raw);
    dedup_text(&text)
}

/// Accounting law: for any canonical text, the lines read split exactly
/// into duplicates and written lines.
pub proof fn lemma_line_accounting(s: Seq<u8>)
    ensures
        total_lines_of(s) == duplicate_lines_of(s) + lines_written_of(s),
        0 <= lines_written_of(s) <= total_lines_of(s),
{
    lemma_dedup_first_len(split_lines(s));
}

/// No distinct output line holds a terminator byte.
pub proof fn lemma_dedup_lines_term_free(s: Seq<u8>)
    ensures
        forall|k: int, j: int|
            0 <= k < dedup_lines_of(s).len() && 0 <= j < dedup_lines_of(s)[k].len()
                ==> !is_term_byte(#[trigger] dedup_lines_of(s)[k][j]),
{
    let ls = split_lines(s);
    let d = dedup_lines_of(s);
    lemma_split_lines_term_free(s);
    lemma_dedup_first_contains(ls);
    assert forall|k: int, j: int|
        0 <= k < d.len() && 0 <= j < d[k].len() implies !is_term_byte(
        #[trigger] d[k][j],
    ) by {
        assert(d.contains(d[k]));
        assert(ls.contains(d[k]));
        let m = choose|m: int| 0 <= m < ls.len() && ls[m] == d[k];
        assert(!is_term_byte(ls[m][j]));
    }
}

/// Terminator normalization law: the output is precisely the distinct
/// lines, none of which holds a terminator byte, each followed by one
/// canonical newline; non-empty output ends with that newline.
pub proof fn lemma_terminator_normalization(s: Seq<u8>)
    ensures
        dedup_output_of(s) == join_lines(dedup_lines_of(s)),
        forall|k: int, j: int|
            0 <= k < dedup_lines_of(s).len() && 0 <= j < dedup_lines_of(s)[k].len()
                ==> !is_term_byte(#[trigger] dedup_lines_of(s)[k][j]),
        dedup_lines_of(s).len() > 0 ==> dedup_output_of(s).len() > 0 && dedup_output_of(s).last()
            == 10u8,
        dedup_lines_of(s).len() == 0 ==> dedup_output_of(s).len() == 0,
{
    lemma_dedup_lines_term_free(s);
    if dedup_lines_of(s).len() > 0 {
        lemma_join_last(dedup_lines_of(s));
    }
}

/// Idempotence law: re-reading the output finds its lines already
/// distinct, so a second run writes the same lines, counts no
/// duplicates, and leaves the text unchanged.
pub proof fn lemma_idempotence(s: Seq<u8>)
    ensures
        split_lines(dedup_output_of(s)) == dedup_lines_of(s),
        dedup_lines_of(dedup_output_of(s)) == dedup_lines_of(s),
        dedup_output_of(dedup_output_of(s)) == dedup_output_of(s),
        duplicate_lines_of(dedup_output_of(s)) == 0,
        lines_written_of(dedup_output_of(s)) == lines_written_of(s),
{
    let ls = split_lines(s);
    let d = dedup_lines_of(s);
    lemma_dedup_lines_term_free(s);
    lemma_split_of_join(d);
    lemma_dedup_first_no_dups(ls);
    lemma_dedup_first_identity(d);
}

/// Order preservation law: the distinct output lines are exactly the
/// set of input lines, free of repetition, each standing at its first
/// occurrence, listed in the order of those first occurrences.
pub proof fn lemma_order_preservation(s: Seq<u8>)
    ensures
        forall|x: Seq<u8>| #[trigger] dedup_lines_of(s).contains(x) <==> split_lines(s).contains(x),
        forall|i: int, j: int|
            0 <= i < j < dedup_lines_of(s).len() ==> #[trigger] dedup_lines_of(s)[i]
                != #[trigger] dedup_lines_of(s)[j],
        forall|k: int|
            0 <= k < dedup_lines_of(s).len() ==> #[trigger] dedup_lines_of(s)[k] == split_lines(
                s,
            )[first_index_of(split_lines(s), dedup_lines_of(s)[k])],
        forall|k1: int, k2: int|
            0 <= k1 < k2 < dedup_lines_of(s).len() ==> first_index_of(
                split_lines(s),
                #[trigger] dedup_lines_of(s)[k1],
            ) < first_index_of(split_lines(s), #[trigger] dedup_lines_of(s)[k2]),
{
    lemma_dedup_first_contains(split_lines(s));
    lemma_dedup_first_no_dups(split_lines(s));
    lemma_dedup_first_order(split_lines(s));
}

} // verus!
