use vstd::prelude::*;

verus! {

/// The byte of a line feed.
pub const LF: u8 = 10;

/// The byte of a carriage return.
pub const CR: u8 = 13;

/// Number of bytes before the first line feed of `s`, or the length of `s`
/// when it holds none.
pub open spec fn line_len(s: Seq<u8>) -> nat
    decreases s.len(),
{
    if s.len() == 0 || s[0] == LF {
        0
    } else {
        1 + line_len(s.drop_first())
    }
}

/// A line without its terminator: a carriage return that ended it is dropped.
pub open spec fn strip_cr(l: Seq<u8>) -> Seq<u8> {
    if l.len() > 0 && l.last() == CR {
        l.drop_last()
    } else {
        l
    }
}

/// The lines of `s`. A line ends at a line feed, or at a carriage return and
/// line feed; neither belongs to the line. The last line may lack a
/// terminator, and a text that ends with one has no empty line after it.
pub open spec fn lines_of(s: Seq<u8>) -> Seq<Seq<u8>>
    decreases s.len(),
{
    if s.len() == 0 {
        seq![]
    } else {
        let k = line_len(s);
        if k >= s.len() {
            seq![s]
        } else {
            seq![strip_cr(s.subrange(0, k as int))] + lines_of(s.subrange(k + 1 as int, s.len() as int))
        }
    }
}

/// `needle` occurs in `hay` starting at byte `i`.
pub open spec fn occurs_at(hay: Seq<u8>, needle: Seq<u8>, i: int) -> bool {
    0 <= i && i + needle.len() <= hay.len() && hay.subrange(i, i + needle.len()) == needle
}

/// `needle` occurs in `hay` as a contiguous run of bytes.
pub open spec fn contains(hay: Seq<u8>, needle: Seq<u8>) -> bool {
    exists|i: int| occurs_at(hay, needle, i)
}

/// The lines of `contents` that contain `query`, in the order of `contents`.
pub open spec fn matching_lines(query: Seq<u8>, contents: Seq<u8>) -> Seq<Seq<u8>> {
    lines_of(contents).filter(|l: Seq<u8>| contains(l, query))
}

/// The first `k` bytes of `s` hold no line feed, and byte `k` is one or `s`
/// ends there: then `k` is the length of the first line.
pub(crate) proof fn lemma_line_len(s: Seq<u8>, k: int)
    requires
        0 <= k <= s.len(),
        forall|j: int| 0 <= j < k ==> s[j] != LF,
        k == s.len() || s[k] == LF,
    ensures
        line_len(s) == k,
    decreases k,
{
    if k > 0 {
        let t = s.drop_first();
        assert forall|j: int| 0 <= j < k - 1 implies t[j] != LF by {
            assert(t[j] == s[j + 1]);
        }
        lemma_line_len(t, k - 1);
    }
}

/// `sub` is `sup` with some elements left out: the index of each element of
/// `sub` in `sup` is given by `idx`, and those indices increase.
pub open spec fn subsequence_by(sub: Seq<Seq<u8>>, sup: Seq<Seq<u8>>, idx: Seq<int>) -> bool {
    &&& idx.len() == sub.len()
    &&& forall|i: int| 0 <= i < idx.len() ==> 0 <= #[trigger] idx[i] < sup.len() && sub[i] == sup[idx[i]]
    &&& forall|i: int, j: int| 0 <= i < j < idx.len() ==> idx[i] < idx[j]
}

/// `sub` is `sup` with some elements left out, the rest kept in order.
pub open spec fn is_subsequence(sub: Seq<Seq<u8>>, sup: Seq<Seq<u8>>) -> bool {
    exists|idx: Seq<int>| subsequence_by(sub, sup, idx)
}

proof fn lemma_filter_subsequence(s: Seq<Seq<u8>>, pred: spec_fn(Seq<u8>) -> bool)
    ensures
        is_subsequence(s.filter(pred), s),
    decreases s.len(),
{
    reveal(Seq::filter);
    if s.len() == 0 {
        assert(subsequence_by(s.filter(pred), s, Seq::<int>::empty()));
    } else {
        let init = s.drop_last();
        lemma_filter_subsequence(init, pred);
        let idx = choose|idx: Seq<int>| subsequence_by(init.filter(pred), init, idx);
        if pred(s.last()) {
            let idx2 = idx.push(s.len() - 1);
            assert(subsequence_by(s.filter(pred), s, idx2));
        } else {
            assert(subsequence_by(s.filter(pred), s, idx));
        }
    }
}

proof fn lemma_filter_all(s: Seq<Seq<u8>>, pred: spec_fn(Seq<u8>) -> bool)
    requires
        forall|l: Seq<u8>| #[trigger] pred(l),
    ensures
        s.filter(pred) == s,
    decreases s.len(),
{
    reveal(Seq::filter);
    if s.len() == 0 {
        assert(s.filter(pred) =~= s);
    } else {
        lemma_filter_all(s.drop_last(), pred);
        assert(s.drop_last().push(s.last()) =~= s);
    }
}

/// Every line that matches contains the query, and the matching lines are
/// the lines of the text with some left out, in the order of the text.
pub proof fn lemma_matches_contain_query_in_order(query: Seq<u8>, contents: Seq<u8>)
    ensures
        forall|i: int|
            0 <= i < matching_lines(query, contents).len() ==> contains(
                #[trigger] matching_lines(query, contents)[i],
                query,
            ),
        is_subsequence(matching_lines(query, contents), lines_of(contents)),
{
    let pred = |l: Seq<u8>| contains(l, query);
    let m = lines_of(contents).filter(pred);
    assert forall|i: int| 0 <= i < m.len() implies contains(#[trigger] m[i], query) by {
        lines_of(contents).filter_lemma(pred);
    }
    lemma_filter_subsequence(lines_of(contents), pred);
}

/// The empty query matches every line: the result is all the lines of the
/// text, unchanged and in order.
pub proof fn lemma_empty_query_matches_all(contents: Seq<u8>)
    ensures
        matching_lines(Seq::empty(), contents) == lines_of(contents),
{
    let pred = |l: Seq<u8>| contains(l, Seq::<u8>::empty());
    assert forall|l: Seq<u8>| #[trigger] pred(l) by {
        assert(l.subrange(0, 0) =~= Seq::<u8>::empty());
        assert(occurs_at(l, Seq::<u8>::empty(), 0));
    }
    lemma_filter_all(lines_of(contents), pred);
}

/// An empty text has no lines, so nothing matches in it.
pub proof fn lemma_empty_contents_match_nothing(query: Seq<u8>)
    ensures
        matching_lines(query, Seq::empty()) == Seq::<Seq<u8>>::empty(),
{
    reveal(Seq::filter);
    assert(lines_of(Seq::<u8>::empty()) =~= Seq::<Seq<u8>>::empty());
}

} // verus!
