use vstd::prelude::*;
use vstd::string::StringSliceAdditionalSpecFns;
use vstd::utf8::*;
use crate::text::{contains, lemma_line_len, lines_of, matching_lines, occurs_at, strip_cr, CR, LF};

verus! {

/// Whether the bytes of `line` contain those of `query`.
pub fn line_contains(line: &str, query: &str) -> (r: bool)
    ensures
        r == contains(line.spec_bytes(), query.spec_bytes()),
{
    let h = line.as_bytes();
    let n = query.as_bytes();
    if n.len() > h.len() {
        proof {
            assert forall|i: int| !occurs_at(h@, n@, i) by {}
        }
        return false;
    }
    let last: usize = h.len() - n.len();
    let mut i: usize = 0;
    while i <= last
        invariant
            h@ == line.spec_bytes(),
            n@ == query.spec_bytes(),
            last == h@.len() - n@.len(),
            n@.len() <= h@.len(),
            h@.len() <= usize::MAX,
            forall|p: int| 0 <= p < i ==> !occurs_at(h@, n@, p),
        decreases last + 1 - i,
    {
        let mut j: usize = 0;
        while j < n.len() && h[i + j] == n[j]
            invariant
                i <= last,
                last == h@.len() - n@.len(),
                n@.len() <= h@.len(),
                h@.len() <= usize::MAX,
                j <= n@.len(),
                forall|m: int| 0 <= m < j ==> h@[i + m] == n@[m],
            decreases n@.len() - j,
        {
            j = j + 1;
        }
        if j == n.len() {
            proof {
                assert(h@.subrange(i as int, i + n@.len()) =~= n@);
                assert(occurs_at(h@, n@, i as int));
            }
            return true;
        }
        proof {
            assert(h@.subrange(i as int, i + n@.len())[j as int] != n@[j as int]);
        }
        i = i + 1;
    }
    proof {
        assert forall|p: int| !occurs_at(h@, n@, p) by {
            if 0 <= p && p + n@.len() <= h@.len() {
                assert(p < i);
            }
        }
    }
    false
}

/// The bytes of each line in `v`.
pub open spec fn bytes_of_lines(v: Seq<&str>) -> Seq<Seq<u8>> {
    v.map_values(|l: &str| l.spec_bytes())
}

/// Cuts the first line off a non-empty text: returns that line without its
/// terminator, and the text that follows the terminator.
fn split_first_line<'a>(text: &'a str) -> (r: (&'a str, &'a str))
    requires
        text.spec_bytes().len() > 0,
    ensures
        lines_of(text.spec_bytes()) == seq![r.0.spec_bytes()] + lines_of(r.1.spec_bytes()),
        r.1.spec_bytes().len() < text.spec_bytes().len(),
{
    broadcast use {
        encode_utf8_valid_utf8,
        is_char_boundary_start_end_of_seq,
        is_char_boundary_iff_not_is_continuation_byte,
    };

    let b = text.as_bytes();
    let mut k: usize = 0;
    while k < b.len() && b[k] != LF
        invariant
            b@ == text.spec_bytes(),
            k <= b@.len(),
            forall|j: int| 0 <= j < k ==> b@[j] != LF,
        decreases b@.len() - k,
    {
        k = k + 1;
    }
    proof {
        lemma_line_len(b@, k as int);
        assert(valid_utf8(b@));
        if k < b@.len() {
            assert(!is_continuation_byte(b@[k as int]));
        }
    }
    let (head, tail) = text.split_at(k);
    if k == b.len() {
        proof {
            assert(head.spec_bytes() =~= b@);
            assert(lines_of(tail.spec_bytes()) =~= Seq::<Seq<u8>>::empty());
            assert(lines_of(b@) =~= seq![head.spec_bytes()] + lines_of(tail.spec_bytes()));
        }
        return (head, tail);
    }
    let line: &'a str;
    if k > 0 && b[k - 1] == CR {
        proof {
            assert(valid_utf8(head.spec_bytes()));
            assert(head.spec_bytes()[k - 1] == CR);
            assert(!is_continuation_byte(head.spec_bytes()[k - 1]));
        }
        line = head.split_at(k - 1).0;
    } else {
        line = head;
    }
    proof {
        assert(tail.spec_bytes()[0] == LF);
        reveal_with_fuel(is_char_boundary, 2);
    }
    let after = tail.split_at(1).1;
    proof {
        assert(line.spec_bytes() =~= strip_cr(b@.subrange(0, k as int)));
        assert(after.spec_bytes() =~= b@.subrange(k + 1, b@.len() as int));
    }
    (line, after)
}

/// The lines of `contents` that contain `query`, in the order in which they
/// stand in `contents`. Each is a slice of `contents` without its line
/// terminator.
pub fn search<'a>(query: &str, contents: &'a str) -> (r: Vec<&'a str>)
    ensures
        bytes_of_lines(r@) == matching_lines(query.spec_bytes(), contents.spec_bytes()),
{
    let ghost pred = |l: Seq<u8>| contains(l, query.spec_bytes());
    let mut results: Vec<&'a str> = Vec::new();
    let mut rest: &'a str = contents;
    proof {
        assert(bytes_of_lines(results@) =~= Seq::<Seq<u8>>::empty());
        assert(lines_of(contents.spec_bytes()).filter(pred) =~= bytes_of_lines(results@)
            + lines_of(rest.spec_bytes()).filter(pred));
    }
    while rest.as_bytes().len() > 0
        invariant
            lines_of(contents.spec_bytes()).filter(pred) == bytes_of_lines(results@)
                + lines_of(rest.spec_bytes()).filter(pred),
            pred == (|l: Seq<u8>| contains(l, query.spec_bytes())),
        decreases rest.spec_bytes().len(),
    {
        let ghost prev = results@;
        let (line, after) = split_first_line(rest);
        proof {
            Seq::filter_distributes_over_add(seq![line.spec_bytes()], lines_of(after.spec_bytes()), pred);
            reveal_with_fuel(Seq::filter, 2);
        }
        let found = line_contains(line, query);
        if found {
            results.push(line);
        }
        proof {
            let x = lines_of(after.spec_bytes()).filter(pred);
            if found {
                assert(bytes_of_lines(results@) =~= bytes_of_lines(prev).push(line.spec_bytes()));
                assert(seq![line.spec_bytes()].filter(pred) =~= seq![line.spec_bytes()]);
                assert(bytes_of_lines(prev) + (seq![line.spec_bytes()] + x) =~= bytes_of_lines(results@) + x);
            } else {
                assert(seq![line.spec_bytes()].filter(pred) =~= Seq::<Seq<u8>>::empty());
                assert(Seq::<Seq<u8>>::empty() + x =~= x);
            }
        }
        rest = after;
    }
    proof {
        assert(lines_of(rest.spec_bytes()) =~= Seq::<Seq<u8>>::empty());
        assert(lines_of(rest.spec_bytes()).filter(pred) =~= Seq::<Seq<u8>>::empty());
        assert(bytes_of_lines(results@) + Seq::<Seq<u8>>::empty() =~= bytes_of_lines(results@));
    }
    results
}

/// Two results of `search` on the same query and text are equal line for
/// line: as bytes, and as text.
pub proof fn lemma_search_deterministic(
    query: &str,
    contents: &str,
    r1: Seq<&str>,
    r2: Seq<&str>,
)
    requires
        bytes_of_lines(r1) == matching_lines(query.spec_bytes(), contents.spec_bytes()),
        bytes_of_lines(r2) == matching_lines(query.spec_bytes(), contents.spec_bytes()),
    ensures
        r1.len() == r2.len(),
        forall|i: int| 0 <= i < r1.len() ==> #[trigger] r1[i]@ == r2[i]@,
{
    assert(r1.len() == bytes_of_lines(r1).len());
    assert forall|i: int| 0 <= i < r1.len() implies #[trigger] r1[i]@ == r2[i]@ by {
        assert(bytes_of_lines(r1)[i] == bytes_of_lines(r2)[i]);
        encode_utf8_decode_utf8(r1[i]@);
        encode_utf8_decode_utf8(r2[i]@);
    }
}

} // verus!
