//! Splitting a text buffer into physical lines at line feeds, and the facts
//! about line structure that the merge proofs rest on: appending after a
//! terminated buffer adds whole lines, and terminating an unterminated final
//! line does not change the lines read.

use vstd::prelude::*;
use crate::bytes::{NL, find, lemma_find_props, lemma_find_is, find_in, copy_range};

verus! {

/// The lines of `s`: the pieces between line feeds, without the terminators.
/// A final piece without a terminator is still a line; an empty buffer has no
/// lines.
pub open spec fn lines(s: Seq<u8>) -> Seq<Seq<u8>>
    decreases s.len(),
    via lines_decreases
{
    if s.len() == 0 {
        Seq::empty()
    } else {
        let i = find(s, NL);
        if i == s.len() {
            seq![s]
        } else {
            seq![s.subrange(0, i)] + lines(s.subrange(i + 1, s.len() as int))
        }
    }
}

#[via_fn]
proof fn lines_decreases(s: Seq<u8>) {
    if s.len() > 0 {
        lemma_find_props(s, NL);
    }
}

/// No line holds a line feed.
pub proof fn lemma_lines_no_nl(s: Seq<u8>)
    ensures
        forall|k: int, j: int|
            0 <= k < lines(s).len() && 0 <= j < lines(s)[k].len()
                ==> #[trigger] lines(s)[k][j] != NL,
    decreases s.len(),
{
    if s.len() > 0 {
        lemma_find_props(s, NL);
        let i = find(s, NL);
        if i < s.len() {
            let tail = s.subrange(i + 1, s.len() as int);
            lemma_lines_no_nl(tail);
            assert forall|k: int, j: int|
                0 <= k < lines(s).len() && 0 <= j < lines(s)[k].len()
                implies #[trigger] lines(s)[k][j] != NL by {
                if k == 0 {
                    assert(lines(s)[0] == s.subrange(0, i));
                    assert(s.subrange(0, i)[j] == s[j]);
                } else {
                    assert(lines(s)[k] == lines(tail)[k - 1]);
                }
            }
        } else {
            assert forall|k: int, j: int|
                0 <= k < lines(s).len() && 0 <= j < lines(s)[k].len()
                implies #[trigger] lines(s)[k][j] != NL by {
                assert(lines(s)[k] == s);
            }
        }
    }
}

/// Appending to a buffer whose last byte is a line feed appends whole lines.
pub proof fn lemma_lines_append(a: Seq<u8>, b: Seq<u8>)
    requires
        a.len() > 0,
        a.last() == NL,
    ensures
        lines(a + b) == lines(a) + lines(b),
    decreases a.len(),
{
    lemma_find_props(a, NL);
    let i = find(a, NL);
    assert(i < a.len()) by {
        if i == a.len() {
            assert(a[a.len() - 1] != NL);
        }
    }
    assert forall|j: int| 0 <= j < i implies (a + b)[j] != NL by {
        assert((a + b)[j] == a[j]);
    }
    assert((a + b)[i] == a[i]);
    lemma_find_is(a + b, NL, i);
    assert((a + b).subrange(0, i) =~= a.subrange(0, i));
    assert(lines(Seq::<u8>::empty()) =~= Seq::<Seq<u8>>::empty());
    if i == a.len() - 1 {
        assert((a + b).subrange(i + 1, (a + b).len() as int) =~= b);
        assert(a.subrange(i + 1, a.len() as int) =~= Seq::<u8>::empty());
        assert(lines(a + b) =~~= lines(a) + lines(b));
    } else {
        let a2 = a.subrange(i + 1, a.len() as int);
        assert(a2.len() > 0 && a2.last() == NL) by {
            assert(a2[a2.len() - 1] == a[a.len() - 1]);
        }
        lemma_lines_append(a2, b);
        assert((a + b).subrange(i + 1, (a + b).len() as int) =~= a2 + b);
        assert(lines(a + b) =~~= lines(a) + lines(b));
    }
}

/// Terminating an unterminated final line does not change the lines read.
pub proof fn lemma_lines_terminate(a: Seq<u8>)
    requires
        a.len() > 0,
        a.last() != NL,
    ensures
        lines(a.push(NL)) == lines(a),
    decreases a.len(),
{
    lemma_find_props(a, NL);
    let i = find(a, NL);
    let ap = a.push(NL);
    assert(lines(Seq::<u8>::empty()) =~= Seq::<Seq<u8>>::empty());
    if i == a.len() {
        lemma_find_is(ap, NL, a.len() as int);
        assert(ap.subrange(0, a.len() as int) =~= a);
        assert(ap.subrange(a.len() as int + 1, ap.len() as int) =~= Seq::<u8>::empty());
        assert(lines(ap) =~~= seq![a]);
        assert(lines(a) =~~= seq![a]);
    } else {
        assert forall|j: int| 0 <= j < i implies ap[j] != NL by {
            assert(ap[j] == a[j]);
        }
        lemma_find_is(ap, NL, i);
        assert(i < a.len() - 1) by {
            if i == a.len() - 1 {
                assert(a.last() == a[i]);
            }
        }
        let a2 = a.subrange(i + 1, a.len() as int);
        assert(a2.len() > 0 && a2.last() != NL) by {
            assert(a2[a2.len() - 1] == a[a.len() - 1]);
        }
        lemma_lines_terminate(a2);
        assert(ap.subrange(0, i) =~= a.subrange(0, i));
        assert(ap.subrange(i + 1, ap.len() as int) =~= a2.push(NL));
        assert(lines(ap) =~~= lines(a));
    }
}

/// The lines of `s`, as freshly allocated buffers.
pub fn split_lines(s: &Vec<u8>) -> (r: Vec<Vec<u8>>)
    ensures
        r@.map_values(|l: Vec<u8>| l@) == lines(s@),
{
    let mut r: Vec<Vec<u8>> = Vec::new();
    let mut start: usize = 0;
    proof {
        assert(r@.map_values(|l: Vec<u8>| l@) =~= Seq::<Seq<u8>>::empty());
        assert(s@.subrange(0, s@.len() as int) =~= s@);
        assert(lines(s@) =~~= r@.map_values(|l: Vec<u8>| l@)
            + lines(s@.subrange(0, s@.len() as int)));
    }
    while start < s.len()
        invariant
            start <= s@.len(),
            lines(s@) == r@.map_values(|l: Vec<u8>| l@)
                + lines(s@.subrange(start as int, s@.len() as int)),
        decreases s@.len() - start,
    {
        let ghost suffix = s@.subrange(start as int, s@.len() as int);
        let ghost rows0 = r@.map_values(|l: Vec<u8>| l@);
        let j = find_in(s, start, s.len(), NL);
        let piece = copy_range(s, start, j);
        r.push(piece);
        proof {
            assert(r@.map_values(|l: Vec<u8>| l@) =~~= rows0.push(piece@));
            assert(piece@ =~= suffix.subrange(0, j - start));
        }
        if j < s.len() {
            proof {
                let tail = s@.subrange(j + 1, s@.len() as int);
                assert(suffix.subrange(j - start + 1, suffix.len() as int) =~= tail);
                assert(lines(suffix) == seq![piece@] + lines(tail));
                assert(rows0 + lines(suffix) =~~= rows0.push(piece@) + lines(tail));
            }
            start = j + 1;
        } else {
            proof {
                assert(suffix =~= piece@);
                assert(lines(Seq::<u8>::empty()) =~= Seq::<Seq<u8>>::empty());
                assert(lines(suffix) == seq![piece@]);
                assert(s@.subrange(s@.len() as int, s@.len() as int) =~= Seq::<u8>::empty());
                assert(rows0 + lines(suffix) =~~= rows0.push(piece@)
                    + lines(s@.subrange(s@.len() as int, s@.len() as int)));
            }
            start = s.len();
        }
    }
    proof {
        assert(s@.subrange(start as int, s@.len() as int) =~= Seq::<u8>::empty());
        assert(lines(Seq::<u8>::empty()) =~= Seq::<Seq<u8>>::empty());
        assert(lines(s@) =~~= r@.map_values(|l: Vec<u8>| l@));
    }
    r
}

} // verus!
