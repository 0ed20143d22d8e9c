//! Small sequence facts shared by the move-list proofs.
use vstd::prelude::*;
use crate::board::Move;

verus! {

/// What a pushed move list contains: everything it contained before, and
/// the new element.
pub proof fn lemma_push_contains()
    ensures
        forall|s: Seq<Move>, x: Move, y: Move|
            #[trigger] s.push(x).contains(y) == (s.contains(y) || x == y),
{
    assert forall|s: Seq<Move>, x: Move, y: Move|
        #[trigger] s.push(x).contains(y) == (s.contains(y) || x == y) by {
        if s.push(x).contains(y) {
            let i = choose|i: int| 0 <= i < s.push(x).len() && s.push(x)[i] == y;
            if i < s.len() {
                assert(s[i] == y);
            }
        }
        if s.contains(y) {
            let i = choose|i: int| 0 <= i < s.len() && s[i] == y;
            assert(s.push(x)[i] == y);
        }
        if x == y {
            assert(s.push(x)[s.len() as int] == y);
        }
    }
}

/// What a concatenated move list contains: what either part contains.
pub proof fn lemma_concat_contains()
    ensures
        forall|a: Seq<Move>, b: Seq<Move>, x: Move|
            #[trigger] (a + b).contains(x) == (a.contains(x) || b.contains(x)),
{
    assert forall|a: Seq<Move>, b: Seq<Move>, x: Move|
        #[trigger] (a + b).contains(x) == (a.contains(x) || b.contains(x)) by {
        if (a + b).contains(x) {
            let i = choose|i: int| 0 <= i < (a + b).len() && (a + b)[i] == x;
            if i < a.len() {
                assert(a[i] == x);
            } else {
                assert(b[i - a.len()] == x);
            }
        }
        if a.contains(x) {
            let i = choose|i: int| 0 <= i < a.len() && a[i] == x;
            assert((a + b)[i] == x);
        }
        if b.contains(x) {
            let i = choose|i: int| 0 <= i < b.len() && b[i] == x;
            assert((a + b)[a.len() + i] == x);
        }
    }
}

/// Two duplicate-free move lists with no common element concatenate to a
/// duplicate-free list.
pub proof fn lemma_no_dup_concat(a: Seq<Move>, b: Seq<Move>)
    requires
        a.no_duplicates(),
        b.no_duplicates(),
        forall|x: Move| !(#[trigger] a.contains(x) && b.contains(x)),
    ensures
        (a + b).no_duplicates(),
{
    assert forall|i: int, j: int|
        0 <= i < (a + b).len() && 0 <= j < (a + b).len() && i != j implies (a + b)[i] != (a
        + b)[j] by {
        if i < a.len() && j < a.len() {
        } else if i >= a.len() && j >= a.len() {
            assert((a + b)[i] == b[i - a.len()] && (a + b)[j] == b[j - a.len()]);
        } else if i < a.len() {
            assert(a.contains((a + b)[i]));
            if (a + b)[i] == (a + b)[j] {
                assert(b[j - a.len()] == (a + b)[i]);
                assert(b.contains((a + b)[i]));
            }
        } else {
            assert(a.contains((a + b)[j]));
            if (a + b)[i] == (a + b)[j] {
                assert(b[i - a.len()] == (a + b)[j]);
                assert(b.contains((a + b)[j]));
            }
        }
    }
}

/// Everything a filtered move list holds was in the list it was filtered
/// from.
pub proof fn lemma_filter_subset(s: Seq<Move>, pred: spec_fn(Move) -> bool)
    ensures
        forall|x: Move| #[trigger] s.filter(pred).contains(x) ==> s.contains(x),
    decreases s.len(),
{
    reveal(Seq::filter);
    if s.len() > 0 {
        lemma_filter_subset(s.drop_last(), pred);
        assert forall|x: Move| #[trigger] s.filter(pred).contains(x) implies s.contains(x) by {
            let sub = s.drop_last().filter(pred);
            if sub.contains(x) {
                assert(s.drop_last().contains(x));
                let i = choose|i: int| 0 <= i < s.drop_last().len() && s.drop_last()[i] == x;
                assert(s[i] == x);
            } else {
                assert(x == s.last());
                assert(s[s.len() - 1] == x);
            }
        }
    }
}

/// Filtering keeps a duplicate-free move list duplicate-free.
pub proof fn lemma_filter_no_dup(s: Seq<Move>, pred: spec_fn(Move) -> bool)
    requires
        s.no_duplicates(),
    ensures
        s.filter(pred).no_duplicates(),
    decreases s.len(),
{
    reveal(Seq::filter);
    if s.len() > 0 {
        assert(s.drop_last().no_duplicates());
        lemma_filter_no_dup(s.drop_last(), pred);
        lemma_filter_subset(s.drop_last(), pred);
        if pred(s.last()) {
            let sub = s.drop_last().filter(pred);
            assert(!sub.contains(s.last())) by {
                if sub.contains(s.last()) {
                    assert(s.drop_last().contains(s.last()));
                    let i = choose|i: int|
                        0 <= i < s.drop_last().len() && s.drop_last()[i] == s.last();
                    assert(s[i] == s[s.len() - 1]);
                }
            }
            assert forall|i: int, j: int|
                0 <= i < sub.push(s.last()).len() && 0 <= j < sub.push(s.last()).len() && i
                    != j implies sub.push(s.last())[i] != sub.push(s.last())[j] by {
                if i < sub.len() && j < sub.len() {
                } else if j == sub.len() {
                    if sub.push(s.last())[i] == s.last() {
                        assert(sub[i] == s.last());
                        assert(sub.contains(s.last()));
                    }
                } else {
                    if sub.push(s.last())[j] == s.last() {
                        assert(sub[j] == s.last());
                        assert(sub.contains(s.last()));
                    }
                }
            }
        }
    }
}

} // verus!
