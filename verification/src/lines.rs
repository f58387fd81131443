//! Splitting a byte span into lines, and how the split behaves over
//! concatenation at a line-aligned boundary.
//!
//! A span is cut at every line terminator; the terminator belongs to no
//! line. A final fragment without a terminator is a line of its own, so a
//! span that ends with a terminator yields no trailing empty line.

use vstd::prelude::*;
use crate::parse::{first_index_of, lemma_first_index_of_props, NL};

verus! {

/// The lines of a byte span, in order.
pub open spec fn lines_of(s: Seq<u8>) -> Seq<Seq<u8>>
    decreases s.len(),
    via lines_of_decreases
{
    if s.len() == 0 {
        Seq::empty()
    } else {
        let i = first_index_of(s, NL);
        if i == s.len() {
            seq![s]
        } else {
            seq![s.subrange(0, i)] + lines_of(s.subrange(i + 1, s.len() as int))
        }
    }
}

#[via_fn]
proof fn lines_of_decreases(s: Seq<u8>) {
    lemma_first_index_of_props(s, NL);
}

/// A span has no more lines than bytes.
pub proof fn lemma_lines_count(s: Seq<u8>)
    ensures
        lines_of(s).len() <= s.len(),
    decreases s.len(),
{
    if s.len() > 0 {
        lemma_first_index_of_props(s, NL);
        let i = first_index_of(s, NL);
        if i < s.len() {
            lemma_lines_count(s.subrange(i + 1, s.len() as int));
        }
    }
}

/// A non-empty span without a terminator is one line.
pub proof fn lemma_lines_single(s: Seq<u8>)
    requires
        s.len() > 0,
        forall|j: int| 0 <= j < s.len() ==> s[j] != NL,
    ensures
        lines_of(s) == seq![s],
{
    lemma_first_index_of_props(s, NL);
}

/// A terminator-free span followed by one terminator is one line.
pub proof fn lemma_lines_terminated(s: Seq<u8>)
    requires
        forall|j: int| 0 <= j < s.len() ==> s[j] != NL,
    ensures
        lines_of(s + seq![NL]) == seq![s],
{
    let t = s + seq![NL];
    lemma_first_index_of_props(t, NL);
    assert(t[s.len() as int] == NL);
    assert forall|j: int| 0 <= j < s.len() implies t[j] != NL by {
        assert(t[j] == s[j]);
    };
    let i = first_index_of(t, NL);
    assert(i == s.len());
    assert(t.subrange(0, i) =~= s);
    assert(t.subrange(i + 1, t.len() as int) =~= Seq::<u8>::empty());
    assert(lines_of(t) == seq![t.subrange(0, i)] + lines_of(t.subrange(i + 1, t.len() as int)));
    assert(lines_of(Seq::<u8>::empty()) == Seq::<Seq<u8>>::empty());
    assert(seq![s] + Seq::<Seq<u8>>::empty() =~= seq![s]);
}

/// Splitting into lines distributes over concatenation when the first
/// part is empty or ends with a terminator.
pub proof fn lemma_lines_concat(a: Seq<u8>, b: Seq<u8>)
    requires
        a.len() == 0 || a.last() == NL,
    ensures
        lines_of(a + b) == lines_of(a) + lines_of(b),
    decreases a.len(),
{
    if a.len() == 0 {
        assert(a + b =~= b);
        assert(lines_of(a) + lines_of(b) =~= lines_of(b));
    } else {
        let t = a + b;
        lemma_first_index_of_props(a, NL);
        lemma_first_index_of_props(t, NL);
        let i = first_index_of(a, NL);
        assert(a[a.len() - 1] == NL);
        assert(i < a.len());
        assert(t[i] == a[i]);
        assert forall|j: int| 0 <= j < i implies t[j] != NL by {
            assert(t[j] == a[j]);
        };
        assert(first_index_of(t, NL) == i);
        let arest = a.subrange(i + 1, a.len() as int);
        assert(t.subrange(0, i) =~= a.subrange(0, i));
        assert(t.subrange(i + 1, t.len() as int) =~= arest + b);
        if arest.len() > 0 {
            assert(arest.last() == a.last());
        }
        lemma_lines_concat(arest, b);
        assert(lines_of(t) =~= lines_of(a) + lines_of(b));
    }
}

} // verus!
