//! The alphabetical order of texts, and sorting by it.
//!
//! Texts are ordered as dictionaries order words, character by character,
//! with characters ordered by their code points. This is the order in which
//! every listing of names comes out.

use vstd::prelude::*;
use vstd::relations::{sorted_by, total_ordering};
use vstd::seq_lib::{group_to_multiset_ensures, lemma_sorted_unique, to_multiset_len};
use vstd::std_specs::iter::IteratorSpec;

verus! {

/// Whether `a` comes before `b`, or is `b`, in alphabetical order.
pub open spec fn lex_le(a: Seq<char>, b: Seq<char>) -> bool
    decreases a.len(),
{
    if a.len() == 0 {
        true
    } else if b.len() == 0 {
        false
    } else if a.first() == b.first() {
        lex_le(a.drop_first(), b.drop_first())
    } else {
        a.first() < b.first()
    }
}

/// Whether `a` and `b` are the same up to place `k` and differ there.
pub open spec fn differ_first_at(a: Seq<char>, b: Seq<char>, k: int) -> bool {
    &&& 0 <= k < a.len()
    &&& k < b.len()
    &&& a.take(k) == b.take(k)
    &&& a[k] != b[k]
}

/// Whether `a` and `b` differ, and `a` has the smaller character at the
/// first place where they do.
pub open spec fn first_difference_is_smaller(a: Seq<char>, b: Seq<char>) -> bool {
    exists|k: int| differ_first_at(a, b, k) && a[k] < b[k]
}

/// Whether `a` comes strictly before `b` in alphabetical order.
pub open spec fn lex_lt(a: Seq<char>, b: Seq<char>) -> bool {
    lex_le(a, b) && a != b
}

/// The alphabetical order as a relation.
pub open spec fn alphabetical() -> spec_fn(Seq<char>, Seq<char>) -> bool {
    |a: Seq<char>, b: Seq<char>| lex_le(a, b)
}

/// Whether `names` is in ascending alphabetical order.
pub open spec fn is_sorted(names: Seq<Seq<char>>) -> bool {
    sorted_by(names, alphabetical())
}

/// `names` put in ascending alphabetical order.
pub open spec fn sorted_names(names: Seq<Seq<char>>) -> Seq<Seq<char>> {
    names.sort_by(alphabetical())
}

/// Every text is at or before itself.
pub proof fn lemma_lex_le_reflexive(a: Seq<char>)
    ensures
        lex_le(a, a),
    decreases a.len(),
{
    if a.len() > 0 {
        lemma_lex_le_reflexive(a.drop_first());
    }
}

/// Two texts that are each at or before the other are the same text.
pub proof fn lemma_lex_le_antisymmetric(a: Seq<char>, b: Seq<char>)
    requires
        lex_le(a, b),
        lex_le(b, a),
    ensures
        a == b,
    decreases a.len(),
{
    if a.len() == 0 || b.len() == 0 {
        assert(a =~= b);
    } else {
        lemma_lex_le_antisymmetric(a.drop_first(), b.drop_first());
        assert(a =~= seq![a.first()] + a.drop_first());
        assert(b =~= seq![b.first()] + b.drop_first());
    }
}

/// The order carries over a text in the middle.
pub proof fn lemma_lex_le_transitive(a: Seq<char>, b: Seq<char>, c: Seq<char>)
    requires
        lex_le(a, b),
        lex_le(b, c),
    ensures
        lex_le(a, c),
    decreases a.len(),
{
    if a.len() > 0 && a.first() == b.first() && b.first() == c.first() {
        lemma_lex_le_transitive(a.drop_first(), b.drop_first(), c.drop_first());
    }
}

/// Of any two texts, one is at or before the other.
pub proof fn lemma_lex_le_total(a: Seq<char>, b: Seq<char>)
    ensures
        lex_le(a, b) || lex_le(b, a),
    decreases a.len(),
{
    if a.len() > 0 && b.len() > 0 && a.first() == b.first() {
        lemma_lex_le_total(a.drop_first(), b.drop_first());
    }
}

/// `a` is at or before `b` exactly where `a` is the beginning of `b`, or
/// where the two differ and, at the first place where they do, the character
/// of `a` is the smaller.
pub proof fn lemma_lex_le_by_first_difference(a: Seq<char>, b: Seq<char>)
    ensures
        lex_le(a, b) <==> a.is_prefix_of(b) || first_difference_is_smaller(a, b),
    decreases a.len(),
{
    if a.len() == 0 {
        assert(a =~= b.subrange(0, 0));
    } else if b.len() == 0 {
    } else if a.first() != b.first() {
        if a.is_prefix_of(b) {
            assert(b.subrange(0, a.len() as int)[0] == b[0]);
        }
        if a.first() < b.first() {
            assert(a.take(0) =~= b.take(0));
            assert(differ_first_at(a, b, 0));
        }
        if first_difference_is_smaller(a, b) {
            let k = choose|k: int| differ_first_at(a, b, k) && a[k] < b[k];
            if k > 0 {
                assert(a.take(k)[0] == b.take(k)[0]);
            }
        }
    } else {
        let x = a.drop_first();
        let y = b.drop_first();
        lemma_lex_le_by_first_difference(x, y);
        if x.is_prefix_of(y) {
            assert(a =~= b.subrange(0, a.len() as int)) by {
                assert forall|i: int| 0 <= i < a.len() implies a[i] == b[i] by {
                    if i > 0 {
                        assert(x[i - 1] == y.subrange(0, x.len() as int)[i - 1]);
                    }
                }
            }
        }
        if a.is_prefix_of(b) {
            assert(x =~= y.subrange(0, x.len() as int)) by {
                assert forall|i: int| 0 <= i < x.len() implies x[i] == y[i] by {
                    assert(a[i + 1] == b.subrange(0, a.len() as int)[i + 1]);
                }
            }
        }
        if first_difference_is_smaller(x, y) {
            let k = choose|k: int| differ_first_at(x, y, k) && x[k] < y[k];
            assert(a.take(k + 1) =~= b.take(k + 1)) by {
                assert forall|i: int| 0 <= i < k + 1 implies a[i] == b[i] by {
                    if i > 0 {
                        assert(x.take(k)[i - 1] == y.take(k)[i - 1]);
                    }
                }
            }
            assert(differ_first_at(a, b, k + 1) && a[k + 1] < b[k + 1]);
        }
        if first_difference_is_smaller(a, b) {
            let k = choose|k: int| differ_first_at(a, b, k) && a[k] < b[k];
            assert(x.take(k - 1) =~= y.take(k - 1)) by {
                assert forall|i: int| 0 <= i < k - 1 implies x[i] == y[i] by {
                    assert(a.take(k)[i + 1] == b.take(k)[i + 1]);
                }
            }
            assert(differ_first_at(x, y, k - 1) && x[k - 1] < y[k - 1]);
        }
    }
}

/// The alphabetical order is a total order.
pub proof fn lemma_alphabetical_is_total_order()
    ensures
        total_ordering(alphabetical()),
{
    let r = alphabetical();
    assert forall|a: Seq<char>| #[trigger] r(a, a) by {
        lemma_lex_le_reflexive(a);
    }
    assert forall|a: Seq<char>, b: Seq<char>| #[trigger] r(a, b) && #[trigger] r(b, a) implies a
        == b by {
        lemma_lex_le_antisymmetric(a, b);
    }
    assert forall|a: Seq<char>, b: Seq<char>, c: Seq<char>| #[trigger]
        r(a, b) && #[trigger] r(b, c) implies r(a, c) by {
        lemma_lex_le_transitive(a, b, c);
    }
    assert forall|a: Seq<char>, b: Seq<char>| #[trigger] r(a, b) || #[trigger] r(b, a) by {
        lemma_lex_le_total(a, b);
    }
}

/// Sorting keeps every name as often as it occurs and puts the names in
/// order.
pub proof fn lemma_sorted_names(names: Seq<Seq<char>>)
    ensures
        is_sorted(sorted_names(names)),
        sorted_names(names).to_multiset() == names.to_multiset(),
        sorted_names(names).len() == names.len(),
{
    broadcast use group_to_multiset_ensures;

    lemma_alphabetical_is_total_order();
    names.lemma_sort_by_ensures(alphabetical());
    to_multiset_len(names);
    to_multiset_len(sorted_names(names));
}

/// The order in which names were put in does not show in their sorted
/// form: there is one way only to put given names in order.
pub proof fn lemma_sorted_names_unique(names: Seq<Seq<char>>, listed: Seq<Seq<char>>)
    requires
        is_sorted(listed),
        listed.to_multiset() == names.to_multiset(),
    ensures
        listed == sorted_names(names),
{
    lemma_sorted_names(names);
    lemma_alphabetical_is_total_order();
    lemma_sorted_unique(listed, sorted_names(names), alphabetical());
}

/// Tells whether `a` comes before `b`, or is `b`, in alphabetical order.
pub fn precedes_or_equals(a: &str, b: &str) -> (r: bool)
    ensures
        r == lex_le(a@, b@),
{
    let mut rest_a = a.chars();
    let mut rest_b = b.chars();
    loop
        invariant
            lex_le(a@, b@) == lex_le(rest_a.remaining(), rest_b.remaining()),
            rest_a.decrease() is Some,
        decreases rest_a.decrease()->0,
    {
        match rest_a.next() {
            None => {
                return true;
            },
            Some(x) => match rest_b.next() {
                None => {
                    return false;
                },
                Some(y) => {
                    if x != y {
                        return x < y;
                    }
                },
            },
        }
    }
}

/// Returns the names of `names` in ascending alphabetical order.
pub fn sort_names(names: &Vec<String>) -> (sorted: Vec<String>)
    ensures
        sorted.deep_view() == sorted_names(names.deep_view()),
{
    let mut sorted: Vec<String> = Vec::new();
    let mut taken: usize = 0;
    assert(sorted.deep_view() =~= names.deep_view().take(0));
    while taken < names.len()
        invariant
            taken <= names.len(),
            is_sorted(sorted.deep_view()),
            sorted.deep_view().to_multiset() == names.deep_view().take(taken as int).to_multiset(),
        decreases names.len() - taken,
    {
        let name = names[taken].clone();
        let mut at: usize = sorted.len();
        while at > 0 && !precedes_or_equals(sorted[at - 1].as_str(), name.as_str())
            invariant
                at <= sorted.len(),
                forall|j: int| at <= j < sorted.len() ==> !lex_le(#[trigger] sorted@[j]@, name@),
            decreases at,
        {
            at -= 1;
        }
        proof {
            lemma_insert_keeps_order(sorted.deep_view(), at as int, name@);
            lemma_take_one_more(names.deep_view(), sorted.deep_view(), taken as int, at as int);
        }
        let ghost before = sorted.deep_view();
        sorted.insert(at, name);
        assert(sorted.deep_view() =~= before.insert(at as int, names@[taken as int]@));
        taken += 1;
    }
    proof {
        assert(names.deep_view().take(taken as int) == names.deep_view());
        lemma_sorted_names_unique(names.deep_view(), sorted.deep_view());
    }
    sorted
}

/// A name put in behind the last name that is at or before it leaves a
/// sorted sequence sorted.
proof fn lemma_insert_keeps_order(sorted: Seq<Seq<char>>, at: int, name: Seq<char>)
    requires
        is_sorted(sorted),
        0 <= at <= sorted.len(),
        at > 0 ==> lex_le(sorted[at - 1], name),
        forall|j: int| at <= j < sorted.len() ==> !lex_le(#[trigger] sorted[j], name),
    ensures
        is_sorted(sorted.insert(at, name)),
{
    let r = alphabetical();
    let after = sorted.insert(at, name);
    assert forall|i: int, j: int| 0 <= i < j < after.len() implies #[trigger] r(
        after[i],
        after[j],
    ) by {
        if j < at {
            assert(r(sorted[i], sorted[j]));
        } else if j == at {
            if i < at - 1 {
                assert(r(sorted[i], sorted[at - 1]));
                lemma_lex_le_transitive(sorted[i], sorted[at - 1], name);
            }
        } else if i == at {
            lemma_lex_le_total(sorted[j - 1], name);
        } else if i < at {
            assert(r(sorted[i], sorted[j - 1]));
        } else {
            assert(r(sorted[i - 1], sorted[j - 1]));
        }
    }
}

/// Putting the next name in keeps the sorted names those that were taken.
proof fn lemma_take_one_more(names: Seq<Seq<char>>, sorted: Seq<Seq<char>>, taken: int, at: int)
    requires
        0 <= taken < names.len(),
        0 <= at <= sorted.len(),
        sorted.to_multiset() == names.take(taken).to_multiset(),
    ensures
        sorted.insert(at, names[taken]).to_multiset() == names.take(taken + 1).to_multiset(),
{
    broadcast use group_to_multiset_ensures;

    assert(names.take(taken + 1) == names.take(taken).push(names[taken]));
}

} // verus!
