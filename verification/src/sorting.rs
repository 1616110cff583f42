use vstd::prelude::*;
use crate::strings::{seq_le, lex_le, lemma_seq_le_total, lemma_seq_le_trans};

verus! {

/// The name list is sorted lexicographically ascending.
pub open spec fn sorted_names(s: Seq<Seq<char>>) -> bool {
    forall|i: int, j: int| 0 <= i < j < s.len() ==> seq_le(s[i], s[j])
}

/// Returns the position before the first entry that comes strictly after
/// `x`, in a list whose entries up to that position are at most `x`.
#[verifier::loop_isolation(false)]
fn find_slot(r: &Vec<String>, x: &str) -> (pos: usize)
    ensures
        0 <= pos <= r@.len(),
        forall|j: int| 0 <= j < pos ==> seq_le(r.deep_view()[j], x@),
        pos < r@.len() ==> !seq_le(r.deep_view()[pos as int], x@),
{
    let mut pos: usize = 0;
    while pos < r.len()
        invariant
            0 <= pos <= r@.len(),
            forall|j: int| 0 <= j < pos ==> seq_le(r.deep_view()[j], x@),
        decreases r@.len() - pos,
    {
        if !lex_le(r[pos].as_str(), x) {
            return pos;
        }
        pos = pos + 1;
    }
    pos
}

/// Sorts a list of names lexicographically ascending by code point.
/// The result holds the same names with the same multiplicities.
#[verifier::loop_isolation(false)]
pub fn sort_names(names: &Vec<String>) -> (r: Vec<String>)
    ensures
        sorted_names(r.deep_view()),
        r.deep_view().to_multiset() == names.deep_view().to_multiset(),
        r@.len() == names@.len(),
{
    let mut r: Vec<String> = Vec::new();
    let mut i: usize = 0;
    proof {
        assert(r.deep_view() =~= names.deep_view().take(0));
    }
    while i < names.len()
        invariant
            0 <= i <= names@.len(),
            r@.len() == i,
            sorted_names(r.deep_view()),
            r.deep_view().to_multiset() == names.deep_view().take(i as int).to_multiset(),
        decreases names@.len() - i,
    {
        let x = names[i].clone();
        let pos = find_slot(&r, x.as_str());
        let ghost old_dv = r.deep_view();
        let ghost old_rv = r@;
        let ghost gpos = pos as int;
        proof {
            if gpos < old_dv.len() {
                lemma_seq_le_total(old_dv[gpos], x@);
            }
        }
        r.insert(pos, x);
        proof {
            assert(r@ == old_rv.insert(gpos, x));
            old_rv.insert_ensures(gpos, x);
            assert forall|k: int| 0 <= k < r.deep_view().len() implies r.deep_view()[k] == (if k
                < gpos {
                old_dv[k]
            } else if k == gpos {
                x@
            } else {
                old_dv[k - 1]
            }) by {
                if k < gpos {
                    assert(r@[k] == old_rv[k]);
                } else if k == gpos {
                    assert(r@[k] == x);
                } else {
                    assert(r@[k] == old_rv[k - 1]);
                }
            }
            assert(r.deep_view() =~= old_dv.insert(gpos, x@));
            // Sortedness is kept: everything before the slot is at most `x`,
            // everything after is at least `x`.
            assert forall|a: int, b: int| 0 <= a < b < r.deep_view().len() implies seq_le(
                r.deep_view()[a],
                r.deep_view()[b],
            ) by {
                let dv = r.deep_view();
                if b == gpos {
                    assert(seq_le(dv[a], x@));
                } else if a == gpos && b > gpos {
                    lemma_seq_le_total(old_dv[gpos], x@);
                    if gpos < b - 1 {
                        assert(seq_le(old_dv[gpos], old_dv[b - 1]));
                        lemma_seq_le_trans(x@, old_dv[gpos], old_dv[b - 1]);
                    }
                } else if a < gpos && b > gpos {
                    if gpos < old_dv.len() {
                        assert(seq_le(dv[a], x@));
                        lemma_seq_le_total(old_dv[gpos], x@);
                        if gpos == b - 1 {
                            lemma_seq_le_trans(dv[a], x@, old_dv[gpos]);
                        } else {
                            lemma_seq_le_trans(dv[a], x@, old_dv[gpos]);
                            lemma_seq_le_trans(dv[a], old_dv[gpos], old_dv[b - 1]);
                        }
                    }
                }
            }
            vstd::seq_lib::to_multiset_insert(old_dv, gpos, x@);
            assert(names.deep_view().take(i + 1) =~= names.deep_view().take(i as int).push(
                names.deep_view()[i as int],
            ));
            vstd::seq_lib::to_multiset_build(names.deep_view().take(i as int), names.deep_view()[i as int]);
        }
        i = i + 1;
    }
    proof {
        assert(names.deep_view().take(names@.len() as int) =~= names.deep_view());
    }
    r
}

/// Two lists with the same names and multiplicities hold the same names.
pub proof fn lemma_permutation_contains(a: Seq<Seq<char>>, b: Seq<Seq<char>>)
    requires
        a.to_multiset() == b.to_multiset(),
    ensures
        forall|x: Seq<char>| a.contains(x) <==> b.contains(x),
{
    a.to_multiset_ensures();
    b.to_multiset_ensures();
    assert forall|x: Seq<char>| a.contains(x) == b.contains(x) by {
        assert(a.to_multiset().count(x) == b.to_multiset().count(x));
        if a.contains(x) {
            assert(a.to_multiset().count(x) > 0);
        }
        if b.contains(x) {
            assert(b.to_multiset().count(x) > 0);
        }
    }
}

/// A permutation of a duplicate-free list is duplicate-free.
pub proof fn lemma_permutation_distinct(a: Seq<Seq<char>>, b: Seq<Seq<char>>)
    requires
        a.to_multiset() == b.to_multiset(),
        forall|i: int, j: int| 0 <= i < j < a.len() ==> a[i] != a[j],
    ensures
        forall|i: int, j: int| 0 <= i < j < b.len() ==> b[i] != b[j],
{
    assert(a.no_duplicates());
    a.lemma_multiset_has_no_duplicates();
    b.lemma_multiset_has_no_duplicates_conv();
}

} // verus!
