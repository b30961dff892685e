//! The batch rule: a run of puzzles is solved in order, and a puzzle source
//! is read again only when its identifier differs from the one just before
//! it; a repeated identifier reuses the grid already loaded.

use vstd::prelude::*;

verus! {

/// Compares two byte strings.
fn bytes_eq(a: &Vec<u8>, b: &Vec<u8>) -> (r: bool)
    ensures
        r == (a@ == b@),
{
    if a.len() != b.len() {
        return false;
    }
    let mut i: usize = 0;
    while i < a.len()
        invariant
            i <= a.len(),
            a.len() == b.len(),
            forall|q: int| 0 <= q < i ==> a@[q] == b@[q],
        decreases a.len() - i,
    {
        if a[i] != b[i] {
            return false;
        }
        i += 1;
    }
    proof {
        assert(a@ =~= b@);
    }
    true
}

/// For each source of a batch, whether it must be loaded afresh: the first
/// always, every later one exactly when it differs from its predecessor.
/// A repeated source keeps the grid already in hand.
pub fn sud_load_plan(paths: &Vec<Vec<u8>>) -> (plan: Vec<bool>)
    ensures
        plan.len() == paths.len(),
        forall|i: int|
            0 <= i < paths.len() ==> plan@[i] == (i == 0 || paths.deep_view()[i]
                != paths.deep_view()[i - 1]),
{
    let ghost dv: Seq<Seq<u8>> = paths.deep_view();
    let mut plan: Vec<bool> = Vec::new();
    let mut i: usize = 0;
    while i < paths.len()
        invariant
            i <= paths.len(),
            dv == paths.deep_view(),
            dv.len() == paths.len(),
            plan.len() == i,
            forall|q: int| 0 <= q < i ==> plan@[q] == (q == 0 || dv[q] != dv[q - 1]),
        decreases paths.len() - i,
    {
        proof {
            assert(dv[i as int] == paths@[i as int]@);
            if i > 0 {
                assert(dv[i as int - 1] == paths@[i as int - 1]@);
            }
        }
        if i == 0 {
            plan.push(true);
        } else {
            plan.push(!bytes_eq(&paths[i], &paths[i - 1]));
        }
        i += 1;
    }
    plan
}

} // verus!
