//! Total and partial truth assignments, as sequences indexed by variable.

use vstd::prelude::*;

verus! {

// What the values mean.

/// `t` gives every variable that `a` sets the value that `a` gives it.
pub open spec fn extends(t: Seq<bool>, a: Seq<Option<bool>>) -> bool {
    &&& t.len() == a.len()
    &&& forall|i: int| 0 <= i < a.len() && a[i] is Some ==> a[i] == Some(#[trigger] t[i])
}

/// `b` sets every variable that `a` sets, to the same value.
pub open spec fn refines(b: Seq<Option<bool>>, a: Seq<Option<bool>>) -> bool {
    &&& b.len() == a.len()
    &&& forall|i: int| 0 <= i < a.len() && a[i] is Some ==> #[trigger] b[i] == a[i]
}

/// The partial assignment over `n` variables that sets none.
pub open spec fn unset(n: nat) -> Seq<Option<bool>> {
    Seq::new(n, |i: int| None)
}

/// The total assignment that agrees with `a` and makes every unset variable false.
pub open spec fn completed(a: Seq<Option<bool>>) -> Seq<bool> {
    Seq::new(a.len(), |i: int| a[i] == Some(true))
}

/// The number of variables that `a` leaves unset.
pub open spec fn unset_count(a: Seq<Option<bool>>) -> nat
    decreases a.len(),
{
    if a.len() == 0 {
        0
    } else {
        unset_count(a.drop_last()) + if a.last() is None { 1nat } else { 0nat }
    }
}

// The operations.

/// The partial assignment over `n` variables that sets none.
pub fn new_assignment(n: usize) -> (a: Vec<Option<bool>>)
    ensures
        a@ == unset(n as nat),
{
    let mut a: Vec<Option<bool>> = Vec::new();
    let mut i: usize = 0;
    while i < n
        invariant
            i <= n,
            a@ == unset(i as nat),
        decreases n - i,
    {
        a.push(None);
        assert(a@ =~= unset((i + 1) as nat));
        i += 1;
    }
    a
}

/// The total assignment that agrees with `a` and makes every unset variable false.
pub fn complete(a: &Vec<Option<bool>>) -> (t: Vec<bool>)
    ensures
        t@ == completed(a@),
{
    let mut t: Vec<bool> = Vec::new();
    let mut i: usize = 0;
    while i < a.len()
        invariant
            i <= a.len(),
            t@ == completed(a@.take(i as int)),
        decreases a.len() - i,
    {
        let v = match a[i] {
            Some(b) => b,
            None => false,
        };
        t.push(v);
        assert(t@ =~= completed(a@.take(i + 1)));
        i += 1;
    }
    assert(a@.take(i as int) =~= a@);
    t
}

// The proofs.

/// Setting an unset variable lowers the count of unset variables by one.
pub proof fn lemma_unset_count_update(a: Seq<Option<bool>>, i: int, v: bool)
    requires
        0 <= i < a.len(),
        a[i] is None,
    ensures
        unset_count(a.update(i, Some(v))) + 1 == unset_count(a),
    decreases a.len(),
{
    let b = a.update(i, Some(v));
    if i == a.len() - 1 {
        assert(b.drop_last() =~= a.drop_last());
    } else {
        assert(b.drop_last() =~= a.drop_last().update(i, Some(v)));
        lemma_unset_count_update(a.drop_last(), i, v);
    }
}

/// A refinement leaves no more variables unset.
pub proof fn lemma_unset_count_refines(b: Seq<Option<bool>>, a: Seq<Option<bool>>)
    requires
        refines(b, a),
    ensures
        unset_count(b) <= unset_count(a),
    decreases a.len(),
{
    if a.len() > 0 {
        assert(refines(b.drop_last(), a.drop_last())) by {
            assert forall|i: int| 0 <= i < a.drop_last().len() && a.drop_last()[i] is Some
                implies #[trigger] b.drop_last()[i] == a.drop_last()[i] by {
                assert(b[i] == a[i]);
            }
        }
        lemma_unset_count_refines(b.drop_last(), a.drop_last());
        assert(a.last() is Some ==> b.last() == a.last()) by {
            assert(b[a.len() - 1] == b.last());
        }
    }
}

/// The completion of a partial assignment extends it.
pub proof fn lemma_completed_extends(a: Seq<Option<bool>>)
    ensures
        extends(completed(a), a),
{
    let t = completed(a);
    assert forall|i: int| 0 <= i < a.len() && a[i] is Some implies a[i] == Some(#[trigger] t[i]) by {
        if a[i] == Some(true) {
        } else {
            assert(a[i] == Some(false));
        }
    }
}

/// Every total assignment extends the one that sets nothing.
pub proof fn lemma_extends_unset(t: Seq<bool>)
    ensures
        extends(t, unset(t.len())),
{
}

/// What extends a refinement extends the assignment refined.
pub proof fn lemma_extends_refines(t: Seq<bool>, b: Seq<Option<bool>>, a: Seq<Option<bool>>)
    requires
        extends(t, b),
        refines(b, a),
    ensures
        extends(t, a),
{
    assert forall|i: int| 0 <= i < a.len() && a[i] is Some implies a[i] == Some(#[trigger] t[i]) by {
        assert(b[i] == a[i]);
    }
}
} // verus!
