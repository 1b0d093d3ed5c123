//! Ordered fan-in for the concurrent dispatcher.
//!
//! Workers hash files in no particular order; each finished job comes back
//! as its original input position paired with its outcome. `restore_order`
//! puts those completions back into input order, and refuses a completion
//! batch that does not pair every position exactly once — a worker that
//! never produced an outcome is an internal-invariant violation, not
//! something to pass over. The proof function at the end states the
//! component's defining law: the restored vector depends only on each
//! job's own outcome, never on the order in which the workers finished.

use vstd::prelude::*;
use vstd::seq_lib::seq_to_set_is_finite;
use vstd::set_lib::{lemma_int_range, lemma_subset_equality, set_int_range};
use crate::report::HashOutcome;

verus! {

/// Every completion carries a position below `n`.
pub open spec fn tags_in_range(c: Seq<(usize, HashOutcome)>, n: nat) -> bool {
    forall|j: int| 0 <= j < c.len() ==> ((#[trigger] c[j]).0 as nat) < n
}

/// No two completions carry the same position.
pub open spec fn tags_distinct(c: Seq<(usize, HashOutcome)>) -> bool {
    forall|j: int, k: int| 0 <= j < k < c.len() ==> (#[trigger] c[j]).0 != (#[trigger] c[k]).0
}

/// Some completion carries position `i`.
pub open spec fn has_tag(c: Seq<(usize, HashOutcome)>, i: int) -> bool {
    exists|j: int| 0 <= j < c.len() && (#[trigger] c[j]).0 == i
}

/// The batch pairs each of the `n` positions with exactly one outcome.
pub open spec fn tags_complete(c: Seq<(usize, HashOutcome)>, n: nat) -> bool {
    &&& c.len() == n
    &&& tags_in_range(c, n)
    &&& tags_distinct(c)
    &&& forall|i: int| 0 <= i < n ==> has_tag(c, i)
}

/// The outcome the batch pairs with position `i`.
pub open spec fn outcome_at(c: Seq<(usize, HashOutcome)>, i: int) -> HashOutcome {
    c[choose|j: int| 0 <= j < c.len() && (#[trigger] c[j]).0 == i].1
}

/// What restoring the input order yields: the outcomes by position, or
/// nothing when the batch does not pair every position exactly once.
pub open spec fn restore_spec(c: Seq<(usize, HashOutcome)>, n: nat) -> Option<Seq<HashOutcome>> {
    if tags_complete(c, n) {
        Some(Seq::new(n, |i: int| outcome_at(c, i)))
    } else {
        None
    }
}

/// In a batch with distinct positions, the paired outcome is the one of
/// any completion that carries the position.
pub proof fn lemma_outcome_at(c: Seq<(usize, HashOutcome)>, i: int, j: int)
    requires
        tags_distinct(c),
        0 <= j < c.len(),
        c[j].0 == i,
    ensures
        outcome_at(c, i) == c[j].1,
{
    assert(0 <= j < c.len() && (c[j]).0 == i);
    let j2 = choose|j2: int| 0 <= j2 < c.len() && (#[trigger] c[j2]).0 == i;
    if j2 < j {
        assert((c[j2]).0 != (c[j]).0);
    } else if j < j2 {
        assert((c[j]).0 != (c[j2]).0);
    }
}

/// Restore a batch of tagged completions to input order.
pub fn restore_order(n: usize, completed: Vec<(usize, HashOutcome)>) -> (r: Option<
    Vec<HashOutcome>,
>)
    ensures
        match r {
            Option::Some(v) => restore_spec(completed@, n as nat) == Some(v@),
            Option::None => restore_spec(completed@, n as nat) is None,
        },
{
    let ghost c = completed@;
    if completed.len() != n {
        return None;
    }
    let mut rem = completed;
    let mut slots: Vec<Option<HashOutcome>> = Vec::new();
    let mut filled: Vec<bool> = Vec::new();
    let mut q: usize = 0;
    while q < n
        invariant
            q <= n,
            slots@.len() == q,
            filled@.len() == q,
            forall|i: int| 0 <= i < q ==> (#[trigger] slots@[i]) is None,
            forall|i: int| 0 <= i < q ==> !(#[trigger] filled@[i]),
        decreases n - q,
    {
        slots.push(None);
        filled.push(false);
        q = q + 1;
    }
    proof {
        assert(rem@ =~= c.take(rem@.len() as int));
    }
    while rem.len() > 0
        invariant
            c == completed@,
            c.len() == n,
            slots@.len() == n,
            filled@.len() == n,
            rem@.len() <= n,
            rem@ == c.take(rem@.len() as int),
            forall|j: int, k: int|
                rem@.len() <= j < k < n ==> (#[trigger] c[j]).0 != (#[trigger] c[k]).0,
            forall|j: int| rem@.len() <= j < n ==> ((#[trigger] c[j]).0 as int) < n,
            forall|i: int|
                0 <= i < n ==> ((#[trigger] filled@[i]) <==> exists|j: int|
                    rem@.len() <= j < n && (#[trigger] c[j]).0 == i),
            forall|i: int| 0 <= i < n ==> (filled@[i] <==> (#[trigger] slots@[i]) is Some),
            forall|j: int|
                rem@.len() <= j < n ==> slots@[((#[trigger] c[j]).0 as int)] == Some(c[j].1),
        decreases rem@.len(),
    {
        let ghost m = rem@.len() - 1;
        proof {
            assert(c.take(m + 1).last() == c[m]);
            assert(c.take(m + 1).drop_last() =~= c.take(m));
        }
        let pair = match rem.pop() {
            Option::Some(p) => p,
            Option::None => {
                proof {
                    assert(false);
                }
                return None;
            },
        };
        let (tag, outcome) = pair;
        proof {
            assert((tag, outcome) == c[m]);
        }
        if tag >= n {
            proof {
                assert((c[m].0 as nat) >= n);
                assert(!tags_in_range(c, n as nat));
                assert(restore_spec(c, n as nat) is None);
            }
            return None;
        }
        if filled[tag] {
            proof {
                let j = choose|j: int| m + 1 <= j < n && (#[trigger] c[j]).0 == tag as int;
                assert(c[m].0 == c[j].0);
                assert(!tags_distinct(c));
                assert(restore_spec(c, n as nat) is None);
            }
            return None;
        }
        slots.set(tag, Some(outcome));
        filled.set(tag, true);
    }
    let ghost fs = slots@;
    let mut out: Vec<HashOutcome> = Vec::new();
    proof {
        assert(slots@ =~= fs.take(slots@.len() as int));
        assert(tags_distinct(c)) by {
            assert(forall|j: int, k: int|
                0 <= j < k < n ==> (#[trigger] c[j]).0 != (#[trigger] c[k]).0);
        }
        assert(tags_in_range(c, n as nat)) by {
            assert(forall|j: int| 0 <= j < n ==> ((#[trigger] c[j]).0 as int) < n);
        }
        assert forall|i: int| 0 <= i < n implies ((#[trigger] fs[i]) is Some <==> has_tag(
            c,
            i,
        )) by {
            assert(filled@[i] <==> exists|j: int| 0 <= j < n && (#[trigger] c[j]).0 == i);
            assert(filled@[i] <==> fs[i] is Some);
        }
        assert(forall|j: int| 0 <= j < n ==> fs[((#[trigger] c[j]).0 as int)] == Some(c[j].1));
    }
    while slots.len() > 0
        invariant
            c == completed@,
            c.len() == n,
            fs.len() == n,
            slots@.len() <= n,
            slots@ == fs.take(slots@.len() as int),
            out@.len() == n - slots@.len(),
            forall|i: int|
                0 <= i < out@.len() ==> fs[slots@.len() + i] == Some(#[trigger] out@[i]),
            tags_distinct(c),
            tags_in_range(c, n as nat),
            forall|i: int| 0 <= i < n ==> ((#[trigger] fs[i]) is Some <==> has_tag(c, i)),
            forall|j: int| 0 <= j < n ==> fs[((#[trigger] c[j]).0 as int)] == Some(c[j].1),
        decreases slots@.len(),
    {
        let ghost k = slots@.len() - 1;
        proof {
            assert(fs.take(k + 1).last() == fs[k]);
            assert(fs.take(k + 1).drop_last() =~= fs.take(k));
        }
        let slot = match slots.pop() {
            Option::Some(s) => s,
            Option::None => {
                proof {
                    assert(false);
                }
                return None;
            },
        };
        match slot {
            Option::Some(o) => {
                out.insert(0, o);
            },
            Option::None => {
                proof {
                    assert(fs[k] is None);
                    assert(!has_tag(c, k));
                    assert(!tags_complete(c, n as nat));
                    assert(restore_spec(c, n as nat) is None);
                }
                return None;
            },
        }
    }
    proof {
        assert(out@.len() == n);
        assert forall|i: int| 0 <= i < n implies (#[trigger] fs[i]) == Some(out@[i]) by {
            assert(fs[slots@.len() + i] == Some(out@[i]));
        }
        assert(tags_complete(c, n as nat)) by {
            assert forall|i: int| 0 <= i < n implies has_tag(c, i) by {
                assert(fs[i] is Some);
            }
        }
        let target = Seq::new(n as nat, |i: int| outcome_at(c, i));
        assert forall|i: int| 0 <= i < n implies target[i] == out@[i] by {
            assert(has_tag(c, i));
            let j = choose|j: int| 0 <= j < c.len() && (#[trigger] c[j]).0 == i;
            assert(fs[(c[j].0 as int)] == Some(c[j].1));
            assert(fs[i] == Some(out@[i]));
            lemma_outcome_at(c, i, j);
        }
        assert(out@ =~= target);
        assert(restore_spec(c, n as nat) == Some(out@));
    }
    Some(out)
}

/// Law of the ordered fan-in: for one fixed vector of per-job outcomes,
/// every completion order whose entries are correctly tagged restores to
/// exactly that vector, in job order — the report is independent of which
/// worker finished first.
pub proof fn lemma_restore_any_order(c: Seq<(usize, HashOutcome)>, outcomes: Seq<HashOutcome>)
    requires
        c.len() == outcomes.len(),
        tags_distinct(c),
        forall|j: int|
            0 <= j < c.len() ==> ((#[trigger] c[j]).0 as int) < c.len() && c[j].1 == outcomes[(
            c[j].0 as int)],
    ensures
        restore_spec(c, c.len()) == Some(outcomes),
{
    let n = c.len() as int;
    let tags = Seq::new(c.len(), |j: int| c[j].0 as int);
    assert(tags.no_duplicates()) by {
        assert forall|j: int, k: int|
            0 <= j < tags.len() && 0 <= k < tags.len() && j != k implies tags[j] != tags[k] by {
            if j < k {
                assert(c[j].0 != c[k].0);
            } else {
                assert(c[k].0 != c[j].0);
            }
        }
    }
    tags.unique_seq_to_set();
    broadcast use seq_to_set_is_finite;

    lemma_int_range(0, n);
    assert(tags.to_set().subset_of(set_int_range(0, n))) by {
        assert forall|a: int| tags.to_set().contains(a) implies set_int_range(0, n).contains(
            a,
        ) by {
            let j = choose|j: int| 0 <= j < tags.len() && tags[j] == a;
            assert(0 <= (c[j].0 as int) < n);
        }
    }
    lemma_subset_equality(tags.to_set(), set_int_range(0, n));
    assert forall|i: int| 0 <= i < n implies has_tag(c, i) by {
        assert(set_int_range(0, n).contains(i));
        assert(tags.to_set().contains(i));
        assert(tags.contains(i));
        let j = choose|j: int| 0 <= j < tags.len() && tags[j] == i;
        assert((c[j]).0 == i);
    }
    assert(tags_complete(c, c.len()));
    assert forall|i: int| 0 <= i < n implies Seq::new(c.len(), |i: int| outcome_at(c, i))[i]
        == outcomes[i] by {
        let j = choose|j: int| 0 <= j < c.len() && (#[trigger] c[j]).0 == i;
        assert(has_tag(c, i));
        assert(c[j].1 == outcomes[i]);
        lemma_outcome_at(c, i, j);
    }
    assert(Seq::new(c.len(), |i: int| outcome_at(c, i)) =~= outcomes);
}

} // verus!
