//! Dead-letter queue policy: what one append writes, when the active
//! segment rotates, and which rotated segments are pruned.
//!
//! The policy is pure: the I/O layer reports the active file's size and
//! the rotated segments (oldest first, as their timestamped names sort),
//! and performs exactly the renames and deletions decided here.
use vstd::prelude::*;

use crate::json::spec_encode;
use crate::protocol::DeadLetter;
use crate::protocol::spec_dl_json;

verus! {

/// The bytes one dead letter appends: its JSON line and a newline.
pub fn deadletter_line(d: &DeadLetter) -> (r: Vec<u8>)
    ensures
        r@ == spec_encode(spec_dl_json(d.deep_view())) + seq![0x0au8],
{
    let mut out = d.to_json().encode();
    out.push(0x0a);
    proof {
        assert(out@ =~= spec_encode(spec_dl_json(d.deep_view())) + seq![0x0au8]);
    }
    out
}

/// Whether the active segment must rotate before the next append: it
/// has reached the per-segment byte cap. After a rotation the append
/// goes to a fresh, empty active file.
pub fn rotation_needed(active_size: u64, max_bytes: u64) -> (r: bool)
    ensures
        r == (active_size >= max_bytes),
{
    active_size >= max_bytes
}

/// A rotated segment as the policy sees it: its size and its age in days.
pub struct DlqSegment {
    pub size: u64,
    pub age_days: u64,
}

/// Whether a segment is past the configured age cap.
pub open spec fn spec_age_old(seg: DlqSegment, max_age_days: Option<u64>) -> bool {
    match max_age_days {
        Some(d) => seg.age_days > d,
        None => false,
    }
}

/// The number of segments kept by a deletion plan.
pub open spec fn spec_kept_count(segs: Seq<DlqSegment>, del: Seq<bool>, i: int) -> int
    decreases segs.len() - i,
{
    if i < 0 || i >= segs.len() || segs.len() != del.len() {
        0
    } else {
        (if del[i] {
            0int
        } else {
            1int
        }) + spec_kept_count(segs, del, i + 1)
    }
}

/// The total size of segments kept by a deletion plan.
pub open spec fn spec_kept_size(segs: Seq<DlqSegment>, del: Seq<bool>, i: int) -> int
    decreases segs.len() - i,
{
    if i < 0 || i >= segs.len() || segs.len() != del.len() {
        0
    } else {
        (if del[i] {
            0int
        } else {
            segs[i].size as int
        }) + spec_kept_size(segs, del, i + 1)
    }
}

/// Decides which rotated segments to delete, given the segments oldest
/// first. Every segment past the age cap is deleted; then the oldest
/// survivors are deleted until at most `max_rotations` remain and their
/// sizes sum to at most `total_max_bytes`. When the age survivors
/// already fit both caps, nothing else is deleted.
#[verifier::loop_isolation(false)]
#[verifier::rlimit(60)]
pub fn dlq_prune_plan(
    segs: &Vec<DlqSegment>,
    max_rotations: u64,
    total_max_bytes: u64,
    max_age_days: Option<u64>,
) -> (del: Vec<bool>)
    ensures
        del@.len() == segs@.len(),
        forall|i: int| 0 <= i < segs@.len() && spec_age_old(segs@[i], max_age_days) ==> del@[i],
        spec_kept_count(segs@, del@, 0) <= max_rotations,
        spec_kept_size(segs@, del@, 0) <= total_max_bytes,
        forall|i: int, j: int|
            0 <= i < j < segs@.len() && !del@[i] && !spec_age_old(segs@[j], max_age_days)
                ==> !del@[j],
        (spec_kept_count(segs@, seq_age_flags(segs@, max_age_days), 0) <= max_rotations
            && spec_kept_size(segs@, seq_age_flags(segs@, max_age_days), 0) <= total_max_bytes)
            ==> del@ == seq_age_flags(segs@, max_age_days),
        forall|i: int|
            0 <= i < segs@.len() && del@[i] && !spec_age_old(segs@[i], max_age_days) ==> (
            spec_count_in(segs@, max_age_days, i, segs@.len() as int) > max_rotations
                || spec_size_in(segs@, max_age_days, i, segs@.len() as int) > total_max_bytes),
{
    let n = segs.len();
    let mut del: Vec<bool> = Vec::new();
    let mut survivors: u64 = 0;
    let mut total: u128 = 0;
    let mut k: usize = 0;
    while k < n
        invariant
            k <= n,
            del@.len() == k,
            survivors <= k,
            total <= k as int * (u64::MAX as int),
            forall|i: int| 0 <= i < k ==> (del@[i] == spec_age_old(segs@[i], max_age_days)),
            survivors as int == spec_kept_count(segs@.take(k as int), del@, 0),
            total as int == spec_kept_size(segs@.take(k as int), del@, 0),
        decreases n - k,
    {
        let ghost prevdel = del@;
        let old_enough = match max_age_days {
            Some(d) => segs[k].age_days > d,
            None => false,
        };
        if old_enough {
            del.push(false);
            del.set(k, true);
        } else {
            del.push(false);
            survivors = survivors + 1;
            proof {
                assert(total + segs@[k as int].size <= (k + 1) * (u64::MAX as int))
                    by (nonlinear_arith)
                    requires
                        total <= k as int * (u64::MAX as int),
                        segs@[k as int].size <= u64::MAX,
                ;
                assert((k + 1) * (u64::MAX as int) < u128::MAX) by (nonlinear_arith)
                    requires
                        0 <= k + 1 <= 0x1_0000_0000_0000_0000,
                ;
            }
            total = total + segs[k].size as u128;
        }
        proof {
            lemma_kept_snoc(segs@, del@, k as int);
            assert(segs@.take(k + 1 as int) =~= segs@.take(k as int) + seq![segs@[k as int]]);
            assert(del@.take(k as int) =~= prevdel);
        }
        k = k + 1;
    }
    proof {
        assert(segs@.take(n as int) =~= segs@);
        assert(del@ =~= seq_age_flags(segs@, max_age_days)) by {
            lemma_age_flags(segs@, max_age_days);
        }
    }
    let ghost pass1 = del@;
    proof {
        lemma_kept_eq_count_in(segs@, del@, max_age_days, 0);
    }
    let mut k2: usize = 0;
    while k2 < n && (survivors > max_rotations || total > total_max_bytes as u128)
        invariant
            k2 <= n,
            del@.len() == n,
            forall|i: int| 0 <= i < k2 ==> del@[i],
            forall|i: int| k2 <= i < n ==> (del@[i] == spec_age_old(segs@[i], max_age_days)),
            survivors as int == spec_kept_count(segs@, del@, 0),
            total as int == spec_kept_size(segs@, del@, 0),
            survivors as int == spec_count_in(segs@, max_age_days, k2 as int, n as int),
            total as int == spec_size_in(segs@, max_age_days, k2 as int, n as int),
            del@ != pass1 ==> spec_kept_count(segs@, pass1, 0) > max_rotations || spec_kept_size(
                segs@,
                pass1,
                0,
            ) > total_max_bytes,
            forall|i: int|
                0 <= i < k2 && !spec_age_old(segs@[i], max_age_days) ==> (spec_count_in(
                    segs@,
                    max_age_days,
                    i,
                    n as int,
                ) > max_rotations || spec_size_in(segs@, max_age_days, i, n as int)
                    > total_max_bytes),
        decreases n - k2,
    {
        if !del[k2] {
            let ghost prev = del@;
            proof {
                lemma_kept_at_least(segs@, prev, 0, k2 as int);
            }
            del.set(k2, true);
            proof {
                assert(del@ =~= prev.update(k2 as int, true));
                lemma_kept_set(segs@, prev, del@, k2 as int, 0);
                // the survivor suffix headed here broke a cap
                assert(!spec_age_old(segs@[k2 as int], max_age_days));
                assert(spec_count_in(segs@, max_age_days, k2 as int, n as int) > max_rotations
                    || spec_size_in(segs@, max_age_days, k2 as int, n as int) > total_max_bytes);
            }
            survivors = survivors - 1;
            total = total - segs[k2].size as u128;
        }
        k2 = k2 + 1;
    }
    proof {
        lemma_kept_bounds(segs@, del@, 0);
        if k2 == n && (survivors > max_rotations || total > total_max_bytes as u128) {
            lemma_kept_all_deleted(segs@, del@, 0);
        }
        assert forall|i: int, j: int|
            0 <= i < j < segs@.len() && !del@[i] && !spec_age_old(segs@[j], max_age_days) implies
        !del@[j] by {}
        assert forall|i: int|
            0 <= i < segs@.len() && del@[i] && !spec_age_old(segs@[i], max_age_days) implies (
        spec_count_in(segs@, max_age_days, i, segs@.len() as int) > max_rotations || spec_size_in(
            segs@,
            max_age_days,
            i,
            segs@.len() as int,
        ) > total_max_bytes) by {
            assert(i < k2);
        }
    }
    del
}

/// The age survivors among positions `a..b`.
pub open spec fn spec_count_in(segs: Seq<DlqSegment>, age: Option<u64>, a: int, b: int) -> int
    decreases b - a,
{
    if a >= b || a < 0 || b > segs.len() {
        0
    } else {
        (if spec_age_old(segs[a], age) {
            0int
        } else {
            1int
        }) + spec_count_in(segs, age, a + 1, b)
    }
}

/// The total size of age survivors among positions `a..b`.
pub open spec fn spec_size_in(segs: Seq<DlqSegment>, age: Option<u64>, a: int, b: int) -> int
    decreases b - a,
{
    if a >= b || a < 0 || b > segs.len() {
        0
    } else {
        (if spec_age_old(segs[a], age) {
            0int
        } else {
            segs[a].size as int
        }) + spec_size_in(segs, age, a + 1, b)
    }
}

/// When every flag from `a` on is the age flag, the kept totals from
/// `a` are the age-survivor totals of that suffix.
proof fn lemma_kept_eq_count_in(segs: Seq<DlqSegment>, del: Seq<bool>, age: Option<u64>, a: int)
    requires
        del.len() == segs.len(),
        0 <= a <= segs.len(),
        forall|j: int| a <= j < segs.len() ==> (del[j] == spec_age_old(segs[j], age)),
    ensures
        spec_kept_count(segs, del, a) == spec_count_in(segs, age, a, segs.len() as int),
        spec_kept_size(segs, del, a) == spec_size_in(segs, age, a, segs.len() as int),
    decreases segs.len() - a,
{
    if a < segs.len() {
        lemma_kept_eq_count_in(segs, del, age, a + 1);
    }
}

/// The deletion flags after the age pass alone: delete exactly the
/// segments past the age cap.
pub open spec fn seq_age_flags(segs: Seq<DlqSegment>, age: Option<u64>) -> Seq<bool> {
    Seq::new(segs.len(), |i: int| spec_age_old(segs[i], age))
}

/// The age flags are what they say at each position.
proof fn lemma_age_flags(segs: Seq<DlqSegment>, age: Option<u64>)
    ensures
        seq_age_flags(segs, age).len() == segs.len(),
        forall|i: int|
            0 <= i < segs.len() ==> (#[trigger] seq_age_flags(segs, age)[i]) == spec_age_old(
                segs[i],
                age,
            ),
{
}

/// Extends the kept totals by one position.
proof fn lemma_kept_snoc(segs: Seq<DlqSegment>, del: Seq<bool>, k: int)
    requires
        0 <= k < segs.len(),
        del.len() == k + 1,
    ensures
        spec_kept_count(segs.take(k + 1), del, 0) == spec_kept_count(
            segs.take(k),
            del.take(k),
            0,
        ) + (if del[k] {
            0int
        } else {
            1int
        }),
        spec_kept_size(segs.take(k + 1), del, 0) == spec_kept_size(segs.take(k), del.take(k), 0)
            + (if del[k] {
            0int
        } else {
            segs[k].size as int
        }),
{
    lemma_kept_prefix(segs.take(k + 1), del, segs.take(k), del.take(k), 0);
}

/// Kept totals over a sequence one longer equal the shorter totals plus
/// the last position's contribution.
proof fn lemma_kept_prefix(
    segs: Seq<DlqSegment>,
    del: Seq<bool>,
    segs0: Seq<DlqSegment>,
    del0: Seq<bool>,
    i: int,
)
    requires
        segs.len() == del.len(),
        segs0.len() == del0.len(),
        segs.len() == segs0.len() + 1,
        forall|t: int| 0 <= t < segs0.len() ==> segs[t] == segs0[t] && del[t] == del0[t],
        0 <= i <= segs0.len(),
    ensures
        spec_kept_count(segs, del, i) == spec_kept_count(segs0, del0, i) + (if del[
            segs.len() - 1
        ] {
            0int
        } else {
            1int
        }),
        spec_kept_size(segs, del, i) == spec_kept_size(segs0, del0, i) + (if del[segs.len()
            - 1] {
            0int
        } else {
            segs[segs.len() - 1].size as int
        }),
    decreases segs0.len() - i,
{
    if i < segs0.len() {
        lemma_kept_prefix(segs, del, segs0, del0, i + 1);
    } else {
        assert(i == segs0.len());
        assert(spec_kept_count(segs0, del0, i) == 0);
        assert(spec_kept_size(segs0, del0, i) == 0);
        assert(spec_kept_count(segs, del, i + 1) == 0);
        assert(spec_kept_size(segs, del, i + 1) == 0);
        assert(spec_kept_count(segs, del, i) == (if del[i] {
            0int
        } else {
            1int
        }) + spec_kept_count(segs, del, i + 1));
        assert(spec_kept_size(segs, del, i) == (if del[i] {
            0int
        } else {
            segs[i].size as int
        }) + spec_kept_size(segs, del, i + 1));
    }
}

/// A kept position contributes at least itself to the totals.
proof fn lemma_kept_at_least(segs: Seq<DlqSegment>, del: Seq<bool>, i: int, p: int)
    requires
        segs.len() == del.len(),
        0 <= i <= p < segs.len(),
        !del[p],
    ensures
        spec_kept_count(segs, del, i) >= 1,
        spec_kept_size(segs, del, i) >= segs[p].size,
    decreases p - i,
{
    lemma_kept_bounds(segs, del, i + 1);
    if i < p {
        lemma_kept_at_least(segs, del, i + 1, p);
    }
}

/// Deleting one kept segment lowers the kept count by one and the kept
/// size by its size.
proof fn lemma_kept_set(segs: Seq<DlqSegment>, prev: Seq<bool>, cur: Seq<bool>, p: int, i: int)
    requires
        prev.len() == segs.len(),
        cur.len() == segs.len(),
        0 <= p < segs.len(),
        !prev[p],
        cur == prev.update(p, true),
        0 <= i <= segs.len(),
    ensures
        i <= p ==> spec_kept_count(segs, cur, i) == spec_kept_count(segs, prev, i) - 1
            && spec_kept_size(segs, cur, i) == spec_kept_size(segs, prev, i) - segs[p].size,
        i > p ==> spec_kept_count(segs, cur, i) == spec_kept_count(segs, prev, i)
            && spec_kept_size(segs, cur, i) == spec_kept_size(segs, prev, i),
    decreases segs.len() - i,
{
    if i < segs.len() {
        lemma_kept_set(segs, prev, cur, p, i + 1);
    }
}

/// Kept totals are never negative.
proof fn lemma_kept_bounds(segs: Seq<DlqSegment>, del: Seq<bool>, i: int)
    requires
        del.len() == segs.len(),
        0 <= i <= segs.len(),
    ensures
        spec_kept_count(segs, del, i) >= 0,
        spec_kept_size(segs, del, i) >= 0,
    decreases segs.len() - i,
{
    if i < segs.len() {
        lemma_kept_bounds(segs, del, i + 1);
    }
}

/// When every flag is set nothing is kept.
proof fn lemma_kept_all_deleted(segs: Seq<DlqSegment>, del: Seq<bool>, i: int)
    requires
        del.len() == segs.len(),
        0 <= i <= segs.len(),
        forall|t: int| 0 <= t < segs.len() ==> del[t],
    ensures
        spec_kept_count(segs, del, i) == 0,
        spec_kept_size(segs, del, i) == 0,
    decreases segs.len() - i,
{
    if i < segs.len() {
        lemma_kept_all_deleted(segs, del, i + 1);
    }
}

} // verus!
