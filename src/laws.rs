//! What holds of every mapping the derivation can produce, whatever donors
//! the random draws picked.

use crate::partition::{
    Partition, face_at, flattens, label_of, lemma_face_present, lemma_faces_distinct,
    lemma_faces_in_range, lemma_label_of, lemma_same_rank, lemma_saturated_unique,
    lemma_saturation, magnitude, mapping_outcome, moves_left, redistributed, unbiased,
};
use vstd::prelude::*;

verus! {

/// Flattening a well-formed partition gives each face the label of the one
/// bucket that holds it.
pub proof fn lemma_flat_label(p: Partition, m: Seq<u8>, f: int) -> (pos: (int, int))
    requires
        p.wf(),
        flattens(p.labels@, p.bags_view(), m),
        1 <= f <= 20,
    ensures
        0 <= pos.0 < p.bags_view().len(),
        0 <= pos.1 < p.bags_view()[pos.0].len(),
        p.bags_view()[pos.0][pos.1] == f,
        m[f - 1] == p.labels@[pos.0],
{
    lemma_face_present(p.labels@, p.bags_view(), p.descending, f)
}

/// Every face 1..=20 sits in exactly one bag of a well-formed partition, and
/// only once there.
pub proof fn lemma_partition_coverage(p: Partition, f: int)
    requires
        p.wf(),
        1 <= f <= 20,
    ensures
        exists|j: int, i: int|
            0 <= j < p.bags_view().len() && 0 <= i < p.bags_view()[j].len() && #[trigger] p.bags_view()[j][i]
                == f,
        forall|j1: int, i1: int, j2: int, i2: int|
            0 <= j1 < p.bags_view().len() && 0 <= i1 < p.bags_view()[j1].len() && 0 <= j2
                < p.bags_view().len() && 0 <= i2 < p.bags_view()[j2].len() && #[trigger] p.bags_view()[j1][i1]
                == f && #[trigger] p.bags_view()[j2][i2] == f ==> j1 == j2 && i1 == i2,
{
    let (j, i) = lemma_face_present(p.labels@, p.bags_view(), p.descending, f);
    assert(p.bags_view()[j][i] == f);
    assert forall|j1: int, i1: int, j2: int, i2: int|
        0 <= j1 < p.bags_view().len() && 0 <= i1 < p.bags_view()[j1].len() && 0 <= j2
            < p.bags_view().len() && 0 <= i2 < p.bags_view()[j2].len() && #[trigger] p.bags_view()[j1][i1]
            == f && #[trigger] p.bags_view()[j2][i2] == f implies j1 == j2 && i1 == i2 by {
        lemma_faces_distinct(p.labels@, p.bags_view(), p.descending, j1, i1, j2, i2);
    }
}

/// Every derived mapping has one entry per face 1..=20, and each entry is a
/// face of the N-sided die.
pub proof fn lemma_coverage(n: u8, soh: i8, m: Seq<u8>)
    requires
        n >= 1,
        mapping_outcome(n, soh, m),
    ensures
        m.len() == 20,
        forall|f: int| 0 <= f < 20 ==> 1 <= #[trigger] m[f] <= n,
{
    let (base, after) = choose|base: Partition, after: Partition|
        #![trigger unbiased(base, n as int), redistributed(base, magnitude(soh), after)]
        unbiased(base, n as int) && base.descending == (soh < 0) && redistributed(
            base,
            magnitude(soh),
            after,
        ) && flattens(after.labels@, after.bags_view(), m);
    assert forall|f: int| 0 <= f < 20 implies 1 <= #[trigger] m[f] <= n by {
        let (j, i) = lemma_flat_label(after, m, f + 1);
        let b = base.bags_view();
        assert(b[j].len() >= 1);
        lemma_faces_in_range(base.labels@, b, base.descending);
        assert(base.labels@[j] == label_of(b[j][0] as int, n as int));
        lemma_label_of(b[j][0] as int, b[j][0] as int, n as int);
    }
}

/// In every derived mapping a higher d20 face never lands on a lower dice
/// face.
pub proof fn lemma_monotone(n: u8, soh: i8, m: Seq<u8>, a: int, b: int)
    requires
        mapping_outcome(n, soh, m),
        1 <= a < b <= 20,
    ensures
        m[a - 1] <= m[b - 1],
{
    let (base, after) = choose|base: Partition, after: Partition|
        #![trigger unbiased(base, n as int), redistributed(base, magnitude(soh), after)]
        unbiased(base, n as int) && base.descending == (soh < 0) && redistributed(
            base,
            magnitude(soh),
            after,
        ) && flattens(after.labels@, after.bags_view(), m);
    let bv = after.bags_view();
    let d = after.descending;
    let (ja, ia) = lemma_flat_label(after, m, a);
    let (jb, ib) = lemma_flat_label(after, m, b);
    assert(bv[ja][ia] == face_at(d, crate::partition::start(bv, ja) + ia));
    assert(bv[jb][ib] == face_at(d, crate::partition::start(bv, jb) + ib));
    if d {
        lemma_same_rank(bv, jb, ib, ja, ia);
    } else {
        lemma_same_rank(bv, ja, ia, jb, ib);
    }
}

/// Once the budget covers every move the partition allows, a larger budget
/// changes nothing: all such redistributions end in the same partition.
pub proof fn lemma_saturation_idempotent(
    base: Partition,
    budget: int,
    larger: int,
    shorter: Partition,
    longer: Partition,
)
    requires
        base.wf(),
        budget >= moves_left(base.bags_view()),
        larger >= budget,
        redistributed(base, budget, shorter),
        redistributed(base, larger, longer),
    ensures
        shorter.labels@ == longer.labels@,
        shorter.descending == longer.descending,
        shorter.bags_view() == longer.bags_view(),
{
    lemma_saturation(base.labels@, base.bags_view(), base.descending);
    lemma_saturated_unique(shorter.labels@, shorter.bags_view(), longer.bags_view(), shorter.descending);
}

/// With no Sleight of Hand the derived mapping is the flattened unbiased
/// partition: face `f` maps to `ceil(f * n / 20)`.
pub proof fn lemma_zero_bias_identity(n: u8, m: Seq<u8>, base: Partition, flat: Seq<u8>)
    requires
        mapping_outcome(n, 0, m),
        unbiased(base, n as int),
        flattens(base.labels@, base.bags_view(), flat),
    ensures
        m == flat,
        forall|f: int| 1 <= f <= 20 ==> #[trigger] m[f - 1] == label_of(f, n as int),
{
    let (b0, after) = choose|b0: Partition, after: Partition|
        #![trigger unbiased(b0, n as int), redistributed(b0, magnitude(0), after)]
        unbiased(b0, n as int) && b0.descending == false && redistributed(b0, magnitude(0), after)
            && flattens(after.labels@, after.bags_view(), m);
    assert(after.bags_view() == b0.bags_view());
    assert forall|f: int| 1 <= f <= 20 implies #[trigger] m[f - 1] == label_of(f, n as int) && flat[f
        - 1] == label_of(f, n as int) by {
        let (j, i) = lemma_flat_label(after, m, f);
        assert(b0.bags_view()[j][i] == f);
        let (j2, i2) = lemma_flat_label(base, flat, f);
    }
    assert forall|k: int| 0 <= k < 20 implies m[k] == flat[k] by {
        assert(m[(k + 1) - 1] == label_of(k + 1, n as int));
        assert(flat[(k + 1) - 1] == label_of(k + 1, n as int));
    }
    assert(m =~= flat);
}

} // verus!
