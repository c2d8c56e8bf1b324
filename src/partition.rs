//! A partition of the twenty d20 faces into ordered buckets, and the
//! mathematical model that the redistribution algorithm is proved against.
//!
//! Buckets are kept in *rank order*: ascending labels for a non-negative bias,
//! descending labels for a negative one. Within each bag the faces are kept in
//! the same rank order, so that reading the bags one after another visits the
//! faces 1..=20 (or 20..=1) exactly once.

use vstd::arithmetic::div_mod::lemma_div_is_ordered;
use vstd::prelude::*;

verus! {

/// Number of faces of the reference die.
pub const D20_FACES: u8 = 20;

/// The die face that sits at rank position `r` (0-based): faces run upward
/// from 1, or downward from 20 when ranks run descending.
pub open spec fn face_at(descending: bool, r: int) -> int {
    if descending {
        20 - r
    } else {
        r + 1
    }
}

/// The bucket label of `face` in the unbiased split of 20 faces into `n`
/// buckets: `ceil(face * n / 20)`.
pub open spec fn label_of(face: int, n: int) -> int {
    (face * n + 19) / 20
}

/// Number of faces held by the bags before bag `j`.
pub open spec fn start(bags: Seq<Seq<u8>>, j: int) -> int
    decreases j,
{
    if j <= 0 {
        0
    } else {
        start(bags, j - 1) + bags[j - 1].len()
    }
}

/// Labels strictly increase (or strictly decrease, for descending rank) from
/// one bucket to the next.
pub open spec fn labels_ranked(labels: Seq<u8>, descending: bool) -> bool {
    forall|a: int, b: int|
        0 <= a < b < labels.len() ==> if descending {
            labels[a] > labels[b]
        } else {
            labels[a] < labels[b]
        }
}

/// A well-formed partition: one label per bag, labels in rank order, no empty
/// bag, and the bags read in order give every face exactly once, in rank order.
pub open spec fn well_formed(labels: Seq<u8>, bags: Seq<Seq<u8>>, descending: bool) -> bool {
    &&& labels.len() == bags.len()
    &&& 1 <= bags.len() <= 20
    &&& labels_ranked(labels, descending)
    &&& forall|j: int| 0 <= j < bags.len() ==> #[trigger] bags[j].len() >= 1
    &&& start(bags, bags.len() as int) == 20
    &&& forall|j: int, i: int|
        0 <= j < bags.len() && 0 <= i < bags[j].len() ==> #[trigger] bags[j][i] == face_at(
            descending,
            start(bags, j) + i,
        )
}

/// Sum of `start(bags, t) - t` over the bucket boundaries `1..=t`.
pub open spec fn moves_upto(bags: Seq<Seq<u8>>, t: int) -> int
    decreases t,
{
    if t <= 0 {
        0
    } else {
        moves_upto(bags, t - 1) + start(bags, t) - t
    }
}

/// How many single-rank moves are still possible before every bucket but the
/// top one holds exactly one face.
pub open spec fn moves_left(bags: Seq<Seq<u8>>) -> int {
    moves_upto(bags, bags.len() - 1)
}

/// Positions below `t` whose bag holds more than one face, in rank order.
pub open spec fn donors_upto(bags: Seq<Seq<u8>>, t: int) -> Seq<int>
    decreases t,
{
    if t <= 0 {
        seq![]
    } else if bags[t - 1].len() > 1 {
        donors_upto(bags, t - 1).push(t - 1)
    } else {
        donors_upto(bags, t - 1)
    }
}

/// The buckets that may donate a face: every bucket but the top-ranked one
/// whose bag holds more than one face, in rank order.
pub open spec fn donors(bags: Seq<Seq<u8>>) -> Seq<int> {
    donors_upto(bags, bags.len() - 1)
}

/// One redistribution step at donor `j`: the donor's highest-ranked face moves
/// to the front of the next bucket up.
pub open spec fn shift_up(bags: Seq<Seq<u8>>, j: int) -> Seq<Seq<u8>> {
    bags.update(j, bags[j].drop_last()).update(j + 1, seq![bags[j].last()] + bags[j + 1])
}

/// The saturated partition that redistribution ends in: every bucket below
/// the top one holds exactly one face.
pub open spec fn saturated(bags: Seq<Seq<u8>>) -> bool {
    forall|j: int| 0 <= j < bags.len() - 1 ==> #[trigger] bags[j].len() == 1
}

/// A flat mapping `m` (indexed by face − 1) sends every face in bag `j` to
/// label `j`.
pub open spec fn flattens(labels: Seq<u8>, bags: Seq<Seq<u8>>, m: Seq<u8>) -> bool {
    &&& m.len() == 20
    &&& forall|j: int, i: int|
        0 <= j < bags.len() && 0 <= i < bags[j].len() ==> m[bags[j][i] - 1] == labels[j]
}

pub proof fn lemma_start_grows(bags: Seq<Seq<u8>>, a: int, b: int)
    requires
        0 <= a <= b <= bags.len(),
        forall|j: int| 0 <= j < bags.len() ==> #[trigger] bags[j].len() >= 1,
    ensures
        start(bags, b) >= start(bags, a) + (b - a),
    decreases b - a,
{
    if a < b {
        lemma_start_grows(bags, a, b - 1);
    }
}

pub proof fn lemma_start_prefix(b1: Seq<Seq<u8>>, b2: Seq<Seq<u8>>, m: int)
    requires
        0 <= m <= b1.len(),
        m <= b2.len(),
        forall|j: int| 0 <= j < m ==> #[trigger] b1[j].len() == b2[j].len(),
    ensures
        start(b1, m) == start(b2, m),
    decreases m,
{
    if m > 0 {
        lemma_start_prefix(b1, b2, m - 1);
    }
}

/// A rank position lies in exactly one bag.
pub proof fn lemma_same_rank(
    bags: Seq<Seq<u8>>,
    j1: int,
    i1: int,
    j2: int,
    i2: int,
)
    requires
        forall|j: int| 0 <= j < bags.len() ==> #[trigger] bags[j].len() >= 1,
        0 <= j1 < bags.len(),
        0 <= j2 < bags.len(),
        0 <= i1 < bags[j1].len(),
        0 <= i2 < bags[j2].len(),
        start(bags, j1) + i1 <= start(bags, j2) + i2,
    ensures
        j1 <= j2,
        j1 == j2 ==> i1 <= i2,
{
    if j1 > j2 {
        lemma_start_grows(bags, j2 + 1, j1);
    }
}

/// The bag that holds rank position `r`.
pub proof fn lemma_locate(bags: Seq<Seq<u8>>, r: int, t: int) -> (j: int)
    requires
        0 <= t <= bags.len(),
        0 <= r < start(bags, t),
    ensures
        0 <= j < t,
        start(bags, j) <= r < start(bags, j) + bags[j].len(),
    decreases t,
{
    if r >= start(bags, t - 1) {
        t - 1
    } else {
        lemma_locate(bags, r, t - 1)
    }
}

/// With no empty bag, the first `t` bags hold exactly `t` faces iff each
/// of them holds one.
pub proof fn lemma_start_tight(bags: Seq<Seq<u8>>, t: int)
    requires
        0 <= t <= bags.len(),
        forall|j: int| 0 <= j < bags.len() ==> #[trigger] bags[j].len() >= 1,
    ensures
        start(bags, t) >= t,
        start(bags, t) == t <==> forall|j: int| 0 <= j < t ==> #[trigger] bags[j].len() == 1,
        donors_upto(bags, t).len() == 0 <==> start(bags, t) == t,
        moves_upto(bags, t) >= 0,
        moves_upto(bags, t) == 0 <==> start(bags, t) == t,
    decreases t,
{
    if t > 0 {
        lemma_start_tight(bags, t - 1);
        assert(bags[t - 1].len() >= 1);
        if start(bags, t) == t {
            assert forall|j: int| 0 <= j < t implies #[trigger] bags[j].len() == 1 by {
                if j < t - 1 {
                    assert(start(bags, t - 1) == t - 1);
                }
            }
        }
        if forall|j: int| 0 <= j < t ==> #[trigger] bags[j].len() == 1 {
            assert(bags[t - 1].len() == 1);
            assert forall|j: int| 0 <= j < t - 1 implies #[trigger] bags[j].len() == 1 by {
                assert(bags[j].len() == 1);
            }
        }
    }
}

/// Every listed donor is a bucket below `t` whose bag holds more than one face.
pub proof fn lemma_donors_valid(bags: Seq<Seq<u8>>, t: int)
    requires
        0 <= t <= bags.len(),
    ensures
        forall|k: int|
            0 <= k < donors_upto(bags, t).len() ==> 0 <= #[trigger] donors_upto(bags, t)[k] < t
                && bags[donors_upto(bags, t)[k]].len() > 1,
        donors_upto(bags, t).len() <= t,
    decreases t,
{
    if t > 0 {
        lemma_donors_valid(bags, t - 1);
    }
}

/// For a well-formed partition: no donor is left iff no move is left iff the
/// partition is saturated.
pub proof fn lemma_saturation(labels: Seq<u8>, bags: Seq<Seq<u8>>, descending: bool)
    requires
        well_formed(labels, bags, descending),
    ensures
        moves_left(bags) >= 0,
        donors(bags).len() == 0 <==> moves_left(bags) == 0,
        saturated(bags) <==> moves_left(bags) == 0,
{
    lemma_start_tight(bags, bags.len() - 1);
}

proof fn lemma_shift_start(bags: Seq<Seq<u8>>, j: int, m: int)
    requires
        0 <= j < bags.len() - 1,
        bags[j].len() >= 1,
        0 <= m <= bags.len(),
    ensures
        start(shift_up(bags, j), m) == start(bags, m) - (if m == j + 1 {
            1int
        } else {
            0int
        }),
    decreases m,
{
    if m > 0 {
        lemma_shift_start(bags, j, m - 1);
    }
}

proof fn lemma_shift_moves(bags: Seq<Seq<u8>>, j: int, t: int)
    requires
        0 <= j < bags.len() - 1,
        bags[j].len() >= 1,
        0 <= t <= bags.len(),
    ensures
        moves_upto(shift_up(bags, j), t) == moves_upto(bags, t) - (if t >= j + 1 {
            1int
        } else {
            0int
        }),
    decreases t,
{
    if t > 0 {
        lemma_shift_moves(bags, j, t - 1);
        lemma_shift_start(bags, j, t);
    }
}

/// A step at a donor keeps the partition well formed and uses up exactly one
/// of the moves left.
pub proof fn lemma_shift(labels: Seq<u8>, bags: Seq<Seq<u8>>, descending: bool, j: int)
    requires
        well_formed(labels, bags, descending),
        0 <= j < bags.len() - 1,
        bags[j].len() > 1,
    ensures
        well_formed(labels, shift_up(bags, j), descending),
        moves_left(shift_up(bags, j)) == moves_left(bags) - 1,
        forall|m: int|
            0 <= m <= bags.len() ==> #[trigger] start(shift_up(bags, j), m) <= start(bags, m),
{
    assert forall|m: int| 0 <= m <= bags.len() implies #[trigger] start(shift_up(bags, j), m)
        <= start(bags, m) by {
        lemma_shift_start(bags, j, m);
    }
    let nb = shift_up(bags, j);
    lemma_shift_moves(bags, j, bags.len() - 1);
    lemma_shift_start(bags, j, bags.len() as int);
    assert forall|x: int| 0 <= x < nb.len() implies #[trigger] nb[x].len() >= 1 by {
        assert(bags[x].len() >= 1);
    }
    assert forall|x: int, i: int| 0 <= x < nb.len() && 0 <= i < nb[x].len() implies #[trigger] nb[x][i]
        == face_at(descending, start(nb, x) + i) by {
        lemma_shift_start(bags, j, x);
        if x == j + 1 {
            lemma_shift_start(bags, j, j);
            if i == 0 {
                assert(nb[x][i] == bags[j][bags[j].len() - 1]);
            } else {
                assert(nb[x][i] == bags[j + 1][i - 1]);
            }
        } else if x == j {
            assert(nb[x][i] == bags[j][i]);
        } else {
            assert(nb[x][i] == bags[x][i]);
        }
    }
}

/// Two well-formed saturated partitions with the same labels are the same.
pub proof fn lemma_saturated_unique(
    labels: Seq<u8>,
    b1: Seq<Seq<u8>>,
    b2: Seq<Seq<u8>>,
    descending: bool,
)
    requires
        well_formed(labels, b1, descending),
        well_formed(labels, b2, descending),
        moves_left(b1) == 0,
        moves_left(b2) == 0,
    ensures
        b1 == b2,
{
    lemma_saturation(labels, b1, descending);
    lemma_saturation(labels, b2, descending);
    let k = b1.len() as int;
    assert forall|m: int| 0 <= m < k implies start(b1, m) == m && start(b2, m) == m by {
        lemma_start_tight(b1, m);
        lemma_start_tight(b2, m);
    }
    assert forall|x: int| 0 <= x < k implies #[trigger] b1[x] =~= b2[x] by {
        if x < k - 1 {
            assert(b1[x].len() == 1 && b2[x].len() == 1);
        } else {
            assert(start(b1, k) == start(b1, k - 1) + b1[k - 1].len());
            assert(start(b2, k) == start(b2, k - 1) + b2[k - 1].len());
        }
        assert forall|i: int| 0 <= i < b1[x].len() implies b1[x][i] == b2[x][i] by {
            assert(b1[x][i] == face_at(descending, start(b1, x) + i));
            assert(b2[x][i] == face_at(descending, start(b2, x) + i));
        }
    }
    assert(b1 =~= b2);
}

/// The bags of a partition, holding the d20 faces assigned to each bucket.
pub struct Partition {
    /// The bucket labels, in rank order.
    pub labels: Vec<u8>,
    /// The faces of each bucket, each bag in rank order.
    pub bags: Vec<Vec<u8>>,
    /// Whether rank runs from the highest label down to the lowest.
    pub descending: bool,
}

/// The contents of a list of bags.
pub open spec fn view_bags(bags: Seq<Vec<u8>>) -> Seq<Seq<u8>> {
    bags.map_values(|b: Vec<u8>| b@)
}

impl Partition {
    pub open spec fn bags_view(&self) -> Seq<Seq<u8>> {
        view_bags(self.bags@)
    }

    pub open spec fn wf(&self) -> bool {
        well_formed(self.labels@, self.bags_view(), self.descending)
    }
}

/// The unbiased labels lie in `1..=n` and never decrease as the face grows.
pub proof fn lemma_label_of(a: int, b: int, n: int)
    requires
        1 <= a <= b <= 20,
        1 <= n,
    ensures
        1 <= label_of(a, n) <= label_of(b, n) <= n,
{
    assert(a * n <= b * n) by (nonlinear_arith)
        requires
            a <= b,
            1 <= n,
    ;
    assert(n <= a * n && b * n <= 20 * n) by (nonlinear_arith)
        requires
            1 <= a <= b <= 20,
            1 <= n,
    ;
    lemma_div_is_ordered(a * n + 19, b * n + 19, 20);
    lemma_div_is_ordered(n + 19, a * n + 19, 20);
    lemma_div_is_ordered(b * n + 19, 20 * n + 19, 20);
    assert((20 * n + 19) / 20 == n);
}

/// In a well-formed partition a face sits in one place only.
pub proof fn lemma_faces_distinct(
    labels: Seq<u8>,
    bags: Seq<Seq<u8>>,
    descending: bool,
    j1: int,
    i1: int,
    j2: int,
    i2: int,
)
    requires
        well_formed(labels, bags, descending),
        0 <= j1 < bags.len(),
        0 <= j2 < bags.len(),
        0 <= i1 < bags[j1].len(),
        0 <= i2 < bags[j2].len(),
        bags[j1][i1] == bags[j2][i2],
    ensures
        j1 == j2,
        i1 == i2,
{
    assert(bags[j1][i1] == face_at(descending, start(bags, j1) + i1));
    assert(bags[j2][i2] == face_at(descending, start(bags, j2) + i2));
    lemma_same_rank(bags, j1, i1, j2, i2);
    lemma_same_rank(bags, j2, i2, j1, i1);
}

/// In a well-formed partition every face 1..=20 sits in some bag.
pub proof fn lemma_face_present(labels: Seq<u8>, bags: Seq<Seq<u8>>, descending: bool, f: int) -> (pos: (
    int,
    int,
))
    requires
        well_formed(labels, bags, descending),
        1 <= f <= 20,
    ensures
        0 <= pos.0 < bags.len(),
        0 <= pos.1 < bags[pos.0].len(),
        bags[pos.0][pos.1] == f,
{
    let r = if descending {
        20 - f
    } else {
        f - 1
    };
    let j = lemma_locate(bags, r, bags.len() as int);
    let i = r - start(bags, j);
    assert(bags[j][i] == face_at(descending, start(bags, j) + i));
    (j, i)
}

/// What a redistribution with a budget of `steps` moves leaves behind, however
/// the donors were drawn: a well-formed partition over the same labels, whose
/// bucket boundaries have only moved down-rank (faces only ever move up), that
/// used up exactly as many moves as the budget and the partition allowed, and
/// no change at all for an empty budget.
pub open spec fn redistributed(before: Partition, steps: int, after: Partition) -> bool {
    let ml = moves_left(before.bags_view());
    &&& after.wf()
    &&& after.labels@ == before.labels@
    &&& after.descending == before.descending
    &&& forall|j: int|
        0 <= j <= before.bags_view().len() ==> #[trigger] start(after.bags_view(), j) <= start(
            before.bags_view(),
            j,
        )
    &&& moves_left(after.bags_view()) == ml - (if steps < ml {
        steps
    } else {
        ml
    })
    &&& steps == 0 ==> after.bags_view() == before.bags_view()
}

/// Every face held by a well-formed partition lies in `1..=20`.
pub proof fn lemma_faces_in_range(labels: Seq<u8>, bags: Seq<Seq<u8>>, descending: bool)
    requires
        well_formed(labels, bags, descending),
    ensures
        forall|j: int, i: int|
            0 <= j < bags.len() && 0 <= i < bags[j].len() ==> 1 <= #[trigger] bags[j][i] <= 20,
{
    assert forall|j: int, i: int| 0 <= j < bags.len() && 0 <= i < bags[j].len() implies 1
        <= #[trigger] bags[j][i] <= 20 by {
        lemma_start_grows(bags, 0, j);
        lemma_start_grows(bags, j + 1, bags.len() as int);
    }
}

/// The unbiased partition of the faces into `n` buckets: well formed, with
/// each face in the bucket labelled `label_of(face, n)`.
pub open spec fn unbiased(p: Partition, n: int) -> bool {
    &&& p.wf()
    &&& forall|j: int, i: int|
        0 <= j < p.bags_view().len() && 0 <= i < p.bags_view()[j].len() ==> p.labels@[j]
            == label_of(#[trigger] p.bags_view()[j][i] as int, n)
}

/// The size of a Sleight of Hand modifier.
pub open spec fn magnitude(soh: i8) -> int {
    if soh < 0 {
        -soh
    } else {
        soh as int
    }
}

/// A mapping (indexed by face − 1) that deriving with an `n`-sided die and
/// modifier `soh` can produce: the flattening of the unbiased partition,
/// ranked descending for a negative modifier, after redistribution with a
/// budget of `|soh|` moves.
pub open spec fn mapping_outcome(n: u8, soh: i8, m: Seq<u8>) -> bool {
    exists|base: Partition, after: Partition|
        #![trigger unbiased(base, n as int), redistributed(base, magnitude(soh), after)]
        unbiased(base, n as int) && base.descending == (soh < 0) && redistributed(
            base,
            magnitude(soh),
            after,
        ) && flattens(after.labels@, after.bags_view(), m)
}

} // verus!
