//! A character rolling an N-sided die through a d20 and its Sleight of Hand
//! modifier, and the derivation of the d20-to-dice mapping behind it.

use crate::partition::{
    D20_FACES, Partition, donors, donors_upto, face_at, flattens, label_of, labels_ranked,
    lemma_donors_valid, lemma_faces_distinct, lemma_faces_in_range, lemma_label_of, magnitude,
    mapping_outcome, unbiased, lemma_saturation, lemma_shift, lemma_start_prefix, moves_left, redistributed,
    shift_up, start, view_bags,
};
use crate::laws::lemma_coverage;
use crate::text::{map_text, push_map_line};
use rand::distributions::{Distribution, WeightedIndex};
use rand::Rng;
use vstd::prelude::*;

verus! {

/// Relies on rand's `WeightedIndex::new`, which succeeds on a non-empty list
/// of non-negative weights with a positive total, and on its `sample`, which
/// returns an index into that list (here drawn from the thread-local
/// generator).
#[verifier::external_body]
fn weighted_pick(weights: &Vec<usize>) -> (r: Option<usize>)
    requires
        weights@.len() <= 20,
        forall|k: int| 0 <= k < weights@.len() ==> #[trigger] weights@[k] <= 20,
    ensures
        weights@.len() > 0 && (forall|k: int| 0 <= k < weights@.len() ==> #[trigger] weights@[k] > 0)
            ==> r is Some,
        r matches Some(k) ==> k < weights@.len(),
{
    match WeightedIndex::<usize>::new(weights) {
        Ok(dist) => Some(dist.sample(&mut rand::thread_rng())),
        Err(_) => None,
    }
}

/// Relies on rand's `Rng::gen_range` over an inclusive range, drawn from the
/// thread-local generator: a value between the two bounds.
#[verifier::external_body]
fn uniform_inclusive(low: u8, high: u8) -> (r: u8)
    requires
        low <= high,
    ensures
        low <= r <= high,
{
    rand::thread_rng().gen_range(low..=high)
}

/// One roll: the d20 face shifted by the Sleight of Hand modifier, and the
/// dice face it maps to.
pub struct Roll {
    pub d20: i16,
    pub dice: u8,
}

impl Roll {
    pub fn new(d20: i16, dice: u8) -> (r: Self)
        ensures
            r.d20 == d20,
            r.dice == dice,
    {
        Self { d20, dice }
    }
}

/// Why a mapping could not be derived.
#[derive(Clone, Copy, Debug, PartialEq, Eq, Structural)]
pub enum DiceError {
    /// A die needs at least one face.
    InvalidDiceCount,
}

/// A character: the die it rolls, its Sleight of Hand modifier, and the
/// mapping from d20 faces to dice faces derived from both.
pub struct Character {
    dice: u8,
    soh: i8,
    d20_map: Vec<u8>,
}

impl Character {
    #[verifier::type_invariant]
    spec fn inv(self) -> bool {
        self.dice >= 1 && mapping_outcome(self.dice, self.soh, self.d20_map@)
    }

    /// The number of faces of the die rolled.
    pub closed spec fn spec_dice(&self) -> u8 {
        self.dice
    }

    /// The Sleight of Hand modifier.
    pub closed spec fn spec_soh(&self) -> i8 {
        self.soh
    }

    /// The mapping from d20 face (index face − 1) to dice face.
    pub closed spec fn spec_map(&self) -> Seq<u8> {
        self.d20_map@
    }

    /// A character rolling a `dice`-sided die with Sleight of Hand `soh`.
    /// Fails exactly when the die has no faces.
    pub fn new(dice: u8, soh: i8) -> (r: Result<Self, DiceError>)
        ensures
            dice == 0 <==> r == Err::<Self, DiceError>(DiceError::InvalidDiceCount),
            dice != 0 <==> r is Ok,
            r matches Ok(c) ==> c.spec_dice() == dice && c.spec_soh() == soh && mapping_outcome(
                dice,
                soh,
                c.spec_map(),
            ),
    {
        match Self::derive_d20_map(dice, soh) {
            Ok(d20_map) => Ok(Self { dice, soh, d20_map }),
            Err(e) => Err(e),
        }
    }

    pub fn dice(&self) -> (r: u8)
        ensures
            r == self.spec_dice(),
            r >= 1,
    {
        proof {
            use_type_invariant(self);
        }
        self.dice
    }

    pub fn soh(&self) -> (r: i8)
        ensures
            r == self.spec_soh(),
    {
        self.soh
    }

    /// The current mapping, indexed by d20 face − 1.
    pub fn d20_map(&self) -> (r: &Vec<u8>)
        ensures
            r@ == self.spec_map(),
            mapping_outcome(self.spec_dice(), self.spec_soh(), r@),
    {
        proof {
            use_type_invariant(self);
        }
        &self.d20_map
    }

    /// The roll for a d20 showing `face`: the face shifted by the modifier,
    /// and the dice face the mapping gives it.
    pub fn roll_with(&self, face: u8) -> (r: Roll)
        requires
            1 <= face <= 20,
        ensures
            r.d20 == face + self.spec_soh(),
            r.dice == self.spec_map()[face - 1],
    {
        proof {
            use_type_invariant(self);
            lemma_coverage(self.dice, self.soh, self.d20_map@);
        }
        Roll::new(face as i16 + self.soh as i16, self.d20_map[(face - 1) as usize])
    }

    /// The mapping as text: for each d20 face from 1 to 20 a line with the
    /// face shifted by the modifier, right-aligned in two columns, then
    /// ` -> ` and the dice face, right-aligned likewise.
    pub fn d20_map_string(&self) -> (r: String)
        ensures
            r@ == map_text(self.spec_soh() as int, self.spec_map(), 20),
    {
        proof {
            use_type_invariant(self);
            lemma_coverage(self.dice, self.soh, self.d20_map@);
        }
        let mut string = String::new();
        let mut face: u8 = 1;
        while face <= D20_FACES
            invariant
                1 <= face <= 21,
                self.d20_map@.len() == 20,
                string@ == map_text(self.soh as int, self.d20_map@, face - 1),
            decreases 21 - face,
        {
            push_map_line(&mut string, face as i16 + self.soh as i16, self.d20_map[(face - 1) as usize]);
            face = face + 1;
        }
        string
    }

    /// Rolls the d20 and looks the face up in the mapping.
    pub fn roll(&self) -> (r: Roll)
        ensures
            1 <= r.d20 - self.spec_soh() <= 20,
            r.dice == self.spec_map()[r.d20 - self.spec_soh() - 1],
    {
        let face = uniform_inclusive(1, D20_FACES);
        self.roll_with(face)
    }

    /// Changes the die. A die without faces is refused and leaves the
    /// character as it was.
    pub fn set_dice(&mut self, dice: u8) -> (r: Result<(), DiceError>)
        ensures
            dice == 0 <==> r == Err::<(), DiceError>(DiceError::InvalidDiceCount),
            dice != 0 <==> r is Ok,
            r is Err ==> final(self).spec_dice() == old(self).spec_dice() && final(self).spec_map()
                == old(self).spec_map(),
            r is Ok ==> final(self).spec_dice() == dice && mapping_outcome(
                dice,
                final(self).spec_soh(),
                final(self).spec_map(),
            ),
            final(self).spec_soh() == old(self).spec_soh(),
    {
        match Self::derive_d20_map(dice, self.soh) {
            Ok(d20_map) => {
                *self = Self { dice, soh: self.soh, d20_map };
                Ok(())
            },
            Err(e) => Err(e),
        }
    }

    /// Changes the Sleight of Hand modifier and derives the mapping anew.
    pub fn set_soh(&mut self, soh: i8)
        ensures
            final(self).spec_dice() == old(self).spec_dice(),
            final(self).spec_soh() == soh,
            mapping_outcome(final(self).spec_dice(), soh, final(self).spec_map()),
    {
        proof {
            use_type_invariant(&*self);
        }
        match Self::derive_d20_map(self.dice, soh) {
            Ok(d20_map) => {
                *self = Self { dice: self.dice, soh, d20_map };
            },
            Err(_) => {},
        }
    }

    /// Builds the unbiased partition of the faces 1..=20 into `dice` buckets:
    /// face `x` goes to bucket `ceil(x * dice / 20)`. Buckets come in rank
    /// order (descending labels when `descending`), and only labels that
    /// receive a face get a bucket.
    pub fn derive_dice_map(dice: u8, descending: bool) -> (p: Partition)
        requires
            dice >= 1,
        ensures
            unbiased(p, dice as int),
            p.descending == descending,
    {
        let mut labels: Vec<u8> = Vec::new();
        let mut bags: Vec<Vec<u8>> = Vec::new();
        let mut r: u8 = 0;
        while r < D20_FACES
            invariant
                r <= 20,
                dice >= 1,
                labels@.len() == bags@.len(),
                r == 0 ==> bags@.len() == 0,
                r > 0 ==> 1 <= bags@.len() <= r,
                labels_ranked(labels@, descending),
                forall|j: int| 0 <= j < bags@.len() ==> #[trigger] view_bags(bags@)[j].len() >= 1,
                start(view_bags(bags@), bags@.len() as int) == r,
                forall|j: int, i: int|
                    0 <= j < bags@.len() && 0 <= i < view_bags(bags@)[j].len()
                        ==> #[trigger] view_bags(bags@)[j][i] == face_at(
                        descending,
                        start(view_bags(bags@), j) + i,
                    ),
                forall|j: int, i: int|
                    0 <= j < bags@.len() && 0 <= i < view_bags(bags@)[j].len() ==> labels@[j]
                        == label_of(#[trigger] view_bags(bags@)[j][i] as int, dice as int),
                r > 0 ==> labels@[labels@.len() - 1] == label_of(
                    face_at(descending, r - 1),
                    dice as int,
                ),
            decreases 20 - r,
        {
            let ghost old_bags = view_bags(bags@);
            let ghost old_labels = labels@;
            let face: u8 = if descending {
                20 - r
            } else {
                r + 1
            };
            proof {
                lemma_label_of(face as int, face as int, dice as int);
            }
            let label: u8 = ((face as u16 * dice as u16 + 19) / 20) as u8;
            let k = bags.len();
            if k == 0 || labels[k - 1] != label {
                proof {
                    if k > 0 {
                        let prev = face_at(descending, r - 1);
                        if descending {
                            lemma_label_of(face as int, prev, dice as int);
                        } else {
                            lemma_label_of(prev, face as int, dice as int);
                        }
                    }
                }
                labels.push(label);
                let mut bag: Vec<u8> = Vec::new();
                bag.push(face);
                bags.push(bag);
                proof {
                    let nb = view_bags(bags@);
                    assert(nb =~= old_bags.push(seq![face]));
                    lemma_start_prefix(nb, old_bags, k as int);
                    assert forall|j: int, i: int|
                        0 <= j < nb.len() && 0 <= i < nb[j].len() implies #[trigger] nb[j][i]
                        == face_at(descending, start(nb, j) + i) by {
                        lemma_start_prefix(nb, old_bags, j);
                    }
                }
            } else {
                let mut last = bags.pop().unwrap();
                last.push(face);
                bags.push(last);
                proof {
                    let nb = view_bags(bags@);
                    assert(nb =~= old_bags.update(k - 1, old_bags[k - 1].push(face)));
                    lemma_start_prefix(nb, old_bags, k - 1);
                    assert forall|j: int, i: int|
                        0 <= j < nb.len() && 0 <= i < nb[j].len() implies #[trigger] nb[j][i]
                        == face_at(descending, start(nb, j) + i) by {
                        lemma_start_prefix(nb, old_bags, j);
                        if j < k - 1 || i < old_bags[j].len() {
                            assert(nb[j][i] == old_bags[j][i]);
                        }
                    }
                    assert forall|j: int, i: int|
                        0 <= j < nb.len() && 0 <= i < nb[j].len() implies labels@[j] == label_of(
                        #[trigger] nb[j][i] as int,
                        dice as int,
                    ) by {
                        if j < k - 1 || i < old_bags[j].len() {
                            assert(nb[j][i] == old_bags[j][i]);
                        }
                    }
                }
            }
            r = r + 1;
        }
        Partition { labels, bags, descending }
    }

    /// The buckets that may donate a face, in rank order, and the size of
    /// each one's bag (its weight in the draw).
    fn eligible_donors(p: &Partition) -> (r: (Vec<usize>, Vec<usize>))
        requires
            p.wf(),
        ensures
            r.0@.len() == donors(p.bags_view()).len(),
            r.1@.len() == r.0@.len(),
            forall|k: int|
                0 <= k < r.0@.len() ==> #[trigger] r.0@[k] as int == donors(p.bags_view())[k]
                    && r.1@[k] as int == p.bags_view()[r.0@[k] as int].len(),
    {
        let ghost bv = p.bags_view();
        let mut positions: Vec<usize> = Vec::new();
        let mut weights: Vec<usize> = Vec::new();
        let k = p.bags.len();
        let mut j: usize = 0;
        while j + 1 < k
            invariant
                bv == p.bags_view(),
                k == bv.len(),
                1 <= k <= 20,
                j <= k - 1,
                positions@.len() == donors_upto(bv, j as int).len(),
                weights@.len() == positions@.len(),
                forall|x: int|
                    0 <= x < positions@.len() ==> #[trigger] positions@[x] as int == donors_upto(
                        bv,
                        j as int,
                    )[x] && weights@[x] as int == bv[positions@[x] as int].len(),
            decreases k - j,
        {
            assert(bv[j as int] == p.bags@[j as int]@);
            if p.bags[j].len() > 1 {
                positions.push(j);
                weights.push(p.bags[j].len());
            }
            j = j + 1;
        }
        (positions, weights)
    }

    /// Moves the highest-ranked face of donor `j` to the front of the next
    /// bucket up.
    fn shift_at(p: &mut Partition, j: usize)
        requires
            old(p).wf(),
            j + 1 < old(p).bags_view().len(),
            old(p).bags_view()[j as int].len() > 1,
        ensures
            final(p).wf(),
            final(p).labels@ == old(p).labels@,
            final(p).descending == old(p).descending,
            final(p).bags_view() == shift_up(old(p).bags_view(), j as int),
            moves_left(final(p).bags_view()) == moves_left(old(p).bags_view()) - 1,
            forall|m: int|
                0 <= m <= old(p).bags_view().len() ==> #[trigger] start(final(p).bags_view(), m)
                    <= start(old(p).bags_view(), m),
    {
        let ghost bv = old(p).bags_view();
        proof {
            lemma_shift(p.labels@, bv, p.descending, j as int);
            assert(bv[j as int] == p.bags@[j as int]@);
            assert(bv[j as int + 1] == p.bags@[j as int + 1]@);
        }
        let face = p.bags[j].pop().unwrap();
        p.bags[j + 1].insert(0, face);
        proof {
            let nb = p.bags_view();
            let sb = shift_up(bv, j as int);
            assert(nb[j as int] =~= sb[j as int]);
            assert(nb[j as int + 1] =~= sb[j as int + 1]);
            assert(nb =~= sb);
        }
    }

    /// One redistribution step with the donor already drawn: `pick` indexes
    /// the list of eligible donors. Without an eligible donor nothing changes
    /// and `false` comes back.
    pub fn increment_with(p: &mut Partition, pick: usize) -> (moved: bool)
        requires
            old(p).wf(),
            donors(old(p).bags_view()).len() > 0 ==> pick < donors(old(p).bags_view()).len(),
        ensures
            moved == (donors(old(p).bags_view()).len() > 0),
            !moved ==> *final(p) == *old(p),
            moved ==> final(p).bags_view() == shift_up(
                old(p).bags_view(),
                donors(old(p).bags_view())[pick as int],
            ),
            final(p).wf(),
            final(p).labels@ == old(p).labels@,
            final(p).descending == old(p).descending,
    {
        let (positions, _weights) = Self::eligible_donors(p);
        if positions.len() == 0 {
            return false;
        }
        proof {
            lemma_donors_valid(p.bags_view(), p.bags_view().len() - 1);
        }
        Self::shift_at(p, positions[pick]);
        true
    }

    /// One redistribution step: draws an eligible donor, weighted by the size
    /// of its bag, and moves one face up from it. Without an eligible donor
    /// nothing changes and `false` comes back.
    fn increment(p: &mut Partition) -> (moved: bool)
        requires
            old(p).wf(),
        ensures
            moved == (donors(old(p).bags_view()).len() > 0),
            !moved ==> *final(p) == *old(p),
            moved ==> exists|k: int|
                0 <= k < donors(old(p).bags_view()).len() && final(p).bags_view() == shift_up(
                    old(p).bags_view(),
                    #[trigger] donors(old(p).bags_view())[k],
                ),
            moved ==> moves_left(final(p).bags_view()) == moves_left(old(p).bags_view()) - 1,
            forall|m: int|
                0 <= m <= old(p).bags_view().len() ==> #[trigger] start(final(p).bags_view(), m)
                    <= start(old(p).bags_view(), m),
            final(p).wf(),
            final(p).labels@ == old(p).labels@,
            final(p).descending == old(p).descending,
    {
        let (positions, weights) = Self::eligible_donors(p);
        proof {
            lemma_donors_valid(p.bags_view(), p.bags_view().len() - 1);
            assert forall|k: int| 0 <= k < weights@.len() implies 0 < #[trigger] weights@[k] <= 20 by {
                let d = positions@[k] as int;
                assert(p.bags_view()[d] == p.bags@[d]@);
                crate::partition::lemma_start_grows(p.bags_view(), d, d + 1);
                crate::partition::lemma_start_grows(p.bags_view(), d + 1, p.bags_view().len() as int);
                crate::partition::lemma_start_grows(p.bags_view(), 0, d);
            }
        }
        match weighted_pick(&weights) {
            None => false,
            Some(k) => {
                Self::shift_at(p, positions[k]);
                true
            },
        }
    }

    /// Applies up to `soh` redistribution steps, stopping early once no
    /// bucket can donate.
    pub fn do_increments(p: &mut Partition, soh: u8)
        requires
            old(p).wf(),
        ensures
            redistributed(*old(p), soh as int, *final(p)),
    {
        let ghost ml0 = moves_left(p.bags_view());
        proof {
            lemma_saturation(p.labels@, p.bags_view(), p.descending);
        }
        let mut i: u8 = 0;
        let mut saturated = false;
        while i < soh && !saturated
            invariant
                p.wf(),
                p.labels@ == old(p).labels@,
                p.descending == old(p).descending,
                ml0 == moves_left(old(p).bags_view()),
                i <= soh,
                i <= ml0,
                moves_left(p.bags_view()) == ml0 - i,
                saturated ==> moves_left(p.bags_view()) == 0,
                p.bags_view().len() == old(p).bags_view().len(),
                forall|m: int|
                    0 <= m <= old(p).bags_view().len() ==> #[trigger] start(p.bags_view(), m) <= start(
                        old(p).bags_view(),
                        m,
                    ),
                i == 0 ==> p.bags_view() == old(p).bags_view(),
            decreases soh - i + (if saturated {
                0int
            } else {
                1int
            }),
        {
            let ghost before = p.bags_view();
            if Self::increment(p) {
                proof {
                    assert forall|m: int| 0 <= m <= old(p).bags_view().len() implies #[trigger] start(
                        p.bags_view(),
                        m,
                    ) <= start(old(p).bags_view(), m) by {
                        assert(start(p.bags_view(), m) <= start(before, m));
                    }
                    lemma_saturation(p.labels@, p.bags_view(), p.descending);
                }
                i = i + 1;
            } else {
                proof {
                    lemma_saturation(p.labels@, p.bags_view(), p.descending);
                }
                saturated = true;
            }
        }
    }

    /// Flattens a partition into the mapping from face to label, indexed by
    /// face − 1.
    pub fn dice_map_to_d20_map(p: &Partition) -> (m: Vec<u8>)
        requires
            p.wf(),
        ensures
            flattens(p.labels@, p.bags_view(), m@),
    {
        let ghost bv = p.bags_view();
        proof {
            lemma_faces_in_range(p.labels@, bv, p.descending);
        }
        let mut m: Vec<u8> = vec![0u8; 20];
        let k = p.bags.len();
        let mut j: usize = 0;
        while j < k
            invariant
                p.wf(),
                bv == p.bags_view(),
                k == bv.len(),
                j <= k,
                m@.len() == 20,
                forall|j2: int, i2: int|
                    0 <= j2 < j && 0 <= i2 < bv[j2].len() ==> m@[#[trigger] bv[j2][i2] - 1]
                        == p.labels@[j2],
            decreases k - j,
        {
            let bag = &p.bags[j];
            assert(bv[j as int] == bag@);
            let mut i: usize = 0;
            while i < bag.len()
                invariant
                    p.wf(),
                    bv == p.bags_view(),
                    k == bv.len(),
                    j < k,
                    bv[j as int] == bag@,
                    i <= bag@.len(),
                    m@.len() == 20,
                    forall|j2: int, i2: int|
                        0 <= j2 < j && 0 <= i2 < bv[j2].len() ==> m@[#[trigger] bv[j2][i2] - 1]
                            == p.labels@[j2],
                    forall|i2: int| 0 <= i2 < i ==> m@[#[trigger] bv[j as int][i2] - 1] == p.labels@[j as int],
                decreases bag@.len() - i,
            {
                let face = bag[i];
                proof {
                    lemma_faces_in_range(p.labels@, bv, p.descending);
                }
                let ghost prev = m@;
                m[(face - 1) as usize] = p.labels[j];
                proof {
                    assert forall|j2: int, i2: int|
                        0 <= j2 < j && 0 <= i2 < bv[j2].len() implies m@[#[trigger] bv[j2][i2] - 1]
                        == p.labels@[j2] by {
                        if bv[j2][i2] == face {
                            lemma_faces_distinct(p.labels@, bv, p.descending, j2, i2, j as int, i as int);
                        }
                        assert(prev[bv[j2][i2] - 1] == p.labels@[j2]);
                    }
                    assert forall|i2: int| 0 <= i2 <= i implies m@[#[trigger] bv[j as int][i2] - 1]
                        == p.labels@[j as int] by {
                        if i2 < i {
                            if bv[j as int][i2] == face {
                                lemma_faces_distinct(p.labels@, bv, p.descending, j as int, i2, j as int, i as int);
                            }
                            assert(prev[bv[j as int][i2] - 1] == p.labels@[j as int]);
                        }
                    }
                }
                i = i + 1;
            }
            j = j + 1;
        }
        m
    }

    /// Builds the unbiased partition in the given rank order, redistributes
    /// it with a budget of `soh` moves and flattens the result.
    fn derive_d20_map_from_type(dice: u8, soh: u8, descending: bool) -> (m: Vec<u8>)
        requires
            dice >= 1,
        ensures
            exists|base: Partition, after: Partition|
                #![trigger unbiased(base, dice as int), redistributed(base, soh as int, after)]
                unbiased(base, dice as int) && base.descending == descending && redistributed(
                    base,
                    soh as int,
                    after,
                ) && flattens(after.labels@, after.bags_view(), m@),
    {
        let mut dice_map = Self::derive_dice_map(dice, descending);
        let ghost base = dice_map;
        Self::do_increments(&mut dice_map, soh);
        let m = Self::dice_map_to_d20_map(&dice_map);
        proof {
            assert(unbiased(base, dice as int) && redistributed(base, soh as int, dice_map));
        }
        m
    }

    /// Derives the mapping from d20 face (index face − 1) to dice face for an
    /// N-sided die and a Sleight of Hand modifier. A negative modifier pushes
    /// faces toward the low labels instead of the high ones. Fails exactly when
    /// the die has no faces.
    pub fn derive_d20_map(dice: u8, soh: i8) -> (r: Result<Vec<u8>, DiceError>)
        ensures
            dice == 0 <==> r == Err::<Vec<u8>, DiceError>(DiceError::InvalidDiceCount),
            dice != 0 <==> r is Ok,
            r matches Ok(m) ==> mapping_outcome(dice, soh, m@),
    {
        if dice == 0 {
            return Err(DiceError::InvalidDiceCount);
        }
        let budget: u8 = if soh < 0 {
            (0 - (soh as i16)) as u8
        } else {
            soh as u8
        };
        assert(budget as int == magnitude(soh));
        Ok(Self::derive_d20_map_from_type(dice, budget, soh < 0))
    }
}

} // verus!
