//! Arithmetic on basis indices.
//!
//! A cluster of `n` qubits has `2^n` basis states, numbered from `0`. Bit `i`
//! of such an index, the one of weight `2^i`, is the state of the cluster's
//! `i`-th qubit. This module works out which indices a gate combines and
//! which pairs of indices a merge multiplies.

use crate::gate::MAX_QUBITS;
use crate::partition::{is_partition, occurs, occurs_at};
use vstd::arithmetic::div_mod::{
    lemma_div_pos_is_pos, lemma_fundamental_div_mod, lemma_fundamental_div_mod_converse,
    lemma_mod_bound, lemma_multiply_divide_lt,
};
use vstd::arithmetic::power2::{lemma2_to64, lemma_pow2_adds, lemma_pow2_pos, pow2};
use vstd::prelude::*;

verus! {

/// Indices as natural numbers.
pub open spec fn naturals(indices: Seq<usize>) -> Seq<nat> {
    indices.map_values(|index: usize| index as nat)
}

/// Rows of indices as rows of natural numbers.
pub open spec fn natural_rows(rows: Seq<Vec<usize>>) -> Seq<Seq<nat>> {
    rows.map_values(|row: Vec<usize>| naturals(row@))
}

/// Pairs of indices as pairs of natural numbers.
pub open spec fn natural_pairs(pairs: Seq<(usize, usize)>) -> Seq<(nat, nat)> {
    pairs.map_values(|pair: (usize, usize)| (pair.0 as nat, pair.1 as nat))
}

/// Bit `position` of a basis index: `0` or `1`.
pub open spec fn bit(index: nat, position: nat) -> nat {
    ((index / pow2(position)) % 2) as nat
}

/// The powers of two up to `2^6`.
pub proof fn lemma_small_powers(exponent: nat)
    requires
        exponent <= MAX_QUBITS,
    ensures
        1 <= pow2(exponent) <= 64,
        exponent == 0 ==> pow2(exponent) == 1,
        exponent == 1 ==> pow2(exponent) == 2,
        exponent == 2 ==> pow2(exponent) == 4,
        exponent == 3 ==> pow2(exponent) == 8,
        exponent == 4 ==> pow2(exponent) == 16,
        exponent == 5 ==> pow2(exponent) == 32,
        exponent == 6 ==> pow2(exponent) == 64,
{
    lemma2_to64();
    if exponent == 0 {
    } else if exponent == 1 {
    } else if exponent == 2 {
    } else if exponent == 3 {
    } else if exponent == 4 {
    } else if exponent == 5 {
    } else {
        assert(exponent == 6);
    }
}

/// `2^exponent`, for an exponent within the qubit limit.
pub fn power_of_two(exponent: usize) -> (power: usize)
    requires
        exponent <= MAX_QUBITS,
    ensures
        power == pow2(exponent as nat),
{
    let mut power: usize = 1;
    let mut done: usize = 0;
    proof {
        lemma_small_powers(0);
    }
    while done < exponent
        invariant
            done <= exponent <= MAX_QUBITS,
            power == pow2(done as nat),
        decreases exponent - done,
    {
        proof {
            lemma_small_powers(done as nat);
            lemma_small_powers((done + 1) as nat);
        }
        power = power * 2;
        done += 1;
    }
    power
}

/// Where amplitude `index` of a merged cluster comes from: the index into the
/// first cluster, whose `low_qubits` qubits take the low bits, and the index
/// into the second, whose qubits take the bits above.
pub open spec fn tensor_pair(index: nat, low_qubits: nat) -> (nat, nat) {
    ((index % pow2(low_qubits)) as nat, (index / pow2(low_qubits)) as nat)
}

/// For every amplitude of the cluster that merges a first cluster of
/// `low_qubits` qubits with a second of `high_qubits`, the pair of source
/// indices whose amplitudes it is the product of.
pub open spec fn tensor_pairs(low_qubits: nat, high_qubits: nat) -> Seq<(nat, nat)> {
    Seq::new(pow2(low_qubits + high_qubits), |index: int| tensor_pair(index as nat, low_qubits))
}

/// Builds the table of source index pairs for a merge.
pub fn tensor_pair_table(low_qubits: usize, high_qubits: usize) -> (table: Vec<(usize, usize)>)
    requires
        low_qubits + high_qubits <= MAX_QUBITS,
    ensures
        natural_pairs(table@) == tensor_pairs(low_qubits as nat, high_qubits as nat),
{
    let size: usize = power_of_two(low_qubits + high_qubits);
    let low_size: usize = power_of_two(low_qubits);
    proof {
        lemma_small_powers(low_qubits as nat);
    }
    let mut table: Vec<(usize, usize)> = Vec::new();
    let mut index: usize = 0;
    while index < size
        invariant
            index <= size,
            low_size == pow2(low_qubits as nat),
            low_size >= 1,
            table.len() == index,
            forall|k: int|
                0 <= k < index ==> natural_pairs(table@)[k] == tensor_pair(
                    k as nat,
                    low_qubits as nat,
                ),
        decreases size - index,
    {
        let ghost before = natural_pairs(table@);
        table.push((index % low_size, index / low_size));
        assert(natural_pairs(table@) =~= before.push(
            tensor_pair(index as nat, low_qubits as nat),
        ));
        index += 1;
    }
    assert(natural_pairs(table@) =~= tensor_pairs(low_qubits as nat, high_qubits as nat));
    table
}

/// The index of the merged amplitude that is the product of amplitude
/// `first` of the first cluster and amplitude `second` of the second.
pub open spec fn tensor_index(first: nat, second: nat, low_qubits: nat) -> nat {
    first + pow2(low_qubits) * second
}

/// A merge multiplies every amplitude of the first cluster with every
/// amplitude of the second exactly once: the product of amplitudes `first`
/// and `second` is amplitude `tensor_index(first, second, ..)` of the merged
/// cluster and no other.
pub proof fn lemma_tensor_pairs_bijective(low_qubits: nat, high_qubits: nat)
    ensures
        tensor_pairs(low_qubits, high_qubits).len() == pow2(low_qubits) * pow2(high_qubits),
        forall|index: int|
            0 <= index < tensor_pairs(low_qubits, high_qubits).len() ==> ({
                let pair = #[trigger] tensor_pairs(low_qubits, high_qubits)[index];
                &&& pair.0 < pow2(low_qubits)
                &&& pair.1 < pow2(high_qubits)
                &&& tensor_index(pair.0, pair.1, low_qubits) == index
            }),
        forall|first: nat, second: nat|
            first < pow2(low_qubits) && second < pow2(high_qubits) ==> ({
                let index = #[trigger] tensor_index(first, second, low_qubits);
                &&& index < tensor_pairs(low_qubits, high_qubits).len()
                &&& tensor_pairs(low_qubits, high_qubits)[index as int] == (first, second)
            }),
{
    let low = pow2(low_qubits) as int;
    let high = pow2(high_qubits) as int;
    let pairs = tensor_pairs(low_qubits, high_qubits);
    lemma_pow2_adds(low_qubits, high_qubits);
    lemma_pow2_pos(low_qubits);
    lemma_pow2_pos(high_qubits);
    assert forall|index: int| 0 <= index < pairs.len() implies ({
        let pair = #[trigger] pairs[index];
        &&& pair.0 < low
        &&& pair.1 < high
        &&& tensor_index(pair.0, pair.1, low_qubits) == index
    }) by {
        lemma_fundamental_div_mod(index, low);
        lemma_mod_bound(index, low);
        lemma_div_pos_is_pos(index, low);
        lemma_multiply_divide_lt(index, low, high);
    }
    assert forall|first: nat, second: nat| first < low && second < high implies ({
        let index = #[trigger] tensor_index(first, second, low_qubits);
        &&& index < pairs.len()
        &&& pairs[index as int] == (first, second)
    }) by {
        let index = tensor_index(first, second, low_qubits) as int;
        assert(index == second * low + first && index < low * high) by (nonlinear_arith)
            requires
                index == first + low * second,
                0 <= first < low,
                0 <= second < high,
        ;
        lemma_fundamental_div_mod_converse(index, low, second as int, first as int);
    }
}

/// Whether `index` has a zero at every target position, and so is the least
/// index of its orbit.
pub open spec fn is_orbit_base(index: nat, targets: Seq<nat>) -> bool {
    forall|t: int| 0 <= t < targets.len() ==> bit(index, #[trigger] targets[t]) == 0
}

/// `is_orbit_base` for fixed targets, as a test on indices.
pub open spec fn orbit_base_test(targets: Seq<nat>) -> spec_fn(nat) -> bool {
    |index: nat| is_orbit_base(index, targets)
}

/// The first `count` basis indices, ascending.
pub open spec fn first_indices(count: nat) -> Seq<nat> {
    Seq::new(count, |index: int| index as nat)
}

/// The least index of every orbit of a cluster of `qubits` qubits, ascending.
pub open spec fn orbit_bases(qubits: nat, targets: Seq<nat>) -> Seq<nat> {
    first_indices(pow2(qubits)).filter(orbit_base_test(targets))
}

/// The orbit that starts at `base`: the indices that differ from `base` at
/// the target positions only, in the order of the rows of a gate's matrix.
/// For a gate on one qubit that is target bit `0`, then `1`. For a gate on
/// two qubits the first target is the more significant bit of the row: `00`,
/// `01`, `10`, `11`.
pub open spec fn orbit(base: nat, targets: Seq<nat>) -> Seq<nat> {
    if targets.len() == 1 {
        seq![base, base + pow2(targets[0])]
    } else {
        seq![
            base,
            base + pow2(targets[1]),
            base + pow2(targets[0]),
            base + pow2(targets[0]) + pow2(targets[1]),
        ]
    }
}

/// `orbit` for fixed targets, as a function of the base.
pub open spec fn orbit_from(targets: Seq<nat>) -> spec_fn(nat) -> Seq<nat> {
    |base: nat| orbit(base, targets)
}

/// The orbits of a cluster of `qubits` qubits under a gate on the target
/// positions, ordered by their least index.
pub open spec fn orbits(qubits: nat, targets: Seq<nat>) -> Seq<Seq<nat>> {
    orbit_bases(qubits, targets).map_values(orbit_from(targets))
}

/// Target positions that a gate can act on in a cluster of `qubits` qubits:
/// one or two positions of the cluster, no two the same.
pub open spec fn targets_fit(qubits: nat, targets: Seq<nat>) -> bool {
    &&& targets.len() == 1 || targets.len() == 2
    &&& forall|t: int| 0 <= t < targets.len() ==> #[trigger] targets[t] < qubits
    &&& targets.no_duplicates()
}

/// Builds the table of orbits for a gate on the target positions of a
/// cluster.
pub fn orbit_table(qubits: usize, targets: &Vec<usize>) -> (table: Vec<Vec<usize>>)
    requires
        qubits <= MAX_QUBITS,
        targets_fit(qubits as nat, naturals(targets@)),
    ensures
        natural_rows(table@) == orbits(qubits as nat, naturals(targets@)),
{
    let ghost positions = naturals(targets@);
    assert(positions[0] < qubits && positions[0] == targets[0]);
    assert(targets.len() == 2 ==> positions[1] < qubits && positions[1] == targets[1]);
    let size: usize = power_of_two(qubits);
    let first_mask: usize = power_of_two(targets[0]);
    let second_mask: usize = if targets.len() == 2 {
        power_of_two(targets[1])
    } else {
        first_mask
    };
    proof {
        lemma_small_powers(qubits as nat);
        lemma_small_powers(positions[0]);
        if positions.len() == 2 {
            lemma_small_powers(positions[1]);
        }
        assert(first_indices(0).filter(orbit_base_test(positions)) =~= Seq::<nat>::empty()) by {
            reveal(Seq::filter);
        }
    }
    let mut table: Vec<Vec<usize>> = Vec::new();
    let mut index: usize = 0;
    while index < size
        invariant
            index <= size <= 64,
            positions == naturals(targets@),
            targets.len() == 1 || targets.len() == 2,
            first_mask == pow2(positions[0]),
            targets.len() == 2 ==> second_mask == pow2(positions[1]),
            1 <= first_mask <= 64,
            1 <= second_mask <= 64,
            natural_rows(table@) == first_indices(index as nat).filter(
                orbit_base_test(positions),
            ).map_values(orbit_from(positions)),
        decreases size - index,
    {
        let ghost scanned = first_indices(index as nat);
        let ghost bases = scanned.filter(orbit_base_test(positions));
        let ghost before = natural_rows(table@);
        let is_base: bool = (index / first_mask) % 2 == 0 && (targets.len() == 1 || (index
            / second_mask) % 2 == 0);
        proof {
            assert(first_indices((index + 1) as nat) =~= scanned.push(index as nat));
            scanned.lemma_filter_push(index as nat, orbit_base_test(positions));
            assert(is_base == is_orbit_base(index as nat, positions)) by {
                assert(bit(index as nat, positions[0]) == (index / first_mask) % 2);
                if positions.len() == 2 {
                    assert(bit(index as nat, positions[1]) == (index / second_mask) % 2);
                }
            }
        }
        if is_base {
            let mut row: Vec<usize> = Vec::new();
            row.push(index);
            if targets.len() == 2 {
                row.push(index + second_mask);
                row.push(index + first_mask);
                row.push(index + first_mask + second_mask);
            } else {
                row.push(index + first_mask);
            }
            assert(naturals(row@) =~= orbit(index as nat, positions));
            table.push(row);
            proof {
                assert(natural_rows(table@) =~= before.push(orbit(index as nat, positions)));
                bases.lemma_push_map_commute(orbit_from(positions), index as nat);
            }
        }
        index += 1;
    }
    table
}

/// A power of two within the qubit limit is one shifted left.
proof fn lemma_shift_is_power(exponent: u8)
    requires
        exponent <= 6,
    ensures
        (1u8 << exponent) == pow2(exponent as nat),
{
    lemma_small_powers(exponent as nat);
    assert(exponent <= 6 ==> (1u8 << exponent) == (if exponent == 0 {
        1u8
    } else if exponent == 1 {
        2u8
    } else if exponent == 2 {
        4u8
    } else if exponent == 3 {
        8u8
    } else if exponent == 4 {
        16u8
    } else if exponent == 5 {
        32u8
    } else {
        64u8
    })) by (bit_vector);
}

/// Setting a cleared bit of an index of the cluster gives an index of the
/// cluster with that bit set.
proof fn lemma_bits_of_member_one(base: u8, member: u8, position: u8, choice: u8, qubits: u8)
    by (bit_vector)
    requires
        qubits <= 6,
        position < qubits,
        base < (1u8 << qubits),
        choice <= 1,
        (base / (1u8 << position)) % 2 == 0,
        member == base + choice * (1u8 << position),
    ensures
        member < (1u8 << qubits),
        (member / (1u8 << position)) % 2 == choice,
{
}

/// Setting two cleared bits of an index of the cluster gives an index of
/// the cluster with those bits set.
proof fn lemma_bits_of_member_two(
    base: u8,
    member: u8,
    first: u8,
    second: u8,
    first_choice: u8,
    second_choice: u8,
    qubits: u8,
)
    by (bit_vector)
    requires
        qubits <= 6,
        first < qubits,
        second < qubits,
        first != second,
        base < (1u8 << qubits),
        first_choice <= 1,
        second_choice <= 1,
        (base / (1u8 << first)) % 2 == 0,
        (base / (1u8 << second)) % 2 == 0,
        member == base + first_choice * (1u8 << first) + second_choice * (1u8 << second),
    ensures
        member < (1u8 << qubits),
        (member / (1u8 << first)) % 2 == first_choice,
        (member / (1u8 << second)) % 2 == second_choice,
{
}

/// A bit is zero or one, and where it is set the index is at least its
/// weight.
proof fn lemma_bit_fits_one(index: u8, position: u8)
    by (bit_vector)
    requires
        index < 64,
        position < 6,
    ensures
        (index / (1u8 << position)) % 2 <= 1,
        (index / (1u8 << position)) % 2 == 1 ==> (1u8 << position) <= index,
{
}

/// An index less the weight of a bit has that bit cleared.
proof fn lemma_cleared_one(index: u8, base: u8, position: u8)
    by (bit_vector)
    requires
        index < 64,
        position < 6,
        base + (if (index / (1u8 << position)) % 2 == 1 {
            1u8 << position
        } else {
            0u8
        }) == index,
    ensures
        (base / (1u8 << position)) % 2 == 0,
{
}

/// Two bits are zero or one each, and the index is at least the weights of
/// those that are set.
proof fn lemma_bits_fit_two(index: u8, first: u8, second: u8)
    by (bit_vector)
    requires
        index < 64,
        first < 6,
        second < 6,
        first != second,
    ensures
        (index / (1u8 << first)) % 2 <= 1,
        (index / (1u8 << second)) % 2 <= 1,
        (if (index / (1u8 << first)) % 2 == 1 {
            1u8 << first
        } else {
            0u8
        }) + (if (index / (1u8 << second)) % 2 == 1 {
            1u8 << second
        } else {
            0u8
        }) <= index,
{
}

/// An index less the weights of two bits has both cleared.
proof fn lemma_cleared_two(index: u8, base: u8, first: u8, second: u8)
    by (bit_vector)
    requires
        index < 64,
        first < 6,
        second < 6,
        first != second,
        base + (if (index / (1u8 << first)) % 2 == 1 {
            1u8 << first
        } else {
            0u8
        }) + (if (index / (1u8 << second)) % 2 == 1 {
            1u8 << second
        } else {
            0u8
        }) == index,
    ensures
        (base / (1u8 << first)) % 2 == 0,
        (base / (1u8 << second)) % 2 == 0,
{
}

/// The place of a member in its orbit, read off the member's target bits:
/// the row of the matrix that the member stands for.
pub open spec fn matrix_row(index: nat, targets: Seq<nat>) -> nat {
    if targets.len() == 1 {
        bit(index, targets[0])
    } else {
        2 * bit(index, targets[0]) + bit(index, targets[1])
    }
}

/// What bit `position` adds to an index: its weight where it is set, else
/// nothing.
pub open spec fn bit_weight(index: nat, position: nat) -> nat {
    if bit(index, position) == 1 {
        pow2(position)
    } else {
        0
    }
}

/// The least index of the orbit of `index`: `index` with its target bits
/// cleared.
pub open spec fn base_of(index: nat, targets: Seq<nat>) -> int {
    if targets.len() == 1 {
        index - bit_weight(index, targets[0])
    } else {
        index - bit_weight(index, targets[0]) - bit_weight(index, targets[1])
    }
}

/// Member `place` of the orbit that starts at `base` is an index of the
/// cluster whose target bits spell `place`, and which gives `base` back
/// when they are cleared.
pub proof fn lemma_orbit_member(qubits: nat, targets: Seq<nat>, base: nat, place: int)
    requires
        qubits <= MAX_QUBITS,
        targets_fit(qubits, targets),
        base < pow2(qubits),
        is_orbit_base(base, targets),
        0 <= place < orbit(base, targets).len(),
    ensures
        orbit(base, targets).len() == pow2(targets.len()),
        orbit(base, targets)[place] < pow2(qubits),
        matrix_row(orbit(base, targets)[place], targets) == place,
        base_of(orbit(base, targets)[place], targets) == base,
{
    lemma_small_powers(qubits);
    lemma_small_powers(targets.len());
    lemma_shift_is_power(qubits as u8);
    let member = orbit(base, targets)[place];
    assert(targets[0] < qubits);
    assert(bit(base, targets[0]) == 0);
    lemma_small_powers(targets[0]);
    lemma_shift_is_power(targets[0] as u8);
    if targets.len() == 1 {
        let choice: u8 = if place == 0 { 0 } else { 1 };
        lemma_bits_of_member_one(base as u8, member as u8, targets[0] as u8, choice, qubits as u8);
    } else {
        assert(targets[1] < qubits);
        assert(bit(base, targets[1]) == 0);
        assert(targets[0] != targets[1]);
        lemma_small_powers(targets[1]);
        lemma_shift_is_power(targets[1] as u8);
        let first_choice: u8 = if place < 2 { 0 } else { 1 };
        let second_choice: u8 = if place == 0 || place == 2 { 0 } else { 1 };
        lemma_bits_of_member_two(
            base as u8,
            member as u8,
            targets[0] as u8,
            targets[1] as u8,
            first_choice,
            second_choice,
            qubits as u8,
        );
    }
}

/// Every index of a cluster is a member of the orbit that starts at the
/// index with its target bits cleared, at the place that its target bits
/// spell.
pub proof fn lemma_index_in_orbit(qubits: nat, targets: Seq<nat>, index: nat)
    requires
        qubits <= MAX_QUBITS,
        targets_fit(qubits, targets),
        index < pow2(qubits),
    ensures
        0 <= base_of(index, targets) <= index,
        is_orbit_base(base_of(index, targets) as nat, targets),
        matrix_row(index, targets) < orbit(base_of(index, targets) as nat, targets).len(),
        orbit(base_of(index, targets) as nat, targets)[matrix_row(index, targets) as int] == index,
{
    lemma_small_powers(qubits);
    assert(targets[0] < qubits);
    lemma_small_powers(targets[0]);
    lemma_shift_is_power(targets[0] as u8);
    let base = base_of(index, targets);
    let first_bit = bit(index, targets[0]);
    if targets.len() == 1 {
        lemma_bit_fits_one(index as u8, targets[0] as u8);
        if first_bit == 0 {
        } else {
            assert(first_bit == 1);
        }
        lemma_cleared_one(index as u8, base as u8, targets[0] as u8);
        assert(bit(base as nat, targets[0]) == 0);
        let members = orbit(base as nat, targets);
        if first_bit == 0 {
            assert(members[0] == index);
        } else {
            assert(members[1] == index);
        }
    } else {
        assert(targets[1] < qubits);
        assert(targets[0] != targets[1]);
        lemma_small_powers(targets[1]);
        lemma_shift_is_power(targets[1] as u8);
        let second_bit = bit(index, targets[1]);
        lemma_bits_fit_two(index as u8, targets[0] as u8, targets[1] as u8);
        if first_bit == 0 {
        } else {
            assert(first_bit == 1);
        }
        if second_bit == 0 {
        } else {
            assert(second_bit == 1);
        }
        lemma_cleared_two(index as u8, base as u8, targets[0] as u8, targets[1] as u8);
        assert(bit(base as nat, targets[0]) == 0);
        assert(bit(base as nat, targets[1]) == 0);
        let members = orbit(base as nat, targets);
        if first_bit == 0 && second_bit == 0 {
            assert(members[0] == index);
        } else if first_bit == 0 {
            assert(members[1] == index);
        } else if second_bit == 0 {
            assert(members[2] == index);
        } else {
            assert(members[3] == index);
        }
    }
}

/// The indices below `count` that pass a test, listed in ascending order:
/// each is below `count` and passes, they ascend strictly, and none that
/// passes is left out.
pub proof fn lemma_filtered_indices(count: nat, test: spec_fn(nat) -> bool)
    ensures
        forall|k: int|
            0 <= k < first_indices(count).filter(test).len() ==> (#[trigger] first_indices(
                count,
            ).filter(test)[k]) < count && test(first_indices(count).filter(test)[k]),
        forall|j: int, k: int|
            0 <= j < k < first_indices(count).filter(test).len() ==> first_indices(count).filter(
                test,
            )[j] < first_indices(count).filter(test)[k],
        forall|index: nat|
            index < count && test(index) ==> #[trigger] first_indices(count).filter(test).contains(
                index,
            ),
    decreases count,
{
    let kept = first_indices(count).filter(test);
    if count == 0 {
        assert(kept =~= Seq::<nat>::empty()) by {
            reveal(Seq::filter);
        }
    } else {
        let fewer = (count - 1) as nat;
        let before = first_indices(fewer).filter(test);
        lemma_filtered_indices(fewer, test);
        assert(first_indices(count) =~= first_indices(fewer).push(fewer));
        first_indices(fewer).lemma_filter_push(fewer, test);
        assert forall|index: nat| index < count && test(index) implies #[trigger] kept.contains(
            index,
        ) by {
            if index == fewer {
                assert(kept[kept.len() - 1] == index);
            } else {
                assert(before.contains(index));
                let k = choose|k: int| 0 <= k < before.len() && before[k] == index;
                assert(kept[k] == index);
            }
        }
    }
}

/// The orbits of a gate split the basis indices of its cluster: every index
/// lies in exactly one orbit, at exactly one place, and every orbit has one
/// member for every row of the matrix.
pub proof fn lemma_orbits_partition(qubits: nat, targets: Seq<nat>)
    requires
        qubits <= MAX_QUBITS,
        targets_fit(qubits, targets),
    ensures
        is_partition(orbits(qubits, targets), pow2(qubits)),
        forall|k: int|
            0 <= k < orbits(qubits, targets).len() ==> (#[trigger] orbits(qubits, targets)[k]).len()
                == pow2(targets.len()),
{
    let table = orbits(qubits, targets);
    let bases = orbit_bases(qubits, targets);
    let size = pow2(qubits);
    lemma_filtered_indices(size, orbit_base_test(targets));
    assert forall|k: int| 0 <= k < table.len() implies (#[trigger] table[k]).len() == pow2(
        targets.len(),
    ) by {
        assert(bases[k] < size);
        lemma_orbit_member(qubits, targets, bases[k], 0);
    }
    assert forall|row: int, place: int|
        0 <= row < table.len() && 0 <= place < table[row].len() implies #[trigger] table[row][place]
        < size by {
        assert(bases[row] < size);
        lemma_orbit_member(qubits, targets, bases[row], place);
    }
    assert forall|index: nat| index < size implies #[trigger] occurs(table, index) by {
        lemma_index_in_orbit(qubits, targets, index);
        let base = base_of(index, targets) as nat;
        assert(bases.contains(base));
        let row = choose|row: int| 0 <= row < bases.len() && bases[row] == base;
        assert(occurs_at(table, index, row, matrix_row(index, targets) as int));
    }
    assert forall|row: int, place: int, other_row: int, other_place: int|
        #![trigger table[row][place], table[other_row][other_place]]
        0 <= row < table.len() && 0 <= place < table[row].len() && 0 <= other_row < table.len()
            && 0 <= other_place < table[other_row].len() && table[row][place]
            == table[other_row][other_place] implies row == other_row && place == other_place by {
        assert(bases[row] < size);
        assert(bases[other_row] < size);
        lemma_orbit_member(qubits, targets, bases[row], place);
        lemma_orbit_member(qubits, targets, bases[other_row], other_place);
        assert(bases[row] == bases[other_row]);
        if row < other_row {
            assert(bases[row] < bases[other_row]);
        } else if other_row < row {
            assert(bases[other_row] < bases[row]);
        }
    }
}

} // verus!
