use vstd::arithmetic::power2::lemma2_to64;
use vstd::arithmetic::power2::lemma_pow2_strictly_increases;
use vstd::arithmetic::power2::lemma_pow2_unfold;
use vstd::arithmetic::power2::pow2;
use vstd::prelude::*;

verus! {

/// Whether bit `n` of `input` is set; bits from 32 on count as clear.
pub open spec fn bit_at(input: usize, n: usize) -> bool {
    n < 32 && (input & (1usize << n)) != 0
}

/// Tests bit `n` of `input`, looking only at the low 32 bits.
pub fn get_bit_at(input: usize, n: usize) -> (b: bool)
    ensures
        b == bit_at(input, n),
{
    if n < 32 {
        input & (1usize << n) != 0
    } else {
        false
    }
}

/// The places below `n` whose bit is set in `mask`, in rising order.
pub open spec fn chosen(mask: usize, n: nat) -> Seq<int>
    decreases n,
{
    if n == 0 {
        Seq::empty()
    } else {
        let before = chosen(mask, (n - 1) as nat);
        if bit_at(mask, (n - 1) as usize) {
            before.push(n - 1)
        } else {
            before
        }
    }
}

/// Whether `sub` holds a clone of each item of `whole` whose place is chosen
/// by `mask`, in the order of the places, and nothing else.
pub open spec fn picked_by<T: Clone>(sub: Seq<T>, whole: Seq<T>, mask: usize) -> bool {
    &&& sub.len() == chosen(mask, whole.len()).len()
    &&& forall|k: int|
        #![trigger sub[k]]
        #![trigger chosen(mask, whole.len())[k]]
        0 <= k < sub.len() ==> 0 <= chosen(mask, whole.len())[k] < whole.len() && cloned(
            whole[chosen(mask, whole.len())[k]],
            sub[k],
        )
}

/// The places that a mask chooses lie below the bound.
pub proof fn lemma_chosen_in_range(mask: usize, n: nat)
    ensures
        forall|k: int| 0 <= k < chosen(mask, n).len() ==> 0 <= #[trigger] chosen(mask, n)[k] < n,
    decreases n,
{
    if n > 0 {
        lemma_chosen_in_range(mask, (n - 1) as nat);
        let before = chosen(mask, (n - 1) as nat);
        assert forall|k: int| 0 <= k < chosen(mask, n).len() implies 0 <= #[trigger] chosen(
            mask,
            n,
        )[k] < n by {
            if k < before.len() {
                assert(chosen(mask, n)[k] == before[k]);
            }
        }
    }
}

/// All the sublists of a list: for each number below two to the power of the
/// length, the sublist of the items at the places of the bits that are set in
/// the number. The sublist of the number 0 is empty, the last one is the
/// whole list.
pub fn subsets<T: Clone>(vec: &Vec<T>) -> (result: Vec<Vec<T>>)
    requires
        vec.len() < 32,
    ensures
        result.len() == pow2(vec.len() as nat),
        forall|i: int| 0 <= i < result.len() ==> picked_by((#[trigger] result@[i])@, vec@, i as usize),
{
    let mut count: usize = 1;
    let mut e: usize = 0;
    proof {
        lemma2_to64();
    }
    while e < vec.len()
        invariant
            e <= vec.len() < 32,
            count == pow2(e as nat),
            pow2(31) == 0x80000000,
        decreases vec.len() - e,
    {
        proof {
            lemma_pow2_unfold((e + 1) as nat);
            if e + 1 < 31 {
                lemma_pow2_strictly_increases((e + 1) as nat, 31);
            }
        }
        count = count * 2;
        e += 1;
    }
    let mut result: Vec<Vec<T>> = Vec::new();
    let mut i: usize = 0;
    while i < count
        invariant
            i <= count,
            result.len() == i,
            forall|m: int| 0 <= m < i ==> picked_by((#[trigger] result@[m])@, vec@, m as usize),
        decreases count - i,
    {
        let mut subs: Vec<T> = Vec::new();
        let mut j: usize = 0;
        while j < vec.len()
            invariant
                j <= vec.len(),
                subs@.len() == chosen(i, j as nat).len(),
                forall|k: int|
                    #![trigger subs@[k]]
                    #![trigger chosen(i, j as nat)[k]]
                    0 <= k < subs@.len() ==> 0 <= chosen(i, j as nat)[k] < j && cloned(
                        vec@[chosen(i, j as nat)[k]],
                        subs@[k],
                    ),
            decreases vec.len() - j,
        {
            let ghost before = subs@;
            let ghost places = chosen(i, j as nat);
            if get_bit_at(i, j) {
                let item = vec[j].clone();
                assert(cloned(vec@[j as int], item));
                subs.push(item);
            }
            proof {
                let next = chosen(i, (j + 1) as nat);
                assert(next == if bit_at(i, j) {
                    places.push(j as int)
                } else {
                    places
                });
                assert forall|k: int|
                    #![trigger subs@[k]]
                    #![trigger next[k]]
                    0 <= k < subs@.len() implies 0 <= next[k] < j + 1 && cloned(
                    vec@[next[k]],
                    subs@[k],
                ) by {
                    if k < before.len() {
                        assert(subs@[k] == before[k]);
                        assert(next[k] == places[k]);
                    }
                }
            }
            j += 1;
        }
        proof {
            assert(picked_by(subs@, vec@, i));
        }
        result.push(subs);
        i += 1;
    }
    result
}

} // verus!
