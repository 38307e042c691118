use vstd::prelude::*;
use vstd::seq_lib::to_multiset_build;
use rand::rngs::StdRng;
use crate::error::ForestError;
use crate::random::random_below;
use crate::sample::{SampleList, SampleView, sample_views};

verus! {

/// Every member is a position in a population of `population` samples.
pub open spec fn in_range(members: Seq<usize>, population: nat) -> bool {
    forall|k: int| 0 <= k < members.len() ==> (#[trigger] members[k]) < population
}

/// `members` picks `size` different samples out of a population of
/// `population` samples, each by its position.
pub open spec fn is_subsample(members: Seq<usize>, population: nat, size: nat) -> bool {
    &&& members.len() == size
    &&& members.no_duplicates()
    &&& in_range(members, population)
}

/// Every member has a feature called `name`.
pub open spec fn all_have(samples: Seq<SampleView>, members: Seq<usize>, name: Seq<char>) -> bool {
    forall|k: int|
        0 <= k < members.len() ==> samples[(#[trigger] members[k]) as int].has_feature(name)
}

/// Every member has a feature called `name`, and all give it one value.
pub open spec fn constant_on(
    samples: Seq<SampleView>,
    members: Seq<usize>,
    name: Seq<char>,
) -> bool {
    &&& all_have(samples, members, name)
    &&& forall|k: int|
        0 <= k < members.len() ==> samples[(#[trigger] members[k]) as int].value(name)
            == samples[members[0] as int].value(name)
}

/// A feature that one member has, every member has.
pub open spec fn shares_vocabulary(samples: Seq<SampleView>, members: Seq<usize>) -> bool {
    forall|a: int, b: int, name: Seq<char>|
        0 <= a < members.len() && 0 <= b < members.len() && #[trigger] samples[members[a] as int].has_feature(
            name,
        ) ==> samples[(#[trigger] members[b]) as int].has_feature(name)
}

/// A feature that one sample has, every sample has.
pub open spec fn same_vocabulary(samples: Seq<SampleView>) -> bool {
    forall|a: int, b: int, name: Seq<char>|
        0 <= a < samples.len() && 0 <= b < samples.len() && #[trigger] samples[a].has_feature(
            name,
        ) ==> #[trigger] samples[b].has_feature(name)
}

/// Samples that agree on their vocabulary agree on it in every subsample.
pub proof fn lemma_vocabulary_shared(samples: Seq<SampleView>, members: Seq<usize>)
    requires
        same_vocabulary(samples),
        in_range(members, samples.len()),
    ensures
        shares_vocabulary(samples, members),
{
    assert forall|a: int, b: int, name: Seq<char>|
        0 <= a < members.len() && 0 <= b < members.len() && #[trigger] samples[members[a] as int].has_feature(
            name,
        ) implies samples[(#[trigger] members[b]) as int].has_feature(name) by {
        assert(members[a] < samples.len());
        assert(members[b] < samples.len());
    }
}

/// `bound` is the value of `name` in some member, and no member's is lower.
pub open spec fn is_lowest(
    samples: Seq<SampleView>,
    members: Seq<usize>,
    name: Seq<char>,
    bound: int,
) -> bool {
    &&& exists|k: int|
        0 <= k < members.len() && samples[(#[trigger] members[k]) as int].value(name) == bound
    &&& forall|k: int|
        0 <= k < members.len() ==> bound <= samples[(#[trigger] members[k]) as int].value(name)
}

/// `bound` is the value of `name` in some member, and no member's is higher.
pub open spec fn is_highest(
    samples: Seq<SampleView>,
    members: Seq<usize>,
    name: Seq<char>,
    bound: int,
) -> bool {
    &&& exists|k: int|
        0 <= k < members.len() && samples[(#[trigger] members[k]) as int].value(name) == bound
    &&& forall|k: int|
        0 <= k < members.len() ==> samples[(#[trigger] members[k]) as int].value(name) <= bound
}

/// Whether the sample at a position has its `name` strictly below `split`.
pub open spec fn below(samples: Seq<SampleView>, name: Seq<char>, split: int) -> spec_fn(
    usize,
) -> bool {
    |i: usize| samples[i as int].value(name) < split
}

/// Whether the sample at a position has its `name` at or above `split`.
pub open spec fn not_below(samples: Seq<SampleView>, name: Seq<char>, split: int) -> spec_fn(
    usize,
) -> bool {
    |i: usize| samples[i as int].value(name) >= split
}

/// The members whose `name` is strictly below `split`, in their order.
pub open spec fn lower_part(
    samples: Seq<SampleView>,
    members: Seq<usize>,
    name: Seq<char>,
    split: int,
) -> Seq<usize> {
    members.filter(below(samples, name, split))
}

/// The members whose `name` is at or above `split`, in their order.
pub open spec fn upper_part(
    samples: Seq<SampleView>,
    members: Seq<usize>,
    name: Seq<char>,
    split: int,
) -> Seq<usize> {
    members.filter(not_below(samples, name, split))
}

/// Every member of `part` is a member of `members`.
pub open spec fn drawn_from(part: Seq<usize>, members: Seq<usize>) -> bool {
    forall|k: int| 0 <= k < part.len() ==> members.contains(#[trigger] part[k])
}

/// A threshold divides the members into two parts that share no member and
/// together hold every member as often as it was there: the parts' lengths
/// add up, and each part holds only what lies on its side.
pub proof fn lemma_parts_cover(
    samples: Seq<SampleView>,
    members: Seq<usize>,
    name: Seq<char>,
    split: int,
)
    ensures
        lower_part(samples, members, name, split).len() + upper_part(
            samples,
            members,
            name,
            split,
        ).len() == members.len(),
        lower_part(samples, members, name, split).to_multiset().add(
            upper_part(samples, members, name, split).to_multiset(),
        ) == members.to_multiset(),
        drawn_from(lower_part(samples, members, name, split), members),
        drawn_from(upper_part(samples, members, name, split), members),
        forall|k: int|
            0 <= k < lower_part(samples, members, name, split).len() ==> samples[(
            #[trigger] lower_part(samples, members, name, split)[k]) as int].value(name) < split,
        forall|k: int|
            0 <= k < upper_part(samples, members, name, split).len() ==> samples[(
            #[trigger] upper_part(samples, members, name, split)[k]) as int].value(name) >= split,
    decreases members.len(),
{
    let lower = lower_part(samples, members, name, split);
    let upper = upper_part(samples, members, name, split);
    let low = below(samples, name, split);
    let high = not_below(samples, name, split);
    assert forall|k: int| 0 <= k < lower.len() implies members.contains(#[trigger] lower[k])
        && low(lower[k]) by {
        members.lemma_filter_pred(low, k);
        assert(lower.contains(lower[k]));
        members.lemma_filter_contains_rev(low, lower[k]);
    }
    assert forall|k: int| 0 <= k < upper.len() implies members.contains(#[trigger] upper[k])
        && high(upper[k]) by {
        members.lemma_filter_pred(high, k);
        assert(upper.contains(upper[k]));
        members.lemma_filter_contains_rev(high, upper[k]);
    }
    if members.len() == 0 {
        reveal(Seq::filter);
        assert(lower.len() == 0 && upper.len() == 0);
        assert(lower.to_multiset().add(upper.to_multiset()) =~= members.to_multiset()) by {
            lower.to_multiset_ensures();
            upper.to_multiset_ensures();
            members.to_multiset_ensures();
        }
    } else {
        let rest = members.drop_last();
        let last = members.last();
        lemma_parts_cover(samples, rest, name, split);
        assert(rest.push(last) =~= members);
        rest.lemma_filter_push(last, low);
        rest.lemma_filter_push(last, high);
        let rest_lower = lower_part(samples, rest, name, split);
        let rest_upper = upper_part(samples, rest, name, split);
        to_multiset_build(rest, last);
        if low(last) {
            to_multiset_build(rest_lower, last);
            assert(lower.to_multiset().add(upper.to_multiset()) =~= members.to_multiset());
        } else {
            to_multiset_build(rest_upper, last);
            assert(lower.to_multiset().add(upper.to_multiset()) =~= members.to_multiset());
        }
    }
}

/// What holds of all members holds of a part drawn from them: the
/// positions stay in range, a feature that all have all have, and a shared
/// vocabulary stays shared.
pub proof fn lemma_part_inherits(
    samples: Seq<SampleView>,
    members: Seq<usize>,
    part: Seq<usize>,
    population: nat,
    name: Seq<char>,
)
    requires
        drawn_from(part, members),
    ensures
        in_range(members, population) ==> in_range(part, population),
        all_have(samples, members, name) ==> all_have(samples, part, name),
        shares_vocabulary(samples, members) ==> shares_vocabulary(samples, part),
{
    assert forall|k: int| 0 <= k < part.len() implies exists|j: int|
        0 <= j < members.len() && members[j] == #[trigger] part[k] by {
        assert(members.contains(part[k]));
    }
    if in_range(members, population) {
        assert forall|k: int| 0 <= k < part.len() implies (#[trigger] part[k]) < population by {
            let j = choose|j: int| 0 <= j < members.len() && members[j] == part[k];
            assert(members[j] < population);
        }
    }
    if all_have(samples, members, name) {
        assert forall|k: int| 0 <= k < part.len() implies samples[(
        #[trigger] part[k]) as int].has_feature(name) by {
            let j = choose|j: int| 0 <= j < members.len() && members[j] == part[k];
            assert(samples[members[j] as int].has_feature(name));
        }
    }
    if shares_vocabulary(samples, members) {
        assert forall|a: int, b: int, other: Seq<char>|
            0 <= a < part.len() && 0 <= b < part.len() && #[trigger] samples[part[a] as int].has_feature(
                other,
            ) implies samples[(#[trigger] part[b]) as int].has_feature(other) by {
            let ja = choose|j: int| 0 <= j < members.len() && members[j] == part[a];
            let jb = choose|j: int| 0 <= j < members.len() && members[j] == part[b];
            assert(samples[members[ja] as int].has_feature(other));
            assert(samples[members[jb] as int].has_feature(other));
        }
    }
}

/// Draws `size` different positions below `population`, in random order,
/// by the first `size` steps of a Fisher-Yates shuffle.
pub fn draw_subsample(rng: &mut StdRng, population: usize, size: usize) -> (members: Vec<usize>)
    requires
        size <= population,
    ensures
        is_subsample(members@, population as nat, size as nat),
{
    let mut pool: Vec<usize> = Vec::new();
    let mut i: usize = 0;
    while i < population
        invariant
            i <= population,
            pool.len() == i,
            forall|k: int| 0 <= k < i ==> (#[trigger] pool[k]) == k,
        decreases population - i,
    {
        pool.push(i);
        i = i + 1;
    }
    let mut taken: usize = 0;
    while taken < size
        invariant
            taken <= size <= population,
            pool.len() == population,
            pool@.no_duplicates(),
            in_range(pool@, population as nat),
        decreases size - taken,
    {
        let other: usize = taken + random_below(rng, population - taken);
        let here: usize = pool[taken];
        let there: usize = pool[other];
        pool.set(taken, there);
        pool.set(other, here);
        taken = taken + 1;
    }
    pool.truncate(size);
    pool
}

/// The lowest and the highest value that the members give to `name`.
/// Fails where a member has no such feature.
pub fn value_range(samples: &SampleList, members: &Vec<usize>, name: &String) -> (result: Result<
    (i64, i64),
    ForestError,
>)
    requires
        members.len() > 0,
        in_range(members@, samples.len() as nat),
    ensures
        result is Ok <==> all_have(sample_views(samples@), members@, name@),
        result matches Ok(range) ==> is_lowest(
            sample_views(samples@),
            members@,
            name@,
            range.0 as int,
        ) && is_highest(sample_views(samples@), members@, name@, range.1 as int),
        result matches Err(error) ==> error == ForestError::FeatureNotFound,
{
    let ghost views = sample_views(samples@);
    let first = match samples[members[0]].value_named(name) {
        Ok(value) => value,
        Err(error) => {
            assert(!views[members@[0] as int].has_feature(name@));
            return Err(error);
        },
    };
    let mut low: i64 = first;
    let mut high: i64 = first;
    let mut k: usize = 1;
    proof {
        let one = members@.take(1);
        assert(one[0] == members@[0]);
        assert(views[one[0] as int].value(name@) == first);
    }
    while k < members.len()
        invariant
            1 <= k <= members.len(),
            in_range(members@, samples.len() as nat),
            views == sample_views(samples@),
            all_have(views, members@.take(k as int), name@),
            is_lowest(views, members@.take(k as int), name@, low as int),
            is_highest(views, members@.take(k as int), name@, high as int),
        decreases members.len() - k,
    {
        let ghost before = members@.take(k as int);
        let ghost after = members@.take(k + 1);
        match samples[members[k]].value_named(name) {
            Ok(value) => {
                proof {
                    let w_low = choose|j: int|
                        0 <= j < before.len() && views[(#[trigger] before[j]) as int].value(name@)
                            == low;
                    let w_high = choose|j: int|
                        0 <= j < before.len() && views[(#[trigger] before[j]) as int].value(name@)
                            == high;
                    assert(after[w_low] == before[w_low]);
                    assert(after[w_high] == before[w_high]);
                    assert(after[k as int] == members@[k as int]);
                    assert forall|j: int| 0 <= j < after.len() implies views[(
                    #[trigger] after[j]) as int].has_feature(name@) && (if value < low {
                        value
                    } else {
                        low
                    }) <= views[after[j] as int].value(name@) <= (if value > high {
                        value
                    } else {
                        high
                    }) by {
                        if j < k {
                            assert(after[j] == before[j]);
                        }
                    }
                }
                if value < low {
                    low = value;
                }
                if value > high {
                    high = value;
                }
            },
            Err(error) => {
                assert(!views[members@[k as int] as int].has_feature(name@));
                return Err(error);
            },
        }
        k = k + 1;
    }
    assert(members@.take(k as int) =~= members@);
    Ok((low, high))
}

/// Divides the members by a threshold on `name`: those strictly below it,
/// and those at or above it, each part in the members' order. Fails where
/// a member has no such feature.
pub fn partition(samples: &SampleList, members: &Vec<usize>, name: &String, split: i64) -> (result:
    Result<(Vec<usize>, Vec<usize>), ForestError>)
    requires
        in_range(members@, samples.len() as nat),
    ensures
        result is Ok <==> all_have(sample_views(samples@), members@, name@),
        result matches Ok(parts) ==> parts.0@ == lower_part(
            sample_views(samples@),
            members@,
            name@,
            split as int,
        ) && parts.1@ == upper_part(sample_views(samples@), members@, name@, split as int),
        result matches Err(error) ==> error == ForestError::FeatureNotFound,
{
    let ghost views = sample_views(samples@);
    let mut lower: Vec<usize> = Vec::new();
    let mut upper: Vec<usize> = Vec::new();
    let mut k: usize = 0;
    proof {
        reveal(Seq::filter);
        assert(members@.take(0).len() == 0);
    }
    while k < members.len()
        invariant
            k <= members.len(),
            in_range(members@, samples.len() as nat),
            views == sample_views(samples@),
            all_have(views, members@.take(k as int), name@),
            lower@ == lower_part(views, members@.take(k as int), name@, split as int),
            upper@ == upper_part(views, members@.take(k as int), name@, split as int),
        decreases members.len() - k,
    {
        let member = members[k];
        let ghost before = members@.take(k as int);
        proof {
            assert(members@.take(k + 1) =~= before.push(member));
            before.lemma_filter_push(member, below(views, name@, split as int));
            before.lemma_filter_push(member, not_below(views, name@, split as int));
        }
        match samples[member].value_named(name) {
            Ok(value) => {
                if value < split {
                    lower.push(member);
                } else {
                    upper.push(member);
                }
            },
            Err(error) => {
                assert(!views[members@[k as int] as int].has_feature(name@));
                return Err(error);
            },
        }
        k = k + 1;
    }
    assert(members@.take(k as int) =~= members@);
    Ok((lower, upper))
}

} // verus!
