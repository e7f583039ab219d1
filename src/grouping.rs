//! Group assignment engine: splits a round's competitors into groups of
//! bounded size, spreading delegates evenly, and lets a user move single
//! competitors between neighbouring groups before submitting.

use std::collections::HashMap;
use vstd::prelude::*;
use vstd::arithmetic::div_mod::{
    lemma_div_is_ordered, lemma_div_plus_one, lemma_fundamental_div_mod,
    lemma_fundamental_div_mod_converse,
};
use vstd::multiset::Multiset;
use vstd::seq_lib::{lemma_multiset_commutative, to_multiset_build, to_multiset_len};

use crate::common::{Competitors, PdfRequest};
use crate::error::ServiceError;

verus! {

/// How `total` items are shared among `groups` groups: each group in turn
/// takes what is left divided by the number of groups still to fill,
/// rounded down. The remainder therefore ends up with the last groups.
pub open spec fn distribution_spec(total: nat, groups: nat) -> Seq<nat>
    decreases groups,
{
    if groups == 0 {
        seq![]
    } else {
        let part = total / groups;
        seq![part] + distribution_spec((total - part) as nat, (groups - 1) as nat)
    }
}

/// Sum of the first `i` entries of `s`.
pub open spec fn sum_first(s: Seq<nat>, i: int) -> nat
    decreases i,
{
    if i <= 0 {
        0
    } else {
        sum_first(s, i - 1) + s[i - 1]
    }
}

/// The share of group `j` has the closed form `(total + j) / groups`.
pub proof fn lemma_distribution_closed_form(total: nat, groups: nat)
    ensures
        distribution_spec(total, groups).len() == groups,
        forall|j: int|
            0 <= j < groups ==> #[trigger] distribution_spec(total, groups)[j] == (total + j)
                / (groups as int),
    decreases groups,
{
    if groups > 0 {
        let k = groups as int;
        let r = total as int;
        let q = r / k;
        let s = r % k;
        lemma_fundamental_div_mod(r, k);
        let rest = (total - q) as nat;
        lemma_distribution_closed_form(rest, (groups - 1) as nat);
        let d = distribution_spec(total, groups);
        assert forall|j: int| 0 <= j < groups implies #[trigger] d[j] == (total + j) / k by {
            if j > 0 {
                let i = j - 1;
                assert(d[j] == distribution_spec(rest, (groups - 1) as nat)[i]);
                assert(r == k * q + s);
                assert(0 <= s < k);
                if s + i >= k - 1 {
                    assert(rest + i == (q + 1) * (k - 1) + (s + i - (k - 1))) by (nonlinear_arith)
                        requires
                            r == k * q + s,
                            rest == r - q,
                    ;
                    lemma_fundamental_div_mod_converse(rest + i, k - 1, q + 1, s + i - (k - 1));
                    assert(r + j == (q + 1) * k + (s + j - k)) by (nonlinear_arith)
                        requires
                            r == k * q + s,
                    ;
                    lemma_fundamental_div_mod_converse(r + j, k, q + 1, s + j - k);
                } else {
                    assert(rest + i == q * (k - 1) + (s + i)) by (nonlinear_arith)
                        requires
                            r == k * q + s,
                            rest == r - q,
                    ;
                    lemma_fundamental_div_mod_converse(rest + i, k - 1, q, s + i);
                    assert(r + j == q * k + (s + j)) by (nonlinear_arith)
                        requires
                            r == k * q + s,
                    ;
                    lemma_fundamental_div_mod_converse(r + j, k, q, s + j);
                }
            }
        }
    }
}

proof fn lemma_sum_first_cons(p: nat, t: Seq<nat>, i: int)
    requires
        0 <= i <= t.len(),
    ensures
        sum_first(seq![p] + t, i + 1) == p + sum_first(t, i),
    decreases i,
{
    let s = seq![p] + t;
    assert(s.len() == t.len() + 1);
    if i > 0 {
        lemma_sum_first_cons(p, t, i - 1);
        assert(s[i] == t[i - 1]);
        assert(sum_first(s, i + 1) == sum_first(s, i) + s[i]);
        assert(sum_first(t, i) == sum_first(t, i - 1) + t[i - 1]);
    } else {
        assert(s[0] == p);
        assert(sum_first(s, 1) == sum_first(s, 0) + s[0]);
    }
}

/// All shares together give back the total.
pub proof fn lemma_distribution_sum(total: nat, groups: nat)
    requires
        groups > 0,
    ensures
        sum_first(distribution_spec(total, groups), groups as int) == total,
    decreases groups,
{
    let part = total / groups;
    assert(part <= total) by {
        vstd::arithmetic::div_mod::lemma_div_is_ordered_by_denominator(total as int, 1, groups as int);
    }
    let rest = (total - part) as nat;
    let tail = distribution_spec(rest, (groups - 1) as nat);
    lemma_distribution_closed_form(rest, (groups - 1) as nat);
    assert(distribution_spec(total, groups) == seq![part] + tail);
    if groups > 1 {
        lemma_distribution_sum(rest, (groups - 1) as nat);
    } else {
        assert(sum_first(tail, 0) == 0);
        assert(part == total) by {
            vstd::arithmetic::div_mod::lemma_div_basics(total as int);
        }
    }
    lemma_sum_first_cons(part, tail, groups - 1);
}

/// Prefix sums of a sequence of naturals only grow.
pub proof fn lemma_sum_first_mono(s: Seq<nat>, i: int, j: int)
    requires
        0 <= i <= j <= s.len(),
    ensures
        sum_first(s, i) <= sum_first(s, j),
    decreases j - i,
{
    if i < j {
        lemma_sum_first_mono(s, i, j - 1);
    }
}

/// Entry-wise differences of two sequences.
pub open spec fn differences(a: Seq<nat>, b: Seq<nat>) -> Seq<nat> {
    Seq::new(a.len(), |j: int| (a[j] - b[j]) as nat)
}

proof fn lemma_sum_first_differences(a: Seq<nat>, b: Seq<nat>, i: int)
    requires
        a.len() == b.len(),
        0 <= i <= a.len(),
        forall|j: int| 0 <= j < a.len() ==> b[j] <= a[j],
    ensures
        sum_first(differences(a, b), i) == sum_first(a, i) - sum_first(b, i),
        sum_first(b, i) <= sum_first(a, i),
    decreases i,
{
    if i > 0 {
        lemma_sum_first_differences(a, b, i - 1);
    }
}

proof fn lemma_empty_multiset<A>()
    ensures
        Seq::<A>::empty().to_multiset() == Multiset::<A>::empty(),
{
    broadcast use vstd::multiset::group_multiset_axioms;

    let e = Seq::<A>::empty();
    lemma_multiset_commutative(e, e);
    assert(e + e == e);
    assert(e.to_multiset() =~= Multiset::<A>::empty());
}

/// Whether `id` is flagged as a delegate.
pub open spec fn is_delegate(delegates: Seq<u64>, id: u64) -> bool {
    delegates.contains(id)
}

/// The delegates among `competitors`, in the order they came in.
pub open spec fn delegates_in(competitors: Seq<u64>, delegates: Seq<u64>) -> Seq<u64> {
    competitors.filter(delegate_test(delegates))
}

/// The competitors that are not delegates, in the order they came in.
pub open spec fn others_in(competitors: Seq<u64>, delegates: Seq<u64>) -> Seq<u64> {
    competitors.filter(other_test(delegates))
}

/// The test that picks delegates.
pub open spec fn delegate_test(delegates: Seq<u64>) -> spec_fn(u64) -> bool {
    |id: u64| is_delegate(delegates, id)
}

/// The test that picks those who are not delegates.
pub open spec fn other_test(delegates: Seq<u64>) -> spec_fn(u64) -> bool {
    |id: u64| !is_delegate(delegates, id)
}

proof fn lemma_filter_push(s: Seq<u64>, x: u64, pred: spec_fn(u64) -> bool)
    ensures
        s.push(x).filter(pred) == (if pred(x) {
            s.filter(pred).push(x)
        } else {
            s.filter(pred)
        }),
{
    reveal(Seq::filter);
    assert(s.push(x).drop_last() == s);
}

fn contains_id(v: &Vec<u64>, x: u64) -> (r: bool)
    ensures
        r == v@.contains(x),
{
    let mut i: usize = 0;
    while i < v.len()
        invariant
            i <= v@.len(),
            forall|j: int| 0 <= j < i ==> v@[j] != x,
        decreases v@.len() - i,
    {
        if v[i] == x {
            return true;
        }
        i = i + 1;
    }
    false
}

/// Splits `competitors` into its delegates and the others, both in the
/// order they came in.
fn split_delegates(competitors: &Vec<u64>, delegates: &Vec<u64>) -> (r: (Vec<u64>, Vec<u64>))
    ensures
        r.0@ == delegates_in(competitors@, delegates@),
        r.1@ == others_in(competitors@, delegates@),
        r.0@.to_multiset().add(r.1@.to_multiset()) == competitors@.to_multiset(),
{
    let mut dl: Vec<u64> = Vec::new();
    let mut nd: Vec<u64> = Vec::new();
    let mut i: usize = 0;
    proof {
        lemma_empty_multiset::<u64>();
        assert(competitors@.take(0) == Seq::<u64>::empty());
        reveal(Seq::filter);
    }
    while i < competitors.len()
        invariant
            i <= competitors@.len(),
            dl@ == competitors@.take(i as int).filter(delegate_test(delegates@)),
            nd@ == competitors@.take(i as int).filter(other_test(delegates@)),
            dl@.to_multiset().add(nd@.to_multiset()) == competitors@.take(i as int).to_multiset(),
        decreases competitors@.len() - i,
    {
        let id = competitors[i];
        let ghost prefix = competitors@.take(i as int);
        let ghost old_dl = dl@;
        let ghost old_nd = nd@;
        proof {
            assert(competitors@.take(i + 1) == prefix.push(id));
            lemma_filter_push(prefix, id, delegate_test(delegates@));
            lemma_filter_push(prefix, id, other_test(delegates@));
            to_multiset_build(prefix, id);
            to_multiset_build(old_dl, id);
            to_multiset_build(old_nd, id);
        }
        let flagged = contains_id(delegates, id);
        if flagged {
            dl.push(id);
            assert(delegate_test(delegates@)(id));
            assert(dl@ == old_dl.push(id));
            assert(dl@.to_multiset().add(nd@.to_multiset()) =~= prefix.push(id).to_multiset());
        } else {
            nd.push(id);
            assert(other_test(delegates@)(id));
            assert(nd@ == old_nd.push(id));
            assert(dl@.to_multiset().add(nd@.to_multiset()) =~= prefix.push(id).to_multiset());
        }
        i = i + 1;
    }
    assert(competitors@.take(competitors@.len() as int) == competitors@);
    (dl, nd)
}

/// Number of competitors one group can hold: every stage runs `stations`
/// stations in parallel.
pub open spec fn capacity(stages: u64, stations: u64) -> nat {
    (stages * stations) as nat
}

/// Number of groups for `n` competitors: `n` divided by the capacity,
/// rounded up, and at least one.
pub open spec fn group_count(n: nat, capacity: nat) -> nat {
    if n == 0 {
        1
    } else {
        ((n + capacity - 1) as nat) / capacity
    }
}

/// Delegate quota of each group.
pub open spec fn delegate_quota(competitors: Seq<u64>, delegates: Seq<u64>, capacity: nat) -> Seq<
    nat,
> {
    distribution_spec(
        delegates_in(competitors, delegates).len(),
        group_count(competitors.len(), capacity),
    )
}

/// Total size of each group.
pub open spec fn size_quota(competitors: Seq<u64>, capacity: nat) -> Seq<nat> {
    distribution_spec(competitors.len(), group_count(competitors.len(), capacity))
}

/// How many non-delegates the groups before group `i` have taken.
pub open spec fn others_taken(
    competitors: Seq<u64>,
    delegates: Seq<u64>,
    capacity: nat,
    i: int,
) -> int {
    sum_first(size_quota(competitors, capacity), i) - sum_first(
        delegate_quota(competitors, delegates, capacity),
        i,
    )
}

/// Group `i` of the assignment: it takes its share of non-delegates from
/// the end of what the earlier groups left, then its share of delegates,
/// likewise from the end.
pub open spec fn group_spec(competitors: Seq<u64>, delegates: Seq<u64>, capacity: nat, i: int) -> Seq<
    u64,
> {
    let others = others_in(competitors, delegates);
    let dels = delegates_in(competitors, delegates);
    let dq = delegate_quota(competitors, delegates, capacity);
    others.subrange(
        others.len() - others_taken(competitors, delegates, capacity, i + 1),
        others.len() - others_taken(competitors, delegates, capacity, i),
    ) + dels.subrange(dels.len() - sum_first(dq, i + 1), dels.len() - sum_first(dq, i))
}

/// The groups as sequences.
pub open spec fn groups_view(groups: Seq<Vec<u64>>) -> Seq<Seq<u64>> {
    groups.map_values(|g: Vec<u64>| g@)
}

/// How many of `group` are delegates.
pub open spec fn delegate_count(group: Seq<u64>, delegates: Seq<u64>) -> nat {
    group.filter(delegate_test(delegates)).len()
}

/// Facts on the two quotas that the assignment relies on.
proof fn lemma_quotas(competitors: Seq<u64>, delegates: Seq<u64>, capacity: nat)
    requires
        capacity >= 1,
        delegates_in(competitors, delegates).len() + others_in(competitors, delegates).len()
            == competitors.len(),
    ensures
        ({
            let g = group_count(competitors.len(), capacity);
            let dq = delegate_quota(competitors, delegates, capacity);
            let tq = size_quota(competitors, capacity);
            &&& g >= 1
            &&& g <= competitors.len() || competitors.len() == 0
            &&& dq.len() == g
            &&& tq.len() == g
            &&& forall|j: int| 0 <= j < g ==> #[trigger] dq[j] <= tq[j]
            &&& forall|j: int| 0 <= j < g ==> #[trigger] tq[j] <= competitors.len()
            &&& forall|i: int|
                0 <= i <= g ==> {
                    &&& 0 <= #[trigger] others_taken(competitors, delegates, capacity, i)
                        <= others_in(competitors, delegates).len()
                    &&& sum_first(dq, i) <= delegates_in(competitors, delegates).len()
                }
            &&& others_taken(competitors, delegates, capacity, g as int) == others_in(
                competitors,
                delegates,
            ).len()
            &&& sum_first(dq, g as int) == delegates_in(competitors, delegates).len()
        }),
{
    let n = competitors.len();
    let d = delegates_in(competitors, delegates).len();
    let g = group_count(n, capacity);
    let dq = delegate_quota(competitors, delegates, capacity);
    let tq = size_quota(competitors, capacity);
    if n > 0 {
        assert(((n + capacity - 1) as nat) / capacity >= 1) by {
            lemma_div_is_ordered(capacity as int, (n + capacity - 1) as int, capacity as int);
            vstd::arithmetic::div_mod::lemma_div_basics(capacity as int);
        }
        assert(((n + capacity - 1) as nat) / capacity <= n) by {
            vstd::arithmetic::div_mod::lemma_div_is_ordered_by_denominator(
                (n + capacity - 1) as int,
                1,
                capacity as int,
            );
            if capacity == 1 {
                vstd::arithmetic::div_mod::lemma_div_basics((n + capacity - 1) as int);
            } else {
                assert((n + capacity - 1) as int == (n - 1) + capacity);
                lemma_div_plus_one((n - 1) as int, capacity as int);
                vstd::arithmetic::div_mod::lemma_div_is_ordered_by_denominator(
                    (n - 1) as int,
                    1,
                    capacity as int,
                );
                vstd::arithmetic::div_mod::lemma_div_basics((n - 1) as int);
            }
        }
    }
    lemma_distribution_closed_form(d, g);
    lemma_distribution_closed_form(n, g);
    lemma_distribution_sum(d, g);
    lemma_distribution_sum(n, g);
    assert forall|j: int| 0 <= j < g implies #[trigger] dq[j] <= tq[j] by {
        lemma_div_is_ordered(d + j, n + j, g as int);
    }
    let diffs = differences(tq, dq);
    lemma_sum_first_differences(tq, dq, g as int);
    assert forall|j: int| 0 <= j < g implies #[trigger] tq[j] <= n by {
        lemma_sum_first_mono(tq, j + 1, g as int);
        lemma_sum_first_mono(tq, 0, j);
        assert(sum_first(tq, j + 1) == sum_first(tq, j) + tq[j]);
    }
    assert forall|i: int| 0 <= i <= g implies {
        &&& 0 <= #[trigger] others_taken(competitors, delegates, capacity, i) <= others_in(
            competitors,
            delegates,
        ).len()
        &&& sum_first(dq, i) <= d
    } by {
        lemma_sum_first_differences(tq, dq, i);
        lemma_sum_first_mono(diffs, i, g as int);
        lemma_sum_first_mono(dq, i, g as int);
    }
}

proof fn lemma_filter_keeps_all(s: Seq<u64>, pred: spec_fn(u64) -> bool)
    requires
        forall|i: int| 0 <= i < s.len() ==> pred(#[trigger] s[i]),
    ensures
        s.filter(pred) == s,
    decreases s.len(),
{
    reveal(Seq::filter);
    if s.len() > 0 {
        lemma_filter_keeps_all(s.drop_last(), pred);
    }
}

proof fn lemma_filter_keeps_none(s: Seq<u64>, pred: spec_fn(u64) -> bool)
    requires
        forall|i: int| 0 <= i < s.len() ==> !pred(#[trigger] s[i]),
    ensures
        s.filter(pred).len() == 0,
    decreases s.len(),
{
    reveal(Seq::filter);
    if s.len() > 0 {
        lemma_filter_keeps_none(s.drop_last(), pred);
    }
}

/// With at least one competitor, the number of groups is the number of
/// competitors divided by the capacity, rounded up; each group holds its
/// delegate quota of delegates, which lies between the exact proportional
/// share rounded down and rounded up.
pub proof fn lemma_delegates_spread_evenly(
    competitors: Seq<u64>,
    delegates: Seq<u64>,
    capacity: nat,
    i: int,
)
    requires
        capacity >= 1,
        competitors.len() >= 1,
        0 <= i < group_count(competitors.len(), capacity),
    ensures
        group_count(competitors.len(), capacity) * capacity >= competitors.len(),
        (group_count(competitors.len(), capacity) - 1) * capacity < competitors.len(),
        ({
            let g = group_count(competitors.len(), capacity) as int;
            let d = delegates_in(competitors, delegates).len() as int;
            let count = delegate_count(group_spec(competitors, delegates, capacity, i), delegates)
                as int;
            &&& count == (d + i) / g
            &&& d / g <= count <= (d + g - 1) / g
        }),
{
    let n = competitors.len();
    let g = group_count(n, capacity) as int;
    let dels = delegates_in(competitors, delegates);
    let others = others_in(competitors, delegates);
    let d = dels.len() as int;
    let dq = delegate_quota(competitors, delegates, capacity);
    let test = delegate_test(delegates);
    reveal(Seq::filter);
    lemma_partition_len(competitors, delegates);
    lemma_quotas(competitors, delegates, capacity);
    lemma_distribution_closed_form(d as nat, g as nat);
    assert(sum_first(dq, i + 1) == sum_first(dq, i) + dq[i]);
    let others_part = others.subrange(
        others.len() - others_taken(competitors, delegates, capacity, i + 1),
        others.len() - others_taken(competitors, delegates, capacity, i),
    );
    let dels_part = dels.subrange(dels.len() - sum_first(dq, i + 1), dels.len() - sum_first(dq, i));
    assert forall|k: int| 0 <= k < others_part.len() implies !test(#[trigger] others_part[k]) by {
        let at = others.len() - others_taken(competitors, delegates, capacity, i + 1) + k;
        competitors.lemma_filter_pred(other_test(delegates), at);
    }
    assert forall|k: int| 0 <= k < dels_part.len() implies test(#[trigger] dels_part[k]) by {
        let at = dels.len() - sum_first(dq, i + 1) + k;
        competitors.lemma_filter_pred(test, at);
    }
    lemma_filter_keeps_none(others_part, test);
    lemma_filter_keeps_all(dels_part, test);
    Seq::filter_distributes_over_add(others_part, dels_part, test);
    assert(dels_part.len() == dq[i]);
    lemma_div_is_ordered(d, d + i, g);
    lemma_div_is_ordered(d + i, d + g - 1, g);
    assert(g * capacity >= n && (g - 1) * capacity < n) by {
        let c = capacity as int;
        let x = n + c - 1;
        lemma_fundamental_div_mod(x, c);
        assert(g == x / c);
        assert(x == c * g + x % c);
        assert(0 <= x % c < c) by {
            vstd::arithmetic::div_mod::lemma_mod_bound(x, c);
        }
        assert(g * c >= n && (g - 1) * c < n) by (nonlinear_arith)
            requires
                x == c * g + x % c,
                0 <= x % c < c,
                x == n + c - 1,
        ;
    }
}

/// Every competitor is either a delegate or not.
proof fn lemma_partition_len(competitors: Seq<u64>, delegates: Seq<u64>)
    ensures
        delegates_in(competitors, delegates).len() + others_in(competitors, delegates).len()
            == competitors.len(),
    decreases competitors.len(),
{
    reveal(Seq::filter);
    if competitors.len() > 0 {
        lemma_partition_len(competitors.drop_last(), delegates);
    }
}

/// Shares `remaining` items among `no_of_groups` groups, as
/// [`distribution_spec`] describes.
pub fn distribution(remaining: u64, no_of_groups: u64) -> (r: Vec<u64>)
    ensures
        r@.len() == no_of_groups,
        forall|i: int|
            0 <= i < no_of_groups ==> r@[i] as nat == #[trigger] distribution_spec(
                remaining as nat,
                no_of_groups as nat,
            )[i],
{
    let mut out: Vec<u64> = Vec::new();
    let mut left: u64 = remaining;
    let mut group: u64 = 0;
    while group < no_of_groups
        invariant
            group <= no_of_groups,
            left <= remaining,
            out@.len() == group,
            distribution_spec(remaining as nat, no_of_groups as nat) == out@.map_values(
                |x: u64| x as nat,
            ) + distribution_spec(left as nat, (no_of_groups - group) as nat),
        decreases no_of_groups - group,
    {
        let per_group = left / (no_of_groups - group);
        let ghost before = out@.map_values(|x: u64| x as nat);
        let ghost tail = distribution_spec(
            (left - per_group) as nat,
            (no_of_groups - group - 1) as nat,
        );
        assert(distribution_spec(left as nat, (no_of_groups - group) as nat) == seq![
            per_group as nat,
        ] + tail);
        left = left - per_group;
        out.push(per_group);
        group = group + 1;
        assert(out@.map_values(|x: u64| x as nat) == before.push(per_group as nat));
        assert(before + (seq![per_group as nat] + tail) == before.push(per_group as nat) + tail);
    }
    assert(distribution_spec(left as nat, 0) == Seq::<nat>::empty());
    assert(out@.map_values(|x: u64| x as nat) + Seq::<nat>::empty() == out@.map_values(
        |x: u64| x as nat,
    ));
    out
}

/// Splits `competitors` into groups of at most `stages * stations`, with
/// the delegates spread as evenly as floor division allows. See
/// [`group_spec`] for where each competitor ends up.
pub fn make_groups(competitors: Vec<u64>, delegates: Vec<u64>, stages: u64, stations: u64) -> (r:
    Vec<Vec<u64>>)
    requires
        stages >= 1,
        stations >= 1,
    ensures
        r@.len() == group_count(competitors@.len(), capacity(stages, stations)),
        forall|i: int|
            0 <= i < r@.len() ==> (#[trigger] r@[i])@ == group_spec(
                competitors@,
                delegates@,
                capacity(stages, stations),
                i,
            ),
        groups_view(r@).flatten().to_multiset() == competitors@.to_multiset(),
{
    let ghost cap = capacity(stages, stations);
    let ghost comps = competitors@;
    let ghost dels = delegates@;
    let (mut competing_delegates, mut competing_non_delegates) = split_delegates(
        &competitors,
        &delegates,
    );
    proof {
        broadcast use vstd::multiset::group_multiset_axioms;
        to_multiset_len(competing_delegates@);
        to_multiset_len(competing_non_delegates@);
        to_multiset_len(comps);
    }
    let ghost all_dels = competing_delegates@;
    let ghost all_others = competing_non_delegates@;
    let n: usize = competitors.len();
    assert(stages as int * stations as int <= 0xffff_ffff_ffff_ffff * 0xffff_ffff_ffff_ffff
        && stages as int * stations as int >= 1) by (nonlinear_arith)
        requires
            1 <= stages <= 0xffff_ffff_ffff_ffff,
            1 <= stations <= 0xffff_ffff_ffff_ffff,
    ;
    let capacity_wide: u128 = stages as u128 * stations as u128;
    assert(capacity_wide == cap && cap >= 1);
    let no_of_groups: u64 = if n == 0 {
        1
    } else {
        proof {
            lemma_div_plus_one((n - 1) as int, cap as int);
            assert((n + cap - 1) as int == cap + (n - 1));
        }
        (((n - 1) as u128 / capacity_wide) + 1) as u64
    };
    proof {
        lemma_quotas(comps, dels, cap);
    }
    let delegate_distribution = distribution(competing_delegates.len() as u64, no_of_groups);
    let competitor_distribution = distribution(n as u64, no_of_groups);
    let ghost dq = delegate_quota(comps, dels, cap);
    let ghost tq = size_quota(comps, cap);
    let mut groups: Vec<Vec<u64>> = Vec::new();
    let mut idx: u64 = 0;
    proof {
        lemma_empty_multiset::<u64>();
        assert(groups_view(groups@) == Seq::<Seq<u64>>::empty());
        assert(all_others.subrange(0, all_others.len() as int) == all_others);
        assert(all_dels.subrange(0, all_dels.len() as int) == all_dels);
    }
    while idx < no_of_groups
        invariant
            no_of_groups == group_count(comps.len(), cap),
            idx <= no_of_groups,
            groups@.len() == idx,
            comps == competitors@,
            dels == delegates@,
            cap >= 1,
            all_dels == delegates_in(comps, dels),
            all_others == others_in(comps, dels),
            all_dels.len() + all_others.len() == comps.len(),
            n == comps.len(),
            dq == delegate_quota(comps, dels, cap),
            tq == size_quota(comps, cap),
            delegate_distribution@.len() == no_of_groups,
            competitor_distribution@.len() == no_of_groups,
            forall|j: int|
                0 <= j < no_of_groups ==> #[trigger] delegate_distribution@[j] as nat == dq[j],
            forall|j: int|
                0 <= j < no_of_groups ==> #[trigger] competitor_distribution@[j] as nat == tq[j],
            forall|j: int|
                0 <= j < idx ==> (#[trigger] groups@[j])@ == group_spec(comps, dels, cap, j),
            competing_non_delegates@ == all_others.subrange(
                0,
                all_others.len() - others_taken(comps, dels, cap, idx as int),
            ),
            competing_delegates@ == all_dels.subrange(
                0,
                all_dels.len() - sum_first(dq, idx as int),
            ),
            groups_view(groups@).flatten().to_multiset().add(
                competing_non_delegates@.to_multiset(),
            ).add(competing_delegates@.to_multiset()) == comps.to_multiset(),
        decreases no_of_groups - idx,
    {
        proof {
            lemma_quotas(comps, dels, cap);
            assert(sum_first(dq, idx + 1) == sum_first(dq, idx as int) + dq[idx as int]);
            assert(sum_first(tq, idx + 1) == sum_first(tq, idx as int) + tq[idx as int]);
            assert(others_taken(comps, dels, cap, idx + 1) <= all_others.len());
            assert(others_taken(comps, dels, cap, idx as int) >= 0);
            assert(sum_first(dq, idx + 1) <= all_dels.len());
        }
        let no_of_delegates = delegate_distribution[idx as usize];
        let no_of_non_delegates = competitor_distribution[idx as usize] - no_of_delegates;
        let ghost old_groups = groups@;
        let ghost old_nd = competing_non_delegates@;
        let ghost old_dl = competing_delegates@;
        let mut group = competing_non_delegates.split_off(
            competing_non_delegates.len() - no_of_non_delegates as usize,
        );
        let mut chosen_delegates = competing_delegates.split_off(
            competing_delegates.len() - no_of_delegates as usize,
        );
        let ghost nd_part = group@;
        let ghost dl_part = chosen_delegates@;
        group.append(&mut chosen_delegates);
        groups.push(group);
        idx = idx + 1;
        proof {
            broadcast use vstd::multiset::group_multiset_axioms;
            assert(nd_part + dl_part == group_spec(comps, dels, cap, idx - 1));
            assert(groups_view(groups@) == groups_view(old_groups).push(nd_part + dl_part));
            groups_view(old_groups).lemma_flatten_push(nd_part + dl_part);
            lemma_multiset_commutative(groups_view(old_groups).flatten(), nd_part + dl_part);
            lemma_multiset_commutative(nd_part, dl_part);
            assert(old_nd == competing_non_delegates@ + nd_part);
            assert(old_dl == competing_delegates@ + dl_part);
            lemma_multiset_commutative(competing_non_delegates@, nd_part);
            lemma_multiset_commutative(competing_delegates@, dl_part);
            assert(groups_view(groups@).flatten().to_multiset().add(
                competing_non_delegates@.to_multiset(),
            ).add(competing_delegates@.to_multiset()) =~= comps.to_multiset());
        }
    }
    proof {
        lemma_quotas(comps, dels, cap);
        assert(competing_non_delegates@ == Seq::<u64>::empty());
        assert(competing_delegates@ == Seq::<u64>::empty());
        broadcast use vstd::multiset::group_multiset_axioms;
        assert(groups_view(groups@).flatten().to_multiset() =~= comps.to_multiset());
    }
    groups
}

/// The groups after moving competitor `number` of group `group` to the end
/// of group `target`.
pub open spec fn moved(groups: Seq<Seq<u64>>, group: int, number: int, target: int) -> Seq<
    Seq<u64>,
> {
    let id = groups[group][number];
    let without = groups.update(group, groups[group].remove(number));
    without.update(target, without[target].push(id))
}

/// Everyone in the groups, each as often as they appear.
pub open spec fn members(groups: Seq<Seq<u64>>) -> Multiset<u64> {
    groups.flatten().to_multiset()
}

proof fn lemma_members_update(groups: Seq<Seq<u64>>, i: int, g: Seq<u64>)
    requires
        0 <= i < groups.len(),
    ensures
        members(groups.update(i, g)).add(groups[i].to_multiset()) == members(groups).add(
            g.to_multiset(),
        ),
    decreases groups.len(),
{
    broadcast use vstd::multiset::group_multiset_axioms;

    let u = groups.update(i, g);
    lemma_multiset_commutative(groups.first(), groups.drop_first().flatten());
    lemma_multiset_commutative(u.first(), u.drop_first().flatten());
    if i == 0 {
        assert(u.drop_first() == groups.drop_first());
        assert(u.first() == g);
        assert(u.flatten() == u.first() + u.drop_first().flatten());
        assert(groups.flatten() == groups.first() + groups.drop_first().flatten());
        assert(members(u).add(groups[i].to_multiset()) =~= members(groups).add(g.to_multiset()));
    } else {
        assert(u.drop_first() == groups.drop_first().update(i - 1, g));
        assert(u.first() == groups.first());
        assert(groups.drop_first()[i - 1] == groups[i]);
        assert(u.flatten() == u.first() + u.drop_first().flatten());
        assert(groups.flatten() == groups.first() + groups.drop_first().flatten());
        lemma_members_update(groups.drop_first(), i - 1, g);
        let f = groups.first().to_multiset();
        assert(members(u) == f.add(members(u.drop_first())));
        assert(members(groups) == f.add(members(groups.drop_first())));
        assert(members(u.drop_first()).add(groups[i].to_multiset()) == members(
            groups.drop_first(),
        ).add(g.to_multiset()));
        assert forall|x: u64|
            #[trigger] members(u).add(groups[i].to_multiset()).count(x) == members(groups).add(
                g.to_multiset(),
            ).count(x) by {
            assert(members(u).count(x) == f.count(x) + members(u.drop_first()).count(x));
            assert(members(groups).count(x) == f.count(x) + members(groups.drop_first()).count(x));
            assert(members(u.drop_first()).add(groups[i].to_multiset()).count(x) == members(
                groups.drop_first(),
            ).add(g.to_multiset()).count(x));
            assert(members(u.drop_first()).count(x) + groups[i].to_multiset().count(x) == members(
                groups.drop_first(),
            ).count(x) + g.to_multiset().count(x));
        }
        assert(members(u).add(groups[i].to_multiset()) =~= members(groups).add(g.to_multiset()));
    }
}

/// Moving a competitor to a neighbouring group keeps everyone, and changes
/// no group but the two involved.
pub proof fn lemma_move_conserves(groups: Seq<Seq<u64>>, group: int, number: int, target: int)
    requires
        0 <= group < groups.len(),
        0 <= number < groups[group].len(),
        0 <= target < groups.len(),
        target == group - 1 || target == group + 1,
    ensures
        members(moved(groups, group, number, target)) == members(groups),
        moved(groups, group, number, target).flatten().len() == groups.flatten().len(),
        moved(groups, group, number, target).len() == groups.len(),
        forall|j: int|
            0 <= j < groups.len() && j != group && j != target ==> #[trigger] moved(
                groups,
                group,
                number,
                target,
            )[j] == groups[j],
{
    broadcast use vstd::multiset::group_multiset_axioms;
    broadcast use vstd::seq_lib::group_to_multiset_ensures;

    let id = groups[group][number];
    let removed = groups[group].remove(number);
    let without = groups.update(group, removed);
    let after = moved(groups, group, number, target);
    lemma_members_update(groups, group, removed);
    lemma_members_update(without, target, without[target].push(id));
    let pushed = without[target].push(id);
    assert(without[target] == groups[target]);
    assert(removed.to_multiset() == groups[group].to_multiset().remove(id));
    assert(pushed.to_multiset() == groups[target].to_multiset().insert(id));
    assert(groups[group].to_multiset().count(id) > 0) by {
        assert(groups[group][number] == id);
        assert(groups[group].contains(id));
    }
    assert(after == without.update(target, pushed));
    assert(members(after).add(groups[target].to_multiset()) == members(without).add(
        pushed.to_multiset(),
    ));
    assert(members(without).add(groups[group].to_multiset()) == members(groups).add(
        removed.to_multiset(),
    ));
    assert forall|x: u64| #[trigger] members(after).count(x) == members(groups).count(x) by {
        assert(members(after).add(groups[target].to_multiset()).count(x) == members(without).add(
            pushed.to_multiset(),
        ).count(x));
        assert(members(without).add(groups[group].to_multiset()).count(x) == members(groups).add(
            removed.to_multiset(),
        ).count(x));
        assert(pushed.to_multiset().count(x) == groups[target].to_multiset().insert(id).count(x));
        assert(removed.to_multiset().count(x) == groups[group].to_multiset().remove(id).count(x));
    }
    assert(members(after) =~= members(groups));
    to_multiset_len(after.flatten());
    to_multiset_len(groups.flatten());
}

/// Where an assignment session stands.
#[derive(Debug, Clone, Copy, PartialEq, Eq, Structural)]
pub enum Phase {
    /// The groups are as the engine made them.
    Distributed,
    /// A competitor was moved since.
    Edited,
    /// The groups passed validation and were handed on; nothing changes
    /// after that.
    Submitted,
}

/// The first group that holds more than `capacity` competitors, if any.
pub open spec fn first_over_capacity(groups: Seq<Seq<u64>>, capacity: nat) -> Option<int> {
    if exists|i: int| 0 <= i < groups.len() && groups[i].len() > capacity {
        Some(
            choose|i: int|
                0 <= i < groups.len() && groups[i].len() > capacity && forall|j: int|
                    0 <= j < i ==> groups[j].len() <= capacity,
        )
    } else {
        None
    }
}

/// Where some group holds more than `capacity`, a first such group exists
/// and [`first_over_capacity`] names it; otherwise every group fits.
pub proof fn lemma_first_over_capacity(groups: Seq<Seq<u64>>, capacity: nat)
    ensures
        match first_over_capacity(groups, capacity) {
            Some(i) => {
                &&& 0 <= i < groups.len()
                &&& groups[i].len() > capacity
                &&& forall|j: int| 0 <= j < i ==> groups[j].len() <= capacity
            },
            None => forall|j: int| 0 <= j < groups.len() ==> groups[j].len() <= capacity,
        },
{
    if exists|i: int| 0 <= i < groups.len() && groups[i].len() > capacity {
        let w = choose|i: int| 0 <= i < groups.len() && groups[i].len() > capacity;
        lemma_first_over_exists(groups, capacity, w);
    }
}

proof fn lemma_first_over_exists(groups: Seq<Seq<u64>>, capacity: nat, w: int)
    requires
        0 <= w < groups.len(),
        groups[w].len() > capacity,
    ensures
        exists|i: int|
            0 <= i < groups.len() && groups[i].len() > capacity && forall|j: int|
                0 <= j < i ==> groups[j].len() <= capacity,
    decreases w,
{
    if exists|j: int| 0 <= j < w && groups[j].len() > capacity {
        let v = choose|j: int| 0 <= j < w && groups[j].len() > capacity;
        lemma_first_over_exists(groups, capacity, v);
    } else {
        assert(forall|j: int| 0 <= j < w ==> groups[j].len() <= capacity);
    }
}

/// The group assignment of one round while a user edits it.
pub struct RoundConfig {
    competition: String,
    stages: u64,
    stations: u64,
    groups: Vec<Vec<u64>>,
    names: HashMap<u64, String>,
    event: String,
    round: u64,
    seperate_stages: bool,
    phase: Phase,
}

impl RoundConfig {
    /// The groups as sequences.
    pub closed spec fn groups_spec(&self) -> Seq<Seq<u64>> {
        groups_view(self.groups@)
    }

    /// Per-group capacity of this round.
    pub closed spec fn capacity_spec(&self) -> nat {
        capacity(self.stages, self.stations)
    }

    /// Stages, stations, competition, event, round and whether stages are
    /// printed separately: what a request to render carries besides the
    /// groups.
    pub closed spec fn settings_spec(&self) -> (u64, u64, Seq<char>, Seq<char>, u64, bool) {
        (
            self.stages,
            self.stations,
            self.competition@,
            self.event@,
            self.round,
            self.seperate_stages,
        )
    }

    /// The name of each competitor.
    pub closed spec fn names_spec(&self) -> HashMap<u64, String> {
        self.names
    }

    /// Where the assignment stands.
    pub closed spec fn phase_spec(&self) -> Phase {
        self.phase
    }

    /// Starts an assignment session: the engine distributes the round's
    /// competitors.
    pub fn new(info: Competitors) -> (r: RoundConfig)
        requires
            info.stages >= 1,
            info.stations >= 1,
        ensures
            r.phase_spec() == Phase::Distributed,
            r.names_spec() == info.names,
            r.capacity_spec() == capacity(info.stages, info.stations),
            r.settings_spec() == (
                info.stages,
                info.stations,
                info.competition@,
                info.event@,
                info.round,
                info.seperate_stages,
            ),
            r.groups_spec().len() == group_count(
                info.competitors@.len(),
                capacity(info.stages, info.stations),
            ),
            forall|i: int|
                0 <= i < r.groups_spec().len() ==> #[trigger] r.groups_spec()[i] == group_spec(
                    info.competitors@,
                    info.delegates@,
                    capacity(info.stages, info.stations),
                    i,
                ),
    {
        let groups = make_groups(info.competitors, info.delegates, info.stages, info.stations);
        RoundConfig {
            competition: info.competition,
            stages: info.stages,
            stations: info.stations,
            groups,
            names: info.names,
            event: info.event,
            round: info.round,
            seperate_stages: info.seperate_stages,
            phase: Phase::Distributed,
        }
    }

    /// The groups, in order.
    pub fn groups(&self) -> (r: &Vec<Vec<u64>>)
        ensures
            groups_view(r@) == self.groups_spec(),
    {
        &self.groups
    }

    /// Where the assignment stands.
    pub fn phase(&self) -> (r: Phase)
        ensures
            r == self.phase_spec(),
    {
        self.phase
    }

    /// The name of each competitor.
    pub fn names(&self) -> (r: &HashMap<u64, String>)
        ensures
            *r == self.names_spec(),
    {
        &self.names
    }

    /// Moves competitor `number` of group `group` to the end of the group
    /// one step away in `direction` (-1: back, 1: ahead).
    pub fn move_competitor(&mut self, group: usize, number: usize, direction: isize)
        requires
            old(self).phase_spec() != Phase::Submitted,
            group < old(self).groups_spec().len(),
            number < old(self).groups_spec()[group as int].len(),
            direction == -1 || direction == 1,
            0 <= group + direction < old(self).groups_spec().len(),
        ensures
            final(self).groups_spec() == moved(
                old(self).groups_spec(),
                group as int,
                number as int,
                group + direction,
            ),
            final(self).phase_spec() == Phase::Edited,
            final(self).names_spec() == old(self).names_spec(),
            final(self).capacity_spec() == old(self).capacity_spec(),
            final(self).settings_spec() == old(self).settings_spec(),
    {
        let ghost before = self.groups_spec();
        let group_total = self.groups.len();
        assert(group + direction < group_total);
        let target: usize = if direction < 0 {
            group - 1
        } else {
            group + 1
        };
        let id = self.groups[group].remove(number);
        self.groups[target].push(id);
        self.phase = Phase::Edited;
        assert(self.groups_spec() =~= moved(before, group as int, number as int, target as int));
    }

    /// Validates the groups and, where every group fits, hands them on as a
    /// request to render, asking for the document to be patched when
    /// `patch_wcif` holds. The first group over capacity is reported
    /// otherwise, and nothing changes.
    pub fn submit(&mut self, patch_wcif: bool) -> (r: Result<PdfRequest, ServiceError>)
        requires
            old(self).phase_spec() != Phase::Submitted,
        ensures
            match first_over_capacity(old(self).groups_spec(), old(self).capacity_spec()) {
                Some(i) => r == Err::<PdfRequest, ServiceError>(
                    ServiceError::GroupOverCapacity(i as usize),
                ) && *final(self) == *old(self),
                None => r is Ok && final(self).phase_spec() == Phase::Submitted
                    && final(self).groups_spec() == old(self).groups_spec()
                    && final(self).capacity_spec() == old(self).capacity_spec()
                    && final(self).settings_spec() == old(self).settings_spec(),
            },
            r matches Ok(request) ==> {
                &&& groups_view(request.groups@) == old(self).groups_spec()
                &&& request.wcif == patch_wcif
                &&& old(self).settings_spec() == (
                    request.stages,
                    request.stations,
                    request.competition@,
                    request.event@,
                    request.round,
                    request.seperate_stages,
                )
            },
    {
        let cap = capacity_wide(self.stages, self.stations);
        let mut i: usize = 0;
        while i < self.groups.len()
            invariant
                i <= self.groups@.len(),
                cap == self.capacity_spec(),
                forall|j: int| 0 <= j < i ==> self.groups_spec()[j].len() <= cap,
            decreases self.groups@.len() - i,
        {
            if self.groups[i].len() as u128 > cap {
                proof {
                    let gs = self.groups_spec();
                    let c = self.capacity_spec();
                    assert(0 <= i < gs.len() && gs[i as int].len() > c);
                    let k = choose|k: int|
                        0 <= k < gs.len() && gs[k].len() > c && forall|j: int|
                            0 <= j < k ==> gs[j].len() <= c;
                    assert(k == i) by {
                        if k < i {
                        } else if k > i {
                            assert(gs[i as int].len() <= c);
                        }
                    }
                }
                return Err(ServiceError::GroupOverCapacity(i));
            }
            i = i + 1;
        }
        let groups = copy_groups(&self.groups);
        self.phase = Phase::Submitted;
        Ok(
            PdfRequest {
                competition: self.competition.clone(),
                stages: self.stages,
                stations: self.stations,
                groups,
                wcif: patch_wcif,
                event: self.event.clone(),
                round: self.round,
                seperate_stages: self.seperate_stages,
            },
        )
    }
}

/// The capacity of a group, computed without overflow.
fn capacity_wide(stages: u64, stations: u64) -> (r: u128)
    ensures
        r == capacity(stages, stations),
{
    assert(stages as int * stations as int <= 0xffff_ffff_ffff_ffff * 0xffff_ffff_ffff_ffff
        && stages as int * stations as int >= 0) by (nonlinear_arith)
        requires
            0 <= stages <= 0xffff_ffff_ffff_ffff,
            0 <= stations <= 0xffff_ffff_ffff_ffff,
    ;
    stages as u128 * stations as u128
}

fn copy_groups(groups: &Vec<Vec<u64>>) -> (r: Vec<Vec<u64>>)
    ensures
        groups_view(r@) == groups_view(groups@),
{
    let mut out: Vec<Vec<u64>> = Vec::new();
    let mut i: usize = 0;
    while i < groups.len()
        invariant
            i <= groups@.len(),
            out@.len() == i,
            forall|j: int| 0 <= j < i ==> (#[trigger] out@[j])@ == groups@[j]@,
        decreases groups@.len() - i,
    {
        let mut copy: Vec<u64> = Vec::new();
        let mut k: usize = 0;
        while k < groups[i].len()
            invariant
                i < groups@.len(),
                k <= groups@[i as int]@.len(),
                copy@ == groups@[i as int]@.subrange(0, k as int),
            decreases groups@[i as int]@.len() - k,
        {
            copy.push(groups[i][k]);
            k = k + 1;
            assert(copy@ =~= groups@[i as int]@.subrange(0, k as int));
        }
        assert(copy@ =~= groups@[i as int]@);
        out.push(copy);
        i = i + 1;
    }
    assert(groups_view(out@) =~= groups_view(groups@));
    out
}

} // verus!
