use crate::model::{TestSuite, TimeByLetter};
use vstd::prelude::*;
use vstd::string::StrSliceExecFns;

verus! {

// ---------------------------------------------------------------------------
// Durations
// ---------------------------------------------------------------------------

/// Sum of the durations of a sequence of category totals.
pub open spec fn sum_times(s: Seq<TimeByLetter>) -> nat
    decreases s.len(),
{
    if s.len() == 0 {
        0
    } else {
        sum_times(s.drop_last()) + s.last().time as nat
    }
}

/// Concatenation of groups, in order.
pub open spec fn flatten(gs: Seq<Seq<TimeByLetter>>) -> Seq<TimeByLetter>
    decreases gs.len(),
{
    if gs.len() == 0 {
        Seq::empty()
    } else {
        flatten(gs.drop_last()) + gs.last()
    }
}

/// The groups of a `Vec<Vec<_>>` as sequences.
pub open spec fn groups_view(groups: Seq<Vec<TimeByLetter>>) -> Seq<Seq<TimeByLetter>> {
    groups.map_values(|g: Vec<TimeByLetter>| g@)
}

// ---------------------------------------------------------------------------
// Greedy partition
//
// The target duration of a group is `total / n`. All comparisons with it are
// made exactly, multiplied out by `n`: `d > total / n` is `d * n > total`.
// With `n == 0` nothing exceeds the target and everything stays in one group.
// ---------------------------------------------------------------------------

/// `t` alone takes longer than the target duration.
pub open spec fn oversized(t: TimeByLetter, n: nat, total: nat) -> bool {
    t.time * n > total
}

/// A group is either one oversized total on its own, or a non-empty run of
/// totals that are not oversized and together fit within the target.
pub open spec fn well_formed_group(g: Seq<TimeByLetter>, n: nat, total: nat) -> bool {
    (g.len() == 1 && oversized(g[0], n, total)) || (g.len() > 0 && (forall|k: int|
        0 <= k < g.len() ==> !oversized(#[trigger] g[k], n, total)) && sum_times(g) * n <= total)
}

/// A group ends before `next` only because `next` is oversized or does not
/// fit into it any more.
pub open spec fn closed_before(g: Seq<TimeByLetter>, next: TimeByLetter, n: nat, total: nat) -> bool {
    oversized(next, n, total) || (sum_times(g) + next.time) * n > total
}

/// `gs` is the outcome of the greedy left-to-right pass over `items`, with
/// `n` groups asked for.
pub open spec fn greedy_partition(
    items: Seq<TimeByLetter>,
    n: nat,
    gs: Seq<Seq<TimeByLetter>>,
) -> bool {
    &&& flatten(gs) == items
    &&& groups_ok(gs, n, sum_times(items))
}

proof fn lemma_sum_times_concat(a: Seq<TimeByLetter>, b: Seq<TimeByLetter>)
    ensures
        sum_times(a + b) == sum_times(a) + sum_times(b),
    decreases b.len(),
{
    if b.len() > 0 {
        assert((a + b).drop_last() =~= a + b.drop_last());
        lemma_sum_times_concat(a, b.drop_last());
    } else {
        assert(a + b =~= a);
    }
}

proof fn lemma_sum_times_prefix(s: Seq<TimeByLetter>, i: int)
    requires
        0 <= i <= s.len(),
    ensures
        sum_times(s.take(i)) <= sum_times(s),
{
    lemma_sum_times_concat(s.take(i), s.skip(i));
    assert(s.take(i) + s.skip(i) =~= s);
}

proof fn lemma_sum_times_element(s: Seq<TimeByLetter>, j: int)
    requires
        0 <= j < s.len(),
    ensures
        s[j].time <= sum_times(s),
    decreases s.len(),
{
    if j < s.len() - 1 {
        lemma_sum_times_element(s.drop_last(), j);
    }
}

/// An oversized group closes before whatever follows it.
proof fn lemma_oversized_closes(g: Seq<TimeByLetter>, next: TimeByLetter, n: nat, total: nat)
    requires
        g.len() == 1,
        oversized(g[0], n, total),
    ensures
        closed_before(g, next, n, total),
{
    assert(g.drop_last() =~= Seq::<TimeByLetter>::empty());
    assert(sum_times(g.drop_last()) == 0);
    assert(sum_times(g) == g[0].time);
    assert((g[0].time + next.time) * n >= g[0].time * n) by (nonlinear_arith);
}

/// Every group is well formed and closed before the group that follows it.
pub open spec fn groups_ok(gs: Seq<Seq<TimeByLetter>>, n: nat, total: nat) -> bool {
    &&& forall|i: int| 0 <= i < gs.len() ==> well_formed_group(#[trigger] gs[i], n, total)
    &&& forall|i: int|
        0 <= i < gs.len() - 1 ==> closed_before(#[trigger] gs[i], gs[i + 1][0], n, total)
}

proof fn lemma_push_group(gs: Seq<Seq<TimeByLetter>>, g: Seq<TimeByLetter>, n: nat, total: nat)
    requires
        groups_ok(gs, n, total),
        well_formed_group(g, n, total),
        gs.len() > 0 ==> closed_before(gs.last(), g[0], n, total),
    ensures
        groups_ok(gs.push(g), n, total),
        flatten(gs.push(g)) == flatten(gs) + g,
{
    let gs2 = gs.push(g);
    assert(gs2.drop_last() =~= gs);
    assert forall|i: int| 0 <= i < gs2.len() - 1 implies closed_before(
        #[trigger] gs2[i],
        gs2[i + 1][0],
        n,
        total,
    ) by {
        assert(gs2[i] == gs[i]);
        if i < gs.len() - 1 {
            assert(gs2[i + 1] == gs[i + 1]);
        }
    }
    assert forall|i: int| 0 <= i < gs2.len() implies well_formed_group(#[trigger] gs2[i], n, total) by {
        if i < gs.len() {
            assert(gs2[i] == gs[i]);
        }
    }
}

proof fn lemma_flatten_concat(a: Seq<Seq<TimeByLetter>>, b: Seq<Seq<TimeByLetter>>)
    ensures
        flatten(a + b) == flatten(a) + flatten(b),
    decreases b.len(),
{
    if b.len() == 0 {
        assert(a + b =~= a);
        assert(flatten(a) + flatten(b) =~= flatten(a));
    } else {
        assert((a + b).drop_last() =~= a + b.drop_last());
        lemma_flatten_concat(a, b.drop_last());
        assert(flatten(a) + flatten(b.drop_last()) + b.last() =~= flatten(a) + (flatten(
            b.drop_last(),
        ) + b.last()));
    }
}

proof fn lemma_flatten_split(gs: Seq<Seq<TimeByLetter>>, i: int)
    requires
        0 <= i < gs.len(),
    ensures
        flatten(gs) == flatten(gs.take(i)) + gs[i] + flatten(gs.skip(i + 1)),
{
    lemma_flatten_concat(gs.take(i + 1), gs.skip(i + 1));
    assert(gs.take(i + 1) + gs.skip(i + 1) =~= gs);
    assert(gs.take(i + 1).drop_last() =~= gs.take(i));
}

/// Where two greedy partitions agree on their first `i` groups, the next
/// group of the first is no shorter than that of the second: a shorter one
/// would have taken one more total.
proof fn lemma_no_shorter_group(
    items: Seq<TimeByLetter>,
    n: nat,
    a: Seq<Seq<TimeByLetter>>,
    b: Seq<Seq<TimeByLetter>>,
    i: int,
)
    requires
        greedy_partition(items, n, a),
        greedy_partition(items, n, b),
        0 <= i < a.len(),
        i < b.len(),
        a.take(i) == b.take(i),
    ensures
        a[i].len() >= b[i].len(),
{
    if a[i].len() < b[i].len() {
        lemma_shorter_group_closes(items, n, a, b, i);
        let c = b[i].take(a[i].len() + 1 as int);
        lemma_sum_times_prefix(b[i], a[i].len() + 1 as int);
        assert(well_formed_group(b[i], n, sum_times(items)));
        assert(sum_times(c) * n <= sum_times(b[i]) * n) by (nonlinear_arith)
            requires
                sum_times(c) <= sum_times(b[i]),
        ;
    }
}

proof fn lemma_shorter_group_closes(
    items: Seq<TimeByLetter>,
    n: nat,
    a: Seq<Seq<TimeByLetter>>,
    b: Seq<Seq<TimeByLetter>>,
    i: int,
)
    requires
        greedy_partition(items, n, a),
        greedy_partition(items, n, b),
        0 <= i < a.len(),
        i < b.len(),
        a.take(i) == b.take(i),
        a[i].len() < b[i].len(),
    ensures
        ({
            let next = b[i][a[i].len() as int];
            &&& sum_times(b[i].take(a[i].len() + 1 as int)) == sum_times(a[i]) + next.time
            &&& sum_times(b[i].take(a[i].len() + 1 as int)) * n > sum_times(items)
        }),
{
    let total = sum_times(items);
    lemma_flatten_split(a, i);
    lemma_flatten_split(b, i);
    let p = flatten(a.take(i)).len();
    let la = a[i].len() as int;
    assert(well_formed_group(a[i], n, total));
    assert(well_formed_group(b[i], n, total));
    let rest_a = flatten(a.skip(i + 1));
    assert(rest_a.len() > 0);
    assert(i + 1 < a.len()) by {
        if i + 1 == a.len() {
            assert(a.skip(i + 1) =~= Seq::<Seq<TimeByLetter>>::empty());
        }
    }
    lemma_flatten_split(a, i + 1);
    assert(a.take(i + 1).skip(0) =~= a.take(i + 1));
    assert(a.take(i + 1).drop_last() =~= a.take(i));
    assert(well_formed_group(a[i + 1], n, total));
    let next = a[i + 1][0];
    assert(items[p + la] == next);
    assert(items[p + la] == b[i][la]);
    assert(a[i] =~= b[i].take(la)) by {
        assert forall|k: int| 0 <= k < la implies a[i][k] == b[i][k] by {
            assert(items[p + k] == a[i][k]);
            assert(items[p + k] == b[i][k]);
        }
    }
    assert(!oversized(next, n, total));
    assert(closed_before(a[i], next, n, total));
    let c = b[i].take(la + 1);
    assert(c.drop_last() =~= a[i]);
    assert(sum_times(c) == sum_times(a[i]) + next.time);
}

proof fn lemma_unique_from(
    items: Seq<TimeByLetter>,
    n: nat,
    a: Seq<Seq<TimeByLetter>>,
    b: Seq<Seq<TimeByLetter>>,
    i: int,
)
    requires
        greedy_partition(items, n, a),
        greedy_partition(items, n, b),
        0 <= i <= a.len(),
        i <= b.len(),
        a.take(i) == b.take(i),
    ensures
        a == b,
    decreases a.len() - i,
{
    let total = sum_times(items);
    if i == a.len() && i == b.len() {
        assert(a =~= a.take(i));
        assert(b =~= b.take(i));
    } else if i == a.len() {
        assert(a =~= a.take(i));
        lemma_flatten_split(b, i);
        assert(well_formed_group(b[i], n, total));
        assert(false);
    } else if i == b.len() {
        assert(b =~= b.take(i));
        lemma_flatten_split(a, i);
        assert(well_formed_group(a[i], n, total));
        assert(false);
    } else {
        lemma_no_shorter_group(items, n, a, b, i);
        lemma_no_shorter_group(items, n, b, a, i);
        lemma_flatten_split(a, i);
        lemma_flatten_split(b, i);
        let p = flatten(a.take(i)).len();
        assert(a[i] =~= b[i]) by {
            assert forall|k: int| 0 <= k < a[i].len() implies a[i][k] == b[i][k] by {
                assert(items[p + k] == a[i][k]);
                assert(items[p + k] == b[i][k]);
            }
        }
        assert(a.take(i + 1) =~= a.take(i).push(a[i]));
        assert(b.take(i + 1) =~= b.take(i).push(b[i]));
        lemma_unique_from(items, n, a, b, i + 1);
    }
}

/// The greedy pass leaves no choice: for given totals and group count there
/// is exactly one sequence of groups that is a greedy partition of them.
pub proof fn lemma_greedy_partition_unique(
    items: Seq<TimeByLetter>,
    n: nat,
    a: Seq<Seq<TimeByLetter>>,
    b: Seq<Seq<TimeByLetter>>,
)
    requires
        greedy_partition(items, n, a),
        greedy_partition(items, n, b),
    ensures
        a == b,
{
    assert(a.take(0) =~= b.take(0));
    lemma_unique_from(items, n, a, b, 0);
}

/// Splits the category totals into consecutive groups whose durations come
/// close to `total / group_count`, in one greedy pass: a total longer than
/// the target forms a group of its own; otherwise a group takes the next
/// total as long as the sum stays within the target. The number of groups
/// may differ from `group_count`; with `group_count == 0` everything forms a
/// single group.
pub fn divide_into_groups(group_count: u16, times_by_letters: Vec<TimeByLetter>) -> (result: Vec<
    Vec<TimeByLetter>,
>)
    requires
        sum_times(times_by_letters@) <= u64::MAX,
    ensures
        greedy_partition(times_by_letters@, group_count as nat, groups_view(result@)),
        flatten(groups_view(result@)) == times_by_letters@,
        forall|i: int| 0 <= i < result.len() ==> #[trigger] result[i].len() > 0,
        forall|i: int, k: int|
            0 <= i < result.len() && 0 <= k < result[i].len() && oversized(
                #[trigger] result[i][k],
                group_count as nat,
                sum_times(times_by_letters@),
            ) ==> result[i].len() == 1,
{
    let items = times_by_letters;
    let ghost s = items@;
    let ghost n = group_count as nat;
    let mut total: u64 = 0;
    let mut i: usize = 0;
    while i < items.len()
        invariant
            i <= items.len(),
            s == items@,
            sum_times(s) <= u64::MAX,
            total == sum_times(s.take(i as int)),
        decreases items.len() - i,
    {
        proof {
            assert(s.take(i + 1).drop_last() =~= s.take(i as int));
            lemma_sum_times_prefix(s, i + 1);
        }
        total = total + items[i].time;
        i = i + 1;
    }
    assert(s.take(s.len() as int) =~= s);
    let ghost tot = total as nat;
    let n128 = group_count as u128;
    let total128 = total as u128;

    let mut result: Vec<Vec<TimeByLetter>> = Vec::new();
    let mut current: Vec<TimeByLetter> = Vec::new();
    let mut current_sum: u64 = 0;
    let mut i: usize = 0;
    assert(groups_view(result@) =~= Seq::<Seq<TimeByLetter>>::empty());
    while i < items.len()
        invariant
            i <= items.len(),
            s == items@,
            tot == sum_times(s),
            tot <= u64::MAX,
            n128 == n,
            n128 <= 0xffff,
            total128 == tot,
            current_sum == sum_times(current@),
            flatten(groups_view(result@)) + current@ == s.take(i as int),
            groups_ok(groups_view(result@), n, tot),
            forall|k: int| 0 <= k < current.len() ==> !oversized(#[trigger] current@[k], n, tot),
            sum_times(current@) * n <= tot,
            result.len() > 0 && current.len() == 0 ==> ({
                let last = groups_view(result@).last();
                last.len() == 1 && oversized(last[0], n, tot)
            }),
            result.len() > 0 && current.len() > 0 ==> closed_before(
                groups_view(result@).last(),
                current@[0],
                n,
                tot,
            ),
        decreases items.len() - i,
    {
        let item = items[i];
        proof {
            assert((item.time as u128) * n128 <= 0xffff_ffff_ffff_ffffu128 * 0xffffu128)
                by (nonlinear_arith)
                requires
                    item.time <= 0xffff_ffff_ffff_ffffu64,
                    n128 <= 0xffffu128,
            ;
            assert((current_sum as u128 + item.time as u128) * n128 <= 0x2_0000_0000_0000_0000u128
                * 0xffffu128) by (nonlinear_arith)
                requires
                    current_sum as u128 + item.time as u128 <= 0x2_0000_0000_0000_0000u128,
                    n128 <= 0xffffu128,
            ;
            lemma_sum_times_concat(flatten(groups_view(result@)), current@);
            lemma_sum_times_prefix(s, i + 1);
            assert(s.take(i + 1).drop_last() =~= s.take(i as int));
            if current.len() == 0 && result.len() > 0 {
                lemma_oversized_closes(groups_view(result@).last(), item, n, tot);
            }
        }
        let big = (item.time as u128) * n128 > total128;
        let full = (current_sum as u128 + item.time as u128) * n128 > total128;
        if current.len() > 0 && (big || full) {
            let ghost old_result = groups_view(result@);
            let ghost old_current = current@;
            result.push(current);
            current = Vec::new();
            current_sum = 0;
            proof {
                assert(groups_view(result@) =~= old_result.push(old_current));
                lemma_push_group(old_result, old_current, n, tot);
                assert(current@ =~= Seq::<TimeByLetter>::empty());
                assert(sum_times(current@) == 0);
                assert(flatten(groups_view(result@)) + current@ =~= s.take(i as int));
                assert(closed_before(old_current, item, n, tot));
            }
        }
        if big {
            let ghost old_result = groups_view(result@);
            let mut single: Vec<TimeByLetter> = Vec::new();
            single.push(item);
            result.push(single);
            proof {
                let g = seq![item];
                assert(g.drop_last() =~= Seq::<TimeByLetter>::empty());
                assert(sum_times(g.drop_last()) == 0);
                assert(groups_view(result@) =~= old_result.push(g));
                assert(flatten(old_result) + current@ =~= flatten(old_result));
                lemma_push_group(old_result, g, n, tot);
                assert(flatten(groups_view(result@)) + current@ =~= s.take(i + 1));
            }
        } else {
            let ghost old_current = current@;
            proof {
                if current_sum == 0 {
                    assert((current_sum + item.time) * n == item.time * n);
                } else {
                    assert(!full);
                }
            }
            current_sum = current_sum + item.time;
            current.push(item);
            proof {
                assert(current@.drop_last() =~= old_current);
                assert(sum_times(current@) == sum_times(old_current) + item.time);
                assert(flatten(groups_view(result@)) + current@ =~= s.take(i + 1));
                if old_current.len() > 0 {
                    assert(current@[0] == old_current[0]);
                } else {
                    assert(current@[0] == item);
                }
            }
        }
        i = i + 1;
    }
    assert(s.take(s.len() as int) =~= s);
    if current.len() > 0 {
        let ghost old_result = groups_view(result@);
        let ghost old_current = current@;
        result.push(current);
        proof {
            assert(groups_view(result@) =~= old_result.push(old_current));
            lemma_push_group(old_result, old_current, n, tot);
        }
    } else {
        assert(flatten(groups_view(result@)) + current@ =~= flatten(groups_view(result@)));
    }
    proof {
        let gv = groups_view(result@);
        assert forall|j: int| 0 <= j < result.len() implies #[trigger] result[j].len() > 0 by {
            assert(well_formed_group(gv[j], n, tot));
        }
        assert forall|j: int, k: int|
            0 <= j < result.len() && 0 <= k < result[j].len() && oversized(
                #[trigger] result[j][k],
                n,
                tot,
            ) implies result[j].len() == 1 by {
            assert(well_formed_group(gv[j], n, tot));
            assert(gv[j][k] == result[j][k]);
        }
    }
    result
}

// ---------------------------------------------------------------------------
// Totals by first letter
// ---------------------------------------------------------------------------

/// Index just after the last `.` of `s`, or 0 where `s` holds none.
pub open spec fn last_dot_end(s: Seq<char>) -> int
    decreases s.len(),
{
    if s.len() == 0 {
        0
    } else if s.last() == '.' {
        s.len() as int
    } else {
        last_dot_end(s.drop_last())
    }
}

/// The category key of a suite name: the first character of the part after
/// the last `.`, or `'0'` where that part is empty.
pub open spec fn key_of(name: Seq<char>) -> char {
    let start = last_dot_end(name);
    if start < name.len() {
        name[start]
    } else {
        '0'
    }
}

/// One of the 26 letters that always have a total.
pub open spec fn is_canonical_letter(k: char) -> bool {
    'A' <= k <= 'Z'
}

/// Sum of the durations of a sequence of suites.
pub open spec fn suites_time(s: Seq<TestSuite>) -> nat
    decreases s.len(),
{
    if s.len() == 0 {
        0
    } else {
        suites_time(s.drop_last()) + s.last().time as nat
    }
}

/// Sum of the durations of the suites whose key is `k`.
pub open spec fn letter_time(s: Seq<TestSuite>, k: char) -> nat
    decreases s.len(),
{
    if s.len() == 0 {
        0
    } else {
        letter_time(s.drop_last(), k) + if key_of(s.last().name@) == k {
            s.last().time as nat
        } else {
            0
        }
    }
}

/// Some suite of `s` has the key `k`.
pub open spec fn key_occurs(s: Seq<TestSuite>, k: char) -> bool {
    exists|i: int| 0 <= i < s.len() && key_of(#[trigger] s[i].name@) == k
}

/// Some total of `r` is for the letter `k`.
pub open spec fn has_letter(r: Seq<TimeByLetter>, k: char) -> bool {
    exists|i: int| 0 <= i < r.len() && #[trigger] r[i].letter == k
}

/// `r` holds the totals of `suites`: one per canonical letter and one per key
/// that occurs, in ascending order of key, each the sum of the durations of
/// the suites with that key.
pub open spec fn letter_totals(suites: Seq<TestSuite>, r: Seq<TimeByLetter>) -> bool {
    &&& forall|i: int, j: int| 0 <= i < j < r.len() ==> #[trigger] r[i].letter < #[trigger] r[j].letter
    &&& forall|k: char| #[trigger]
        has_letter(r, k) <==> (is_canonical_letter(k) || key_occurs(suites, k))
    &&& forall|i: int| 0 <= i < r.len() ==> #[trigger] r[i].time == letter_time(suites, r[i].letter)
}

proof fn lemma_suites_time_prefix(s: Seq<TestSuite>, i: int)
    requires
        0 <= i <= s.len(),
    ensures
        suites_time(s.take(i)) <= suites_time(s),
    decreases s.len() - i,
{
    if i < s.len() {
        assert(s.take(i + 1).drop_last() =~= s.take(i));
        lemma_suites_time_prefix(s, i + 1);
    }
    else {
        assert(s.take(i) =~= s);
    }
}

proof fn lemma_letter_time_absent(s: Seq<TestSuite>, k: char)
    requires
        !key_occurs(s, k),
    ensures
        letter_time(s, k) == 0,
    decreases s.len(),
{
    if s.len() > 0 {
        let t = s.drop_last();
        assert(!key_occurs(t, k)) by {
            if key_occurs(t, k) {
                let i = choose|i: int| 0 <= i < t.len() && key_of(#[trigger] t[i].name@) == k;
                assert(s[i] == t[i]);
            }
        }
        lemma_letter_time_absent(t, k);
        assert(key_of(s[s.len() - 1].name@) != k);
    }
}

proof fn lemma_sum_times_update(s: Seq<TimeByLetter>, j: int, x: TimeByLetter)
    requires
        0 <= j < s.len(),
    ensures
        sum_times(s.update(j, x)) + s[j].time == sum_times(s) + x.time,
    decreases s.len(),
{
    let u = s.update(j, x);
    if j == s.len() - 1 {
        assert(u.drop_last() =~= s.drop_last());
    } else {
        assert(u.drop_last() =~= s.drop_last().update(j, x));
        lemma_sum_times_update(s.drop_last(), j, x);
    }
}

proof fn lemma_sum_times_insert(s: Seq<TimeByLetter>, j: int, x: TimeByLetter)
    requires
        0 <= j <= s.len(),
    ensures
        sum_times(s.insert(j, x)) == sum_times(s) + x.time,
    decreases s.len(),
{
    let u = s.insert(j, x);
    if j == s.len() {
        assert(u.drop_last() =~= s);
    } else {
        assert(u.drop_last() =~= s.drop_last().insert(j, x));
        lemma_sum_times_insert(s.drop_last(), j, x);
    }
}

/// Index just after the last `.` of `s`, or 0 where `s` holds none.
pub fn after_last_dot(s: &str) -> (r: usize)
    ensures
        r as int == last_dot_end(s@),
        r <= s@.len(),
{
    let len = s.unicode_len();
    let mut start: usize = 0;
    let mut i: usize = 0;
    while i < len
        invariant
            len == s@.len(),
            i <= len,
            start as int == last_dot_end(s@.take(i as int)),
            start <= i,
        decreases len - i,
    {
        proof {
            assert(s@.take(i + 1).drop_last() =~= s@.take(i as int));
        }
        if s.get_char(i) == '.' {
            start = i + 1;
        }
        i = i + 1;
    }
    assert(s@.take(len as int) =~= s@);
    start
}

/// The key of a suite name: the first character of the class name, which
/// follows the last `.`, or `'0'` where the class name is empty.
pub fn first_letter(name: &str) -> (r: char)
    ensures
        r == key_of(name@),
{
    let start = after_last_dot(name);
    if start < name.unicode_len() {
        name.get_char(start)
    } else {
        '0'
    }
}

/// Sum of the durations of `test_suites`.
pub fn duration(test_suites: &Vec<TestSuite>) -> (r: u64)
    requires
        suites_time(test_suites@) <= u64::MAX,
    ensures
        r == suites_time(test_suites@),
{
    let ghost s = test_suites@;
    let mut total: u64 = 0;
    let mut i: usize = 0;
    while i < test_suites.len()
        invariant
            i <= s.len(),
            s == test_suites@,
            suites_time(s) <= u64::MAX,
            total == suites_time(s.take(i as int)),
        decreases s.len() - i,
    {
        proof {
            assert(s.take(i + 1).drop_last() =~= s.take(i as int));
            lemma_suites_time_prefix(s, i + 1);
        }
        total = total + test_suites[i].time;
        i = i + 1;
    }
    assert(s.take(s.len() as int) =~= s);
    total
}

/// Counts one more suite into the totals `acc` of the suites `s`: adds its
/// duration to the total for its key, or inserts a total for that key in its
/// place by order.
fn add_suite(acc: &mut Vec<TimeByLetter>, suite: &TestSuite, Ghost(s): Ghost<Seq<TestSuite>>)
    requires
        letter_totals(s, old(acc)@),
        sum_times(old(acc)@) == suites_time(s),
        suites_time(s) + suite.time <= u64::MAX,
    ensures
        letter_totals(s.push(*suite), final(acc)@),
        sum_times(final(acc)@) == suites_time(s.push(*suite)),
{
    let ghost s2 = s.push(*suite);
    let ghost a = acc@;
    let key = first_letter(suite.name.as_str());
    proof {
        assert(s2.drop_last() =~= s);
        assert(s2.last() == *suite);
        assert forall|k: char| key_occurs(s2, k) <==> (key_occurs(s, k) || k == key) by {
            if key_occurs(s, k) {
                let i = choose|i: int| 0 <= i < s.len() && key_of(#[trigger] s[i].name@) == k;
                assert(s2[i] == s[i]);
            }
            if k == key {
                assert(key_of(s2[s.len() as int].name@) == k);
            }
            if key_occurs(s2, k) && k != key {
                let i = choose|i: int| 0 <= i < s2.len() && key_of(#[trigger] s2[i].name@) == k;
                assert(s2[i] == s[i]);
            }
        }
        assert forall|k: char| k != key implies letter_time(s2, k) == letter_time(s, k) by {}
        assert(letter_time(s2, key) == letter_time(s, key) + suite.time);
    }
    let mut j: usize = 0;
    while j < acc.len() && acc[j].letter < key
        invariant
            j <= acc.len(),
            acc@ == a,
            forall|m: int| 0 <= m < j ==> #[trigger] a[m].letter < key,
        decreases acc.len() - j,
    {
        j = j + 1;
    }
    if j < acc.len() && acc[j].letter == key {
        proof {
            lemma_sum_times_element(a, j as int);
        }
        let updated = TimeByLetter::new(acc[j].time + suite.time, key);
        acc.set(j, updated);
        proof {
            lemma_sum_times_update(a, j as int, updated);
            let b = acc@;
            assert forall|k: char| #[trigger] has_letter(b, k) <==> has_letter(a, k) by {
                if has_letter(a, k) {
                    let i = choose|i: int| 0 <= i < a.len() && #[trigger] a[i].letter == k;
                    assert(b[i].letter == k);
                }
                if has_letter(b, k) {
                    let i = choose|i: int| 0 <= i < b.len() && #[trigger] b[i].letter == k;
                    assert(a[i].letter == k);
                }
            }
            assert forall|i: int| 0 <= i < b.len() implies #[trigger] b[i].time == letter_time(
                s2,
                b[i].letter,
            ) by {
                if i != j {
                    assert(b[i] == a[i]);
                }
            }
        }
    } else {
        proof {
            assert(!has_letter(a, key)) by {
                if has_letter(a, key) {
                    let i = choose|i: int| 0 <= i < a.len() && #[trigger] a[i].letter == key;
                    if i < j {
                    } else {
                        assert(a[j as int].letter <= a[i].letter);
                    }
                }
            }
            lemma_letter_time_absent(s, key);
        }
        let fresh = TimeByLetter::new(suite.time, key);
        acc.insert(j, fresh);
        proof {
            lemma_sum_times_insert(a, j as int, fresh);
            let b = acc@;
            assert forall|k: char| #[trigger] has_letter(b, k) <==> (has_letter(a, k) || k == key) by {
                if has_letter(a, k) {
                    let i = choose|i: int| 0 <= i < a.len() && #[trigger] a[i].letter == k;
                    if i < j {
                        assert(b[i].letter == k);
                    } else {
                        assert(b[i + 1].letter == k);
                    }
                }
                if k == key {
                    assert(b[j as int].letter == k);
                }
                if has_letter(b, k) && k != key {
                    let i = choose|i: int| 0 <= i < b.len() && #[trigger] b[i].letter == k;
                    if i < j {
                        assert(a[i].letter == k);
                    } else {
                        assert(a[i - 1].letter == k);
                    }
                }
            }
            assert forall|i: int| 0 <= i < b.len() implies #[trigger] b[i].time == letter_time(
                s2,
                b[i].letter,
            ) by {
                if i < j {
                    assert(b[i] == a[i]);
                } else if i > j {
                    assert(b[i] == a[i - 1]);
                }
            }
            assert forall|m: int, n: int| 0 <= m < n < b.len() implies #[trigger] b[m].letter
                < #[trigger] b[n].letter by {
                if n < j {
                    assert(b[m] == a[m] && b[n] == a[n]);
                } else if n == j {
                    assert(b[m] == a[m]);
                } else if m < j {
                    assert(b[m] == a[m] && b[n] == a[n - 1]);
                    assert(a[j as int].letter <= a[n - 1].letter);
                } else if m == j {
                    assert(b[n] == a[n - 1]);
                    assert(a[j as int].letter <= a[n - 1].letter);
                } else {
                    assert(b[m] == a[m - 1] && b[n] == a[n - 1]);
                }
            }
        }
    }
}

/// Totals the durations of the suites by the first letter of their class
/// name: one total for each letter `A` to `Z`, zero where no suite has it,
/// and one for each other key that occurs, in ascending order of key.
pub fn group_by_first_letter(vec: Vec<TestSuite>) -> (r: Vec<TimeByLetter>)
    requires
        suites_time(vec@) <= u64::MAX,
    ensures
        letter_totals(vec@, r@),
        sum_times(r@) == suites_time(vec@),
{
    let mut acc: Vec<TimeByLetter> = Vec::new();
    let mut c: u8 = 0;
    while c < 26
        invariant
            c <= 26,
            acc.len() == c,
            forall|m: int| 0 <= m < c ==> #[trigger] acc[m].letter as int == 65 + m,
            forall|m: int| 0 <= m < c ==> #[trigger] acc[m].time == 0,
            sum_times(acc@) == 0,
        decreases 26 - c,
    {
        let ghost a = acc@;
        acc.push(TimeByLetter::new(0, (65u8 + c) as char));
        proof {
            assert(acc@.drop_last() =~= a);
        }
        c = c + 1;
    }
    let ghost empty = Seq::<TestSuite>::empty();
    assert(vec@.take(0) =~= empty);
    proof {
        assert forall|k: char| #[trigger]
            has_letter(acc@, k) <==> (is_canonical_letter(k) || key_occurs(empty, k)) by {
            if is_canonical_letter(k) {
                let m = k as int - 65;
                assert(acc@[m].letter == k);
            }
        }
        assert forall|i: int| 0 <= i < acc.len() implies #[trigger] acc@[i].time == letter_time(
            empty,
            acc@[i].letter,
        ) by {
            assert(acc[i].time == 0);
        }
    }
    let ghost s = vec@;
    let mut i: usize = 0;
    while i < vec.len()
        invariant
            i <= s.len(),
            s == vec@,
            suites_time(s) <= u64::MAX,
            letter_totals(s.take(i as int), acc@),
            sum_times(acc@) == suites_time(s.take(i as int)),
        decreases s.len() - i,
    {
        proof {
            assert(s.take(i + 1) =~= s.take(i as int).push(s[i as int]));
            assert(s.take(i + 1).drop_last() =~= s.take(i as int));
            lemma_suites_time_prefix(s, i + 1);
        }
        add_suite(&mut acc, &vec[i], Ghost(s.take(i as int)));
        i = i + 1;
    }
    assert(s.take(s.len() as int) =~= s);
    acc
}

} // verus!
