use vstd::prelude::*;
use vstd::arithmetic::div_mod::{lemma_div_is_ordered, lemma_div_by_multiple, lemma_fundamental_div_mod, lemma_mod_pos_bound};
use crate::decay::{WEIGHT_UNIT, weight_units, eval_formula};

verus! {

/// A whole percentage (100 %) in share units: one unit is 0.0001 %.
pub const SHARE_SCALE: u128 = 1_000_000;

/// One vote for a choice of a theme, valid from `created_at` until
/// `expired_at` (ms); an `expired_at` of 0 means that it never expires.
#[derive(Clone, Copy, Debug, PartialEq, Eq)]
pub struct Vote {
    pub theme_id: u64,
    pub answer: u64,
    pub created_at: u64,
    pub expired_at: u64,
}

/// Whether the vote counts at instant `now`.
pub open spec fn valid_at(v: Vote, now: u64) -> bool {
    v.created_at <= now && (v.expired_at == 0 || v.expired_at > now)
}

/// Weight of the vote at `now`, for a vote created no later than `now`.
pub open spec fn vote_weight(v: Vote, now: u64, melting_rate: u64) -> nat {
    weight_units(((now - v.created_at) / (melting_rate as int)) as nat)
}

/// What the vote adds to choice `c` at `now`.
pub open spec fn contribution(v: Vote, now: u64, melting_rate: u64, c: nat) -> nat {
    if valid_at(v, now) && v.answer == c {
        vote_weight(v, now, melting_rate)
    } else {
        0
    }
}

/// Total weight that the votes give to choice `c` at `now`.
pub open spec fn tally(votes: Seq<Vote>, now: u64, melting_rate: u64, c: nat) -> nat
    decreases votes.len(),
{
    if votes.len() == 0 {
        0
    } else {
        tally(votes.drop_last(), now, melting_rate, c) + contribution(votes.last(), now, melting_rate, c)
    }
}

/// The tallies of the first `n` choices.
pub open spec fn tallies(votes: Seq<Vote>, now: u64, melting_rate: u64, n: nat) -> Seq<nat> {
    Seq::new(n, |c: int| tally(votes, now, melting_rate, c as nat))
}

pub open spec fn seq_sum(s: Seq<nat>) -> nat
    decreases s.len(),
{
    if s.len() == 0 {
        0
    } else {
        seq_sum(s.drop_last()) + s.last()
    }
}

/// `b / total` as a percentage in share units, rounded half up.
pub open spec fn rounded_share(b: nat, total: nat) -> nat {
    let (b, total) = (b as int, total as int);
    ((2 * b * SHARE_SCALE + total) / (2 * total)) as nat
}

/// The share of each of the `n` choices at `now`; every entry is `None`
/// (undefined, 0 / 0) when the tallies add up to nothing.
pub open spec fn percentages(votes: Seq<Vote>, now: u64, melting_rate: u64, n: nat) -> Seq<Option<u64>> {
    let t = tallies(votes, now, melting_rate, n);
    let total = seq_sum(t);
    Seq::new(
        n,
        |j: int|
            if total == 0 {
                None
            } else {
                Some(rounded_share(t[j], total) as u64)
            },
    )
}

proof fn lemma_seq_sum_update(s: Seq<nat>, j: int, x: nat)
    requires
        0 <= j < s.len(),
    ensures
        seq_sum(s.update(j, s[j] + x)) == seq_sum(s) + x,
    decreases s.len(),
{
    let u = s.update(j, s[j] + x);
    if j == s.len() - 1 {
        assert(u.drop_last() =~= s.drop_last());
    } else {
        lemma_seq_sum_update(s.drop_last(), j, x);
        assert(u.drop_last() =~= s.drop_last().update(j, s[j] + x));
    }
}

proof fn lemma_seq_sum_prefix(s: Seq<nat>, j: int)
    requires
        0 <= j <= s.len(),
    ensures
        seq_sum(s.take(j)) <= seq_sum(s),
        j < s.len() ==> seq_sum(s.take(j + 1)) == seq_sum(s.take(j)) + s[j],
        j < s.len() ==> s[j] <= seq_sum(s),
    decreases s.len(),
{
    if j < s.len() {
        assert(s.take(j + 1).drop_last() =~= s.take(j));
        if j + 1 < s.len() {
            lemma_seq_sum_prefix(s.drop_last(), j + 1);
            assert(s.drop_last().take(j + 1) =~= s.take(j + 1));
        } else {
            assert(s.take(j + 1) =~= s);
        }
    } else {
        assert(s.take(j) =~= s);
    }
}

proof fn lemma_seq_sum_zeros(s: Seq<nat>)
    requires
        forall|j: int| 0 <= j < s.len() ==> s[j] == 0,
    ensures
        seq_sum(s) == 0,
    decreases s.len(),
{
    if s.len() > 0 {
        lemma_seq_sum_zeros(s.drop_last());
    }
}

/// Adding a vote changes the tallies of the first `n` choices only at its answer.
proof fn lemma_tallies_push(votes: Seq<Vote>, v: Vote, now: u64, melting_rate: u64, n: nat)
    ensures
        (valid_at(v, now) && v.answer < n) ==> tallies(votes.push(v), now, melting_rate, n)
            =~= tallies(votes, now, melting_rate, n).update(
            v.answer as int,
            tally(votes, now, melting_rate, v.answer as nat) + vote_weight(v, now, melting_rate),
        ),
        !(valid_at(v, now) && v.answer < n) ==> tallies(votes.push(v), now, melting_rate, n)
            =~= tallies(votes, now, melting_rate, n),
{
    assert(votes.push(v).drop_last() =~= votes);
}

/// The tallies of the first `n` choices add up to at most one unit per vote.
proof fn lemma_total_bound(votes: Seq<Vote>, now: u64, melting_rate: u64, n: nat)
    ensures
        seq_sum(tallies(votes, now, melting_rate, n)) <= votes.len() * WEIGHT_UNIT,
    decreases votes.len(),
{
    if votes.len() == 0 {
        lemma_seq_sum_zeros(tallies(votes, now, melting_rate, n));
    } else {
        let pre = votes.drop_last();
        let v = votes.last();
        assert(pre.push(v) =~= votes);
        lemma_total_bound(pre, now, melting_rate, n);
        lemma_tallies_push(pre, v, now, melting_rate, n);
        assert(pre.len() * WEIGHT_UNIT + WEIGHT_UNIT == votes.len() * WEIGHT_UNIT) by (nonlinear_arith)
            requires
                pre.len() + 1 == votes.len(),
        ;
        if valid_at(v, now) && v.answer < n {
            crate::decay::lemma_weight_non_increasing(
                ((now - v.created_at) / (melting_rate as int)) as nat,
                ((now - v.created_at) / (melting_rate as int)) as nat,
            );
            lemma_seq_sum_update(
                tallies(pre, now, melting_rate, n),
                v.answer as int,
                vote_weight(v, now, melting_rate),
            );
        }
    }
}

/// Bound on the weight of as many votes as a `Vec` can hold.
pub open spec fn max_total() -> int {
    18_446_744_073_709_551_616_000_000_000_000
}

proof fn lemma_count_fits(len: nat)
    requires
        len <= usize::MAX + 1,
    ensures
        len * WEIGHT_UNIT <= max_total(),
{
    assert(usize::MAX <= u64::MAX);
    assert(len * WEIGHT_UNIT <= max_total()) by (nonlinear_arith)
        requires
            len <= u64::MAX + 1,
    ;
}

/// A share of a part of the total is at most 100 %.
proof fn lemma_share_bound(b: nat, total: nat)
    requires
        0 < total,
        b <= total,
    ensures
        rounded_share(b, total) <= SHARE_SCALE,
{
    let (nb, nt) = (b, total);
    let b: int = nb as int;
    let total: int = nt as int;
    let x: int = 2 * b * SHARE_SCALE + total;
    let y: int = (2 * SHARE_SCALE) * (2 * total);
    assert(x <= y) by (nonlinear_arith)
        requires
            0 <= b <= total,
            0 < total,
            x == 2 * b * SHARE_SCALE + total,
            y == (2 * SHARE_SCALE) * (2 * total),
    ;
    lemma_div_is_ordered(x, y, 2 * total);
    lemma_div_by_multiple(2 * SHARE_SCALE, 2 * total);
    assert(x / (2 * total) <= 2 * SHARE_SCALE);
    lemma_fundamental_div_mod(x, 2 * total);
    lemma_mod_pos_bound(x, 2 * total);
    let q = x / (2 * total);
    assert(q <= SHARE_SCALE) by (nonlinear_arith)
        requires
            x == (2 * total) * q + x % (2 * total),
            0 <= x % (2 * total),
            x <= 2 * b * SHARE_SCALE + total,
            b <= total,
            0 < total,
    ;
}

/// Current share of each of `num_of_choices` choices at `now`: the votes
/// valid at `now` add their weight to the choice they name, and each total
/// is divided by the sum of all of them. A vote whose answer names no choice
/// adds nothing.
pub fn calc_result(now: u64, melting_rate: u64, num_of_choices: usize, votes: &Vec<Vote>) -> (r: Vec<Option<u64>>)
    requires
        melting_rate > 0,
    ensures
        r@ == percentages(votes@, now, melting_rate, num_of_choices as nat),
{
    let n = num_of_choices;
    let mut points: Vec<u128> = Vec::new();
    let mut c: usize = 0;
    while c < n
        invariant
            c <= n,
            points@.len() == c,
            forall|j: int| 0 <= j < c ==> points@[j] == 0,
        decreases n - c,
    {
        points.push(0);
        c += 1;
    }
    let mut i: usize = 0;
    while i < votes.len()
        invariant
            i <= votes@.len(),
            points@.len() == n,
            melting_rate > 0,
            forall|j: int| 0 <= j < n ==> points@[j] == tallies(votes@.take(i as int), now, melting_rate, n as nat)[j],
        decreases votes@.len() - i,
    {
        let v = votes[i];
        let ghost pre = votes@.take(i as int);
        proof {
            assert(votes@.take(i + 1) =~= pre.push(v));
            lemma_tallies_push(pre, v, now, melting_rate, n as nat);
            lemma_total_bound(votes@.take(i + 1), now, melting_rate, n as nat);
            lemma_count_fits((i + 1) as nat);
        }
        if v.created_at <= now && (v.expired_at == 0 || v.expired_at > now) && (v.answer as u128) < (n as u128) {
            let a = v.answer as usize;
            let elapsed: u64 = now - v.created_at;
            let w = eval_formula(elapsed, melting_rate);
            assert((elapsed / melting_rate) as int == (now - v.created_at) / (melting_rate as int));
            proof {
                lemma_seq_sum_prefix(tallies(votes@.take(i + 1), now, melting_rate, n as nat), a as int);
            }
            points.set(a, points[a] + w);
            assert(w == vote_weight(v, now, melting_rate));
        }
        assert(forall|j: int| 0 <= j < n ==> points@[j] == tallies(votes@.take(i + 1), now, melting_rate, n as nat)[j]);
        i += 1;
    }
    assert(votes@.take(votes@.len() as int) =~= votes@);
    let ghost t = tallies(votes@, now, melting_rate, n as nat);
    proof {
        lemma_total_bound(votes@, now, melting_rate, n as nat);
        lemma_count_fits(votes@.len());
    }
    let mut sum: u128 = 0;
    let mut j: usize = 0;
    while j < n
        invariant
            j <= n,
            points@.len() == n,
            t.len() == n,
            t == tallies(votes@, now, melting_rate, n as nat),
            forall|k: int| 0 <= k < n ==> points@[k] == t[k],
            sum == seq_sum(t.take(j as int)),
            seq_sum(t) <= votes@.len() * WEIGHT_UNIT,
            votes@.len() * WEIGHT_UNIT <= max_total(),
        decreases n - j,
    {
        proof {
            lemma_seq_sum_prefix(t, j as int);
            lemma_seq_sum_prefix(t, j + 1);
        }
        sum = sum + points[j];
        j += 1;
    }
    assert(t.take(n as int) =~= t);
    let mut out: Vec<Option<u64>> = Vec::new();
    let mut j: usize = 0;
    while j < n
        invariant
            j <= n,
            points@.len() == n,
            t.len() == n,
            t == tallies(votes@, now, melting_rate, n as nat),
            forall|k: int| 0 <= k < n ==> points@[k] == t[k],
            sum == seq_sum(t),
            sum <= votes@.len() * WEIGHT_UNIT,
            votes@.len() * WEIGHT_UNIT <= max_total(),
            out@.len() == j,
            forall|k: int| 0 <= k < j ==> out@[k] == percentages(votes@, now, melting_rate, n as nat)[k],
        decreases n - j,
    {
        if sum == 0 {
            out.push(None);
        } else {
            proof {
                lemma_seq_sum_prefix(t, j as int);
                lemma_share_bound(t[j as int], sum as nat);
            }
            let share = (2 * points[j] * SHARE_SCALE + sum) / (2 * sum);
            out.push(Some(share as u64));
        }
        assert(out@[j as int] == percentages(votes@, now, melting_rate, n as nat)[j as int]);
        j += 1;
    }
    assert(out@ =~= percentages(votes@, now, melting_rate, n as nat));
    out
}

/// A vote that is not valid at `now` leaves every share at `now` as it was.
proof fn lemma_invalid_vote_ignored(votes: Seq<Vote>, v: Vote, now: u64, melting_rate: u64, n: nat)
    requires
        !valid_at(v, now),
    ensures
        percentages(votes.push(v), now, melting_rate, n) == percentages(votes, now, melting_rate, n),
{
    lemma_tallies_push(votes, v, now, melting_rate, n);
    assert(percentages(votes.push(v), now, melting_rate, n) =~= percentages(votes, now, melting_rate, n));
}

/// A vote created after `now` does not change the result at `now`.
pub proof fn lemma_future_vote_ignored(votes: Seq<Vote>, v: Vote, now: u64, melting_rate: u64, n: nat)
    requires
        v.created_at > now,
    ensures
        percentages(votes.push(v), now, melting_rate, n) == percentages(votes, now, melting_rate, n),
{
    lemma_invalid_vote_ignored(votes, v, now, melting_rate, n);
}

/// A vote that expired at or before `now` does not change the result at `now`.
pub proof fn lemma_expired_vote_ignored(votes: Seq<Vote>, v: Vote, now: u64, melting_rate: u64, n: nat)
    requires
        v.expired_at != 0,
        v.expired_at <= now,
    ensures
        percentages(votes.push(v), now, melting_rate, n) == percentages(votes, now, melting_rate, n),
{
    lemma_invalid_vote_ignored(votes, v, now, melting_rate, n);
}

/// A vote without an expiry counts at every instant from its creation on:
/// it adds its weight to the choice it names and leaves the others alone.
pub proof fn lemma_unexpiring_vote_counts(votes: Seq<Vote>, v: Vote, now: u64, melting_rate: u64, n: nat)
    requires
        v.expired_at == 0,
        v.created_at <= now,
        v.answer < n,
    ensures
        valid_at(v, now),
        tallies(votes.push(v), now, melting_rate, n) == tallies(votes, now, melting_rate, n).update(
            v.answer as int,
            tally(votes, now, melting_rate, v.answer as nat) + vote_weight(v, now, melting_rate),
        ),
{
    lemma_tallies_push(votes, v, now, melting_rate, n);
}

/// Sum of the defined entries of a share vector.
pub open spec fn share_sum(p: Seq<Option<u64>>) -> int
    decreases p.len(),
{
    if p.len() == 0 {
        0
    } else {
        share_sum(p.drop_last()) + match p.last() {
            Some(x) => x as int,
            None => 0,
        }
    }
}

proof fn lemma_share_prefix(votes: Seq<Vote>, now: u64, melting_rate: u64, n: nat, k: int)
    requires
        0 <= k <= n,
        seq_sum(tallies(votes, now, melting_rate, n)) > 0,
    ensures
        ({
            let t = tallies(votes, now, melting_rate, n);
            let total: int = seq_sum(t) as int;
            let pk = share_sum(percentages(votes, now, melting_rate, n).take(k));
            let bk: int = seq_sum(t.take(k)) as int;
            &&& 2 * total * pk <= 2 * SHARE_SCALE * bk + k * total
            &&& 2 * SHARE_SCALE * bk - k * total + k <= 2 * total * pk
        }),
    decreases k,
{
    let t = tallies(votes, now, melting_rate, n);
    let p = percentages(votes, now, melting_rate, n);
    let total: int = seq_sum(t) as int;
    if k == 0 {
        assert(p.take(0) =~= Seq::<Option<u64>>::empty());
        assert(t.take(0) =~= Seq::<nat>::empty());
    } else {
        lemma_share_prefix(votes, now, melting_rate, n, k - 1);
        assert(p.take(k).drop_last() =~= p.take(k - 1));
        lemma_seq_sum_prefix(t, k - 1);
        let b: int = t[k - 1] as int;
        lemma_share_bound(t[k - 1], seq_sum(t));
        let sh: int = rounded_share(t[k - 1], seq_sum(t)) as int;
        let x: int = 2 * b * SHARE_SCALE + total;
        lemma_fundamental_div_mod(x, 2 * total);
        lemma_mod_pos_bound(x, 2 * total);
        assert(sh == x / (2 * total));
        let pk1 = share_sum(p.take(k - 1));
        let bk1: int = seq_sum(t.take(k - 1)) as int;
        assert(share_sum(p.take(k)) == pk1 + sh);
        assert(seq_sum(t.take(k)) == bk1 + b);
        assert({
            &&& 2 * total * (pk1 + sh) <= 2 * SHARE_SCALE * (bk1 + b) + k * total
            &&& 2 * SHARE_SCALE * (bk1 + b) - k * total + k <= 2 * total * (pk1 + sh)
        }) by (nonlinear_arith)
            requires
                2 * total * pk1 <= 2 * SHARE_SCALE * bk1 + (k - 1) * total,
                2 * SHARE_SCALE * bk1 - (k - 1) * total + (k - 1) <= 2 * total * pk1,
                x == (2 * total) * sh + x % (2 * total),
                0 <= x % (2 * total) < 2 * total,
                x == 2 * b * SHARE_SCALE + total,
        ;
    }
}

/// Whenever some vote counts, every share is defined and the shares add up
/// to 100 % up to rounding: at most half a unit (0.0001 %) per choice off.
pub proof fn lemma_shares_sum_to_whole(votes: Seq<Vote>, now: u64, melting_rate: u64, n: nat)
    requires
        seq_sum(tallies(votes, now, melting_rate, n)) > 0,
    ensures
        forall|j: int| 0 <= j < n ==> (#[trigger] percentages(votes, now, melting_rate, n)[j]).is_some(),
        2 * share_sum(percentages(votes, now, melting_rate, n)) <= 2 * SHARE_SCALE + n,
        2 * SHARE_SCALE < 2 * share_sum(percentages(votes, now, melting_rate, n)) + n,
{
    let t = tallies(votes, now, melting_rate, n);
    let p = percentages(votes, now, melting_rate, n);
    let total: int = seq_sum(t) as int;
    lemma_share_prefix(votes, now, melting_rate, n, n as int);
    assert(p.take(n as int) =~= p);
    assert(t.take(n as int) =~= t);
    let s = share_sum(p);
    if n == 0 {
        assert(t =~= Seq::<nat>::empty());
    }
    let y: int = 2 * s - 2 * SHARE_SCALE - n;
    let z: int = 2 * s + n - 2 * SHARE_SCALE;
    assert(total * y <= 0) by (nonlinear_arith)
        requires
            y == 2 * s - 2 * SHARE_SCALE - n,
            2 * total * s <= 2 * SHARE_SCALE * total + n * total,
    ;
    assert(total * z >= n) by (nonlinear_arith)
        requires
            z == 2 * s + n - 2 * SHARE_SCALE,
            2 * SHARE_SCALE * total - n * total + n <= 2 * total * s,
    ;
    assert(y <= 0) by (nonlinear_arith)
        requires
            total > 0,
            total * y <= 0,
    ;
    assert(z > 0) by (nonlinear_arith)
        requires
            total > 0,
            n > 0,
            total * z >= n,
    ;
}

} // verus!
