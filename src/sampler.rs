use vstd::prelude::*;
use crate::aggregate::{Vote, percentages, calc_result};
use crate::decay::{melting_rate_of, result_interval_of, get_melting_rate, get_result_interval};

verus! {

/// Number of samples in each result series.
pub const SERIES_LEN: u64 = 60;

/// Ratio between the sample spacing of the long series and of the short one.
pub const LONG_STRIDE: u64 = 24;

/// A poll: its choices, in order, and the difficulty class that sets how
/// fast its votes fade and how far apart its samples lie.
#[derive(Debug)]
pub struct Theme {
    pub theme_id: u64,
    pub choices: Vec<String>,
    pub dr_class: u64,
}

/// The shares of a theme's choices at one instant, in units of 0.0001 %;
/// `None` where no vote counted at that instant.
#[derive(Debug, PartialEq)]
pub struct Transition {
    pub timestamp: u64,
    pub percentage: Vec<Option<u64>>,
}

/// The result for one theme: the current shares and two look-back series,
/// most recent sample first.
#[derive(Debug, PartialEq)]
pub struct Response {
    pub theme_id: u64,
    pub percentage: Vec<Option<u64>>,
    pub short_transition: Vec<Transition>,
    pub long_transition: Vec<Transition>,
}

/// A batch of themes with the votes of all of them.
#[derive(Debug)]
pub struct Request {
    pub themes: Vec<Theme>,
    pub votes: Vec<Vote>,
}

#[derive(Clone, Copy, Debug, PartialEq, Eq)]
pub enum PollError {
    /// A vote of this theme names a choice that the theme does not have.
    AnswerOutOfRange { theme_id: u64 },
}

/// Every vote of the theme names one of its `n` choices.
pub open spec fn answers_in_range(votes: Seq<Vote>, theme_id: u64, n: nat) -> bool {
    forall|i: int| 0 <= i < votes.len() && (#[trigger] votes[i]).theme_id == theme_id ==> votes[i].answer < n
}

/// The votes of the theme, in their order.
pub open spec fn theme_votes(votes: Seq<Vote>, theme_id: u64) -> Seq<Vote>
    decreases votes.len(),
{
    if votes.len() == 0 {
        Seq::empty()
    } else {
        let rest = theme_votes(votes.drop_last(), theme_id);
        if votes.last().theme_id == theme_id {
            rest.push(votes.last())
        } else {
            rest
        }
    }
}

/// The instant `steps` sample spacings before `now`, or 0 where that lies
/// before the start of time.
pub open spec fn sample_time(now: u64, steps: nat, interval: u64) -> u64 {
    if steps * interval <= now {
        (now - steps * interval) as u64
    } else {
        0
    }
}

/// `series` holds the samples `0, stride, 2 * stride, ...` spacings back
/// from `now`, each with the shares at its instant.
pub open spec fn series_ok(
    series: Seq<Transition>,
    votes: Seq<Vote>,
    now: u64,
    interval: u64,
    melting_rate: u64,
    n: nat,
    stride: nat,
) -> bool {
    &&& series.len() == SERIES_LEN
    &&& forall|i: int|
        0 <= i < SERIES_LEN ==> {
            &&& (#[trigger] series[i]).timestamp == sample_time(now, (i * stride) as nat, interval)
            &&& series[i].percentage@ == percentages(votes, series[i].timestamp, melting_rate, n)
        }
}

/// The two series of a theme as `calc_transition` computes them.
pub open spec fn transitions_ok(
    short: Seq<Transition>,
    long: Seq<Transition>,
    theme: Theme,
    votes: Seq<Vote>,
    now: u64,
) -> bool {
    let tv = theme_votes(votes, theme.theme_id);
    let interval = result_interval_of(theme.dr_class);
    let rate = melting_rate_of(theme.dr_class);
    let n = theme.choices@.len();
    &&& series_ok(short, tv, now, interval, rate, n, 1)
    &&& series_ok(long, tv, now, interval, rate, n, LONG_STRIDE as nat)
}

fn sample_series(
    now: u64,
    stride: u64,
    interval: u64,
    melting_rate: u64,
    n: usize,
    votes: &Vec<Vote>,
) -> (r: Vec<Transition>)
    requires
        1 <= stride <= LONG_STRIDE,
        interval <= 32_400_000,
        melting_rate > 0,
    ensures
        series_ok(r@, votes@, now, interval, melting_rate, n as nat, stride as nat),
{
    let mut out: Vec<Transition> = Vec::new();
    let mut i: u64 = 0;
    while i < SERIES_LEN
        invariant
            i <= SERIES_LEN,
            1 <= stride <= LONG_STRIDE,
            interval <= 32_400_000,
            melting_rate > 0,
            out@.len() == i,
            forall|k: int|
                0 <= k < i ==> {
                    &&& (#[trigger] out@[k]).timestamp == sample_time(now, (k * stride) as nat, interval)
                    &&& out@[k].percentage@ == percentages(votes@, out@[k].timestamp, melting_rate, n as nat)
                },
        decreases SERIES_LEN - i,
    {
        assert(i * stride <= 60 * 24) by (nonlinear_arith)
            requires
                i < 60,
                stride <= 24,
        ;
        assert(i * stride * interval <= 60 * 24 * 32_400_000) by (nonlinear_arith)
            requires
                i < 60,
                stride <= 24,
                interval <= 32_400_000,
        ;
        let offset: u64 = i * stride * interval;
        let timestamp: u64 = if offset <= now {
            now - offset
        } else {
            0
        };
        assert(offset == (i * stride) as nat * interval) by (nonlinear_arith)
            requires
                offset == i * stride * interval,
        ;
        let percentage = calc_result(timestamp, melting_rate, n, votes);
        out.push(Transition { timestamp, percentage });
        i += 1;
    }
    out
}

/// The two look-back series of a theme: 60 samples each, most recent first,
/// one result interval apart in the short series and 24 apart in the long
/// one. Only the votes of the theme count; a vote of the theme that names no
/// choice of it is refused.
pub fn calc_transition(now: u64, theme: &Theme, votes: &Vec<Vote>) -> (r: Result<
    (Vec<Transition>, Vec<Transition>),
    PollError,
>)
    ensures
        r is Ok <==> answers_in_range(votes@, theme.theme_id, theme.choices@.len()),
        match r {
            Ok((short, long)) => {
                &&& transitions_ok(short@, long@, *theme, votes@, now)
                &&& short@[0].timestamp == now
                &&& long@[0].timestamp == now
                &&& short@[0].percentage@ == long@[0].percentage@
            },
            Err(e) => e == PollError::AnswerOutOfRange { theme_id: theme.theme_id },
        },
{
    let result_interval = get_result_interval(theme.dr_class);
    let melting_rate = get_melting_rate(theme.dr_class);
    let n = theme.choices.len();
    let mut cur_votes: Vec<Vote> = Vec::new();
    let mut i: usize = 0;
    while i < votes.len()
        invariant
            i <= votes@.len(),
            n == theme.choices@.len(),
            cur_votes@ == theme_votes(votes@.take(i as int), theme.theme_id),
            answers_in_range(votes@.take(i as int), theme.theme_id, n as nat),
        decreases votes@.len() - i,
    {
        let v = votes[i];
        proof {
            assert(votes@.take(i + 1).drop_last() =~= votes@.take(i as int));
        }
        if v.theme_id == theme.theme_id {
            if v.answer as u128 >= n as u128 {
                proof {
                    assert(votes@[i as int] == v);
                }
                return Err(PollError::AnswerOutOfRange { theme_id: theme.theme_id });
            }
            cur_votes.push(v);
        }
        proof {
            let t1 = votes@.take(i + 1);
            assert forall|k: int| 0 <= k < t1.len() && (#[trigger] t1[k]).theme_id == theme.theme_id implies t1[k].answer < n by {
                if k < i {
                    assert(t1[k] == votes@.take(i as int)[k]);
                }
            }
        }
        i += 1;
    }
    assert(votes@.take(votes@.len() as int) =~= votes@);
    let short = sample_series(now, 1, result_interval, melting_rate, n, &cur_votes);
    let long = sample_series(now, LONG_STRIDE, result_interval, melting_rate, n, &cur_votes);
    assert(short@[0].timestamp == sample_time(now, 0, result_interval));
    assert(long@[0].timestamp == sample_time(now, 0, result_interval));
    Ok((short, long))
}

} // verus!
