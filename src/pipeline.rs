use vstd::prelude::*;
use crate::aggregate::Vote;
use crate::sampler::{
    PollError, Request, Response, Theme, Transition, answers_in_range, calc_transition,
    transitions_ok,
};

verus! {

/// `r` is the result for `theme`: its two series and, as current shares,
/// the first sample of the short series.
pub open spec fn response_ok(r: Response, theme: Theme, votes: Seq<Vote>, now: u64) -> bool {
    &&& r.theme_id == theme.theme_id
    &&& transitions_ok(r.short_transition@, r.long_transition@, theme, votes, now)
    &&& r.percentage@ == r.short_transition@[0].percentage@
    &&& r.percentage@ == r.long_transition@[0].percentage@
}

/// The theme at `i` is the first one with a vote that names no choice of it.
pub open spec fn first_bad_theme(themes: Seq<Theme>, votes: Seq<Vote>, i: int) -> bool {
    &&& 0 <= i < themes.len()
    &&& !answers_in_range(votes, themes[i].theme_id, themes[i].choices@.len())
    &&& forall|j: int|
        0 <= j < i ==> answers_in_range(votes, (#[trigger] themes[j]).theme_id, themes[j].choices@.len())
}

fn copy_shares(v: &Vec<Option<u64>>) -> (r: Vec<Option<u64>>)
    ensures
        r@ == v@,
{
    let mut out: Vec<Option<u64>> = Vec::new();
    let mut i: usize = 0;
    while i < v.len()
        invariant
            i <= v@.len(),
            out@ == v@.take(i as int),
        decreases v@.len() - i,
    {
        proof {
            assert(v@.take(i + 1) =~= v@.take(i as int).push(v@[i as int]));
        }
        out.push(v[i]);
        i += 1;
    }
    assert(v@.take(v@.len() as int) =~= v@);
    out
}

/// The results of a batch at instant `now`, one per theme in the order of
/// the themes. The batch is refused, with the first theme at fault, when a
/// vote names a choice that its theme does not have.
pub fn computer(request: &Request, now: u64) -> (r: Result<Vec<Response>, PollError>)
    ensures
        match r {
            Ok(rs) => {
                &&& rs@.len() == request.themes@.len()
                &&& forall|i: int|
                    0 <= i < rs@.len() ==> {
                        &&& answers_in_range(
                            request.votes@,
                            request.themes@[i].theme_id,
                            request.themes@[i].choices@.len(),
                        )
                        &&& response_ok(#[trigger] rs@[i], request.themes@[i], request.votes@, now)
                    }
            },
            Err(e) => exists|i: int|
                first_bad_theme(request.themes@, request.votes@, i) && e
                    == PollError::AnswerOutOfRange { theme_id: request.themes@[i].theme_id },
        },
{
    let mut out: Vec<Response> = Vec::new();
    let mut i: usize = 0;
    while i < request.themes.len()
        invariant
            i <= request.themes@.len(),
            out@.len() == i,
            forall|k: int|
                0 <= k < i ==> answers_in_range(
                    request.votes@,
                    (#[trigger] request.themes@[k]).theme_id,
                    request.themes@[k].choices@.len(),
                ),
            forall|k: int|
                0 <= k < i ==> response_ok(#[trigger] out@[k], request.themes@[k], request.votes@, now),
        decreases request.themes@.len() - i,
    {
        let theme = &request.themes[i];
        match calc_transition(now, theme, &request.votes) {
            Ok((short_transition, long_transition)) => {
                let percentage = copy_shares(&short_transition[0].percentage);
                let response = Response {
                    theme_id: theme.theme_id,
                    percentage,
                    short_transition,
                    long_transition,
                };
                assert(response_ok(response, request.themes@[i as int], request.votes@, now));
                out.push(response);
            },
            Err(e) => {
                assert(first_bad_theme(request.themes@, request.votes@, i as int));
                return Err(e);
            },
        }
        i += 1;
    }
    assert forall|k: int| 0 <= k < out@.len() implies {
        &&& answers_in_range(
            request.votes@,
            request.themes@[k].theme_id,
            request.themes@[k].choices@.len(),
        )
        &&& response_ok(#[trigger] out@[k], request.themes@[k], request.votes@, now)
    } by {
        assert(answers_in_range(
            request.votes@,
            request.themes@[k].theme_id,
            request.themes@[k].choices@.len(),
        ));
    }
    Ok(out)
}

} // verus!
