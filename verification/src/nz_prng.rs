//! The New Zealand pseudo random number method of ordering candidates, from Schedule 1A of the
//! Local Electoral Regulations 2001, clauses 41 to 48:
//!
//! 41. Allocate a unique pseudo-random whole number (a PRN number) for each candidate at each stage of the counting.
//! 42. To generate PRNs, calculate x, y, and z using the following formulae:
//!     x = c+5, y = n, z = (v + 1 000 (v rem 10)) rem 30 323
//!     where c is the number of candidates, n the number of vacancies, v the total number of
//!     valid voting documents.
//! 43. Generate a random whole number rc using the following formulae:
//!     x = (171x) rem 30 269, y = (172y) rem 30 307, z = (170z) rem 30 323,
//!     rc = (10 000x) div 30 269 + (10 000y) div 30 307 + (10 000z) div 30 323
//! 44. Repeat the step in clause 43 four times, discarding the first 4 values of rc.
//! 45. Assign the current value of rc to the first candidate.
//! 46. Repeat the step in clause 43 until a pseudo-random number results that is distinct from all
//!     previous pseudo random numbers assigned to candidates. Assign rc to the next candidate.
//! 47. Repeat the step in clause 43 until all candidates have been assigned a pseudo-random number.
//! 48. For the second and subsequent steps, replace the pseudo-random number for each candidate
//!     with the candidate's PRN at the previous step subtracted from 10 000.
//!
//! The apocryphal variant, thought to be used in official software, uses 10 000 in place of
//! 1 000 in clause 42 and uses 10 000 - (rc rem 10 000) in place of rc.

use vstd::prelude::*;
use crate::ballot_metadata::{CandidateIndex, NumberOfCandidates};
use crate::ballot_pile::BallotPaperCount;
use crate::util::{sort_by_key, all_have_keys};
use crate::distribution_of_preferences_transcript::Transcript;
use crate::tally::TallyValue;

verus! {

/// The state of the generator: x, y and z of clause 42.
#[derive(Clone, Copy, Debug, PartialEq, Eq, Structural)]
pub struct NZPRNG {
    pub x: u32,
    pub y: u32,
    pub z: u32,
}

/// The modulus used for x.
pub open spec fn mod_x() -> int { 30269 }
/// The modulus used for y.
pub open spec fn mod_y() -> int { 30307 }
/// The modulus used for z.
pub open spec fn mod_z() -> int { 30323 }

/// Each part of the state is below its modulus.
pub open spec fn state_wf(s: NZPRNG) -> bool {
    s.x < mod_x() && s.y < mod_y() && s.z < mod_z()
}

/// The state after one step of clause 43.
pub open spec fn advance(s: NZPRNG) -> NZPRNG {
    NZPRNG {
        x: ((171 * s.x) % mod_x()) as u32,
        y: ((172 * s.y) % mod_y()) as u32,
        z: ((170 * s.z) % mod_z()) as u32,
    }
}

/// The number rc of clause 43 for a state just advanced to, with the apocryphal change if asked for.
pub open spec fn rc_of(s: NZPRNG, apocryphal: bool) -> u32 {
    let rc = (10000 * s.x) / mod_x() + (10000 * s.y) / mod_y() + (10000 * s.z) / mod_z();
    if apocryphal {
        (10000 - rc % 10000) as u32
    } else {
        rc as u32
    }
}

/// The state after `n` steps.
pub open spec fn advance_n(s: NZPRNG, n: nat) -> NZPRNG
    decreases n,
{
    if n == 0 {
        s
    } else {
        advance_n(advance(s), (n - 1) as nat)
    }
}

/// The number of draws allowed while looking for a number not yet assigned: the number of
/// states of the generator, past which its numbers repeat.
pub open spec fn draw_limit() -> nat {
    (mod_x() * mod_y() * mod_z()) as nat
}

/// Draw (clause 43) until a number not in `taken` comes up, at most `fuel` times: the state after
/// the successful draw and the number drawn.
pub open spec fn first_new(s: NZPRNG, taken: Seq<u32>, apocryphal: bool, fuel: nat) -> Option<(NZPRNG, u32)>
    decreases fuel,
{
    if fuel == 0 {
        None
    } else {
        let s1 = advance(s);
        let r = rc_of(s1, apocryphal);
        if !taken.contains(r) {
            Some((s1, r))
        } else {
            first_new(s1, taken, apocryphal, (fuel - 1) as nat)
        }
    }
}

/// Assign numbers to `n` more candidates (clauses 45 to 47), after those already assigned `taken`.
pub open spec fn assign(s: NZPRNG, taken: Seq<u32>, apocryphal: bool, n: nat) -> Option<(NZPRNG, Seq<u32>)>
    decreases n,
{
    if n == 0 {
        Some((s, taken))
    } else {
        match first_new(s, taken, apocryphal, draw_limit()) {
            None => None,
            Some((s1, r)) => assign(s1, taken.push(r), apocryphal, (n - 1) as nat),
        }
    }
}

/// The numbers for all candidates, starting from a fresh generator: four draws discarded
/// (clause 44), then one number per candidate.
pub open spec fn all_prns(s: NZPRNG, apocryphal: bool, n: nat) -> Option<Seq<u32>> {
    match assign(advance_n(s, 4), Seq::empty(), apocryphal, n) {
        None => None,
        Some((_s, prns)) => Some(prns),
    }
}

/// The starting state of clause 42.
pub open spec fn initial_state(candidates: nat, vacancies: nat, valid: nat, apocryphal: bool) -> NZPRNG {
    NZPRNG {
        x: ((candidates + 5) as int % mod_x()) as u32,
        y: (vacancies as int % mod_y()) as u32,
        z: ((valid + (if apocryphal { 10000int } else { 1000int }) * (valid % 10)) % mod_z()) as u32,
    }
}

proof fn lemma_advance_n_step(s: NZPRNG, n: nat)
    ensures
        advance_n(s, n + 1) == advance(advance_n(s, n)),
    decreases n,
{
    reveal_with_fuel(advance_n, 2);
    if n > 0 {
        lemma_advance_n_step(advance(s), (n - 1) as nat);
    }
}

proof fn lemma_assign_len(s: NZPRNG, taken: Seq<u32>, apocryphal: bool, n: nat)
    ensures
        assign(s, taken, apocryphal, n) matches Some((_s, p)) ==> p.len() == taken.len() + n,
    decreases n,
{
    if n > 0 {
        if let Some((s1, r)) = first_new(s, taken, apocryphal, draw_limit()) {
            lemma_assign_len(s1, taken.push(r), apocryphal, (n - 1) as nat);
        }
    }
}

impl NZPRNG {
    /// Initialize a new generator using clause 42. Every part of the state is kept below its
    /// modulus from the start; as every later step takes the remainder by that modulus, the numbers
    /// drawn are the same.
    pub fn new(
        number_of_candidates: NumberOfCandidates,
        number_of_vacancies: NumberOfCandidates,
        valid: BallotPaperCount,
        apocryphal: bool,
    ) -> (res: Self)
        ensures
            res == initial_state(number_of_candidates.0 as nat, number_of_vacancies.0 as nat, valid.0 as nat, apocryphal),
            state_wf(res),
    {
        let x = ((number_of_candidates.0 % 30269) + 5) % 30269;
        let y = number_of_vacancies.0 % 30307;
        let multiplier: usize = if apocryphal { 10000 } else { 1000 };
        let z = ((valid.0 % 30323) + multiplier * (valid.0 % 10)) % 30323;
        proof {
            let c = number_of_candidates.0 as int;
            let v = valid.0 as int;
            assert(((c % 30269) + 5) % 30269 == (c + 5) % 30269) by (nonlinear_arith);
            assert(((v % 30323) + multiplier * (v % 10)) % 30323 == (v + multiplier * (v % 10)) % 30323)
                by (nonlinear_arith);
        }
        NZPRNG { x: x as u32, y: y as u32, z: z as u32 }
    }

    /// Get a new rc using clause 43.
    pub fn get_next_rc(&mut self, apocryphal: bool) -> (res: u32)
        requires
            state_wf(*old(self)),
        ensures
            *final(self) == advance(*old(self)),
            state_wf(*final(self)),
            res == rc_of(*final(self), apocryphal),
    {
        self.x = (self.x * 171) % 30269;
        self.y = (self.y * 172) % 30307;
        self.z = (self.z * 170) % 30323;
        let rc = (10000 * self.x) / 30269 + (10000 * self.y) / 30307 + (10000 * self.z) / 30323;
        if apocryphal {
            10000 - (rc % 10000)
        } else {
            rc
        }
    }

    /// Get numbers for all candidates using clauses 44 to 47. `None` if for some candidate no new
    /// number came up within as many draws as the generator has states.
    #[verifier::loop_isolation(false)]
    pub fn get_all_prns(&mut self, number_of_candidates: NumberOfCandidates, apocryphal: bool) -> (res: Option<Vec<u32>>)
        requires
            state_wf(*old(self)),
        ensures
            match all_prns(*old(self), apocryphal, number_of_candidates.0 as nat) {
                Some(p) => res matches Some(v) && v@ == p,
                None => res is None,
            },
            all_prns(*old(self), apocryphal, number_of_candidates.0 as nat) matches Some(p) ==> p.len()
                == number_of_candidates.0,
    {
        proof {
            lemma_assign_len(advance_n(*self, 4), Seq::empty(), apocryphal, number_of_candidates.0 as nat);
        }
        let ghost start = *self;
        let mut i: usize = 0;
        while i < 4
            invariant
                i <= 4,
                state_wf(*self),
                *self == advance_n(start, i as nat),
            decreases 4 - i,
        {
            self.get_next_rc(apocryphal);
            proof {
                lemma_advance_n_step(start, i as nat);
            }
            i = i + 1;
        }
        let mut res: Vec<u32> = Vec::new();
        let mut assigned: usize = 0;
        let n = number_of_candidates.0;
        let limit: u64 = 30269 * 30307 * 30323;
        while assigned < n
            invariant
                assigned <= n,
                n == number_of_candidates.0,
                limit == draw_limit(),
                state_wf(*self),
                res@.len() == assigned,
                all_prns(start, apocryphal, n as nat) == (match assign(*self, res@, apocryphal, (n - assigned) as nat) {
                    None => None,
                    Some((_s, prns)) => Some(prns),
                }),
            decreases n - assigned,
        {
            let ghost before = *self;
            let mut draws: u64 = 1;
            let mut rc = self.get_next_rc(apocryphal);
            while contains_u32(&res, rc)
                invariant
                    1 <= draws <= limit,
                    limit == draw_limit(),
                    state_wf(*self),
                    rc == rc_of(*self, apocryphal),
                    first_new(before, res@, apocryphal, draw_limit()) == (if !res@.contains(rc) {
                        Some((*self, rc))
                    } else {
                        first_new(*self, res@, apocryphal, (draw_limit() - draws) as nat)
                    }),
                decreases limit - draws,
            {
                if draws == limit {
                    assert(first_new(*self, res@, apocryphal, 0) is None);
                    return None;
                }
                rc = self.get_next_rc(apocryphal);
                draws = draws + 1;
            }
            res.push(rc);
            assigned = assigned + 1;
        }
        Some(res)
    }
}

/// True iff the number is in the list.
fn contains_u32(v: &Vec<u32>, x: u32) -> (res: bool)
    ensures
        res == v@.contains(x),
{
    for i in 0..v.len()
        invariant
            forall|j: int| 0 <= j < i ==> v@[j] != x,
    {
        if v[i] == x {
            assert(v@[i as int] == x);
            return true;
        }
    }
    false
}

/// Order tied candidates by their New Zealand pseudo random numbers, either the legislated or
/// the apocryphal version: low to high at an even numbered step, high to low at an odd numbered
/// one (clause 48). `false` (and the candidates untouched) if the numbers could not all be made.
#[allow(non_snake_case)]
pub fn resolve_using_NZPRN<Tally>(
    tied_candidates: &mut Vec<CandidateIndex>,
    transcript: &Transcript<Tally>,
    number_of_candidates: NumberOfCandidates,
    number_of_vacancies: NumberOfCandidates,
    valid_papers: BallotPaperCount,
    apocryphal: bool,
) -> (res: bool)
    requires
        forall|i: int| 0 <= i < old(tied_candidates)@.len() ==> (#[trigger] old(tied_candidates)@[i]).0 < number_of_candidates.0,
    ensures
        nz_outcome(
            old(tied_candidates)@,
            final(tied_candidates)@,
            transcript.counts@.len(),
            number_of_candidates.0 as nat,
            number_of_vacancies.0 as nat,
            valid_papers.0 as nat,
            apocryphal,
            res,
        ),
{
    let mut prng = NZPRNG::new(number_of_candidates, number_of_vacancies, valid_papers, apocryphal);
    let prns = match prng.get_all_prns(number_of_candidates, apocryphal) {
        None => return false,
        Some(p) => p,
    };
    let mut keys: Vec<usize> = Vec::new();
    for i in 0..prns.len()
        invariant
            keys@.len() == i,
            forall|j: int| 0 <= j < i ==> keys@[j] == prns@[j] as usize,
    {
        keys.push(prns[i] as usize);
    }
    assert(all_have_keys(tied_candidates@, keys@));
    sort_by_key(tied_candidates, &keys);
    assert forall|i: int, j: int| 0 <= i < j < tied_candidates@.len() implies #[trigger] prns@[tied_candidates@[i].0 as int]
        <= #[trigger] prns@[tied_candidates@[j].0 as int] by {
        assert(keys@[tied_candidates@[i].0 as int].value() <= keys@[tied_candidates@[j].0 as int].value());
    }
    if transcript.counts.len() % 2 == 1 {
        let ghost sorted = tied_candidates@;
        reverse_candidates(tied_candidates);
        assert(tied_candidates@.reverse() =~= sorted);
        proof {
            lemma_reverse_multiset(sorted);
        }
    }
    true
}

/// What ordering by the New Zealand numbers does: `after` holds the candidates of `before` in
/// increasing order of their numbers after an even number of counts, in decreasing order after an
/// odd number; or, if the numbers could not all be made, `before` unchanged and not `resolved`.
pub open spec fn nz_outcome(
    before: Seq<CandidateIndex>,
    after: Seq<CandidateIndex>,
    counts_so_far: nat,
    candidates: nat,
    vacancies: nat,
    valid: nat,
    apocryphal: bool,
    resolved: bool,
) -> bool {
    match all_prns(initial_state(candidates, vacancies, valid, apocryphal), apocryphal, candidates) {
        None => !resolved && after == before,
        Some(prns) => {
            &&& resolved
            &&& after.to_multiset() == before.to_multiset()
            &&& after.len() == before.len()
            &&& if counts_so_far % 2 == 0 {
                sorted_by_prn(after, prns)
            } else {
                sorted_by_prn(after.reverse(), prns)
            }
        },
    }
}

/// Candidates in increasing order of their numbers.
pub open spec fn sorted_by_prn(s: Seq<CandidateIndex>, prns: Seq<u32>) -> bool {
    forall|i: int, j: int| 0 <= i < j < s.len() ==> #[trigger] prns[s[i].0 as int] <= #[trigger] prns[s[j].0 as int]
}

/// Reverse a list of candidates.
fn reverse_candidates(v: &mut Vec<CandidateIndex>)
    ensures
        final(v)@ == old(v)@.reverse(),
{
    let ghost orig = v@;
    let n = v.len();
    let mut i: usize = 0;
    while i < n / 2
        invariant
            n == orig.len(),
            v@.len() == n,
            i <= n / 2,
            forall|k: int| 0 <= k < i ==> #[trigger] v@[k] == orig[n - 1 - k],
            forall|k: int| n - i <= k < n ==> #[trigger] v@[k] == orig[n - 1 - k],
            forall|k: int| i <= k < n - i ==> v@[k] == orig[k],
        decreases n / 2 - i,
    {
        let a = v[i];
        let b = v[n - 1 - i];
        v.set(i, b);
        v.set(n - 1 - i, a);
        i = i + 1;
    }
    assert(v@ =~= orig.reverse());
}

/// Reversing keeps the same elements.
proof fn lemma_reverse_multiset(s: Seq<CandidateIndex>)
    ensures
        s.reverse().to_multiset() == s.to_multiset(),
        s.reverse().len() == s.len(),
    decreases s.len(),
{
    broadcast use vstd::seq_lib::group_to_multiset_ensures;
    if s.len() > 0 {
        lemma_reverse_multiset(s.drop_last());
        assert(s.reverse() =~= seq![s.last()] + s.drop_last().reverse());
        vstd::seq_lib::lemma_multiset_commutative(seq![s.last()], s.drop_last().reverse());
        assert(s =~= s.drop_last().push(s.last()));
    }
}

} // verus!
