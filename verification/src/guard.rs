//! Ongoing-round guard: per-round liveness state with a fail-closed cache.
//!
//! Each round moves Unknown → Ongoing → Finished and never back: a finished
//! round stays finished for the life of the process. An unknown or stale
//! round needs a refresh from the outside liveness source; whatever that
//! refresh reports — including failure or timeout — is folded in here, and a
//! failure always resolves to "ongoing". The caller performs the outside
//! lookup and hands the outcome back; every decision is made in this module.
use vstd::prelude::*;

use crate::ip_scrub::is_digit;
use crate::text::prefix_eq_str;
use crate::text::str_to_chars;

verus! {

/// The recorded liveness of one round.
#[derive(Clone, Copy, PartialEq, Eq, Structural, Debug)]
pub enum RoundState {
    Ongoing,
    Finished,
}

/// What one refresh of the liveness source reported.
#[derive(Clone, Copy, PartialEq, Eq, Structural, Debug)]
pub enum LivenessReport {
    /// The source answered that the round is still being written.
    Active,
    /// The source answered that the round is over.
    Ended,
    /// The source could not be reached, timed out, or answered nonsense.
    Unavailable,
}

/// One cached liveness record.
#[derive(Clone, Copy, PartialEq, Eq, Structural, Debug)]
pub struct GuardEntry {
    pub round_id: u64,
    pub state: RoundState,
    pub refreshed_at: u64,
}

/// The guard's cache: at most one record per round id, plus the staleness
/// bound under which an "ongoing" record may be reused without a refresh.
pub struct RoundGuard {
    pub entries: Vec<GuardEntry>,
    pub staleness_bound: u64,
}

/// The index of the record for a round, or `-1`.
pub open spec fn idx_of(es: Seq<GuardEntry>, id: u64) -> int
    decreases es.len(),
{
    if es.len() == 0 {
        -1
    } else if es[0].round_id == id {
        0
    } else {
        let r = idx_of(es.skip(1), id);
        if r < 0 {
            -1
        } else {
            1 + r
        }
    }
}

pub proof fn lemma_idx_of_bounds(es: Seq<GuardEntry>, id: u64)
    ensures
        -1 <= idx_of(es, id) < es.len(),
        idx_of(es, id) >= 0 ==> es[idx_of(es, id)].round_id == id,
        idx_of(es, id) == -1 ==> forall|j: int| 0 <= j < es.len() ==> (#[trigger] es[j]).round_id != id,
    decreases es.len(),
{
    if es.len() != 0 && es[0].round_id != id {
        lemma_idx_of_bounds(es.skip(1), id);
        if idx_of(es, id) >= 0 {
            assert(es.skip(1)[idx_of(es.skip(1), id)] == es[idx_of(es, id)]);
        } else {
            assert forall|j: int| 0 <= j < es.len() implies (#[trigger] es[j]).round_id != id by {
                if j > 0 {
                    assert(es.skip(1)[j - 1] == es[j]);
                }
            }
        }
    }
}

proof fn lemma_idx_of_at(es: Seq<GuardEntry>, id: u64, i: int)
    requires
        0 <= i < es.len(),
        es[i].round_id == id,
        forall|j: int| 0 <= j < i ==> (#[trigger] es[j]).round_id != id,
    ensures
        idx_of(es, id) == i,
    decreases i,
{
    if i > 0 {
        assert(es[0].round_id != id);
        assert forall|j: int| 0 <= j < i - 1 implies (#[trigger] es.skip(1)[j]).round_id != id by {
            assert(es.skip(1)[j] == es[j + 1]);
        }
        assert(es.skip(1)[i - 1] == es[i]);
        lemma_idx_of_at(es.skip(1), id, i - 1);
    }
}

proof fn lemma_idx_of_none(es: Seq<GuardEntry>, id: u64)
    requires
        forall|j: int| 0 <= j < es.len() ==> (#[trigger] es[j]).round_id != id,
    ensures
        idx_of(es, id) == -1,
    decreases es.len(),
{
    if es.len() != 0 {
        assert forall|j: int| 0 <= j < es.skip(1).len() implies (#[trigger] es.skip(1)[j]).round_id
            != id by {
            assert(es.skip(1)[j] == es[j + 1]);
        }
        lemma_idx_of_none(es.skip(1), id);
    }
}

/// The state a refresh outcome leaves a round in. Finished is final;
/// otherwise a failure of the source counts as ongoing — fail-closed.
pub open spec fn spec_next_state(old_state: Option<RoundState>, report: LivenessReport) -> RoundState {
    if old_state == Some(RoundState::Finished) {
        RoundState::Finished
    } else {
        match report {
            LivenessReport::Active => RoundState::Ongoing,
            LivenessReport::Ended => RoundState::Finished,
            LivenessReport::Unavailable => RoundState::Ongoing,
        }
    }
}

impl RoundGuard {
    /// The cache never holds two records for one round.
    pub open spec fn wf(&self) -> bool {
        forall|i: int, j: int|
            0 <= i < j < self.entries@.len() ==> (#[trigger] self.entries@[i]).round_id != (
            #[trigger] self.entries@[j]).round_id
    }

    /// The record the guard holds for a round, if any.
    pub open spec fn spec_entry(&self, id: u64) -> Option<GuardEntry> {
        if idx_of(self.entries@, id) >= 0 {
            Some(self.entries@[idx_of(self.entries@, id)])
        } else {
            None
        }
    }

    /// The state the guard holds for a round, if any.
    pub open spec fn spec_state(&self, id: u64) -> Option<RoundState> {
        match self.spec_entry(id) {
            Some(e) => Some(e.state),
            None => None,
        }
    }

    /// Whether the guard treats the round as ongoing: it does unless the
    /// round is recorded finished — fail-closed for unknown rounds.
    pub open spec fn spec_is_ongoing(&self, id: u64) -> bool {
        self.spec_state(id) != Some(RoundState::Finished)
    }

    /// Whether a record is fresh enough to reuse at time `now`.
    pub open spec fn spec_fresh(&self, e: GuardEntry, now: u64) -> bool {
        now <= e.refreshed_at || now - e.refreshed_at <= self.staleness_bound
    }

    /// What the cache alone answers: `Some(false)` for a finished round
    /// (permanent), `Some(true)` for a fresh ongoing record, `None` when a
    /// refresh is needed.
    pub open spec fn spec_query(&self, id: u64, now: u64) -> Option<bool> {
        match self.spec_entry(id) {
            Some(e) => {
                if e.state == RoundState::Finished {
                    Some(false)
                } else if self.spec_fresh(e, now) {
                    Some(true)
                } else {
                    None
                }
            },
            None => None,
        }
    }

    /// An empty cache: every round unknown, hence treated as ongoing.
    pub fn new(staleness_bound: u64) -> (g: RoundGuard)
        ensures
            g.wf(),
            forall|id: u64| g.spec_entry(id) is None,
            forall|id: u64| g.spec_is_ongoing(id),
    {
        let g = RoundGuard { entries: Vec::new(), staleness_bound };
        proof {
            assert forall|id: u64| g.spec_entry(id) is None by {
                lemma_idx_of_bounds(g.entries@, id);
            }
        }
        g
    }

    fn find(&self, id: u64) -> (r: Option<usize>)
        ensures
            match r {
                Some(i) => i < self.entries@.len() && i as int == idx_of(self.entries@, id)
                    && self.entries@[i as int].round_id == id,
                None => idx_of(self.entries@, id) == -1,
            },
    {
        let mut i: usize = 0;
        while i < self.entries.len()
            invariant
                i <= self.entries@.len(),
                forall|j: int| 0 <= j < i ==> (#[trigger] self.entries@[j]).round_id != id,
            decreases self.entries@.len() - i,
        {
            if self.entries[i].round_id == id {
                proof {
                    lemma_idx_of_at(self.entries@, id, i as int);
                }
                return Some(i);
            }
            i = i + 1;
        }
        proof {
            lemma_idx_of_none(self.entries@, id);
        }
        None
    }

    /// The cache-only decision for a round at time `now`.
    pub fn query(&self, id: u64, now: u64) -> (r: Option<bool>)
        ensures
            r == self.spec_query(id, now),
    {
        match self.find(id) {
            Some(i) => {
                let e = self.entries[i];
                if matches!(e.state, RoundState::Finished) {
                    Some(false)
                } else if now <= e.refreshed_at || now - e.refreshed_at <= self.staleness_bound {
                    Some(true)
                } else {
                    None
                }
            },
            None => None,
        }
    }

    /// The cached fail-closed answer: ongoing unless recorded finished.
    pub fn answer(&self, id: u64) -> (b: bool)
        ensures
            b == self.spec_is_ongoing(id),
    {
        match self.find(id) {
            Some(i) => !matches!(self.entries[i].state, RoundState::Finished),
            None => true,
        }
    }

    /// Folds one refresh outcome into the cache. A finished round stays
    /// finished whatever the source now says; any other round takes the
    /// reported state, with a source failure counting as ongoing.
    pub fn record(&mut self, id: u64, report: LivenessReport, now: u64)
        requires
            old(self).wf(),
        ensures
            final(self).wf(),
            final(self).spec_entry(id) == Some(
                GuardEntry {
                    round_id: id,
                    state: spec_next_state(old(self).spec_state(id), report),
                    refreshed_at: now,
                },
            ),
            forall|r: u64| r != id ==> final(self).spec_entry(r) == old(self).spec_entry(r),
    {
        let existing = self.find(id);
        let prior_finished = match existing {
            Some(i) => matches!(self.entries[i].state, RoundState::Finished),
            None => false,
        };
        let new_state = if prior_finished {
            RoundState::Finished
        } else {
            match report {
                LivenessReport::Active => RoundState::Ongoing,
                LivenessReport::Ended => RoundState::Finished,
                LivenessReport::Unavailable => RoundState::Ongoing,
            }
        };
        proof {
            assert(new_state == spec_next_state(self.spec_state(id), report));
        }
        let entry = GuardEntry { round_id: id, state: new_state, refreshed_at: now };
        let ghost old_es = self.entries@;
        match existing {
            Some(i) => {
                let _ = self.entries.remove(i);
                self.entries.insert(i, entry);
                proof {
                    assert(self.entries@ =~= old_es.update(i as int, entry));
                    lemma_idx_of_update(old_es, i as int, entry);
                    lemma_idx_of_bounds(old_es, id);
                    assert(idx_of(self.entries@, id) == i as int);
                    assert(self.entries@[i as int] == entry);
                    assert forall|r: u64| r != id implies self.spec_entry(r) == old(
                        self,
                    ).spec_entry(r) by {
                        lemma_idx_of_bounds(old_es, r);
                        if idx_of(old_es, r) >= 0 {
                            assert(idx_of(old_es, r) != i as int);
                        }
                    }
                    assert forall|a: int, b: int|
                        0 <= a < b < self.entries@.len() implies (
                    #[trigger] self.entries@[a]).round_id != (
                    #[trigger] self.entries@[b]).round_id by {
                        assert(self.entries@[a].round_id == old_es[a].round_id);
                        assert(self.entries@[b].round_id == old_es[b].round_id);
                    }
                }
            },
            None => {
                self.entries.push(entry);
                proof {
                    lemma_idx_of_bounds(old_es, id);
                    assert forall|r: u64| true implies idx_of(self.entries@, r) == (if idx_of(
                        old_es,
                        r,
                    ) >= 0 {
                        idx_of(old_es, r)
                    } else if r == id {
                        old_es.len() as int
                    } else {
                        -1
                    }) by {
                        lemma_idx_of_push(old_es, entry, r);
                    }
                    assert(idx_of(self.entries@, id) == old_es.len() as int);
                    assert(self.entries@[old_es.len() as int] == entry);
                    assert forall|r: u64| r != id implies self.spec_entry(r) == old(
                        self,
                    ).spec_entry(r) by {
                        lemma_idx_of_bounds(old_es, r);
                    }
                    assert forall|a: int, b: int|
                        0 <= a < b < self.entries@.len() implies (
                    #[trigger] self.entries@[a]).round_id != (
                    #[trigger] self.entries@[b]).round_id by {
                        if b == old_es.len() as int {
                            assert(self.entries@[b].round_id == id);
                            assert(old_es[a].round_id != id);
                        } else {
                            assert(self.entries@[a].round_id == old_es[a].round_id);
                            assert(self.entries@[b].round_id == old_es[b].round_id);
                        }
                    }
                }
            },
        }
    }
}

proof fn lemma_idx_of_update(es: Seq<GuardEntry>, i: int, e: GuardEntry)
    requires
        0 <= i < es.len(),
        es[i].round_id == e.round_id,
    ensures
        forall|r: u64| idx_of(es.update(i, e), r) == idx_of(es, r),
    decreases es.len(),
{
    assert forall|r: u64| idx_of(es.update(i, e), r) == idx_of(es, r) by {
        lemma_idx_of_update_one(es, i, e, r);
    }
}

proof fn lemma_idx_of_update_one(es: Seq<GuardEntry>, i: int, e: GuardEntry, r: u64)
    requires
        0 <= i < es.len(),
        es[i].round_id == e.round_id,
    ensures
        idx_of(es.update(i, e), r) == idx_of(es, r),
    decreases es.len(),
{
    let es2 = es.update(i, e);
    assert(es2[0].round_id == es[0].round_id);
    if es[0].round_id == r {
    } else {
        if i == 0 {
            assert(es2.skip(1) =~= es.skip(1));
        } else {
            assert(es2.skip(1) =~= es.skip(1).update(i - 1, e));
            lemma_idx_of_update_one(es.skip(1), i - 1, e, r);
        }
    }
}

proof fn lemma_idx_of_push(es: Seq<GuardEntry>, e: GuardEntry, r: u64)
    ensures
        idx_of(es.push(e), r) == (if idx_of(es, r) >= 0 {
            idx_of(es, r)
        } else if r == e.round_id {
            es.len() as int
        } else {
            -1
        }),
    decreases es.len(),
{
    lemma_idx_of_bounds(es, r);
    if es.len() == 0 {
        assert(es.push(e)[0] == e);
        assert(es.push(e).skip(1) =~= Seq::<GuardEntry>::empty());
        assert(idx_of(es.push(e).skip(1), r) == -1);
        if r == e.round_id {
            assert(idx_of(es.push(e), r) == 0);
        } else {
            assert(idx_of(es.push(e), r) == -1);
        }
    } else {
        assert(es.push(e)[0] == es[0]);
        if es[0].round_id == r {
            assert(idx_of(es.push(e), r) == 0);
            assert(idx_of(es, r) == 0);
        } else {
            assert(es.push(e).skip(1) =~= es.skip(1).push(e));
            lemma_idx_of_push(es.skip(1), e, r);
            lemma_idx_of_bounds(es.skip(1), r);
            let sub = idx_of(es.skip(1).push(e), r);
            assert(idx_of(es.push(e).skip(1), r) == sub);
            if idx_of(es.skip(1), r) >= 0 {
                assert(sub == idx_of(es.skip(1), r));
                assert(idx_of(es.push(e), r) == 1 + sub);
                assert(idx_of(es, r) == 1 + idx_of(es.skip(1), r));
            } else if r == e.round_id {
                assert(sub == es.skip(1).len() as int);
                assert(idx_of(es.push(e), r) == es.len() as int);
                assert(idx_of(es, r) == -1);
            } else {
                assert(sub == -1);
                assert(idx_of(es.push(e), r) == -1);
                assert(idx_of(es, r) == -1);
            }
        }
    }
}

/// Fail-closed: recording a liveness-source failure never opens a round.
/// A round not known finished answers "ongoing" after the failed refresh;
/// a round known finished stays finished.
pub proof fn lemma_fail_closed(old_state: Option<RoundState>)
    ensures
        old_state != Some(RoundState::Finished) ==> spec_next_state(
            old_state,
            LivenessReport::Unavailable,
        ) == RoundState::Ongoing,
        old_state == Some(RoundState::Finished) ==> spec_next_state(
            old_state,
            LivenessReport::Unavailable,
        ) == RoundState::Finished,
{
}

/// Monotonic liveness: once a guard answers "not ongoing" for a round, no
/// refresh outcome can ever make it answer "ongoing" again, and recording
/// a refresh of any other round does not touch it.
pub proof fn lemma_liveness_monotonic(g: RoundGuard, id: u64, report: LivenessReport)
    requires
        !g.spec_is_ongoing(id),
    ensures
        spec_next_state(g.spec_state(id), report) == RoundState::Finished,
{
}

/// Which round, if any, a path belongs to.
#[derive(Clone, Copy, PartialEq, Eq, Structural, Debug)]
pub enum RoundRef {
    /// No ancestor directory names a round: the path belongs to no round.
    NoRound,
    /// An ancestor names a round but its id cannot be read: fail closed.
    Malformed,
    /// The round the path belongs to.
    Round(u64),
}

/// A directory name that claims to name a round.
pub open spec fn is_round_component(c: Seq<char>) -> bool {
    c.len() > 6 && c.take(6) == "round-"@
}

pub open spec fn all_digits(s: Seq<char>) -> bool {
    forall|j: int| 0 <= j < s.len() ==> is_digit(#[trigger] s[j])
}

/// The value of a decimal digit string.
pub open spec fn dec_value(s: Seq<char>) -> int
    decreases s.len(),
{
    if s.len() == 0 {
        0
    } else {
        dec_value(s.drop_last()) * 10 + ((s.last() as u32) - ('0' as u32))
    }
}

pub open spec fn pow10(n: nat) -> int
    decreases n,
{
    if n == 0 {
        1
    } else {
        10 * pow10((n - 1) as nat)
    }
}

/// The round reference of a path, given its components in order: the first
/// component of the form `round-<digits>` names the round; one that starts
/// `round-` but cannot be read as an id (or is too long to fit) is
/// malformed, which the caller must treat as ongoing.
pub open spec fn spec_round_ref(components: Seq<Seq<char>>) -> RoundRef
    decreases components.len(),
{
    if components.len() == 0 {
        RoundRef::NoRound
    } else if is_round_component(components[0]) {
        let d = components[0].skip(6);
        if all_digits(d) && d.len() <= 19 {
            RoundRef::Round(dec_value(d) as u64)
        } else {
            RoundRef::Malformed
        }
    } else {
        spec_round_ref(components.skip(1))
    }
}

proof fn lemma_pow10_pos(n: nat)
    ensures
        pow10(n) >= 1,
    decreases n,
{
    if n > 0 {
        lemma_pow10_pos((n - 1) as nat);
    }
}

proof fn lemma_pow10_mono(a: nat, b: nat)
    requires
        a <= b,
    ensures
        pow10(a) <= pow10(b),
        pow10(a) >= 1,
    decreases b,
{
    lemma_pow10_pos(a);
    if a < b {
        lemma_pow10_mono(a, (b - 1) as nat);
        lemma_pow10_pos((b - 1) as nat);
        assert(pow10(b) == 10 * pow10((b - 1) as nat));
    }
}

proof fn lemma_dec_value_bound(s: Seq<char>)
    requires
        all_digits(s),
    ensures
        0 <= dec_value(s) < pow10(s.len()),
    decreases s.len(),
{
    if s.len() == 0 {
    } else {
        assert(all_digits(s.drop_last())) by {
            assert(forall|j: int| 0 <= j < s.len() - 1 ==> s.drop_last()[j] == s[j]);
        }
        lemma_dec_value_bound(s.drop_last());
        let v = dec_value(s.drop_last());
        let p = pow10(s.drop_last().len());
        let d = (s.last() as u32) - ('0' as u32);
        assert(is_digit(s.last()));
        assert(0 <= d < 10);
        assert(pow10(s.len()) == 10 * p);
        assert(v * 10 + d < 10 * p) by (nonlinear_arith)
            requires
                0 <= v < p,
                0 <= d < 10,
        ;
        assert(v * 10 + d >= 0) by (nonlinear_arith)
            requires
                0 <= v,
                0 <= d,
        ;
    }
}

/// The round reference of a path given as its components.
pub fn round_ref_of(components: &Vec<String>) -> (r: RoundRef)
    ensures
        r == spec_round_ref(components.deep_view()),
{
    let ghost dv = components.deep_view();
    let mut i: usize = 0;
    proof {
        assert(dv.skip(0) =~~= dv);
    }
    while i < components.len()
        invariant
            i <= components@.len(),
            dv == components.deep_view(),
            components@.len() == dv.len(),
            forall|k: int| 0 <= k < dv.len() ==> components@[k]@ == dv[k],
            spec_round_ref(dv) == spec_round_ref(dv.skip(i as int)),
        decreases components@.len() - i,
    {
        let ghost t = dv.skip(i as int);
        let v = str_to_chars(components[i].as_str());
        proof {
            assert(t[0] == dv[i as int]);
            assert(v@ == t[0]);
        }
        if v.len() > 6 && prefix_eq_str(&v, 6, "round-") {
            let digits_len = v.len() - 6;
            if digits_len > 19 {
                proof {
                    assert(is_round_component(t[0])) by {
                        assert(v@.take(6) == "round-"@);
                    }
                    assert(t[0].skip(6).len() > 19);
                    assert(spec_round_ref(t) == RoundRef::Malformed);
                }
                return RoundRef::Malformed;
            }
            let mut acc: u64 = 0;
            let mut j: usize = 6;
            let ghost d = t[0].skip(6);
            proof {
                assert(d.len() == v@.len() - 6);
                assert(d.take(0) =~= Seq::<char>::empty());
                lemma_pow10_mono(0, 0);
            }
            while j < v.len()
                invariant
                    6 <= j <= v@.len(),
                    6 < v@.len(),
                    v@.len() - 6 <= 19,
                    v@ == t[0],
                    v@.take(6) == "round-"@,
                    d == t[0].skip(6),
                    i < dv.len(),
                    t == dv.skip(i as int),
                    dv == components.deep_view(),
                    spec_round_ref(dv) == spec_round_ref(t),
                    all_digits(d.take(j - 6)),
                    acc as int == dec_value(d.take(j - 6)),
                    (acc as int) < pow10((j - 6) as nat),
                decreases v@.len() - j,
            {
                let c = v[j];
                if !crate::ip_scrub::is_digit_exec(c) {
                    proof {
                        assert(is_round_component(t[0])) by {
                            assert(v@.take(6) == "round-"@);
                        }
                        assert(d[j - 6] == v@[j as int]);
                        assert(!is_digit(d[j - 6]));
                        assert(!all_digits(d));
                        assert(spec_round_ref(t) == RoundRef::Malformed);
                    }
                    return RoundRef::Malformed;
                }
                let digit: u64 = (c as u32 as u64) - ('0' as u32 as u64);
                proof {
                    let ghost k = (j - 6) as int;
                    assert(d.take(k + 1).drop_last() =~= d.take(k));
                    assert(d.take(k + 1).last() == d[k]);
                    assert(d[k] == v@[j as int]);
                    assert(all_digits(d.take(k + 1))) by {
                        assert(forall|x: int| 0 <= x < k ==> d.take(k + 1)[x] == d.take(k)[x]);
                    }
                    lemma_pow10_mono((j - 6) as nat, 18);
                    assert(pow10(18) < 1000000000000000000000) by {
                        reveal_with_fuel(pow10, 20);
                    }
                    assert(acc * 10 + digit < pow10((j - 6 + 1) as nat)) by (nonlinear_arith)
                        requires
                            0 <= (acc as int) < pow10((j - 6) as nat),
                            0 <= digit < 10,
                            pow10((j - 6 + 1) as nat) == 10 * pow10((j - 6) as nat),
                    ;
                    lemma_pow10_mono((j - 6 + 1) as nat, 19);
                    assert(pow10(19) == 10000000000000000000) by {
                        reveal_with_fuel(pow10, 20);
                    }
                }
                acc = acc * 10 + digit;
                j = j + 1;
            }
            proof {
                assert(d.take((j - 6) as int) =~= d);
                assert(all_digits(d));
                assert(is_round_component(t[0])) by {
                    assert(v@.take(6) == "round-"@);
                }
                assert(spec_round_ref(t) == RoundRef::Round(dec_value(d) as u64));
                assert(acc as int == dec_value(d));
            }
            return RoundRef::Round(acc);
        }
        proof {
            assert(!is_round_component(t[0])) by {
                if is_round_component(t[0]) {
                    assert(v@.len() > 6);
                    assert(v@.take(6) == "round-"@);
                }
            }
            assert(t.skip(1) =~~= dv.skip(i as int + 1));
            assert(spec_round_ref(t) == spec_round_ref(dv.skip(i as int + 1)));
        }
        i = i + 1;
    }
    proof {
        assert(dv.skip(i as int).len() == 0);
    }
    RoundRef::NoRound
}

/// What the guard can say about a path without an outside lookup:
/// a path in no round is never withheld; a malformed round id is withheld
/// outright; otherwise the cache decides, or a refresh is needed.
#[derive(Clone, Copy, PartialEq, Eq, Structural, Debug)]
pub enum PathDecision {
    Decided(bool),
    NeedsRefresh(u64),
}

impl RoundGuard {
    /// The fail-closed decision for a path at time `now`. `Decided(b)`
    /// answers whether the path is part of an ongoing round;
    /// `NeedsRefresh(id)` asks the caller to consult the liveness source
    /// for that round, `record` the outcome, and take `answer`.
    pub fn path_decision(&self, components: &Vec<String>, now: u64) -> (r: PathDecision)
        ensures
            r == self.spec_path_decision(components.deep_view(), now),
    {
        match round_ref_of(components) {
            RoundRef::NoRound => PathDecision::Decided(false),
            RoundRef::Malformed => PathDecision::Decided(true),
            RoundRef::Round(id) => match self.query(id, now) {
                Some(b) => PathDecision::Decided(b),
                None => PathDecision::NeedsRefresh(id),
            },
        }
    }

    /// What `path_decision` answers.
    pub open spec fn spec_path_decision(&self, components: Seq<Seq<char>>, now: u64) -> PathDecision {
        match spec_round_ref(components) {
            RoundRef::NoRound => PathDecision::Decided(false),
            RoundRef::Malformed => PathDecision::Decided(true),
            RoundRef::Round(id) => match self.spec_query(id, now) {
                Some(b) => PathDecision::Decided(b),
                None => PathDecision::NeedsRefresh(id),
            },
        }
    }
}


/// Monotonic liveness across one recorded refresh: a round the guard no
/// longer treats as ongoing stays that way whatever the next refresh — of
/// that round or of any other — reports.
pub proof fn lemma_monotonic_after_record(
    g: RoundGuard,
    g2: RoundGuard,
    id: u64,
    refreshed: u64,
    report: LivenessReport,
    now: u64,
)
    requires
        !g.spec_is_ongoing(id),
        g2.spec_entry(refreshed) == Some(
            GuardEntry {
                round_id: refreshed,
                state: spec_next_state(g.spec_state(refreshed), report),
                refreshed_at: now,
            },
        ),
        forall|r: u64| r != refreshed ==> g2.spec_entry(r) == g.spec_entry(r),
    ensures
        !g2.spec_is_ongoing(id),
{
    if id == refreshed {
        assert(g.spec_state(id) == Some(RoundState::Finished));
    }
}

} // verus!
