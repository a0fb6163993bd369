//! The day-by-day driver. It advances days `0..day_count`; on each day it
//! consults the admission scheduler when no signup is in flight, then runs
//! every library's state machine once, in ascending id order. That fixed
//! ordering is the run's only concurrency control: admission happens before
//! any shipment of the day, and libraries ship one at a time.

use vstd::prelude::*;
use vstd::set_lib::lemma_len_subset;
use crate::ledger::Ledger;
use crate::scores::ScoreTable;
use crate::scores::sum_scores;
use crate::library::Library;
use crate::library::LibModel;
use crate::library::State;
use crate::library::models;
use crate::library::process_model;
use crate::library::lemma_process_model_props;
use crate::scheduler::admit_model;
use crate::scheduler::candidate;
use crate::scheduler::scoring_in_bounds;
use crate::scheduler::signup_one_lib;

verus! {

/// Runs every library's day step once, in ascending id order, threading the
/// shared ledger through. Returns (libraries after, ledger after).
pub open spec fn process_all_model(libs: Seq<LibModel>, scanned: Set<usize>) -> (Seq<LibModel>, Set<usize>)
    decreases libs.len(),
{
    if libs.len() == 0 {
        (libs, scanned)
    } else {
        let r0 = process_model(libs[0], scanned);
        let rr = process_all_model(libs.skip(1), r0.1);
        (seq![r0.0] + rr.0, rr.1)
    }
}

/// No book id appears twice within one library's sent list, nor in two
/// different libraries' sent lists.
pub open spec fn sent_distinct(libs: Seq<LibModel>) -> bool {
    &&& forall|i: int| 0 <= i < libs.len() ==> (#[trigger] libs[i]).sent.no_duplicates()
    &&& forall|i: int, j: int|
        0 <= i < libs.len() && 0 <= j < libs.len() && i != j
            ==> (#[trigger] libs[i]).sent.disjoint((#[trigger] libs[j]).sent)
}

/// Every book a library has sent is claimed in the ledger.
pub open spec fn sent_claimed(libs: Seq<LibModel>, scanned: Set<usize>) -> bool {
    forall|i: int, k: int|
        0 <= i < libs.len() && 0 <= k < libs[i].sent.len()
            ==> scanned.contains(#[trigger] libs[i].sent[k])
}

/// Structural facts about one collective day step: library count, ids and
/// parameters are preserved; a `NeedsSignUp` library is untouched and none
/// ever becomes `NeedsSignUp`; the ledger only grows; each sent list only
/// grows, by books that were unclaimed before the step, are claimed after
/// it, and are handed to exactly one library, once.
pub proof fn lemma_process_all_props(libs: Seq<LibModel>, scanned: Set<usize>)
    ensures
        ({
            let r = process_all_model(libs, scanned);
            &&& r.0.len() == libs.len()
            &&& forall|i: int| 0 <= i < libs.len() ==> {
                &&& (#[trigger] r.0[i]).idx == libs[i].idx
                &&& r.0[i].days_to_signup == libs[i].days_to_signup
                &&& r.0[i].ship_rate == libs[i].ship_rate
            }
            &&& forall|i: int| 0 <= i < libs.len() && libs[i].state == State::NeedsSignUp
                ==> #[trigger] r.0[i] == libs[i]
            &&& forall|i: int| 0 <= i < libs.len() && (#[trigger] r.0[i]).state == State::NeedsSignUp
                ==> libs[i].state == State::NeedsSignUp
            &&& scanned.subset_of(r.1)
            &&& forall|i: int| 0 <= i < libs.len()
                ==> libs[i].sent.is_prefix_of((#[trigger] r.0[i]).sent)
            &&& forall|i: int| 0 <= i < libs.len()
                ==> (#[trigger] r.0[i]).sent.skip(libs[i].sent.len() as int).no_duplicates()
            &&& forall|i: int, k: int|
                0 <= i < libs.len() && libs[i].sent.len() <= k < r.0[i].sent.len()
                    ==> !scanned.contains(#[trigger] r.0[i].sent[k]) && r.1.contains(r.0[i].sent[k])
            &&& forall|i: int, j: int, k: int, l: int|
                0 <= i < libs.len() && 0 <= j < libs.len() && i != j
                    && libs[i].sent.len() <= k < r.0[i].sent.len()
                    && libs[j].sent.len() <= l < r.0[j].sent.len()
                    ==> #[trigger] r.0[i].sent[k] != #[trigger] r.0[j].sent[l]
        }),
    decreases libs.len(),
{
    let r = process_all_model(libs, scanned);
    if libs.len() == 0 {
    } else {
        let r0 = process_model(libs[0], scanned);
        lemma_process_model_props(libs[0], scanned);
        let tail = libs.skip(1);
        let rr = process_all_model(tail, r0.1);
        lemma_process_all_props(tail, r0.1);
        assert(r.0 == seq![r0.0] + rr.0);
        assert(r.1 == rr.1);
        assert forall|i: int| 0 <= i < libs.len() implies {
            &&& (#[trigger] r.0[i]).idx == libs[i].idx
            &&& r.0[i].days_to_signup == libs[i].days_to_signup
            &&& r.0[i].ship_rate == libs[i].ship_rate
            &&& libs[i].state == State::NeedsSignUp ==> r.0[i] == libs[i]
            &&& r.0[i].state == State::NeedsSignUp ==> libs[i].state == State::NeedsSignUp
            &&& libs[i].sent.is_prefix_of(r.0[i].sent)
            &&& r.0[i].sent.skip(libs[i].sent.len() as int).no_duplicates()
        } by {
            if i == 0 {
                assert(r.0[0] == r0.0);
                assert(libs[0].sent.is_prefix_of(r0.0.sent));
                if libs[0].state == State::NeedsSignUp {
                    assert(r0 == (libs[0], scanned));
                    assert(r.0[0] =~= libs[0]);
                }
            } else {
                assert(r.0[i] == rr.0[i - 1]);
                assert(libs[i] == tail[i - 1]);
            }
        }
        assert forall|i: int, k: int|
            0 <= i < libs.len() && libs[i].sent.len() <= k < r.0[i].sent.len()
                implies !scanned.contains(#[trigger] r.0[i].sent[k]) && r.1.contains(r.0[i].sent[k]) by {
            if i == 0 {
                assert(r.0[0] == r0.0);
                assert(!scanned.contains(r0.0.sent[k]));
                let d0 = r0.0.sent.skip(libs[0].sent.len() as int);
                assert(d0[k - libs[0].sent.len()] == r0.0.sent[k]);
                assert(d0.to_set().contains(r0.0.sent[k]));
                assert(r0.1.contains(r0.0.sent[k]));
                assert(r0.1.subset_of(rr.1));
            } else {
                assert(r.0[i] == rr.0[i - 1]);
                assert(libs[i] == tail[i - 1]);
                assert(!r0.1.contains(rr.0[i - 1].sent[k]));
                assert(scanned.subset_of(r0.1));
            }
        }
        assert forall|i: int, j: int, k: int, l: int|
            0 <= i < libs.len() && 0 <= j < libs.len() && i != j
                && libs[i].sent.len() <= k < r.0[i].sent.len()
                && libs[j].sent.len() <= l < r.0[j].sent.len()
                implies #[trigger] r.0[i].sent[k] != #[trigger] r.0[j].sent[l] by {
            if i == 0 {
                assert(r.0[0] == r0.0);
                assert(r.0[j] == rr.0[j - 1]);
                assert(libs[j] == tail[j - 1]);
                let d0 = r0.0.sent.skip(libs[0].sent.len() as int);
                assert(d0[k - libs[0].sent.len()] == r0.0.sent[k]);
                assert(d0.to_set().contains(r0.0.sent[k]));
                assert(r0.1.contains(r0.0.sent[k]));
                assert(!r0.1.contains(rr.0[j - 1].sent[l]));
            } else if j == 0 {
                assert(r.0[0] == r0.0);
                assert(r.0[i] == rr.0[i - 1]);
                assert(libs[i] == tail[i - 1]);
                let d0 = r0.0.sent.skip(libs[0].sent.len() as int);
                assert(d0[l - libs[0].sent.len()] == r0.0.sent[l]);
                assert(d0.to_set().contains(r0.0.sent[l]));
                assert(r0.1.contains(r0.0.sent[l]));
                assert(!r0.1.contains(rr.0[i - 1].sent[k]));
            } else {
                assert(r.0[i] == rr.0[i - 1]);
                assert(r.0[j] == rr.0[j - 1]);
                assert(libs[i] == tail[i - 1]);
                assert(libs[j] == tail[j - 1]);
            }
        }
    }
}

/// The collective day step keeps the deduplication invariant: sent lists
/// stay duplicate-free and pairwise disjoint, and stay covered by the ledger.
pub proof fn lemma_process_all_sent_ok(libs: Seq<LibModel>, scanned: Set<usize>)
    requires
        sent_distinct(libs),
        sent_claimed(libs, scanned),
    ensures
        ({
            let r = process_all_model(libs, scanned);
            &&& sent_distinct(r.0)
            &&& sent_claimed(r.0, r.1)
        }),
{
    let r = process_all_model(libs, scanned);
    lemma_process_all_props(libs, scanned);
    assert forall|i: int| 0 <= i < r.0.len() implies (#[trigger] r.0[i]).sent.no_duplicates() by {
        let s = r.0[i].sent;
        let old_len = libs[i].sent.len() as int;
        assert(libs[i].sent =~= s.take(old_len));
        assert forall|a: int, b: int| 0 <= a < b < s.len() implies s[a] != s[b] by {
            if b < old_len {
                assert(libs[i].sent[a] == s[a] && libs[i].sent[b] == s[b]);
            } else if a < old_len {
                assert(libs[i].sent[a] == s[a]);
                assert(scanned.contains(s[a]));
                assert(!scanned.contains(s[b]));
            } else {
                let sk = s.skip(old_len);
                assert(sk[a - old_len] == s[a] && sk[b - old_len] == s[b]);
                assert(sk.no_duplicates());
            }
        }
    }
    assert forall|i: int, j: int|
        0 <= i < r.0.len() && 0 <= j < r.0.len() && i != j
            implies (#[trigger] r.0[i]).sent.disjoint((#[trigger] r.0[j]).sent) by {
        let si = r.0[i].sent;
        let sj = r.0[j].sent;
        let oi = libs[i].sent.len() as int;
        let oj = libs[j].sent.len() as int;
        assert(libs[i].sent =~= si.take(oi));
        assert(libs[j].sent =~= sj.take(oj));
        assert forall|k: int, l: int| 0 <= k < si.len() && 0 <= l < sj.len() implies si[k] != sj[l] by {
            if k < oi && l < oj {
                assert(libs[i].sent[k] == si[k] && libs[j].sent[l] == sj[l]);
                assert(libs[i].sent.disjoint(libs[j].sent));
            } else if k < oi {
                assert(libs[i].sent[k] == si[k]);
                assert(scanned.contains(si[k]));
                assert(!scanned.contains(sj[l]));
            } else if l < oj {
                assert(libs[j].sent[l] == sj[l]);
                assert(scanned.contains(sj[l]));
                assert(!scanned.contains(si[k]));
            } else {
            }
        }
    }
    assert forall|i: int, k: int|
        0 <= i < r.0.len() && 0 <= k < r.0[i].sent.len()
            implies r.1.contains(#[trigger] r.0[i].sent[k]) by {
        let oi = libs[i].sent.len() as int;
        if k < oi {
            assert(libs[i].sent =~= r.0[i].sent.take(oi));
            assert(libs[i].sent[k] == r.0[i].sent[k]);
            assert(scanned.contains(libs[i].sent[k]));
            assert(scanned.subset_of(r.1));
        }
    }
}

/// The whole simulation state between days: the libraries, the global scan
/// ledger, the reservation set, the ids admitted so far in admission order,
/// and the days left until the next admission decision may be made.
#[verifier::ext_equal]
pub ghost struct SimState {
    pub libs: Seq<LibModel>,
    pub scanned: Set<usize>,
    pub to_scan: Set<usize>,
    pub signed: Seq<usize>,
    pub pending: usize,
}

/// One simulated day: when no signup is in flight, consult the admission
/// scheduler with `day_count - day` days remaining and, if it chooses a
/// library, record its id and start the system-wide countdown at that
/// library's signup delay; then run every library's day step in id order;
/// finally count the in-flight countdown down.
pub open spec fn day_model(st: SimState, scores: Seq<u32>, day_count: usize, day: usize) -> SimState {
    let st1 = if st.pending == 0 {
        let m = admit_model(st.libs, scores, st.scanned, st.to_scan, (day_count - day) as usize);
        match m.2 {
            None => st,
            Some(p) => SimState {
                libs: m.0,
                to_scan: m.1,
                signed: st.signed.push(st.libs[p].idx),
                pending: st.libs[p].days_to_signup,
                ..st
            },
        }
    } else {
        st
    };
    let pr = process_all_model(st1.libs, st1.scanned);
    let st2 = SimState { libs: pr.0, scanned: pr.1, ..st1 };
    SimState { pending: if st2.pending > 0 { (st2.pending - 1) as usize } else { 0 }, ..st2 }
}

/// The simulation from day `day` to the horizon `day_count`.
pub open spec fn sim_model(st: SimState, scores: Seq<u32>, day_count: usize, day: usize) -> SimState
    decreases day_count - day,
{
    if day >= day_count {
        st
    } else {
        sim_model(day_model(st, scores, day_count, day), scores, day_count, (day + 1) as usize)
    }
}

/// What a whole run returns: `fin` is the state after simulating every day
/// from `init`.
pub open spec fn run_outcome(init: SimState, scores: Seq<u32>, day_count: usize, fin: SimState) -> bool {
    fin == sim_model(init, scores, day_count, 0)
}

/// Determinism: the simulation's outcome is a function of its input alone,
/// so two runs over identical input (with the fixed id-order iteration the
/// driver uses) end in identical states and produce identical output.
pub proof fn lemma_run_deterministic(
    init: SimState,
    scores: Seq<u32>,
    day_count: usize,
    fin1: SimState,
    fin2: SimState,
)
    requires
        run_outcome(init, scores, day_count, fin1),
        run_outcome(init, scores, day_count, fin2),
    ensures
        fin1 == fin2,
{
}

/// The machine bounds the driver needs of every library: catalog ids index
/// into the score table, the catalog's total score fits in `u32`, and a
/// whole horizon of shipping slots fits in `usize`.
pub open spec fn driver_in_bounds(lib: LibModel, scores: Seq<u32>, day_count: usize) -> bool {
    &&& forall|k: int| 0 <= k < lib.books.len() ==> #[trigger] lib.books[k] < scores.len()
    &&& sum_scores(lib.books, scores) <= u32::MAX
    &&& lib.ship_rate * day_count <= usize::MAX
}

/// Simulates days `0..day_count` over fresh libraries whose ids are their
/// positions, and returns the admitted library ids in admission order.
/// The final state is exactly what `sim_model` computes from the input, so
/// the run is a function of its input; no book id ever appears twice across
/// or within the sent lists; and the scan ledger only ever grows.
#[verifier::loop_isolation(false)]
pub fn run(
    libraries: &mut Vec<Library>,
    books_to_scores: &ScoreTable,
    day_count: usize,
    scanned: &mut Ledger,
    to_scan: &mut Ledger,
) -> (signed: Vec<usize>)
    requires
        forall|i: int| 0 <= i < old(libraries)@.len() ==> (#[trigger] old(libraries)@[i])@.idx == i,
        forall|i: int| 0 <= i < old(libraries)@.len() ==> (#[trigger] old(libraries)@[i])@.sent.len() == 0,
        forall|i: int| 0 <= i < old(libraries)@.len()
            ==> driver_in_bounds((#[trigger] old(libraries)@[i])@, books_to_scores@, day_count),
    ensures
        ({
            let fin = sim_model(
                SimState {
                    libs: models(old(libraries)@),
                    scanned: old(scanned)@,
                    to_scan: old(to_scan)@,
                    signed: Seq::<usize>::empty(),
                    pending: 0,
                },
                books_to_scores@,
                day_count,
                0,
            );
            &&& models(final(libraries)@) == fin.libs
            &&& final(scanned)@ == fin.scanned
            &&& final(to_scan)@ == fin.to_scan
            &&& signed@ == fin.signed
        }),
        sent_distinct(models(final(libraries)@)),
        old(scanned)@.subset_of(final(scanned)@),
        old(scanned)@.len() <= final(scanned)@.len(),
        final(libraries)@.len() == old(libraries)@.len(),
        forall|i: int| 0 <= i < old(libraries)@.len()
            ==> (#[trigger] models(final(libraries)@)[i]).idx == i,
        forall|k: int| 0 <= k < signed@.len() ==> #[trigger] signed@[k] < old(libraries)@.len(),
{
    let ghost m0 = models(old(libraries)@);
    let ghost st0 = SimState {
        libs: m0,
        scanned: old(scanned)@,
        to_scan: old(to_scan)@,
        signed: Seq::<usize>::empty(),
        pending: 0,
    };
    let ghost total = sim_model(st0, books_to_scores@, day_count, 0);

    let mut signed: Vec<usize> = Vec::new();
    let mut pending: usize = 0;
    let mut day: usize = 0;

    while day < day_count
        invariant
            day <= day_count,
            libraries@.len() == m0.len(),
            forall|i: int| 0 <= i < m0.len() ==> (#[trigger] models(libraries@)[i]).idx == i,
            forall|i: int| 0 <= i < m0.len()
                && (#[trigger] models(libraries@)[i]).state == State::NeedsSignUp
                ==> models(libraries@)[i] == m0[i],
            sent_distinct(models(libraries@)),
            sent_claimed(models(libraries@), scanned@),
            old(scanned)@.subset_of(scanned@),
            forall|k: int| 0 <= k < signed@.len() ==> #[trigger] signed@[k] < m0.len(),
            sim_model(
                SimState {
                    libs: models(libraries@),
                    scanned: scanned@,
                    to_scan: to_scan@,
                    signed: signed@,
                    pending,
                },
                books_to_scores@,
                day_count,
                day,
            ) == total,
        decreases day_count - day,
    {
        let ghost st_top = SimState {
            libs: models(libraries@),
            scanned: scanned@,
            to_scan: to_scan@,
            signed: signed@,
            pending,
        };
        let ghost day_top = day;
        let days_left = day_count - day;

        if pending == 0 {
            proof {
                let mcur = models(libraries@);
                assert forall|i: int|
                    0 <= i < libraries@.len() && candidate(mcur[i], days_left)
                        implies scoring_in_bounds(mcur[i], books_to_scores@, days_left) by {
                    assert(mcur[i].state == State::NeedsSignUp);
                    assert(mcur[i] == m0[i]);
                    assert(driver_in_bounds(m0[i], books_to_scores@, day_count));
                    assert(forall|k: int| 0 <= k < mcur[i].books.len()
                        ==> #[trigger] mcur[i].books[k] < books_to_scores@.len()) by {
                        assert(mcur[i].books == m0[i].books);
                        assert(forall|k: int| 0 <= k < m0[i].books.len()
                            ==> #[trigger] m0[i].books[k] < books_to_scores@.len());
                    }
                    assert(sum_scores(mcur[i].books, books_to_scores@) <= u32::MAX);
                    assert((days_left - mcur[i].days_to_signup) * mcur[i].ship_rate
                        <= usize::MAX) by (nonlinear_arith)
                        requires
                            0 <= days_left - mcur[i].days_to_signup <= day_count,
                            mcur[i].ship_rate >= 0,
                            mcur[i].ship_rate * day_count <= usize::MAX,
                    ;
                }
                assert forall|i: int| 0 <= i < libraries@.len()
                    implies (#[trigger] libraries@[i])@.idx == i by {
                    assert(models(libraries@)[i] == libraries@[i]@);
                }
            }
            let ghost m_at_call = models(libraries@);
            let ghost ts_at_call = to_scan@;
            let picked = signup_one_lib(libraries, books_to_scores, scanned, to_scan, days_left);
            let ghost adm = admit_model(m_at_call, books_to_scores@, scanned@, ts_at_call, days_left);
            if let Some(idx) = picked {
                proof {
                    let p = adm.2.unwrap();
                    assert(idx as int == p);
                    assert(models(libraries@) == adm.0);
                    assert(models(libraries@)[p] == (LibModel {
                        state: State::InProcess(m_at_call[p].days_to_signup),
                        ..m_at_call[p]
                    }));
                }
                signed.push(idx);
                pending = libraries[idx].days_to_signup();
            }
            proof {
                let mcur = models(libraries@);
                if picked is Some {
                    let p = adm.2.unwrap();
                    assert forall|i: int| 0 <= i < m0.len() implies (#[trigger] mcur[i]).idx == i by {
                        if i != p {
                            assert(mcur[i] == m_at_call[i]);
                        }
                    }
                    assert forall|i: int|
                        0 <= i < m0.len() && (#[trigger] mcur[i]).state == State::NeedsSignUp
                            implies mcur[i] == m0[i] by {
                        if i != p {
                            assert(mcur[i] == m_at_call[i]);
                        }
                    }
                    assert forall|i: int| 0 <= i < mcur.len()
                        implies (#[trigger] mcur[i]).sent == m_at_call[i].sent by {
                        if i != p {
                            assert(mcur[i] == m_at_call[i]);
                        }
                    }
                    assert(sent_distinct(mcur)) by {
                        assert forall|i: int| 0 <= i < mcur.len()
                            implies (#[trigger] mcur[i]).sent.no_duplicates() by {
                            assert(mcur[i].sent == m_at_call[i].sent);
                        }
                        assert forall|i: int, j: int|
                            0 <= i < mcur.len() && 0 <= j < mcur.len() && i != j
                                implies (#[trigger] mcur[i]).sent.disjoint((#[trigger] mcur[j]).sent) by {
                            assert(mcur[i].sent == m_at_call[i].sent);
                            assert(mcur[j].sent == m_at_call[j].sent);
                        }
                    }
                    assert(sent_claimed(mcur, scanned@)) by {
                        assert forall|i: int, k: int|
                            0 <= i < mcur.len() && 0 <= k < mcur[i].sent.len()
                                implies scanned@.contains(#[trigger] mcur[i].sent[k]) by {
                            assert(mcur[i].sent == m_at_call[i].sent);
                        }
                    }
                }
            }
        }

        let ghost mid = SimState {
            libs: models(libraries@),
            scanned: scanned@,
            to_scan: to_scan@,
            signed: signed@,
            pending,
        };
        let ghost pa = process_all_model(mid.libs, mid.scanned);
        proof {
            lemma_process_all_props(mid.libs, mid.scanned);
            assert(models(libraries@).take(0) =~= pa.0.take(0));
            assert(models(libraries@).skip(0) =~= models(libraries@));
            assert(pa.0.skip(0) =~= pa.0);
            assert(pa == (pa.0, pa.1));
        }

        let mut i: usize = 0;
        while i < libraries.len()
            invariant
                i <= libraries@.len(),
                libraries@.len() == mid.libs.len(),
                models(libraries@).take(i as int) == pa.0.take(i as int),
                process_all_model(models(libraries@).skip(i as int), scanned@) == (pa.0.skip(i as int), pa.1),
            decreases libraries@.len() - i,
        {
            let ghost prev = models(libraries@);
            let ghost sc_prev = scanned@;
            proof {
                let s = prev.skip(i as int);
                assert(s.len() > 0);
                assert(s[0] == prev[i as int]);
            }
            let mut libi = libraries.remove(i);
            libi.process(scanned);
            libraries.insert(i, libi);
            proof {
                let s = prev.skip(i as int);
                let r0 = process_model(prev[i as int], sc_prev);
                assert(libraries@.len() == prev.len());
                assert(forall|k: int| 0 <= k < prev.len() && k != i as int
                    ==> #[trigger] models(libraries@)[k] == prev[k]);
                assert(models(libraries@)[i as int] == r0.0);
                assert(s.skip(1) =~= prev.skip(i + 1 as int));
                assert(models(libraries@).skip(i + 1 as int) =~= prev.skip(i + 1 as int));
                let rr = process_all_model(prev.skip(i + 1 as int), r0.1);
                assert(process_all_model(s, sc_prev) == (seq![r0.0] + rr.0, rr.1));
                assert(pa.0.skip(i as int) == seq![r0.0] + rr.0);
                assert(pa.0.skip(i as int)[0] == r0.0);
                assert(pa.0[i as int] == r0.0);
                assert(pa.0.skip(i + 1 as int) =~= rr.0) by {
                    assert(pa.0.skip(i as int).skip(1) =~= pa.0.skip(i + 1 as int));
                    assert((seq![r0.0] + rr.0).skip(1) =~= rr.0);
                }
                assert(models(libraries@).take(i + 1 as int) =~= pa.0.take(i + 1 as int)) by {
                    assert forall|k: int| 0 <= k < i + 1 implies models(libraries@)[k] == pa.0[k] by {
                        if k < i as int {
                            assert(models(libraries@)[k] == prev[k]);
                            assert(prev.take(i as int)[k] == pa.0.take(i as int)[k]);
                        }
                    }
                }
            }
            i += 1;
        }

        proof {
            assert(models(libraries@).skip(i as int) =~= Seq::<LibModel>::empty());
            assert(process_all_model(Seq::<LibModel>::empty(), scanned@) == (Seq::<LibModel>::empty(), scanned@));
            assert(pa.0.skip(i as int) =~= Seq::<LibModel>::empty());
            assert(pa.0.len() == mid.libs.len());
            assert(scanned@ == pa.1);
            assert(models(libraries@) =~= pa.0) by {
                assert(models(libraries@).take(i as int) =~= models(libraries@));
                assert(pa.0.take(i as int) =~= pa.0);
            }
            lemma_process_all_sent_ok(mid.libs, mid.scanned);
            assert forall|i2: int| 0 <= i2 < m0.len()
                && (#[trigger] models(libraries@)[i2]).state == State::NeedsSignUp
                implies models(libraries@)[i2] == m0[i2] by {
                assert(pa.0[i2].state == State::NeedsSignUp);
                assert(mid.libs[i2].state == State::NeedsSignUp);
                assert(pa.0[i2] == mid.libs[i2]);
            }
        }

        if pending > 0 {
            pending = pending - 1;
        }
        day = day + 1;

        proof {
            let st_new = SimState {
                libs: models(libraries@),
                scanned: scanned@,
                to_scan: to_scan@,
                signed: signed@,
                pending,
            };
            assert(st_new =~= day_model(st_top, books_to_scores@, day_count, day_top));
            assert(sim_model(st_top, books_to_scores@, day_count, day_top)
                == sim_model(day_model(st_top, books_to_scores@, day_count, day_top),
                    books_to_scores@, day_count, (day_top + 1) as usize));
        }
    }

    proof {
        scanned.lemma_finite();
        lemma_len_subset(old(scanned)@, scanned@);
    }
    signed
}

/// The run's report: for each admitted library, in admission order, that
/// shipped at least one book, its id paired with the books it shipped in
/// shipment order. Libraries that shipped nothing are left out.
pub open spec fn summary_model(libs: Seq<LibModel>, signed: Seq<usize>) -> Seq<(usize, Seq<usize>)>
    decreases signed.len(),
{
    if signed.len() == 0 {
        Seq::<(usize, Seq<usize>)>::empty()
    } else {
        let p = signed[0];
        let rest = summary_model(libs, signed.skip(1));
        if libs[p as int].sent.len() > 0 {
            seq![(p, libs[p as int].sent)] + rest
        } else {
            rest
        }
    }
}

/// The entries of a report vector, with each shipped list abstracted to a
/// sequence.
pub open spec fn entry_views(out: Seq<(usize, Vec<usize>)>) -> Seq<(usize, Seq<usize>)> {
    out.map_values(|e: (usize, Vec<usize>)| (e.0, e.1@))
}

/// A verified element-by-element copy of a list of book ids.
fn copy_ids(v: &Vec<usize>) -> (r: Vec<usize>)
    ensures
        r@ == v@,
{
    let mut r: Vec<usize> = Vec::new();
    let mut i: usize = 0;
    while i < v.len()
        invariant
            i <= v@.len(),
            r@ == v@.take(i as int),
        decreases v@.len() - i,
    {
        r.push(v[i]);
        proof {
            assert(v@.take(i as int).push(v@[i as int]) =~= v@.take(i + 1 as int));
        }
        i += 1;
    }
    proof {
        assert(v@.take(v@.len() as int) =~= v@);
    }
    r
}

/// Builds the run's report from the libraries and the admitted ids, in
/// admission order: each admitted library that shipped at least one book
/// contributes its id and its shipped books; the report's length is the
/// count the output starts with.
#[verifier::loop_isolation(false)]
pub fn summarize(libraries: &Vec<Library>, signed: &Vec<usize>) -> (out: Vec<(usize, Vec<usize>)>)
    requires
        forall|i: int| 0 <= i < libraries@.len() ==> (#[trigger] libraries@[i])@.idx == i,
        forall|k: int| 0 <= k < signed@.len() ==> #[trigger] signed@[k] < libraries@.len(),
    ensures
        entry_views(out@) == summary_model(models(libraries@), signed@),
{
    let ghost m = models(libraries@);
    let ghost goal = summary_model(m, signed@);
    let mut out: Vec<(usize, Vec<usize>)> = Vec::new();
    let mut k: usize = 0;
    proof {
        assert(entry_views(out@) =~= Seq::<(usize, Seq<usize>)>::empty());
        assert(signed@.skip(0) =~= signed@);
        assert(entry_views(out@) + summary_model(m, signed@) =~= summary_model(m, signed@));
    }
    while k < signed.len()
        invariant
            k <= signed@.len(),
            entry_views(out@) + summary_model(m, signed@.skip(k as int)) == goal,
        decreases signed@.len() - k,
    {
        let p = signed[k];
        let ghost s = signed@.skip(k as int);
        proof {
            assert(s[0] == signed@[k as int]);
            assert(s.skip(1) =~= signed@.skip(k + 1 as int));
        }
        let ghost out_before = out@;
        if libraries[p].sent().len() > 0 {
            let shipped = copy_ids(libraries[p].sent());
            out.push((p, shipped));
            proof {
                assert(m[p as int].sent == libraries@[p as int]@.sent);
                assert(entry_views(out@) =~= entry_views(out_before) + seq![(p, m[p as int].sent)]);
                assert(summary_model(m, s) == seq![(p, m[p as int].sent)] + summary_model(m, signed@.skip(k + 1 as int)));
                assert((entry_views(out_before) + seq![(p, m[p as int].sent)])
                    + summary_model(m, signed@.skip(k + 1 as int))
                    =~= entry_views(out_before) + summary_model(m, s));
            }
        } else {
            proof {
                assert(m[p as int].sent == libraries@[p as int]@.sent);
                assert(summary_model(m, s) == summary_model(m, signed@.skip(k + 1 as int)));
            }
        }
        k += 1;
    }
    proof {
        assert(signed@.skip(signed@.len() as int) =~= Seq::<usize>::empty());
        assert(entry_views(out@) + Seq::<(usize, Seq<usize>)>::empty() =~= entry_views(out@));
    }
    out
}

} // verus!
