//! The admission scheduler: each day it may admit at most one library.
//! Candidates are the `NeedsSignUp` libraries whose signup would still
//! leave at least one shipping day before the deadline; each is scored by
//! a lookahead estimate and the best one (the last such in id order, on a
//! tie) is moved into its signup countdown, with its best-looking books
//! reserved so later lookaheads treat them as spoken for.

use vstd::prelude::*;
use crate::ledger::Ledger;
use crate::scores::ScoreTable;
use crate::scores::sum_scores;
use crate::library::Library;
use crate::library::LibModel;
use crate::library::State;
use crate::library::approx_spec;
use crate::library::models;

verus! {

/// Whether `lib` may be admitted with `days` days left: it must still need
/// signup, and its delay must leave at least one day to ship (strict `<`).
pub open spec fn candidate(lib: LibModel, days: usize) -> bool {
    lib.state == State::NeedsSignUp && lib.days_to_signup < days
}

/// The number of book slots `lib` could fill between finishing signup and
/// the deadline, with `days` days left.
pub open spec fn capacity(lib: LibModel, days: usize) -> nat {
    ((days - lib.days_to_signup) * lib.ship_rate) as nat
}

/// The lookahead estimate of `lib`, as `signup_approx` computes it.
pub open spec fn approx_of(
    lib: LibModel,
    scores: Seq<u32>,
    scanned: Set<usize>,
    to_scan: Set<usize>,
    days: usize,
) -> int {
    approx_spec(lib.books, scores, scanned, to_scan, capacity(lib, days))
}

/// The machine bounds the scheduler needs of a candidate: catalog ids index
/// into the score table, the capacity product fits in `usize`, and the
/// catalog's total score fits in `u32`.
pub open spec fn scoring_in_bounds(lib: LibModel, scores: Seq<u32>, days: usize) -> bool {
    &&& forall|k: int| 0 <= k < lib.books.len() ==> #[trigger] lib.books[k] < scores.len()
    &&& (days - lib.days_to_signup) * lib.ship_rate <= usize::MAX
    &&& sum_scores(lib.books, scores) <= u32::MAX
}

/// The candidate chosen among the first `n` libraries: the one with the
/// maximum estimate, the last such position on a tie. `None` when none of
/// the first `n` libraries is a candidate.
pub open spec fn select_rec(
    libs: Seq<LibModel>,
    scores: Seq<u32>,
    scanned: Set<usize>,
    to_scan: Set<usize>,
    days: usize,
    n: int,
) -> Option<int>
    decreases n,
{
    if n <= 0 {
        None::<int>
    } else {
        let prev = select_rec(libs, scores, scanned, to_scan, days, n - 1);
        if !candidate(libs[n - 1], days) {
            prev
        } else {
            match prev {
                None => Some(n - 1),
                Some(p) => if approx_of(libs[n - 1], scores, scanned, to_scan, days)
                    >= approx_of(libs[p], scores, scanned, to_scan, days) {
                    Some(n - 1)
                } else {
                    Some(p)
                },
            }
        }
    }
}

/// The candidate the scheduler chooses among all libraries.
pub open spec fn select_model(
    libs: Seq<LibModel>,
    scores: Seq<u32>,
    scanned: Set<usize>,
    to_scan: Set<usize>,
    days: usize,
) -> Option<int> {
    select_rec(libs, scores, scanned, to_scan, days, libs.len() as int)
}

/// The selection is `None` exactly when there is no candidate; otherwise it
/// is a candidate position whose estimate no candidate exceeds, and that no
/// later candidate position matches.
pub proof fn lemma_select_rec_props(
    libs: Seq<LibModel>,
    scores: Seq<u32>,
    scanned: Set<usize>,
    to_scan: Set<usize>,
    days: usize,
    n: int,
)
    requires
        0 <= n <= libs.len(),
    ensures
        ({
            match select_rec(libs, scores, scanned, to_scan, days, n) {
                None => forall|j: int| 0 <= j < n ==> !candidate(#[trigger] libs[j], days),
                Some(p) => {
                    &&& 0 <= p < n
                    &&& candidate(libs[p], days)
                    &&& forall|j: int| 0 <= j < n && candidate(#[trigger] libs[j], days)
                        ==> approx_of(libs[j], scores, scanned, to_scan, days)
                            <= approx_of(libs[p], scores, scanned, to_scan, days)
                    &&& forall|j: int| p < j < n && candidate(#[trigger] libs[j], days)
                        ==> approx_of(libs[j], scores, scanned, to_scan, days)
                            < approx_of(libs[p], scores, scanned, to_scan, days)
                },
            }
        }),
    decreases n,
{
    if n > 0 {
        lemma_select_rec_props(libs, scores, scanned, to_scan, days, n - 1);
    }
}

/// The reservation pass: walk `books` from the tail (highest score first)
/// with `fuel` slots, skipping books claimed in `scanned` or already in the
/// reservation set, and insert each other book into the reservation set.
/// Returns the grown reservation set.
pub open spec fn reserve_spec(
    books: Seq<usize>,
    scanned: Set<usize>,
    to_scan: Set<usize>,
    fuel: nat,
) -> Set<usize>
    decreases books.len(),
{
    if books.len() == 0 || fuel == 0 {
        to_scan
    } else {
        let book = books.last();
        let rest = books.drop_last();
        if scanned.contains(book) || to_scan.contains(book) {
            reserve_spec(rest, scanned, to_scan, fuel)
        } else {
            reserve_spec(rest, scanned, to_scan.insert(book), (fuel - 1) as nat)
        }
    }
}

/// The reservation set only grows.
pub proof fn lemma_reserve_spec_grows(
    books: Seq<usize>,
    scanned: Set<usize>,
    to_scan: Set<usize>,
    fuel: nat,
)
    ensures
        to_scan.subset_of(reserve_spec(books, scanned, to_scan, fuel)),
    decreases books.len(),
{
    if books.len() == 0 || fuel == 0 {
    } else {
        let book = books.last();
        let rest = books.drop_last();
        if scanned.contains(book) || to_scan.contains(book) {
            lemma_reserve_spec_grows(rest, scanned, to_scan, fuel);
        } else {
            lemma_reserve_spec_grows(rest, scanned, to_scan.insert(book), (fuel - 1) as nat);
        }
    }
}

/// One admission round: select a candidate; if there is one at position
/// `p`, start its countdown and run the reservation pass for it. Returns
/// (libraries after, reservation set after, chosen position).
pub open spec fn admit_model(
    libs: Seq<LibModel>,
    scores: Seq<u32>,
    scanned: Set<usize>,
    to_scan: Set<usize>,
    days: usize,
) -> (Seq<LibModel>, Set<usize>, Option<int>) {
    match select_model(libs, scores, scanned, to_scan, days) {
        None => (libs, to_scan, None::<int>),
        Some(p) => {
            let lib = libs[p];
            (
                libs.update(p, LibModel { state: State::InProcess(lib.days_to_signup), ..lib }),
                reserve_spec(lib.books, scanned, to_scan, capacity(lib, days)),
                Some(p),
            )
        },
    }
}

/// Considers every `NeedsSignUp` library whose signup still fits before the
/// deadline, scores each with `signup_approx` against the ledger and the
/// reservation set, admits the best one (the last in id order on a tie) by
/// starting its countdown, reserves its best unclaimed books in `to_scan`,
/// and returns its id. Returns `None`, changing nothing, exactly when no
/// library is a candidate. A library is only ever admitted while
/// `days_to_signup < days`.
#[verifier::loop_isolation(false)]
pub fn signup_one_lib(
    libraries: &mut Vec<Library>,
    books_to_scores: &ScoreTable,
    scanned: &Ledger,
    to_scan: &mut Ledger,
    days: usize,
) -> (r: Option<usize>)
    requires
        forall|i: int| 0 <= i < old(libraries)@.len()
            ==> (#[trigger] old(libraries)@[i])@.idx == i,
        forall|i: int| 0 <= i < old(libraries)@.len()
            && candidate(models(old(libraries)@)[i], days)
            ==> scoring_in_bounds(models(old(libraries)@)[i], books_to_scores@, days),
    ensures
        ({
            let m = admit_model(models(old(libraries)@), books_to_scores@, scanned@, old(to_scan)@, days);
            &&& models(final(libraries)@) == m.0
            &&& final(to_scan)@ == m.1
            &&& match (r, m.2) {
                (None, None) => true,
                (Some(x), Some(p)) => x as int == p,
                _ => false,
            }
        }),
        final(libraries)@.len() == old(libraries)@.len(),
        old(to_scan)@.subset_of(final(to_scan)@),
        r is None <==> (forall|i: int| 0 <= i < old(libraries)@.len()
            ==> !candidate(#[trigger] models(old(libraries)@)[i], days)),
        r is Some ==> {
            let p = r.unwrap() as int;
            &&& 0 <= p < old(libraries)@.len()
            &&& candidate(models(old(libraries)@)[p], days)
            &&& models(old(libraries)@)[p].days_to_signup < days
            &&& forall|j: int| 0 <= j < old(libraries)@.len()
                && candidate(#[trigger] models(old(libraries)@)[j], days)
                ==> approx_of(models(old(libraries)@)[j], books_to_scores@, scanned@, old(to_scan)@, days)
                    <= approx_of(models(old(libraries)@)[p], books_to_scores@, scanned@, old(to_scan)@, days)
        },
{
    let ghost m0 = models(old(libraries)@);
    let ghost sc0 = scanned@;
    let ghost ts0 = old(to_scan)@;

    let mut best: Option<usize> = None;
    let mut best_score: u32 = 0;
    let mut i: usize = 0;
    while i < libraries.len()
        invariant
            i <= libraries.len(),
            libraries@ == old(libraries)@,
            to_scan@ == ts0,
            match (best, select_rec(m0, books_to_scores@, sc0, ts0, days, i as int)) {
                (None, None) => true,
                (Some(b), Some(p)) => b as int == p
                    && best_score == approx_of(m0[p], books_to_scores@, sc0, ts0, days),
                _ => false,
            },
        decreases libraries.len() - i,
    {
        let is_cand = match libraries[i].state() {
            State::NeedsSignUp => libraries[i].days_to_signup() < days,
            _ => false,
        };
        proof {
            assert(m0[i as int] == libraries@[i as int]@);
            assert(is_cand == candidate(m0[i as int], days));
        }
        if is_cand {
            let s = libraries[i].signup_approx(books_to_scores, scanned, to_scan, days);
            let replace = match best {
                None => true,
                Some(_) => s >= best_score,
            };
            if replace {
                best = Some(i);
                best_score = s;
            }
        }
        i += 1;
    }

    proof {
        lemma_select_rec_props(m0, books_to_scores@, sc0, ts0, days, m0.len() as int);
    }

    match best {
        None => None,
        Some(p) => {
            let mut chosen = libraries.remove(p);
            chosen.signup();

            let cap: usize = (days - chosen.days_to_signup()) * chosen.ship_rate();
            let ghost target = reserve_spec(m0[p as int].books, sc0, ts0, capacity(m0[p as int], days));
            proof {
                assert(chosen@.books == m0[p as int].books);
                assert(cap as nat == capacity(m0[p as int], days));
                assert(m0[p as int].books.take(chosen@.books.len() as int) == m0[p as int].books);
            }

            let mut j: usize = chosen.books().len();
            let mut cnt: usize = 0;
            while j > 0 && cnt < cap
                invariant
                    j <= chosen@.books.len(),
                    cnt <= cap,
                    libraries@ == old(libraries)@.remove(p as int),
                    chosen@ == (LibModel { state: State::InProcess(m0[p as int].days_to_signup), ..m0[p as int] }),
                    reserve_spec(m0[p as int].books.take(j as int), sc0, to_scan@, (cap - cnt) as nat) == target,
                decreases j,
            {
                j -= 1;
                let ghost t1 = m0[p as int].books.take(j + 1 as int);
                let ghost fuel = (cap - cnt) as nat;
                let book = chosen.books()[j];
                proof {
                    assert(t1.last() == book);
                    assert(t1.drop_last() =~= m0[p as int].books.take(j as int));
                }
                if scanned.contains(book) || to_scan.contains(book) {
                    proof {
                        assert(reserve_spec(t1, sc0, to_scan@, fuel)
                            == reserve_spec(m0[p as int].books.take(j as int), sc0, to_scan@, fuel));
                    }
                } else {
                    let ghost ts_before = to_scan@;
                    to_scan.insert(book);
                    cnt += 1;
                    proof {
                        assert(reserve_spec(t1, sc0, ts_before, fuel)
                            == reserve_spec(m0[p as int].books.take(j as int), sc0, ts_before.insert(book), (fuel - 1) as nat));
                    }
                }
            }
            proof {
                if j == 0 {
                    assert(m0[p as int].books.take(0) =~= Seq::<usize>::empty());
                }
                assert(to_scan@ == target);
            }

            let result = chosen.index();
            libraries.insert(p, chosen);

            proof {
                let updated = LibModel { state: State::InProcess(m0[p as int].days_to_signup), ..m0[p as int] };
                assert(libraries@ =~= old(libraries)@.update(p as int, libraries@[p as int]));
                assert(models(libraries@) =~= m0.update(p as int, updated));
                lemma_reserve_spec_grows(m0[p as int].books, sc0, ts0, capacity(m0[p as int], days));
            }
            Some(result)
        },
    }
}

} // verus!
