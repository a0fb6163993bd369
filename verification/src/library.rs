//! A single scheduling agent: a library with a signup delay, a daily
//! shipping rate, an ordered catalog of book ids, and a state machine
//! status. The catalog must be ordered so that popping from its tail
//! yields books in descending score order; it is consumed from the tail.

use vstd::prelude::*;
use crate::ledger::Ledger;
use crate::scores::ScoreTable;
use crate::scores::sum_scores;
use crate::scores::lemma_sum_scores_nonneg;

verus! {

/// The lifecycle status of a library. It only ever moves forward:
/// `NeedsSignUp` -> `InProcess(n)` -> ... -> `InProcess(0)` -> `SignedUp`.
#[derive(Debug, PartialEq, Eq, Structural, Copy, Clone)]
pub enum State {
    /// Signup finished; the library ships books every day.
    SignedUp,
    /// Signup countdown: the number of further days before shipping starts.
    InProcess(usize),
    /// Not yet chosen by the admission scheduler.
    NeedsSignUp,
}

/// The mathematical model of a `Library`: the same fields with the two
/// vectors abstracted to sequences.
#[verifier::ext_equal]
pub ghost struct LibModel {
    pub idx: usize,
    pub state: State,
    pub days_to_signup: usize,
    pub ship_rate: usize,
    pub books: Seq<usize>,
    pub sent: Seq<usize>,
}

pub struct Library {
    idx: usize,
    state: State,
    days_to_signup: usize,
    ship_rate: usize,
    books: Vec<usize>,
    sent: Vec<usize>,
}

impl View for Library {
    type V = LibModel;

    closed spec fn view(&self) -> LibModel {
        LibModel {
            idx: self.idx,
            state: self.state,
            days_to_signup: self.days_to_signup,
            ship_rate: self.ship_rate,
            books: self.books@,
            sent: self.sent@,
        }
    }
}

/// The models of a sequence of libraries, in the same order.
pub open spec fn models(libs: Seq<Library>) -> Seq<LibModel> {
    libs.map_values(|l: Library| l@)
}

/// One shipment call: pop books from the tail of `books` until it is empty
/// or `fuel` books have been shipped. A popped book already in `scanned` is
/// discarded and does not count against `fuel`; any other popped book is
/// shipped: appended to the sent list and inserted into `scanned`.
/// Returns (remaining catalog, books shipped in order, grown ledger).
pub open spec fn ship_spec(books: Seq<usize>, scanned: Set<usize>, fuel: nat) -> (Seq<usize>, Seq<usize>, Set<usize>)
    decreases books.len(),
{
    if books.len() == 0 || fuel == 0 {
        (books, Seq::<usize>::empty(), scanned)
    } else {
        let book = books.last();
        let rest = books.drop_last();
        if scanned.contains(book) {
            ship_spec(rest, scanned, fuel)
        } else {
            let r = ship_spec(rest, scanned.insert(book), (fuel - 1) as nat);
            (r.0, seq![book] + r.1, r.2)
        }
    }
}

/// What `ship` does to a whole library and the shared ledger.
pub open spec fn ship_model(lib: LibModel, scanned: Set<usize>) -> (LibModel, Set<usize>) {
    let r = ship_spec(lib.books, scanned, lib.ship_rate as nat);
    (LibModel { books: r.0, sent: lib.sent + r.1, ..lib }, r.2)
}

/// One simulated day of a library's state machine, given the shared ledger:
/// `SignedUp` ships; `InProcess(0)` becomes `SignedUp` and ships the same
/// day; `InProcess(n > 0)` only counts down; `NeedsSignUp` does nothing.
pub open spec fn process_model(lib: LibModel, scanned: Set<usize>) -> (LibModel, Set<usize>) {
    match lib.state {
        State::SignedUp => ship_model(lib, scanned),
        State::InProcess(days) => if days == 0 {
            ship_model(LibModel { state: State::SignedUp, ..lib }, scanned)
        } else {
            (LibModel { state: State::InProcess((days - 1) as usize), ..lib }, scanned)
        },
        State::NeedsSignUp => (lib, scanned),
    }
}

/// The books a shipment sends are fresh (not previously claimed), free of
/// duplicates, no more than `fuel` many, and the ledger afterwards is the
/// old ledger plus exactly those books.
pub proof fn lemma_ship_spec_props(books: Seq<usize>, scanned: Set<usize>, fuel: nat)
    ensures
        ({
            let r = ship_spec(books, scanned, fuel);
            &&& r.1.len() <= fuel
            &&& r.1.no_duplicates()
            &&& forall|k: int| 0 <= k < r.1.len() ==> !scanned.contains(#[trigger] r.1[k])
            &&& r.2 == scanned.union(r.1.to_set())
            &&& scanned.subset_of(r.2)
        }),
    decreases books.len(),
{
    let r = ship_spec(books, scanned, fuel);
    if books.len() == 0 || fuel == 0 {
        assert(r.2 =~= scanned.union(r.1.to_set()));
    } else {
        let book = books.last();
        let rest = books.drop_last();
        if scanned.contains(book) {
            lemma_ship_spec_props(rest, scanned, fuel);
        } else {
            let s1 = scanned.insert(book);
            lemma_ship_spec_props(rest, s1, (fuel - 1) as nat);
            let rr = ship_spec(rest, s1, (fuel - 1) as nat);
            assert(r.1 == seq![book] + rr.1);
            assert forall|k: int| 0 <= k < r.1.len() implies !scanned.contains(#[trigger] r.1[k]) by {
                if k == 0 {
                    assert(r.1[0] == book);
                } else {
                    assert(r.1[k] == rr.1[k - 1]);
                    assert(!s1.contains(rr.1[k - 1]));
                }
            }
            assert forall|k: int| 0 <= k < rr.1.len() implies #[trigger] rr.1[k] != book by {
                assert(!s1.contains(rr.1[k]));
            }
            assert(r.1.no_duplicates());
            assert(r.2 =~= scanned.union(r.1.to_set())) by {
                assert(rr.2 == s1.union(rr.1.to_set()));
                assert forall|x: usize| r.1.to_set().contains(x) <==> (x == book || rr.1.to_set().contains(x)) by {
                    if r.1.to_set().contains(x) {
                        let k = choose|k: int| 0 <= k < r.1.len() && r.1[k] == x;
                        if k > 0 {
                            assert(rr.1[k - 1] == x);
                        }
                    }
                    if rr.1.to_set().contains(x) {
                        let k = choose|k: int| 0 <= k < rr.1.len() && rr.1[k] == x;
                        assert(r.1[k + 1] == x);
                    }
                    assert(r.1[0] == book);
                }
            }
        }
    }
}

/// `process_model` never removes a sent book, never changes a library's
/// identity or parameters, never shrinks the ledger, and leaves a
/// `NeedsSignUp` library entirely alone.
pub proof fn lemma_process_model_props(lib: LibModel, scanned: Set<usize>)
    ensures
        ({
            let r = process_model(lib, scanned);
            &&& r.0.idx == lib.idx
            &&& r.0.days_to_signup == lib.days_to_signup
            &&& r.0.ship_rate == lib.ship_rate
            &&& r.0.sent.len() <= lib.sent.len() + lib.ship_rate
            &&& lib.sent.is_prefix_of(r.0.sent)
            &&& r.0.sent.skip(lib.sent.len() as int).no_duplicates()
            &&& forall|k: int| lib.sent.len() <= k < r.0.sent.len() ==> !scanned.contains(#[trigger] r.0.sent[k])
            &&& r.1 == scanned.union(r.0.sent.skip(lib.sent.len() as int).to_set())
            &&& scanned.subset_of(r.1)
            &&& lib.state == State::NeedsSignUp ==> r == (lib, scanned)
            &&& r.0.state == State::NeedsSignUp ==> lib.state == State::NeedsSignUp
        }),
{
    let r = process_model(lib, scanned);
    match lib.state {
        State::SignedUp => {
            lemma_ship_spec_props(lib.books, scanned, lib.ship_rate as nat);
            let s = ship_spec(lib.books, scanned, lib.ship_rate as nat);
            assert(r.0.sent == lib.sent + s.1);
            assert(r.0.sent.skip(lib.sent.len() as int) =~= s.1);
            assert(lib.sent.is_prefix_of(r.0.sent)) by {
                assert(r.0.sent.take(lib.sent.len() as int) =~= lib.sent);
            }
        },
        State::InProcess(days) => {
            if days == 0 {
                let lib1 = LibModel { state: State::SignedUp, ..lib };
                lemma_ship_spec_props(lib1.books, scanned, lib1.ship_rate as nat);
                let s = ship_spec(lib1.books, scanned, lib1.ship_rate as nat);
                assert(r.0.sent == lib.sent + s.1);
                assert(r.0.sent.skip(lib.sent.len() as int) =~= s.1);
                assert(lib.sent.is_prefix_of(r.0.sent)) by {
                    assert(r.0.sent.take(lib.sent.len() as int) =~= lib.sent);
                }
            } else {
                assert(r.0.sent.skip(lib.sent.len() as int) =~= Seq::<usize>::empty());
                assert(r.1 =~= scanned.union(r.0.sent.skip(lib.sent.len() as int).to_set()));
                assert(lib.sent.is_prefix_of(r.0.sent)) by {
                    assert(r.0.sent.take(lib.sent.len() as int) =~= lib.sent);
                }
            }
        },
        State::NeedsSignUp => {
            assert(r.0.sent.skip(lib.sent.len() as int) =~= Seq::<usize>::empty());
            assert(r.1 =~= scanned.union(r.0.sent.skip(lib.sent.len() as int).to_set()));
            assert(lib.sent.is_prefix_of(r.0.sent)) by {
                assert(r.0.sent.take(lib.sent.len() as int) =~= lib.sent);
            }
        },
    }
}

/// The value a library would deliver if admitted now: walk the catalog from
/// the tail (highest score first), skip books claimed in `scanned` or
/// reserved in `to_scan`, and total the scores of up to `fuel` unclaimed
/// books. Skipped books do not count against `fuel`.
pub open spec fn approx_spec(
    books: Seq<usize>,
    scores: Seq<u32>,
    scanned: Set<usize>,
    to_scan: Set<usize>,
    fuel: nat,
) -> int
    decreases books.len(),
{
    if books.len() == 0 || fuel == 0 {
        0
    } else {
        let book = books.last();
        let rest = books.drop_last();
        if scanned.contains(book) || to_scan.contains(book) {
            approx_spec(rest, scores, scanned, to_scan, fuel)
        } else {
            scores[book as int] + approx_spec(rest, scores, scanned, to_scan, (fuel - 1) as nat)
        }
    }
}

/// The estimate is never negative and never exceeds the catalog's total score.
pub proof fn lemma_approx_bounds(
    books: Seq<usize>,
    scores: Seq<u32>,
    scanned: Set<usize>,
    to_scan: Set<usize>,
    fuel: nat,
)
    ensures
        0 <= approx_spec(books, scores, scanned, to_scan, fuel),
        approx_spec(books, scores, scanned, to_scan, fuel) <= sum_scores(books, scores),
    decreases books.len(),
{
    lemma_sum_scores_nonneg(books, scores);
    if books.len() == 0 || fuel == 0 {
    } else {
        let rest = books.drop_last();
        lemma_approx_bounds(rest, scores, scanned, to_scan, fuel);
        lemma_approx_bounds(rest, scores, scanned, to_scan, (fuel - 1) as nat);
    }
}

impl Library {
    /// A fresh library: `NeedsSignUp`, nothing sent yet. The caller hands
    /// the catalog already ordered so that its tail holds the highest score.
    pub fn new(idx: usize, days_to_signup: usize, ship_rate: usize, books: Vec<usize>) -> (r: Self)
        ensures
            r@ == (LibModel {
                idx,
                state: State::NeedsSignUp,
                days_to_signup,
                ship_rate,
                books: books@,
                sent: Seq::<usize>::empty(),
            }),
    {
        let r = Self {
            idx,
            state: State::NeedsSignUp,
            days_to_signup,
            ship_rate,
            books,
            sent: Vec::new(),
        };
        r
    }

    /// Ships up to `ship_rate` unclaimed books from the tail of the catalog,
    /// appending them to `sent` and claiming them in `scanned`; books found
    /// already claimed are discarded. On a single day a library ships at
    /// most `ship_rate` books, and the ledger never shrinks.
    #[verifier::loop_isolation(false)]
    pub fn ship(&mut self, scanned: &mut Ledger)
        ensures
            (final(self)@, final(scanned)@) == ship_model(old(self)@, old(scanned)@),
            final(self)@.sent.len() <= old(self)@.sent.len() + old(self)@.ship_rate,
            old(scanned)@.subset_of(final(scanned)@),
    {
        let ghost g = ship_spec(old(self)@.books, old(scanned)@, old(self)@.ship_rate as nat);
        let ghost mut delta: Seq<usize> = Seq::empty();
        let mut cnt: usize = 0;

        proof {
            assert(delta + g.1 =~= g.1);
        }

        while self.books.len() > 0 && cnt < self.ship_rate
            invariant
                cnt <= self.ship_rate,
                cnt as int == delta.len(),
                self.idx == old(self).idx,
                self.state == old(self).state,
                self.days_to_signup == old(self).days_to_signup,
                self.ship_rate == old(self).ship_rate,
                self.sent@ == old(self).sent@ + delta,
                old(scanned)@.subset_of(scanned@),
                g.0 == ship_spec(self.books@, scanned@, (self.ship_rate - cnt) as nat).0,
                g.1 == delta + ship_spec(self.books@, scanned@, (self.ship_rate - cnt) as nat).1,
                g.2 == ship_spec(self.books@, scanned@, (self.ship_rate - cnt) as nat).2,
            decreases self.books@.len(),
        {
            let ghost b_cur = self.books@;
            let ghost s_cur = scanned@;
            let ghost fuel = (self.ship_rate - cnt) as nat;
            let book = self.books.pop().unwrap();
            proof {
                assert(b_cur.last() == book);
                assert(b_cur.drop_last() == self.books@);
            }
            if scanned.contains(book) {
                proof {
                    assert(ship_spec(b_cur, s_cur, fuel) == ship_spec(self.books@, scanned@, fuel));
                }
            } else {
                scanned.insert(book);
                self.sent.push(book);
                cnt += 1;
                proof {
                    let rr = ship_spec(b_cur.drop_last(), s_cur.insert(book), (fuel - 1) as nat);
                    assert(ship_spec(b_cur, s_cur, fuel) == (rr.0, seq![book] + rr.1, rr.2));
                    assert(self.sent@ == old(self).sent@ + (delta + seq![book])) by {
                        assert(old(self).sent@ + (delta + seq![book]) =~= (old(self).sent@ + delta).push(book));
                    }
                    assert((delta + seq![book]) + rr.1 =~= delta + (seq![book] + rr.1));
                    delta = delta + seq![book];
                }
            }
        }
        proof {
            assert(ship_spec(self.books@, scanned@, (self.ship_rate - cnt) as nat).1 =~= Seq::<usize>::empty());
            assert(g.1 == delta + Seq::<usize>::empty());
            assert(delta + Seq::<usize>::empty() =~= delta);
            assert(self@ == ship_model(old(self)@, old(scanned)@).0);
            assert(scanned@ == ship_model(old(self)@, old(scanned)@).1);
        }
    }

    /// Runs one simulated day of the state machine, shipping when the state
    /// calls for it.
    pub fn process(&mut self, scanned: &mut Ledger)
        ensures
            (final(self)@, final(scanned)@) == process_model(old(self)@, old(scanned)@),
            final(self)@.sent.len() <= old(self)@.sent.len() + old(self)@.ship_rate,
            old(scanned)@.subset_of(final(scanned)@),
    {
        match self.state {
            State::SignedUp => self.ship(scanned),
            State::InProcess(days) => {
                if days == 0 {
                    self.state = State::SignedUp;
                    self.ship(scanned);
                } else {
                    self.state = State::InProcess(days - 1);
                }
            },
            State::NeedsSignUp => {},
        }
    }

    /// The current status.
    pub fn state(&self) -> (r: State)
        ensures
            r == self@.state,
    {
        self.state
    }

    /// Starts the signup countdown at the library's full signup delay.
    pub fn signup(&mut self)
        ensures
            final(self)@ == (LibModel { state: State::InProcess(old(self)@.days_to_signup), ..old(self)@ }),
    {
        self.state = State::InProcess(self.days_to_signup);
    }

    /// The signup delay in days.
    pub fn days_to_signup(&self) -> (r: usize)
        ensures
            r == self@.days_to_signup,
    {
        self.days_to_signup
    }

    /// The daily shipping rate.
    pub fn ship_rate(&self) -> (r: usize)
        ensures
            r == self@.ship_rate,
    {
        self.ship_rate
    }

    /// The library's id.
    pub fn index(&self) -> (r: usize)
        ensures
            r == self@.idx,
    {
        self.idx
    }

    /// The books shipped so far, in shipment order.
    pub fn sent(&self) -> (r: &Vec<usize>)
        ensures
            r@ == self@.sent,
    {
        &self.sent
    }

    /// The catalog of books not yet popped.
    pub fn books(&self) -> (r: &Vec<usize>)
        ensures
            r@ == self@.books,
    {
        &self.books
    }

    /// The lookahead estimate used by the admission scheduler: the total
    /// score of up to `(days - days_to_signup) * ship_rate` catalog books,
    /// taken from the tail, that are neither claimed in `scanned` nor
    /// reserved in `to_scan`.
    #[verifier::loop_isolation(false)]
    pub fn signup_approx(
        &self,
        books_to_scores: &ScoreTable,
        scanned: &Ledger,
        to_scan: &Ledger,
        days: usize,
    ) -> (score: u32)
        requires
            self@.days_to_signup < days,
            forall|k: int| 0 <= k < self@.books.len() ==> #[trigger] self@.books[k] < books_to_scores@.len(),
            (days - self@.days_to_signup) * self@.ship_rate <= usize::MAX,
            sum_scores(self@.books, books_to_scores@) <= u32::MAX,
        ensures
            score == approx_spec(
                self@.books,
                books_to_scores@,
                scanned@,
                to_scan@,
                ((days - self@.days_to_signup) * self@.ship_rate) as nat,
            ),
    {
        let cap: usize = (days - self.days_to_signup) * self.ship_rate;
        let ghost total = approx_spec(self@.books, books_to_scores@, scanned@, to_scan@, cap as nat);
        let mut i: usize = self.books.len();
        let mut cnt: usize = 0;
        let mut score: u32 = 0;

        proof {
            assert(self@.books.take(i as int) == self@.books);
        }

        while i > 0 && cnt < cap
            invariant
                i <= self.books.len(),
                cnt <= cap,
                score + approx_spec(
                    self@.books.take(i as int),
                    books_to_scores@,
                    scanned@,
                    to_scan@,
                    (cap - cnt) as nat,
                ) == total,
            decreases i,
        {
            i -= 1;
            let ghost t1 = self@.books.take(i + 1 as int);
            let ghost fuel = (cap - cnt) as nat;
            let book = self.books[i];
            proof {
                assert(t1.last() == book);
                assert(t1.drop_last() =~= self@.books.take(i as int));
            }
            if scanned.contains(book) || to_scan.contains(book) {
                proof {
                    assert(approx_spec(t1, books_to_scores@, scanned@, to_scan@, fuel)
                        == approx_spec(self@.books.take(i as int), books_to_scores@, scanned@, to_scan@, fuel));
                }
            } else {
                proof {
                    assert(approx_spec(t1, books_to_scores@, scanned@, to_scan@, fuel)
                        == books_to_scores@[book as int]
                            + approx_spec(self@.books.take(i as int), books_to_scores@, scanned@, to_scan@, (fuel - 1) as nat));
                    lemma_approx_bounds(self@.books.take(i as int), books_to_scores@, scanned@, to_scan@, (fuel - 1) as nat);
                    lemma_approx_bounds(self@.books, books_to_scores@, scanned@, to_scan@, cap as nat);
                }
                score += books_to_scores.get(book);
                cnt += 1;
            }
        }
        proof {
            if i == 0 {
                assert(self@.books.take(0) =~= Seq::<usize>::empty());
            }
        }
        score
    }
}

} // verus!
