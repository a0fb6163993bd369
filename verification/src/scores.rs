//! The score table: an immutable mapping from book id to its score.
//! Book ids are the indexes `0..B` into the table.

use vstd::prelude::*;

verus! {

/// Immutable table of book scores, indexed by book id.
pub struct ScoreTable {
    scores: Vec<u32>,
}

impl View for ScoreTable {
    type V = Seq<u32>;

    closed spec fn view(&self) -> Seq<u32> {
        self.scores@
    }
}

impl ScoreTable {
    /// Builds the table from the scores listed in book-id order.
    pub fn new(scores: Vec<u32>) -> (r: ScoreTable)
        ensures
            r@ == scores@,
    {
        ScoreTable { scores }
    }

    /// The number of books.
    pub fn len(&self) -> (r: usize)
        ensures
            r == self@.len(),
    {
        self.scores.len()
    }

    /// The score of `book`.
    pub fn get(&self, book: usize) -> (r: u32)
        requires
            book < self@.len(),
        ensures
            r == self@[book as int],
    {
        self.scores[book]
    }
}

/// The total score of the books of `books`, each looked up in `scores`.
/// A book listed twice is counted twice.
pub open spec fn sum_scores(books: Seq<usize>, scores: Seq<u32>) -> int
    decreases books.len(),
{
    if books.len() == 0 {
        0
    } else {
        scores[books.last() as int] + sum_scores(books.drop_last(), scores)
    }
}

/// Every score is a `u32`, so the total is never negative.
pub proof fn lemma_sum_scores_nonneg(books: Seq<usize>, scores: Seq<u32>)
    ensures
        sum_scores(books, scores) >= 0,
    decreases books.len(),
{
    if books.len() > 0 {
        lemma_sum_scores_nonneg(books.drop_last(), scores);
    }
}

/// A prefix of a catalog never totals more than the whole catalog.
pub proof fn lemma_sum_scores_prefix(books: Seq<usize>, scores: Seq<u32>, i: int)
    requires
        0 <= i <= books.len(),
    ensures
        sum_scores(books.take(i), scores) <= sum_scores(books, scores),
    decreases books.len(),
{
    if i == books.len() {
        assert(books.take(i) =~= books);
    } else {
        lemma_sum_scores_prefix(books.drop_last(), scores, i);
        assert(books.drop_last().take(i) =~= books.take(i));
    }
}

/// Whether `books` is ordered by non-decreasing score, so that its tail
/// holds the highest remaining score: the order `Library::ship` and the
/// lookahead walks consume from the tail.
pub open spec fn sorted_by_score(books: Seq<usize>, scores: Seq<u32>) -> bool {
    forall|a: int, b: int|
        0 <= a <= b < books.len()
            ==> scores[(#[trigger] books[a]) as int] <= scores[(#[trigger] books[b]) as int]
}

/// The total score of a catalog, when it fits in `u32`; `None` exactly when
/// it does not. The driver only accepts catalogs whose total fits.
#[verifier::loop_isolation(false)]
pub fn total_score(books: &Vec<usize>, table: &ScoreTable) -> (r: Option<u32>)
    requires
        forall|k: int| 0 <= k < books@.len() ==> #[trigger] books@[k] < table@.len(),
    ensures
        match r {
            Some(t) => t == sum_scores(books@, table@),
            None => sum_scores(books@, table@) > u32::MAX,
        },
{
    let mut acc: u64 = 0;
    let mut i: usize = 0;
    proof {
        assert(books@.take(0) =~= Seq::<usize>::empty());
    }
    while i < books.len()
        invariant
            i <= books@.len(),
            acc == sum_scores(books@.take(i as int), table@),
            acc <= u32::MAX,
        decreases books@.len() - i,
    {
        let s = table.get(books[i]);
        proof {
            let t1 = books@.take(i + 1 as int);
            assert(t1.last() == books@[i as int]);
            assert(t1.drop_last() =~= books@.take(i as int));
        }
        acc = acc + s as u64;
        if acc > u32::MAX as u64 {
            proof {
                lemma_sum_scores_prefix(books@, table@, i + 1 as int);
            }
            return None;
        }
        i += 1;
    }
    proof {
        assert(books@.take(books@.len() as int) =~= books@);
    }
    Some(acc as u32)
}

/// Sorts a catalog by non-decreasing score, keeping exactly the same books
/// (as a multiset). Books of equal score keep their relative order. This
/// establishes the ordering invariant a `Library`'s catalog is built with.
#[verifier::loop_isolation(false)]
pub fn sort_books_by_score(books: &Vec<usize>, table: &ScoreTable) -> (r: Vec<usize>)
    requires
        forall|k: int| 0 <= k < books@.len() ==> #[trigger] books@[k] < table@.len(),
    ensures
        r@.to_multiset() == books@.to_multiset(),
        r@.len() == books@.len(),
        forall|k: int| 0 <= k < r@.len() ==> #[trigger] r@[k] < table@.len(),
        sorted_by_score(r@, table@),
{
    broadcast use vstd::seq_lib::group_to_multiset_ensures;

    let mut r: Vec<usize> = Vec::new();
    let mut i: usize = 0;
    proof {
        assert(books@.take(0) =~= Seq::<usize>::empty());
        assert(r@.to_multiset() =~= books@.take(0).to_multiset());
    }
    while i < books.len()
        invariant
            i <= books@.len(),
            r@.len() == i,
            r@.to_multiset() == books@.take(i as int).to_multiset(),
            forall|k: int| 0 <= k < r@.len() ==> #[trigger] r@[k] < table@.len(),
            sorted_by_score(r@, table@),
        decreases books@.len() - i,
    {
        let x = books[i];
        let mut pos: usize = r.len();
        while pos > 0 && table.get(r[pos - 1]) > table.get(x)
            invariant
                pos <= r@.len(),
                forall|k: int| pos <= k < r@.len()
                    ==> table@[(#[trigger] r@[k]) as int] > table@[x as int],
            decreases pos,
        {
            pos -= 1;
        }
        let ghost r_before = r@;
        r.insert(pos, x);
        proof {
            assert(r@ == r_before.insert(pos as int, x));
            assert forall|a: int, b: int| 0 <= a <= b < r@.len()
                implies table@[(#[trigger] r@[a]) as int] <= table@[(#[trigger] r@[b]) as int] by {
                if a < pos as int {
                    assert(r@[a] == r_before[a]);
                } else if a == pos as int {
                    assert(r@[a] == x);
                } else {
                    assert(r@[a] == r_before[a - 1]);
                }
                if b < pos as int {
                    assert(r@[b] == r_before[b]);
                } else if b == pos as int {
                    assert(r@[b] == x);
                } else {
                    assert(r@[b] == r_before[b - 1]);
                }
                if pos > 0 {
                    assert(table@[(r_before[pos - 1]) as int] <= table@[x as int]);
                }
            }
            let t1 = books@.take(i + 1 as int);
            assert(t1.drop_last() =~= books@.take(i as int));
            assert(t1.last() == x);
            assert(t1 =~= books@.take(i as int).push(x));
            assert(t1.to_multiset() == books@.take(i as int).to_multiset().insert(x));
            assert(r@.to_multiset() == r_before.to_multiset().insert(x));
        }
        i += 1;
    }
    proof {
        assert(books@.take(books@.len() as int) =~= books@);
    }
    r
}

} // verus!
