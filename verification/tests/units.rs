use books::ledger::Ledger;
use books::library::{Library, State};
use books::scheduler::signup_one_lib;
use books::scores::{sort_books_by_score, total_score, ScoreTable};

#[test]
fn ledger_contains_after_insert() {
    let mut ledger = Ledger::new();
    assert!(!ledger.contains(3));
    ledger.insert(3);
    assert!(ledger.contains(3));
    assert!(!ledger.contains(4));
    // Inserting twice leaves the ledger claiming the same book.
    ledger.insert(3);
    assert!(ledger.contains(3));
}

#[test]
fn score_table_lookup() {
    let table = ScoreTable::new(vec![5, 0, 12]);
    assert_eq!(table.len(), 3);
    assert_eq!(table.get(0), 5);
    assert_eq!(table.get(1), 0);
    assert_eq!(table.get(2), 12);
}

#[test]
fn sort_orders_by_ascending_score() {
    let table = ScoreTable::new(vec![5, 1, 3]);
    let sorted = sort_books_by_score(&vec![0, 1, 2], &table);
    assert_eq!(sorted, vec![1, 2, 0]);
}

#[test]
fn sort_keeps_tied_books_in_original_order() {
    let table = ScoreTable::new(vec![7, 7, 2]);
    let sorted = sort_books_by_score(&vec![0, 1, 2], &table);
    assert_eq!(sorted, vec![2, 0, 1]);
}

#[test]
fn total_score_adds_up() {
    let table = ScoreTable::new(vec![5, 1, 3]);
    assert_eq!(total_score(&vec![0, 2], &table), Some(8));
    assert_eq!(total_score(&vec![], &table), Some(0));
}

#[test]
fn total_score_detects_overflow() {
    let table = ScoreTable::new(vec![u32::MAX, 5]);
    assert_eq!(total_score(&vec![0, 1], &table), None);
    assert_eq!(total_score(&vec![0], &table), Some(u32::MAX));
}

#[test]
fn new_library_needs_signup() {
    let lib = Library::new(2, 4, 3, vec![1, 0]);
    assert_eq!(lib.index(), 2);
    assert_eq!(lib.days_to_signup(), 4);
    assert_eq!(lib.ship_rate(), 3);
    assert_eq!(lib.state(), State::NeedsSignUp);
    assert_eq!(lib.books(), &vec![1, 0]);
    assert!(lib.sent().is_empty());
}

#[test]
fn ship_pops_from_tail_and_skips_claimed() {
    // Catalog tail first: 2, then 1 (claimed, discarded), then 0; rate 2.
    let mut lib = Library::new(0, 0, 2, vec![0, 1, 2]);
    let mut scanned = Ledger::new();
    scanned.insert(1);
    lib.ship(&mut scanned);
    assert_eq!(lib.sent(), &vec![2, 0]);
    assert!(lib.books().is_empty());
    assert!(scanned.contains(0) && scanned.contains(1) && scanned.contains(2));
}

#[test]
fn ship_stops_at_rate() {
    let mut lib = Library::new(0, 0, 1, vec![0, 1, 2]);
    let mut scanned = Ledger::new();
    lib.ship(&mut scanned);
    assert_eq!(lib.sent(), &vec![2]);
    assert_eq!(lib.books(), &vec![0, 1]);
    assert!(!scanned.contains(0) && !scanned.contains(1));
}

#[test]
fn process_counts_down_then_ships() {
    let mut lib = Library::new(0, 2, 1, vec![5]);
    let mut scanned = Ledger::new();
    // Not admitted yet: a day does nothing.
    lib.process(&mut scanned);
    assert_eq!(lib.state(), State::NeedsSignUp);
    lib.signup();
    assert_eq!(lib.state(), State::InProcess(2));
    lib.process(&mut scanned);
    assert_eq!(lib.state(), State::InProcess(1));
    assert!(lib.sent().is_empty());
    lib.process(&mut scanned);
    assert_eq!(lib.state(), State::InProcess(0));
    assert!(lib.sent().is_empty());
    // The countdown completing and the first shipment share a day.
    lib.process(&mut scanned);
    assert_eq!(lib.state(), State::SignedUp);
    assert_eq!(lib.sent(), &vec![5]);
}

#[test]
fn signup_approx_counts_unclaimed_scores() {
    let table = ScoreTable::new(vec![1, 100]);
    let lib = Library::new(0, 0, 1, vec![0, 1]);
    let scanned = Ledger::new();
    let to_scan = Ledger::new();
    // One slot: only the highest-score unclaimed book counts.
    assert_eq!(lib.signup_approx(&table, &scanned, &to_scan, 1), 100);
    // Two slots: both books count.
    assert_eq!(lib.signup_approx(&table, &scanned, &to_scan, 2), 101);
}

#[test]
fn signup_approx_skips_claimed_and_reserved() {
    let table = ScoreTable::new(vec![1, 100, 30]);
    let lib = Library::new(0, 0, 2, vec![0, 1, 2]);
    let mut scanned = Ledger::new();
    let mut to_scan = Ledger::new();
    scanned.insert(1);
    assert_eq!(lib.signup_approx(&table, &scanned, &to_scan, 1), 31);
    to_scan.insert(2);
    assert_eq!(lib.signup_approx(&table, &scanned, &to_scan, 1), 1);
}

#[test]
fn signup_one_lib_picks_highest_estimate() {
    let table = ScoreTable::new(vec![1, 100]);
    let mut libraries = vec![
        Library::new(0, 0, 1, vec![0]),
        Library::new(1, 0, 1, vec![1]),
    ];
    let scanned = Ledger::new();
    let mut to_scan = Ledger::new();
    let picked = signup_one_lib(&mut libraries, &table, &scanned, &mut to_scan, 1);
    assert_eq!(picked, Some(1));
    assert_eq!(libraries[1].state(), State::InProcess(0));
    assert_eq!(libraries[0].state(), State::NeedsSignUp);
    // The chosen library's best books are reserved.
    assert!(to_scan.contains(1));
    assert!(!to_scan.contains(0));
}

#[test]
fn signup_one_lib_rejects_delays_beyond_horizon() {
    let table = ScoreTable::new(vec![50]);
    let mut libraries = vec![Library::new(0, 4, 1, vec![0])];
    let scanned = Ledger::new();
    let mut to_scan = Ledger::new();
    // delay 4 with 4 days left: signup would finish exactly at the
    // deadline, leaving no day to ship, so nothing is admitted.
    assert_eq!(signup_one_lib(&mut libraries, &table, &scanned, &mut to_scan, 4), None);
    assert_eq!(libraries[0].state(), State::NeedsSignUp);
    assert!(!to_scan.contains(0));
    // One more day of headroom and it is admitted.
    assert_eq!(signup_one_lib(&mut libraries, &table, &scanned, &mut to_scan, 5), Some(0));
}

#[test]
fn signup_one_lib_reserves_up_to_capacity() {
    let table = ScoreTable::new(vec![1, 2, 3, 4]);
    // Capacity (3 - 1) * 1 = 2: only the two best books are reserved.
    let mut libraries = vec![Library::new(0, 1, 1, vec![0, 1, 2, 3])];
    let scanned = Ledger::new();
    let mut to_scan = Ledger::new();
    assert_eq!(signup_one_lib(&mut libraries, &table, &scanned, &mut to_scan, 3), Some(0));
    assert!(to_scan.contains(3) && to_scan.contains(2));
    assert!(!to_scan.contains(1) && !to_scan.contains(0));
}
