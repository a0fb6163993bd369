use books::driver::{run, summarize};
use books::ledger::Ledger;
use books::library::Library;
use books::scores::{sort_books_by_score, ScoreTable};

fn build_library(idx: usize, delay: usize, rate: usize, catalog: Vec<usize>, table: &ScoreTable) -> Library {
    let sorted = sort_books_by_score(&catalog, table);
    Library::new(idx, delay, rate, sorted)
}

#[test]
fn scenario_single_book_single_day() {
    // 1 book (score 10), 1 library (delay 0, rate 1, holds the book), horizon 1:
    // admitted day 0, ships the book the same day.
    let table = ScoreTable::new(vec![10]);
    let mut libraries = vec![build_library(0, 0, 1, vec![0], &table)];
    let mut scanned = Ledger::new();
    let mut to_scan = Ledger::new();
    let signed = run(&mut libraries, &table, 1, &mut scanned, &mut to_scan);
    assert_eq!(signed, vec![0]);
    assert_eq!(libraries[0].sent(), &vec![0]);
    let out = summarize(&libraries, &signed);
    assert_eq!(out.len(), 1);
    assert_eq!(out[0].0, 0);
    assert_eq!(out[0].1, vec![0]);
}

#[test]
fn scenario_one_admission_per_day() {
    // 2 books (scores 1 and 100) both held by 2 libraries (each delay 0,
    // rate 1), horizon 1: only one library can be admitted, and it ships
    // the score-100 book. Exactly one library ships exactly one book.
    let table = ScoreTable::new(vec![1, 100]);
    let mut libraries = vec![
        build_library(0, 0, 1, vec![0, 1], &table),
        build_library(1, 0, 1, vec![0, 1], &table),
    ];
    let mut scanned = Ledger::new();
    let mut to_scan = Ledger::new();
    let signed = run(&mut libraries, &table, 1, &mut scanned, &mut to_scan);
    assert_eq!(signed.len(), 1);
    let chosen = signed[0];
    assert_eq!(libraries[chosen].sent(), &vec![1]);
    assert!(libraries[1 - chosen].sent().is_empty());
    let out = summarize(&libraries, &signed);
    assert_eq!(out.len(), 1);
    assert_eq!(out[0].1.len(), 1);
    assert_eq!(out[0].1, vec![1]);
}

#[test]
fn scenario_signup_delay_beyond_horizon() {
    // A library whose signup delay is at least the horizon length is never
    // admitted, however valuable its catalog.
    let table = ScoreTable::new(vec![1000, 1000, 1000]);
    let mut libraries = vec![build_library(0, 3, 5, vec![0, 1, 2], &table)];
    let mut scanned = Ledger::new();
    let mut to_scan = Ledger::new();
    let signed = run(&mut libraries, &table, 3, &mut scanned, &mut to_scan);
    assert!(signed.is_empty());
    assert!(libraries[0].sent().is_empty());
    assert!(summarize(&libraries, &signed).is_empty());
}

#[test]
fn scenario_catalog_fully_claimed() {
    // A library admitted after its whole catalog was claimed by an
    // earlier-shipping library ends with an empty sent list and is left out
    // of the report.
    let table = ScoreTable::new(vec![10, 20]);
    let mut libraries = vec![
        build_library(0, 0, 2, vec![0, 1], &table),
        build_library(1, 1, 1, vec![0], &table),
    ];
    let mut scanned = Ledger::new();
    let mut to_scan = Ledger::new();
    let signed = run(&mut libraries, &table, 3, &mut scanned, &mut to_scan);
    assert_eq!(signed, vec![0, 1]);
    assert_eq!(libraries[0].sent(), &vec![1, 0]);
    assert!(libraries[1].sent().is_empty());
    let out = summarize(&libraries, &signed);
    assert_eq!(out.len(), 1);
    assert_eq!(out[0].0, 0);
    assert_eq!(out[0].1, vec![1, 0]);
}

#[test]
fn dedup_no_book_sent_twice() {
    // Three libraries over overlapping catalogs: no book id appears in two
    // sent lists, nor twice in one.
    let table = ScoreTable::new(vec![4, 9, 2, 7, 5]);
    let mut libraries = vec![
        build_library(0, 0, 1, vec![0, 1, 2, 3, 4], &table),
        build_library(1, 1, 2, vec![0, 1, 2, 3, 4], &table),
        build_library(2, 1, 2, vec![1, 3], &table),
    ];
    let mut scanned = Ledger::new();
    let mut to_scan = Ledger::new();
    let signed = run(&mut libraries, &table, 6, &mut scanned, &mut to_scan);
    let mut seen: Vec<usize> = Vec::new();
    for lib in &libraries {
        for &book in lib.sent().iter() {
            assert!(!seen.contains(&book), "book {} sent twice", book);
            seen.push(book);
        }
    }
    assert!(!signed.is_empty());
}

#[test]
fn rate_limits_daily_shipments() {
    // A rate-1 library ships exactly one book per active day, highest score
    // first.
    let table = ScoreTable::new(vec![1, 2, 3]);
    let mut libraries = vec![build_library(0, 0, 1, vec![0, 1, 2], &table)];
    let mut scanned = Ledger::new();
    let mut to_scan = Ledger::new();
    let signed = run(&mut libraries, &table, 2, &mut scanned, &mut to_scan);
    assert_eq!(signed, vec![0]);
    // Two days, rate 1: only the two highest-score books go out.
    assert_eq!(libraries[0].sent(), &vec![2, 1]);
    let mut libraries2 = vec![build_library(0, 0, 1, vec![0, 1, 2], &table)];
    let mut scanned2 = Ledger::new();
    let mut to_scan2 = Ledger::new();
    run(&mut libraries2, &table, 4, &mut scanned2, &mut to_scan2);
    assert_eq!(libraries2[0].sent(), &vec![2, 1, 0]);
}

#[test]
fn ledger_only_grows() {
    // A book claimed before the run stays claimed after it, and is never
    // shipped by any library.
    let table = ScoreTable::new(vec![10, 20]);
    let mut libraries = vec![build_library(0, 0, 2, vec![0, 1], &table)];
    let mut scanned = Ledger::new();
    scanned.insert(1);
    let mut to_scan = Ledger::new();
    run(&mut libraries, &table, 2, &mut scanned, &mut to_scan);
    assert!(scanned.contains(1));
    assert_eq!(libraries[0].sent(), &vec![0]);
}

#[test]
fn identical_runs_identical_output() {
    // Determinism: the same input twice gives the same admissions, the same
    // sent lists, and the same report.
    let table = ScoreTable::new(vec![3, 1, 4, 1, 5, 9, 2, 6]);
    let catalogs: Vec<(usize, usize, Vec<usize>)> = vec![
        (1, 2, vec![0, 1, 2, 3]),
        (0, 1, vec![2, 3, 4, 5]),
        (2, 3, vec![0, 5, 6, 7]),
    ];
    let mut outputs: Vec<(Vec<usize>, Vec<(usize, Vec<usize>)>)> = Vec::new();
    for _ in 0..2 {
        let mut libraries: Vec<Library> = catalogs
            .iter()
            .enumerate()
            .map(|(i, (delay, rate, cat))| build_library(i, *delay, *rate, cat.clone(), &table))
            .collect();
        let mut scanned = Ledger::new();
        let mut to_scan = Ledger::new();
        let signed = run(&mut libraries, &table, 5, &mut scanned, &mut to_scan);
        let out = summarize(&libraries, &signed);
        outputs.push((signed, out));
    }
    assert_eq!(outputs[0], outputs[1]);
}

#[test]
fn zero_day_horizon_does_nothing() {
    let table = ScoreTable::new(vec![7]);
    let mut libraries = vec![build_library(0, 0, 1, vec![0], &table)];
    let mut scanned = Ledger::new();
    let mut to_scan = Ledger::new();
    let signed = run(&mut libraries, &table, 0, &mut scanned, &mut to_scan);
    assert!(signed.is_empty());
    assert!(libraries[0].sent().is_empty());
}

#[test]
fn no_libraries_no_output() {
    let table = ScoreTable::new(vec![1, 2]);
    let mut libraries: Vec<Library> = Vec::new();
    let mut scanned = Ledger::new();
    let mut to_scan = Ledger::new();
    let signed = run(&mut libraries, &table, 4, &mut scanned, &mut to_scan);
    assert!(signed.is_empty());
    assert!(summarize(&libraries, &signed).is_empty());
}
