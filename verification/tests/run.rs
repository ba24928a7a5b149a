use front_scan::cli::CliArg;
use front_scan::dbs::CoreDb;
use front_scan::hash::ReferenceHash;
use front_scan::input::{parse_candidates, split_url};
use front_scan::pool::{next_move, plan, Move, Plan};
use front_scan::scan::{Fetch, Probe, Scheme, Worker};

#[test]
fn options_have_their_defaults() {
    let args = CliArg::new("https://example.com/x".to_string(), "ips.txt".to_string());
    assert_eq!(args.threads, 4);
    assert_eq!(args.url, "https://example.com/x");
    assert_eq!(args.ip_path, "ips.txt");
    assert_eq!(args.db_path, "main.sqlite");
    assert!(!args.verbose);
    assert_eq!(args.max_ip_count, 100);
    assert_eq!(args.compare, "check.src");
    assert_eq!(args.timeout, 1);
    assert_eq!(args.worker_interval, 200);
}

#[test]
fn a_run_that_fits_one_batch_is_single() {
    assert_eq!(plan(0, 100), Plan::Single);
    assert_eq!(plan(1, 100), Plan::Single);
    assert_eq!(plan(100, 100), Plan::Single);
    assert_eq!(plan(0, 0), Plan::Single);
}

#[test]
fn a_run_that_does_not_fit_goes_through_the_pool() {
    assert_eq!(plan(101, 100), Plan::Pooled);
    assert_eq!(plan(1, 0), Plan::Pooled);
    assert_eq!(plan(usize::MAX, 1), Plan::Pooled);
}

#[test]
fn pool_starts_while_there_is_room() {
    assert_eq!(next_move(250, 0, 4, 100), Move::Start(100));
    assert_eq!(next_move(150, 3, 4, 100), Move::Start(100));
    assert_eq!(next_move(50, 1, 4, 100), Move::Start(50));
    assert_eq!(next_move(100, 0, 1, 100), Move::Start(100));
}

#[test]
fn pool_waits_when_it_is_full_or_draining() {
    assert_eq!(next_move(250, 4, 4, 100), Move::Wait);
    assert_eq!(next_move(250, 5, 4, 100), Move::Wait);
    assert_eq!(next_move(0, 3, 4, 100), Move::Wait);
    assert_eq!(next_move(0, 1, 4, 100), Move::Wait);
}

#[test]
fn pool_stops_when_nothing_is_left() {
    assert_eq!(next_move(0, 0, 4, 100), Move::Stop);
    assert_eq!(next_move(7, 0, 0, 100), Move::Stop);
    assert_eq!(next_move(7, 0, 4, 0), Move::Stop);
    assert_eq!(next_move(7, 2, 4, 0), Move::Wait);
}

fn drive_pool(pending: usize, threads: usize, max_ip: usize) -> (Vec<usize>, usize) {
    let mut pending = pending;
    let mut active = 0;
    let mut sizes = Vec::new();
    let mut waits = 0;
    loop {
        match next_move(pending, active, threads, max_ip) {
            Move::Start(n) => {
                sizes.push(n);
                pending -= n;
                active += 1;
            }
            Move::Wait => {
                waits += 1;
                active -= 1;
            }
            Move::Stop => return (sizes, waits),
        }
    }
}

#[test]
fn pool_batches_are_full_but_for_the_last() {
    assert_eq!(drive_pool(250, 4, 100), (vec![100, 100, 50], 3));
    assert_eq!(drive_pool(101, 1, 100), (vec![100, 1], 2));
    assert_eq!(drive_pool(300, 2, 100), (vec![100, 100, 100], 3));
    assert_eq!(drive_pool(5, 3, 1), (vec![1, 1, 1, 1, 1], 5));
    assert_eq!(drive_pool(0, 4, 100), (vec![], 0));
}

fn probe_one(addr: (u8, u8, u8, u8), reference: &ReferenceHash, document: &[u8]) -> (bool, bool) {
    let mut probe = Probe::start();
    while let Some(scheme) = probe.request() {
        let answer = match (addr, scheme) {
            ((1, 2, 3, 4), Scheme::Https) => Fetch::Body(document.to_vec()),
            ((9, 9, 9, 9), Scheme::Http) => Fetch::Body(document.to_vec()),
            _ => Fetch::Failed,
        };
        probe = probe.advance(&answer, reference);
    }
    probe.outcome().unwrap()
}

fn probe_batch(batch: Vec<String>, reference: &ReferenceHash, document: &[u8]) -> Vec<(String, bool, bool)> {
    let mut worker = Worker::new(batch);
    while let Some(addr) = worker.target() {
        worker.report(Some(probe_one(addr, reference, document)));
    }
    worker.finish()
}

#[test]
fn end_to_end_with_two_candidates() {
    let document = b"<html>reference</html>";
    let reference = ReferenceHash::of_document(document);
    let args = CliArg::new("https://target.example/index.html".to_string(), "ips".to_string());
    let (host, path) = split_url(&args.url).unwrap();
    assert_eq!((host.as_str(), path.as_str()), ("target.example", "index.html"));

    let mut db = CoreDb::new();
    db.import_ips(parse_candidates("1.2.3.4\n5.6.7.8\n"));
    db.check_src();
    assert_eq!(plan(db.count_src(), args.max_ip_count), Plan::Single);
    let batch = db.get_all_ip();
    assert_eq!(batch.len(), 2);
    let outcomes = probe_batch(batch, &reference, document);
    db.update_ips(&outcomes);

    assert_eq!(db.success_rows(), vec![("1.2.3.4".to_string(), false, true)]);
    assert_eq!(db.failed_ips(), vec!["5.6.7.8".to_string()]);
    assert_eq!(db.count_src(), 0);
    assert_eq!(db.export_success(), (Vec::<String>::new(), vec!["1.2.3.4".to_string()]));
}

#[test]
fn end_to_end_through_the_pool() {
    let document = b"reference";
    let reference = ReferenceHash::of_document(document);
    let mut db = CoreDb::new();
    let mut list: Vec<String> = (0..7).map(|i| format!("10.0.0.{}", i)).collect();
    list.push("9.9.9.9".to_string());
    list.push("1.2.3.4".to_string());
    list.push("bogus".to_string());
    db.import_ips(list);
    db.check_src();
    assert_eq!(plan(db.count_src(), 4), Plan::Pooled);

    let mut under_way: Vec<Vec<String>> = Vec::new();
    let mut sizes = Vec::new();
    loop {
        match next_move(db.count_src(), under_way.len(), 2, 4) {
            Move::Start(n) => {
                let batch = db.get_n_ip(n);
                sizes.push(batch.len());
                under_way.push(batch);
            }
            Move::Wait => {
                let batch = under_way.remove(0);
                db.update_ips(&probe_batch(batch, &reference, document));
            }
            Move::Stop => break,
        }
    }
    assert_eq!(sizes, vec![4, 4, 2]);
    assert_eq!(db.count_src(), 0);
    assert_eq!(db.failed_ips().len(), 7);
    assert_eq!(
        db.success_rows(),
        vec![("9.9.9.9".to_string(), true, false), ("1.2.3.4".to_string(), false, true)]
    );
    assert_eq!(
        db.export_success(),
        (vec!["9.9.9.9".to_string()], vec!["1.2.3.4".to_string()])
    );
}
