use front_scan::dbs::{bool_2_str, int_2_bool, CoreDb};

fn ips(list: &[&str]) -> Vec<String> {
    list.iter().map(|ip| ip.to_string()).collect()
}

fn row(ip: &str, http_ok: bool, https_ok: bool) -> (String, bool, bool) {
    (ip.to_string(), http_ok, https_ok)
}

#[test]
fn bool_is_written_as_upper_case_word() {
    assert_eq!(bool_2_str(true), "TRUE");
    assert_eq!(bool_2_str(false), "FALSE");
}

#[test]
fn only_zero_reads_as_false() {
    assert!(!int_2_bool(0));
    assert!(int_2_bool(1));
    assert!(int_2_bool(-1));
    assert!(int_2_bool(i32::MAX));
    assert!(int_2_bool(i32::MIN));
}

#[test]
fn new_store_is_empty() {
    let db = CoreDb::new();
    assert_eq!(db.count_src(), 0);
    assert!(db.pending_ips().is_empty());
    assert!(db.failed_ips().is_empty());
    assert!(db.success_rows().is_empty());
    assert_eq!(db.export_success(), (Vec::<String>::new(), Vec::<String>::new()));
}

#[test]
fn importing_an_address_twice_keeps_one_entry() {
    let mut db = CoreDb::new();
    let first = db.import_ips(ips(&["1.2.3.4"]));
    let second = db.import_ips(ips(&["1.2.3.4"]));
    assert_eq!(first, ips(&["1.2.3.4"]));
    assert!(second.is_empty());
    assert_eq!(db.count_src(), 1);
    assert_eq!(db.pending_ips(), ips(&["1.2.3.4"]));
}

#[test]
fn an_address_twice_in_one_import_is_taken_once() {
    let mut db = CoreDb::new();
    let added = db.import_ips(ips(&["1.1.1.1", "2.2.2.2", "1.1.1.1", "3.3.3.3", "2.2.2.2"]));
    assert_eq!(added, ips(&["1.1.1.1", "2.2.2.2", "3.3.3.3"]));
    assert_eq!(db.pending_ips(), ips(&["1.1.1.1", "2.2.2.2", "3.3.3.3"]));
}

#[test]
fn distinct_imports_then_reconcile_count_them_all() {
    let mut db = CoreDb::new();
    let list: Vec<String> = (0..50).map(|i| format!("10.0.0.{}", i)).collect();
    db.import_ips(list.clone());
    let removed = db.check_src();
    assert!(removed.is_empty());
    assert_eq!(db.count_src(), 50);
    assert_eq!(db.pending_ips(), list);
}

#[test]
fn import_keeps_the_text_as_it_came() {
    let mut db = CoreDb::new();
    db.import_ips(ips(&["not an address", "1.2.3.4 ", "1.2.3.4"]));
    assert_eq!(db.pending_ips(), ips(&["not an address", "1.2.3.4 ", "1.2.3.4"]));
}

#[test]
fn reconcile_strikes_what_is_classified() {
    let mut db = CoreDb::new();
    db.add_faild_ip(&ips(&["1.1.1.1"]));
    db.add_success_ip(&[row("2.2.2.2", true, false)]);
    db.import_ips(ips(&["3.3.3.3", "1.1.1.1", "4.4.4.4", "2.2.2.2"]));
    assert_eq!(db.count_src(), 4);
    let removed = db.check_src();
    assert_eq!(removed, ips(&["1.1.1.1", "2.2.2.2"]));
    assert_eq!(db.pending_ips(), ips(&["3.3.3.3", "4.4.4.4"]));
    assert_eq!(db.failed_ips(), ips(&["1.1.1.1"]));
    assert_eq!(db.success_rows(), vec![row("2.2.2.2", true, false)]);
    assert!(db.check_src().is_empty());
    assert_eq!(db.count_src(), 2);
}

#[test]
fn dequeue_hands_out_the_smaller_of_asked_and_pending() {
    let mut db = CoreDb::new();
    db.import_ips(ips(&["a", "b", "c", "d", "e"]));
    let batch = db.get_n_ip(3);
    assert_eq!(batch, ips(&["a", "b", "c"]));
    assert_eq!(db.count_src(), 2);
    assert_eq!(db.pending_ips(), ips(&["d", "e"]));
    for ip in &batch {
        assert!(!db.pending_ips().contains(ip));
    }
    let rest = db.get_n_ip(10);
    assert_eq!(rest, ips(&["d", "e"]));
    assert_eq!(db.count_src(), 0);
    assert!(db.get_n_ip(4).is_empty());
    assert_eq!(db.count_src(), 0);
}

#[test]
fn dequeue_of_none_changes_nothing() {
    let mut db = CoreDb::new();
    db.import_ips(ips(&["a", "b"]));
    assert!(db.get_n_ip(0).is_empty());
    assert_eq!(db.pending_ips(), ips(&["a", "b"]));
}

#[test]
fn dequeue_of_exactly_all() {
    let mut db = CoreDb::new();
    db.import_ips(ips(&["a", "b", "c"]));
    assert_eq!(db.get_n_ip(3), ips(&["a", "b", "c"]));
    assert_eq!(db.count_src(), 0);
}

#[test]
fn dequeue_all_leaves_none_pending() {
    let mut db = CoreDb::new();
    db.add_faild_ip(&ips(&["z"]));
    db.import_ips(ips(&["a", "b", "c"]));
    assert_eq!(db.get_all_ip(), ips(&["a", "b", "c"]));
    assert_eq!(db.count_src(), 0);
    assert!(db.get_all_ip().is_empty());
    assert_eq!(db.failed_ips(), ips(&["z"]));
}

#[test]
fn a_dequeued_address_can_be_imported_again() {
    let mut db = CoreDb::new();
    db.import_ips(ips(&["a"]));
    db.get_n_ip(1);
    assert_eq!(db.import_ips(ips(&["a"])), ips(&["a"]));
    assert_eq!(db.count_src(), 1);
}

#[test]
fn outcomes_go_to_the_table_their_flags_name() {
    let mut db = CoreDb::new();
    let written = db.update_ips(&[row("a", false, false), row("b", true, false), row("c", false, true)]);
    assert_eq!(written.0, ips(&["a"]));
    assert_eq!(written.1, vec![row("b", true, false), row("c", false, true)]);
    assert_eq!(db.failed_ips(), ips(&["a"]));
    assert_eq!(db.success_rows(), vec![row("b", true, false), row("c", false, true)]);
    assert_eq!(db.export_success(), (ips(&["b"]), ips(&["c"])));
    assert_eq!(db.count_src(), 0);
}

#[test]
fn an_address_with_both_flags_is_exported_twice() {
    let mut db = CoreDb::new();
    db.add_success_ip(&[row("a", true, true), row("b", false, true), row("c", true, false)]);
    assert_eq!(db.export_success(), (ips(&["a", "c"]), ips(&["a", "b"])));
}

#[test]
fn a_success_row_without_flags_is_exported_nowhere() {
    let mut db = CoreDb::new();
    db.add_success_ip(&[row("a", false, false)]);
    assert_eq!(db.success_rows(), vec![row("a", false, false)]);
    assert_eq!(db.export_success(), (Vec::<String>::new(), Vec::<String>::new()));
}

#[test]
fn recording_success_again_replaces_the_row() {
    let mut db = CoreDb::new();
    db.add_success_ip(&[row("a", true, false), row("b", true, true)]);
    db.add_success_ip(&[row("a", false, true)]);
    assert_eq!(db.success_rows(), vec![row("a", false, true), row("b", true, true)]);
    db.add_success_ip(&[row("b", true, false), row("b", false, true)]);
    assert_eq!(db.success_rows(), vec![row("a", false, true), row("b", false, true)]);
}

#[test]
fn recording_failure_again_does_not_duplicate() {
    let mut db = CoreDb::new();
    db.add_faild_ip(&ips(&["a", "b", "a"]));
    db.add_faild_ip(&ips(&["b", "c"]));
    assert_eq!(db.failed_ips(), ips(&["a", "b", "c"]));
}

#[test]
fn one_outcome_is_recorded_like_many() {
    let mut db = CoreDb::new();
    db.update_ip("a", false, false);
    db.update_ip("b", true, false);
    db.update_ip("c", false, true);
    db.update_ip("d", true, true);
    assert_eq!(db.failed_ips(), ips(&["a"]));
    assert_eq!(
        db.success_rows(),
        vec![row("b", true, false), row("c", false, true), row("d", true, true)]
    );
}

#[test]
fn recording_does_not_touch_the_pending() {
    let mut db = CoreDb::new();
    db.import_ips(ips(&["a", "b"]));
    db.update_ips(&[row("a", false, false)]);
    assert_eq!(db.pending_ips(), ips(&["a", "b"]));
    assert_eq!(db.check_src(), ips(&["a"]));
    assert_eq!(db.pending_ips(), ips(&["b"]));
}

#[test]
fn no_address_is_in_two_tables_along_a_run() {
    let mut db = CoreDb::new();
    db.import_ips(ips(&["a", "b", "c", "d", "e"]));
    db.check_src();
    let first = db.get_n_ip(2);
    db.update_ips(&[row(&first[0], true, false), row(&first[1], false, false)]);
    db.import_ips(ips(&["a", "b", "f"]));
    db.check_src();
    let second = db.get_all_ip();
    let outcomes: Vec<(String, bool, bool)> =
        second.iter().map(|ip| row(ip, false, ip == "f")).collect();
    db.update_ips(&outcomes);
    let pending = db.pending_ips();
    let failed = db.failed_ips();
    let success: Vec<String> = db.success_rows().into_iter().map(|r| r.0).collect();
    for ip in ["a", "b", "c", "d", "e", "f"] {
        let ip = ip.to_string();
        let places = [pending.contains(&ip), failed.contains(&ip), success.contains(&ip)];
        assert_eq!(places.iter().filter(|p| **p).count(), 1);
    }
    assert_eq!(failed, ips(&["b", "c", "d", "e"]));
    assert_eq!(success, ips(&["a", "f"]));
}

#[test]
fn batches_may_be_recorded_in_either_order() {
    let first = [row("a", true, false), row("b", false, false), row("a", false, true)];
    let second = [row("c", false, false), row("d", true, true)];
    let mut one = CoreDb::new();
    one.add_success_ip(&[row("d", false, true)]);
    let mut other = CoreDb::new();
    other.add_success_ip(&[row("d", false, true)]);

    one.update_ips(&first);
    one.update_ips(&second);
    other.update_ips(&second);
    other.update_ips(&first);

    let mut failed_one = one.failed_ips();
    let mut failed_other = other.failed_ips();
    failed_one.sort();
    failed_other.sort();
    assert_eq!(failed_one, ips(&["b", "c"]));
    assert_eq!(failed_one, failed_other);

    let mut success_one = one.success_rows();
    let mut success_other = other.success_rows();
    success_one.sort();
    success_other.sort();
    assert_eq!(success_one, vec![row("a", false, true), row("d", true, true)]);
    assert_eq!(success_one, success_other);
}

#[test]
fn a_large_import_is_taken_in_order() {
    let mut db = CoreDb::new();
    let list: Vec<String> = (0..20000).map(|i| format!("10.{}.{}.1", i / 250, i % 250)).collect();
    let mut twice = list.clone();
    twice.extend(list.iter().cloned());
    assert_eq!(db.import_ips(twice).len(), 20000);
    assert_eq!(db.count_src(), 20000);
    assert_eq!(db.get_n_ip(3), list[..3].to_vec());
    assert_eq!(db.get_n_ip(19990), list[3..19993].to_vec());
    assert_eq!(db.pending_ips(), list[19993..].to_vec());
}
