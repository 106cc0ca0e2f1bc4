use file_transfer::networking::ledger::Ledger;

#[test]
fn a_new_ledger_promises_nothing() {
    let ledger = Ledger::new();
    assert!(!ledger.is_waiting(b"10.0.0.2"));
    assert!(!ledger.accepts(b"10.0.0.2", &b"doc.pdf".to_vec()));
    assert_eq!(ledger.count(b"10.0.0.2", &b"doc.pdf".to_vec()), 0);
}

#[test]
fn accepting_a_name_twice_promises_it_twice() {
    let mut ledger = Ledger::new();
    assert!(ledger.promise(b"10.0.0.2", b"doc.pdf".to_vec()));
    assert_eq!(ledger.count(b"10.0.0.2", &b"doc.pdf".to_vec()), 1);
    assert!(ledger.promise(b"10.0.0.2", b"doc.pdf".to_vec()));
    assert_eq!(ledger.count(b"10.0.0.2", &b"doc.pdf".to_vec()), 2);
    assert!(ledger.accepts(b"10.0.0.2", &b"doc.pdf".to_vec()));
    assert!(ledger.is_waiting(b"10.0.0.2"));
}

#[test]
fn each_transfer_redeems_exactly_one_promise() {
    let mut ledger = Ledger::new();
    ledger.promise(b"10.0.0.2", b"doc.pdf".to_vec());
    ledger.promise(b"10.0.0.2", b"doc.pdf".to_vec());
    assert!(ledger.redeem(b"10.0.0.2", &b"doc.pdf".to_vec()));
    assert_eq!(ledger.count(b"10.0.0.2", &b"doc.pdf".to_vec()), 1);
    assert!(ledger.accepts(b"10.0.0.2", &b"doc.pdf".to_vec()));
    assert!(ledger.redeem(b"10.0.0.2", &b"doc.pdf".to_vec()));
    assert_eq!(ledger.count(b"10.0.0.2", &b"doc.pdf".to_vec()), 0);
    assert!(!ledger.accepts(b"10.0.0.2", &b"doc.pdf".to_vec()));
    assert!(!ledger.is_waiting(b"10.0.0.2"));
}

#[test]
fn multiplicity_never_goes_below_zero() {
    let mut ledger = Ledger::new();
    assert!(!ledger.redeem(b"10.0.0.2", &b"doc.pdf".to_vec()));
    assert_eq!(ledger.count(b"10.0.0.2", &b"doc.pdf".to_vec()), 0);
    ledger.promise(b"10.0.0.2", b"doc.pdf".to_vec());
    assert!(ledger.redeem(b"10.0.0.2", &b"doc.pdf".to_vec()));
    assert!(!ledger.redeem(b"10.0.0.2", &b"doc.pdf".to_vec()));
    assert!(!ledger.redeem(b"10.0.0.2", &b"doc.pdf".to_vec()));
    assert_eq!(ledger.count(b"10.0.0.2", &b"doc.pdf".to_vec()), 0);
    assert!(ledger.promise(b"10.0.0.2", b"doc.pdf".to_vec()));
    assert_eq!(ledger.count(b"10.0.0.2", &b"doc.pdf".to_vec()), 1);
}

#[test]
fn promises_are_kept_by_peer() {
    let mut ledger = Ledger::new();
    ledger.promise(b"10.0.0.2", b"doc.pdf".to_vec());
    ledger.promise(b"10.0.0.3", b"doc.pdf".to_vec());
    ledger.promise(b"10.0.0.3", b"doc.pdf".to_vec());
    assert_eq!(ledger.count(b"10.0.0.2", &b"doc.pdf".to_vec()), 1);
    assert_eq!(ledger.count(b"10.0.0.3", &b"doc.pdf".to_vec()), 2);
    assert_eq!(ledger.count(b"10.0.0.4", &b"doc.pdf".to_vec()), 0);
    assert!(ledger.redeem(b"10.0.0.2", &b"doc.pdf".to_vec()));
    assert_eq!(ledger.count(b"10.0.0.2", &b"doc.pdf".to_vec()), 0);
    assert_eq!(ledger.count(b"10.0.0.3", &b"doc.pdf".to_vec()), 2);
    assert!(!ledger.is_waiting(b"10.0.0.2"));
    assert!(ledger.is_waiting(b"10.0.0.3"));
    assert!(!ledger.is_waiting(b"10.0.0.4"));
}

#[test]
fn promises_are_kept_by_name() {
    let mut ledger = Ledger::new();
    ledger.promise(b"10.0.0.2", b"doc.pdf".to_vec());
    ledger.promise(b"10.0.0.2", b"a b.txt".to_vec());
    assert!(ledger.accepts(b"10.0.0.2", &b"doc.pdf".to_vec()));
    assert!(ledger.accepts(b"10.0.0.2", &b"a b.txt".to_vec()));
    assert!(!ledger.accepts(b"10.0.0.2", &b"doc.pd".to_vec()));
    assert!(!ledger.accepts(b"10.0.0.2", &b"".to_vec()));
    assert!(!ledger.redeem(b"10.0.0.2", &b"other".to_vec()));
    assert_eq!(ledger.count(b"10.0.0.2", &b"doc.pdf".to_vec()), 1);
    assert!(ledger.redeem(b"10.0.0.2", &b"doc.pdf".to_vec()));
    assert!(ledger.is_waiting(b"10.0.0.2"));
    assert!(ledger.redeem(b"10.0.0.2", &b"a b.txt".to_vec()));
    assert!(!ledger.is_waiting(b"10.0.0.2"));
}

#[test]
fn many_promises_are_counted() {
    let mut ledger = Ledger::new();
    for _ in 0..1000 {
        assert!(ledger.promise(b"10.0.0.2", b"doc.pdf".to_vec()));
    }
    assert_eq!(ledger.count(b"10.0.0.2", &b"doc.pdf".to_vec()), 1000);
    for left in (0..1000).rev() {
        assert!(ledger.redeem(b"10.0.0.2", &b"doc.pdf".to_vec()));
        assert_eq!(ledger.count(b"10.0.0.2", &b"doc.pdf".to_vec()), left);
    }
    assert!(!ledger.is_waiting(b"10.0.0.2"));
}
