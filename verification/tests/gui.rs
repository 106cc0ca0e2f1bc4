use file_transfer::common::counter::get_counter;
use file_transfer::gui::app::RequestDetails;
use file_transfer::networking::control::open_offer;
use file_transfer::networking::offers::OfferRegistry;
use file_transfer::networking::peers::PingResponse;

#[test]
fn a_new_form_has_nothing_ticked() {
    let details = RequestDetails::new(7);
    assert_eq!(details.offer_key(), 7);
    assert_eq!(details.decision(), Vec::<Vec<u8>>::new());
    assert!(!details.is_accepted(b"doc.pdf"));
}

#[test]
fn names_are_ticked_once() {
    let mut details = RequestDetails::new(7);
    assert!(details.accept(b"doc.pdf".to_vec()));
    assert!(details.accept(b"b.txt".to_vec()));
    assert!(!details.accept(b"doc.pdf".to_vec()));
    assert!(details.is_accepted(b"doc.pdf"));
    assert!(details.is_accepted(b"b.txt"));
    assert!(!details.is_accepted(b"c.bin"));
    assert_eq!(details.decision(), vec![b"doc.pdf".to_vec(), b"b.txt".to_vec()]);
    assert_eq!(details.offer_key(), 7);
}

#[test]
fn a_tick_is_taken_off() {
    let mut details = RequestDetails::new(7);
    details.accept(b"doc.pdf".to_vec());
    details.accept(b"b.txt".to_vec());
    details.accept(b"c.bin".to_vec());
    assert!(details.decline(b"b.txt"));
    assert!(!details.decline(b"b.txt"));
    assert!(!details.decline(b"never ticked"));
    assert!(!details.is_accepted(b"b.txt"));
    assert_eq!(details.decision(), vec![b"doc.pdf".to_vec(), b"c.bin".to_vec()]);
    assert!(details.accept(b"b.txt".to_vec()));
    assert_eq!(details.decision(), vec![b"doc.pdf".to_vec(), b"c.bin".to_vec(), b"b.txt".to_vec()]);
}

#[test]
fn the_form_decides_its_offer() {
    let mut counter = get_counter();
    let mut offers = OfferRegistry::new();
    let id = open_offer(&mut counter, &mut offers, PingResponse::default(), b"FILES 2\ndoc.pdf 1\nb.txt 2\n");
    let mut details = RequestDetails::new(id);
    details.accept(b"b.txt".to_vec());
    assert!(details.confirm(&mut offers));
    assert_eq!(offers.get(id).unwrap().accepted_files, Some(vec![b"b.txt".to_vec()]));
    details.accept(b"doc.pdf".to_vec());
    assert!(!details.confirm(&mut offers));
    assert_eq!(offers.get(id).unwrap().accepted_files, Some(vec![b"b.txt".to_vec()]));
}

#[test]
fn a_form_with_nothing_ticked_rejects() {
    let mut counter = get_counter();
    let mut offers = OfferRegistry::new();
    let id = open_offer(&mut counter, &mut offers, PingResponse::default(), b"FILES 1\ndoc.pdf 1\n");
    assert!(RequestDetails::new(id).confirm(&mut offers));
    assert_eq!(offers.get(id).unwrap().accepted_files, Some(Vec::new()));
}

#[test]
fn a_form_for_no_offer_decides_nothing() {
    let mut offers = OfferRegistry::new();
    let mut details = RequestDetails::new(3);
    details.accept(b"doc.pdf".to_vec());
    assert!(!details.confirm(&mut offers));
    assert_eq!(offers.get(3), None);
    assert_eq!(offers.keys_in_order(), Vec::<u32>::new());
}
