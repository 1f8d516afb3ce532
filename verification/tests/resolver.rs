use treasury::field::{
    build, decode_requests, decode_resolve, Built, Decoded, DecodeError, Info, LoadError,
    LoadTable,
};
use treasury::process::{AnyProcesses, Process};

fn table(entries: Vec<(u128, Result<Vec<u8>, LoadError>)>) -> LoadTable {
    LoadTable { entries }
}

#[test]
fn absent_option_never_asks_the_loader() {
    assert_eq!(decode_requests(&Info::Absent), Vec::<u128>::new());
    // An empty table suffices: no identifier is looked up.
    match decode_resolve(&Info::Absent, &table(Vec::new())) {
        Ok(Decoded::Absent) => {}
        other => panic!("expected an absent decode, got {:?}", other),
    }
}

#[test]
fn present_option_asks_exactly_once_and_delegates() {
    let info = Info::Present(Box::new(Info::External(7)));
    assert_eq!(decode_requests(&info), vec![7u128]);
    let t = table(vec![(7, Ok(vec![1, 2, 3]))]);
    match decode_resolve(&info, &t) {
        Ok(Decoded::Present(inner)) => match *inner {
            Decoded::External(Ok(bytes)) => assert_eq!(bytes, vec![1, 2, 3]),
            other => panic!("expected the loaded bytes, got {:?}", other),
        },
        other => panic!("expected a present decode, got {:?}", other),
    }
}

#[test]
fn sequence_decodes_in_input_order_whatever_the_completion_order() {
    let ux: u128 = 10;
    let uy: u128 = 20;
    let uz: u128 = 30;
    let info = Info::Sequence(vec![
        Info::External(ux),
        Info::External(uy),
        Info::External(uz),
    ]);
    assert_eq!(decode_requests(&info), vec![ux, uy, uz]);
    // The loader resolved uy first; the table holds answers in completion
    // order, yet the decoded sequence stands in input order.
    let t = table(vec![
        (uy, Ok(vec![2])),
        (uz, Ok(vec![3])),
        (ux, Ok(vec![1])),
    ]);
    match decode_resolve(&info, &t) {
        Ok(Decoded::Sequence(items)) => {
            assert_eq!(items.len(), 3);
            for (i, want) in [vec![1u8], vec![2], vec![3]].iter().enumerate() {
                match &items[i] {
                    Decoded::External(Ok(b)) => assert_eq!(b, want),
                    other => panic!("expected loaded bytes, got {:?}", other),
                }
            }
        }
        other => panic!("expected a sequence, got {:?}", other),
    }
}

#[test]
fn a_missing_answer_stops_the_decode_and_names_the_identifier() {
    let info = Info::Sequence(vec![Info::External(1), Info::External(2)]);
    let t = table(vec![(1, Ok(vec![9]))]);
    match decode_resolve(&info, &t) {
        Err(DecodeError::NotLoaded { uuid }) => assert_eq!(uuid, 2),
        other => panic!("expected a missing answer, got {:?}", other),
    }
}

#[test]
fn build_lifts_absent_and_copies_loaded_bytes() {
    let d = Decoded::Sequence(vec![
        Decoded::External(Ok(vec![5])),
        Decoded::Absent,
        Decoded::Present(Box::new(Decoded::External(Ok(vec![6])))),
    ]);
    match build(&d) {
        Ok(Built::Sequence(items)) => {
            assert!(matches!(&items[0], Built::External(b) if b == &vec![5]));
            assert!(matches!(&items[1], Built::Absent));
            match &items[2] {
                Built::Present(inner) => {
                    assert!(matches!(&**inner, Built::External(b) if b == &vec![6]))
                }
                other => panic!("expected a present value, got {:?}", other),
            }
        }
        other => panic!("expected a built sequence, got {:?}", other),
    }
}

#[test]
fn a_load_error_surfaces_when_building() {
    let d = Decoded::Sequence(vec![
        Decoded::External(Ok(vec![5])),
        Decoded::External(Err(LoadError { message: b"boom".to_vec() })),
    ]);
    match build(&d) {
        Err(e) => assert_eq!(e.message, b"boom".to_vec()),
        other => panic!("expected a build error, got {:?}", other.map(|_| ())),
    }
}

#[test]
fn the_first_failed_load_in_element_order_surfaces() {
    let d = Decoded::Sequence(vec![
        Decoded::External(Ok(vec![1])),
        Decoded::External(Err(LoadError { message: b"first".to_vec() })),
        Decoded::External(Err(LoadError { message: b"second".to_vec() })),
    ]);
    match build(&d) {
        Err(e) => assert_eq!(e.message, b"first".to_vec()),
        other => panic!("expected a build error, got {:?}", other.map(|_| ())),
    }
}

#[test]
fn the_process_queue_drains_in_arrival_order() {
    let mut q: AnyProcesses<(), Vec<u8>> = AnyProcesses::new();
    let (h1, s1) = q.alloc_slot();
    let (h2, s2) = q.alloc_slot();
    assert_ne!(h1.id, h2.id);
    let p2: Process<Vec<u8>> = s2.set(Ok(vec![2]));
    let p1: Process<Vec<u8>> = s1.set(Err(b"lost".to_vec()));
    q.push(p2);
    q.push(p1);
    let drained = q.run();
    assert_eq!(drained.len(), 2);
    assert_eq!(drained[0].handle, h2);
    assert_eq!(drained[1].handle, h1);
    assert_eq!(drained[0].result.as_ref().unwrap(), &vec![2]);
    assert!(drained[1].result.is_err());
    assert_eq!(q.run().len(), 0);
}
