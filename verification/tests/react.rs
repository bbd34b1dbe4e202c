use react_labs::react::{CellId, ComputeFn, Notification, Reactor, RemoveCallbackError};

#[test]
fn input_roundtrip() {
    let mut r = Reactor::new();
    let a = r.create_input(11);
    assert_eq!(r.value(CellId::Input(a)), Some(11));
    assert!(r.set_value(a, 42));
    assert_eq!(r.value(CellId::Input(a)), Some(42));
}

#[test]
fn unknown_ids_are_rejected() {
    let mut r = Reactor::new();
    let a = r.create_input(1);
    let mut other = Reactor::new();
    let b = other.create_input(1);
    let c = other
        .create_compute(&vec![CellId::Input(b)], ComputeFn::Arg(0))
        .unwrap();
    assert_eq!(r.value(CellId::Compute(c)), None);
    assert_eq!(r.add_callback(c), None);
    assert_eq!(
        r.remove_callback(c, react_labs::react::CallbackId(0)),
        Err(RemoveCallbackError::NonexistentCell)
    );
    let _ = a;
}

#[test]
fn basic_derivation_identity() {
    let mut r = Reactor::new();
    let a = r.create_input(7);
    let b = r
        .create_compute(&vec![CellId::Input(a)], ComputeFn::Arg(0))
        .unwrap();
    assert_eq!(r.value(CellId::Compute(b)), Some(7));
    assert!(r.set_value(a, -3));
    assert_eq!(r.value(CellId::Compute(b)), Some(-3));
}

#[test]
fn change_propagation() {
    let mut r = Reactor::new();
    let a = r.create_input(1);
    let b = r
        .create_compute(&vec![CellId::Input(a)], ComputeFn::Linear(vec![1], 1))
        .unwrap();
    assert_eq!(r.value(CellId::Compute(b)), Some(2));
    assert!(r.set_value(a, 3));
    assert_eq!(r.value(CellId::Compute(b)), Some(4));
}

#[test]
fn missing_dependency_is_reported() {
    let mut r = Reactor::new();
    let a = r.create_input(1);
    let mut other = Reactor::new();
    let ob = other.create_input(1);
    let oc = other
        .create_compute(&vec![CellId::Input(ob)], ComputeFn::Arg(0))
        .unwrap();
    let bogus = CellId::Compute(oc);
    let res = r.create_compute(&vec![CellId::Input(a), bogus], ComputeFn::Arg(0));
    assert_eq!(res, Err(bogus));
    // nothing was registered
    assert_eq!(r.value(bogus), None);
    let ok = r.create_compute(&vec![CellId::Input(a)], ComputeFn::Arg(0));
    assert!(ok.is_ok());
}

#[test]
fn diamond_consistency() {
    let mut r = Reactor::new();
    let a = r.create_input(1);
    let b = r
        .create_compute(&vec![CellId::Input(a)], ComputeFn::Linear(vec![2], 0))
        .unwrap();
    let c = r
        .create_compute(&vec![CellId::Input(a)], ComputeFn::Linear(vec![1], 1))
        .unwrap();
    let d = r
        .create_compute(
            &vec![CellId::Compute(b), CellId::Compute(c)],
            ComputeFn::Linear(vec![1, 1], 0),
        )
        .unwrap();
    assert_eq!(r.value(CellId::Compute(d)), Some(4));
    let cb = r.add_callback(d).unwrap();
    assert!(r.set_value(a, 3));
    assert_eq!(r.value(CellId::Compute(d)), Some(10));
    let fired: Vec<Notification> = r.take_notifications();
    let for_d: Vec<&Notification> = fired
        .iter()
        .filter(|n| n.cell == d && n.callback == cb)
        .collect();
    assert_eq!(for_d.len(), 1);
    assert_eq!(for_d[0].value, 10);
}

#[test]
fn no_op_set_fires_nothing() {
    let mut r = Reactor::new();
    let a = r.create_input(5);
    let b = r
        .create_compute(&vec![CellId::Input(a)], ComputeFn::Linear(vec![3], 2))
        .unwrap();
    let _cb = r.add_callback(b).unwrap();
    assert!(r.set_value(a, 5));
    assert_eq!(r.notifications().len(), 0);
}

#[test]
fn exactly_once_on_two_paths() {
    let mut r = Reactor::new();
    let a = r.create_input(0);
    let left = r
        .create_compute(&vec![CellId::Input(a)], ComputeFn::Linear(vec![1], 0))
        .unwrap();
    let right = r
        .create_compute(&vec![CellId::Input(a)], ComputeFn::Linear(vec![1], 0))
        .unwrap();
    let join = r
        .create_compute(
            &vec![CellId::Compute(left), CellId::Compute(right)],
            ComputeFn::Linear(vec![1, 1], 0),
        )
        .unwrap();
    let cb = r.add_callback(join).unwrap();
    assert!(r.set_value(a, 4));
    let fired = r.take_notifications();
    let hits = fired
        .iter()
        .filter(|n| n.cell == join && n.callback == cb)
        .count();
    assert_eq!(hits, 1);
    assert_eq!(r.value(CellId::Compute(join)), Some(8));
}

#[test]
fn callback_lifecycle() {
    let mut r = Reactor::new();
    let a = r.create_input(1);
    let b = r
        .create_compute(&vec![CellId::Input(a)], ComputeFn::Arg(0))
        .unwrap();
    let cb = r.add_callback(b).unwrap();
    assert_eq!(r.remove_callback(b, cb), Ok(()));
    // removing again: the cell exists, the registration does not
    assert_eq!(
        r.remove_callback(b, cb),
        Err(RemoveCallbackError::NonexistentCallback)
    );
    // a removed callback never fires again
    assert!(r.set_value(a, 99));
    assert_eq!(r.notifications().len(), 0);
}

#[test]
fn constant_cells_never_fire() {
    let mut r = Reactor::new();
    let a = r.create_input(1);
    let k = r
        .create_compute(&vec![CellId::Input(a)], ComputeFn::Const(9))
        .unwrap();
    let _cb = r.add_callback(k).unwrap();
    assert_eq!(r.value(CellId::Compute(k)), Some(9));
    assert!(r.set_value(a, 2));
    assert_eq!(r.value(CellId::Compute(k)), Some(9));
    assert_eq!(r.notifications().len(), 0);
}

#[test]
fn unaffected_cells_keep_their_value() {
    let mut r = Reactor::new();
    let a = r.create_input(1);
    let other = r.create_input(100);
    let b = r
        .create_compute(&vec![CellId::Input(other)], ComputeFn::Linear(vec![1], 0))
        .unwrap();
    assert!(r.set_value(a, 55));
    assert_eq!(r.value(CellId::Compute(b)), Some(100));
    assert_eq!(r.value(CellId::Input(other)), Some(100));
}
