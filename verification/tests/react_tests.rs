use react::{CallbackId, CellId, ComputeCellId, InputCellId, Reactor, RemoveCallbackError};
use std::cell::RefCell;

type Compute<'a> = Box<dyn Fn(&[i32]) -> i32 + 'a>;
type Callback<'a> = Box<dyn FnMut(i32) + 'a>;
type TestReactor<'a> = Reactor<i32, Compute<'a>, Callback<'a>>;

fn recorder<'a>(log: &'a RefCell<Vec<i32>>) -> Callback<'a> {
    Box::new(move |v| log.borrow_mut().push(v))
}

#[test]
fn input_cells_have_a_value() {
    let mut reactor: TestReactor = Reactor::new();
    let a = reactor.create_input(10);
    let b = reactor.create_input(-4);
    assert_eq!(a, InputCellId(0));
    assert_eq!(b, InputCellId(1));
    assert_eq!(reactor.value(CellId::Input(a)), Some(10));
    assert_eq!(reactor.value(CellId::Input(b)), Some(-4));
}

#[test]
fn compute_cells_have_a_value_when_created() {
    let mut reactor: TestReactor = Reactor::new();
    let input = reactor.create_input(1);
    let output = reactor
        .create_compute(&[CellId::Input(input)], Box::new(|v| v[0] + 1))
        .unwrap();
    assert_eq!(output, ComputeCellId(0));
    assert_eq!(reactor.value(CellId::Compute(output)), Some(2));
    let second = reactor
        .create_compute(&[CellId::Compute(output), CellId::Input(input)], Box::new(|v| v[0] * 10 + v[1]))
        .unwrap();
    assert_eq!(second, ComputeCellId(1));
    assert_eq!(reactor.value(CellId::Compute(second)), Some(21));
}

#[test]
fn compute_cell_without_dependencies() {
    let mut reactor: TestReactor = Reactor::new();
    let constant = reactor.create_compute(&[], Box::new(|v| v.len() as i32 + 7)).unwrap();
    assert_eq!(reactor.value(CellId::Compute(constant)), Some(7));
}

#[test]
fn missing_dependency_is_returned() {
    let mut reactor: TestReactor = Reactor::new();
    let input = reactor.create_input(1);
    let missing_input = CellId::Input(InputCellId(5));
    let missing_compute = CellId::Compute(ComputeCellId(0));
    assert_eq!(
        reactor.create_compute(&[CellId::Input(input), missing_input], Box::new(|v| v[0])),
        Err(missing_input)
    );
    assert_eq!(
        reactor.create_compute(&[missing_compute, missing_input], Box::new(|v| v[0])),
        Err(missing_compute)
    );
    assert_eq!(reactor.value(CellId::Compute(ComputeCellId(0))), None);
    assert!(reactor.dependents_of(CellId::Input(input)).is_empty());
    let created = reactor.create_compute(&[CellId::Input(input)], Box::new(|v| v[0])).unwrap();
    assert_eq!(created, ComputeCellId(0));
}

#[test]
fn value_of_a_missing_cell_is_none() {
    let mut reactor: TestReactor = Reactor::new();
    reactor.create_input(1);
    assert_eq!(reactor.value(CellId::Input(InputCellId(1))), None);
    assert_eq!(reactor.value(CellId::Compute(ComputeCellId(0))), None);
}

#[test]
fn value_is_the_same_each_time() {
    let mut reactor: TestReactor = Reactor::new();
    let input = reactor.create_input(3);
    let output = reactor.create_compute(&[CellId::Input(input)], Box::new(|v| v[0] * 2)).unwrap();
    for _ in 0..3 {
        assert_eq!(reactor.value(CellId::Input(input)), Some(3));
        assert_eq!(reactor.value(CellId::Compute(output)), Some(6));
        assert_eq!(reactor.value(CellId::Compute(ComputeCellId(9))), None);
    }
}

#[test]
fn set_value_updates_compute_cells() {
    let mut reactor: TestReactor = Reactor::new();
    let input = reactor.create_input(1);
    let output = reactor.create_compute(&[CellId::Input(input)], Box::new(|v| v[0] + 1)).unwrap();
    assert_eq!(reactor.value(CellId::Compute(output)), Some(2));
    assert!(reactor.set_value(input, 3));
    assert_eq!(reactor.value(CellId::Input(input)), Some(3));
    assert_eq!(reactor.value(CellId::Compute(output)), Some(4));
}

#[test]
fn diamond_fires_once_with_the_final_value() {
    let log = RefCell::new(Vec::new());
    let mut reactor: TestReactor = Reactor::new();
    let input = reactor.create_input(1);
    let a = reactor.create_compute(&[CellId::Input(input)], Box::new(|v| v[0])).unwrap();
    let b = reactor.create_compute(&[CellId::Input(input)], Box::new(|v| v[0])).unwrap();
    let c = reactor
        .create_compute(&[CellId::Compute(a), CellId::Compute(b)], Box::new(|v| v[0] + v[1]))
        .unwrap();
    assert_eq!(reactor.value(CellId::Compute(c)), Some(2));
    assert_eq!(reactor.add_callback(c, recorder(&log)), Some(CallbackId(0)));
    assert!(reactor.set_value(input, 21));
    assert_eq!(reactor.value(CellId::Compute(c)), Some(42));
    assert_eq!(*log.borrow(), vec![42]);
    assert!(reactor.set_value(input, -3));
    assert_eq!(*log.borrow(), vec![42, -6]);
}

#[test]
fn unchanged_value_fires_nothing() {
    let log = RefCell::new(Vec::new());
    let mut reactor: TestReactor = Reactor::new();
    let input = reactor.create_input(1);
    let small = reactor
        .create_compute(&[CellId::Input(input)], Box::new(|v| if v[0] < 3 { 111 } else { 222 }))
        .unwrap();
    reactor.add_callback(small, recorder(&log)).unwrap();
    assert!(reactor.set_value(input, 2));
    assert_eq!(*log.borrow(), Vec::<i32>::new());
    assert!(reactor.set_value(input, 2));
    assert_eq!(*log.borrow(), Vec::<i32>::new());
    assert!(reactor.set_value(input, 4));
    assert_eq!(*log.borrow(), vec![222]);
    assert!(reactor.set_value(input, 5));
    assert_eq!(*log.borrow(), vec![222]);
}

#[test]
fn intermediate_change_that_cancels_out_fires_nothing() {
    let log = RefCell::new(Vec::new());
    let mut reactor: TestReactor = Reactor::new();
    let input = reactor.create_input(1);
    let plus = reactor.create_compute(&[CellId::Input(input)], Box::new(|v| v[0] + 1)).unwrap();
    let minus = reactor.create_compute(&[CellId::Input(input)], Box::new(|v| v[0] - 1)).unwrap();
    let minus2 = reactor.create_compute(&[CellId::Compute(minus)], Box::new(|v| v[0] - 1)).unwrap();
    let output = reactor
        .create_compute(&[CellId::Compute(plus), CellId::Compute(minus2)], Box::new(|v| v[0] - v[1]))
        .unwrap();
    reactor.add_callback(output, recorder(&log)).unwrap();
    assert_eq!(reactor.value(CellId::Compute(output)), Some(3));
    for x in 2..6 {
        assert!(reactor.set_value(input, x));
        assert_eq!(reactor.value(CellId::Compute(output)), Some(3));
    }
    assert_eq!(*log.borrow(), Vec::<i32>::new());
}

#[test]
fn removed_callback_is_not_called() {
    let first = RefCell::new(Vec::new());
    let second = RefCell::new(Vec::new());
    let mut reactor: TestReactor = Reactor::new();
    let input = reactor.create_input(11);
    let output = reactor.create_compute(&[CellId::Input(input)], Box::new(|v| v[0] + 1)).unwrap();
    let cb1 = reactor.add_callback(output, recorder(&first)).unwrap();
    let cb2 = reactor.add_callback(output, recorder(&second)).unwrap();
    assert_eq!(cb1, CallbackId(0));
    assert_eq!(cb2, CallbackId(1));
    assert!(reactor.set_value(input, 31));
    assert_eq!(*first.borrow(), vec![32]);
    assert_eq!(*second.borrow(), vec![32]);
    assert_eq!(reactor.remove_callback(output, cb1), Ok(()));
    assert!(reactor.set_value(input, 41));
    assert_eq!(*first.borrow(), vec![32]);
    assert_eq!(*second.borrow(), vec![32, 42]);
}

#[test]
fn removed_callback_identifier_is_not_given_again() {
    let log = RefCell::new(Vec::new());
    let mut reactor: TestReactor = Reactor::new();
    let input = reactor.create_input(1);
    let output = reactor.create_compute(&[CellId::Input(input)], Box::new(|v| v[0])).unwrap();
    let cb1 = reactor.add_callback(output, recorder(&log)).unwrap();
    let cb2 = reactor.add_callback(output, recorder(&log)).unwrap();
    assert_eq!(reactor.remove_callback(output, cb2), Ok(()));
    let cb3 = reactor.add_callback(output, recorder(&log)).unwrap();
    assert_eq!((cb1, cb2, cb3), (CallbackId(0), CallbackId(1), CallbackId(2)));
    assert_eq!(
        reactor.remove_callback(output, cb2),
        Err(RemoveCallbackError::NonexistentCallback)
    );
    assert!(reactor.set_value(input, 5));
    assert_eq!(*log.borrow(), vec![5, 5]);
}

#[test]
fn remove_callback_errors() {
    let log = RefCell::new(Vec::new());
    let mut reactor: TestReactor = Reactor::new();
    let input = reactor.create_input(1);
    let one = reactor.create_compute(&[CellId::Input(input)], Box::new(|v| v[0])).unwrap();
    let two = reactor.create_compute(&[CellId::Input(input)], Box::new(|v| v[0])).unwrap();
    let on_one = reactor.add_callback(one, recorder(&log)).unwrap();
    assert_eq!(
        reactor.remove_callback(ComputeCellId(7), on_one),
        Err(RemoveCallbackError::NonexistentCell)
    );
    assert_eq!(
        reactor.remove_callback(two, on_one),
        Err(RemoveCallbackError::NonexistentCallback)
    );
    assert_eq!(
        reactor.remove_callback(one, CallbackId(3)),
        Err(RemoveCallbackError::NonexistentCallback)
    );
    assert_eq!(reactor.remove_callback(one, on_one), Ok(()));
    assert_eq!(
        reactor.remove_callback(one, on_one),
        Err(RemoveCallbackError::NonexistentCallback)
    );
}

#[test]
fn add_callback_on_a_missing_cell() {
    let log = RefCell::new(Vec::new());
    let mut reactor: TestReactor = Reactor::new();
    reactor.create_input(1);
    assert_eq!(reactor.add_callback(ComputeCellId(0), recorder(&log)), None);
}

#[test]
fn set_value_on_a_missing_input() {
    let log = RefCell::new(Vec::new());
    let mut other: TestReactor = Reactor::new();
    other.create_input(1);
    let foreign = other.create_input(2);
    let mut reactor: TestReactor = Reactor::new();
    let input = reactor.create_input(5);
    let output = reactor.create_compute(&[CellId::Input(input)], Box::new(|v| v[0] * 3)).unwrap();
    reactor.add_callback(output, recorder(&log)).unwrap();
    assert!(!reactor.set_value(foreign, 100));
    assert!(!reactor.set_value(InputCellId(usize::MAX), 100));
    assert_eq!(reactor.value(CellId::Input(input)), Some(5));
    assert_eq!(reactor.value(CellId::Compute(output)), Some(15));
    assert_eq!(*log.borrow(), Vec::<i32>::new());
}

#[test]
fn chain_of_three_fires_each_once() {
    let log_a = RefCell::new(Vec::new());
    let log_b = RefCell::new(Vec::new());
    let log_c = RefCell::new(Vec::new());
    let mut reactor: TestReactor = Reactor::new();
    let input = reactor.create_input(0);
    let a = reactor.create_compute(&[CellId::Input(input)], Box::new(|v| v[0] + 1)).unwrap();
    let b = reactor.create_compute(&[CellId::Compute(a)], Box::new(|v| v[0] + 1)).unwrap();
    let c = reactor.create_compute(&[CellId::Compute(b)], Box::new(|v| v[0] + 1)).unwrap();
    reactor.add_callback(a, recorder(&log_a)).unwrap();
    reactor.add_callback(b, recorder(&log_b)).unwrap();
    reactor.add_callback(c, recorder(&log_c)).unwrap();
    assert!(reactor.set_value(input, 10));
    assert_eq!(reactor.value(CellId::Compute(c)), Some(13));
    assert_eq!(*log_a.borrow(), vec![11]);
    assert_eq!(*log_b.borrow(), vec![12]);
    assert_eq!(*log_c.borrow(), vec![13]);
}

#[test]
fn callbacks_of_one_cell_fire_in_the_order_added() {
    let log = RefCell::new(Vec::new());
    let mut reactor: TestReactor = Reactor::new();
    let input = reactor.create_input(1);
    let output = reactor.create_compute(&[CellId::Input(input)], Box::new(|v| v[0])).unwrap();
    reactor.add_callback(output, Box::new(|v| log.borrow_mut().push(v * 10 + 1))).unwrap();
    reactor.add_callback(output, Box::new(|v| log.borrow_mut().push(v * 10 + 2))).unwrap();
    reactor.add_callback(output, Box::new(|v| log.borrow_mut().push(v * 10 + 3))).unwrap();
    assert!(reactor.set_value(input, 4));
    assert_eq!(*log.borrow(), vec![41, 42, 43]);
}

#[test]
fn repeated_dependency_is_refreshed_everywhere() {
    let mut reactor: TestReactor = Reactor::new();
    let input = reactor.create_input(2);
    let other = reactor.create_input(100);
    let output = reactor
        .create_compute(
            &[CellId::Input(input), CellId::Input(other), CellId::Input(input)],
            Box::new(|v| v[0] * 10 + v[1] + v[2]),
        )
        .unwrap();
    assert_eq!(reactor.value(CellId::Compute(output)), Some(122));
    assert!(reactor.set_value(input, 3));
    assert_eq!(reactor.value(CellId::Compute(output)), Some(133));
    assert_eq!(reactor.dependents_of(CellId::Input(input)), vec![output]);
}

#[test]
fn unrelated_cells_keep_their_value() {
    let log = RefCell::new(Vec::new());
    let mut reactor: TestReactor = Reactor::new();
    let one = reactor.create_input(1);
    let two = reactor.create_input(2);
    let from_one = reactor.create_compute(&[CellId::Input(one)], Box::new(|v| v[0] + 1)).unwrap();
    let from_two = reactor.create_compute(&[CellId::Input(two)], Box::new(|v| v[0] + 1)).unwrap();
    reactor.add_callback(from_two, recorder(&log)).unwrap();
    assert!(reactor.set_value(one, 50));
    assert_eq!(reactor.value(CellId::Compute(from_one)), Some(51));
    assert_eq!(reactor.value(CellId::Compute(from_two)), Some(3));
    assert_eq!(reactor.value(CellId::Input(two)), Some(2));
    assert_eq!(*log.borrow(), Vec::<i32>::new());
}

#[test]
fn propagate_marks_the_changed_cells_in_order() {
    let mut reactor: TestReactor = Reactor::new();
    let input = reactor.create_input(1);
    let same = reactor.create_compute(&[CellId::Input(input)], Box::new(|v| v[0] * 0)).unwrap();
    let a = reactor.create_compute(&[CellId::Input(input)], Box::new(|v| v[0] + 1)).unwrap();
    let b = reactor
        .create_compute(&[CellId::Compute(a), CellId::Compute(same)], Box::new(|v| v[0] + v[1]))
        .unwrap();
    let marks = reactor.propagate(input, 6);
    assert_eq!(marks, vec![(a, 7), (b, 7)]);
    assert_eq!(reactor.value(CellId::Compute(same)), Some(0));
    let none = reactor.propagate(input, 6);
    assert_eq!(none, Vec::new());
}

#[test]
fn notify_calls_the_callbacks_of_the_listed_cells() {
    let log = RefCell::new(Vec::new());
    let mut reactor: TestReactor = Reactor::new();
    let input = reactor.create_input(1);
    let a = reactor.create_compute(&[CellId::Input(input)], Box::new(|v| v[0])).unwrap();
    let b = reactor.create_compute(&[CellId::Input(input)], Box::new(|v| v[0])).unwrap();
    reactor.add_callback(a, Box::new(|v| log.borrow_mut().push(v + 1000))).unwrap();
    reactor.add_callback(b, Box::new(|v| log.borrow_mut().push(v + 2000))).unwrap();
    reactor.notify(&vec![(b, 5), (ComputeCellId(9), 6), (a, 7)]);
    assert_eq!(*log.borrow(), vec![2005, 1007]);
    assert_eq!(reactor.value(CellId::Compute(a)), Some(1));
}

#[test]
fn dependents_are_listed_once_each() {
    let mut reactor: TestReactor = Reactor::new();
    let input = reactor.create_input(1);
    let a = reactor.create_compute(&[CellId::Input(input)], Box::new(|v| v[0])).unwrap();
    let b = reactor
        .create_compute(&[CellId::Compute(a), CellId::Input(input), CellId::Compute(a)], Box::new(|v| v[0]))
        .unwrap();
    assert_eq!(reactor.dependents_of(CellId::Input(input)), vec![a, b]);
    assert_eq!(reactor.dependents_of(CellId::Compute(a)), vec![b]);
    assert_eq!(reactor.dependents_of(CellId::Compute(b)), Vec::new());
    assert_eq!(reactor.dependents_of(CellId::Input(InputCellId(4))), Vec::new());
}
