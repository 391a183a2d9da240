use react::cell::ComputeCell;
use react::index::DependencyIndex;
use react::{CallbackId, CellId, ComputeCellId, InputCellId};
use std::cell::RefCell;

type Compute = Box<dyn Fn(&[i64]) -> i64>;
type Callback<'a> = Box<dyn FnMut(i64) + 'a>;

fn sum_cell<'a>() -> ComputeCell<i64, Compute, Callback<'a>> {
    ComputeCell::new(
        ComputeCellId(3),
        vec![
            (CellId::Input(InputCellId(0)), Some(1)),
            (CellId::Compute(ComputeCellId(1)), Some(20)),
            (CellId::Input(InputCellId(0)), Some(1)),
        ],
        Box::new(|v| v.iter().sum()),
    )
}

#[test]
fn new_cell_has_no_value_yet() {
    let cell = sum_cell();
    assert_eq!(cell.value(), None);
    assert_eq!(cell.dep_count(), 3);
    assert_eq!(cell.dep(1), CellId::Compute(ComputeCellId(1)));
}

#[test]
fn first_compute_is_no_change() {
    let mut cell = sum_cell();
    assert!(!cell.compute());
    assert_eq!(cell.value(), Some(22));
    assert!(!cell.compute());
    assert_eq!(cell.value(), Some(22));
}

#[test]
fn update_dep_reaches_every_position() {
    let mut cell = sum_cell();
    cell.compute();
    cell.update_dep(CellId::Input(InputCellId(0)), 5);
    assert!(cell.compute());
    assert_eq!(cell.value(), Some(30));
    cell.update_dep(CellId::Input(InputCellId(9)), 1000);
    assert!(!cell.compute());
    assert_eq!(cell.value(), Some(30));
}

#[test]
fn cell_callbacks_are_added_removed_and_called() {
    let log = RefCell::new(Vec::new());
    let mut cell = sum_cell();
    let first = cell.add_callback(Box::new(|v| log.borrow_mut().push(v)));
    let second = cell.add_callback(Box::new(|v| log.borrow_mut().push(-v)));
    assert_eq!((first, second), (CallbackId(0), CallbackId(1)));
    cell.notify(4);
    assert_eq!(*log.borrow(), vec![4, -4]);
    assert!(cell.remove_callback(first));
    assert!(!cell.remove_callback(first));
    assert!(!cell.remove_callback(CallbackId(2)));
    cell.notify(6);
    assert_eq!(*log.borrow(), vec![4, -4, -6]);
}

#[test]
fn index_records_each_edge_once() {
    let mut index = DependencyIndex::new();
    index.add_input();
    index.add_compute();
    index.add_compute();
    let input = CellId::Input(InputCellId(0));
    let first = CellId::Compute(ComputeCellId(0));
    index.insert(input, ComputeCellId(0));
    index.insert(input, ComputeCellId(1));
    index.insert(input, ComputeCellId(0));
    index.insert(first, ComputeCellId(1));
    assert_eq!(*index.dependents_of(input), vec![ComputeCellId(0), ComputeCellId(1)]);
    assert_eq!(*index.dependents_of(first), vec![ComputeCellId(1)]);
    assert_eq!(*index.dependents_of(CellId::Compute(ComputeCellId(1))), Vec::new());
}
