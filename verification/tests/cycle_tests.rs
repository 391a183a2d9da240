use react::cycle::MyCycle;

#[test]
fn zero_item() {
    let array = Vec::<usize>::new();
    let mc = MyCycle::new(array.iter(), 5);
    assert_eq!(mc.count(), 0);
}

#[test]
fn iter_from_iter() {
    let array = vec![1, 2, 3];
    let mc1 = MyCycle::new(array.iter(), 5);
    let mc2 = MyCycle::new(mc1.clone(), 4);
    assert_eq!(60, mc2.count());
}

#[test]
fn iter_chain() {
    let array = vec![1, 2, 3];
    let array1 = vec![1, 2];
    let mc1 = MyCycle::new(array.iter(), 4);
    let mc2 = MyCycle::new(array1.iter(), 5);
    assert_eq!(12 + 10, mc1.chain(mc2).count());
}

#[test]
fn zip_iter() {
    let array = vec![1, 2, 3];
    let array1 = vec![1, 2];
    let mc1 = MyCycle::new(array.iter(), 1);
    let mc2 = MyCycle::new(array1.iter(), 2);
    let mut zipped = mc1.zip(mc2);

    assert_eq!(zipped.next().unwrap(), (&1, &1));
}

#[test]
fn rounds_come_one_after_the_other() {
    let array = vec![1, 2, 3];
    let items: Vec<i32> = MyCycle::new(array.iter(), 2).copied().collect();
    assert_eq!(items, vec![1, 2, 3, 1, 2, 3]);
    let once: Vec<i32> = MyCycle::new(array.iter(), 1).copied().collect();
    assert_eq!(once, vec![1, 2, 3]);
}

#[test]
fn no_rounds_asked_for_means_rounds_without_end() {
    let array = vec![7, 8];
    let first: Vec<i32> = MyCycle::new(array.iter(), 0).take(5).copied().collect();
    assert_eq!(first, vec![7, 8, 7, 8, 7]);
}

#[test]
fn a_copy_goes_on_from_the_same_place() {
    let array = vec![1, 2, 3];
    let mut cycle = MyCycle::new(array.iter(), 2);
    assert_eq!(cycle.next(), Some(&1));
    let copy = cycle.clone();
    assert_eq!(copy.count(), 5);
    assert_eq!(cycle.count(), 5);
}
