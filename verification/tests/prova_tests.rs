use react::prova::Prova;

#[test]
fn record_keeps_what_it_is_given() {
    let double: fn(&[i32]) = |_| {};
    let record = Prova::new("ciao".to_string(), 30, double, double);
    assert_eq!(record.a, "ciao");
    assert_eq!(record.b, 30);
    (record.f)(&[1, 2]);
    (record.f1)(&[]);
}
