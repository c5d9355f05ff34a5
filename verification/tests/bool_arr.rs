use ropekit::bool_arr::BoolArr;

#[test]
fn bool_arr_test() {
    let mut br = BoolArr::new(10, false);
    assert!(!br.get(5));
    br.set(5, true);
    assert!(br.get(5));
    br.push(true);
    assert!(br.get(10));
    br.push(false);
    assert!(!br.get(11));
    let br = BoolArr::new(10, true);
    for i in 0..10 {
        assert!(br.get(i));
    }
}

#[test]
fn bool_arr_test_complex() {
    let mut br = BoolArr::new(100000, false);
    br.set(97, true);
    assert!(br.get(97));
    br.set(97, false);
    for i in 0..100000 {
        br.set(i, i % 2 == 0);
    }
    for i in 0..100000 {
        assert!(br.get(i) == (i % 2 == 0));
    }
    let mut br = BoolArr::new(100000, true);
    for i in 0..100000 {
        br.set(i, i % 2 == 0);
    }
    for i in 0..100000 {
        assert!(br.get(i) == (i % 2 == 0));
    }
    let mut br = BoolArr::new(1000000, false);
    let mut count = 0;
    br.set(12321, true);
    br.set(655637, true);
    for i in 0..1000000 {
        if br.get(i) {
            count += 1;
        }
    }
    assert!(count == 2);
    let br = BoolArr::new(101, true);
    assert!(br.get(37));
    assert!(br.get(97));
}

#[test]
fn new_has_the_asked_length() {
    assert_eq!(BoolArr::new(0, true).len(), 0);
    assert_eq!(BoolArr::new(64, false).len(), 64);
    assert_eq!(BoolArr::new(65, false).len(), 65);
}

#[test]
fn set_changes_one_entry_only() {
    let mut br = BoolArr::new(130, false);
    br.set(64, true);
    for i in 0..130 {
        assert_eq!(br.get(i), i == 64);
    }
    br.set(63, true);
    br.set(64, false);
    for i in 0..130 {
        assert_eq!(br.get(i), i == 63);
    }
}

#[test]
fn push_grows_across_words() {
    let mut br = BoolArr::new(0, false);
    for i in 0..200 {
        br.push(i % 3 == 0);
        assert_eq!(br.len(), i + 1);
    }
    for i in 0..200 {
        assert_eq!(br.get(i), i % 3 == 0);
    }
}

#[test]
fn push_after_filled_start_writes_the_new_entry() {
    let mut br = BoolArr::new(10, true);
    br.push(false);
    br.push(true);
    assert!(!br.get(10));
    assert!(br.get(11));
    for i in 0..10 {
        assert!(br.get(i));
    }
}
