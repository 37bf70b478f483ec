use refcount::cacher::Cacher;

#[test]
fn cache_int_values() {
    let mut c = Cacher::new(|a| a);

    assert_eq!(c.value(1), 1);
    assert_eq!(c.value(2), 2);
    assert_eq!(c.value(1), 1);
}

#[test]
fn cache_string_values() {
    let mut c = Cacher::new(|a| a);

    assert_eq!(c.value("foo"), "foo");
    assert_eq!(c.value("bar"), "bar");
}

#[test]
fn cache_string_slice_lenghts() {
    let mut c = Cacher::new(|a: &str| a.len());

    assert_eq!(c.value(&"foo"), 3);
    assert_eq!(c.value(&"foos"), 4);
    assert_eq!(c.value(&"foo"), 3);
}

#[test]
fn cached_argument_is_not_recomputed() {
    let calls = std::cell::Cell::new(0u32);
    let mut c = Cacher::new(|a: u64| {
        calls.set(calls.get() + 1);
        a * 2
    });
    assert_eq!(c.value(21), 42);
    assert_eq!(c.value(21), 42);
    assert_eq!(c.value(5), 10);
    assert_eq!(c.value(21), 42);
    assert_eq!(calls.get(), 2);
}
