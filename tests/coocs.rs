use corpuslib::coocs::{decimal_digits, CoocCounter};

fn counted(tokens: &[&str], b: usize, f: usize) -> CoocCounter {
    let mut c = CoocCounter::new(b, f);
    for t in tokens {
        c.register(t);
    }
    c
}

#[test]
fn scenario_abaca_table() {
    let c = counted(&["a", "b", "a", "c", "a"], 1, 1);
    // a = 0, b = 1, c = 2
    assert_eq!(c.code_for("a"), Some(0));
    assert_eq!(c.code_for("b"), Some(1));
    assert_eq!(c.code_for("c"), Some(2));
    assert_eq!(c.entries(), vec![(0, 1, 1), (0, 2, 1), (1, 0, 1), (2, 0, 1)]);
    assert_eq!(c.freqs().len(), 4);
    assert_eq!(c.freqs().get(&(1, 0)), Some(&1));
    assert_eq!(c.freqs().get(&(2, 0)), Some(&1));
}

#[test]
fn window_gating_waits_for_capacity() {
    let mut c = CoocCounter::new(1, 1);
    c.register("a");
    c.register("b");
    assert!(c.freqs().is_empty());
    assert_eq!(c.window(), vec!["a".to_string(), "b".to_string()]);
    c.register("a");
    // One window evaluated: target b, context {a} once.
    assert_eq!(c.entries(), vec![(1, 0, 1)]);
    c.register("c");
    assert_eq!(c.entries(), vec![(0, 1, 1), (0, 2, 1), (1, 0, 1)]);
    assert_eq!(c.registered(), 4);
}

#[test]
fn window_keeps_last_capacity_tokens() {
    let c = counted(&["a", "b", "a", "c", "a"], 1, 1);
    assert_eq!(c.window(), vec!["a".to_string(), "c".to_string(), "a".to_string()]);
}

#[test]
fn repeated_context_counts_once() {
    // Window [x, t, x, x] with b=1, f=2: context {x} counted once.
    let c = counted(&["x", "t", "x", "x"], 1, 2);
    assert_eq!(c.entries(), vec![(1, 0, 1)]);
}

#[test]
fn counts_accumulate_over_windows() {
    // b=0, f=1: each window is (target, next).
    let c = counted(&["a", "b", "a", "b", "a"], 0, 1);
    assert_eq!(c.entries(), vec![(0, 1, 2), (1, 0, 2)]);
}

#[test]
fn csv_rows_in_key_order() {
    let c = counted(&["a", "b", "a", "c", "a"], 1, 1);
    let bytes = c.to_csv_bytes();
    assert_eq!(String::from_utf8(bytes).unwrap(), "a,b,1\na,c,1\nb,a,1\nc,a,1\n");
}

#[test]
fn csv_quotes_separators() {
    let c = counted(&["x,y", "z", "x,y"], 1, 1);
    let bytes = c.to_csv_bytes();
    assert_eq!(String::from_utf8(bytes).unwrap(), "z,\"x,y\",1\n");
}

#[test]
fn empty_table_exports_nothing() {
    let c = counted(&["a"], 1, 1);
    assert_eq!(c.to_csv_bytes(), Vec::<u8>::new());
    assert!(c.entries().is_empty());
}

#[test]
fn decimal_digits_of_numbers() {
    assert_eq!(decimal_digits(0), b"0".to_vec());
    assert_eq!(decimal_digits(7), b"7".to_vec());
    assert_eq!(decimal_digits(1234), b"1234".to_vec());
    assert_eq!(decimal_digits(usize::MAX), usize::MAX.to_string().into_bytes());
}
