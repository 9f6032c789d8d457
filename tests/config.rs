use redis_proxy::config::{parse_args, ArgsError, DEFAULT_CACHE_EXPR_SEC, DEFAULT_CACHE_SIZE};

fn args(items: &[&str]) -> Vec<String> {
    let mut v = vec![String::from("redis_proxy")];
    for item in items {
        v.push(item.to_string());
    }
    v
}

#[test]
fn no_options_give_defaults() {
    let c = parse_args(&args(&[])).ok().unwrap();
    assert_eq!(c.cache_expr_sec, DEFAULT_CACHE_EXPR_SEC);
    assert_eq!(c.cache_expr_sec, 10);
    assert_eq!(c.cache_size, DEFAULT_CACHE_SIZE);
    assert_eq!(c.cache_size, 100);
    assert_eq!(c.redis_addr, "redis://127.0.0.1/");
    assert_eq!(c.cache_lifetime_nanos(), 10_000_000_000);
}

#[test]
fn every_option_is_read() {
    let c = parse_args(&args(&[
        "--redis_addr",
        "redis://10.0.0.5:6380/",
        "--cache_size",
        "42",
        "--cache_expr_sec",
        "+7",
    ]))
    .ok()
    .unwrap();
    assert_eq!(c.cache_expr_sec, 7);
    assert_eq!(c.cache_size, 42);
    assert_eq!(c.redis_addr, "redis://10.0.0.5:6380/");
    assert_eq!(c.cache_lifetime_nanos(), 7_000_000_000);
}

#[test]
fn largest_lifetime_is_accepted() {
    let c = parse_args(&args(&["--cache_expr_sec", "18446744073709551615"])).ok().unwrap();
    assert_eq!(c.cache_expr_sec, u64::MAX);
    assert_eq!(c.cache_lifetime_nanos(), u64::MAX as u128 * 1_000_000_000);
}

#[test]
fn help_asks_for_usage() {
    assert_eq!(parse_args(&args(&["--help", "x"])).err(), Some(ArgsError::Usage));
}

#[test]
fn wrong_count_asks_for_usage() {
    assert_eq!(parse_args(&args(&["--cache_size"])).err(), Some(ArgsError::Usage));
    assert_eq!(parse_args(&Vec::new()).err(), Some(ArgsError::Usage));
}

#[test]
fn option_without_value_is_refused() {
    assert_eq!(
        parse_args(&args(&["--cache_size", "5", "x", "--redis_addr"])).err(),
        Some(ArgsError::MissingValue)
    );
}

#[test]
fn bad_numbers_are_refused() {
    assert_eq!(parse_args(&args(&["--cache_size", "ten"])).err(), Some(ArgsError::BadNumber));
    assert_eq!(parse_args(&args(&["--cache_expr_sec", "-1"])).err(), Some(ArgsError::BadNumber));
    assert_eq!(parse_args(&args(&["--cache_expr_sec", "+"])).err(), Some(ArgsError::BadNumber));
    assert_eq!(
        parse_args(&args(&["--cache_expr_sec", "18446744073709551616"])).err(),
        Some(ArgsError::BadNumber)
    );
}

#[test]
fn number_edge_cases() {
    let c = parse_args(&args(&["--cache_size", "007", "--cache_expr_sec", "0"])).ok().unwrap();
    assert_eq!(c.cache_size, 7);
    assert_eq!(c.cache_expr_sec, 0);
    assert_eq!(parse_args(&args(&["--cache_size", ""])).err(), Some(ArgsError::BadNumber));
    assert_eq!(parse_args(&args(&["--cache_size", " 5"])).err(), Some(ArgsError::BadNumber));
    assert_eq!(parse_args(&args(&["--cache_size", "5x"])).err(), Some(ArgsError::BadNumber));
    assert_eq!(parse_args(&args(&["--cache_size", "٣"])).err(), Some(ArgsError::BadNumber));
    let z = parse_args(&args(&["--cache_size", "0"])).ok().unwrap();
    assert_eq!(z.cache_size, 0);
}
