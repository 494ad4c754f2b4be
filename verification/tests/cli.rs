use zerobrew::cli::parse_concurrency;

#[test]
fn accepts_positive_concurrency() {
    let concurrency = parse_concurrency("4").unwrap();
    assert_eq!(concurrency, 4);
}

#[test]
fn rejects_zero_concurrency() {
    let result = parse_concurrency("0");
    assert!(result.is_err());
    let err = result.err().unwrap_or_default();
    assert!(err.contains("at least 1"));
}

#[test]
fn concurrency_follows_the_rules_for_unsigned_numbers() {
    assert_eq!(parse_concurrency("20"), Ok(20));
    assert_eq!(parse_concurrency("+7"), Ok(7));
    assert_eq!(parse_concurrency("007"), Ok(7));
    assert_eq!(parse_concurrency("000"), Err("concurrency must be at least 1".to_string()));
    assert_eq!(parse_concurrency("+0"), Err("concurrency must be at least 1".to_string()));
    for bad in ["", "+", "-", "-1", "++1", "1+", " 1", "1 ", "1_0", "0x10", "१", "1.0"] {
        assert_eq!(
            parse_concurrency(bad),
            Err(format!("invalid value '{}': expected a positive integer", bad)),
            "{bad:?}"
        );
    }
}

#[test]
fn concurrency_agrees_with_the_standard_parser() {
    let max = usize::MAX.to_string();
    let over = format!("{}0", max);
    let next = {
        let mut digits: Vec<u8> = max.clone().into_bytes();
        let last = digits.len() - 1;
        digits[last] += 1;
        String::from_utf8(digits).unwrap()
    };
    for text in ["1", "9", "10", "65535", "4294967295", "4294967296", &max, &over, &next, "+12"] {
        match text.parse::<usize>() {
            Ok(n) => assert_eq!(parse_concurrency(text), Ok(n)),
            Err(_) => assert_eq!(
                parse_concurrency(text),
                Err(format!("invalid value '{}': expected a positive integer", text))
            ),
        }
    }
    assert_eq!(parse_concurrency(&max), Ok(usize::MAX));
}
