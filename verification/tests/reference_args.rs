use sffs::reference_args::{parse_reference_args, parse_usize, NumberError, ReferenceArgsError};

fn args(list: &[&str]) -> Vec<String> {
    list.iter().map(|s| s.to_string()).collect()
}

#[test]
fn numbers_read_like_std() {
    assert_eq!(parse_usize("42"), Ok(42));
    assert_eq!(parse_usize("+7"), Ok(7));
    assert_eq!(parse_usize("007"), Ok(7));
    assert_eq!(parse_usize(""), Err(NumberError::Empty));
    assert_eq!(parse_usize("+"), Err(NumberError::InvalidDigit));
    assert_eq!(parse_usize("-1"), Err(NumberError::InvalidDigit));
    assert_eq!(parse_usize("1x"), Err(NumberError::InvalidDigit));
    assert_eq!(parse_usize(" 1"), Err(NumberError::InvalidDigit));
    assert_eq!(parse_usize("99999999999999999999999"), Err(NumberError::PosOverflow));
    assert_eq!(parse_usize("99999999999999999999x"), Err(NumberError::PosOverflow));
    assert_eq!(parse_usize(&usize::MAX.to_string()), Ok(usize::MAX));
    for s in ["", "+", "-3", "12", "+0", "1 2", "18446744073709551616", "é"] {
        assert_eq!(parse_usize(s).ok(), s.parse::<usize>().ok(), "{s}");
    }
}

#[test]
fn reference_arguments() {
    let o = parse_reference_args(&args(&[])).unwrap();
    assert_eq!(o.output, None);
    assert_eq!((o.config.warmup_iterations, o.config.measurement_iterations), (1, 6));

    let o = parse_reference_args(&args(&["--iterations", "3", "--output", "out.json", "--warmup", "0"]))
        .unwrap();
    assert_eq!(o.output.as_deref(), Some("out.json"));
    assert_eq!((o.config.warmup_iterations, o.config.measurement_iterations), (0, 3));

    let o = parse_reference_args(&args(&["--warmup", "2", "--warmup", "5"])).unwrap();
    assert_eq!(o.config.warmup_iterations, 5);
}

#[test]
fn reference_argument_errors() {
    let err = parse_reference_args(&args(&["--output"])).unwrap_err();
    assert_eq!(err, ReferenceArgsError::MissingOutputPath);
    assert_eq!(err.message(), "missing path after --output");
    let err = parse_reference_args(&args(&["--iterations"])).unwrap_err();
    assert_eq!(err.message(), "missing value after --iterations");
    let err = parse_reference_args(&args(&["--warmup"])).unwrap_err();
    assert_eq!(err.message(), "missing value after --warmup");
    let err = parse_reference_args(&args(&["--warmup", "x"])).unwrap_err();
    assert_eq!(err, ReferenceArgsError::InvalidNumber(NumberError::InvalidDigit));
    assert_eq!(err.message(), "invalid digit found in string");
    assert_eq!(err.message(), "x".parse::<usize>().unwrap_err().to_string());
    let err = parse_reference_args(&args(&["--iterations", ""])).unwrap_err();
    assert_eq!(err.message(), "".parse::<usize>().unwrap_err().to_string());
    let err = parse_reference_args(&args(&["--iterations", "999999999999999999999"])).unwrap_err();
    assert_eq!(err.message(), "999999999999999999999".parse::<usize>().unwrap_err().to_string());
    let err = parse_reference_args(&args(&["--verbose", "--output"])).unwrap_err();
    assert_eq!(err.message(), "unknown argument: --verbose");
}
