use browser_core::decimal::{decimal_string, parse_number};
use browser_core::preview::{failure, pdftoppm, Caching, Output, PeekError, Rendering};

fn rendering() -> Rendering {
    pdftoppm(0)
}

fn failed(stderr: &[u8]) -> PeekError {
    let output = Output { success: false, stdout: b"ignored".to_vec(), stderr: stderr.to_vec() };
    rendering().exited(Ok(output)).unwrap_err()
}

#[test]
fn arguments_ask_for_one_jpeg_of_the_page_counted_from_one() {
    assert_eq!(pdftoppm(0).args, vec!["-singlefile", "-jpeg", "-jpegopt", "quality=75", "-f", "1"]);
    assert_eq!(pdftoppm(11).args[5], "12");
    assert_eq!(pdftoppm(98).args[5], "99");
    assert_eq!(pdftoppm(99).args[5], "100");
}

#[test]
fn arguments_for_the_largest_skip() {
    let expected = (usize::MAX as u128 + 1).to_string();
    assert_eq!(pdftoppm(usize::MAX).args[5], expected);
}

#[test]
fn page_beyond_the_last_gives_the_last_index() {
    let stderr = "Wrong page range given: the first page (20) can not be after the last page (12) is out of range\n";
    assert_eq!(failure(stderr.to_string()), PeekError::Exceed(11));
    assert_eq!(failed(stderr.as_bytes()), PeekError::Exceed(11));
}

#[test]
fn complaint_without_a_page_count_is_handed_on() {
    let stderr = "Syntax Error: Couldn't find trailer dictionary";
    assert_eq!(failure(stderr.to_string()), PeekError::Unexpected(stderr.to_string()));
    assert_eq!(failed(stderr.as_bytes()), PeekError::Unexpected(stderr.to_string()));
    assert_eq!(failure(String::new()), PeekError::Unexpected(String::new()));
}

#[test]
fn page_count_of_zero_is_no_bound() {
    let stderr = "the last page (0)";
    assert_eq!(failure(stderr.to_string()), PeekError::Unexpected(stderr.to_string()));
    let stderr = "the last page (000)";
    assert_eq!(failure(stderr.to_string()), PeekError::Unexpected(stderr.to_string()));
}

#[test]
fn page_count_of_one_gives_index_zero() {
    assert_eq!(failure("the last page (1)".to_string()), PeekError::Exceed(0));
    assert_eq!(failure("the last page (007)".to_string()), PeekError::Exceed(6));
}

#[test]
fn page_count_too_large_for_the_machine_is_no_bound() {
    let stderr = "the last page (340282366920938463463374607431768211456)";
    assert_eq!(failure(stderr.to_string()), PeekError::Unexpected(stderr.to_string()));
    let most = format!("the last page ({})", usize::MAX);
    assert_eq!(failure(most), PeekError::Exceed(usize::MAX - 1));
}

#[test]
fn first_page_count_decides() {
    let stderr = "the last page (3) and then the last page (9)";
    assert_eq!(failure(stderr.to_string()), PeekError::Exceed(2));
    let stderr = "the last page (x) the last page (4)";
    assert_eq!(failure(stderr.to_string()), PeekError::Exceed(3));
}

#[test]
fn malformed_page_counts_are_no_match() {
    for stderr in [
        "the last page ()",
        "the last page (12",
        "the last page 12)",
        "the last page (1 2)",
        "The Last Page (12)",
        "the last page (-3)",
        "the last page (١٢)",
        "the last page (1२)",
    ] {
        assert_eq!(failure(stderr.to_string()), PeekError::Unexpected(stderr.to_string()));
    }
}

#[test]
fn exit_code_zero_hands_the_whole_output_to_the_cache() {
    let image = vec![0xff, 0xd8, 0xff, 0xe0, 0, 16];
    let output = Output {
        success: true,
        stdout: image.clone(),
        stderr: b"the last page (12)".to_vec(),
    };
    let caching: Caching = rendering().exited(Ok(output)).unwrap();
    assert_eq!(caching.image, image);
    assert_eq!(caching.cached(Ok(())), Ok(()));
}

#[test]
fn empty_output_is_cached_too() {
    let output = Output { success: true, stdout: Vec::new(), stderr: Vec::new() };
    assert!(rendering().exited(Ok(output)).unwrap().image.is_empty());
}

#[test]
fn renderer_that_did_not_run_is_unexpected() {
    let error = rendering().exited(Err("No such file or directory (os error 2)".to_string()));
    assert_eq!(
        error.unwrap_err(),
        PeekError::Unexpected("No such file or directory (os error 2)".to_string())
    );
}

#[test]
fn failed_cache_write_is_unexpected() {
    let caching = Caching { image: vec![1, 2, 3] };
    assert_eq!(
        caching.cached(Err("disk full".to_string())),
        Err(PeekError::Unexpected("disk full".to_string()))
    );
}

#[test]
fn complaint_that_is_no_utf8_is_read_leniently() {
    assert_eq!(failed(b"bad \xff byte"), PeekError::Unexpected("bad \u{fffd} byte".to_string()));
    assert_eq!(failed(b"\xffthe last page (5)"), PeekError::Exceed(4));
    assert_eq!(failed("caf\u{e9}".as_bytes()), PeekError::Unexpected("caf\u{e9}".to_string()));
}

#[test]
fn decimal_numerals() {
    assert_eq!(decimal_string(0), "0");
    assert_eq!(decimal_string(7), "7");
    assert_eq!(decimal_string(10), "10");
    assert_eq!(decimal_string(1234567890), "1234567890");
    assert_eq!(decimal_string(u128::MAX), u128::MAX.to_string());
}

#[test]
fn parsing_numerals() {
    assert_eq!(parse_number("0"), Some(0));
    assert_eq!(parse_number("12"), Some(12));
    assert_eq!(parse_number("0012"), Some(12));
    assert_eq!(parse_number(&usize::MAX.to_string()), Some(usize::MAX));
    assert_eq!(parse_number(&(usize::MAX as u128 + 1).to_string()), None);
    assert_eq!(parse_number(""), None);
    assert_eq!(parse_number("+1"), None);
    assert_eq!(parse_number("1a"), None);
    assert_eq!(parse_number("١"), None);
}
