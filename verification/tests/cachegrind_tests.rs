use sirun::cachegrind::{cachegrind_args, parse_instructions};
use sirun::error::HarnessError;

#[test]
fn two_matching_lines_sum() {
    let stderr = b"==1== some noise\n==1== I   refs:      1,000\n\
==2== I   refs:      500\n==2== done\n";
    assert_eq!(parse_instructions(stderr), Ok(1500));
}

#[test]
fn zero_matching_lines_is_fatal() {
    let stderr = b"==1== no counters here\n";
    assert_eq!(parse_instructions(stderr), Err(HarnessError::MalformedTelemetry));
}

#[test]
fn unparsable_token_is_fatal() {
    let stderr = b"==1== I   refs:      lots\n";
    assert_eq!(parse_instructions(stderr), Err(HarnessError::MalformedTelemetry));
}

#[test]
fn zero_total_is_fatal() {
    let stderr = b"==1== I   refs: 0\n";
    assert_eq!(parse_instructions(stderr), Err(HarnessError::MalformedTelemetry));
}

#[test]
fn thousands_separators_are_stripped() {
    let stderr = b"==1== I   refs: 12,345,678\n";
    assert_eq!(parse_instructions(stderr), Ok(12_345_678));
}

#[test]
fn child_process_counters_are_included() {
    let stderr = b"==1== I   refs: 10\ntrash\n==2== I   refs: 20\n==3== I   refs: 30\n";
    assert_eq!(parse_instructions(stderr), Ok(60));
}

#[test]
fn profiler_arguments_have_fixed_geometry() {
    let run = vec![b"mybench".to_vec(), b"--fast".to_vec()];
    let args = cachegrind_args(&run);
    assert_eq!(args.len(), 7);
    assert_eq!(args[0], b"--tool=cachegrind".to_vec());
    assert_eq!(args[1], b"--trace-children=yes".to_vec());
    assert_eq!(args[2], b"--I1=32768,8,64".to_vec());
    assert_eq!(args[3], b"--D1=32768,8,64".to_vec());
    assert_eq!(args[4], b"--LL=8388608,16,64".to_vec());
    assert_eq!(args[5], b"mybench".to_vec());
    assert_eq!(args[6], b"--fast".to_vec());
}
