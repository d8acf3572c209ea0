use udprelay::timer::{ExpiringTimer, NANOS_PER_SEC};
use udprelay::wire::{ack_frame, concat_arrays, parse_establish, same_bytes, FrameError, Ops};

fn establish(psk: &[u8], token: &[u8]) -> Vec<u8> {
    let mut frame = vec![0xff, 0x05, psk.len() as u8, token.len() as u8];
    frame.extend_from_slice(psk);
    frame.extend_from_slice(token);
    frame
}

#[test]
fn opcodes_have_their_values() {
    assert_eq!(Ops::ACK.value(), [0xff, 0x12]);
    assert_eq!(Ops::EstablishConnection.value(), [0xff, 0x05]);
}

#[test]
fn concat_arrays_joins_in_order() {
    assert_eq!(concat_arrays(&[1u8, 2], &[3u8, 4, 5]), vec![1, 2, 3, 4, 5]);
    assert_eq!(concat_arrays::<u8>(&[], &[]), Vec::<u8>::new());
    assert_eq!(concat_arrays(&[7u32], &[]), vec![7u32]);
    assert_eq!(concat_arrays(&[], &[9u16, 8]), vec![9u16, 8]);
}

#[test]
fn ack_frame_is_opcode_then_token() {
    assert_eq!(ack_frame(b"tok"), vec![0xff, 0x12, b't', b'o', b'k']);
    assert_eq!(ack_frame(b""), vec![0xff, 0x12]);
}

#[test]
fn same_bytes_compares_length_and_content() {
    assert!(same_bytes(b"abc", b"abc"));
    assert!(same_bytes(b"", b""));
    assert!(!same_bytes(b"abc", b"abd"));
    assert!(!same_bytes(b"abc", b"ab"));
    assert!(!same_bytes(b"ab", b"abc"));
}

#[test]
fn parse_accepts_the_documented_frame() {
    let frame = [
        0xff, 0x05, 0x06, 0x03, b's', b'e', b'c', b'r', b'e', b't', b't', b'o', b'k',
    ];
    assert_eq!(parse_establish(b"secret", &frame), Ok(b"tok".to_vec()));
}

#[test]
fn parse_ignores_trailing_bytes() {
    let mut frame = establish(b"secret", b"tok");
    frame.extend_from_slice(b"garbage");
    assert_eq!(parse_establish(b"secret", &frame), Ok(b"tok".to_vec()));
}

#[test]
fn parse_accepts_empty_token_and_empty_key() {
    assert_eq!(parse_establish(b"secret", &establish(b"secret", b"")), Ok(vec![]));
    assert_eq!(parse_establish(b"", &establish(b"", b"t")), Ok(b"t".to_vec()));
    assert_eq!(parse_establish(b"", &[0xff, 0x05, 0, 0]), Ok(vec![]));
}

#[test]
fn parse_accepts_longest_token() {
    let token = vec![0xabu8; 255];
    assert_eq!(parse_establish(b"k", &establish(b"k", &token)), Ok(token));
}

#[test]
fn parse_rejects_too_short() {
    assert_eq!(parse_establish(b"secret", &[]), Err(FrameError::TooShort));
    assert_eq!(parse_establish(b"secret", &[0xff]), Err(FrameError::TooShort));
    assert_eq!(
        parse_establish(b"secret", &[0xff, 0x05, 6, 3, b's', b'e', b'c']),
        Err(FrameError::TooShort)
    );
    assert_eq!(parse_establish(b"", &[0xff]), Err(FrameError::TooShort));
}

#[test]
fn parse_rejects_other_opcode() {
    let mut frame = establish(b"secret", b"tok");
    frame[1] = 0x12;
    assert_eq!(parse_establish(b"secret", &frame), Err(FrameError::NotEstablish));
    frame[1] = 0x05;
    frame[0] = 0xfe;
    assert_eq!(parse_establish(b"secret", &frame), Err(FrameError::NotEstablish));
    assert_eq!(parse_establish(b"secret", b"hello world"), Err(FrameError::NotEstablish));
}

#[test]
fn parse_rejects_truncated() {
    let frame = establish(b"secret", b"tok");
    assert_eq!(
        parse_establish(b"secret", &frame[..frame.len() - 1]),
        Err(FrameError::Truncated)
    );
    assert_eq!(parse_establish(b"", &[0xff, 0x05]), Err(FrameError::Truncated));
    assert_eq!(parse_establish(b"", &[0xff, 0x05, 0]), Err(FrameError::Truncated));
    assert_eq!(parse_establish(b"", &[0xff, 0x05, 0, 1]), Err(FrameError::Truncated));
}

#[test]
fn parse_rejects_frame_without_token_length() {
    // opcode, key length, then the key where the token length should be
    assert_eq!(
        parse_establish(b"k", &[0xff, 0x05, 1, b'k']),
        Err(FrameError::Truncated)
    );
}

#[test]
fn parse_rejects_wrong_key() {
    assert_eq!(
        parse_establish(b"secret", &establish(b"SECRET", b"tok")),
        Err(FrameError::KeyMismatch)
    );
    assert_eq!(
        parse_establish(b"secret", &establish(b"secre", b"ttok")),
        Err(FrameError::KeyMismatch)
    );
    assert_eq!(
        parse_establish(b"secret", &establish(b"secrets", b"tok")),
        Err(FrameError::KeyMismatch)
    );
}

#[test]
fn timer_new_and_access_set_the_instant() {
    let mut timer = ExpiringTimer::new(5);
    assert_eq!(timer, ExpiringTimer(5));
    assert_eq!(timer.instant(), 5);
    timer.access(9);
    assert_eq!(timer, ExpiringTimer(9));
}

#[test]
fn timer_expires_at_whole_seconds() {
    let start = 7 * NANOS_PER_SEC + 123;
    let timer = ExpiringTimer::new(start);
    assert!(!timer.is_expired(start, 1));
    assert!(!timer.is_expired(start + NANOS_PER_SEC - 1, 1));
    assert!(timer.is_expired(start + NANOS_PER_SEC, 1));
    assert!(!timer.is_expired(start + 90 * NANOS_PER_SEC - 1, 90));
    assert!(timer.is_expired(start + 90 * NANOS_PER_SEC, 90));
    assert!(timer.is_expired(start + 91 * NANOS_PER_SEC, 90));
}

#[test]
fn timer_with_zero_timeout_is_expired_at_once() {
    assert!(ExpiringTimer::new(42).is_expired(42, 0));
}

#[test]
fn timer_counts_a_clock_gone_backwards_as_expired() {
    let timer = ExpiringTimer::new(10 * NANOS_PER_SEC);
    assert!(timer.is_expired(9 * NANOS_PER_SEC, 1_000_000));
    assert!(timer.is_expired(0, u64::MAX));
}

#[test]
fn timer_survives_the_largest_values() {
    let timer = ExpiringTimer::new(0);
    assert!(timer.is_expired(u128::MAX, u64::MAX));
    assert!(timer.is_expired(u64::MAX as u128 * NANOS_PER_SEC, u64::MAX));
    assert!(!timer.is_expired(u64::MAX as u128 * NANOS_PER_SEC - 1, u64::MAX));
    assert!(!ExpiringTimer::new(u128::MAX).is_expired(u128::MAX, 1));
}
