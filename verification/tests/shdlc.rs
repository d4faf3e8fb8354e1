use sps30rs::shdlc::{
    checksum, decode_miso_frame, decode_miso_frame_checked, mosi_frame, stuff_data, unstuff_data,
    MisoFrame, ShdlcError,
};

#[test]
fn stuffing() {
    let cases: [(&[u8], &[u8]); 9] = [
        (&[], &[]),
        (&[0x00], &[0x00]),
        (&[0xFF], &[0xFF]),
        (&[0x00, 0xFF, 0x10], &[0x00, 0xFF, 0x10]),
        (&[0x7E], &[0x7D, 0x5E]),
        (&[0x7D], &[0x7D, 0x5D]),
        (&[0x11], &[0x7D, 0x31]),
        (&[0x13], &[0x7D, 0x33]),
        (&[0, 0, 0, 0x7E, 1, 1, 1], &[0, 0, 0, 0x7D, 0x5E, 1, 1, 1]),
    ];
    for (input, expected_output) in cases {
        let mut out = Vec::new();
        stuff_data(input, &mut out);
        assert_eq!(expected_output, out);
    }
}

#[test]
fn test_checksum() {
    assert_eq!(checksum(&[0x00, 0x00, 0x00]), 0xFF);
    assert_eq!(checksum(&[0x0F, 0xF0, 0x00]), 0x00);
    // Example from the sensor datasheet:
    assert_eq!(checksum(&[0x00, 0x00, 0x02, 0x01, 0x03]), 0xF9);
}

#[test]
fn test_mosi_frame() {
    let cases: [(&[u8], u8, u8, Result<Vec<u8>, ShdlcError>); 3] = [
        (&[], 0, 0, Ok(vec![0x7E, 0, 0, 0, 0xFF, 0x7E])),
        (
            &[0x01, 0x03],
            0,
            0,
            Ok(vec![0x7E, 0, 0, 0x02, 0x01, 0x03, 0xF9, 0x7E]),
        ),
        (&[0; 256], 0, 0, Err(ShdlcError::InputTooLarge)),
    ];
    for (input, adr, cmd, expected_result) in cases {
        let out = mosi_frame(adr, cmd, input);
        assert_eq!(expected_result, out);
    }
    assert_eq!(
        mosi_frame(0, 0, &[0; 256]).unwrap_err().message(),
        "input too large"
    );
}

#[test]
fn test_unstuff_data() {
    let cases: [(&[u8], usize, Result<Vec<u8>, ShdlcError>); 8] = [
        (&[], 0, Ok(vec![])),
        (&[0], 1, Ok(vec![0])),
        (&[0xFF, 0], 2, Ok(vec![0xFF, 0])),
        (&[0x7D, 0x5E], 1, Ok(vec![0x7E])),
        (&[0x7D, 0x5D], 1, Ok(vec![0x7D])),
        (&[0x7D, 0x31], 1, Ok(vec![0x11])),
        (&[0x7D, 0x33], 1, Ok(vec![0x13])),
        (&[0, 0x7D, 0x5E, 0], 3, Ok(vec![0, 0x7E, 0])),
    ];
    for (input, expected_unstuffed_length, expected_result) in cases {
        let out = unstuff_data(input);
        assert_eq!(expected_result, out);
        if let Ok(data) = expected_result {
            assert_eq!(expected_unstuffed_length, data.len())
        }
    }
}

#[test]
fn test_decode_miso_frame() {
    let cases: [(&[u8], Result<MisoFrame, ShdlcError>); 8] = [
        (&[], Err(ShdlcError::InvalidFrameLength)),
        (
            // CHK (2nd last byte) is not inspected by the unchecked decoder.
            &[0x7E, 0, 0, 0, 0, 0, 0x7E],
            Ok(MisoFrame {
                adr: 0,
                cmd: 0,
                state: 0,
                data: vec![],
            }),
        ),
        (
            &[0x7E, 0, 0, 0, 1, 0xFF, 0, 0x7E],
            Ok(MisoFrame {
                adr: 0,
                cmd: 0,
                state: 0,
                data: vec![0xFF],
            }),
        ),
        (
            &[0x7E, 0, 0, 0, 4, 0xFF, 0x7D, 0x5E, 1, 0xFF, 0, 0x7E],
            Ok(MisoFrame {
                adr: 0,
                cmd: 0,
                state: 0,
                data: vec![0xFF, 0x7E, 1, 0xFF],
            }),
        ),
        (
            &[0x7E, 1, 2, 3, 1, 0xFF, 0, 0x7E],
            Ok(MisoFrame {
                adr: 1,
                cmd: 2,
                state: 3,
                data: vec![0xFF],
            }),
        ),
        (
            // LEN=2, but RX data contains only 1 byte.
            &[0x7E, 1, 2, 3, 2, 0xFF, 0, 0x7E],
            Err(ShdlcError::LengthMismatch),
        ),
        (
            // LEN=0, but RX data contains 1 byte.
            &[0x7E, 1, 2, 3, 0, 0xFF, 0, 0x7E],
            Err(ShdlcError::LengthMismatch),
        ),
        (
            // LEN=2, RX data holds 1 plain and 1 stuffed byte (3 on the wire).
            &[0x7E, 1, 2, 3, 2, 0xFF, 0x7D, 0x5D, 0, 0x7E],
            Ok(MisoFrame {
                adr: 1,
                cmd: 2,
                state: 3,
                data: vec![0xFF, 0x7D],
            }),
        ),
    ];
    for (input, expected_result) in cases {
        let out = decode_miso_frame(input);
        assert_eq!(expected_result, out)
    }
    assert_eq!(
        decode_miso_frame(&[]).unwrap_err().message(),
        "invalid miso frame length"
    );
    assert_eq!(
        decode_miso_frame(&[0x7E, 1, 2, 3, 2, 0xFF, 0, 0x7E])
            .unwrap_err()
            .message(),
        "actual received data does not match expected length"
    );
}

#[test]
fn stuff_round_trip_concrete() {
    // Unstuffing inverts stuffing, reserved bytes included.
    let inputs: [&[u8]; 4] = [
        &[],
        &[0x7E, 0x7D, 0x11, 0x13],
        &[0x00, 0x7E, 0xFF, 0x10, 0x7D, 0x42],
        &[0x11, 0x11, 0x13, 0x5E, 0x5D],
    ];
    for input in inputs {
        let mut stuffed = Vec::new();
        stuff_data(input, &mut stuffed);
        assert_eq!(unstuff_data(&stuffed), Ok(input.to_vec()));
    }
}

#[test]
fn unstuff_error_cases() {
    // A trailing escape byte with nothing after it.
    assert_eq!(unstuff_data(&[0x7D]), Err(ShdlcError::TruncatedEscape));
    assert_eq!(
        unstuff_data(&[0x00, 0x7D]),
        Err(ShdlcError::TruncatedEscape)
    );
    assert_eq!(
        unstuff_data(&[0x7D]).unwrap_err().message(),
        "unexpected end of data after stuff byte"
    );
    // An escape byte followed by an unrecognized code.
    assert_eq!(
        unstuff_data(&[0x7D, 0x00]),
        Err(ShdlcError::InvalidStuffedByte { byte: 0x00 })
    );
    assert_eq!(
        unstuff_data(&[0x42, 0x7D, 0x7E]),
        Err(ShdlcError::InvalidStuffedByte { byte: 0x7E })
    );
    assert_eq!(
        unstuff_data(&[0x7D, 0x00]).unwrap_err().message(),
        "invalid/unsupported stuffed byte"
    );
}

#[test]
fn decode_rejects_short_input() {
    // Every input shorter than the 7-byte minimum fails with a length error.
    let short = [0x7Eu8; 6];
    for k in 0..7 {
        assert_eq!(
            decode_miso_frame(&short[..k]),
            Err(ShdlcError::InvalidFrameLength)
        );
        assert_eq!(
            decode_miso_frame_checked(&short[..k]),
            Err(ShdlcError::InvalidFrameLength)
        );
    }
}

#[test]
fn decode_missing_delimiters() {
    assert_eq!(
        decode_miso_frame(&[0, 0, 0, 0, 0, 0, 0]),
        Err(ShdlcError::MissingStartStop)
    );
    assert_eq!(
        decode_miso_frame(&[0x7E, 0, 0, 0, 0, 0, 1]),
        Err(ShdlcError::MissingStartStop)
    );
    assert_eq!(
        decode_miso_frame(&[1, 0, 0, 0, 0, 0, 0x7E]),
        Err(ShdlcError::MissingStartStop)
    );
    assert_eq!(
        decode_miso_frame(&[0, 0, 0, 0, 0, 0, 0])
            .unwrap_err()
            .message(),
        "invalid miso frame: incorrect/missing start/stop bytes"
    );
}

#[test]
fn decode_propagates_stuffing_errors() {
    // An escape byte right before the closing delimiter is cut short once
    // the delimiters are stripped.
    assert_eq!(
        decode_miso_frame(&[0x7E, 0, 0, 0, 0, 0, 0x7D, 0x7E]),
        Err(ShdlcError::TruncatedEscape)
    );
    // An escape byte followed by an unrecognized code.
    assert_eq!(
        decode_miso_frame(&[0x7E, 0, 0, 0, 0x7D, 0x31, 0, 0, 0x7D, 0x99, 0x7E]),
        Err(ShdlcError::InvalidStuffedByte { byte: 0x99 })
    );
}

#[test]
fn decode_checked_accepts_valid_checksum() {
    // covered = ADR CMD STATE LEN DATA = [0,0,0,1,0xFF]; sum wraps to 0x00,
    // so CHK = 0xFF.
    let raw = [0x7E, 0, 0, 0, 1, 0xFF, 0xFF, 0x7E];
    let frame = decode_miso_frame_checked(&raw).unwrap();
    assert_eq!(frame.adr, 0);
    assert_eq!(frame.cmd, 0);
    assert_eq!(frame.state, 0);
    assert_eq!(frame.data, vec![0xFF]);
}

#[test]
fn decode_checked_handles_stuffed_checksum_byte() {
    // covered = [0,0,0,1,0x80]; sum = 0x81, CHK = 0x7E, which travels
    // stuffed as 7D 5E on the wire.
    let raw = [0x7E, 0, 0, 0, 1, 0x80, 0x7D, 0x5E, 0x7E];
    let frame = decode_miso_frame_checked(&raw).unwrap();
    assert_eq!(frame.data, vec![0x80]);
}

#[test]
fn decode_checked_rejects_bad_checksum() {
    let raw = [0x7E, 0, 0, 0, 1, 0xFF, 0x00, 0x7E];
    assert_eq!(
        decode_miso_frame_checked(&raw),
        Err(ShdlcError::ChecksumMismatch)
    );
    assert_eq!(
        decode_miso_frame_checked(&raw).unwrap_err().message(),
        "checksum mismatch"
    );
    // The unchecked decoder accepts the same frame.
    assert!(decode_miso_frame(&raw).is_ok());
}

#[test]
fn encode_with_stuffed_payload() {
    // A reserved payload byte travels as its two-byte escape sequence, and
    // the checksum covers the stuffed form.
    let out = mosi_frame(0x42, 0xD0, &[0x7E]).unwrap();
    // checksum over [0x42, 0xD0, 0x01, 0x7D, 0x5E]: sum wraps to 0xEE,
    // CHK = 0x11.
    assert_eq!(out, vec![0x7E, 0x42, 0xD0, 1, 0x7D, 0x5E, 0x11, 0x7E]);
    assert_eq!(checksum(&[0x42, 0xD0, 0x01, 0x7D, 0x5E]), 0x11);
}
