use merkle_audit::error::ProtocolError;
use merkle_audit::hasher::Sha256Algorithm;
use merkle_audit::indices::{convert_indices, encode_change, encode_indices, parse_index_list};
use merkle_audit::wire::{
    decode_digest, decode_frame, decode_index, decode_leaves, decode_length, decode_text,
    encode_frame, encode_index, encode_leaves, encode_length,
};

#[test]
fn encode_length_is_big_endian() {
    assert_eq!(encode_length(0), [0, 0, 0, 0]);
    assert_eq!(encode_length(5), [0, 0, 0, 5]);
    assert_eq!(encode_length(0x0102_0304), [1, 2, 3, 4]);
    assert_eq!(encode_length(u32::MAX), [255, 255, 255, 255]);
    assert_eq!(encode_length(256), [0, 0, 1, 0]);
}

#[test]
fn encode_length_agrees_with_std() {
    for value in [0u32, 1, 27, 255, 256, 65_535, 65_536, 16_777_216, 0xdead_beef, u32::MAX] {
        assert_eq!(encode_length(value), value.to_be_bytes());
        assert_eq!(decode_length(&value.to_be_bytes()), value);
    }
}

#[test]
fn decode_length_reads_big_endian() {
    assert_eq!(decode_length(&[0, 0, 0, 32]), 32);
    assert_eq!(decode_length(&[0, 0, 1, 0]), 256);
    assert_eq!(decode_length(&[1, 2, 3, 4]), 0x0102_0304);
    assert_eq!(decode_length(&[255, 255, 255, 255]), u32::MAX);
}

#[test]
fn encode_frame_puts_the_length_before_the_payload() {
    let frame = encode_frame(b"No More").unwrap();
    assert_eq!(frame, vec![0, 0, 0, 7, b'N', b'o', b' ', b'M', b'o', b'r', b'e']);
    assert_eq!(encode_frame(b"").unwrap(), vec![0, 0, 0, 0]);
    let long = vec![9u8; 300];
    let framed = encode_frame(&long).unwrap();
    assert_eq!(&framed[..4], &[0, 0, 1, 44]);
    assert_eq!(&framed[4..], long.as_slice());
}

#[test]
fn decode_frame_reads_back_what_encode_frame_wrote() {
    for payload in [&b""[..], &b"x"[..], &b"No More Segmentation Faults"[..]] {
        let mut buffer = encode_frame(payload).unwrap();
        buffer.extend_from_slice(b"rest");
        let (decoded, next) = decode_frame(&buffer, 0).unwrap();
        assert_eq!(decoded, payload);
        assert_eq!(next, 4 + payload.len());
    }
}

#[test]
fn decode_frame_reads_frames_one_after_the_other() {
    let mut buffer = vec![0xeeu8; 3];
    buffer.extend(encode_frame(b"first").unwrap());
    buffer.extend(encode_frame(b"second one").unwrap());
    let (first, next) = decode_frame(&buffer, 3).unwrap();
    assert_eq!(first, b"first");
    assert_eq!(next, 12);
    let (second, end) = decode_frame(&buffer, next).unwrap();
    assert_eq!(second, b"second one");
    assert_eq!(end, buffer.len());
}

#[test]
fn decode_frame_refuses_a_short_header() {
    for buffer in [&[][..], &[0][..], &[0, 0, 0][..]] {
        assert!(matches!(decode_frame(buffer, 0), Err(ProtocolError::FramingError)));
    }
    assert!(matches!(
        decode_frame(&[0, 0, 0, 0], 1),
        Err(ProtocolError::FramingError)
    ));
    assert!(matches!(
        decode_frame(&[0, 0, 0, 0], usize::MAX),
        Err(ProtocolError::FramingError)
    ));
}

#[test]
fn decode_frame_refuses_a_short_payload() {
    assert!(matches!(
        decode_frame(&[0, 0, 0, 2, 7], 0),
        Err(ProtocolError::FramingError)
    ));
    assert!(matches!(
        decode_frame(&[255, 255, 255, 255, 7], 0),
        Err(ProtocolError::FramingError)
    ));
    assert!(decode_frame(&[0, 0, 0, 1, 7], 0).is_ok());
}

#[test]
fn decode_digest_takes_exactly_32_bytes() {
    let digest = Sha256Algorithm::hash(b"root");
    assert_eq!(decode_digest(&digest).unwrap(), digest);
    assert!(matches!(
        decode_digest(&digest[..31]),
        Err(ProtocolError::FramingError)
    ));
    let mut longer = digest.to_vec();
    longer.push(0);
    assert!(matches!(decode_digest(&longer), Err(ProtocolError::FramingError)));
    assert!(matches!(decode_digest(&[]), Err(ProtocolError::FramingError)));
}

#[test]
fn decode_text_takes_valid_utf8() {
    assert_eq!(
        decode_text(b"No More Segmentation Faults".to_vec()).unwrap(),
        "No More Segmentation Faults"
    );
    assert_eq!(decode_text(Vec::new()).unwrap(), "");
    assert_eq!(
        decode_text("gr\u{fc}n \u{1f600}".as_bytes().to_vec()).unwrap(),
        "gr\u{fc}n \u{1f600}"
    );
}

#[test]
fn decode_text_refuses_invalid_utf8() {
    for bytes in [
        vec![0xffu8],
        vec![b'a', 0x80],
        vec![0xc3],
        vec![0xed, 0xa0, 0x80],
        vec![0xc0, 0xaf],
        vec![0xf4, 0x90, 0x80, 0x80],
    ] {
        assert!(matches!(decode_text(bytes), Err(ProtocolError::ParseError)));
    }
}

#[test]
fn encode_index_is_eight_bytes_big_endian() {
    assert_eq!(encode_index(1), [0, 0, 0, 0, 0, 0, 0, 1]);
    assert_eq!(encode_index(0), [0; 8]);
    assert_eq!(encode_index(0x0102), [0, 0, 0, 0, 0, 0, 1, 2]);
    assert_eq!(encode_index(usize::MAX), (usize::MAX as u64).to_be_bytes());
}

#[test]
fn decode_index_reads_back_what_encode_index_wrote() {
    for index in [0usize, 1, 2, 255, 256, 65_536, usize::MAX] {
        assert_eq!(decode_index(&encode_index(index)).unwrap(), index);
    }
    assert_eq!(decode_index(&[0, 0, 0, 0, 0, 0, 1, 0]).unwrap(), 256);
}

#[test]
fn decode_index_takes_exactly_eight_bytes() {
    assert!(matches!(decode_index(&[]), Err(ProtocolError::FramingError)));
    assert!(matches!(
        decode_index(&[0, 0, 0, 0, 0, 0, 1]),
        Err(ProtocolError::FramingError)
    ));
    assert!(matches!(
        decode_index(&[0, 0, 0, 0, 0, 0, 0, 1, 0]),
        Err(ProtocolError::FramingError)
    ));
}

#[test]
fn index_request_goes_through_a_frame() {
    let frame = encode_frame(&encode_index(1)).unwrap();
    assert_eq!(frame, vec![0, 0, 0, 8, 0, 0, 0, 0, 0, 0, 0, 1]);
    let (payload, next) = decode_frame(&frame, 0).unwrap();
    assert_eq!(next, 12);
    assert_eq!(decode_index(&payload).unwrap(), 1);
}

#[test]
fn encode_leaves_frames_each_digest() {
    let a = Sha256Algorithm::hash(b"No");
    let b = Sha256Algorithm::hash(b"More");
    let frames = encode_leaves(&[a, b]);
    assert_eq!(frames.len(), 72);
    assert_eq!(&frames[0..4], &[0, 0, 0, 32]);
    assert_eq!(&frames[4..36], &a);
    assert_eq!(&frames[36..40], &[0, 0, 0, 32]);
    assert_eq!(&frames[40..72], &b);
    assert!(encode_leaves(&[]).is_empty());
}

#[test]
fn decode_leaves_reads_back_what_encode_leaves_wrote() {
    let leaves: Vec<[u8; 32]> = ["No", "More", "Segmentation"]
        .iter()
        .map(|item| Sha256Algorithm::hash(item.as_bytes()))
        .collect();
    let mut buffer = encode_leaves(&leaves);
    buffer.extend_from_slice(b"tail");
    let (decoded, next) = decode_leaves(&buffer, 0, 3).unwrap();
    assert_eq!(decoded, leaves);
    assert_eq!(next, 108);
    let (two, after_two) = decode_leaves(&buffer, 0, 2).unwrap();
    assert_eq!(two, &leaves[..2]);
    assert_eq!(after_two, 72);
    let (one, after_one) = decode_leaves(&buffer, 36, 1).unwrap();
    assert_eq!(one, &leaves[1..2]);
    assert_eq!(after_one, 72);
    let (none, start) = decode_leaves(&buffer, 5, 0).unwrap();
    assert!(none.is_empty());
    assert_eq!(start, 5);
}

#[test]
fn decode_leaves_refuses_a_missing_or_misshapen_frame() {
    let leaf = Sha256Algorithm::hash(b"No");
    let buffer = encode_leaves(&[leaf]);
    assert!(matches!(
        decode_leaves(&buffer, 0, 2),
        Err(ProtocolError::FramingError)
    ));
    assert!(matches!(
        decode_leaves(&buffer[..35], 0, 1),
        Err(ProtocolError::FramingError)
    ));
    let short = encode_frame(&leaf[..31]).unwrap();
    assert!(matches!(
        decode_leaves(&short, 0, 1),
        Err(ProtocolError::FramingError)
    ));
    let mut second_bad = encode_leaves(&[leaf]);
    second_bad.extend(encode_frame(b"not a digest").unwrap());
    assert!(matches!(
        decode_leaves(&second_bad, 0, 2),
        Err(ProtocolError::FramingError)
    ));
}

#[test]
fn encode_indices_writes_a_decimal_pair() {
    assert_eq!(encode_indices(&vec![2, 3]), b"2 3");
    assert_eq!(encode_indices(&vec![0, 1]), b"0 1");
    assert_eq!(encode_indices(&vec![10, 11]), b"10 11");
    assert_eq!(encode_indices(&vec![99, 100, 7]), b"99 100");
    assert_eq!(
        encode_indices(&vec![usize::MAX, 1_234_567_890]),
        format!("{} 1234567890", usize::MAX).as_bytes()
    );
}

#[test]
fn convert_indices_reads_a_decimal_pair() {
    assert_eq!(convert_indices(&"2 3".to_string()).unwrap(), vec![2, 3]);
    assert_eq!(convert_indices(&"0 1".to_string()).unwrap(), vec![0, 1]);
    assert_eq!(convert_indices(&"10 11".to_string()).unwrap(), vec![10, 11]);
}

#[test]
fn convert_indices_reads_any_number_of_indices() {
    assert_eq!(convert_indices(&"7".to_string()).unwrap(), vec![7]);
    assert_eq!(
        convert_indices(&"3 1 2 0".to_string()).unwrap(),
        vec![3, 1, 2, 0]
    );
    assert_eq!(
        convert_indices(&"007 +5".to_string()).unwrap(),
        vec![7, 5]
    );
    assert_eq!(
        convert_indices(&format!("{}", usize::MAX)).unwrap(),
        vec![usize::MAX]
    );
}

#[test]
fn convert_indices_reads_back_what_encode_indices_wrote() {
    for pair in [[0usize, 1], [2, 3], [41, 42], [usize::MAX - 1, usize::MAX]] {
        let text = String::from_utf8(encode_indices(&pair.to_vec())).unwrap();
        assert_eq!(convert_indices(&text).unwrap(), pair.to_vec());
    }
}

#[test]
fn convert_indices_refuses_what_is_no_index() {
    let too_large = format!("{}0", usize::MAX);
    let just_too_large = format!("1 {}", (usize::MAX as u128) + 1);
    for text in [
        "",
        " ",
        "a b",
        "2  3",
        "2 3 ",
        " 2 3",
        "2,3",
        "-1 2",
        "+",
        "++1",
        "1+",
        "0x10",
        "2\t3",
        "1.5",
        "\u{663}",
        too_large.as_str(),
        just_too_large.as_str(),
    ] {
        assert!(
            matches!(convert_indices(&text.to_string()), Err(ProtocolError::ParseError)),
            "{:?}",
            text
        );
    }
}

#[test]
fn convert_indices_agrees_with_parse_of_std() {
    for text in [
        "2 3",
        "+4 05",
        "",
        "9 x",
        "18446744073709551615",
        "18446744073709551616",
        "4294967295 4294967296",
    ] {
        let expected: Option<Vec<usize>> =
            text.split(' ').map(|t| t.parse::<usize>().ok()).collect();
        assert_eq!(convert_indices(&text.to_string()).ok(), expected, "{:?}", text);
        assert_eq!(parse_index_list(text.as_bytes()).ok(), expected, "{:?}", text);
    }
}

#[test]
fn encode_change_writes_index_then_value() {
    assert_eq!(encode_change(&"Less".to_string(), &1), b"1 Less");
    assert_eq!(encode_change(&"".to_string(), &0), b"0 ");
    assert_eq!(
        encode_change(&"much less".to_string(), &120),
        b"120 much less"
    );
    assert_eq!(
        encode_change(&"gr\u{fc}n".to_string(), &3),
        "3 gr\u{fc}n".as_bytes()
    );
}
