use stuff_it::cobs::decode;
use stuff_it::cobs::encode;
use stuff_it::cobs::max_encoded_len;

struct Example {
    input: Vec<u8>,
    output: Vec<u8>,
}

fn examples() -> Vec<Example> {
    vec![
        // Short sequences
        Example {
            input: vec![],
            output: vec![],
        },
        Example {
            input: vec![42],
            output: vec![2, 42],
        },
        Example {
            input: vec![0, 1, 0],
            output: vec![1, 2, 1, 1],
        },
        // Paper's example
        Example {
            input: vec![
                0x45, 0x00, 0x00, 0x2c, 0x4c, 0x79, 0x00, 0x00, 0x40, 0x06, 0x4f, 0x37,
            ],
            output: vec![
                0x02, 0x45, 0x01, 0x04, 0x2c, 0x4c, 0x79, 0x01, 0x05, 0x40, 0x06, 0x4f, 0x37,
            ],
        },
        // Wikipedia's examples
        Example {
            input: vec![0x00],
            output: vec![0x01, 0x01],
        },
        Example {
            input: vec![0x00, 0x00],
            output: vec![0x01, 0x01, 0x01],
        },
        Example {
            input: vec![0x11, 0x22, 0x00, 0x33],
            output: vec![0x03, 0x11, 0x22, 0x02, 0x33],
        },
        Example {
            input: vec![0x11, 0x22, 0x33, 0x44],
            output: vec![0x05, 0x11, 0x22, 0x33, 0x44],
        },
        Example {
            input: vec![0x11, 0x00, 0x00, 0x00],
            output: vec![0x02, 0x11, 0x01, 0x01, 0x01],
        },
        Example {
            input: (1..=254).collect(),
            output: [vec![0xff], (1..=254).collect()].concat(),
        },
        Example {
            input: (0..=254).collect(),
            output: [vec![0x01, 0xff], (1..=254).collect()].concat(),
        },
        Example {
            input: (1..=255).collect(),
            output: [vec![0xff], (1..=254).collect(), vec![0x02, 0xff]].concat(),
        },
        Example {
            input: [(2..=255).collect(), vec![0x00]].concat(),
            output: [vec![0xff], (2..=255).collect(), vec![0x01, 0x01]].concat(),
        },
        Example {
            input: [(3..=255).collect(), vec![0x00, 0x01]].concat(),
            output: [vec![0xfe], (3..=255).collect(), vec![0x02, 0x01]].concat(),
        },
    ]
}

#[test]
fn test_encode_examples() {
    for (i, example) in examples().iter().enumerate() {
        let output_len = example.output.len();
        let mut output_buf = vec![0; output_len];
        assert_eq!(
            Ok(output_len),
            encode(&example.input, &mut output_buf),
            "example {}",
            i
        );
        assert_eq!(example.output, output_buf, "example {}", i);
    }
}

#[test]
fn test_decode_examples() {
    for (i, example) in examples().iter().enumerate() {
        let mut buffer = example.output.clone();
        let result = decode(&mut buffer);

        let expected: &[u8] = &example.input;
        assert_eq!(Ok(expected.len()), result, "example {}", i);
        assert_eq!(expected, &buffer[..expected.len()], "example {}", i);
    }
}

#[test]
fn max_encoded_len_formula() {
    assert_eq!(max_encoded_len(0), 0);
    assert_eq!(max_encoded_len(1), 2);
    assert_eq!(max_encoded_len(2), 3);
    assert_eq!(max_encoded_len(254), 255);
    assert_eq!(max_encoded_len(255), 257);
    assert_eq!(max_encoded_len(508), 510);
    assert_eq!(max_encoded_len(509), 512);
}

#[test]
fn encode_into_max_sized_buffer_succeeds() {
    let inputs: Vec<Vec<u8>> = vec![
        vec![],
        vec![0],
        vec![1, 2, 3],
        vec![0, 0, 0, 0],
        (0..255).map(|i| (i % 256) as u8).collect(),
        (0..1000).map(|i| (i % 7) as u8).collect(),
        (1..=254).collect(),
    ];
    for data in inputs {
        let mut output = vec![0; max_encoded_len(data.len())];
        let result = encode(&data, &mut output);
        assert!(result.is_ok());
        let n = result.unwrap();
        let output = &output[..n];

        if !data.is_empty() {
            assert!(output.len() > data.len());
        }
        assert!(!output.iter().any(|&b| b == 0));
    }
}

#[test]
fn round_trip_concrete() {
    let inputs: Vec<Vec<u8>> = vec![
        vec![],
        vec![0],
        vec![0, 0],
        vec![42],
        vec![1, 0, 2, 0, 3],
        (0..600).map(|i| (i % 256) as u8).collect(),
        (1..=255).collect(),
        [(1..=254).collect::<Vec<u8>>(), vec![0]].concat(),
    ];
    for data in inputs {
        let mut buffer = vec![0; max_encoded_len(data.len())];
        let encoded_len = encode(&data, &mut buffer).unwrap();
        let decoded_len = decode(&mut buffer[..encoded_len]).unwrap();
        assert_eq!(data, &buffer[..decoded_len]);
    }
}

#[test]
fn encode_insufficient_space() {
    // one byte short of the encoding of [0x2A], which is [0x02, 0x2A]
    let mut dst = vec![0u8; 1];
    assert_eq!(Err(()), encode(&[0x2A], &mut dst));

    // empty destination holds the empty encoding
    let mut empty: Vec<u8> = vec![];
    assert_eq!(Ok(0), encode(&[], &mut empty));
    assert_eq!(Err(()), encode(&[7], &mut empty));

    // exactly at the cap split: 255 bytes encode to 257 bytes
    let data: Vec<u8> = (1..=255).collect();
    let mut short = vec![0u8; 256];
    assert_eq!(Err(()), encode(&data, &mut short));
    let mut enough = vec![0u8; 257];
    assert_eq!(Ok(257), encode(&data, &mut enough));
}

#[test]
fn decode_malformed() {
    // declared payload of 4 bytes, only 1 present
    let mut buffer = vec![0x05, 0x01];
    assert_eq!(Err(()), decode(&mut buffer));

    // a lone maximal prefix with no payload at all
    let mut buffer = vec![0xff];
    assert_eq!(Err(()), decode(&mut buffer));

    // well-formed up to the last block, which is truncated
    let mut buffer = vec![0x02, 0x11, 0x03, 0x22];
    assert_eq!(Err(()), decode(&mut buffer));
}

#[test]
fn decode_zero_prefix_is_empty_block() {
    // a prefix byte of 0 is never produced by the encoder; it is treated as
    // a block with no payload, not rejected
    let mut buffer = vec![0x00];
    assert_eq!(Ok(0), decode(&mut buffer));

    let mut buffer = vec![0x00, 0x02, 0x07];
    assert_eq!(Ok(2), decode(&mut buffer));
    assert_eq!(&buffer[..2], &[0x00, 0x07]);
}
