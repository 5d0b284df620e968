use cryptono_zip::lz77::{self, LZ77Token};
use cryptono_zip::tokens;

// A 2-byte repeat stays below the minimum match length of 3 and never
// becomes a reference.
#[test]
fn two_byte_repeat_stays_literal() {
    let input = b"aa".to_vec();
    let toks = lz77::compress(&input);
    assert_eq!(
        toks,
        vec![LZ77Token::Literal(b'a'), LZ77Token::Literal(b'a')]
    );
}

// A 3-byte (or longer) repeat does become a reference, overlapping its own
// output.
#[test]
fn three_byte_repeat_becomes_reference() {
    let input = b"aaaa".to_vec();
    let toks = lz77::compress(&input);
    assert_eq!(
        toks,
        vec![
            LZ77Token::Literal(b'a'),
            LZ77Token::Reference { distance: 1, length: 3 },
        ]
    );
}

#[test]
fn no_reference_shorter_than_three() {
    let input = b"abcabcabc xyxy qqq".to_vec();
    for t in lz77::compress(&input) {
        if let LZ77Token::Reference { length, distance } = t {
            assert!(length >= 3);
            assert!(distance >= 1);
        }
    }
}

#[test]
fn ties_prefer_smallest_distance() {
    // At the final cursor the run "abc" matches both 3 and 7 positions back
    // with the same length; the nearest copy must win.
    let input = b"abcXabcabc".to_vec();
    let toks = lz77::compress(&input);
    assert_eq!(
        toks,
        vec![
            LZ77Token::Literal(b'a'),
            LZ77Token::Literal(b'b'),
            LZ77Token::Literal(b'c'),
            LZ77Token::Literal(b'X'),
            LZ77Token::Reference { distance: 4, length: 3 },
            LZ77Token::Reference { distance: 3, length: 3 },
        ]
    );
}

#[test]
fn replay_restores_input() {
    let input = b"the quick brown fox jumps over the lazy dog the quick".to_vec();
    let toks = lz77::compress(&input);
    let back = lz77::decompress(&toks).unwrap();
    assert_eq!(back, input);
}

#[test]
fn token_serialization_roundtrip() {
    let toks = vec![
        LZ77Token::Literal(0),
        LZ77Token::Literal(255),
        LZ77Token::Reference { distance: 1, length: 3 },
        LZ77Token::Reference { distance: 4096, length: 255 },
    ];
    let bytes = tokens::serialize(&toks);
    let back = tokens::deserialize(&bytes).unwrap();
    assert_eq!(back, toks);
}

#[test]
fn token_wire_form_is_tag_then_payload() {
    let toks = vec![
        LZ77Token::Literal(b'Z'),
        LZ77Token::Reference { distance: 258, length: 7 },
    ];
    let bytes = tokens::serialize(&toks);
    assert_eq!(bytes, vec![0, b'Z', 1, 1, 2, 7]);
}

#[test]
fn long_run_splits_at_max_match_length() {
    let input = vec![b'A'; 300];
    let toks = lz77::compress(&input);
    assert_eq!(toks[0], LZ77Token::Literal(b'A'));
    assert_eq!(toks[1], LZ77Token::Reference { distance: 1, length: 255 });
    assert_eq!(toks[2], LZ77Token::Reference { distance: 1, length: 44 });
    assert_eq!(toks.len(), 3);
}
