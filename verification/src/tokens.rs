use vstd::prelude::*;
use crate::CzipError;
use crate::bits::{be16_val, lemma_be16_roundtrip, u16_hi, u16_lo};
use crate::lz77::{token_valid, tokens_valid, LZ77Token};

verus! {

/// Byte encoding of one token: tag 0 then the raw byte, or tag 1 then the
/// big-endian distance and the one-byte length.
pub open spec fn token_bytes(t: LZ77Token) -> Seq<u8> {
    match t {
        LZ77Token::Literal(b) => seq![0u8, b],
        LZ77Token::Reference { distance, length } => seq![
            1u8,
            u16_hi(distance),
            u16_lo(distance),
            length as u8,
        ],
    }
}

/// The flat byte encoding of a token sequence.
pub open spec fn tokens_bytes(ts: Seq<LZ77Token>) -> Seq<u8>
    decreases ts.len(),
{
    if ts.len() == 0 {
        Seq::empty()
    } else {
        token_bytes(ts[0]) + tokens_bytes(ts.drop_first())
    }
}

/// What a byte stream deserializes to: tag then payload in a loop until the
/// buffer is exhausted; short payloads are truncations, unknown tags corrupt.
pub open spec fn parse_tokens(b: Seq<u8>) -> Result<Seq<LZ77Token>, CzipError>
    decreases b.len(),
{
    if b.len() == 0 {
        Ok(Seq::empty())
    } else if b[0] == 0 {
        if b.len() < 2 {
            Err(CzipError::TruncatedStream)
        } else {
            match parse_tokens(b.skip(2)) {
                Ok(ts) => Ok(seq![LZ77Token::Literal(b[1])] + ts),
                Err(e) => Err(e),
            }
        }
    } else if b[0] == 1 {
        if b.len() < 4 {
            Err(CzipError::TruncatedStream)
        } else {
            match parse_tokens(b.skip(4)) {
                Ok(ts) => Ok(
                    seq![
                        LZ77Token::Reference {
                            distance: be16_val(b[1], b[2]),
                            length: b[3] as u16,
                        },
                    ] + ts,
                ),
                Err(e) => Err(e),
            }
        }
    } else {
        Err(CzipError::CorruptStream)
    }
}

/// Deserializing a serialized valid token sequence restores it exactly.
pub proof fn lemma_tokens_bytes_round_trip(ts: Seq<LZ77Token>)
    requires
        tokens_valid(ts),
    ensures
        parse_tokens(tokens_bytes(ts)) == Ok::<Seq<LZ77Token>, CzipError>(ts),
    decreases ts.len(),
{
    if ts.len() == 0 {
        assert(Seq::<LZ77Token>::empty() =~= ts);
    } else {
        let b = tokens_bytes(ts);
        assert(token_valid(ts[0]));
        assert(tokens_valid(ts.drop_first())) by {
            assert forall|i: int| 0 <= i < ts.drop_first().len() implies token_valid(
                #[trigger] ts.drop_first()[i],
            ) by {
                assert(ts.drop_first()[i] == ts[i + 1]);
            };
        };
        lemma_tokens_bytes_round_trip(ts.drop_first());
        match ts[0] {
            LZ77Token::Literal(x) => {
                assert(b[0] == 0 && b[1] == x);
                assert(b.skip(2) =~= tokens_bytes(ts.drop_first()));
                assert(seq![LZ77Token::Literal(x)] + ts.drop_first() =~= ts);
            },
            LZ77Token::Reference { distance, length } => {
                lemma_be16_roundtrip(distance);
                assert(b[0] == 1 && b[1] == u16_hi(distance) && b[2] == u16_lo(distance) && b[3]
                    == length as u8);
                assert((length as u8) as u16 == length);
                assert(b.skip(4) =~= tokens_bytes(ts.drop_first()));
                assert(seq![ts[0]] + ts.drop_first() =~= ts);
            },
        }
    }
}

/// Serializes tokens to the flat tag-then-payload byte form.
pub fn serialize(tokens: &Vec<LZ77Token>) -> (r: Vec<u8>)
    requires
        tokens_valid(tokens@),
    ensures
        r@ == tokens_bytes(tokens@),
{
    let mut out: Vec<u8> = Vec::new();
    let mut i: usize = 0;
    proof {
        assert(tokens@.skip(0) =~= tokens@);
    }
    while i < tokens.len()
        invariant
            i <= tokens@.len(),
            tokens_valid(tokens@),
            tokens_bytes(tokens@) == out@ + tokens_bytes(tokens@.skip(i as int)),
        decreases tokens@.len() - i,
    {
        let ghost rest = tokens@.skip(i as int);
        proof {
            assert(rest[0] == tokens@[i as int]);
            assert(rest.drop_first() =~= tokens@.skip(i as int + 1));
        }
        let ghost old_out = out@;
        match tokens[i] {
            LZ77Token::Literal(x) => {
                out.push(0);
                out.push(x);
            },
            LZ77Token::Reference { distance, length } => {
                out.push(1);
                out.push((distance >> 8) as u8);
                out.push(distance as u8);
                out.push(length as u8);
            },
        }
        proof {
            assert(out@ =~= old_out + token_bytes(tokens@[i as int]));
            assert(out@ + tokens_bytes(tokens@.skip(i as int + 1)) =~= old_out + tokens_bytes(
                rest,
            ));
        }
        i = i + 1;
    }
    proof {
        assert(tokens_bytes(tokens@.skip(i as int)) =~= Seq::<u8>::empty());
        assert(out@ + tokens_bytes(tokens@.skip(i as int)) =~= out@);
    }
    out
}

/// Deserializes a tag-then-payload byte stream back into tokens, failing on a
/// payload cut short or an unknown tag.
pub fn deserialize(b: &Vec<u8>) -> (r: Result<Vec<LZ77Token>, CzipError>)
    ensures
        match r {
            Ok(ts) => parse_tokens(b@) == Ok::<Seq<LZ77Token>, CzipError>(ts@),
            Err(e) => parse_tokens(b@) == Err::<Seq<LZ77Token>, CzipError>(e),
        },
{
    let mut out: Vec<LZ77Token> = Vec::new();
    let mut off: usize = 0;
    let len = b.len();
    proof {
        assert(b@.skip(0) =~= b@);
    }
    while off < len
        invariant
            off <= len,
            len == b@.len(),
            parse_tokens(b@) == (match parse_tokens(b@.skip(off as int)) {
                Ok(rest) => Ok::<Seq<LZ77Token>, CzipError>(out@ + rest),
                Err(e) => Err::<Seq<LZ77Token>, CzipError>(e),
            }),
        decreases len - off,
    {
        let ghost suffix = b@.skip(off as int);
        proof {
            assert(suffix[0] == b@[off as int]);
        }
        let tag = b[off];
        let ghost old_out = out@;
        if tag == 0 {
            if len - off < 2 {
                return Err(CzipError::TruncatedStream);
            }
            proof {
                assert(suffix.skip(2) =~= b@.skip(off as int + 2));
                assert(suffix[1] == b@[off as int + 1]);
            }
            out.push(LZ77Token::Literal(b[off + 1]));
            off = off + 2;
        } else if tag == 1 {
            if len - off < 4 {
                return Err(CzipError::TruncatedStream);
            }
            proof {
                assert(suffix.skip(4) =~= b@.skip(off as int + 4));
                assert(suffix[1] == b@[off as int + 1]);
                assert(suffix[2] == b@[off as int + 2]);
                assert(suffix[3] == b@[off as int + 3]);
            }
            let distance = ((b[off + 1] as u16) << 8) | (b[off + 2] as u16);
            let length = b[off + 3] as u16;
            proof {
                assert(distance == be16_val(suffix[1], suffix[2]));
            }
            out.push(LZ77Token::Reference { distance, length });
            off = off + 4;
        } else {
            return Err(CzipError::CorruptStream);
        }
        proof {
            match parse_tokens(b@.skip(off as int)) {
                Ok(rest) => {
                    assert(out@ + rest =~= old_out + (seq![out@.last()] + rest));
                },
                Err(_) => {},
            }
        }
    }
    proof {
        assert(b@.skip(off as int) =~= Seq::<u8>::empty());
        assert(out@ + Seq::<LZ77Token>::empty() =~= out@);
    }
    Ok(out)
}

} // verus!
