use vstd::prelude::*;
use vstd::string::StringExecFns;

pub mod bits;
pub mod codes;
pub mod huffman;
pub mod lz77;
pub mod tokens;

use crate::bits::{be64_val, pack_spec, u64_bytes, unpack_spec};
use crate::codes::{decode_syms, huff_bits, parse_tree, shape, tree_bytes, CodeTree};
use crate::huffman::{build_tree_spec, code_bits_spec, freq_tbl};
use crate::lz77::{lz77_spec, replay_spec, LZ77Token};
use crate::tokens::{parse_tokens, tokens_bytes};

verus! {

/// Why a decompression failed: the structure of the stream was inconsistent,
/// or a declared payload was cut short. Compression never fails.
#[derive(Clone, Copy, PartialEq, Eq, Structural, Debug)]
pub enum CzipError {
    CorruptStream,
    TruncatedStream,
}

/// The three terminal modes of the pipeline.
#[derive(Clone, Copy, PartialEq, Eq, Structural, Debug)]
pub enum Strategy {
    HuffmanOnly,
    LZ77Only,
    Deflate,
}

/// The Huffman stage's self-describing payload over nonempty `data`: the
/// original length, the serialized tree shape, then the packed code bits.
pub open spec fn huff_payload(data: Seq<u8>) -> Seq<u8> {
    match build_tree_spec(freq_tbl(data)) {
        None => Seq::empty(),
        Some(root) => u64_bytes(data.len() as u64) + tree_bytes(shape(root)) + pack_spec(
            huff_bits(shape(root), data),
        ),
    }
}

/// What decoding a Huffman payload yields: read the length, parse the tree,
/// then decode that many symbols from the remaining bits.
pub open spec fn parse_huff_payload(p: Seq<u8>) -> Result<Seq<u8>, CzipError> {
    if p.len() < 8 {
        Err(CzipError::TruncatedStream)
    } else {
        let n = be64_val(p.subrange(0, 8));
        match parse_tree(p.skip(8)) {
            Err(e) => Err(e),
            Ok((ct, consumed)) => match decode_syms(
                ct,
                unpack_spec(p.skip(8 + consumed as int)),
                n as nat,
            ) {
                None => Err(CzipError::CorruptStream),
                Some(s) => Ok(s),
            },
        }
    }
}

/// What `compress` returns: an empty block for empty input, else a strategy
/// tag followed by that strategy's payload.
pub open spec fn compress_spec(s: Seq<u8>, st: Strategy) -> Seq<u8> {
    if s.len() == 0 {
        Seq::empty()
    } else {
        match st {
            Strategy::HuffmanOnly => seq![0u8] + huff_payload(s),
            Strategy::LZ77Only => seq![1u8] + tokens_bytes(lz77_spec(s, 0)),
            Strategy::Deflate => seq![2u8] + huff_payload(tokens_bytes(lz77_spec(s, 0))),
        }
    }
}

/// What `decompress` returns: the tag selects the strategy, whose stages are
/// reversed in order; every structural inconsistency is an error.
pub open spec fn decompress_spec(b: Seq<u8>) -> Result<Seq<u8>, CzipError> {
    if b.len() == 0 {
        Ok(Seq::empty())
    } else if b[0] == 0 {
        parse_huff_payload(b.drop_first())
    } else if b[0] == 1 {
        match parse_tokens(b.drop_first()) {
            Err(e) => Err(e),
            Ok(ts) => match replay_spec(ts) {
                None => Err(CzipError::CorruptStream),
                Some(s) => Ok(s),
            },
        }
    } else if b[0] == 2 {
        match parse_huff_payload(b.drop_first()) {
            Err(e) => Err(e),
            Ok(tb) => match parse_tokens(tb) {
                Err(e) => Err(e),
                Ok(ts) => match replay_spec(ts) {
                    None => Err(CzipError::CorruptStream),
                    Some(s) => Ok(s),
                },
            },
        }
    } else {
        Err(CzipError::CorruptStream)
    }
}

/// Builds the Huffman payload for nonempty data.
fn encode_huff_payload(data: &Vec<u8>) -> (r: Vec<u8>)
    requires
        data@.len() >= 1,
    ensures
        r@ == huff_payload(data@),
{
    let n_in = data.len();
    proof {
        assert(data@.len() == n_in as int);
        huffman::lemma_input_covered(data@);
    }
    let freq = huffman::calculate_freq(data);
    let root = match huffman::build_tree(&freq) {
        Some(root) => root,
        None => {
            proof {
                assert(false);
            }
            huffman::Node::new_leaf(0, 0)
        },
    };
    let ct = codes::to_code_tree(&root);
    let mut out: Vec<u8> = Vec::new();
    bits::push_u64_be(&mut out, n_in as u64);
    codes::ser_tree(&ct, &mut out);
    let code_bits = huffman::huffman_bits_of(data, &ct);
    let mut packed = bits::pack(&code_bits);
    out.append(&mut packed);
    proof {
        assert(out@ =~= huff_payload(data@));
    }
    out
}

/// What decoding a payload buffer must return.
pub open spec fn huff_decode_post(p: Seq<u8>, r: Result<Vec<u8>, CzipError>) -> bool {
    match r {
        Ok(v) => parse_huff_payload(p) == Ok::<Seq<u8>, CzipError>(v@),
        Err(e) => parse_huff_payload(p) == Err::<Seq<u8>, CzipError>(e),
    }
}

/// Decodes a Huffman payload: length, tree shape, packed bits.
fn decode_huff_payload(p: &Vec<u8>) -> (r: Result<Vec<u8>, CzipError>)
    ensures
        huff_decode_post(p@, r),
{
    let len = p.len();
    if len < 8 {
        return Err(CzipError::TruncatedStream);
    }
    let n = bits::read_u64_be(p, 0);
    match codes::parse_tree_exec(p, 8) {
        Err(e) => Err(e),
        Ok((ct, end)) => {
            let mut packed: Vec<u8> = Vec::new();
            let mut i: usize = end;
            while i < len
                invariant
                    end <= i <= len,
                    len == p@.len(),
                    packed@ == p@.subrange(end as int, i as int),
                decreases len - i,
            {
                packed.push(p[i]);
                proof {
                    assert(packed@ =~= p@.subrange(end as int, i as int + 1));
                }
                i = i + 1;
            }
            proof {
                assert(packed@ =~= p@.skip(end as int));
                assert(p@.skip(8).skip((end - 8) as int) =~= p@.skip(end as int));
            }
            match codes::decode_syms_exec(&ct, &packed, n) {
                Err(e) => Err(e),
                Ok(v) => Ok(v),
            }
        },
    }
}

/// Compresses any byte buffer under the chosen strategy; never fails, and an
/// empty input yields an empty block. Called twice on the same input it
/// returns byte-identical output, since the result is a function of the
/// input alone.
pub fn compress(input: &Vec<u8>, strategy: Strategy) -> (r: Vec<u8>)
    ensures
        r@ == compress_spec(input@, strategy),
{
    if input.len() == 0 {
        let r: Vec<u8> = Vec::new();
        return r;
    }
    let mut out: Vec<u8> = Vec::new();
    match strategy {
        Strategy::HuffmanOnly => {
            out.push(0);
            let mut p = encode_huff_payload(input);
            out.append(&mut p);
        },
        Strategy::LZ77Only => {
            out.push(1);
            let toks = lz77::compress(input);
            let mut tb = tokens::serialize(&toks);
            out.append(&mut tb);
        },
        Strategy::Deflate => {
            out.push(2);
            let toks = lz77::compress(input);
            let tb = tokens::serialize(&toks);
            proof {
                lemma_lz77_nonempty(input@);
                lemma_tokens_bytes_nonempty(lz77_spec(input@, 0));
            }
            let mut p = encode_huff_payload(&tb);
            out.append(&mut p);
        },
    }
    proof {
        assert(out@ =~= compress_spec(input@, strategy));
    }
    out
}

/// What `decompress` must return.
pub open spec fn decompress_post(b: Seq<u8>, r: Result<Vec<u8>, CzipError>) -> bool {
    match r {
        Ok(v) => decompress_spec(b) == Ok::<Seq<u8>, CzipError>(v@),
        Err(e) => decompress_spec(b) == Err::<Seq<u8>, CzipError>(e),
    }
}

/// Decompresses a self-describing block, failing fast on the first
/// structural inconsistency; an empty block yields an empty buffer.
pub fn decompress(input: &Vec<u8>) -> (r: Result<Vec<u8>, CzipError>)
    ensures
        decompress_post(input@, r),
{
    let len = input.len();
    if len == 0 {
        let v: Vec<u8> = Vec::new();
        proof {
            assert(Seq::<u8>::empty() =~= v@);
        }
        return Ok(v);
    }
    let tag = input[0];
    let mut rest: Vec<u8> = Vec::new();
    let mut i: usize = 1;
    while i < len
        invariant
            1 <= i <= len,
            len == input@.len(),
            rest@ == input@.subrange(1, i as int),
        decreases len - i,
    {
        rest.push(input[i]);
        proof {
            assert(rest@ =~= input@.subrange(1, i as int + 1));
        }
        i = i + 1;
    }
    proof {
        assert(rest@ =~= input@.drop_first());
    }
    if tag == 0 {
        decode_huff_payload(&rest)
    } else if tag == 1 {
        match tokens::deserialize(&rest) {
            Err(e) => Err(e),
            Ok(ts) => lz77::decompress(&ts),
        }
    } else if tag == 2 {
        match decode_huff_payload(&rest) {
            Err(e) => Err(e),
            Ok(tb) => match tokens::deserialize(&tb) {
                Err(e) => Err(e),
                Ok(ts) => lz77::decompress(&ts),
            },
        }
    } else {
        Err(CzipError::CorruptStream)
    }
}

proof fn lemma_lz77_nonempty(s: Seq<u8>)
    requires
        s.len() >= 1,
    ensures
        lz77_spec(s, 0).len() >= 1,
{
}

proof fn lemma_tokens_bytes_nonempty(ts: Seq<LZ77Token>)
    requires
        ts.len() >= 1,
    ensures
        tokens_bytes(ts).len() >= 2,
{
    match ts[0] {
        LZ77Token::Literal(_) => {},
        LZ77Token::Reference { .. } => {},
    }
}

proof fn lemma_tokens_bytes_len_bound(ts: Seq<LZ77Token>)
    ensures
        tokens_bytes(ts).len() <= 4 * ts.len(),
    decreases ts.len(),
{
    if ts.len() > 0 {
        lemma_tokens_bytes_len_bound(ts.drop_first());
        match ts[0] {
            LZ77Token::Literal(_) => {},
            LZ77Token::Reference { .. } => {},
        }
    }
}

proof fn lemma_lz77_count(s: Seq<u8>, c: int)
    requires
        0 <= c <= s.len(),
    ensures
        lz77_spec(s, c).len() <= s.len() - c,
    decreases s.len() - c,
{
    if c < s.len() {
        crate::lz77::lemma_match_in_range(s, c);
        let m = crate::lz77::find_match_spec(s, c);
        if m.1 >= 3 {
            lemma_lz77_count(s, c + m.1);
        } else {
            lemma_lz77_count(s, c + 1);
        }
    }
}

/// Decoding the Huffman payload of nonempty data restores the data.
proof fn lemma_huff_payload_round_trip(data: Seq<u8>)
    requires
        1 <= data.len() <= u64::MAX,
    ensures
        parse_huff_payload(huff_payload(data)) == Ok::<Seq<u8>, CzipError>(data),
{
    huffman::lemma_input_covered(data);
    let root = build_tree_spec(freq_tbl(data)).unwrap();
    let ct = shape(root);
    let tb = tree_bytes(ct);
    let bitseq = huff_bits(ct, data);
    let packed = pack_spec(bitseq);
    let p = huff_payload(data);
    let hdr = u64_bytes(data.len() as u64);
    assert(p == hdr + tb + packed);
    assert(p.len() >= 8 + tb.len());
    assert(p.subrange(0, 8) =~= hdr);
    bits::lemma_be64_roundtrip(data.len() as u64);
    assert(be64_val(p.subrange(0, 8)) == data.len() as u64);
    assert(p.skip(8) =~= tb + packed);
    codes::lemma_parse_tree_bytes(ct, packed);
    assert(parse_tree(p.skip(8)) == Ok::<(CodeTree, nat), CzipError>((ct, tb.len() as nat)));
    assert(p.skip(8 + tb.len() as int) =~= packed);
    bits::lemma_unpack_pack(bitseq);
    let un = unpack_spec(packed);
    let extra = un.skip(bitseq.len() as int);
    assert(un =~= bitseq + extra);
    codes::lemma_decode_huff_bits(ct, data, extra);
    assert((data.len() as u64) as nat == data.len());
}

/// Round-trip: under every strategy, decompressing a compressed buffer
/// restores it exactly. The length bound is what the 64-bit length field of
/// the block header can carry; every in-memory buffer satisfies it.
pub proof fn lemma_round_trip(s: Seq<u8>, st: Strategy)
    requires
        4 * s.len() <= u64::MAX,
    ensures
        decompress_spec(compress_spec(s, st)) == Ok::<Seq<u8>, CzipError>(s),
{
    if s.len() == 0 {
        assert(compress_spec(s, st).len() == 0);
        assert(Seq::<u8>::empty() =~= s);
    } else {
        let ts = lz77_spec(s, 0);
        match st {
            Strategy::HuffmanOnly => {
                let b = compress_spec(s, st);
                assert(b[0] == 0);
                assert(b.drop_first() =~= huff_payload(s));
                lemma_huff_payload_round_trip(s);
            },
            Strategy::LZ77Only => {
                let b = compress_spec(s, st);
                assert(b[0] == 1);
                assert(b.drop_first() =~= tokens_bytes(ts));
                lz77::lemma_lz77_tokens_valid(s, 0);
                tokens::lemma_tokens_bytes_round_trip(ts);
                lz77::lemma_lz77_round_trip(s);
            },
            Strategy::Deflate => {
                let b = compress_spec(s, st);
                let tb = tokens_bytes(ts);
                assert(b[0] == 2);
                assert(b.drop_first() =~= huff_payload(tb));
                lemma_lz77_nonempty(s);
                lemma_tokens_bytes_nonempty(ts);
                lemma_lz77_count(s, 0);
                lemma_tokens_bytes_len_bound(ts);
                lemma_huff_payload_round_trip(tb);
                lz77::lemma_lz77_tokens_valid(s, 0);
                tokens::lemma_tokens_bytes_round_trip(ts);
                lz77::lemma_lz77_round_trip(s);
            },
        }
    }
}

/// Empty input: every strategy compresses the empty buffer to an empty
/// block, and the empty block decompresses to the empty buffer.
pub proof fn lemma_empty_round_trip(st: Strategy)
    ensures
        compress_spec(Seq::empty(), st) == Seq::<u8>::empty(),
        decompress_spec(Seq::empty()) == Ok::<Seq<u8>, CzipError>(Seq::empty()),
{
    assert(compress_spec(Seq::empty(), st) =~= Seq::<u8>::empty());
}

/// The characters '0' and '1' spelling out a bit sequence.
pub open spec fn bit_chars(bs: Seq<bool>) -> Seq<char> {
    Seq::new(
        bs.len(),
        |i: int|
            if bs[i] {
                '1'
            } else {
                '0'
            },
    )
}

/// The bitstring entry point: the concatenated Huffman code bits of the input,
/// written as a string of '0' and '1' characters, with no packing.
pub fn compress_data(input: &Vec<u8>) -> (r: String)
    ensures
        r@ == bit_chars(code_bits_spec(input@)),
{
    let n_in = input.len();
    let freq = huffman::calculate_freq(input);
    match huffman::build_tree(&freq) {
        None => {
            let r = String::new();
            proof {
                assert(r@ =~= bit_chars(code_bits_spec(input@)));
            }
            r
        },
        Some(root) => {
            proof {
                if input@.len() == 0 {
                    huffman::lemma_empty_builds_none(input@);
                    assert(false);
                }
                assert(input@.len() == n_in as int);
                huffman::lemma_input_covered(input@);
            }
            let ct = codes::to_code_tree(&root);
            let code_bits = huffman::huffman_bits_of(input, &ct);
            let mut r = String::new();
            let mut i: usize = 0;
            proof {
                reveal_strlit("0");
                reveal_strlit("1");
                assert(r@ =~= bit_chars(code_bits@.take(0)));
            }
            while i < code_bits.len()
                invariant
                    i <= code_bits@.len(),
                    r@ == bit_chars(code_bits@.take(i as int)),
                decreases code_bits@.len() - i,
            {
                if code_bits[i] {
                    r.append("1");
                } else {
                    r.append("0");
                }
                proof {
                    reveal_strlit("0");
                    reveal_strlit("1");
                    assert(r@ =~= bit_chars(code_bits@.take(i as int + 1)));
                }
                i = i + 1;
            }
            proof {
                assert(code_bits@.take(i as int) =~= code_bits@);
            }
            r
        },
    }
}

} // verus!
