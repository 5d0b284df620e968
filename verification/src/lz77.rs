use vstd::prelude::*;
use crate::CzipError;

verus! {

/// An output unit of the matcher: one raw byte, or a backward copy of
/// `length` bytes starting `distance` bytes behind the current position.
#[derive(Clone, Copy, PartialEq, Eq, Structural, Debug)]
pub enum LZ77Token {
    Literal(u8),
    Reference { distance: u16, length: u16 },
}

/// Length of the common run between positions `p` and `c` of `s`, capped at `cap`.
pub open spec fn run_len(s: Seq<u8>, p: int, c: int, cap: int) -> int
    decreases cap,
{
    if cap <= 0 || p < 0 || c >= s.len() {
        0
    } else if s[p] == s[c] {
        1 + run_len(s, p + 1, c + 1, cap - 1)
    } else {
        0
    }
}

/// The longest match length usable at cursor `c`: bounded by the remaining
/// input and by the largest length a one-byte field can carry.
pub open spec fn cap_at(s: Seq<u8>, c: int) -> int {
    if s.len() - c < 255 {
        s.len() - c
    } else {
        255
    }
}

/// The number of candidate distances at cursor `c`: the whole history,
/// bounded by the sliding window.
pub open spec fn dmax_at(c: int) -> int {
    if c < 4096 {
        c
    } else {
        4096
    }
}

/// Best match among distances `1..=dmax`: the greatest run length, and on
/// ties the smallest distance. `(0, 0)` when nothing matches.
pub open spec fn best_match_from(s: Seq<u8>, c: int, dmax: int) -> (int, int)
    decreases dmax,
{
    if dmax <= 0 {
        (0, 0)
    } else {
        let prev = best_match_from(s, c, dmax - 1);
        let l = run_len(s, c - dmax, c, cap_at(s, c));
        if l > prev.1 {
            (dmax, l)
        } else {
            prev
        }
    }
}

/// The `(distance, length)` the matcher reports at cursor `c`.
pub open spec fn find_match_spec(s: Seq<u8>, c: int) -> (int, int) {
    best_match_from(s, c, dmax_at(c))
}

proof fn lemma_run_len_bounds(s: Seq<u8>, p: int, c: int, cap: int)
    requires
        0 <= cap,
        c <= s.len(),
    ensures
        0 <= run_len(s, p, c, cap) <= cap,
        c + run_len(s, p, c, cap) <= s.len(),
    decreases cap,
{
    if !(cap <= 0 || p < 0 || c >= s.len()) && s[p] == s[c] {
        lemma_run_len_bounds(s, p + 1, c + 1, cap - 1);
    }
}

proof fn lemma_run_len_matches(s: Seq<u8>, p: int, c: int, cap: int)
    requires
        0 <= p,
        0 <= cap,
    ensures
        forall|j: int|
            0 <= j < run_len(s, p, c, cap) ==> #[trigger] s[p + j] == s[c + j],
    decreases cap,
{
    if !(cap <= 0 || p < 0 || c >= s.len()) && s[p] == s[c] {
        lemma_run_len_matches(s, p + 1, c + 1, cap - 1);
        assert forall|j: int| 0 <= j < run_len(s, p, c, cap) implies #[trigger] s[p + j] == s[c + j] by {
            if j > 0 {
                assert(s[(p + 1) + (j - 1)] == s[(c + 1) + (j - 1)]);
            }
        };
    }
}

/// The run the exec scan measured is exactly `run_len`.
proof fn lemma_run_len_value(s: Seq<u8>, p: int, c: int, cap: int, k: int)
    requires
        0 <= p,
        p < c,
        0 <= k <= cap,
        c + k <= s.len(),
        forall|j: int| 0 <= j < k ==> #[trigger] s[p + j] == s[c + j],
        k == cap || c + k == s.len() || s[p + k] != s[c + k],
    ensures
        run_len(s, p, c, cap) == k,
    decreases k,
{
    if k == 0 {
    } else {
        assert(s[p + 0] == s[c + 0]);
        assert forall|j: int| 0 <= j < k - 1 implies #[trigger] s[(p + 1) + j] == s[(c + 1) + j] by {
            assert(s[p + (j + 1)] == s[c + (j + 1)]);
        };
        lemma_run_len_value(s, p + 1, c + 1, cap - 1, k - 1);
    }
}

/// What the reported best match guarantees: its bounds, and that the matched
/// bytes really repeat the dictionary.
proof fn lemma_best_match_props(s: Seq<u8>, c: int, dmax: int)
    requires
        0 <= dmax <= c,
        c <= s.len(),
    ensures
        ({
            let m = best_match_from(s, c, dmax);
            &&& 0 <= m.1 <= cap_at(s, c)
            &&& c + m.1 <= s.len()
            &&& (m.1 == 0 ==> m.0 == 0)
            &&& (m.1 > 0 ==> 1 <= m.0 <= dmax)
            &&& (m.1 > 0 ==> forall|j: int| 0 <= j < m.1 ==> #[trigger] s[c - m.0 + j] == s[c + j])
        }),
    decreases dmax,
{
    if dmax > 0 {
        lemma_best_match_props(s, c, dmax - 1);
        lemma_run_len_bounds(s, c - dmax, c, cap_at(s, c));
        lemma_run_len_matches(s, c - dmax, c, cap_at(s, c));
    }
}

/// Greedy scan over all candidate distances, preferring the smallest
/// distance among equally long matches.
fn find_longest_match(input: &Vec<u8>, cursor: usize) -> (r: (usize, usize))
    requires
        cursor < input@.len(),
    ensures
        (r.0 as int, r.1 as int) == find_match_spec(input@, cursor as int),
{
    let n = input.len();
    let dmax: usize = if cursor < 4096 {
        cursor
    } else {
        4096
    };
    let cap: usize = if n - cursor < 255 {
        n - cursor
    } else {
        255
    };
    let mut best_d: usize = 0;
    let mut best_l: usize = 0;
    let mut d: usize = 1;
    while d <= dmax
        invariant
            cursor < n,
            n == input@.len(),
            dmax as int == dmax_at(cursor as int),
            dmax <= cursor,
            cap as int == cap_at(input@, cursor as int),
            cursor + cap <= n,
            1 <= d <= dmax + 1,
            (best_d as int, best_l as int) == best_match_from(input@, cursor as int, d as int - 1),
            best_l <= cap,
        decreases dmax + 1 - d,
    {
        let p = cursor - d;
        let mut l: usize = 0;
        while l < cap && input[p + l] == input[cursor + l]
            invariant
                cursor < n,
                n == input@.len(),
                p == cursor - d,
                d >= 1,
                cursor + cap <= n,
                l <= cap,
                forall|j: int| 0 <= j < l ==> #[trigger] input@[p + j] == input@[cursor + j],
            decreases cap - l,
        {
            l = l + 1;
        }
        proof {
            lemma_run_len_value(
                input@,
                p as int,
                cursor as int,
                cap as int,
                l as int,
            );
        }
        if l > best_l {
            best_d = d;
            best_l = l;
        }
        d = d + 1;
    }
    (best_d, best_l)
}

#[via_fn]
proof fn lz77_spec_decreases(s: Seq<u8>, c: int) {
    if 0 <= c < s.len() {
        lemma_best_match_props(s, c, dmax_at(c));
    }
}

/// The token sequence the greedy matcher emits from cursor `c` onward.
pub open spec fn lz77_spec(s: Seq<u8>, c: int) -> Seq<LZ77Token>
    decreases s.len() - c,
    via lz77_spec_decreases
{
    if c < 0 || c >= s.len() {
        Seq::empty()
    } else {
        let m = find_match_spec(s, c);
        if m.1 >= 3 {
            seq![LZ77Token::Reference { distance: m.0 as u16, length: m.1 as u16 }] + lz77_spec(
                s,
                c + m.1,
            )
        } else {
            seq![LZ77Token::Literal(s[c])] + lz77_spec(s, c + 1)
        }
    }
}

/// A token the serializer can carry: distances fit the window, lengths the
/// one-byte field, and no reference is shorter than the minimum match.
pub open spec fn token_valid(t: LZ77Token) -> bool {
    match t {
        LZ77Token::Literal(_) => true,
        LZ77Token::Reference { distance, length } => 1 <= distance <= 4096 && 3 <= length <= 255,
    }
}

pub open spec fn tokens_valid(ts: Seq<LZ77Token>) -> bool {
    forall|i: int| 0 <= i < ts.len() ==> token_valid(ts[i])
}

/// Every token the matcher emits is valid; in particular a reference is
/// never shorter than the minimum match length of 3.
pub proof fn lemma_lz77_tokens_valid(s: Seq<u8>, c: int)
    requires
        0 <= c <= s.len(),
    ensures
        tokens_valid(lz77_spec(s, c)),
    decreases s.len() - c,
{
    if 0 <= c < s.len() {
        lemma_best_match_props(s, c, dmax_at(c));
        let m = find_match_spec(s, c);
        if m.1 >= 3 {
            lemma_lz77_tokens_valid(s, c + m.1);
        } else {
            lemma_lz77_tokens_valid(s, c + 1);
        }
    }
}

/// The greedy matcher itself: emits a reference whenever the best match
/// reaches the minimum length of 3, else a literal.
pub fn compress(input: &Vec<u8>) -> (r: Vec<LZ77Token>)
    ensures
        r@ == lz77_spec(input@, 0),
        tokens_valid(r@),
{
    let mut tokens: Vec<LZ77Token> = Vec::new();
    let mut cursor: usize = 0;
    while cursor < input.len()
        invariant
            cursor <= input@.len(),
            lz77_spec(input@, 0) == tokens@ + lz77_spec(input@, cursor as int),
        decreases input@.len() - cursor,
    {
        let (d, l) = find_longest_match(input, cursor);
        proof {
            lemma_best_match_props(input@, cursor as int, dmax_at(cursor as int));
        }
        let ghost old_tokens = tokens@;
        let ghost old_cursor = cursor as int;
        if l >= 3 {
            tokens.push(LZ77Token::Reference { distance: d as u16, length: l as u16 });
            cursor = cursor + l;
        } else {
            tokens.push(LZ77Token::Literal(input[cursor]));
            cursor = cursor + 1;
        }
        proof {
            assert(lz77_spec(input@, old_cursor) == tokens@.skip(old_tokens.len() as int)
                + lz77_spec(input@, cursor as int)) by {
                assert(tokens@.skip(old_tokens.len() as int) =~= seq![tokens@.last()]);
            };
            assert(tokens@ + lz77_spec(input@, cursor as int) =~= old_tokens + lz77_spec(
                input@,
                old_cursor,
            ));
        }
    }
    proof {
        assert(tokens@ + lz77_spec(input@, cursor as int) =~= tokens@);
        lemma_lz77_tokens_valid(input@, 0);
    }
    tokens
}

/// The output extended by `l` bytes copied one at a time from `d` behind the
/// end; copies may overlap their own output.
pub open spec fn copy_ext(out: Seq<u8>, d: int, l: int) -> Seq<u8>
    decreases l,
{
    if l <= 0 {
        out
    } else {
        copy_ext(out.push(out[out.len() - d]), d, l - 1)
    }
}

/// Replaying tokens onto already-produced output; `None` when a reference
/// reaches back before the start of the output.
pub open spec fn replay_onto(out: Seq<u8>, ts: Seq<LZ77Token>) -> Option<Seq<u8>>
    decreases ts.len(),
{
    if ts.len() == 0 {
        Some(out)
    } else {
        match ts[0] {
            LZ77Token::Literal(b) => replay_onto(out.push(b), ts.drop_first()),
            LZ77Token::Reference { distance, length } => {
                if distance == 0 || distance > out.len() {
                    None
                } else {
                    replay_onto(copy_ext(out, distance as int, length as int), ts.drop_first())
                }
            },
        }
    }
}

/// What a token sequence decodes to, starting from empty output.
pub open spec fn replay_spec(ts: Seq<LZ77Token>) -> Option<Seq<u8>> {
    replay_onto(Seq::empty(), ts)
}

proof fn lemma_copy_ext_take(s: Seq<u8>, c: int, d: int, l: int)
    requires
        0 < d <= c,
        0 <= l,
        c + l <= s.len(),
        forall|j: int| 0 <= j < l ==> #[trigger] s[c - d + j] == s[c + j],
    ensures
        copy_ext(s.take(c), d, l) == s.take(c + l),
    decreases l,
{
    if l <= 0 {
        assert(s.take(c) =~= s.take(c + l));
    } else {
        let out = s.take(c);
        assert(s[c - d + 0] == s[c + 0]);
        assert(out.push(out[out.len() - d]) =~= s.take(c + 1));
        assert forall|j: int| 0 <= j < l - 1 implies #[trigger] s[(c + 1) - d + j] == s[(c + 1) + j] by {
            assert(s[c - d + (j + 1)] == s[c + (j + 1)]);
        };
        lemma_copy_ext_take(s, c + 1, d, l - 1);
    }
}

proof fn lemma_lz77_round_trip_from(s: Seq<u8>, c: int)
    requires
        0 <= c <= s.len(),
    ensures
        replay_onto(s.take(c), lz77_spec(s, c)) == Some(s),
    decreases s.len() - c,
{
    let ts = lz77_spec(s, c);
    if c >= s.len() {
        assert(s.take(c) =~= s);
    } else {
        lemma_best_match_props(s, c, dmax_at(c));
        let m = find_match_spec(s, c);
        if m.1 >= 3 {
            let d = m.0;
            let l = m.1;
            assert(ts[0] == LZ77Token::Reference { distance: d as u16, length: l as u16 });
            assert(ts.drop_first() =~= lz77_spec(s, c + l));
            lemma_copy_ext_take(s, c, d, l);
            lemma_lz77_round_trip_from(s, c + l);
        } else {
            assert(ts[0] == LZ77Token::Literal(s[c]));
            assert(ts.drop_first() =~= lz77_spec(s, c + 1));
            assert(s.take(c).push(s[c]) =~= s.take(c + 1));
            lemma_lz77_round_trip_from(s, c + 1);
        }
    }
}

/// Replaying the matcher's own tokens restores the input exactly.
pub proof fn lemma_lz77_round_trip(s: Seq<u8>)
    ensures
        replay_spec(lz77_spec(s, 0)) == Some(s),
{
    assert(Seq::<u8>::empty() =~= s.take(0));
    lemma_lz77_round_trip_from(s, 0);
}

/// Replays a token stream: literals append a byte, references copy `length`
/// bytes one at a time from `distance` behind the end of the output.
pub fn decompress(tokens: &Vec<LZ77Token>) -> (r: Result<Vec<u8>, CzipError>)
    ensures
        match r {
            Ok(v) => replay_spec(tokens@) == Some(v@),
            Err(e) => replay_spec(tokens@) == None::<Seq<u8>> && e == CzipError::CorruptStream,
        },
{
    let mut out: Vec<u8> = Vec::new();
    let mut i: usize = 0;
    proof {
        assert(tokens@.skip(0) =~= tokens@);
        assert(out@ =~= Seq::<u8>::empty());
    }
    while i < tokens.len()
        invariant
            i <= tokens@.len(),
            replay_spec(tokens@) == replay_onto(out@, tokens@.skip(i as int)),
        decreases tokens@.len() - i,
    {
        let ghost rest = tokens@.skip(i as int);
        proof {
            assert(rest[0] == tokens@[i as int]);
            assert(rest.drop_first() =~= tokens@.skip(i as int + 1));
        }
        match tokens[i] {
            LZ77Token::Literal(b) => {
                out.push(b);
            },
            LZ77Token::Reference { distance, length } => {
                let d = distance as usize;
                if d == 0 || d > out.len() {
                    return Err(CzipError::CorruptStream);
                }
                let ghost out0 = out@;
                let mut k: usize = 0;
                while k < length as usize
                    invariant
                        1 <= d <= out@.len(),
                        k <= length,
                        copy_ext(out0, d as int, length as int) == copy_ext(
                            out@,
                            d as int,
                            length as int - k,
                        ),
                    decreases length as int - k,
                {
                    let idx = out.len() - d;
                    let b = out[idx];
                    out.push(b);
                    k = k + 1;
                }
            },
        }
        i = i + 1;
    }
    proof {
        assert(tokens@.skip(i as int) =~= Seq::<LZ77Token>::empty());
    }
    Ok(out)
}


/// The match the matcher reports never runs past the end of the input.
pub proof fn lemma_match_in_range(s: Seq<u8>, c: int)
    requires
        0 <= c < s.len(),
    ensures
        ({
            let m = find_match_spec(s, c);
            &&& 0 <= m.1
            &&& c + m.1 <= s.len()
        }),
{
    lemma_best_match_props(s, c, dmax_at(c));
}


proof fn lemma_run_repeat(a: u8, n: int, p: int, c: int, cap: int)
    requires
        0 <= p < c,
        c + cap <= n,
        0 <= cap,
    ensures
        run_len(Seq::new(n as nat, |i: int| a), p, c, cap) == cap,
    decreases cap,
{
    if cap > 0 {
        let s = Seq::new(n as nat, |i: int| a);
        assert(s[p] == a && s[c] == a);
        lemma_run_repeat(a, n, p + 1, c + 1, cap - 1);
    }
}

/// A repeat of one byte long enough to reach the minimum match length is
/// compressed to one literal followed by a reference to it.
pub proof fn lemma_repeat_becomes_reference(a: u8, n: int)
    requires
        4 <= n,
    ensures
        ({
            let ts = lz77_spec(Seq::new(n as nat, |i: int| a), 0);
            let cap = if n - 1 < 255 {
                n - 1
            } else {
                255
            };
            &&& ts.len() >= 2
            &&& ts[0] == LZ77Token::Literal(a)
            &&& ts[1] == (LZ77Token::Reference { distance: 1u16, length: cap as u16 })
        }),
{
    let s = Seq::new(n as nat, |i: int| a);
    let cap = cap_at(s, 1);
    assert(best_match_from(s, 0, dmax_at(0)) == (0int, 0int));
    assert(lz77_spec(s, 0) == seq![LZ77Token::Literal(a)] + lz77_spec(s, 1));
    lemma_run_repeat(a, n, 0, 1, cap);
    assert(best_match_from(s, 1, 0) == (0int, 0int));
    assert(best_match_from(s, 1, 1) == (1int, cap));
    assert(find_match_spec(s, 1) == (1int, cap));
    assert(cap >= 3);
    let ref_tok = LZ77Token::Reference { distance: 1u16, length: cap as u16 };
    assert(lz77_spec(s, 1) == seq![ref_tok] + lz77_spec(s, 1 + cap));
    assert(lz77_spec(s, 0)[1] == lz77_spec(s, 1)[0]);
}

} // verus!
