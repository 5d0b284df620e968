use vstd::prelude::*;

verus! {

/// A Huffman tree node as the builder produces it: a leaf holds a symbol in
/// `val`, an internal node owns two children; `freq` is the subtree's total
/// occurrence count.
#[derive(Debug)]
pub struct Node {
    pub freq: u64,
    pub val: Option<u8>,
    pub left: Option<Box<Node>>,
    pub right: Option<Box<Node>>,
}

pub open spec fn leaf_node(freq: u64, val: u8) -> Node {
    Node { freq, val: Some(val), left: None, right: None }
}

/// Saturating sum, so that a tree rebuilt from an untrusted header cannot
/// overflow; on any real input the counts sum to the input length and the
/// addition is exact.
pub open spec fn sat_add(a: u64, b: u64) -> u64 {
    if a + b > u64::MAX {
        u64::MAX
    } else {
        (a + b) as u64
    }
}

pub open spec fn internal_node(freq: u64, l: Node, r: Node) -> Node {
    Node { freq, val: None, left: Some(Box::new(l)), right: Some(Box::new(r)) }
}

pub open spec fn merge_nodes(a: Node, b: Node) -> Node {
    internal_node(sat_add(a.freq, b.freq), a, b)
}

/// Shape invariant: a node is either a leaf or owns exactly two well-formed
/// children whose frequencies it sums.
pub open spec fn node_wf(n: Node) -> bool
    decreases n,
{
    match n.val {
        Some(_) => n.left is None && n.right is None,
        None => match (n.left, n.right) {
            (Some(l), Some(r)) => node_wf(*l) && node_wf(*r) && n.freq == sat_add(
                l.freq,
                r.freq,
            ),
            _ => false,
        },
    }
}

/// The symbols at the leaves of a subtree, left to right.
pub open spec fn leaves(n: Node) -> Seq<u8>
    decreases n,
{
    match n.val {
        Some(v) => seq![v],
        None => match (n.left, n.right) {
            (Some(l), Some(r)) => leaves(*l) + leaves(*r),
            _ => Seq::empty(),
        },
    }
}

impl Node {
    /// A leaf carrying one symbol.
    pub fn new_leaf(freq: u64, val: u8) -> (n: Node)
        ensures
            n == leaf_node(freq, val),
    {
        Node { freq, val: Some(val), left: None, right: None }
    }

    /// An internal node owning two subtrees.
    pub fn new_internal(freq: u64, left: Node, right: Node) -> (n: Node)
        ensures
            n == internal_node(freq, left, right),
    {
        Node { freq, val: None, left: Some(Box::new(left)), right: Some(Box::new(right)) }
    }
}

/// How many times `v` occurs in `s`.
pub open spec fn count_of(s: Seq<u8>, v: u8) -> nat
    decreases s.len(),
{
    if s.len() == 0 {
        0
    } else {
        count_of(s.drop_first(), v) + (if s[0] == v {
            1nat
        } else {
            0nat
        })
    }
}

/// The 256-entry occurrence table of a byte sequence.
pub open spec fn freq_tbl(s: Seq<u8>) -> Seq<u64> {
    Seq::new(256, |v: int| count_of(s, v as u8) as u64)
}

proof fn lemma_count_push(s: Seq<u8>, x: u8, v: u8)
    ensures
        count_of(s.push(x), v) == count_of(s, v) + (if x == v {
            1nat
        } else {
            0nat
        }),
    decreases s.len(),
{
    if s.len() == 0 {
        assert(s.push(x)[0] == x);
        assert(s.push(x).len() == 1);
        assert(s.push(x).drop_first() =~= Seq::<u8>::empty());
        assert(count_of(s.push(x).drop_first(), v) == 0);
        assert(count_of(s, v) == 0);
    } else {
        assert(s.push(x)[0] == s[0]);
        assert(s.push(x).drop_first() =~= s.drop_first().push(x));
        lemma_count_push(s.drop_first(), x, v);
        assert(count_of(s.push(x), v) == count_of(s.push(x).drop_first(), v) + (if s[0] == v {
            1nat
        } else {
            0nat
        }));
    }
}

pub proof fn lemma_count_le_len(s: Seq<u8>, v: u8)
    ensures
        count_of(s, v) <= s.len(),
    decreases s.len(),
{
    if s.len() > 0 {
        lemma_count_le_len(s.drop_first(), v);
    }
}

/// Exact occurrence counting: entry `v` of the result is the number of
/// occurrences of byte `v` in the input.
pub fn calculate_freq(input: &Vec<u8>) -> (r: Vec<u64>)
    ensures
        r@ == freq_tbl(input@),
        r@.len() == 256,
{
    let mut table: Vec<u64> = Vec::new();
    let mut k: usize = 0;
    while k < 256
        invariant
            table@.len() == k,
            k <= 256,
            forall|j: int| 0 <= j < k ==> table@[j] == 0,
        decreases 256 - k,
    {
        table.push(0);
        k = k + 1;
    }
    proof {
        assert(input@.take(0) =~= Seq::<u8>::empty());
        assert(table@ =~= freq_tbl(input@.take(0)));
    }
    let mut i: usize = 0;
    while i < input.len()
        invariant
            i <= input@.len(),
            table@ == freq_tbl(input@.take(i as int)),
        decreases input@.len() - i,
    {
        let b = input[i];
        proof {
            lemma_count_le_len(input@.take(i as int), b);
        }
        let c = table[b as usize];
        table[b as usize] = c + 1;
        proof {
            assert(input@.take(i as int + 1) =~= input@.take(i as int).push(input@[i as int]));
            assert forall|v: int| 0 <= v < 256 implies table@[v] == freq_tbl(
                input@.take(i as int + 1),
            )[v] by {
                lemma_count_push(input@.take(i as int), b, v as u8);
            };
            assert(table@ =~= freq_tbl(input@.take(i as int + 1)));
        }
        i = i + 1;
    }
    proof {
        assert(input@.take(i as int) =~= input@);
    }
    table
}

/// One leaf per nonzero entry of the table, ascending by symbol, from `v` on.
pub open spec fn leaves_range(t: Seq<u64>, v: int) -> Seq<Node>
    decreases 256 - v,
{
    if v < 0 || v >= 256 {
        Seq::empty()
    } else if t[v] > 0 {
        seq![leaf_node(t[v], v as u8)] + leaves_range(t, v + 1)
    } else {
        leaves_range(t, v + 1)
    }
}

/// The first index of a minimum-frequency node: ties go to the earlier
/// position, which makes the whole build deterministic.
pub open spec fn first_min_idx(s: Seq<Node>) -> int
    decreases s.len(),
{
    if s.len() <= 1 {
        0
    } else {
        let m = first_min_idx(s.drop_first());
        if s[0].freq <= s[m + 1].freq {
            0
        } else {
            m + 1
        }
    }
}

pub proof fn lemma_first_min_idx(s: Seq<Node>)
    requires
        s.len() >= 1,
    ensures
        0 <= first_min_idx(s) < s.len(),
        forall|i: int| 0 <= i < s.len() ==> s[first_min_idx(s)].freq <= #[trigger] s[i].freq,
        forall|i: int| 0 <= i < first_min_idx(s) ==> #[trigger] s[i].freq > s[first_min_idx(s)].freq,
    decreases s.len(),
{
    if s.len() > 1 {
        lemma_first_min_idx(s.drop_first());
        let m = first_min_idx(s.drop_first());
        assert forall|i: int| 1 <= i < s.len() implies s[m + 1].freq <= #[trigger] s[i].freq by {
            assert(s.drop_first()[m] == s[m + 1]);
            assert(s.drop_first()[i - 1] == s[i]);
        };
        assert forall|i: int| 1 <= i < m + 1 implies #[trigger] s[i].freq > s[m + 1].freq by {
            assert(s.drop_first()[i - 1] == s[i]);
            assert(s.drop_first()[m] == s[m + 1]);
        };
    }
}

proof fn lemma_first_min_unique(s: Seq<Node>, j: int)
    requires
        s.len() >= 1,
        0 <= j < s.len(),
        forall|i: int| 0 <= i < s.len() ==> s[j].freq <= #[trigger] s[i].freq,
        forall|i: int| 0 <= i < j ==> #[trigger] s[i].freq > s[j].freq,
    ensures
        j == first_min_idx(s),
{
    lemma_first_min_idx(s);
    let m = first_min_idx(s);
    if m < j {
        assert(s[m].freq > s[j].freq);
        assert(s[j].freq <= s[m].freq);
    } else if j < m {
        assert(s[j].freq > s[m].freq);
        assert(s[m].freq <= s[j].freq);
    }
}

/// One greedy step: take out the two lowest-frequency nodes (earliest on
/// ties, the very lowest becoming the left child) and append their parent.
pub open spec fn merge_once(s: Seq<Node>) -> Seq<Node> {
    let i = first_min_idx(s);
    let a = s[i];
    let s1 = s.remove(i);
    let j = first_min_idx(s1);
    let b = s1[j];
    s1.remove(j).push(merge_nodes(a, b))
}

#[via_fn]
proof fn build_list_decreases(s: Seq<Node>) {
    if s.len() > 1 {
        lemma_first_min_idx(s);
        lemma_first_min_idx(s.remove(first_min_idx(s)));
    }
}

/// Repeats the greedy merge until one node remains.
pub open spec fn build_list(s: Seq<Node>) -> Seq<Node>
    decreases s.len(),
    via build_list_decreases
{
    if s.len() <= 1 {
        s
    } else {
        build_list(merge_once(s))
    }
}

proof fn lemma_build_list_len(s: Seq<Node>)
    requires
        s.len() >= 1,
    ensures
        build_list(s).len() == 1,
    decreases s.len(),
{
    if s.len() > 1 {
        lemma_first_min_idx(s);
        lemma_first_min_idx(s.remove(first_min_idx(s)));
        lemma_build_list_len(merge_once(s));
    }
}

/// What `build_tree` returns: `None` on an all-zero table, else the single
/// tree the deterministic greedy merge leaves.
pub open spec fn build_tree_spec(t: Seq<u64>) -> Option<Node> {
    let init = leaves_range(t, 0);
    if init.len() == 0 {
        None
    } else {
        Some(build_list(init)[0])
    }
}

fn find_min(nodes: &Vec<Node>) -> (r: usize)
    requires
        nodes@.len() >= 1,
    ensures
        r as int == first_min_idx(nodes@),
        r < nodes@.len(),
{
    let mut mi: usize = 0;
    let mut i: usize = 1;
    while i < nodes.len()
        invariant
            mi < i,
            i <= nodes@.len(),
            forall|k: int| 0 <= k < i ==> nodes@[mi as int].freq <= #[trigger] nodes@[k].freq,
            forall|k: int| 0 <= k < mi ==> #[trigger] nodes@[k].freq > nodes@[mi as int].freq,
        decreases nodes@.len() - i,
    {
        if nodes[i].freq < nodes[mi].freq {
            mi = i;
        }
        i = i + 1;
    }
    proof {
        lemma_first_min_unique(nodes@, mi as int);
    }
    mi
}

/// Builds the prefix-code tree by greedy merging of the two lowest counts,
/// ties broken toward the smaller symbol; `None` when the table is empty.
pub fn build_tree(freq_map: &Vec<u64>) -> (r: Option<Node>)
    requires
        freq_map@.len() == 256,
    ensures
        r == build_tree_spec(freq_map@),
{
    let mut heap: Vec<Node> = Vec::new();
    let mut v: usize = 0;
    proof {
        assert(heap@ + leaves_range(freq_map@, 0) =~= leaves_range(freq_map@, 0));
    }
    while v < 256
        invariant
            v <= 256,
            freq_map@.len() == 256,
            heap@ + leaves_range(freq_map@, v as int) == leaves_range(freq_map@, 0),
        decreases 256 - v,
    {
        let ghost old_heap = heap@;
        if freq_map[v] > 0 {
            heap.push(Node::new_leaf(freq_map[v], v as u8));
            proof {
                assert(leaves_range(freq_map@, v as int) == seq![
                    leaf_node(freq_map@[v as int], v as u8),
                ] + leaves_range(freq_map@, v as int + 1));
                assert(heap@ + leaves_range(freq_map@, v as int + 1) =~= old_heap + leaves_range(
                    freq_map@,
                    v as int,
                ));
            }
        } else {
            proof {
                assert(leaves_range(freq_map@, v as int) == leaves_range(freq_map@, v as int + 1));
            }
        }
        v = v + 1;
    }
    proof {
        assert(leaves_range(freq_map@, 256) =~= Seq::<Node>::empty());
        assert(heap@ =~= heap@ + leaves_range(freq_map@, 256));
    }
    if heap.len() == 0 {
        return None;
    }
    let ghost init = heap@;
    while heap.len() > 1
        invariant
            heap@.len() >= 1,
            build_list(heap@) == build_list(init),
        decreases heap@.len(),
    {
        let ghost s = heap@;
        proof {
            lemma_first_min_idx(s);
        }
        let i = find_min(&heap);
        let a = heap.remove(i);
        proof {
            lemma_first_min_idx(heap@);
        }
        let j = find_min(&heap);
        let b = heap.remove(j);
        let sum: u64 = if b.freq > u64::MAX - a.freq {
            u64::MAX
        } else {
            a.freq + b.freq
        };
        heap.push(Node::new_internal(sum, a, b));
        proof {
            assert(sum == sat_add(a.freq, b.freq));
            assert(heap@ =~= merge_once(s));
        }
    }
    proof {
        assert(build_list(heap@) == heap@);
        assert(heap@[0] == build_list(init)[0]);
    }
    let root = match heap.pop() {
        Some(n) => n,
        None => {
            proof {
                assert(false);
            }
            Node::new_leaf(0, 0)
        },
    };
    Some(root)
}


/// A byte that occurs in `s` has a positive count.
pub proof fn lemma_count_positive(s: Seq<u8>, i: int)
    requires
        0 <= i < s.len(),
    ensures
        count_of(s, s[i]) > 0,
    decreases i,
{
    if i > 0 {
        lemma_count_positive(s.drop_first(), i - 1);
        assert(s.drop_first()[i - 1] == s[i]);
    }
}

/// The bitstream the whole input packs to: each byte replaced by its code
/// from the tree built over the input's own counts.
pub open spec fn code_bits_spec(s: Seq<u8>) -> Seq<bool> {
    match build_tree_spec(freq_tbl(s)) {
        None => Seq::empty(),
        Some(root) => crate::codes::huff_bits(crate::codes::shape(root), s),
    }
}

/// Every byte of `data` has a leaf in the shape of the tree built over
/// `data`'s counts; packaged for the encoders.
pub proof fn lemma_input_covered(data: Seq<u8>)
    requires
        1 <= data.len() <= u64::MAX,
    ensures
        build_tree_spec(freq_tbl(data)) is Some,
        node_wf(build_tree_spec(freq_tbl(data)).unwrap()),
        forall|i: int|
            0 <= i < data.len() ==> crate::codes::ct_leaves(
                crate::codes::shape(build_tree_spec(freq_tbl(data)).unwrap()),
            ).contains(#[trigger] data[i]),
{
    let t = freq_tbl(data);
    lemma_count_positive(data, 0);
    lemma_count_le_len(data, data[0]);
    assert(t[data[0] as int] > 0);
    crate::codes::lemma_tree_has_symbol(t, data[0]);
    let root = build_tree_spec(t).unwrap();
    crate::codes::lemma_shape_leaves(root);
    assert forall|i: int| 0 <= i < data.len() implies crate::codes::ct_leaves(
        crate::codes::shape(root),
    ).contains(#[trigger] data[i]) by {
        lemma_count_positive(data, i);
        lemma_count_le_len(data, data[i]);
        assert(t[data[i] as int] > 0);
        crate::codes::lemma_tree_has_symbol(t, data[i]);
    };
}

/// Encodes the input against a code tree covering all of its bytes.
pub fn huffman_bits_of(input: &Vec<u8>, tree: &crate::codes::CodeTree) -> (bits: Vec<bool>)
    requires
        forall|i: int|
            0 <= i < input@.len() ==> crate::codes::ct_leaves(*tree).contains(
                #[trigger] input@[i],
            ),
    ensures
        bits@ == crate::codes::huff_bits(*tree, input@),
{
    let table = crate::codes::generate_codes(tree);
    let mut bits: Vec<bool> = Vec::new();
    let mut i: usize = 0;
    proof {
        assert(input@.take(0) =~= Seq::<u8>::empty());
        assert(bits@ =~= crate::codes::huff_bits(*tree, input@.take(0)));
    }
    while i < input.len()
        invariant
            i <= input@.len(),
            table@.len() == 256,
            forall|v: int|
                0 <= v < 256 ==> table@[v]@ == (if crate::codes::ct_leaves(*tree).contains(
                    v as u8,
                ) {
                    crate::codes::full_code(*tree, v as u8)
                } else {
                    Seq::<bool>::empty()
                }),
            forall|k: int|
                0 <= k < input@.len() ==> crate::codes::ct_leaves(*tree).contains(
                    #[trigger] input@[k],
                ),
            bits@ == crate::codes::huff_bits(*tree, input@.take(i as int)),
        decreases input@.len() - i,
    {
        let sym = input[i];
        let code = &table[sym as usize];
        proof {
            assert(crate::codes::ct_leaves(*tree).contains(input@[i as int]));
            assert(code@ == crate::codes::full_code(*tree, sym));
        }
        let mut j: usize = 0;
        while j < code.len()
            invariant
                j <= code@.len(),
                bits@ == crate::codes::huff_bits(*tree, input@.take(i as int)) + code@.take(
                    j as int,
                ),
            decreases code@.len() - j,
        {
            bits.push(code[j]);
            proof {
                assert(code@.take(j as int).push(code@[j as int]) =~= code@.take(j as int + 1));
                assert(bits@ =~= crate::codes::huff_bits(*tree, input@.take(i as int))
                    + code@.take(j as int + 1));
            }
            j = j + 1;
        }
        proof {
            assert(code@.take(code@.len() as int) =~= code@);
            crate::codes::lemma_huff_bits_push(*tree, input@.take(i as int), sym);
            assert(input@.take(i as int).push(input@[i as int]) =~= input@.take(i as int + 1));
        }
        i = i + 1;
    }
    proof {
        assert(input@.take(i as int) =~= input@);
    }
    bits
}

/// The byte-level entry point: the input's code bits packed MSB-first
/// into bytes, with no header. An empty input packs to an empty buffer.
pub fn compress(input: &Vec<u8>) -> (r: Vec<u8>)
    ensures
        r@ == crate::bits::pack_spec(code_bits_spec(input@)),
{
    let n_in = input.len();
    proof {
        assert(input@.len() == n_in as int);
    }
    let freq = calculate_freq(input);
    let root_opt = build_tree(&freq);
    match root_opt {
        None => {
            let r: Vec<u8> = Vec::new();
            proof {
                assert(r@ =~= crate::bits::pack_spec(code_bits_spec(input@)));
            }
            r
        },
        Some(root) => {
            proof {
                if input@.len() == 0 {
                    lemma_empty_builds_none(input@);
                    assert(false);
                }
                assert(input@.len() <= u64::MAX);
                lemma_input_covered(input@);
            }
            let ct = crate::codes::to_code_tree(&root);
            let bits = huffman_bits_of(input, &ct);
            crate::bits::pack(&bits)
        },
    }
}

proof fn lemma_leaves_range_zero(t: Seq<u64>, lo: int)
    requires
        forall|v: int| 0 <= v < 256 ==> t[v] == 0,
    ensures
        leaves_range(t, lo).len() == 0,
    decreases 256 - lo,
{
    if 0 <= lo < 256 {
        lemma_leaves_range_zero(t, lo + 1);
    }
}



/// An empty input has an all-zero table, which builds no tree.
pub proof fn lemma_empty_builds_none(s: Seq<u8>)
    requires
        s.len() == 0,
    ensures
        build_tree_spec(freq_tbl(s)) is None,
{
    assert forall|v: int| 0 <= v < 256 implies freq_tbl(s)[v] == 0 by {
        assert(count_of(s, v as u8) == 0);
    };
    lemma_leaves_range_zero(freq_tbl(s), 0);
}


proof fn lemma_count_repeat(a: u8, n: nat, v: u8)
    ensures
        count_of(Seq::new(n, |i: int| a), v) == (if v == a {
            n
        } else {
            0nat
        }),
    decreases n,
{
    let s = Seq::new(n, |i: int| a);
    if n > 0 {
        assert(s.drop_first() =~= Seq::new((n - 1) as nat, |i: int| a));
        lemma_count_repeat(a, (n - 1) as nat, v);
    }
}

proof fn lemma_leaves_range_single(t: Seq<u64>, a: u8, lo: int)
    requires
        0 <= lo <= 256,
        t[a as int] > 0,
        forall|v: int| 0 <= v < 256 && v != a as int ==> t[v] == 0,
    ensures
        leaves_range(t, lo) == (if lo <= a as int {
            seq![leaf_node(t[a as int], a)]
        } else {
            Seq::<Node>::empty()
        }),
    decreases 256 - lo,
{
    if lo < 256 {
        lemma_leaves_range_single(t, a, lo + 1);
        if lo == a as int {
            assert(leaves_range(t, lo) =~= seq![leaf_node(t[a as int], a)]);
        } else if lo < a as int {
            assert(leaves_range(t, lo) == leaves_range(t, lo + 1));
        } else {
            assert(leaves_range(t, lo) == leaves_range(t, lo + 1));
        }
    }
}

proof fn lemma_huff_bits_leaf(u: u8, s: Seq<u8>)
    ensures
        crate::codes::huff_bits(crate::codes::CodeTree::Leaf(u), s) == Seq::new(
            s.len(),
            |i: int| false,
        ),
    decreases s.len(),
{
    let t = crate::codes::CodeTree::Leaf(u);
    if s.len() == 0 {
        assert(crate::codes::huff_bits(t, s) =~= Seq::new(s.len(), |i: int| false));
    } else {
        lemma_huff_bits_leaf(u, s.drop_first());
        assert(crate::codes::full_code(t, s[0]) == seq![false]);
        assert(crate::codes::huff_bits(t, s) =~= Seq::new(s.len(), |i: int| false));
    }
}

/// Single repeated symbol: a run of one symbol builds a lone-leaf tree, the
/// bitstream is one 0 bit per input byte, and it packs to exactly
/// `(n + 7) / 8` bytes.
pub proof fn lemma_single_symbol(a: u8, n: nat)
    requires
        1 <= n <= u64::MAX,
    ensures
        build_tree_spec(freq_tbl(Seq::new(n, |i: int| a))) == Some(leaf_node(n as u64, a)),
        code_bits_spec(Seq::new(n, |i: int| a)) == Seq::new(n, |i: int| false),
        crate::bits::pack_spec(code_bits_spec(Seq::new(n, |i: int| a))).len() == (n + 7) / 8,
{
    let s = Seq::new(n, |i: int| a);
    let t = freq_tbl(s);
    assert forall|v: int| 0 <= v < 256 && v != a as int implies t[v] == 0 by {
        lemma_count_repeat(a, n, v as u8);
    };
    lemma_count_repeat(a, n, a);
    assert(t[a as int] == n as u64);
    lemma_leaves_range_single(t, a, 0);
    let leaf = leaf_node(n as u64, a);
    assert(build_list(seq![leaf]) == seq![leaf]);
    assert(build_tree_spec(t) == Some(leaf));
    assert(crate::codes::shape(leaf) == crate::codes::CodeTree::Leaf(a));
    lemma_huff_bits_leaf(a, s);
}

} // verus!
