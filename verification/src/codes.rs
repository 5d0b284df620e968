use vstd::prelude::*;
use crate::CzipError;
use crate::huffman::{build_list, build_tree_spec, leaf_node, leaves, leaves_range, merge_nodes, merge_once, node_wf, Node};

verus! {

/// The shape of a prefix-code tree: exactly what encoding and decoding need,
/// with no frequencies.
#[derive(Debug)]
pub enum CodeTree {
    Leaf(u8),
    Branch(Box<CodeTree>, Box<CodeTree>),
}

/// The decoder's view of a builder tree. A malformed node collapses to a
/// leaf; well-formed trees never take that branch.
pub open spec fn shape(n: Node) -> CodeTree
    decreases n,
{
    match n.val {
        Some(v) => CodeTree::Leaf(v),
        None => match (n.left, n.right) {
            (Some(l), Some(r)) => CodeTree::Branch(Box::new(shape(*l)), Box::new(shape(*r))),
            _ => CodeTree::Leaf(0),
        },
    }
}

/// The symbols at the leaves of a code tree, left to right.
pub open spec fn ct_leaves(t: CodeTree) -> Seq<u8>
    decreases t,
{
    match t {
        CodeTree::Leaf(v) => seq![v],
        CodeTree::Branch(l, r) => ct_leaves(*l) + ct_leaves(*r),
    }
}

pub proof fn lemma_shape_leaves(n: Node)
    requires
        node_wf(n),
    ensures
        ct_leaves(shape(n)) == leaves(n),
    decreases n,
{
    match n.val {
        Some(_) => {},
        None => match (n.left, n.right) {
            (Some(l), Some(r)) => {
                lemma_shape_leaves(*l);
                lemma_shape_leaves(*r);
            },
            _ => {},
        },
    }
}

/// Converts a well-formed builder tree to its shape.
pub fn to_code_tree(n: &Node) -> (t: CodeTree)
    requires
        node_wf(*n),
    ensures
        t == shape(*n),
    decreases *n,
{
    match &n.val {
        Some(v) => CodeTree::Leaf(*v),
        None => match (&n.left, &n.right) {
            (Some(l), Some(r)) => CodeTree::Branch(
                Box::new(to_code_tree(l)),
                Box::new(to_code_tree(r)),
            ),
            _ => {
                proof {
                    assert(false);
                }
                CodeTree::Leaf(0)
            },
        },
    }
}

/// The path to symbol `v` in the tree: a `true` bit descends right. When a
/// symbol sits in both subtrees the right one wins, matching the order in
/// which the table generator overwrites entries.
pub open spec fn code_of(t: CodeTree, v: u8) -> Seq<bool>
    decreases t,
{
    match t {
        CodeTree::Leaf(_) => Seq::empty(),
        CodeTree::Branch(l, r) => if ct_leaves(*r).contains(v) {
            seq![true] + code_of(*r, v)
        } else {
            seq![false] + code_of(*l, v)
        },
    }
}

/// The emitted code for `v`: a lone-leaf tree still gets the one-bit code 0,
/// so a single-symbol input stays decodable.
pub open spec fn full_code(t: CodeTree, v: u8) -> Seq<bool> {
    match t {
        CodeTree::Leaf(_) => seq![false],
        CodeTree::Branch(_, _) => code_of(t, v),
    }
}

/// The concatenated codes of a whole message.
pub open spec fn huff_bits(t: CodeTree, s: Seq<u8>) -> Seq<bool>
    decreases s.len(),
{
    if s.len() == 0 {
        Seq::empty()
    } else {
        full_code(t, s[0]) + huff_bits(t, s.drop_first())
    }
}

pub proof fn lemma_huff_bits_push(t: CodeTree, s: Seq<u8>, x: u8)
    ensures
        huff_bits(t, s.push(x)) == huff_bits(t, s) + full_code(t, x),
    decreases s.len(),
{
    if s.len() == 0 {
        assert(s.push(x)[0] == x);
        assert(s.push(x).drop_first() =~= Seq::<u8>::empty());
        assert(huff_bits(t, Seq::<u8>::empty()) == Seq::<bool>::empty());
        assert(huff_bits(t, s.push(x)) == full_code(t, x) + huff_bits(
            t,
            s.push(x).drop_first(),
        ));
        assert(huff_bits(t, s.push(x)) =~= full_code(t, x));
        assert(huff_bits(t, s) + full_code(t, x) =~= full_code(t, x));
    } else {
        assert(s.push(x)[0] == s[0]);
        assert(s.push(x).drop_first() =~= s.drop_first().push(x));
        lemma_huff_bits_push(t, s.drop_first(), x);
        assert(full_code(t, s[0]) + (huff_bits(t, s.drop_first()) + full_code(t, x)) =~= (full_code(
            t,
            s[0],
        ) + huff_bits(t, s.drop_first())) + full_code(t, x));
    }
}

/// Walking the tree by bits: each bit picks a child until a leaf is reached.
pub open spec fn walk(t: CodeTree, bits: Seq<bool>) -> Option<(u8, Seq<bool>)>
    decreases t,
{
    match t {
        CodeTree::Leaf(v) => Some((v, bits)),
        CodeTree::Branch(l, r) => if bits.len() == 0 {
            None
        } else if bits[0] {
            walk(*r, bits.drop_first())
        } else {
            walk(*l, bits.drop_first())
        },
    }
}

/// One symbol off the bit stream; a lone-leaf root consumes one bit.
pub open spec fn decode_sym(t: CodeTree, bits: Seq<bool>) -> Option<(u8, Seq<bool>)> {
    match t {
        CodeTree::Leaf(v) => if bits.len() == 0 {
            None
        } else {
            Some((v, bits.drop_first()))
        },
        CodeTree::Branch(_, _) => walk(t, bits),
    }
}

/// `count` symbols off the bit stream; `None` when the bits run out before a
/// leaf is reached.
pub open spec fn decode_syms(t: CodeTree, bits: Seq<bool>, count: nat) -> Option<Seq<u8>>
    decreases count,
{
    if count == 0 {
        Some(Seq::empty())
    } else {
        match decode_sym(t, bits) {
            None => None,
            Some((v, rest)) => match decode_syms(t, rest, (count - 1) as nat) {
                None => None,
                Some(tail) => Some(seq![v] + tail),
            },
        }
    }
}

proof fn lemma_concat_contains_split(a: Seq<u8>, b: Seq<u8>, v: u8)
    requires
        (a + b).contains(v),
        !b.contains(v),
    ensures
        a.contains(v),
{
    let i = choose|i: int| 0 <= i < (a + b).len() && (a + b)[i] == v;
    if i < a.len() {
        assert(a[i] == v);
    } else {
        assert(b[i - a.len()] == v);
    }
}

/// Walking the code of a present symbol lands exactly on that symbol and
/// leaves the rest of the stream untouched.
proof fn lemma_walk_code(t: CodeTree, v: u8, rest: Seq<bool>)
    requires
        ct_leaves(t).contains(v),
    ensures
        walk(t, code_of(t, v) + rest) == Some((v, rest)),
    decreases t,
{
    match t {
        CodeTree::Leaf(u) => {
            assert(ct_leaves(t)[0] == u);
            assert(Seq::<bool>::empty() + rest =~= rest);
        },
        CodeTree::Branch(l, r) => {
            if ct_leaves(*r).contains(v) {
                let bits = (seq![true] + code_of(*r, v)) + rest;
                assert(bits[0]);
                assert(bits.drop_first() =~= code_of(*r, v) + rest);
                lemma_walk_code(*r, v, rest);
            } else {
                lemma_concat_contains_split(ct_leaves(*l), ct_leaves(*r), v);
                let bits = (seq![false] + code_of(*l, v)) + rest;
                assert(!bits[0]);
                assert(bits.drop_first() =~= code_of(*l, v) + rest);
                lemma_walk_code(*l, v, rest);
            }
        },
    }
}

proof fn lemma_decode_full_code(t: CodeTree, v: u8, rest: Seq<bool>)
    requires
        ct_leaves(t).contains(v),
    ensures
        decode_sym(t, full_code(t, v) + rest) == Some((v, rest)),
{
    match t {
        CodeTree::Leaf(u) => {
            assert(ct_leaves(t)[0] == u);
            let bits = seq![false] + rest;
            assert(bits.drop_first() =~= rest);
        },
        CodeTree::Branch(_, _) => {
            lemma_walk_code(t, v, rest);
        },
    }
}

/// Decoding the concatenated codes of a message, even followed by padding,
/// restores the message.
pub proof fn lemma_decode_huff_bits(t: CodeTree, s: Seq<u8>, extra: Seq<bool>)
    requires
        forall|i: int| 0 <= i < s.len() ==> ct_leaves(t).contains(#[trigger] s[i]),
    ensures
        decode_syms(t, huff_bits(t, s) + extra, s.len()) == Some(s),
    decreases s.len(),
{
    if s.len() == 0 {
        assert(Seq::<u8>::empty() =~= s);
    } else {
        let tailbits = huff_bits(t, s.drop_first());
        assert((full_code(t, s[0]) + tailbits) + extra =~= full_code(t, s[0]) + (tailbits + extra));
        lemma_decode_full_code(t, s[0], tailbits + extra);
        assert forall|i: int| 0 <= i < s.drop_first().len() implies ct_leaves(t).contains(
            #[trigger] s.drop_first()[i],
        ) by {
            assert(s.drop_first()[i] == s[i + 1]);
        };
        lemma_decode_huff_bits(t, s.drop_first(), extra);
        assert(seq![s[0]] + s.drop_first() =~= s);
    }
}

/// A symbol with a nonzero count keeps a leaf through every greedy merge.
pub open spec fn list_has_sym(s: Seq<Node>, v: u8) -> bool {
    exists|i: int| 0 <= i < s.len() && #[trigger] leaves(s[i]).contains(v)
}

pub proof fn lemma_merge_keeps_sym(s: Seq<Node>, v: u8)
    requires
        s.len() >= 2,
        list_has_sym(s, v),
    ensures
        list_has_sym(merge_once(s), v),
{
    crate::huffman::lemma_first_min_idx(s);
    let im = crate::huffman::first_min_idx(s);
    let a = s[im];
    let s1 = s.remove(im);
    s.remove_ensures(im);
    crate::huffman::lemma_first_min_idx(s1);
    let j = crate::huffman::first_min_idx(s1);
    let b = s1[j];
    s1.remove_ensures(j);
    let m = merge_nodes(a, b);
    assert(leaves(m) == leaves(a) + leaves(b));
    let out = s1.remove(j).push(m);
    assert(out == merge_once(s));
    let i = choose|i: int| 0 <= i < s.len() && #[trigger] leaves(s[i]).contains(v);
    if i == im {
        assert((leaves(a) + leaves(b)).contains(v)) by {
            let w = choose|w: int| 0 <= w < leaves(a).len() && leaves(a)[w] == v;
            assert((leaves(a) + leaves(b))[w] == v);
        };
        assert(out[out.len() - 1] == m);
        assert(list_has_sym(out, v));
    } else {
        let i1: int = if i < im {
            i
        } else {
            i - 1
        };
        assert(s1[i1] == s[i]);
        if i1 == j {
            assert((leaves(a) + leaves(b)).contains(v)) by {
                let w = choose|w: int| 0 <= w < leaves(b).len() && leaves(b)[w] == v;
                assert((leaves(a) + leaves(b))[leaves(a).len() + w] == v);
            };
            assert(out[out.len() - 1] == m);
            assert(list_has_sym(out, v));
        } else {
            let i2: int = if i1 < j {
                i1
            } else {
                i1 - 1
            };
            assert(s1.remove(j)[i2] == s1[i1]);
            assert(out[i2] == s1[i1]);
            assert(list_has_sym(out, v));
        }
    }
}

pub proof fn lemma_merge_keeps_wf(s: Seq<Node>)
    requires
        s.len() >= 2,
        forall|i: int| 0 <= i < s.len() ==> node_wf(#[trigger] s[i]),
    ensures
        forall|i: int| 0 <= i < merge_once(s).len() ==> node_wf(#[trigger] merge_once(s)[i]),
{
    crate::huffman::lemma_first_min_idx(s);
    let im = crate::huffman::first_min_idx(s);
    let a = s[im];
    let s1 = s.remove(im);
    s.remove_ensures(im);
    crate::huffman::lemma_first_min_idx(s1);
    let j = crate::huffman::first_min_idx(s1);
    let b = s1[j];
    s1.remove_ensures(j);
    let m = merge_nodes(a, b);
    assert(node_wf(m));
    let out = s1.remove(j).push(m);
    assert forall|i: int| 0 <= i < out.len() implies node_wf(#[trigger] out[i]) by {
        if i == out.len() - 1 {
            assert(out[i] == m);
        } else {
            assert(out[i] == s1.remove(j)[i]);
            let i1: int = if i < j {
                i
            } else {
                i + 1
            };
            assert(s1.remove(j)[i] == s1[i1]);
            let i2: int = if i1 < im {
                i1
            } else {
                i1 + 1
            };
            assert(s1[i1] == s[i2]);
        }
    };
    assert(out == merge_once(s));
}


/// Merging keeps every symbol present, so the final root holds a leaf for
/// each symbol the initial leaf list had.
pub proof fn lemma_build_list_sym(s: Seq<Node>, v: u8)
    requires
        s.len() >= 1,
        forall|i: int| 0 <= i < s.len() ==> node_wf(#[trigger] s[i]),
        list_has_sym(s, v),
    ensures
        leaves(build_list(s)[0]).contains(v),
    decreases s.len(),
{
    if s.len() == 1 {
        let i = choose|i: int| 0 <= i < s.len() && #[trigger] leaves(s[i]).contains(v);
        assert(i == 0);
        assert(build_list(s) == s);
    } else {
        crate::huffman::lemma_first_min_idx(s);
        let im = crate::huffman::first_min_idx(s);
        let s1 = s.remove(im);
        s.remove_ensures(im);
        crate::huffman::lemma_first_min_idx(s1);
        s1.remove_ensures(crate::huffman::first_min_idx(s1));
        lemma_merge_keeps_sym(s, v);
        lemma_merge_keeps_wf(s);
        assert(merge_once(s).len() == s.len() - 1);
        lemma_build_list_sym(merge_once(s), v);
    }
}

pub proof fn lemma_build_list_wf(s: Seq<Node>)
    requires
        s.len() >= 1,
        forall|i: int| 0 <= i < s.len() ==> node_wf(#[trigger] s[i]),
    ensures
        node_wf(build_list(s)[0]),
    decreases s.len(),
{
    if s.len() == 1 {
        assert(build_list(s) == s);
        assert(node_wf(s[0]));
    } else {
        crate::huffman::lemma_first_min_idx(s);
        let im = crate::huffman::first_min_idx(s);
        let s1 = s.remove(im);
        s.remove_ensures(im);
        crate::huffman::lemma_first_min_idx(s1);
        s1.remove_ensures(crate::huffman::first_min_idx(s1));
        lemma_merge_keeps_wf(s);
        assert(merge_once(s).len() == s.len() - 1);
        lemma_build_list_wf(merge_once(s));
    }
}

pub proof fn lemma_leaves_range_wf(t: Seq<u64>, lo: int)
    ensures
        forall|i: int|
            0 <= i < leaves_range(t, lo).len() ==> node_wf(#[trigger] leaves_range(t, lo)[i]),
    decreases 256 - lo,
{
    if 0 <= lo < 256 {
        lemma_leaves_range_wf(t, lo + 1);
        if t[lo] > 0 {
            let hd = seq![leaf_node(t[lo], lo as u8)];
            assert(node_wf(hd[0]));
            assert forall|i: int| 0 <= i < leaves_range(t, lo).len() implies node_wf(
                #[trigger] leaves_range(t, lo)[i],
            ) by {
                if i == 0 {
                    assert(leaves_range(t, lo)[0] == hd[0]);
                } else {
                    assert(leaves_range(t, lo)[i] == leaves_range(t, lo + 1)[i - 1]);
                }
            };
        } else {
            assert(leaves_range(t, lo) == leaves_range(t, lo + 1));
            assert forall|i: int| 0 <= i < leaves_range(t, lo).len() implies node_wf(
                #[trigger] leaves_range(t, lo)[i],
            ) by {
                assert(leaves_range(t, lo)[i] == leaves_range(t, lo + 1)[i]);
            };
        }
    }
}

pub proof fn lemma_leaves_range_has(t: Seq<u64>, lo: int, v: u8)
    requires
        0 <= lo <= v as int,
        t[v as int] > 0,
    ensures
        list_has_sym(leaves_range(t, lo), v),
    decreases v as int - lo,
{
    if lo == v as int {
        let hd = leaf_node(t[lo], lo as u8);
        assert(leaves(hd)[0] == v);
        assert(leaves(hd).contains(v));
        assert(leaves_range(t, lo)[0] == hd);
        assert(list_has_sym(leaves_range(t, lo), v));
    } else {
        lemma_leaves_range_has(t, lo + 1, v);
        let k = choose|k: int|
            0 <= k < leaves_range(t, lo + 1).len() && #[trigger] leaves(
                leaves_range(t, lo + 1)[k],
            ).contains(v);
        if t[lo] > 0 {
            assert(leaves_range(t, lo)[k + 1] == leaves_range(t, lo + 1)[k]);
            assert(list_has_sym(leaves_range(t, lo), v));
        } else {
            assert(leaves_range(t, lo) == leaves_range(t, lo + 1));
        }
    }
}

/// A symbol with a nonzero count has a leaf in the built tree, and the tree
/// is well-formed.
pub proof fn lemma_tree_has_symbol(t: Seq<u64>, v: u8)
    requires
        t.len() == 256,
        t[v as int] > 0,
    ensures
        build_tree_spec(t) is Some,
        node_wf(build_tree_spec(t).unwrap()),
        leaves(build_tree_spec(t).unwrap()).contains(v),
{
    lemma_leaves_range_has(t, 0, v);
    lemma_leaves_range_wf(t, 0);
    let init = leaves_range(t, 0);
    let k = choose|k: int| 0 <= k < init.len() && #[trigger] leaves(init[k]).contains(v);
    assert(init.len() >= 1);
    lemma_build_list_sym(init, v);
    lemma_build_list_wf(init);
}

fn copy_bits(v: &Vec<bool>) -> (r: Vec<bool>)
    ensures
        r@ == v@,
{
    let mut r: Vec<bool> = Vec::new();
    let mut i: usize = 0;
    while i < v.len()
        invariant
            i <= v@.len(),
            r@ == v@.take(i as int),
        decreases v@.len() - i,
    {
        r.push(v[i]);
        proof {
            assert(r@ =~= v@.take(i as int + 1));
        }
        i = i + 1;
    }
    proof {
        assert(v@.take(i as int) =~= v@);
    }
    r
}

fn gen_rec(t: &CodeTree, prefix: Vec<bool>, table: &mut Vec<Vec<bool>>)
    requires
        old(table)@.len() == 256,
    ensures
        final(table)@.len() == 256,
        forall|v: int|
            0 <= v < 256 ==> final(table)@[v]@ == (if ct_leaves(*t).contains(v as u8) {
                prefix@ + code_of(*t, v as u8)
            } else {
                old(table)@[v]@
            }),
    decreases *t,
{
    match t {
        CodeTree::Leaf(u) => {
            let idx = *u as usize;
            let ghost p = prefix@;
            table[idx] = prefix;
            proof {
                assert(ct_leaves(*t)[0] == *u);
                assert(ct_leaves(*t).contains(*u));
                assert(p + code_of(*t, *u) =~= p);
                assert forall|v: int| 0 <= v < 256 && v != idx implies !(#[trigger] ct_leaves(
                    *t,
                ).contains(v as u8)) by {
                    if ct_leaves(*t).contains(v as u8) {
                        let w = choose|w: int|
                            0 <= w < ct_leaves(*t).len() && ct_leaves(*t)[w] == v as u8;
                        assert(w == 0);
                    }
                };
            }
        },
        CodeTree::Branch(l, r) => {
            let mut pl = copy_bits(&prefix);
            pl.push(false);
            let ghost pls = pl@;
            gen_rec(l, pl, table);
            let ghost mid = table@;
            let mut pr = prefix;
            pr.push(true);
            let ghost prs = pr@;
            gen_rec(r, pr, table);
            proof {
                assert forall|v: int| 0 <= v < 256 implies table@[v]@ == (if ct_leaves(
                    *t,
                ).contains(v as u8) {
                    prefix@ + code_of(*t, v as u8)
                } else {
                    old(table)@[v]@
                }) by {
                    let vv = v as u8;
                    if ct_leaves(**r).contains(vv) {
                        assert((ct_leaves(**l) + ct_leaves(**r))[ct_leaves(**l).len()
                            + choose|w: int|
                            0 <= w < ct_leaves(**r).len() && ct_leaves(**r)[w] == vv] == vv);
                        assert(ct_leaves(*t).contains(vv));
                        assert(table@[v]@ == prs + code_of(**r, vv));
                        assert(prs + code_of(**r, vv) =~= prefix@ + (seq![true] + code_of(
                            **r,
                            vv,
                        )));
                    } else if ct_leaves(**l).contains(vv) {
                        assert((ct_leaves(**l) + ct_leaves(**r))[choose|w: int|
                            0 <= w < ct_leaves(**l).len() && ct_leaves(**l)[w] == vv] == vv);
                        assert(ct_leaves(*t).contains(vv));
                        assert(table@[v]@ == mid[v]@);
                        assert(mid[v]@ == pls + code_of(**l, vv));
                        assert(pls + code_of(**l, vv) =~= prefix@ + (seq![false] + code_of(
                            **l,
                            vv,
                        )));
                    } else {
                        if ct_leaves(*t).contains(vv) {
                            lemma_concat_contains_split(ct_leaves(**l), ct_leaves(**r), vv);
                        }
                        assert(table@[v]@ == mid[v]@);
                        assert(mid[v]@ == old(table)@[v]@);
                    }
                };
            }
        },
    }
}

/// Builds the code table by a depth-first walk of the tree: descending left
/// appends 0, descending right appends 1; a lone-leaf root gets the one-bit
/// code 0. Entry `v` is empty when the tree has no leaf for `v`.
pub fn generate_codes(tree: &CodeTree) -> (r: Vec<Vec<bool>>)
    ensures
        r@.len() == 256,
        forall|v: int|
            0 <= v < 256 ==> r@[v]@ == (if ct_leaves(*tree).contains(v as u8) {
                full_code(*tree, v as u8)
            } else {
                Seq::<bool>::empty()
            }),
{
    let mut table: Vec<Vec<bool>> = Vec::new();
    let mut k: usize = 0;
    while k < 256
        invariant
            table@.len() == k,
            k <= 256,
            forall|j: int| 0 <= j < k ==> #[trigger] table@[j]@ == Seq::<bool>::empty(),
        decreases 256 - k,
    {
        let e: Vec<bool> = Vec::new();
        table.push(e);
        k = k + 1;
    }
    match tree {
        CodeTree::Leaf(u) => {
            let mut c: Vec<bool> = Vec::new();
            c.push(false);
            proof {
                assert(c@ =~= seq![false]);
            }
            let idx = *u as usize;
            table[idx] = c;
            proof {
                assert(ct_leaves(*tree)[0] == *u);
                assert(ct_leaves(*tree).contains(*u));
                assert forall|v: int| 0 <= v < 256 && v != idx implies !(#[trigger] ct_leaves(
                    *tree,
                ).contains(v as u8)) by {
                    if ct_leaves(*tree).contains(v as u8) {
                        let w = choose|w: int|
                            0 <= w < ct_leaves(*tree).len() && ct_leaves(*tree)[w] == v as u8;
                        assert(w == 0);
                    }
                };
            }
        },
        CodeTree::Branch(_, _) => {
            let p: Vec<bool> = Vec::new();
            gen_rec(tree, p, &mut table);
            proof {
                assert forall|v: int| 0 <= v < 256 && ct_leaves(*tree).contains(
                    v as u8,
                ) implies table@[v]@ == full_code(*tree, v as u8) by {
                    assert(Seq::<bool>::empty() + code_of(*tree, v as u8) =~= code_of(
                        *tree,
                        v as u8,
                    ));
                };
            }
        },
    }
    table
}


/// Byte encoding of a tree shape, preorder: 1 then the symbol for a leaf,
/// 0 then both children for a branch.
pub open spec fn tree_bytes(t: CodeTree) -> Seq<u8>
    decreases t,
{
    match t {
        CodeTree::Leaf(v) => seq![1u8, v],
        CodeTree::Branch(l, r) => seq![0u8] + tree_bytes(*l) + tree_bytes(*r),
    }
}

/// Parses a preorder tree shape from the front of `b`, returning it with the
/// number of bytes consumed.
pub open spec fn parse_tree(b: Seq<u8>) -> Result<(CodeTree, nat), CzipError>
    decreases b.len(),
{
    if b.len() == 0 {
        Err(CzipError::TruncatedStream)
    } else if b[0] == 1 {
        if b.len() < 2 {
            Err(CzipError::TruncatedStream)
        } else {
            Ok((CodeTree::Leaf(b[1]), 2))
        }
    } else if b[0] == 0 {
        match parse_tree(b.drop_first()) {
            Err(e) => Err(e),
            Ok((l, nl)) => if 1 + nl >= b.len() {
                Err(CzipError::TruncatedStream)
            } else {
                match parse_tree(b.skip(1 + nl as int)) {
                    Err(e) => Err(e),
                    Ok((r, nr)) => Ok((CodeTree::Branch(Box::new(l), Box::new(r)), 1 + nl + nr)),
                }
            },
        }
    } else {
        Err(CzipError::CorruptStream)
    }
}

proof fn lemma_tree_bytes_len(t: CodeTree)
    ensures
        tree_bytes(t).len() >= 2,
    decreases t,
{
    match t {
        CodeTree::Leaf(_) => {},
        CodeTree::Branch(l, r) => {
            lemma_tree_bytes_len(*l);
            lemma_tree_bytes_len(*r);
        },
    }
}

pub proof fn lemma_parse_tree_consumed(b: Seq<u8>)
    ensures
        parse_tree(b) matches Ok(p) ==> 2 <= p.1 <= b.len(),
    decreases b.len(),
{
    if b.len() == 0 {
    } else if b[0] == 1 {
    } else if b[0] == 0 {
        lemma_parse_tree_consumed(b.drop_first());
        match parse_tree(b.drop_first()) {
            Err(_) => {},
            Ok((l, nl)) => {
                if 1 + nl < b.len() {
                    lemma_parse_tree_consumed(b.skip(1 + nl as int));
                }
            },
        }
    }
}

/// Parsing the serialized shape of a tree, whatever follows it, restores the
/// tree and consumes exactly its bytes.
pub proof fn lemma_parse_tree_bytes(t: CodeTree, rest: Seq<u8>)
    ensures
        parse_tree(tree_bytes(t) + rest) == Ok::<(CodeTree, nat), CzipError>(
            (t, tree_bytes(t).len() as nat),
        ),
    decreases t,
{
    let b = tree_bytes(t) + rest;
    match t {
        CodeTree::Leaf(v) => {
            assert(b[0] == 1 && b[1] == v && b.len() >= 2);
        },
        CodeTree::Branch(l, r) => {
            let bl = tree_bytes(*l);
            let br = tree_bytes(*r);
            lemma_tree_bytes_len(*l);
            lemma_tree_bytes_len(*r);
            assert(tree_bytes(t) == seq![0u8] + bl + br);
            assert(b[0] == 0);
            assert(b.drop_first() =~= bl + (br + rest));
            lemma_parse_tree_bytes(*l, br + rest);
            assert(1 + bl.len() < b.len());
            assert(b.skip(1 + bl.len() as int) =~= br + rest);
            lemma_parse_tree_bytes(*r, rest);
        },
    }
}

/// Appends the preorder byte form of the tree.
pub fn ser_tree(t: &CodeTree, out: &mut Vec<u8>)
    ensures
        final(out)@ == old(out)@ + tree_bytes(*t),
    decreases *t,
{
    match t {
        CodeTree::Leaf(v) => {
            out.push(1);
            out.push(*v);
            proof {
                assert(out@ =~= old(out)@ + tree_bytes(*t));
            }
        },
        CodeTree::Branch(l, r) => {
            out.push(0);
            ser_tree(l, out);
            ser_tree(r, out);
            proof {
                assert(out@ =~= old(out)@ + tree_bytes(*t));
            }
        },
    }
}

/// Reads a preorder tree shape starting at byte `off`, returning it and the
/// offset just past it.
pub fn parse_tree_exec(b: &Vec<u8>, off: usize) -> (res: Result<(CodeTree, usize), CzipError>)
    requires
        off <= b@.len(),
    ensures
        match res {
            Ok(p) => {
                &&& parse_tree(b@.skip(off as int)) == Ok::<(CodeTree, nat), CzipError>(
                    (p.0, (p.1 - off) as nat),
                )
                &&& off < p.1 <= b@.len()
            },
            Err(e) => parse_tree(b@.skip(off as int)) == Err::<(CodeTree, nat), CzipError>(e),
        },
    decreases b@.len() - off,
{
    let len = b.len();
    let ghost suffix = b@.skip(off as int);
    if off >= len {
        proof {
            assert(suffix.len() == 0);
        }
        return Err(CzipError::TruncatedStream);
    }
    proof {
        assert(suffix[0] == b@[off as int]);
    }
    let tag = b[off];
    if tag == 1 {
        if len - off < 2 {
            return Err(CzipError::TruncatedStream);
        }
        proof {
            assert(suffix[1] == b@[off as int + 1]);
        }
        Ok((CodeTree::Leaf(b[off + 1]), off + 2))
    } else if tag == 0 {
        proof {
            assert(suffix.drop_first() =~= b@.skip(off as int + 1));
        }
        match parse_tree_exec(b, off + 1) {
            Err(e) => Err(e),
            Ok((l, end_l)) => {
                let ghost nl = (end_l - (off + 1)) as nat;
                proof {
                    lemma_parse_tree_consumed(b@.skip(off as int + 1));
                    assert(1 + nl == end_l - off);
                    if 1 + nl >= suffix.len() {
                        assert(end_l >= len);
                        assert(end_l == len);
                    }
                    assert(suffix.skip(1 + nl as int) =~= b@.skip(end_l as int));
                }
                match parse_tree_exec(b, end_l) {
                    Err(e) => Err(e),
                    Ok((r, end_r)) => {
                        proof {
                            assert(parse_tree(suffix) == Ok::<(CodeTree, nat), CzipError>(
                                (
                                    CodeTree::Branch(Box::new(l), Box::new(r)),
                                    (1 + nl + (end_r - end_l)) as nat,
                                ),
                            ));
                        }
                        Ok((CodeTree::Branch(Box::new(l), Box::new(r)), end_r))
                    },
                }
            },
        }
    } else {
        Err(CzipError::CorruptStream)
    }
}

/// Reads the bit at absolute position `8 * bp + r` of `packed`.
fn walk_exec(t: &CodeTree, packed: &Vec<u8>, bp: usize, r: u8) -> (res: Result<(u8, usize, u8), CzipError>)
    requires
        r < 8,
        8 * bp + r <= 8 * packed@.len(),
    ensures
        ({
            let bits = crate::bits::unpack_spec(packed@);
            let pos = 8 * bp + r;
            match res {
                Ok(p) => {
                    &&& p.2 < 8
                    &&& pos <= 8 * p.1 + p.2 <= bits.len()
                    &&& walk(*t, bits.skip(pos as int)) == Some::<(u8, Seq<bool>)>(
                        (p.0, bits.skip(8 * p.1 + p.2)),
                    )
                },
                Err(e) => {
                    &&& walk(*t, bits.skip(pos as int)) == None::<(u8, Seq<bool>)>
                    &&& e == CzipError::CorruptStream
                },
            }
        }),
    decreases *t,
{
    let ghost bits = crate::bits::unpack_spec(packed@);
    let ghost pos = 8 * bp + r;
    match t {
        CodeTree::Leaf(v) => Ok((*v, bp, r)),
        CodeTree::Branch(l, rr) => {
            if bp >= packed.len() {
                proof {
                    assert(pos == 8 * packed@.len());
                    assert(bits.skip(pos as int).len() == 0);
                }
                return Err(CzipError::CorruptStream);
            }
            let bit = crate::bits::get_bit(packed, bp, r);
            let bp2: usize = if r == 7 {
                bp + 1
            } else {
                bp
            };
            let r2: u8 = if r == 7 {
                0
            } else {
                r + 1
            };
            proof {
                assert(8 * bp2 + r2 == pos + 1);
                assert(pos < bits.len());
                assert(bits.skip(pos as int)[0] == bits[pos as int]);
                assert(bits.skip(pos as int).drop_first() =~= bits.skip(pos as int + 1));
            }
            if bit {
                walk_exec(rr, packed, bp2, r2)
            } else {
                walk_exec(l, packed, bp2, r2)
            }
        },
    }
}

fn decode_sym_exec(t: &CodeTree, packed: &Vec<u8>, bp: usize, r: u8) -> (res: Result<(u8, usize, u8), CzipError>)
    requires
        r < 8,
        8 * bp + r <= 8 * packed@.len(),
    ensures
        ({
            let bits = crate::bits::unpack_spec(packed@);
            let pos = 8 * bp + r;
            match res {
                Ok(p) => {
                    &&& p.2 < 8
                    &&& pos <= 8 * p.1 + p.2 <= bits.len()
                    &&& decode_sym(*t, bits.skip(pos as int)) == Some::<(u8, Seq<bool>)>(
                        (p.0, bits.skip(8 * p.1 + p.2)),
                    )
                },
                Err(e) => {
                    &&& decode_sym(*t, bits.skip(pos as int)) == None::<(u8, Seq<bool>)>
                    &&& e == CzipError::CorruptStream
                },
            }
        }),
{
    let ghost bits = crate::bits::unpack_spec(packed@);
    let ghost pos = 8 * bp + r;
    match t {
        CodeTree::Leaf(v) => {
            if bp >= packed.len() {
                proof {
                    assert(pos == 8 * packed@.len());
                    assert(bits.skip(pos as int).len() == 0);
                }
                Err(CzipError::CorruptStream)
            } else {
                let bp2: usize = if r == 7 {
                    bp + 1
                } else {
                    bp
                };
                let r2: u8 = if r == 7 {
                    0
                } else {
                    r + 1
                };
                proof {
                    assert(8 * bp2 + r2 == pos + 1);
                    assert(pos < bits.len());
                    assert(bits.skip(pos as int).drop_first() =~= bits.skip(pos as int + 1));
                }
                Ok((*v, bp2, r2))
            }
        },
        CodeTree::Branch(_, _) => walk_exec(t, packed, bp, r),
    }
}

/// What decoding `count` symbols must return: the spec decode of the bit
/// stream, with a corrupt-stream error exactly when that decode fails.
pub open spec fn decode_syms_post(t: CodeTree, pk: Seq<u8>, n: nat, res: Result<Vec<u8>, CzipError>) -> bool {
    match res {
        Ok(v) => decode_syms(t, crate::bits::unpack_spec(pk), n) == Some::<Seq<u8>>(v@),
        Err(e) => decode_syms(t, crate::bits::unpack_spec(pk), n) == None::<Seq<u8>>
            && e == CzipError::CorruptStream,
    }
}

/// The decoding loop's accounting: what remains to decode from bit position
/// `pos`, prefixed by `out`, is the whole decode.
pub open spec fn decode_partial(t: CodeTree, bits: Seq<bool>, c: nat, pos: int, n: nat, out: Seq<u8>) -> bool {
    decode_syms(t, bits, c) == (match decode_syms(t, bits.skip(pos), (c - n) as nat) {
        None => None::<Seq<u8>>,
        Some(tail) => Some(out + tail),
    })
}

/// Decodes `count` symbols from the bit stream of `packed`, walking the tree
/// per bit; fails when the bits run out before a leaf.
pub fn decode_syms_exec(t: &CodeTree, b: &Vec<u8>, count: u64) -> (r: Result<Vec<u8>, CzipError>)
    ensures
        decode_syms_post(*t, b@, count as nat, r),
{
    let ghost bits = crate::bits::unpack_spec(b@);
    let mut out: Vec<u8> = Vec::new();
    let mut bp: usize = 0;
    let mut rbit: u8 = 0;
    let mut n: u64 = 0;
    proof {
        assert(bits.skip(0) =~= bits);
    }
    while n < count
        invariant
            n <= count,
            rbit < 8,
            8 * bp + rbit <= 8 * b@.len(),
            bits == crate::bits::unpack_spec(b@),
            decode_partial(*t, bits, count as nat, 8 * bp + rbit, n as nat, out@),
        decreases count - n,
    {
        let ghost pos = 8 * bp + rbit;
        match decode_sym_exec(t, b, bp, rbit) {
            Err(e) => {
                proof {
                    assert(decode_syms(*t, bits.skip(pos as int), (count - n) as nat)
                        == None::<Seq<u8>>);
                }
                return Err(e);
            },
            Ok((v, bp2, r2)) => {
                let ghost old_out = out@;
                out.push(v);
                proof {
                    let pos2 = 8 * bp2 + r2;
                    match decode_syms(*t, bits.skip(pos2 as int), (count - n - 1) as nat) {
                        None => {},
                        Some(tail) => {
                            assert(old_out + (seq![v] + tail) =~= out@ + tail);
                        },
                    }
                }
                bp = bp2;
                rbit = r2;
                n = n + 1;
            },
        }
    }
    proof {
        assert(decode_syms(*t, bits.skip(8 * bp + rbit), 0nat) == Some(Seq::<u8>::empty()));
        assert(out@ + Seq::<u8>::empty() =~= out@);
    }
    Ok(out)
}


/// `a` is a prefix of `b`.
pub open spec fn is_prefix(a: Seq<bool>, b: Seq<bool>) -> bool {
    a.len() <= b.len() && a == b.take(a.len() as int)
}

proof fn lemma_prefix_cons(h: bool, a: Seq<bool>, b: Seq<bool>)
    ensures
        is_prefix(seq![h] + a, seq![h] + b) == is_prefix(a, b),
{
    let ha = seq![h] + a;
    let hb = seq![h] + b;
    if is_prefix(a, b) {
        assert forall|i: int| 0 <= i < ha.len() implies ha[i] == #[trigger] hb.take(
            ha.len() as int,
        )[i] by {
            if i > 0 {
                assert(a[i - 1] == b.take(a.len() as int)[i - 1]);
            }
        };
        assert(ha =~= hb.take(ha.len() as int));
    }
    if is_prefix(ha, hb) {
        assert forall|i: int| 0 <= i < a.len() implies a[i] == #[trigger] b.take(
            a.len() as int,
        )[i] by {
            assert(ha[i + 1] == hb.take(ha.len() as int)[i + 1]);
        };
        assert(a =~= b.take(a.len() as int));
    }
}

proof fn lemma_code_prefix_free(t: CodeTree, x: u8, y: u8)
    requires
        ct_leaves(t).contains(x),
        ct_leaves(t).contains(y),
        x != y,
    ensures
        !is_prefix(code_of(t, x), code_of(t, y)),
    decreases t,
{
    match t {
        CodeTree::Leaf(u) => {
            let w = choose|w: int| 0 <= w < ct_leaves(t).len() && ct_leaves(t)[w] == x;
            let w2 = choose|w2: int| 0 <= w2 < ct_leaves(t).len() && ct_leaves(t)[w2] == y;
            assert(x == u && y == u);
        },
        CodeTree::Branch(l, r) => {
            let rx = ct_leaves(*r).contains(x);
            let ry = ct_leaves(*r).contains(y);
            let cx = code_of(t, x);
            let cy = code_of(t, y);
            if rx && ry {
                lemma_code_prefix_free(*r, x, y);
                lemma_prefix_cons(true, code_of(*r, x), code_of(*r, y));
            } else if !rx && !ry {
                lemma_concat_contains_split(ct_leaves(*l), ct_leaves(*r), x);
                lemma_concat_contains_split(ct_leaves(*l), ct_leaves(*r), y);
                lemma_code_prefix_free(*l, x, y);
                lemma_prefix_cons(false, code_of(*l, x), code_of(*l, y));
            } else {
                assert(cx.len() >= 1 && cy.len() >= 1);
                assert(cx[0] == rx && cy[0] == ry);
                if is_prefix(cx, cy) {
                    assert(cx[0] == cy.take(cx.len() as int)[0]);
                }
            }
        },
    }
}

/// Prefix-free property: in any code tree, the emitted code of one present
/// symbol is never a prefix of the emitted code of a different one, so
/// decoding is unambiguous.
pub proof fn lemma_prefix_free(t: CodeTree, x: u8, y: u8)
    requires
        ct_leaves(t).contains(x),
        ct_leaves(t).contains(y),
        x != y,
    ensures
        !is_prefix(full_code(t, x), full_code(t, y)),
{
    match t {
        CodeTree::Leaf(u) => {
            let w = choose|w: int| 0 <= w < ct_leaves(t).len() && ct_leaves(t)[w] == x;
            let w2 = choose|w2: int| 0 <= w2 < ct_leaves(t).len() && ct_leaves(t)[w2] == y;
            assert(x == u && y == u);
        },
        CodeTree::Branch(_, _) => {
            lemma_code_prefix_free(t, x, y);
        },
    }
}

} // verus!
