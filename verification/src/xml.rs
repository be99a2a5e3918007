//! The serialization bridge: a Merkle tree as structured text, one record per
//! node, so tree state can be shipped to another process, the local copy
//! shrunk, and the data restored later. A leaf record carries its digest and,
//! when present, its payload; a node record carries its digest and its two
//! child records. Digests and payload travel hex-encoded, so the text is
//! plain ASCII whatever the payload bytes are. Importing rebuilds the tree
//! verbatim and verifies nothing: call `verify()` on anything imported from
//! an unreliable source.

use vstd::prelude::*;
use crate::hash::HashValue;
use crate::merkle_tree::{MerkleTree, TreeView};

verus! {

/// The ASCII value of the hex digit for `n`.
pub open spec fn hexd(n: int) -> u8 {
    if n < 10 {
        ('0' as u8 + n) as u8
    } else {
        ('a' as u8 + n - 10) as u8
    }
}

/// Bytes hex-encoded: two lowercase digits each, high nibble first.
pub open spec fn hex_of(bs: Seq<u8>) -> Seq<u8>
    decreases bs.len(),
{
    if bs.len() == 0 {
        Seq::empty()
    } else {
        seq![hexd(bs[0] as int / 16), hexd(bs[0] as int % 16)] + hex_of(bs.skip(1))
    }
}

/// `<leaf hash="`
pub open spec fn leaf_open() -> Seq<u8> {
    seq![
        '<' as u8, 'l' as u8, 'e' as u8, 'a' as u8, 'f' as u8, ' ' as u8,
        'h' as u8, 'a' as u8, 's' as u8, 'h' as u8, '=' as u8, '"' as u8,
    ]
}

/// `" />`
pub open spec fn record_close() -> Seq<u8> {
    seq!['"' as u8, ' ' as u8, '/' as u8, '>' as u8]
}

/// `" data="`
pub open spec fn data_open() -> Seq<u8> {
    seq!['"' as u8, ' ' as u8, 'd' as u8, 'a' as u8, 't' as u8, 'a' as u8, '=' as u8, '"' as u8]
}

/// `<node hash="`
pub open spec fn node_open() -> Seq<u8> {
    seq![
        '<' as u8, 'n' as u8, 'o' as u8, 'd' as u8, 'e' as u8, ' ' as u8,
        'h' as u8, 'a' as u8, 's' as u8, 'h' as u8, '=' as u8, '"' as u8,
    ]
}

/// `"><left>`
pub open spec fn node_mid() -> Seq<u8> {
    seq!['"' as u8, '>' as u8, '<' as u8, 'l' as u8, 'e' as u8, 'f' as u8, 't' as u8, '>' as u8]
}

/// `</left><right>`
pub open spec fn node_between() -> Seq<u8> {
    seq![
        '<' as u8, '/' as u8, 'l' as u8, 'e' as u8, 'f' as u8, 't' as u8, '>' as u8,
        '<' as u8, 'r' as u8, 'i' as u8, 'g' as u8, 'h' as u8, 't' as u8, '>' as u8,
    ]
}

/// `</right></node>`
pub open spec fn node_close() -> Seq<u8> {
    seq![
        '<' as u8, '/' as u8, 'r' as u8, 'i' as u8, 'g' as u8, 'h' as u8, 't' as u8, '>' as u8,
        '<' as u8, '/' as u8, 'n' as u8, 'o' as u8, 'd' as u8, 'e' as u8, '>' as u8,
    ]
}

/// The canonical textual form of a tree: a pruned leaf is a `leaf` record
/// with its digest alone; a stored leaf adds its payload; an internal node
/// is a `node` record with its digest and the records of its two children.
pub open spec fn export_spec(t: TreeView) -> Seq<u8>
    decreases t,
{
    match t {
        TreeView::Leaf { hash, data: None } => leaf_open() + hex_of(hash) + record_close(),
        TreeView::Leaf { hash, data: Some(d) } => leaf_open() + hex_of(hash) + data_open()
            + hex_of(d) + record_close(),
        TreeView::Node { hash, left, right } => node_open() + hex_of(hash) + node_mid()
            + export_spec(*left) + node_between() + export_spec(*right) + node_close(),
    }
}

/// Builds `<leaf hash="`.
fn leaf_open_bytes() -> (r: Vec<u8>)
    ensures
        r@ == leaf_open(),
{
    let mut r: Vec<u8> = Vec::new();
    r.push('<' as u8);
    r.push('l' as u8);
    r.push('e' as u8);
    r.push('a' as u8);
    r.push('f' as u8);
    r.push(' ' as u8);
    r.push('h' as u8);
    r.push('a' as u8);
    r.push('s' as u8);
    r.push('h' as u8);
    r.push('=' as u8);
    r.push('"' as u8);
    proof {
        assert(r@ =~= leaf_open());
    }
    r
}

/// Builds `" />`.
fn record_close_bytes() -> (r: Vec<u8>)
    ensures
        r@ == record_close(),
{
    let mut r: Vec<u8> = Vec::new();
    r.push('"' as u8);
    r.push(' ' as u8);
    r.push('/' as u8);
    r.push('>' as u8);
    proof {
        assert(r@ =~= record_close());
    }
    r
}

/// Builds `" data="`.
fn data_open_bytes() -> (r: Vec<u8>)
    ensures
        r@ == data_open(),
{
    let mut r: Vec<u8> = Vec::new();
    r.push('"' as u8);
    r.push(' ' as u8);
    r.push('d' as u8);
    r.push('a' as u8);
    r.push('t' as u8);
    r.push('a' as u8);
    r.push('=' as u8);
    r.push('"' as u8);
    proof {
        assert(r@ =~= data_open());
    }
    r
}

/// Builds `<node hash="`.
fn node_open_bytes() -> (r: Vec<u8>)
    ensures
        r@ == node_open(),
{
    let mut r: Vec<u8> = Vec::new();
    r.push('<' as u8);
    r.push('n' as u8);
    r.push('o' as u8);
    r.push('d' as u8);
    r.push('e' as u8);
    r.push(' ' as u8);
    r.push('h' as u8);
    r.push('a' as u8);
    r.push('s' as u8);
    r.push('h' as u8);
    r.push('=' as u8);
    r.push('"' as u8);
    proof {
        assert(r@ =~= node_open());
    }
    r
}

/// Builds `"><left>`.
fn node_mid_bytes() -> (r: Vec<u8>)
    ensures
        r@ == node_mid(),
{
    let mut r: Vec<u8> = Vec::new();
    r.push('"' as u8);
    r.push('>' as u8);
    r.push('<' as u8);
    r.push('l' as u8);
    r.push('e' as u8);
    r.push('f' as u8);
    r.push('t' as u8);
    r.push('>' as u8);
    proof {
        assert(r@ =~= node_mid());
    }
    r
}

/// Builds `</left><right>`.
fn node_between_bytes() -> (r: Vec<u8>)
    ensures
        r@ == node_between(),
{
    let mut r: Vec<u8> = Vec::new();
    r.push('<' as u8);
    r.push('/' as u8);
    r.push('l' as u8);
    r.push('e' as u8);
    r.push('f' as u8);
    r.push('t' as u8);
    r.push('>' as u8);
    r.push('<' as u8);
    r.push('r' as u8);
    r.push('i' as u8);
    r.push('g' as u8);
    r.push('h' as u8);
    r.push('t' as u8);
    r.push('>' as u8);
    proof {
        assert(r@ =~= node_between());
    }
    r
}

/// Builds `</right></node>`.
fn node_close_bytes() -> (r: Vec<u8>)
    ensures
        r@ == node_close(),
{
    let mut r: Vec<u8> = Vec::new();
    r.push('<' as u8);
    r.push('/' as u8);
    r.push('r' as u8);
    r.push('i' as u8);
    r.push('g' as u8);
    r.push('h' as u8);
    r.push('t' as u8);
    r.push('>' as u8);
    r.push('<' as u8);
    r.push('/' as u8);
    r.push('n' as u8);
    r.push('o' as u8);
    r.push('d' as u8);
    r.push('e' as u8);
    r.push('>' as u8);
    proof {
        assert(r@ =~= node_close());
    }
    r
}

/// Hex-encodes bytes, two lowercase digits each.
fn hex_bytes(bs: &[u8]) -> (r: Vec<u8>)
    ensures
        r@ == hex_of(bs@),
    decreases bs@.len(),
{
    if bs.len() == 0 {
        let r: Vec<u8> = Vec::new();
        proof {
            assert(r@ =~= hex_of(bs@));
        }
        r
    } else {
        let b = *vstd::slice::slice_index_get(bs, 0);
        let mut r = hex_bytes(vstd::slice::slice_subrange(bs, 1, bs.len()));
        r.insert(0, hex_digit(b % 16));
        r.insert(0, hex_digit(b / 16));
        proof {
            assert(bs@.subrange(1, bs@.len() as int) =~= bs@.skip(1));
            assert(r@ =~= hex_of(bs@));
        }
        r
    }
}

/// The hex digit for a nibble.
fn hex_digit(n: u8) -> (r: u8)
    requires
        n < 16,
    ensures
        r == hexd(n as int),
{
    if n < 10 {
        '0' as u8 + n
    } else {
        'a' as u8 + (n - 10)
    }
}

/// Whether the document holds exactly `lit` at `pos`.
fn matches_at(s: &[u8], pos: usize, lit: &Vec<u8>) -> (r: bool)
    ensures
        r == (pos + lit@.len() <= s@.len() && s@.subrange(
            pos as int,
            pos as int + lit@.len(),
        ) == lit@),
{
    let slen = s.len();
    if pos > slen || lit.len() > slen - pos {
        return false;
    }
    let mut i: usize = 0;
    while i < lit.len()
        invariant
            i <= lit@.len(),
            slen == s@.len(),
            pos + lit@.len() <= s@.len(),
            forall|j: int| 0 <= j < i ==> s@[pos + j] == lit@[j],
        decreases lit@.len() - i,
    {
        if *vstd::slice::slice_index_get(s, pos + i) != lit[i] {
            return false;
        }
        i = i + 1;
    }
    proof {
        assert(s@.subrange(pos as int, pos as int + lit@.len()) =~= lit@);
    }
    true
}

/// Hex encoding doubles the length.
proof fn lemma_hex_of_len(bs: Seq<u8>)
    ensures
        hex_of(bs).len() == 2 * bs.len(),
    decreases bs.len(),
{
    if bs.len() > 0 {
        lemma_hex_of_len(bs.skip(1));
    }
}

/// No two nibbles share a hex digit.
proof fn lemma_hexd_injective(a: int, b: int)
    requires
        0 <= a < 16,
        0 <= b < 16,
        hexd(a) == hexd(b),
    ensures
        a == b,
{
}

/// Splits a known concatenation at a position: the bytes before the split
/// are the first part, the bytes after are the second.
proof fn lemma_peel(s: Seq<u8>, pos: int, a: Seq<u8>, b: Seq<u8>)
    requires
        0 <= pos <= s.len(),
        s.skip(pos) == a + b,
    ensures
        pos + a.len() <= s.len(),
        s.subrange(pos, pos + a.len()) == a,
        s.skip(pos + a.len()) == b,
        forall|i: int| 0 <= i < a.len() ==> s[pos + i] == a[i],
{
    assert(s.skip(pos).len() == s.len() - pos);
    assert forall|i: int| 0 <= i < a.len() implies s[pos + i] == a[i] by {
        assert(s.skip(pos)[i] == (a + b)[i]);
        assert((a + b)[i] == a[i]);
    }
    assert(s.subrange(pos, pos + a.len()) =~= a);
    assert forall|i: int| 0 <= i < b.len() implies s[pos + a.len() + i] == b[i] by {
        assert(s.skip(pos)[a.len() + i] == (a + b)[a.len() + i]);
        assert((a + b)[a.len() + i] == b[i]);
    }
    assert(s.skip(pos + a.len()) =~= b);
}

/// Whether a byte is one of the sixteen lowercase hex digits.
pub open spec fn is_hex_char(c: u8) -> bool {
    ('0' as u8 <= c && c <= '9' as u8) || ('a' as u8 <= c && c <= 'f' as u8)
}

/// Hex digits are hex digits.
proof fn lemma_hexd_is_hex(v: int)
    requires
        0 <= v < 16,
    ensures
        is_hex_char(hexd(v)),
{
}

/// A run of hex digits followed by something else reads off uniquely: two
/// decompositions of the same bytes into an encoded part and a non-hex tail
/// agree on both.
proof fn lemma_hex_run_unique(s: Seq<u8>, pos: int, x: Seq<u8>, rx: Seq<u8>, y: Seq<u8>, ry: Seq<u8>)
    requires
        0 <= pos <= s.len(),
        s.skip(pos) == hex_of(x) + rx,
        s.skip(pos) == hex_of(y) + ry,
        rx.len() == 0 || !is_hex_char(rx[0]),
        ry.len() == 0 || !is_hex_char(ry[0]),
    ensures
        x == y,
        rx == ry,
    decreases x.len(),
{
    lemma_hex_of_len(x);
    lemma_hex_of_len(y);
    if x.len() == 0 && y.len() == 0 {
        assert(rx =~= ry);
        assert(x =~= y);
    } else if x.len() == 0 {
        // The other side starts with a hex digit where this side's tail sits.
        lemma_peel(s, pos, seq![hexd(y[0] as int / 16), hexd(y[0] as int % 16)], hex_of(y.skip(1))
            + ry);
        assert(hex_of(y) + ry =~= seq![hexd(y[0] as int / 16), hexd(y[0] as int % 16)] + (hex_of(
            y.skip(1),
        ) + ry));
        assert(rx =~= s.skip(pos));
        assert(rx[0] == hexd(y[0] as int / 16));
        lemma_hexd_is_hex(y[0] as int / 16);
        assert(false);
    } else if y.len() == 0 {
        lemma_peel(s, pos, seq![hexd(x[0] as int / 16), hexd(x[0] as int % 16)], hex_of(x.skip(1))
            + rx);
        assert(hex_of(x) + rx =~= seq![hexd(x[0] as int / 16), hexd(x[0] as int % 16)] + (hex_of(
            x.skip(1),
        ) + rx));
        assert(ry =~= s.skip(pos));
        assert(ry[0] == hexd(x[0] as int / 16));
        lemma_hexd_is_hex(x[0] as int / 16);
        assert(false);
    } else {
        assert(hex_of(x) + rx =~= seq![hexd(x[0] as int / 16), hexd(x[0] as int % 16)] + (hex_of(
            x.skip(1),
        ) + rx));
        assert(hex_of(y) + ry =~= seq![hexd(y[0] as int / 16), hexd(y[0] as int % 16)] + (hex_of(
            y.skip(1),
        ) + ry));
        lemma_peel(s, pos, seq![hexd(x[0] as int / 16), hexd(x[0] as int % 16)], hex_of(x.skip(1))
            + rx);
        lemma_peel(s, pos, seq![hexd(y[0] as int / 16), hexd(y[0] as int % 16)], hex_of(y.skip(1))
            + ry);
        lemma_hexd_injective(x[0] as int / 16, y[0] as int / 16);
        lemma_hexd_injective(x[0] as int % 16, y[0] as int % 16);
        assert(x[0] == y[0]);
        lemma_hex_run_unique(s, pos + 2, x.skip(1), rx, y.skip(1), ry);
        assert(x =~= seq![x[0]] + x.skip(1));
        assert(y =~= seq![y[0]] + y.skip(1));
    }
}

/// Where a pruned leaf's form sits, these positions hold its pieces.
proof fn lemma_decompose_leaf_absent(s: Seq<u8>, pos: int, hash: Seq<u8>, rest: Seq<u8>)
    requires
        0 <= pos <= s.len(),
        hash.len() == 32,
        s.skip(pos) == export_spec(TreeView::Leaf { hash, data: None }) + rest,
    ensures
        pos + 80 <= s.len(),
        forall|i: int| 0 <= i < 12 ==> s[pos + i] == leaf_open()[i],
        s.skip(pos + 12) == hex_of(hash) + (record_close() + rest),
        s.subrange(pos + 12, pos + 76) == hex_of(hash),
        s.skip(pos + 76) == record_close() + rest,
        forall|i: int| 0 <= i < 4 ==> s[pos + 76 + i] == record_close()[i],
        s.skip(pos + 80) == rest,
        export_spec(TreeView::Leaf { hash, data: None }).len() == 80,
{
    let t = TreeView::Leaf { hash, data: None };
    lemma_hex_of_len(hash);
    assert(export_spec(t) + rest =~= leaf_open() + (hex_of(hash) + (record_close() + rest)));
    lemma_peel(s, pos, leaf_open(), hex_of(hash) + (record_close() + rest));
    lemma_peel(s, pos + 12, hex_of(hash), record_close() + rest);
    lemma_peel(s, pos + 76, record_close(), rest);
}

/// Where a stored leaf's form sits, these positions hold its pieces.
proof fn lemma_decompose_leaf_present(s: Seq<u8>, pos: int, hash: Seq<u8>, d: Seq<u8>, rest: Seq<u8>)
    requires
        0 <= pos <= s.len(),
        hash.len() == 32,
        s.skip(pos) == export_spec(TreeView::Leaf { hash, data: Some(d) }) + rest,
    ensures
        pos + 84 + 2 * d.len() + 4 <= s.len(),
        forall|i: int| 0 <= i < 12 ==> s[pos + i] == leaf_open()[i],
        s.skip(pos + 12) == hex_of(hash) + (data_open() + (hex_of(d) + (record_close() + rest))),
        s.subrange(pos + 12, pos + 76) == hex_of(hash),
        s.skip(pos + 76) == data_open() + (hex_of(d) + (record_close() + rest)),
        forall|i: int| 0 <= i < 8 ==> s[pos + 76 + i] == data_open()[i],
        s.skip(pos + 84) == hex_of(d) + (record_close() + rest),
        s.skip(pos + 84 + 2 * d.len()) == record_close() + rest,
        s.skip(pos + 84 + 2 * d.len() + 4) == rest,
        export_spec(TreeView::Leaf { hash, data: Some(d) }).len() == 88 + 2 * d.len(),
{
    let t = TreeView::Leaf { hash, data: Some(d) };
    lemma_hex_of_len(hash);
    lemma_hex_of_len(d);
    assert(export_spec(t) + rest =~= leaf_open() + (hex_of(hash) + (data_open() + (hex_of(d) + (
    record_close() + rest)))));
    lemma_peel(s, pos, leaf_open(), hex_of(hash) + (data_open() + (hex_of(d) + (record_close()
        + rest))));
    lemma_peel(s, pos + 12, hex_of(hash), data_open() + (hex_of(d) + (record_close() + rest)));
    lemma_peel(s, pos + 76, data_open(), hex_of(d) + (record_close() + rest));
    lemma_peel(s, pos + 84, hex_of(d), record_close() + rest);
    lemma_peel(s, pos + 84 + 2 * d.len(), record_close(), rest);
}

/// Where an internal node's form sits, these positions hold its pieces up to
/// its left child's record.
proof fn lemma_decompose_node(
    s: Seq<u8>,
    pos: int,
    hash: Seq<u8>,
    left: TreeView,
    right: TreeView,
    rest: Seq<u8>,
)
    requires
        0 <= pos <= s.len(),
        hash.len() == 32,
        s.skip(pos) == export_spec(
            TreeView::Node { hash, left: Box::new(left), right: Box::new(right) },
        ) + rest,
    ensures
        pos + 84 <= s.len(),
        forall|i: int| 0 <= i < 12 ==> s[pos + i] == node_open()[i],
        s.subrange(pos + 12, pos + 76) == hex_of(hash),
        s.skip(pos + 76) == node_mid() + (export_spec(left) + (node_between() + (export_spec(
            right,
        ) + (node_close() + rest)))),
        s.skip(pos + 84) == export_spec(left) + (node_between() + (export_spec(right) + (
        node_close() + rest))),
        export_spec(TreeView::Node { hash, left: Box::new(left), right: Box::new(right) }).len()
            == 113 + export_spec(left).len() + export_spec(right).len(),
{
    let t = TreeView::Node { hash, left: Box::new(left), right: Box::new(right) };
    lemma_hex_of_len(hash);
    assert(export_spec(t) + rest =~= node_open() + (hex_of(hash) + (node_mid() + (export_spec(
        left,
    ) + (node_between() + (export_spec(right) + (node_close() + rest)))))));
    lemma_peel(s, pos, node_open(), hex_of(hash) + (node_mid() + (export_spec(left) + (
    node_between() + (export_spec(right) + (node_close() + rest))))));
    lemma_peel(s, pos + 12, hex_of(hash), node_mid() + (export_spec(left) + (node_between() + (
    export_spec(right) + (node_close() + rest)))));
    lemma_peel(s, pos + 76, node_mid(), export_spec(left) + (node_between() + (export_spec(right)
        + (node_close() + rest))));
}

/// No canonical document is a prefix of another: two decompositions of the
/// same bytes into the form of a tree and a remainder agree on both. The
/// textual form therefore determines the tree.
#[verifier::rlimit(100)]
pub proof fn lemma_export_prefix_free(
    s: Seq<u8>,
    pos: int,
    a: TreeView,
    ra: Seq<u8>,
    b: TreeView,
    rb: Seq<u8>,
)
    requires
        0 <= pos <= s.len(),
        a.wf(),
        b.wf(),
        s.skip(pos) == export_spec(a) + ra,
        s.skip(pos) == export_spec(b) + rb,
    ensures
        a == b,
        ra == rb,
    decreases a,
{
    // The second byte of the record settles leaf against node.
    if (a is Leaf) != (b is Leaf) {
        match a {
            TreeView::Leaf { hash, data: None } => {
                lemma_decompose_leaf_absent(s, pos, hash, ra);
            },
            TreeView::Leaf { hash, data: Some(d) } => {
                lemma_decompose_leaf_present(s, pos, hash, d, ra);
            },
            TreeView::Node { hash, left, right } => {
                lemma_decompose_node(s, pos, hash, *left, *right, ra);
            },
        }
        match b {
            TreeView::Leaf { hash, data: None } => {
                lemma_decompose_leaf_absent(s, pos, hash, rb);
            },
            TreeView::Leaf { hash, data: Some(d) } => {
                lemma_decompose_leaf_present(s, pos, hash, d, rb);
            },
            TreeView::Node { hash, left, right } => {
                lemma_decompose_node(s, pos, hash, *left, *right, rb);
            },
        }
        assert(leaf_open()[1] == 'l' as u8 && node_open()[1] == 'n' as u8);
        assert(false);
    }
    let hpos = pos + 12;
    let after = hpos + 64;
    match (a, b) {
        (TreeView::Leaf { hash: ha, data: da }, TreeView::Leaf { hash: hb, data: db }) => {
            match da {
                None => {
                    lemma_decompose_leaf_absent(s, pos, ha, ra);
                },
                Some(d) => {
                    lemma_decompose_leaf_present(s, pos, ha, d, ra);
                },
            }
            match db {
                None => {
                    lemma_decompose_leaf_absent(s, pos, hb, rb);
                },
                Some(d) => {
                    lemma_decompose_leaf_present(s, pos, hb, d, rb);
                },
            }
            // The two digests occupy the same 64 bytes.
            lemma_hex_of_len(ha);
            lemma_hex_of_len(hb);
            match da {
                None => {
                    assert(s.skip(after) == record_close() + ra);
                    assert(s.skip(hpos) == hex_of(ha) + s.skip(after));
                },
                Some(d) => {
                    assert(s.skip(after) == data_open() + (hex_of(d) + (record_close() + ra)));
                    assert(s.skip(hpos) == hex_of(ha) + s.skip(after));
                },
            }
            match db {
                None => {
                    assert(s.skip(hpos) == hex_of(hb) + s.skip(after));
                },
                Some(d) => {
                    assert(s.skip(hpos) == hex_of(hb) + s.skip(after));
                },
            }
            assert(s.skip(after)[0] == '"' as u8);
            assert(!is_hex_char('"' as u8));
            lemma_hex_run_unique(s, hpos, ha, s.skip(after), hb, s.skip(after));
            // The byte after the digest settles plain close against data.
            match (da, db) {
                (None, None) => {},
                (None, Some(_)) => {
                    assert(s[after + 2] == record_close()[2]);
                    assert(s[after + 2] == data_open()[2]);
                    assert(false);
                },
                (Some(_), None) => {
                    assert(s[after + 2] == record_close()[2]);
                    assert(s[after + 2] == data_open()[2]);
                    assert(false);
                },
                (Some(xa), Some(xb)) => {
                    let dpos = after + 8;
                    assert(record_close()[0] == '"' as u8);
                    assert(!is_hex_char('"' as u8));
                    lemma_hex_run_unique(s, dpos, xa, record_close() + ra, xb, record_close()
                        + rb);
                },
            }
        },
        (
            TreeView::Node { hash: ha, left: la, right: raa },
            TreeView::Node { hash: hb, left: lb, right: rbb },
        ) => {
            lemma_decompose_node(s, pos, ha, *la, *raa, ra);
            lemma_decompose_node(s, pos, hb, *lb, *rbb, rb);
            lemma_hex_of_len(ha);
            lemma_hex_of_len(hb);
            assert(s.skip(hpos) == hex_of(ha) + s.skip(after));
            assert(s.skip(hpos) == hex_of(hb) + s.skip(after));
            assert(s.skip(after)[0] == '"' as u8);
            assert(!is_hex_char('"' as u8));
            lemma_hex_run_unique(s, hpos, ha, s.skip(after), hb, s.skip(after));
            let lpos = after + 8;
            lemma_export_prefix_free(
                s,
                lpos,
                *la,
                node_between() + (export_spec(*raa) + (node_close() + ra)),
                *lb,
                node_between() + (export_spec(*rbb) + (node_close() + rb)),
            );
            lemma_peel(s, lpos, export_spec(*la), node_between() + (export_spec(*raa) + (
            node_close() + ra)));
            let p1 = lpos + export_spec(*la).len();
            lemma_peel(s, p1, node_between(), export_spec(*raa) + (node_close() + ra));
            lemma_peel(s, p1, node_between(), export_spec(*rbb) + (node_close() + rb));
            let rpos = p1 + 14;
            lemma_export_prefix_free(s, rpos, *raa, node_close() + ra, *rbb, node_close() + rb);
            lemma_peel(s, rpos, export_spec(*raa), node_close() + ra);
            let p2 = rpos + export_spec(*raa).len();
            lemma_peel(s, p2, node_close(), ra);
            lemma_peel(s, p2, node_close(), rb);
            assert(a =~= b);
        },
        _ => {
            assert(false);
        },
    }
}

/// The textual form pins the tree down completely: no two well-formed trees
/// share one.
pub proof fn lemma_export_injective(a: TreeView, b: TreeView)
    requires
        a.wf(),
        b.wf(),
        export_spec(a) == export_spec(b),
    ensures
        a == b,
{
    let s = export_spec(a);
    assert(s.skip(0) =~= export_spec(a) + Seq::<u8>::empty());
    assert(s.skip(0) =~= export_spec(b) + Seq::<u8>::empty());
    lemma_export_prefix_free(s, 0, a, Seq::empty(), b, Seq::empty());
}

/// The nibble a hex digit stands for.
fn hex_val(c: u8) -> (r: Option<u8>)
    ensures
        r matches Some(v) ==> v < 16 && c == hexd(v as int),
        r is None ==> !is_hex_char(c),
        is_hex_char(c) ==> r is Some,
{
    if '0' as u8 <= c && c <= '9' as u8 {
        Some(c - '0' as u8)
    } else if 'a' as u8 <= c && c <= 'f' as u8 {
        Some(10 + (c - 'a' as u8))
    } else {
        None
    }
}

/// Reads exactly `count` hex-encoded bytes. When the document is known (as
/// a ghost fact) to hold the encoding of some bytes here, the read is owed:
/// it succeeds and hands back exactly those bytes.
fn parse_hex_fixed(
    s: &[u8],
    pos: usize,
    count: usize,
    expected: Ghost<Option<(Seq<u8>, Seq<u8>)>>,
) -> (r: Option<Vec<u8>>)
    requires
        pos <= s@.len(),
    ensures
        r matches Some(v) ==> {
            &&& v@.len() == count
            &&& pos + 2 * count <= s@.len()
            &&& hex_of(v@) == s@.subrange(pos as int, pos as int + 2 * count)
        },
        expected@ matches Some(pair) ==> ((pair.0.len() == count && s@.skip(pos as int) == hex_of(
            pair.0,
        ) + pair.1) ==> (r matches Some(v) && v@ == pair.0)),
    decreases count,
{
    let ghost (hyp, gh, grest): (bool, Seq<u8>, Seq<u8>) = match expected@ {
        Some((h, t)) => (h.len() == count && s@.skip(pos as int) == hex_of(h) + t, h, t),
        None => (false, Seq::empty(), Seq::empty()),
    };
    proof {
        if hyp {
            lemma_hex_of_len(gh);
            if count > 0 {
                let two = seq![hexd(gh[0] as int / 16), hexd(gh[0] as int % 16)];
                assert(hex_of(gh) + grest =~= two + (hex_of(gh.skip(1)) + grest));
                lemma_peel(s@, pos as int, two, hex_of(gh.skip(1)) + grest);
                lemma_hex_of_len(gh.skip(1));
            }
        }
    }
    if count == 0 {
        let v: Vec<u8> = Vec::new();
        proof {
            assert(hex_of(v@) =~= s@.subrange(pos as int, pos as int));
            if hyp {
                assert(v@ =~= gh);
            }
        }
        return Some(v);
    }
    if s.len() - pos < 2 {
        return None;
    }
    let d1 = hex_val(*vstd::slice::slice_index_get(s, pos));
    let d2 = hex_val(*vstd::slice::slice_index_get(s, pos + 1));
    match (d1, d2) {
        (Some(v1), Some(v2)) => {
            let b = v1 * 16 + v2;
            proof {
                if hyp {
                    lemma_hexd_injective(v1 as int, gh[0] as int / 16);
                    lemma_hexd_injective(v2 as int, gh[0] as int % 16);
                    assert(b == gh[0]);
                }
            }
            let ghost sub: Option<(Seq<u8>, Seq<u8>)> = if hyp {
                Some((gh.skip(1), grest))
            } else {
                None
            };
            match parse_hex_fixed(s, pos + 2, count - 1, Ghost(sub)) {
                None => None,
                Some(mut rest) => {
                    let ghost tail = rest@;
                    rest.insert(0, b);
                    proof {
                        assert(b as int / 16 == v1 as int && b as int % 16 == v2 as int);
                        assert(rest@.skip(1) =~= tail);
                        assert(hex_of(rest@) =~= s@.subrange(pos as int, pos as int + 2 * count));
                        if hyp {
                            assert(rest@ =~= gh);
                        }
                    }
                    Some(rest)
                },
            }
        },
        _ => None,
    }
}

/// Reads hex-encoded bytes up to the first byte that is not a hex digit.
/// When the document is known (as a ghost fact) to hold the encoding of
/// some bytes here, followed by something that is no hex digit, the read is
/// owed: it succeeds, hands back exactly those bytes, and stops exactly at
/// their end.
fn parse_hex_data(
    s: &[u8],
    pos: usize,
    expected: Ghost<Option<(Seq<u8>, Seq<u8>)>>,
) -> (r: Option<(Vec<u8>, usize)>)
    requires
        pos <= s@.len(),
    ensures
        r matches Some((v, p)) ==> {
            &&& pos <= p <= s@.len()
            &&& hex_of(v@) == s@.subrange(pos as int, p as int)
        },
        expected@ matches Some(pair) ==> ((s@.skip(pos as int) == hex_of(pair.0) + pair.1 && (
        pair.1.len() == 0 || !is_hex_char(pair.1[0]))) ==> (r matches Some((v, p)) && v@ == pair.0
            && p == pos + 2 * pair.0.len())),
    decreases s@.len() - pos,
{
    let ghost (hyp, gh, grest): (bool, Seq<u8>, Seq<u8>) = match expected@ {
        Some((h, t)) => (
            s@.skip(pos as int) == hex_of(h) + t && (t.len() == 0 || !is_hex_char(t[0])),
            h,
            t,
        ),
        None => (false, Seq::empty(), Seq::empty()),
    };
    proof {
        if hyp {
            lemma_hex_of_len(gh);
            if gh.len() > 0 {
                let two = seq![hexd(gh[0] as int / 16), hexd(gh[0] as int % 16)];
                assert(hex_of(gh) + grest =~= two + (hex_of(gh.skip(1)) + grest));
                lemma_peel(s@, pos as int, two, hex_of(gh.skip(1)) + grest);
                lemma_hex_of_len(gh.skip(1));
            } else {
                assert(s@.skip(pos as int) =~= grest);
            }
        }
    }
    if pos >= s.len() {
        let v: Vec<u8> = Vec::new();
        proof {
            assert(hex_of(v@) =~= s@.subrange(pos as int, pos as int));
            if hyp {
                assert(gh.len() == 0);
                assert(v@ =~= gh);
            }
        }
        return Some((v, pos));
    }
    match hex_val(*vstd::slice::slice_index_get(s, pos)) {
        None => {
            let v: Vec<u8> = Vec::new();
            proof {
                assert(hex_of(v@) =~= s@.subrange(pos as int, pos as int));
                if hyp {
                    if gh.len() > 0 {
                        assert(is_hex_char(s@[pos as int]));
                    }
                    assert(gh.len() == 0);
                    assert(v@ =~= gh);
                }
            }
            Some((v, pos))
        },
        Some(v1) => {
            proof {
                if hyp && gh.len() == 0 {
                    assert(s@[pos as int] == grest[0]);
                    assert(is_hex_char(s@[pos as int]));
                    assert(false);
                }
            }
            if s.len() - pos < 2 {
                return None;
            }
            match hex_val(*vstd::slice::slice_index_get(s, pos + 1)) {
                None => None,
                Some(v2) => {
                    let b = v1 * 16 + v2;
                    proof {
                        if hyp {
                            lemma_hexd_injective(v1 as int, gh[0] as int / 16);
                            lemma_hexd_injective(v2 as int, gh[0] as int % 16);
                            assert(b == gh[0]);
                        }
                    }
                    let ghost sub: Option<(Seq<u8>, Seq<u8>)> = if hyp {
                        Some((gh.skip(1), grest))
                    } else {
                        None
                    };
                    match parse_hex_data(s, pos + 2, Ghost(sub)) {
                        None => None,
                        Some((mut rest, p)) => {
                            let ghost tail = rest@;
                            rest.insert(0, b);
                            proof {
                                assert(b as int / 16 == v1 as int && b as int % 16 == v2 as int);
                                assert(rest@.skip(1) =~= tail);
                                assert(hex_of(rest@) =~= s@.subrange(pos as int, p as int));
                                if hyp {
                                    assert(rest@ =~= gh);
                                }
                            }
                            Some((rest, p))
                        },
                    }
                },
            }
        },
    }
}

/// One record of the document, starting at `pos`: a leaf record or a node
/// record with its two children. Two guarantees: whatever is accepted is
/// exactly the canonical textual form of the tree handed back; and when the
/// document is known (as a ghost fact) to hold the canonical form of some
/// tree here, the parse is owed: it succeeds, reproduces that tree, and
/// consumes exactly its form.
#[verifier::rlimit(100)]
fn parse_record(
    s: &[u8],
    pos: usize,
    expected: Ghost<Option<(TreeView, Seq<u8>)>>,
) -> (r: Option<(MerkleTree, usize)>)
    requires
        pos <= s@.len(),
    ensures
        r matches Some((t, p)) ==> {
            &&& pos < p <= s@.len()
            &&& s@.subrange(pos as int, p as int) == export_spec(t@)
            &&& t@.wf()
        },
        expected@ matches Some(pair) ==> ((pair.0.wf() && s@.skip(pos as int) == export_spec(
            pair.0,
        ) + pair.1) ==> (r matches Some((t, p)) && t@ == pair.0 && p == pos + export_spec(
            pair.0,
        ).len())),
    decreases s@.len() - pos,
{
    let slen = s.len();
    let ghost (hyp, gt, grest): (bool, TreeView, Seq<u8>) = match expected@ {
        Some((t, rest)) => (
            t.wf() && s@.skip(pos as int) == export_spec(t) + rest,
            t,
            rest,
        ),
        None => (false, TreeView::Leaf { hash: Seq::empty(), data: None }, Seq::empty()),
    };
    proof {
        if hyp {
            match gt {
                TreeView::Leaf { hash, data: None } => {
                    lemma_hex_of_len(hash);
                    assert(export_spec(gt) + grest =~= leaf_open() + (hex_of(hash) + (
                    record_close() + grest)));
                    lemma_peel(s@, pos as int, leaf_open(), hex_of(hash) + (record_close()
                        + grest));
                },
                TreeView::Leaf { hash, data: Some(d) } => {
                    lemma_hex_of_len(hash);
                    lemma_hex_of_len(d);
                    assert(export_spec(gt) + grest =~= leaf_open() + (hex_of(hash) + (data_open()
                        + (hex_of(d) + (record_close() + grest)))));
                    lemma_peel(s@, pos as int, leaf_open(), hex_of(hash) + (data_open() + (hex_of(
                        d,
                    ) + (record_close() + grest))));
                },
                TreeView::Node { hash, left, right } => {
                    lemma_hex_of_len(hash);
                    assert(export_spec(gt) + grest =~= node_open() + (hex_of(hash) + (node_mid()
                        + (export_spec(*left) + (node_between() + (export_spec(*right) + (
                    node_close() + grest)))))));
                    lemma_peel(s@, pos as int, node_open(), hex_of(hash) + (node_mid() + (
                    export_spec(*left) + (node_between() + (export_spec(*right) + (node_close()
                        + grest))))));
                    // The two record openers differ in their second byte, so
                    // a node record never looks like a leaf record.
                    assert(s@.subrange(pos as int, pos as int + 12) == node_open());
                    assert(node_open()[1] == 'n' as u8 && leaf_open()[1] == 'l' as u8);
                },
            }
        }
    }
    let lo = leaf_open_bytes();
    let no = node_open_bytes();
    let rc = record_close_bytes();
    if matches_at(s, pos, &lo) {
        let hpos = pos + lo.len();
        let ghost hash_expected: Option<(Seq<u8>, Seq<u8>)> = if hyp {
            match gt {
                TreeView::Leaf { hash, data: None } => Some((hash, record_close() + grest)),
                TreeView::Leaf { hash, data: Some(d) } => Some(
                    (hash, data_open() + (hex_of(d) + (record_close() + grest))),
                ),
                TreeView::Node { .. } => None,
            }
        } else {
            None
        };
        match parse_hex_fixed(s, hpos, 32, Ghost(hash_expected)) {
            None => None,
            Some(hash_bytes) => {
                let ghost hv = hash_bytes@;
                let after = hpos + 64;
                let dop = data_open_bytes();
                proof {
                    if hyp {
                        match gt {
                            TreeView::Leaf { hash, data: None } => {
                                lemma_peel(s@, hpos as int, hex_of(hash), record_close() + grest);
                                lemma_peel(s@, after as int, record_close(), grest);
                            },
                            TreeView::Leaf { hash, data: Some(d) } => {
                                lemma_peel(s@, hpos as int, hex_of(hash), data_open() + (hex_of(d)
                                    + (record_close() + grest)));
                                lemma_peel(s@, after as int, data_open(), hex_of(d) + (
                                record_close() + grest));
                                // A data attribute is not a record close: the
                                // third byte differs.
                                assert(s@[after as int + 2] == 'd' as u8);
                                if after + record_close().len() <= s@.len() && s@.subrange(
                                    after as int,
                                    after as int + record_close().len(),
                                ) == record_close() {
                                    assert(s@.subrange(
                                        after as int,
                                        after as int + record_close().len(),
                                    )[2] == s@[after as int + 2]);
                                    assert(false);
                                }
                            },
                            TreeView::Node { .. } => {},
                        }
                    }
                }
                if matches_at(s, after, &rc) {
                    let end = after + rc.len();
                    let t = MerkleTree::Leaf {
                        hash: HashValue::from_bytes(hash_bytes),
                        data: None,
                    };
                    proof {
                        assert(s@.subrange(pos as int, after as int) =~= leaf_open() + hex_of(hv));
                        assert(s@.subrange(pos as int, end as int) =~= s@.subrange(
                            pos as int,
                            after as int,
                        ) + s@.subrange(after as int, end as int));
                        assert(s@.subrange(pos as int, end as int) =~= export_spec(t@));
                        if hyp {
                            assert(t@ =~= gt);
                            lemma_hex_of_len(hv);
                        }
                    }
                    Some((t, end))
                } else if matches_at(s, after, &dop) {
                    let dpos = after + dop.len();
                    let ghost data_expected: Option<(Seq<u8>, Seq<u8>)> = if hyp {
                        match gt {
                            TreeView::Leaf { data: Some(d), .. } => Some(
                                (d, record_close() + grest),
                            ),
                            _ => None,
                        }
                    } else {
                        None
                    };
                    proof {
                        if hyp {
                            match gt {
                                TreeView::Leaf { hash, data: Some(d) } => {
                                    assert((record_close() + grest)[0] == '"' as u8);
                                    assert(!is_hex_char('"' as u8));
                                },
                                _ => {},
                            }
                        }
                    }
                    match parse_hex_data(s, dpos, Ghost(data_expected)) {
                        None => None,
                        Some((data_bytes, p2)) => {
                            let ghost dv = data_bytes@;
                            proof {
                                if hyp {
                                    match gt {
                                        TreeView::Leaf { hash, data: Some(d) } => {
                                            lemma_peel(s@, dpos as int, hex_of(d), record_close()
                                                + grest);
                                            lemma_peel(s@, p2 as int, record_close(), grest);
                                            lemma_hex_of_len(d);
                                        },
                                        _ => {},
                                    }
                                }
                            }
                            if matches_at(s, p2, &rc) {
                                let end = p2 + rc.len();
                                let t = MerkleTree::Leaf {
                                    hash: HashValue::from_bytes(hash_bytes),
                                    data: Some(data_bytes),
                                };
                                proof {
                                    assert(s@.subrange(pos as int, dpos as int) =~= leaf_open()
                                        + hex_of(hv) + data_open());
                                    assert(s@.subrange(pos as int, p2 as int) =~= s@.subrange(
                                        pos as int,
                                        dpos as int,
                                    ) + s@.subrange(dpos as int, p2 as int));
                                    assert(s@.subrange(pos as int, end as int) =~= s@.subrange(
                                        pos as int,
                                        p2 as int,
                                    ) + s@.subrange(p2 as int, end as int));
                                    assert(s@.subrange(pos as int, end as int) =~= export_spec(
                                        t@,
                                    ));
                                    if hyp {
                                        assert(t@ =~= gt);
                                        lemma_hex_of_len(hv);
                                        lemma_hex_of_len(dv);
                                    }
                                }
                                Some((t, end))
                            } else {
                                None
                            }
                        },
                    }
                } else {
                    None
                }
            },
        }
    } else if matches_at(s, pos, &no) {
        let hpos = pos + no.len();
        let ghost hash_expected: Option<(Seq<u8>, Seq<u8>)> = if hyp {
            match gt {
                TreeView::Node { hash, left, right } => Some(
                    (
                        hash,
                        node_mid() + (export_spec(*left) + (node_between() + (export_spec(*right)
                            + (node_close() + grest)))),
                    ),
                ),
                _ => None,
            }
        } else {
            None
        };
        match parse_hex_fixed(s, hpos, 32, Ghost(hash_expected)) {
            None => None,
            Some(hash_bytes) => {
                let ghost hv = hash_bytes@;
                let after = hpos + 64;
                let mid = node_mid_bytes();
                proof {
                    if hyp {
                        match gt {
                            TreeView::Node { hash, left, right } => {
                                lemma_peel(s@, hpos as int, hex_of(hash), node_mid() + (
                                export_spec(*left) + (node_between() + (export_spec(*right) + (
                                node_close() + grest)))));
                                lemma_peel(s@, after as int, node_mid(), export_spec(*left) + (
                                node_between() + (export_spec(*right) + (node_close() + grest))));
                            },
                            _ => {},
                        }
                    }
                }
                if !matches_at(s, after, &mid) {
                    return None;
                }
                let lpos = after + mid.len();
                let ghost left_expected: Option<(TreeView, Seq<u8>)> = if hyp {
                    match gt {
                        TreeView::Node { left, right, .. } => Some(
                            (
                                *left,
                                node_between() + (export_spec(*right) + (node_close() + grest)),
                            ),
                        ),
                        _ => None,
                    }
                } else {
                    None
                };
                match parse_record(s, lpos, Ghost(left_expected)) {
                    None => None,
                    Some((left_tree, p1)) => {
                        let between = node_between_bytes();
                        proof {
                            if hyp {
                                match gt {
                                    TreeView::Node { left, right, .. } => {
                                        lemma_peel(s@, lpos as int, export_spec(*left),
                                            node_between() + (export_spec(*right) + (node_close()
                                            + grest)));
                                        lemma_peel(s@, p1 as int, node_between(), export_spec(
                                            *right,
                                        ) + (node_close() + grest));
                                    },
                                    _ => {},
                                }
                            }
                        }
                        if !matches_at(s, p1, &between) {
                            return None;
                        }
                        let rpos = p1 + between.len();
                        let ghost right_expected: Option<(TreeView, Seq<u8>)> = if hyp {
                            match gt {
                                TreeView::Node { right, .. } => Some(
                                    (*right, node_close() + grest),
                                ),
                                _ => None,
                            }
                        } else {
                            None
                        };
                        match parse_record(s, rpos, Ghost(right_expected)) {
                            None => None,
                            Some((right_tree, p2)) => {
                                let close = node_close_bytes();
                                proof {
                                    if hyp {
                                        match gt {
                                            TreeView::Node { right, .. } => {
                                                lemma_peel(s@, rpos as int, export_spec(*right),
                                                    node_close() + grest);
                                                lemma_peel(s@, p2 as int, node_close(), grest);
                                            },
                                            _ => {},
                                        }
                                    }
                                }
                                if !matches_at(s, p2, &close) {
                                    return None;
                                }
                                let end = p2 + close.len();
                                let t = MerkleTree::Node {
                                    hash: HashValue::from_bytes(hash_bytes),
                                    left: Box::new(left_tree),
                                    right: Box::new(right_tree),
                                };
                                proof {
                                    assert(s@.subrange(pos as int, lpos as int) =~= node_open()
                                        + hex_of(hv) + node_mid());
                                    assert(s@.subrange(pos as int, p1 as int) =~= s@.subrange(
                                        pos as int,
                                        lpos as int,
                                    ) + s@.subrange(lpos as int, p1 as int));
                                    assert(s@.subrange(pos as int, rpos as int) =~= s@.subrange(
                                        pos as int,
                                        p1 as int,
                                    ) + s@.subrange(p1 as int, rpos as int));
                                    assert(s@.subrange(pos as int, p2 as int) =~= s@.subrange(
                                        pos as int,
                                        rpos as int,
                                    ) + s@.subrange(rpos as int, p2 as int));
                                    assert(s@.subrange(pos as int, end as int) =~= s@.subrange(
                                        pos as int,
                                        p2 as int,
                                    ) + s@.subrange(p2 as int, end as int));
                                    assert(s@.subrange(pos as int, end as int) =~= export_spec(
                                        t@,
                                    ));
                                    if hyp {
                                        assert(t@ =~= gt);
                                        lemma_hex_of_len(hv);
                                    }
                                }
                                Some((t, end))
                            },
                        }
                    },
                }
            },
        }
    } else {
        None
    }
}

impl MerkleTree {
    /// This tree in its textual form: the bytes of one self-contained ASCII
    /// document. Typically the document is stored elsewhere and the local
    /// tree shrunk with `shrink_to_minimum` to save memory; `import_xml`
    /// rebuilds the tree from it later.
    pub fn export_xml(&self) -> (r: Vec<u8>)
        ensures
            r@ == export_spec(self@),
    {
        let mut out: Vec<u8> = Vec::new();
        self.export_into(&mut out);
        out
    }

    /// Rebuilds a tree from its textual form, verbatim: the same digests,
    /// the same shape, the same payload present or absent at every leaf.
    /// Succeeds exactly on the canonical form of some tree and hands that
    /// tree back — importing what `export_xml` produced reproduces the
    /// exported tree — and returns `None` on every other document. Nothing
    /// is verified on the way in: when the document comes from an unreliable
    /// source, call `verify()` on the result before trusting it.
    pub fn import_xml(xml: &[u8]) -> (r: Option<MerkleTree>)
        ensures
            r matches Some(t) ==> xml@ == export_spec(t@) && t@.wf(),
            (exists|t: TreeView| t.wf() && xml@ == export_spec(t)) ==> r is Some,
            forall|t: TreeView|
                t.wf() && xml@ == #[trigger] export_spec(t) ==> (r matches Some(t2) && t2@ == t),
    {
        let ghost expected: Option<(TreeView, Seq<u8>)> = if exists|t: TreeView|
            t.wf() && xml@ == export_spec(t) {
            Some((choose|t: TreeView| t.wf() && xml@ == export_spec(t), Seq::empty()))
        } else {
            None
        };
        proof {
            if let Some((t, rest)) = expected {
                assert(xml@.skip(0) =~= export_spec(t) + rest);
            }
        }
        match parse_record(xml, 0, Ghost(expected)) {
            None => None,
            Some((t, p)) => {
                if p == xml.len() {
                    proof {
                        assert(xml@.subrange(0, xml@.len() as int) =~= xml@);
                        assert forall|tv: TreeView|
                            tv.wf() && xml@ == #[trigger] export_spec(tv) implies t@ == tv by {
                            lemma_export_injective(tv, t@);
                        }
                    }
                    Some(t)
                } else {
                    None
                }
            },
        }
    }

    /// Appends this tree's records to a document under construction.
    fn export_into(&self, out: &mut Vec<u8>)
        ensures
            final(out)@ == old(out)@ + export_spec(self@),
        decreases self,
    {
        match self {
            MerkleTree::Leaf { hash, data: None } => {
                let lit = leaf_open_bytes();
                out.extend_from_slice(lit.as_slice());
                let hx = hex_bytes(hash.bytes.as_slice());
                out.extend_from_slice(hx.as_slice());
                let close = record_close_bytes();
                out.extend_from_slice(close.as_slice());
                proof {
                    assert(final(out)@ =~= old(out)@ + export_spec(self@));
                }
            },
            MerkleTree::Leaf { hash, data: Some(d) } => {
                let lit = leaf_open_bytes();
                out.extend_from_slice(lit.as_slice());
                let hx = hex_bytes(hash.bytes.as_slice());
                out.extend_from_slice(hx.as_slice());
                let dop = data_open_bytes();
                out.extend_from_slice(dop.as_slice());
                let dx = hex_bytes(d.as_slice());
                out.extend_from_slice(dx.as_slice());
                let close = record_close_bytes();
                out.extend_from_slice(close.as_slice());
                proof {
                    assert(final(out)@ =~= old(out)@ + export_spec(self@));
                }
            },
            MerkleTree::Node { hash, left, right } => {
                let lit = node_open_bytes();
                out.extend_from_slice(lit.as_slice());
                let hx = hex_bytes(hash.bytes.as_slice());
                out.extend_from_slice(hx.as_slice());
                let mid = node_mid_bytes();
                out.extend_from_slice(mid.as_slice());
                left.export_into(out);
                let between = node_between_bytes();
                out.extend_from_slice(between.as_slice());
                right.export_into(out);
                let close = node_close_bytes();
                out.extend_from_slice(close.as_slice());
                proof {
                    assert(final(out)@ =~= old(out)@ + export_spec(self@));
                }
            },
        }
    }
}

} // verus!
