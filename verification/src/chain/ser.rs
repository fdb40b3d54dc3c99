//! Binary persistence of a model.
//!
//! Layout, all integers little-endian, all lengths exclusive of their own
//! field:
//!
//! ```text
//! Header:  b"chain:" | order:u8 | [ ':' | metadata:String ] | ';'
//! Dict:    count:u64 | count x String
//! Nodes:   count:u64 | count x Node
//! String:  len:u16 | len bytes (UTF-8); len > 65535 is a hard error
//! Node:    Key | EdgeTable
//! Key:     order x Symbol
//! EdgeTable: count:u64 | count x (Symbol, weight:u64)
//! Symbol:  tag:u8 (0 = word, then word-index:u32) | (1 = boundary)
//! ```
//!
//! A symbol's word index is the word's position in the dictionary section
//! of the same stream, not a stable cross-save identifier.

use vstd::arithmetic::div_mod::lemma_div_denominator;
use vstd::prelude::*;
use vstd::utf8::decode_utf8;
use vstd::utf8::encode_utf8;
use vstd::utf8::encode_utf8_decode_utf8;
use vstd::utf8::encode_utf8_valid_utf8;
use vstd::utf8::valid_utf8;

use super::Chain;
use super::ChainError;
use super::Edge;
use super::EdgeMap;
use super::Graph;
use super::GraphNode;
use super::Node;
use super::Token;
use super::dict::Dictionary;

verus! {

// ---------------------------------------------------------------------------
// Little-endian integers
// ---------------------------------------------------------------------------

pub open spec fn pow256(k: nat) -> int
    decreases k,
{
    if k == 0 {
        1
    } else {
        256 * pow256((k - 1) as nat)
    }
}

/// The `k` little-endian bytes of a non-negative integer.
pub open spec fn le_bytes(n: int, k: nat) -> Seq<u8> {
    Seq::new(k, |i: int| ((n / pow256(i as nat)) % 256) as u8)
}

/// The integer a little-endian byte sequence denotes.
pub open spec fn from_le(b: Seq<u8>) -> int
    decreases b.len(),
{
    if b.len() == 0 {
        0
    } else {
        b[0] + 256 * from_le(b.drop_first())
    }
}

pub proof fn lemma_pow256_pos(k: nat)
    ensures
        pow256(k) >= 1,
    decreases k,
{
    if k > 0 {
        lemma_pow256_pos((k - 1) as nat);
    }
}

/// Reading back the little-endian bytes of `n` yields `n`.
pub proof fn lemma_le_round_trip(n: int, k: nat)
    requires
        0 <= n < pow256(k),
    ensures
        from_le(le_bytes(n, k)) == n,
    decreases k,
{
    if k == 0 {
    } else {
        let b = le_bytes(n, k);
        assert(b[0] == (n % 256) as u8) by {
            assert(pow256(0) == 1);
        }
        assert(b.drop_first() =~= le_bytes(n / 256, (k - 1) as nat)) by {
            assert forall|i: int| 0 <= i < k - 1 implies b.drop_first()[i] == le_bytes(
                n / 256,
                (k - 1) as nat,
            )[i] by {
                lemma_pow256_pos(i as nat);
                lemma_div_denominator(n, 256, pow256(i as nat));
                assert(pow256((i + 1) as nat) == 256 * pow256(i as nat));
                assert(n / (256 * pow256(i as nat)) == (n / 256) / pow256(i as nat));
            }
        }
        assert(n / 256 < pow256((k - 1) as nat)) by {
            lemma_pow256_pos((k - 1) as nat);
            assert(pow256(k) == 256 * pow256((k - 1) as nat));
        }
        lemma_le_round_trip(n / 256, (k - 1) as nat);
        assert(n == 256 * (n / 256) + n % 256);
    }
}

/// The integer a `k`-byte field denotes is below `256^k`.
pub proof fn lemma_from_le_bound(b: Seq<u8>)
    ensures
        0 <= from_le(b) < pow256(b.len()),
    decreases b.len(),
{
    if b.len() > 0 {
        lemma_from_le_bound(b.drop_first());
    }
}

pub proof fn lemma_pow256_values()
    ensures
        pow256(2) == 0x10000,
        pow256(4) == 0x100000000,
        pow256(8) == 0x10000000000000000,
{
    assert(pow256(0) == 1);
    assert(pow256(1) == 256);
    assert(pow256(2) == 0x10000);
    assert(pow256(3) == 0x1000000);
    assert(pow256(4) == 0x100000000);
    assert(pow256(5) == 0x10000000000);
    assert(pow256(6) == 0x1000000000000);
    assert(pow256(7) == 0x100000000000000);
    assert(pow256(8) == 0x10000000000000000);
}

// ---------------------------------------------------------------------------
// Spec-level encoders
// ---------------------------------------------------------------------------

/// The magic bytes `chain:` that open every stream.
pub open spec fn magic() -> Seq<u8> {
    seq![99u8, 104u8, 97u8, 105u8, 110u8, 58u8]
}

/// The byte that introduces a header metadata string (`:`).
pub open spec fn colon() -> u8 {
    58u8
}

/// The byte that closes the header (`;`).
pub open spec fn semi() -> u8 {
    59u8
}

/// A string fits the format's 16-bit length field.
pub open spec fn str_fits(s: Seq<char>) -> bool {
    encode_utf8(s).len() <= 0xffff
}

/// Every word of the dictionary fits its length field.
pub open spec fn words_fit(words: Seq<Seq<char>>) -> bool {
    forall|i: int| 0 <= i < words.len() ==> str_fits(#[trigger] words[i])
}

pub open spec fn enc_str(s: Seq<char>) -> Seq<u8> {
    le_bytes(encode_utf8(s).len() as int, 2) + encode_utf8(s)
}

pub open spec fn enc_token(t: Token) -> Seq<u8> {
    match t {
        Some(id) => seq![0u8] + le_bytes(id as int, 4),
        None => seq![1u8],
    }
}

pub open spec fn enc_key(key: Seq<Token>) -> Seq<u8>
    decreases key.len(),
{
    if key.len() == 0 {
        Seq::empty()
    } else {
        enc_token(key[0]) + enc_key(key.drop_first())
    }
}

pub open spec fn enc_entries(es: Seq<Edge>) -> Seq<u8>
    decreases es.len(),
{
    if es.len() == 0 {
        Seq::empty()
    } else {
        enc_token(es[0].0) + le_bytes(es[0].1 as int, 8) + enc_entries(es.drop_first())
    }
}

pub open spec fn enc_node(n: GraphNode) -> Seq<u8> {
    enc_key(n.0) + le_bytes(n.1.len() as int, 8) + enc_entries(n.1)
}

pub open spec fn enc_nodes(g: Graph) -> Seq<u8>
    decreases g.len(),
{
    if g.len() == 0 {
        Seq::empty()
    } else {
        enc_node(g[0]) + enc_nodes(g.drop_first())
    }
}

pub open spec fn enc_words(words: Seq<Seq<char>>) -> Seq<u8>
    decreases words.len(),
{
    if words.len() == 0 {
        Seq::empty()
    } else {
        enc_str(words[0]) + enc_words(words.drop_first())
    }
}

pub open spec fn enc_header(order: u8, meta: Seq<char>) -> Seq<u8> {
    if meta.len() == 0 {
        magic() + seq![order] + seq![semi()]
    } else {
        magic() + seq![order] + seq![colon()] + enc_str(meta) + seq![semi()]
    }
}

/// The whole stream for one model.
pub open spec fn enc_model(meta: Seq<char>, order: u8, words: Seq<Seq<char>>, g: Graph) -> Seq<
    u8,
> {
    enc_header(order, meta) + le_bytes(words.len() as int, 8) + enc_words(words) + le_bytes(
        g.len() as int,
        8,
    ) + enc_nodes(g)
}

// ---------------------------------------------------------------------------
// Spec-level parsers
// ---------------------------------------------------------------------------

pub open spec fn take_u8(b: Seq<u8>, i: int) -> Option<(u8, int)> {
    if 0 <= i && i + 1 <= b.len() {
        Some((b[i], i + 1))
    } else {
        None
    }
}

/// A `k`-byte little-endian unsigned integer at position `i`.
pub open spec fn take_uint(b: Seq<u8>, i: int, k: nat) -> Option<(int, int)> {
    if 0 <= i && i + k <= b.len() {
        Some((from_le(b.subrange(i, i + k)), i + k))
    } else {
        None
    }
}

/// A length-prefixed UTF-8 string at position `i`.
pub open spec fn take_str(b: Seq<u8>, i: int) -> Option<(Seq<char>, int)> {
    match take_uint(b, i, 2) {
        None => None,
        Some((len, j)) => if j + len <= b.len() && valid_utf8(b.subrange(j, j + len)) {
            Some((decode_utf8(b.subrange(j, j + len)), j + len))
        } else {
            None
        },
    }
}

/// A symbol at position `i`: the raw word index is not yet translated
/// through the dictionary section. Only the two defined tag bytes parse;
/// any other tag is a format violation.
pub open spec fn take_token(b: Seq<u8>, i: int) -> Option<(Option<int>, int)> {
    match take_u8(b, i) {
        None => None,
        Some((tag, j)) => if tag == 1 {
            Some((None, j))
        } else if tag == 0 {
            match take_uint(b, j, 4) {
                None => None,
                Some((w, j2)) => Some((Some(w), j2)),
            }
        } else {
            None
        },
    }
}

pub open spec fn take_words(b: Seq<u8>, i: int, count: nat) -> Option<(Seq<Seq<char>>, int)>
    decreases count,
{
    if count == 0 {
        Some((Seq::empty(), i))
    } else {
        match take_str(b, i) {
            None => None,
            Some((w, j)) => match take_words(b, j, (count - 1) as nat) {
                None => None,
                Some((ws, j2)) => Some((seq![w] + ws, j2)),
            },
        }
    }
}

pub open spec fn take_key(b: Seq<u8>, i: int, order: nat) -> Option<(Seq<Option<int>>, int)>
    decreases order,
{
    if order == 0 {
        Some((Seq::empty(), i))
    } else {
        match take_token(b, i) {
            None => None,
            Some((t, j)) => match take_key(b, j, (order - 1) as nat) {
                None => None,
                Some((ts, j2)) => Some((seq![t] + ts, j2)),
            },
        }
    }
}

/// A raw edge: an untranslated symbol and its count.
pub type RawEdge = (Option<int>, int);

pub open spec fn take_entries(b: Seq<u8>, i: int, count: nat) -> Option<(Seq<RawEdge>, int)>
    decreases count,
{
    if count == 0 {
        Some((Seq::empty(), i))
    } else {
        match take_token(b, i) {
            None => None,
            Some((t, j)) => match take_uint(b, j, 8) {
                None => None,
                Some((w, j2)) => match take_entries(b, j2, (count - 1) as nat) {
                    None => None,
                    Some((es, j3)) => Some((seq![(t, w)] + es, j3)),
                },
            },
        }
    }
}

/// A raw node: an untranslated key and edge table.
pub type RawNode = (Seq<Option<int>>, Seq<RawEdge>);

pub open spec fn take_node(b: Seq<u8>, i: int, order: nat) -> Option<(RawNode, int)> {
    match take_key(b, i, order) {
        None => None,
        Some((key, j)) => match take_uint(b, j, 8) {
            None => None,
            Some((count, j2)) => match take_entries(b, j2, count as nat) {
                None => None,
                Some((es, j3)) => Some(((key, es), j3)),
            },
        },
    }
}

pub open spec fn take_nodes(b: Seq<u8>, i: int, count: nat, order: nat) -> Option<(
    Seq<RawNode>,
    int,
)>
    decreases count,
{
    if count == 0 {
        Some((Seq::empty(), i))
    } else {
        match take_node(b, i, order) {
            None => None,
            Some((n, j)) => match take_nodes(b, j, (count - 1) as nat, order) {
                None => None,
                Some((ns, j2)) => Some((seq![n] + ns, j2)),
            },
        }
    }
}

/// The header: magic bytes, order byte, optional metadata string,
/// terminator.
pub open spec fn take_header(b: Seq<u8>) -> Option<((u8, Seq<char>), int)> {
    if b.len() >= 6 && b.subrange(0, 6) == magic() {
        match take_u8(b, 6) {
            None => None,
            Some((order, j)) => match take_u8(b, j) {
                None => None,
                Some((next, j2)) => if next == semi() {
                    Some(((order, Seq::empty()), j2))
                } else if next == colon() {
                    match take_str(b, j2) {
                        None => None,
                        Some((meta, j3)) => match take_u8(b, j3) {
                            None => None,
                            Some((last, j4)) => if last == semi() {
                                Some(((order, meta), j4))
                            } else {
                                None
                            },
                        },
                    }
                } else {
                    None
                },
            },
        }
    } else {
        None
    }
}

// ---------------------------------------------------------------------------
// Translation and validation of parsed data
// ---------------------------------------------------------------------------

/// One raw symbol translated through the dictionary section's index map;
/// `None` when the index lies outside the section.
pub open spec fn raw_token_ok(t: Option<int>, map_len: int) -> bool {
    match t {
        Some(w) => 0 <= w < map_len,
        None => true,
    }
}

pub open spec fn trans_token(map: Seq<u32>, t: Option<int>) -> Token {
    match t {
        Some(w) => Some(map[w]),
        None => None,
    }
}

pub open spec fn raw_key_ok(key: Seq<Option<int>>, map_len: int) -> bool {
    forall|i: int| 0 <= i < key.len() ==> raw_token_ok(#[trigger] key[i], map_len)
}

pub open spec fn trans_key(map: Seq<u32>, key: Seq<Option<int>>) -> Seq<Token> {
    key.map_values(|t: Option<int>| trans_token(map, t))
}

/// A raw edge table is accepted when every index is in range, every
/// count is at least one and fits, the translated symbols are distinct,
/// the table is nonempty, and the counts' sum fits the 64-bit field.
pub open spec fn raw_entries_ok(es: Seq<RawEdge>, map: Seq<u32>) -> bool {
    &&& es.len() >= 1
    &&& forall|i: int| 0 <= i < es.len() ==> raw_token_ok((#[trigger] es[i]).0, map.len() as int)
    &&& forall|i: int| 0 <= i < es.len() ==> 1 <= (#[trigger] es[i]).1 < pow256(8)
    &&& super::distinct_tokens(trans_entries(map, es))
    &&& super::table_weight_sum(trans_entries(map, es)) <= u64::MAX as int
}

pub open spec fn trans_entries(map: Seq<u32>, es: Seq<RawEdge>) -> Seq<Edge> {
    es.map_values(|e: RawEdge| (trans_token(map, e.0), e.1 as u64))
}

/// All raw nodes translated and validated, in stream order.
pub open spec fn raw_nodes_ok(ns: Seq<RawNode>, map: Seq<u32>) -> bool {
    &&& forall|i: int| 0 <= i < ns.len() ==> raw_key_ok((#[trigger] ns[i]).0, map.len() as int)
    &&& forall|i: int| 0 <= i < ns.len() ==> raw_entries_ok((#[trigger] ns[i]).1, map)
    &&& super::distinct_keys(trans_nodes(map, ns))
}

pub open spec fn trans_nodes(map: Seq<u32>, ns: Seq<RawNode>) -> Graph {
    ns.map_values(|n: RawNode| (trans_key(map, n.0), trans_entries(map, n.1)))
}

/// The dictionary the stream's word list rebuilds: words are interned in
/// order, so duplicates collapse and the index map sends each stream
/// position to its word's fresh identifier.
pub open spec fn rebuilt_words(raw: Seq<Seq<char>>) -> Seq<Seq<char>> {
    super::intern_seq(Seq::empty(), raw)
}

pub open spec fn rebuilt_map(raw: Seq<Seq<char>>) -> Seq<u32> {
    super::ids_of(Seq::empty(), raw)
}

/// The parse of a whole stream for a caller expecting `order`: the
/// metadata, the rebuilt dictionary, and the translated graph — or
/// nothing, when the stream is malformed for that order.
pub open spec fn parse_model(b: Seq<u8>, order: int) -> Option<(Seq<char>, Seq<Seq<char>>, Graph)> {
    match take_header(b) {
        None => None,
        Some(((file_order, meta), i)) => if file_order as int != order {
            None
        } else {
            match take_uint(b, i, 8) {
                None => None,
                Some((wcount, j)) => match take_words(b, j, wcount as nat) {
                    None => None,
                    Some((raw_words, j2)) => match take_uint(b, j2, 8) {
                        None => None,
                        Some((ncount, j3)) => match take_nodes(b, j3, ncount as nat, order as nat) {
                            None => None,
                            Some((raw_nodes, _)) => {
                                let map = rebuilt_map(raw_words);
                                if raw_nodes_ok(raw_nodes, map) && rebuilt_words(raw_words).len()
                                    < u32::MAX as int {
                                    Some(
                                        (
                                            meta,
                                            rebuilt_words(raw_words),
                                            trans_nodes(map, raw_nodes),
                                        ),
                                    )
                                } else {
                                    None
                                }
                            },
                        },
                    },
                },
            }
        },
    }
}

// ---------------------------------------------------------------------------
// Folding one more element onto an encoded list
// ---------------------------------------------------------------------------

pub proof fn lemma_enc_words_push(words: Seq<Seq<char>>, w: Seq<char>)
    ensures
        enc_words(words.push(w)) == enc_words(words) + enc_str(w),
    decreases words.len(),
{
    let p = words.push(w);
    if words.len() == 0 {
        assert(p.drop_first() =~= Seq::<Seq<char>>::empty());
        assert(p[0] == w);
        assert(enc_words(p.drop_first()) == Seq::<u8>::empty());
        assert(enc_words(p) =~= enc_words(words) + enc_str(w));
    } else {
        assert(p.drop_first() =~= words.drop_first().push(w));
        assert(p[0] == words[0]);
        lemma_enc_words_push(words.drop_first(), w);
        assert(enc_words(p) =~= enc_words(words) + enc_str(w));
    }
}

pub proof fn lemma_enc_key_push(key: Seq<Token>, t: Token)
    ensures
        enc_key(key.push(t)) == enc_key(key) + enc_token(t),
    decreases key.len(),
{
    let p = key.push(t);
    if key.len() == 0 {
        assert(p.drop_first() =~= Seq::<Token>::empty());
        assert(p[0] == t);
        assert(enc_key(p.drop_first()) == Seq::<u8>::empty());
        assert(enc_key(p) =~= enc_key(key) + enc_token(t));
    } else {
        assert(p.drop_first() =~= key.drop_first().push(t));
        assert(p[0] == key[0]);
        lemma_enc_key_push(key.drop_first(), t);
        assert(enc_key(p) =~= enc_key(key) + enc_token(t));
    }
}

pub proof fn lemma_enc_entries_push(es: Seq<Edge>, e: Edge)
    ensures
        enc_entries(es.push(e)) == enc_entries(es) + enc_token(e.0) + le_bytes(e.1 as int, 8),
    decreases es.len(),
{
    let p = es.push(e);
    if es.len() == 0 {
        assert(p.drop_first() =~= Seq::<Edge>::empty());
        assert(p[0] == e);
        assert(enc_entries(p.drop_first()) == Seq::<u8>::empty());
        assert(enc_entries(p) =~= enc_entries(es) + enc_token(e.0) + le_bytes(e.1 as int, 8));
    } else {
        assert(p.drop_first() =~= es.drop_first().push(e));
        assert(p[0] == es[0]);
        lemma_enc_entries_push(es.drop_first(), e);
        assert(enc_entries(p) =~= enc_entries(es) + enc_token(e.0) + le_bytes(e.1 as int, 8));
    }
}

pub proof fn lemma_enc_nodes_push(g: Graph, n: GraphNode)
    ensures
        enc_nodes(g.push(n)) == enc_nodes(g) + enc_node(n),
    decreases g.len(),
{
    let p = g.push(n);
    if g.len() == 0 {
        assert(p.drop_first() =~= Seq::<GraphNode>::empty());
        assert(p[0] == n);
        assert(enc_nodes(p.drop_first()) == Seq::<u8>::empty());
        assert(enc_nodes(p) =~= enc_nodes(g) + enc_node(n));
    } else {
        assert(p.drop_first() =~= g.drop_first().push(n));
        assert(p[0] == g[0]);
        lemma_enc_nodes_push(g.drop_first(), n);
        assert(enc_nodes(p) =~= enc_nodes(g) + enc_node(n));
    }
}

// ---------------------------------------------------------------------------
// Executable writers
// ---------------------------------------------------------------------------

/// Unfolds the byte formulas for the fixed widths the format uses.
proof fn lemma_le_bytes_explicit(n: int)
    requires
        n >= 0,
    ensures
        le_bytes(n, 2) =~= seq![(n % 256) as u8, ((n / 256) % 256) as u8],
        le_bytes(n, 4) =~= seq![
            (n % 256) as u8,
            ((n / 256) % 256) as u8,
            ((n / 0x10000) % 256) as u8,
            ((n / 0x1000000) % 256) as u8,
        ],
        le_bytes(n, 8) =~= seq![
            (n % 256) as u8,
            ((n / 256) % 256) as u8,
            ((n / 0x10000) % 256) as u8,
            ((n / 0x1000000) % 256) as u8,
            ((n / 0x100000000) % 256) as u8,
            ((n / 0x10000000000) % 256) as u8,
            ((n / 0x1000000000000) % 256) as u8,
            ((n / 0x100000000000000) % 256) as u8,
        ],
{
    assert(pow256(0) == 1);
    assert(pow256(1) == 256);
    assert(pow256(2) == 0x10000);
    assert(pow256(3) == 0x1000000);
    assert(pow256(4) == 0x100000000);
    assert(pow256(5) == 0x10000000000);
    assert(pow256(6) == 0x1000000000000);
    assert(pow256(7) == 0x100000000000000);
}

fn write_u16(buf: &mut Vec<u8>, n: u16)
    ensures
        final(buf)@ == old(buf)@ + le_bytes(n as int, 2),
{
    buf.push((n % 256) as u8);
    buf.push(((n / 256) % 256) as u8);
    proof {
        lemma_le_bytes_explicit(n as int);
        assert(buf@ =~= old(buf)@ + le_bytes(n as int, 2));
    }
}

fn write_u32(buf: &mut Vec<u8>, n: u32)
    ensures
        final(buf)@ == old(buf)@ + le_bytes(n as int, 4),
{
    buf.push((n % 256) as u8);
    buf.push(((n / 256) % 256) as u8);
    buf.push(((n / 0x10000) % 256) as u8);
    buf.push(((n / 0x1000000) % 256) as u8);
    proof {
        lemma_le_bytes_explicit(n as int);
        assert(buf@ =~= old(buf)@ + le_bytes(n as int, 4));
    }
}

fn write_u64(buf: &mut Vec<u8>, n: u64)
    ensures
        final(buf)@ == old(buf)@ + le_bytes(n as int, 8),
{
    buf.push((n % 256) as u8);
    buf.push(((n / 256) % 256) as u8);
    buf.push(((n / 0x10000) % 256) as u8);
    buf.push(((n / 0x1000000) % 256) as u8);
    buf.push(((n / 0x100000000) % 256) as u8);
    buf.push(((n / 0x10000000000) % 256) as u8);
    buf.push(((n / 0x1000000000000) % 256) as u8);
    buf.push(((n / 0x100000000000000) % 256) as u8);
    proof {
        lemma_le_bytes_explicit(n as int);
        assert(buf@ =~= old(buf)@ + le_bytes(n as int, 8));
    }
}

/// Write one length-prefixed string; a string over the 16-bit length
/// limit is the format's one unencodable value.
fn write_str(buf: &mut Vec<u8>, s: &str) -> (r: Result<(), ChainError>)
    ensures
        match r {
            Ok(_) => str_fits(s@) && final(buf)@ == old(buf)@ + enc_str(s@),
            Err(e) => e == ChainError::StringTooLong && !str_fits(s@) && final(buf)@ == old(
                buf,
            )@,
        },
{
    let len = s.len();
    if len > 0xffff {
        return Err(ChainError::StringTooLong);
    }
    write_u16(buf, len as u16);
    let bytes = s.as_bytes();
    let ghost base = buf@;
    let n = bytes.len();
    for i in 0..n
        invariant
            n == bytes@.len(),
            bytes@ == encode_utf8(s@),
            buf@ == base + bytes@.take(i as int),
    {
        buf.push(bytes[i]);
        proof {
            assert(buf@ =~= base + bytes@.take(i + 1));
        }
    }
    proof {
        assert(bytes@.take(n as int) =~= bytes@);
        assert(buf@ =~= old(buf)@ + enc_str(s@));
    }
    Ok(())
}

fn write_token(buf: &mut Vec<u8>, t: Token)
    ensures
        final(buf)@ == old(buf)@ + enc_token(t),
{
    match t {
        Some(id) => {
            buf.push(0);
            write_u32(buf, id);
            proof {
                assert(buf@ =~= old(buf)@ + enc_token(t));
            }
        },
        None => {
            buf.push(1);
            proof {
                assert(buf@ =~= old(buf)@ + enc_token(t));
            }
        },
    }
}

impl Chain {
    /// Serialize the whole model. Fails exactly when the metadata or a
    /// dictionary word exceeds the format's 16-bit string length limit.
    pub fn save_to_bytes(&self) -> (r: Result<Vec<u8>, ChainError>)
        requires
            self.wf(),
        ensures
            match r {
                Ok(b) => str_fits(self.spec_meta()) && words_fit(self.words()) && b@ == enc_model(
                    self.spec_meta(),
                    self.spec_order() as u8,
                    self.words(),
                    self.graph(),
                ),
                Err(e) => e == ChainError::StringTooLong && !(str_fits(self.spec_meta())
                    && words_fit(self.words())),
            },
    {
        let ghost meta = self.spec_meta();
        let ghost words = self.words();
        let ghost g = self.graph();
        let mut buf: Vec<u8> = Vec::with_capacity(self.capacity_estimate());

        // Header.
        buf.push(99);
        buf.push(104);
        buf.push(97);
        buf.push(105);
        buf.push(110);
        buf.push(58);
        buf.push(self.order as u8);
        if !self.metadata.as_str().is_empty() {
            buf.push(58);
            match write_str(&mut buf, self.metadata.as_str()) {
                Ok(_) => {},
                Err(e) => {
                    return Err(e);
                },
            }
        } else {
            proof {
                assert(encode_utf8(meta) =~= Seq::<u8>::empty());
            }
        }
        buf.push(59);
        proof {
            assert(buf@ =~= enc_header(self.spec_order() as u8, meta));
        }
        let ghost after_header = buf@;

        // Dictionary section.
        let wcount = self.dict.len();
        write_u64(&mut buf, wcount as u64);
        let ghost dict_base = buf@;
        assert(enc_words(words.take(0)) == Seq::<u8>::empty()) by {
            assert(words.take(0) =~= Seq::<Seq<char>>::empty());
        }
        for i in 0..wcount
            invariant
                self.wf(),
                wcount == words.len(),
                words == self.words(),
                buf@ == dict_base + enc_words(words.take(i as int)),
                forall|k: int| 0 <= k < i ==> str_fits(#[trigger] words[k]),
        {
            let w = self.dict.word_at(i);
            match write_str(&mut buf, w.as_str()) {
                Ok(_) => {},
                Err(e) => {
                    return Err(e);
                },
            }
            proof {
                assert(words.take(i + 1) =~= words.take(i as int).push(words[i as int]));
                lemma_enc_words_push(words.take(i as int), words[i as int]);
            }
        }
        proof {
            assert(words.take(wcount as int) =~= words);
        }

        // Node section.
        let ncount = self.nodes.len();
        write_u64(&mut buf, ncount as u64);
        let ghost nodes_base = buf@;
        assert(enc_nodes(g.take(0)) == Seq::<u8>::empty()) by {
            assert(g.take(0) =~= Seq::<GraphNode>::empty());
        }
        for i in 0..ncount
            invariant
                self.wf(),
                ncount == g.len(),
                g == self.graph(),
                buf@ == nodes_base + enc_nodes(g.take(i as int)),
        {
            let ghost node = g[i as int];
            let ghost key_base = buf@;
            let klen = self.nodes[i].key.len();
            assert(enc_key(node.0.take(0)) == Seq::<u8>::empty()) by {
                assert(node.0.take(0) =~= Seq::<Token>::empty());
            }
            for x in 0..klen
                invariant
                    self.wf(),
                    ncount == g.len(),
                    g == self.graph(),
                    i < ncount,
                    node == g[i as int],
                    klen == node.0.len(),
                    node.0 == self.nodes@[i as int].key@,
                    buf@ == key_base + enc_key(node.0.take(x as int)),
            {
                write_token(&mut buf, self.nodes[i].key[x]);
                proof {
                    assert(node.0.take(x + 1) =~= node.0.take(x as int).push(node.0[x as int]));
                    lemma_enc_key_push(node.0.take(x as int), node.0[x as int]);
                }
            }
            proof {
                assert(node.0.take(klen as int) =~= node.0);
            }
            let elen = self.nodes[i].table.entries.len();
            write_u64(&mut buf, elen as u64);
            let ghost entries_base = buf@;
            assert(enc_entries(node.1.take(0)) == Seq::<u8>::empty()) by {
                assert(node.1.take(0) =~= Seq::<Edge>::empty());
            }
            for x in 0..elen
                invariant
                    self.wf(),
                    ncount == g.len(),
                    g == self.graph(),
                    i < ncount,
                    node == g[i as int],
                    elen == node.1.len(),
                    node.1 == self.nodes@[i as int].table.entries@,
                    buf@ == entries_base + enc_entries(node.1.take(x as int)),
            {
                let e = self.nodes[i].table.entries[x];
                write_token(&mut buf, e.0);
                write_u64(&mut buf, e.1);
                proof {
                    assert(node.1.take(x + 1) =~= node.1.take(x as int).push(node.1[x as int]));
                    lemma_enc_entries_push(node.1.take(x as int), node.1[x as int]);
                }
            }
            proof {
                assert(node.1.take(elen as int) =~= node.1);
                assert(buf@ =~= nodes_base + enc_nodes(g.take(i as int)) + enc_node(node));
                assert(g.take(i + 1) =~= g.take(i as int).push(node));
                lemma_enc_nodes_push(g.take(i as int), node);
            }
        }
        proof {
            assert(g.take(ncount as int) =~= g);
            assert(buf@ =~= enc_model(meta, self.spec_order() as u8, words, g));
        }
        Ok(buf)
    }
}

// ---------------------------------------------------------------------------
// Executable readers
// ---------------------------------------------------------------------------

proof fn lemma_from_le_2(s: Seq<u8>)
    requires
        s.len() == 2,
    ensures
        from_le(s) == s[0] + 256 * s[1],
{
    let d1 = s.drop_first();
    let d2 = d1.drop_first();
    assert(d1.len() == 1 && d1[0] == s[1]);
    assert(d2.len() == 0);
    assert(from_le(s) == s[0] + 256 * from_le(d1));
    assert(from_le(d1) == d1[0] + 256 * from_le(d2));
    assert(from_le(d2) == 0);
}

proof fn lemma_from_le_4(s: Seq<u8>)
    requires
        s.len() == 4,
    ensures
        from_le(s) == s[0] + 256 * (s[1] + 256 * (s[2] + 256 * s[3])),
{
    let d1 = s.drop_first();
    let d2 = d1.drop_first();
    let d3 = d2.drop_first();
    let d4 = d3.drop_first();
    assert(d1[0] == s[1] && d2[0] == s[2] && d3[0] == s[3]);
    assert(from_le(s) == s[0] + 256 * from_le(d1));
    assert(from_le(d1) == d1[0] + 256 * from_le(d2));
    assert(from_le(d2) == d2[0] + 256 * from_le(d3));
    assert(from_le(d3) == d3[0] + 256 * from_le(d4));
    assert(d4.len() == 0);
    assert(from_le(d4) == 0);
}

proof fn lemma_from_le_8(s: Seq<u8>)
    requires
        s.len() == 8,
    ensures
        from_le(s) == s[0] + 256 * (s[1] + 256 * (s[2] + 256 * (s[3] + 256 * (s[4] + 256 * (s[5]
            + 256 * (s[6] + 256 * s[7])))))),
{
    let d1 = s.drop_first();
    let d2 = d1.drop_first();
    let d3 = d2.drop_first();
    let d4 = d3.drop_first();
    let d5 = d4.drop_first();
    let d6 = d5.drop_first();
    let d7 = d6.drop_first();
    let d8 = d7.drop_first();
    assert(d1[0] == s[1] && d2[0] == s[2] && d3[0] == s[3] && d4[0] == s[4] && d5[0] == s[5]
        && d6[0] == s[6] && d7[0] == s[7]);
    assert(from_le(s) == s[0] + 256 * from_le(d1));
    assert(from_le(d1) == d1[0] + 256 * from_le(d2));
    assert(from_le(d2) == d2[0] + 256 * from_le(d3));
    assert(from_le(d3) == d3[0] + 256 * from_le(d4));
    assert(from_le(d4) == d4[0] + 256 * from_le(d5));
    assert(from_le(d5) == d5[0] + 256 * from_le(d6));
    assert(from_le(d6) == d6[0] + 256 * from_le(d7));
    assert(from_le(d7) == d7[0] + 256 * from_le(d8));
    assert(d8.len() == 0);
    assert(from_le(d8) == 0);
}

fn read_u8(bytes: &Vec<u8>, pos: usize) -> (r: Result<(u8, usize), ChainError>)
    ensures
        match r {
            Ok((v, j)) => take_u8(bytes@, pos as int) == Some((v, j as int)) && j == pos + 1,
            Err(e) => take_u8(bytes@, pos as int) is None && e == ChainError::UnexpectedEof,
        },
{
    if pos < bytes.len() {
        Ok((bytes[pos], pos + 1))
    } else {
        Err(ChainError::UnexpectedEof)
    }
}

fn read_u16(bytes: &Vec<u8>, pos: usize) -> (r: Result<(u16, usize), ChainError>)
    ensures
        match r {
            Ok((v, j)) => take_uint(bytes@, pos as int, 2) == Some((v as int, j as int)) && j
                == pos + 2,
            Err(e) => take_uint(bytes@, pos as int, 2) is None && e == ChainError::UnexpectedEof,
        },
{
    if bytes.len() < 2 || pos > bytes.len() - 2 {
        return Err(ChainError::UnexpectedEof);
    }
    let b0 = bytes[pos];
    let b1 = bytes[pos + 1];
    let v: u16 = b0 as u16 + 256 * (b1 as u16);
    proof {
        let s = bytes@.subrange(pos as int, pos + 2);
        assert(s[0] == b0 && s[1] == b1);
        lemma_from_le_2(s);
    }
    Ok((v, pos + 2))
}

fn read_u32(bytes: &Vec<u8>, pos: usize) -> (r: Result<(u32, usize), ChainError>)
    ensures
        match r {
            Ok((v, j)) => take_uint(bytes@, pos as int, 4) == Some((v as int, j as int)) && j
                == pos + 4,
            Err(e) => take_uint(bytes@, pos as int, 4) is None && e == ChainError::UnexpectedEof,
        },
{
    if bytes.len() < 4 || pos > bytes.len() - 4 {
        return Err(ChainError::UnexpectedEof);
    }
    let b0 = bytes[pos];
    let b1 = bytes[pos + 1];
    let b2 = bytes[pos + 2];
    let b3 = bytes[pos + 3];
    let v: u32 = b0 as u32 + 256 * (b1 as u32 + 256 * (b2 as u32 + 256 * (b3 as u32)));
    proof {
        let s = bytes@.subrange(pos as int, pos + 4);
        assert(s[0] == b0 && s[1] == b1 && s[2] == b2 && s[3] == b3);
        lemma_from_le_4(s);
    }
    Ok((v, pos + 4))
}

fn read_u64(bytes: &Vec<u8>, pos: usize) -> (r: Result<(u64, usize), ChainError>)
    ensures
        match r {
            Ok((v, j)) => take_uint(bytes@, pos as int, 8) == Some((v as int, j as int)) && j
                == pos + 8,
            Err(e) => take_uint(bytes@, pos as int, 8) is None && e == ChainError::UnexpectedEof,
        },
{
    if bytes.len() < 8 || pos > bytes.len() - 8 {
        return Err(ChainError::UnexpectedEof);
    }
    let b0 = bytes[pos];
    let b1 = bytes[pos + 1];
    let b2 = bytes[pos + 2];
    let b3 = bytes[pos + 3];
    let b4 = bytes[pos + 4];
    let b5 = bytes[pos + 5];
    let b6 = bytes[pos + 6];
    let b7 = bytes[pos + 7];
    let v: u64 = b0 as u64 + 256 * (b1 as u64 + 256 * (b2 as u64 + 256 * (b3 as u64 + 256 * (
    b4 as u64 + 256 * (b5 as u64 + 256 * (b6 as u64 + 256 * (b7 as u64)))))));
    proof {
        let s = bytes@.subrange(pos as int, pos + 8);
        assert(s[0] == b0 && s[1] == b1 && s[2] == b2 && s[3] == b3 && s[4] == b4 && s[5] == b5
            && s[6] == b6 && s[7] == b7);
        lemma_from_le_8(s);
    }
    Ok((v, pos + 8))
}

/// Relies on std's `String::from_utf8`: succeeds exactly on valid UTF-8
/// and decodes the bytes to the characters they encode.
#[verifier::external_body]
fn bytes_to_string(v: Vec<u8>) -> (r: Option<String>)
    ensures
        match r {
            Some(s) => valid_utf8(v@) && s@ == decode_utf8(v@),
            None => !valid_utf8(v@),
        },
{
    match String::from_utf8(v) {
        Ok(s) => Some(s),
        Err(_) => None,
    }
}

fn read_str(bytes: &Vec<u8>, pos: usize) -> (r: Result<(String, usize), ChainError>)
    ensures
        match r {
            Ok((s, j)) => take_str(bytes@, pos as int) == Some((s@, j as int)) && pos < j
                <= bytes@.len(),
            Err(e) => take_str(bytes@, pos as int) is None && (e == ChainError::UnexpectedEof
                || e == ChainError::InvalidUtf8),
        },
{
    let (len16, p) = match read_u16(bytes, pos) {
        Ok(v) => v,
        Err(e) => {
            return Err(e);
        },
    };
    let len = len16 as usize;
    let blen = bytes.len();
    if len > blen - p {
        return Err(ChainError::UnexpectedEof);
    }
    let mut raw: Vec<u8> = Vec::new();
    for k in 0..len
        invariant
            p + len <= blen,
            blen == bytes@.len(),
            raw@ == bytes@.subrange(p as int, p + k),
    {
        raw.push(bytes[p + k]);
        proof {
            assert(raw@ =~= bytes@.subrange(p as int, p + k + 1));
        }
    }
    proof {
        assert(raw@ == bytes@.subrange(p as int, p + len));
    }
    match bytes_to_string(raw) {
        Some(s) => Ok((s, p + len)),
        None => Err(ChainError::InvalidUtf8),
    }
}

/// One symbol: tag byte, then a word index when the tag marks a word.
/// A tag that is neither the word tag nor the boundary tag is a hard
/// error.
fn read_token(bytes: &Vec<u8>, pos: usize) -> (r: Result<(Option<u32>, usize), ChainError>)
    ensures
        match r {
            Ok((t, j)) => take_token(bytes@, pos as int) == Some(
                (
                    match t {
                        Some(w) => Some(w as int),
                        None => None,
                    },
                    j as int,
                ),
            ) && pos < j <= bytes@.len(),
            Err(e) => take_token(bytes@, pos as int) is None && (e
                == ChainError::UnexpectedEof || e == ChainError::BadSymbolTag),
        },
{
    let (tag, p) = match read_u8(bytes, pos) {
        Ok(v) => v,
        Err(e) => {
            return Err(e);
        },
    };
    if tag == 1 {
        Ok((None, p))
    } else if tag == 0 {
        match read_u32(bytes, p) {
            Ok((w, p2)) => Ok((Some(w), p2)),
            Err(e) => Err(e),
        }
    } else {
        Err(ChainError::BadSymbolTag)
    }
}

/// Read and check the header: magic bytes, order, optional metadata,
/// terminator. Returns the order, the metadata, and the position just
/// after the header.
pub fn read_header(bytes: &Vec<u8>) -> (r: Result<(u8, String, usize), ChainError>)
    ensures
        match r {
            Ok((order, meta, j)) => take_header(bytes@) == Some(((order, meta@), j as int)),
            Err(e) => take_header(bytes@) is None,
        },
{
    if bytes.len() < 6 {
        return Err(ChainError::UnexpectedEof);
    }
    if bytes[0] != 99 || bytes[1] != 104 || bytes[2] != 97 || bytes[3] != 105 || bytes[4] != 110
        || bytes[5] != 58 {
        proof {
            if bytes@.subrange(0, 6) == magic() {
                assert(bytes@[0] == 99 && bytes@[1] == 104 && bytes@[2] == 97 && bytes@[3] == 105
                    && bytes@[4] == 110 && bytes@[5] == 58) by {
                    assert(forall|i: int|
                        0 <= i < 6 ==> bytes@.subrange(0, 6)[i] == bytes@[i]);
                }
            }
        }
        return Err(ChainError::BadMagic);
    }
    proof {
        assert(bytes@.subrange(0, 6) =~= magic());
    }
    let (order, p) = match read_u8(bytes, 6) {
        Ok(v) => v,
        Err(e) => {
            return Err(e);
        },
    };
    let (next, p2) = match read_u8(bytes, p) {
        Ok(v) => v,
        Err(e) => {
            return Err(e);
        },
    };
    if next == 59 {
        Ok((order, String::new(), p2))
    } else if next == 58 {
        let (meta, p3) = match read_str(bytes, p2) {
            Ok(v) => v,
            Err(e) => {
                return Err(e);
            },
        };
        let (last, p4) = match read_u8(bytes, p3) {
            Ok(v) => v,
            Err(e) => {
                return Err(e);
            },
        };
        if last == 59 {
            Ok((order, meta, p4))
        } else {
            Err(ChainError::BadHeader)
        }
    } else {
        Err(ChainError::BadHeader)
    }
}

// ---------------------------------------------------------------------------
// Reading and validating one node's parts
// ---------------------------------------------------------------------------

/// The spec-level value of a raw key the reader produced.
pub open spec fn raw_key_view(key: Seq<Option<u32>>) -> Seq<Option<int>> {
    key.map_values(
        |t: Option<u32>|
            match t {
                Some(w) => Some(w as int),
                None => None,
            },
    )
}

/// The spec-level value of raw edges the reader produced.
pub open spec fn raw_edges_view(es: Seq<(Option<u32>, u64)>) -> Seq<RawEdge> {
    es.map_values(
        |e: (Option<u32>, u64)|
            (
                match e.0 {
                    Some(w) => Some(w as int),
                    None => None,
                },
                e.1 as int,
            ),
    )
}

/// Read `order` symbols and translate each through the index map; an
/// index outside the dictionary section is a hard error.
fn read_key_tokens(
    bytes: &Vec<u8>,
    pos: usize,
    order: usize,
    word_map: &Vec<u32>,
    dict_len: usize,
) -> (r: Result<(Vec<Token>, usize), ChainError>)
    requires
        order >= 1,
        forall|m: int| 0 <= m < word_map@.len() ==> (#[trigger] word_map@[m]) < dict_len,
    ensures
        match take_key(bytes@, pos as int, order as nat) {
            None => r is Err,
            Some((raw, j1)) => match r {
                Ok((key, j)) => {
                    &&& j as int == j1
                    &&& j <= bytes@.len()
                    &&& raw_key_ok(raw, word_map@.len() as int)
                    &&& key@ == trans_key(word_map@, raw)
                    &&& key@.len() == order
                    &&& super::tokens_in_dict(key@, dict_len as int)
                },
                Err(_) => !raw_key_ok(raw, word_map@.len() as int),
            },
        },
{
    let ghost b = bytes@;
    let mut key: Vec<Token> = Vec::new();
    let ghost mut raw_acc: Seq<Option<int>> = Seq::empty();
    let mut p = pos;
    let mut k: usize = 0;
    proof {
        if take_key(b, pos as int, order as nat) is Some {
            let (rw, e) = take_key(b, pos as int, order as nat).unwrap();
            assert(raw_acc + rw =~= rw);
        }
    }
    while k < order
        invariant
            b == bytes@,
            k <= order,
            key@.len() == k,
            raw_acc.len() == k,
            p <= b.len() || k == 0,
            pos <= p,
            forall|m: int| 0 <= m < word_map@.len() ==> (#[trigger] word_map@[m]) < dict_len,
            raw_key_ok(raw_acc, word_map@.len() as int),
            key@ == trans_key(word_map@, raw_acc),
            super::tokens_in_dict(key@, dict_len as int),
            (match take_key(b, p as int, (order - k) as nat) {
                Some((rw, e)) => take_key(b, pos as int, order as nat) == Some((raw_acc + rw, e)),
                None => take_key(b, pos as int, order as nat) is None,
            }),
        decreases order - k,
    {
        let ghost rem = (order - k) as nat;
        let (t, p2) = match read_token(bytes, p) {
            Ok(v) => v,
            Err(e) => {
                proof {
                    assert(take_key(b, p as int, rem) is None);
                }
                return Err(e);
            },
        };
        let ghost traw: Option<int> = match t {
            Some(w) => Some(w as int),
            None => None,
        };
        proof {
            let sub = take_key(b, p2 as int, (rem - 1) as nat);
            assert(take_key(b, p as int, rem) == (match sub {
                None => None::<(Seq<Option<int>>, int)>,
                Some((ts, j2)) => Some((seq![traw] + ts, j2)),
            }));
            if sub is Some {
                let (ts, j2) = sub.unwrap();
                assert(raw_acc + (seq![traw] + ts) =~= raw_acc.push(traw) + ts);
            }
        }
        let tok: Token = match t {
            Some(w) => {
                if (w as usize) < word_map.len() {
                    Some(word_map[w as usize])
                } else {
                    proof {
                        let sub = take_key(b, p2 as int, (rem - 1) as nat);
                        if take_key(b, pos as int, order as nat) is Some {
                            let (raw, _) = take_key(b, pos as int, order as nat).unwrap();
                            assert(raw[k as int] == traw);
                            assert(!raw_token_ok(raw[k as int], word_map@.len() as int));
                        }
                    }
                    return Err(ChainError::InvalidWordId);
                }
            },
            None => None,
        };
        key.push(tok);
        proof {
            raw_acc = raw_acc.push(traw);
            assert(key@ =~= trans_key(word_map@, raw_acc));
        }
        p = p2;
        k += 1;
    }
    proof {
        assert(take_key(b, p as int, 0) == Some((Seq::<Option<int>>::empty(), p as int)));
        assert(raw_acc + Seq::<Option<int>>::empty() =~= raw_acc);
    }
    Ok((key, p))
}

/// Read one edge table: the count, then that many symbol/count pairs,
/// translating symbols, rejecting tables that break the model's
/// invariant, and accumulating the checked sum.
fn read_table(bytes: &Vec<u8>, pos: usize, word_map: &Vec<u32>, dict_len: usize) -> (r: Result<
    (EdgeMap, usize),
    ChainError,
>)
    requires
        forall|m: int| 0 <= m < word_map@.len() ==> (#[trigger] word_map@[m]) < dict_len,
    ensures
        match take_uint(bytes@, pos as int, 8) {
            None => r is Err,
            Some((count, j0)) => match take_entries(bytes@, j0, count as nat) {
                None => r is Err,
                Some((raw, j1)) => match r {
                    Ok((t, j)) => {
                        &&& j as int == j1
                        &&& j <= bytes@.len()
                        &&& raw_entries_ok(raw, word_map@)
                        &&& t.entries@ == trans_entries(word_map@, raw)
                        &&& t.sum as int == super::table_weight_sum(t.entries@)
                        &&& super::entries_in_dict(t.entries@, dict_len as int)
                        &&& super::distinct_tokens(t.entries@)
                        &&& t.entries@.len() >= 1
                        &&& forall|i: int|
                            0 <= i < t.entries@.len() ==> (#[trigger] t.entries@[i].1) >= 1
                    },
                    Err(_) => !raw_entries_ok(raw, word_map@),
                },
            },
        },
{
    let ghost b = bytes@;
    let (count, p0) = match read_u64(bytes, pos) {
        Ok(v) => v,
        Err(e) => {
            return Err(e);
        },
    };
    let ghost j0 = p0 as int;
    let mut entries: Vec<Edge> = Vec::new();
    let mut sum: u64 = 0;
    let ghost mut raw_acc: Seq<RawEdge> = Seq::empty();
    let mut p = p0;
    let mut k: u64 = 0;
    proof {
        if take_entries(b, j0, count as nat) is Some {
            let (rw, e) = take_entries(b, j0, count as nat).unwrap();
            assert(raw_acc + rw =~= rw);
        }
    }
    while k < count
        invariant
            b == bytes@,
            k <= count,
            entries@.len() == k,
            raw_acc.len() == k,
            pos < p0 <= p,
            p <= b.len(),
            forall|m: int| 0 <= m < word_map@.len() ==> (#[trigger] word_map@[m]) < dict_len,
            take_uint(b, pos as int, 8) == Some((count as int, j0)),
            j0 == p0 as int,
            forall|i: int|
                0 <= i < raw_acc.len() ==> raw_token_ok(
                    (#[trigger] raw_acc[i]).0,
                    word_map@.len() as int,
                ),
            forall|i: int| 0 <= i < raw_acc.len() ==> 1 <= (#[trigger] raw_acc[i]).1 < pow256(8),
            entries@ == trans_entries(word_map@, raw_acc),
            super::distinct_tokens(entries@),
            super::entries_in_dict(entries@, dict_len as int),
            forall|i: int| 0 <= i < entries@.len() ==> (#[trigger] entries@[i].1) >= 1,
            sum as int == super::table_weight_sum(entries@),
            (match take_entries(b, p as int, (count - k) as nat) {
                Some((rw, e)) => take_entries(b, j0, count as nat) == Some((raw_acc + rw, e)),
                None => take_entries(b, j0, count as nat) is None,
            }),
        decreases count - k,
    {
        let ghost rem = (count - k) as nat;
        let (t, p1) = match read_token(bytes, p) {
            Ok(v) => v,
            Err(e) => {
                return Err(e);
            },
        };
        let (w, p2) = match read_u64(bytes, p1) {
            Ok(v) => v,
            Err(e) => {
                return Err(e);
            },
        };
        let ghost traw: Option<int> = match t {
            Some(x) => Some(x as int),
            None => None,
        };
        let ghost cur: RawEdge = (traw, w as int);
        proof {
            lemma_pow256_values();
            let sub = take_entries(b, p2 as int, (rem - 1) as nat);
            assert(take_entries(b, p as int, rem) == (match sub {
                None => None::<(Seq<RawEdge>, int)>,
                Some((es, j3)) => Some((seq![cur] + es, j3)),
            }));
            if sub is Some {
                let (es, j3) = sub.unwrap();
                assert(raw_acc + (seq![cur] + es) =~= raw_acc.push(cur) + es);
            }
        }
        let ghost full = take_entries(b, j0, count as nat);
        proof {
            if full is Some {
                let (raw_full, _) = full.unwrap();
                assert(take_entries(b, p as int, rem) is Some);
                assert(raw_full[k as int] == cur) by {
                    let (rw, _) = take_entries(b, p as int, rem).unwrap();
                    assert(raw_full == raw_acc + rw);
                    assert(rw[0] == cur);
                }
                assert(forall|i: int| 0 <= i < k ==> raw_full[i] == raw_acc[i]);
            }
        }
        // Translate and validate this edge.
        let tok: Token = match t {
            Some(x) => {
                if (x as usize) < word_map.len() {
                    Some(word_map[x as usize])
                } else {
                    proof {
                        if full is Some {
                            let (raw_full, _) = full.unwrap();
                            assert(!raw_token_ok(raw_full[k as int].0, word_map@.len() as int));
                        }
                    }
                    return Err(ChainError::InvalidWordId);
                }
            },
            None => None,
        };
        if w == 0 {
            proof {
                if full is Some {
                    let (raw_full, _) = full.unwrap();
                    assert(raw_full[k as int].1 == 0);
                }
            }
            return Err(ChainError::InvalidEdgeTable);
        }
        match super::find_edge(&entries, tok) {
            Some(_) => {
                proof {
                    if full is Some {
                        let (raw_full, _) = full.unwrap();
                        let tfull = trans_entries(word_map@, raw_full);
                        let dup = super::table_idx(entries@, tok);
                        assert(tfull[dup] == entries@[dup]) by {
                            assert(raw_full[dup] == raw_acc[dup]);
                        }
                        assert(tfull[k as int].0 == tok);
                        assert(!super::distinct_tokens(tfull));
                    }
                }
                return Err(ChainError::InvalidEdgeTable);
            },
            None => {},
        }
        let new_sum = match sum.checked_add(w) {
            Some(s) => s,
            None => {
                proof {
                    if full is Some {
                        let (raw_full, _) = full.unwrap();
                        let tfull = trans_entries(word_map@, raw_full);
                        assert(forall|i: int| 0 <= i <= k ==> tfull[i] == entries@.push(
                            (tok, w),
                        )[i]) by {
                            assert(forall|i: int| 0 <= i < k ==> raw_full[i] == raw_acc[i]);
                        }
                        assert(tfull.take(k as int + 1) =~= entries@.push((tok, w)));
                        super::lemma_table_sum_push(entries@, (tok, w));
                        super::lemma_table_sum_take_le(tfull, k as int + 1, tfull.len() as int);
                        super::lemma_table_sum_take_all(tfull);
                        assert(super::table_weight_sum(tfull) > u64::MAX as int);
                        assert(!raw_entries_ok(raw_full, word_map@));
                    }
                }
                return Err(ChainError::SumOverflow);
            },
        };
        entries.push((tok, w));
        sum = new_sum;
        proof {
            super::lemma_table_sum_push(entries@.drop_last(), (tok, w));
            assert(entries@.drop_last() =~= trans_entries(word_map@, raw_acc));
            raw_acc = raw_acc.push(cur);
            assert(entries@ =~= trans_entries(word_map@, raw_acc));
        }
        p = p2;
        k += 1;
    }
    proof {
        assert(take_entries(b, p as int, 0) == Some((Seq::<RawEdge>::empty(), p as int)));
        assert(raw_acc + Seq::<RawEdge>::empty() =~= raw_acc);
    }
    if entries.len() == 0 {
        return Err(ChainError::InvalidEdgeTable);
    }
    Ok((EdgeMap { sum, entries }, p))
}

// ---------------------------------------------------------------------------
// The whole stream
// ---------------------------------------------------------------------------

/// The mathematical value of a built node vector.
pub(crate) open spec fn nodes_view(nodes: Seq<Node>) -> Graph {
    nodes.map_values(|n: Node| (n.key@, n.table.entries@))
}

impl Chain {
    /// Rebuild a model from a serialized stream, for a caller expecting
    /// the given order. Succeeds exactly when the stream parses for that
    /// order; an order mismatch in an otherwise readable header is
    /// reported as such.
    pub fn load_from_bytes(bytes: &Vec<u8>, order: usize) -> (r: Result<Chain, ChainError>)
        requires
            super::valid_order(order),
        ensures
            match r {
                Ok(m) => {
                    &&& m.wf()
                    &&& m.spec_order() == order
                    &&& parse_model(bytes@, order as int) == Some(
                        (m.spec_meta(), m.words(), m.graph()),
                    )
                },
                Err(_) => parse_model(bytes@, order as int) is None,
            },
            (match take_header(bytes@) {
                Some(((fo, _), _)) => fo as int != order as int ==> r == Result::<
                    Chain,
                    ChainError,
                >::Err(ChainError::OrderMismatch { expected: order as u8, found: fo }),
                None => true,
            }),
    {
        let ghost b = bytes@;
        let (file_order, meta, p0) = match read_header(bytes) {
            Ok(v) => v,
            Err(e) => {
                return Err(e);
            },
        };
        if file_order as usize != order {
            return Err(ChainError::OrderMismatch { expected: order as u8, found: file_order });
        }
        proof {
            assert(file_order == order as u8);
        }

        // Dictionary section: intern each word, recording the index map.
        let (wcount, p1) = match read_u64(bytes, p0) {
            Ok(v) => v,
            Err(e) => {
                return Err(e);
            },
        };
        let mut dict = Dictionary::new();
        let mut word_map: Vec<u32> = Vec::new();
        let ghost mut raw_acc: Seq<Seq<char>> = Seq::empty();
        let mut p = p1;
        let mut k: u64 = 0;
        proof {
            if take_words(b, p1 as int, wcount as nat) is Some {
                let (rw, e) = take_words(b, p1 as int, wcount as nat).unwrap();
                assert(raw_acc + rw =~= rw);
            }
        }
        while k < wcount
            invariant
                b == bytes@,
                super::valid_order(order),
                take_header(b) == Some(((order as u8, meta@), p0 as int)),
                take_uint(b, p0 as int, 8) == Some((wcount as int, p1 as int)),
                k <= wcount,
                word_map@.len() == k,
                raw_acc.len() == k,
                dict.wf(),
                dict@ == super::intern_seq(Seq::<Seq<char>>::empty(), raw_acc),
                word_map@ == super::ids_of(Seq::<Seq<char>>::empty(), raw_acc),
                forall|m: int|
                    0 <= m < word_map@.len() ==> (#[trigger] word_map@[m]) < dict@.len(),
                (match take_words(b, p as int, (wcount - k) as nat) {
                    Some((rw, e)) => take_words(b, p1 as int, wcount as nat) == Some(
                        (raw_acc + rw, e),
                    ),
                    None => take_words(b, p1 as int, wcount as nat) is None,
                }),
            decreases wcount - k,
        {
            let ghost rem = (wcount - k) as nat;
            let (w, p2) = match read_str(bytes, p) {
                Ok(v) => v,
                Err(e) => {
                    proof {
                        assert(take_words(b, p as int, rem) is None);
                        assert(parse_model(b, order as int) is None);
                    }
                    return Err(e);
                },
            };
            proof {
                let sub = take_words(b, p2 as int, (rem - 1) as nat);
                assert(take_words(b, p as int, rem) == (match sub {
                    None => None::<(Seq<Seq<char>>, int)>,
                    Some((ws, j2)) => Some((seq![w@] + ws, j2)),
                }));
                if sub is Some {
                    let (ws, j2) = sub.unwrap();
                    assert(raw_acc + (seq![w@] + ws) =~= raw_acc.push(w@) + ws);
                }
            }
            if dict.len() >= 0xffffffff {
                proof {
                    if take_words(b, p1 as int, wcount as nat) is Some {
                        let (raw_all, _) = take_words(b, p1 as int, wcount as nat).unwrap();
                        let (ws, _) = take_words(b, p2 as int, (rem - 1) as nat).unwrap();
                        assert(raw_all == raw_acc + (seq![w@] + ws));
                        super::lemma_intern_concat(
                            Seq::<Seq<char>>::empty(),
                            raw_acc,
                            seq![w@] + ws,
                        );
                        super::lemma_intern_len_mono(dict@, seq![w@] + ws);
                        assert(rebuilt_words(raw_all).len() >= dict@.len());
                    }
                    assert(parse_model(b, order as int) is None);
                }
                return Err(ChainError::DictTooLarge);
            }
            let id = dict.get_or_intern(w.as_str());
            word_map.push(id);
            proof {
                super::lemma_intern_push(Seq::<Seq<char>>::empty(), raw_acc, w@);
                raw_acc = raw_acc.push(w@);
            }
            p = p2;
            k += 1;
        }
        proof {
            assert(take_words(b, p as int, 0) == Some((Seq::<Seq<char>>::empty(), p as int)));
            assert(raw_acc + Seq::<Seq<char>>::empty() =~= raw_acc);
            assert(take_words(b, p1 as int, wcount as nat) == Some((raw_acc, p as int)));
        }
        if dict.len() >= 0xffffffff {
            proof {
                assert(parse_model(b, order as int) is None);
            }
            return Err(ChainError::DictTooLarge);
        }
        let dict_len = dict.len();
        let ghost raw_words: Seq<Seq<char>> = raw_acc;

        // Node section.
        let (ncount, pn) = match read_u64(bytes, p) {
            Ok(v) => v,
            Err(e) => {
                return Err(e);
            },
        };
        let mut nodes: Vec<Node> = Vec::new();
        let ghost mut rawn_acc: Seq<RawNode> = Seq::empty();
        let mut q = pn;
        let mut k2: u64 = 0;
        proof {
            if take_nodes(b, pn as int, ncount as nat, order as nat) is Some {
                let (rw, e) = take_nodes(b, pn as int, ncount as nat, order as nat).unwrap();
                assert(rawn_acc + rw =~= rw);
            }
        }
        while k2 < ncount
            invariant
                b == bytes@,
                super::valid_order(order),
                take_header(b) == Some(((order as u8, meta@), p0 as int)),
                take_uint(b, p0 as int, 8) == Some((wcount as int, p1 as int)),
                take_words(b, p1 as int, wcount as nat) == Some((raw_words, p as int)),
                take_uint(b, p as int, 8) == Some((ncount as int, pn as int)),
                dict.wf(),
                dict@ == rebuilt_words(raw_words),
                word_map@ == rebuilt_map(raw_words),
                k2 <= ncount,
                nodes@.len() == k2,
                rawn_acc.len() == k2,
                dict_len == dict@.len(),
                dict_len < 0xffffffff,
                forall|m: int|
                    0 <= m < word_map@.len() ==> (#[trigger] word_map@[m]) < dict_len,
                nodes_view(nodes@) == trans_nodes(word_map@, rawn_acc),
                forall|i: int|
                    0 <= i < rawn_acc.len() ==> raw_key_ok(
                        (#[trigger] rawn_acc[i]).0,
                        word_map@.len() as int,
                    ),
                forall|i: int|
                    0 <= i < rawn_acc.len() ==> raw_entries_ok(
                        (#[trigger] rawn_acc[i]).1,
                        word_map@,
                    ),
                super::distinct_keys(nodes_view(nodes@)),
                forall|i: int|
                    0 <= i < nodes@.len() ==> super::node_wf(
                        #[trigger] nodes_view(nodes@)[i],
                        order as int,
                        dict_len as int,
                    ),
                forall|i: int|
                    0 <= i < nodes@.len() ==> (#[trigger] nodes@[i].table.sum) as int
                        == super::table_weight_sum(nodes@[i].table.entries@),
                (match take_nodes(b, q as int, (ncount - k2) as nat, order as nat) {
                    Some((rw, e)) => take_nodes(b, pn as int, ncount as nat, order as nat)
                        == Some((rawn_acc + rw, e)),
                    None => take_nodes(b, pn as int, ncount as nat, order as nat) is None,
                }),
            decreases ncount - k2,
        {
            let ghost rem = (ncount - k2) as nat;
            let ghost full = take_nodes(b, pn as int, ncount as nat, order as nat);
            let (key, q1) = match read_key_tokens(bytes, q, order, &word_map, dict_len) {
                Ok(v) => v,
                Err(e) => {
                    proof {
                        let tk = take_key(b, q as int, order as nat);
                        if tk is None {
                            assert(take_node(b, q as int, order as nat) is None);
                            assert(take_nodes(b, q as int, rem, order as nat) is None);
                        } else {
                            assert(!raw_key_ok(tk.unwrap().0, word_map@.len() as int));
                            if take_nodes(b, q as int, rem, order as nat) is Some {
                                let tn = take_node(b, q as int, order as nat);
                                assert(tn is Some);
                                let (n0, _) = tn.unwrap();
                                assert(n0.0 == tk.unwrap().0);
                                let (rw, _) = take_nodes(b, q as int, rem, order as nat).unwrap();
                                assert(rw[0] == n0);
                                let (raw_all, _) = full.unwrap();
                                assert(raw_all[k2 as int] == rw[0]);
                                assert(!raw_nodes_ok(raw_all, word_map@));
                            }
                        }
                        assert(parse_model(b, order as int) is None);
                    }
                    return Err(e);
                },
            };
            let ghost tk_raw = take_key(b, q as int, order as nat).unwrap().0;
            let (table, q2) = match read_table(bytes, q1, &word_map, dict_len) {
                Ok(v) => v,
                Err(e) => {
                    proof {
                        let tc = take_uint(b, q1 as int, 8);
                        if tc is None {
                            assert(take_node(b, q as int, order as nat) is None);
                            assert(take_nodes(b, q as int, rem, order as nat) is None);
                        } else {
                            let (c2, jj) = tc.unwrap();
                            let te = take_entries(b, jj, c2 as nat);
                            if te is None {
                                assert(take_node(b, q as int, order as nat) is None);
                                assert(take_nodes(b, q as int, rem, order as nat) is None);
                            } else {
                                assert(!raw_entries_ok(te.unwrap().0, word_map@));
                                if take_nodes(b, q as int, rem, order as nat) is Some {
                                    let tn = take_node(b, q as int, order as nat);
                                    assert(tn is Some);
                                    let (n0, _) = tn.unwrap();
                                    assert(n0.1 == te.unwrap().0);
                                    let (rw, _) = take_nodes(
                                        b,
                                        q as int,
                                        rem,
                                        order as nat,
                                    ).unwrap();
                                    assert(rw[0] == n0);
                                    let (raw_all, _) = full.unwrap();
                                    assert(raw_all[k2 as int] == rw[0]);
                                    assert(!raw_nodes_ok(raw_all, word_map@));
                                }
                            }
                        }
                        assert(parse_model(b, order as int) is None);
                    }
                    return Err(e);
                },
            };
            let ghost te_raw = take_entries(
                b,
                take_uint(b, q1 as int, 8).unwrap().1,
                take_uint(b, q1 as int, 8).unwrap().0 as nat,
            ).unwrap().0;
            let ghost cur: RawNode = (tk_raw, te_raw);
            proof {
                assert(take_node(b, q as int, order as nat) == Some((cur, q2 as int)));
                let sub = take_nodes(b, q2 as int, (rem - 1) as nat, order as nat);
                assert(take_nodes(b, q as int, rem, order as nat) == (match sub {
                    None => None::<(Seq<RawNode>, int)>,
                    Some((ns, j2)) => Some((seq![cur] + ns, j2)),
                }));
                if sub is Some {
                    let (ns, j2) = sub.unwrap();
                    assert(rawn_acc + (seq![cur] + ns) =~= rawn_acc.push(cur) + ns);
                }
                assert(key@ == trans_key(word_map@, cur.0));
                assert(table.entries@ == trans_entries(word_map@, cur.1));
            }
            // Reject a second node for a key already seen.
            let mut dup = false;
            let nlen = nodes.len();
            for i in 0..nlen
                invariant
                    nlen == nodes@.len(),
                    dup ==> super::graph_has_key(nodes_view(nodes@), key@),
                    !dup ==> forall|x: int|
                        0 <= x < i ==> (#[trigger] nodes_view(nodes@)[x]).0 != key@,
            {
                if super::keys_equal(&nodes[i].key, &key) {
                    proof {
                        assert(nodes_view(nodes@)[i as int].0 == key@);
                    }
                    dup = true;
                }
            }
            if dup {
                proof {
                    if full is Some {
                        let (raw_all, _) = full.unwrap();
                        let tn = trans_nodes(word_map@, raw_all);
                        let di = choose|x: int|
                            0 <= x < nodes@.len() && (#[trigger] nodes_view(nodes@)[x]).0 == key@;
                        assert(raw_all[di] == rawn_acc[di]);
                        assert(tn[di].0 == nodes_view(nodes@)[di].0);
                        assert(raw_all[k2 as int] == cur);
                        assert(tn[k2 as int].0 == trans_key(word_map@, cur.0));
                        assert(tn[k2 as int].0 == key@);
                        assert(!super::distinct_keys(tn));
                        assert(!raw_nodes_ok(raw_all, word_map@));
                    }
                    assert(parse_model(b, order as int) is None);
                }
                return Err(ChainError::DuplicateKey);
            }
            let ghost key_v = key@;
            let ghost entries_v = table.entries@;
            let ghost nodes_before = nodes@;
            let ghost rawn_before = rawn_acc;
            nodes.push(Node { key, table });
            proof {
                rawn_acc = rawn_acc.push(cur);
                assert(nodes@.last().key@ == key_v && nodes@.last().table.entries@ == entries_v);
                assert forall|i: int| 0 <= i < nodes@.len() implies nodes_view(nodes@)[i]
                    == trans_nodes(word_map@, rawn_acc)[i] by {
                    assert(nodes_view(nodes@)[i] == (nodes@[i].key@, nodes@[i].table.entries@));
                    assert(trans_nodes(word_map@, rawn_acc)[i] == (
                        trans_key(word_map@, rawn_acc[i].0),
                        trans_entries(word_map@, rawn_acc[i].1),
                    ));
                    if i < nodes@.len() - 1 {
                        assert(nodes@[i] == nodes_before[i]);
                        assert(rawn_acc[i] == rawn_before[i]);
                        assert(nodes_view(nodes_before)[i] == (
                            nodes_before[i].key@,
                            nodes_before[i].table.entries@,
                        ));
                        assert(trans_nodes(word_map@, rawn_before)[i] == (
                            trans_key(word_map@, rawn_before[i].0),
                            trans_entries(word_map@, rawn_before[i].1),
                        ));
                        assert(nodes_view(nodes_before)[i] == trans_nodes(
                            word_map@,
                            rawn_before,
                        )[i]);
                    } else {
                        assert(rawn_acc[i] == cur);
                        assert(nodes@[i].key@ == key_v);
                        assert(key_v == trans_key(word_map@, cur.0));
                        assert(entries_v == trans_entries(word_map@, cur.1));
                    }
                }
                assert(nodes_view(nodes@) =~= trans_nodes(word_map@, rawn_acc));
                assert(nodes_view(nodes@)[k2 as int] == (key_v, entries_v));
                assert(super::node_wf((key_v, entries_v), order as int, dict_len as int));
                assert forall|i: int| 0 <= i < nodes@.len() implies super::node_wf(
                    #[trigger] nodes_view(nodes@)[i],
                    order as int,
                    dict_len as int,
                ) by {
                    if i < nodes@.len() - 1 {
                        assert(nodes@[i] == nodes_before[i]);
                        assert(nodes_view(nodes@)[i] == nodes_view(nodes_before)[i]);
                        assert(super::node_wf(
                            nodes_view(nodes_before)[i],
                            order as int,
                            dict_len as int,
                        ));
                    }
                }
                assert forall|i: int, j: int|
                    0 <= i < j < nodes@.len() implies (#[trigger] nodes_view(nodes@)[i]).0 != (
                    #[trigger] nodes_view(nodes@)[j]).0 by {
                    assert(nodes@[i] == nodes_before[i]);
                    assert(nodes_view(nodes@)[i] == nodes_view(nodes_before)[i]);
                    if j < nodes@.len() - 1 {
                        assert(nodes@[j] == nodes_before[j]);
                        assert(nodes_view(nodes@)[j] == nodes_view(nodes_before)[j]);
                    } else {
                        assert(nodes_view(nodes@)[j].0 == key_v);
                        assert(nodes_view(nodes_before)[i].0 != key_v);
                    }
                }
                assert(super::distinct_keys(nodes_view(nodes@)));
            }
            q = q2;
            k2 += 1;
        }
        proof {
            assert(take_nodes(b, q as int, 0, order as nat) == Some(
                (Seq::<RawNode>::empty(), q as int),
            ));
            assert(rawn_acc + Seq::<RawNode>::empty() =~= rawn_acc);
            assert(take_nodes(b, pn as int, ncount as nat, order as nat) == Some(
                (rawn_acc, q as int),
            ));
        }
        let c = Chain { metadata: meta, order, dict, nodes };
        proof {
            assert(c.graph() =~= trans_nodes(word_map@, rawn_acc));
            assert(raw_nodes_ok(rawn_acc, word_map@));
            assert(c.wf());
            assert(parse_model(b, order as int) == Some((c.spec_meta(), c.words(), c.graph())));
        }
        Ok(c)
    }
}


/// Load a stream whose order is read from its own header: orders one to
/// three are dispatched to the matching deserializer, any other order is
/// a hard error rather than a silent fallback.
pub fn load_chain_of_any_supported_order_with_reader(bytes: &Vec<u8>) -> (r: Result<
    Chain,
    ChainError,
>)
    ensures
        match r {
            Ok(m) => {
                &&& m.wf()
                &&& 1 <= m.spec_order() <= 3
                &&& parse_model(bytes@, m.spec_order() as int) == Some(
                    (m.spec_meta(), m.words(), m.graph()),
                )
            },
            Err(e) => match take_header(bytes@) {
                None => true,
                Some(((fo, _), _)) => {
                    ||| (1 <= fo <= 3 && parse_model(bytes@, fo as int) is None)
                    ||| (!(1 <= fo <= 3) && e == ChainError::UnsupportedOrder { found: fo })
                },
            },
        },
{
    let (order, _meta, _p) = match read_header(bytes) {
        Ok(v) => v,
        Err(e) => {
            return Err(e);
        },
    };
    if order >= 1 && order <= 3 {
        Chain::load_from_bytes(bytes, order as usize)
    } else {
        Err(ChainError::UnsupportedOrder { found: order })
    }
}

// ---------------------------------------------------------------------------
// Capacity estimation
// ---------------------------------------------------------------------------

/// Product capped at the machine word, as the estimate computes it.
pub open spec fn sat_mul(a: int, b: int) -> int {
    if a * b > usize::MAX as int {
        usize::MAX as int
    } else {
        a * b
    }
}

/// Sum capped at the machine word, as the estimate computes it.
pub open spec fn sat_add(a: int, b: int) -> int {
    if a + b > usize::MAX as int {
        usize::MAX as int
    } else {
        a + b
    }
}

pub open spec fn log2_floor(n: int) -> int
    decreases n,
{
    if n < 2 {
        0
    } else {
        1 + log2_floor(n / 2)
    }
}

fn smul(a: usize, b: usize) -> (r: usize)
    ensures
        r as int == sat_mul(a as int, b as int),
{
    match a.checked_mul(b) {
        Some(v) => v,
        None => usize::MAX,
    }
}

fn sadd(a: usize, b: usize) -> (r: usize)
    ensures
        r as int == sat_add(a as int, b as int),
{
    a.saturating_add(b)
}

fn floor_log2(n: usize) -> (r: usize)
    ensures
        r as int == log2_floor(n as int),
        r <= n,
    decreases n,
{
    if n < 2 {
        0
    } else {
        1 + floor_log2(n / 2)
    }
}

/// The buffer size the estimate assigns: header-free byte budget from
/// word counts, an assumed five bytes of text per word, and an assumed
/// logarithmic number of connections per word.
pub open spec fn capacity_estimate_spec(dict_len: int, node_count: int, order: int) -> int {
    let string_lengths = sat_mul(2, dict_len);
    let string_content = sat_mul(dict_len, 5);
    let key_tokens = sat_mul(sat_mul(order, 5), node_count);
    let conns = log2_floor(dict_len);
    let edge_sums = sat_mul(8, node_count);
    let edge_keys = sat_mul(sat_mul(node_count, conns), 5);
    let edge_values = sat_mul(sat_mul(node_count, conns), 8);
    sat_add(
        sat_add(
            sat_add(sat_add(sat_add(string_lengths, string_content), key_tokens), edge_sums),
            edge_keys,
        ),
        edge_values,
    )
}

impl Chain {
    /// An approximate serialized size, for preallocating the output
    /// buffer: an optimization, not a correctness requirement.
    pub fn capacity_estimate(&self) -> (r: usize)
        ensures
            r as int == capacity_estimate_spec(
                self.words().len() as int,
                self.graph().len() as int,
                self.spec_order() as int,
            ),
    {
        let d = self.dict.len();
        let n = self.nodes.len();
        let string_lengths = smul(2, d);
        let string_content = smul(d, 5);
        let key_tokens = smul(smul(self.order, 5), n);
        let conns = floor_log2(d);
        let edge_sums = smul(8, n);
        let edge_keys = smul(smul(n, conns), 5);
        let edge_values = smul(smul(n, conns), 8);
        sadd(
            sadd(
                sadd(sadd(sadd(string_lengths, string_content), key_tokens), edge_sums),
                edge_keys,
            ),
            edge_values,
        )
    }
}

// ---------------------------------------------------------------------------
// Round trip: parsing inverts encoding
// ---------------------------------------------------------------------------

/// Splitting a window onto a concatenation splits the window.
proof fn lemma_subrange_concat(b: Seq<u8>, i: int, e1: Seq<u8>, e2: Seq<u8>)
    requires
        0 <= i,
        i + e1.len() + e2.len() <= b.len(),
        b.subrange(i, i + e1.len() + e2.len()) == e1 + e2,
    ensures
        b.subrange(i, i + e1.len()) == e1,
        b.subrange(i + e1.len(), i + e1.len() + e2.len()) == e2,
{
    let whole = b.subrange(i, i + e1.len() + e2.len());
    assert forall|x: int| 0 <= x < e1.len() implies b.subrange(i, i + e1.len())[x] == e1[x] by {
        assert(whole[x] == b[i + x]);
        assert((e1 + e2)[x] == e1[x]);
    }
    assert(b.subrange(i, i + e1.len()) =~= e1);
    assert forall|x: int| 0 <= x < e2.len() implies b.subrange(
        i + e1.len(),
        i + e1.len() + e2.len(),
    )[x] == e2[x] by {
        assert(whole[e1.len() + x] == b[i + e1.len() + x]);
        assert((e1 + e2)[e1.len() + x] == e2[x]);
    }
    assert(b.subrange(i + e1.len(), i + e1.len() + e2.len()) =~= e2);
}

proof fn lemma_take_uint_of_enc(b: Seq<u8>, i: int, n: int, k: nat)
    requires
        0 <= i,
        0 <= n < pow256(k),
        i + k <= b.len(),
        b.subrange(i, i + k) == le_bytes(n, k),
    ensures
        take_uint(b, i, k) == Some((n, i + k)),
{
    lemma_le_round_trip(n, k);
}

proof fn lemma_take_str_of_enc(b: Seq<u8>, i: int, s: Seq<char>)
    requires
        0 <= i,
        str_fits(s),
        i + enc_str(s).len() <= b.len(),
        b.subrange(i, i + enc_str(s).len()) == enc_str(s),
    ensures
        take_str(b, i) == Some((s, i + enc_str(s).len())),
{
    let e = encode_utf8(s);
    lemma_subrange_concat(b, i, le_bytes(e.len() as int, 2), e);
    assert(pow256(2) == 0x10000) by {
        lemma_pow256_values();
    }
    lemma_take_uint_of_enc(b, i, e.len() as int, 2);
    encode_utf8_valid_utf8(s);
    encode_utf8_decode_utf8(s);
}

proof fn lemma_take_token_of_enc(b: Seq<u8>, i: int, t: Token)
    requires
        0 <= i,
        i + enc_token(t).len() <= b.len(),
        b.subrange(i, i + enc_token(t).len()) == enc_token(t),
    ensures
        take_token(b, i) == Some(
            (
                match t {
                    Some(id) => Some(id as int),
                    None => None,
                },
                i + enc_token(t).len(),
            ),
        ),
{
    match t {
        Some(id) => {
            lemma_subrange_concat(b, i, seq![0u8], le_bytes(id as int, 4));
            assert(b.subrange(i, i + 1)[0] == b[i]);
            assert(seq![0u8][0] == 0u8);
            assert(b[i] == 0);
            assert(pow256(4) == 0x100000000) by {
                lemma_pow256_values();
            }
            lemma_take_uint_of_enc(b, i + 1, id as int, 4);
        },
        None => {
            assert(b.subrange(i, i + 1)[0] == b[i]);
            assert(b[i] == 1);
        },
    }
}

/// The raw form a key parses to.
pub open spec fn raw_of_key(key: Seq<Token>) -> Seq<Option<int>> {
    key.map_values(
        |t: Token|
            match t {
                Some(id) => Some(id as int),
                None => None::<int>,
            },
    )
}

proof fn lemma_take_key_of_enc(b: Seq<u8>, i: int, key: Seq<Token>)
    requires
        0 <= i,
        i + enc_key(key).len() <= b.len(),
        b.subrange(i, i + enc_key(key).len()) == enc_key(key),
    ensures
        take_key(b, i, key.len()) == Some((raw_of_key(key), i + enc_key(key).len())),
    decreases key.len(),
{
    if key.len() == 0 {
        assert(raw_of_key(key) =~= Seq::<Option<int>>::empty());
    } else {
        let t0 = key[0];
        let rest = key.drop_first();
        assert(enc_key(key) == enc_token(t0) + enc_key(rest));
        lemma_subrange_concat(b, i, enc_token(t0), enc_key(rest));
        lemma_take_token_of_enc(b, i, t0);
        let j = i + enc_token(t0).len();
        lemma_take_key_of_enc(b, j, rest);
        assert(raw_of_key(key) =~= seq![
            match t0 {
                Some(id) => Some(id as int),
                None => None::<int>,
            },
        ] + raw_of_key(rest));
    }
}

/// The raw form an edge table parses to.
pub open spec fn raw_of_entries(es: Seq<Edge>) -> Seq<RawEdge> {
    es.map_values(
        |e: Edge|
            (
                match e.0 {
                    Some(id) => Some(id as int),
                    None => None::<int>,
                },
                e.1 as int,
            ),
    )
}

proof fn lemma_take_entries_of_enc(b: Seq<u8>, i: int, es: Seq<Edge>)
    requires
        0 <= i,
        i + enc_entries(es).len() <= b.len(),
        b.subrange(i, i + enc_entries(es).len()) == enc_entries(es),
    ensures
        take_entries(b, i, es.len()) == Some((raw_of_entries(es), i + enc_entries(es).len())),
    decreases es.len(),
{
    if es.len() == 0 {
        assert(raw_of_entries(es) =~= Seq::<RawEdge>::empty());
    } else {
        let e0 = es[0];
        let rest = es.drop_first();
        let we = le_bytes(e0.1 as int, 8);
        assert(enc_entries(es) == enc_token(e0.0) + we + enc_entries(rest));
        assert(enc_token(e0.0) + we + enc_entries(rest) =~= enc_token(e0.0) + (we + enc_entries(
            rest,
        )));
        lemma_subrange_concat(b, i, enc_token(e0.0), we + enc_entries(rest));
        lemma_take_token_of_enc(b, i, e0.0);
        let j = i + enc_token(e0.0).len();
        lemma_subrange_concat(b, j, we, enc_entries(rest));
        assert(pow256(8) == 0x10000000000000000) by {
            lemma_pow256_values();
        }
        lemma_take_uint_of_enc(b, j, e0.1 as int, 8);
        let j2 = j + 8;
        lemma_take_entries_of_enc(b, j2, rest);
        assert(raw_of_entries(es) =~= seq![
            (
                match e0.0 {
                    Some(id) => Some(id as int),
                    None => None::<int>,
                },
                e0.1 as int,
            ),
        ] + raw_of_entries(rest));
    }
}

/// The raw form a node list parses to.
pub open spec fn raw_of_nodes(g: Graph) -> Seq<RawNode> {
    g.map_values(|n: GraphNode| (raw_of_key(n.0), raw_of_entries(n.1)))
}

proof fn lemma_take_node_of_enc(b: Seq<u8>, i: int, n: GraphNode, order: nat)
    requires
        0 <= i,
        n.0.len() == order,
        n.1.len() < pow256(8),
        i + enc_node(n).len() <= b.len(),
        b.subrange(i, i + enc_node(n).len()) == enc_node(n),
    ensures
        take_node(b, i, order) == Some(
            ((raw_of_key(n.0), raw_of_entries(n.1)), i + enc_node(n).len()),
        ),
{
    let ke = enc_key(n.0);
    let ce = le_bytes(n.1.len() as int, 8);
    let ee = enc_entries(n.1);
    assert(enc_node(n) =~= ke + (ce + ee));
    lemma_subrange_concat(b, i, ke, ce + ee);
    lemma_take_key_of_enc(b, i, n.0);
    let j = i + ke.len();
    lemma_subrange_concat(b, j, ce, ee);
    assert(pow256(8) == 0x10000000000000000) by {
        lemma_pow256_values();
    }
    lemma_take_uint_of_enc(b, j, n.1.len() as int, 8);
    lemma_take_entries_of_enc(b, j + 8, n.1);
}

proof fn lemma_take_nodes_of_enc(b: Seq<u8>, i: int, g: Graph, order: nat)
    requires
        0 <= i,
        forall|x: int| 0 <= x < g.len() ==> (#[trigger] g[x]).0.len() == order,
        forall|x: int| 0 <= x < g.len() ==> (#[trigger] g[x]).1.len() < pow256(8),
        i + enc_nodes(g).len() <= b.len(),
        b.subrange(i, i + enc_nodes(g).len()) == enc_nodes(g),
    ensures
        take_nodes(b, i, g.len(), order) == Some((raw_of_nodes(g), i + enc_nodes(g).len())),
    decreases g.len(),
{
    if g.len() == 0 {
        assert(raw_of_nodes(g) =~= Seq::<RawNode>::empty());
    } else {
        let n0 = g[0];
        let rest = g.drop_first();
        assert(enc_nodes(g) == enc_node(n0) + enc_nodes(rest));
        lemma_subrange_concat(b, i, enc_node(n0), enc_nodes(rest));
        lemma_take_node_of_enc(b, i, n0, order);
        lemma_take_nodes_of_enc(b, i + enc_node(n0).len(), rest, order);
        assert(raw_of_nodes(g) =~= seq![(raw_of_key(n0.0), raw_of_entries(n0.1))] + raw_of_nodes(
            rest,
        ));
    }
}

proof fn lemma_take_words_of_enc(b: Seq<u8>, i: int, words: Seq<Seq<char>>)
    requires
        0 <= i,
        words_fit(words),
        i + enc_words(words).len() <= b.len(),
        b.subrange(i, i + enc_words(words).len()) == enc_words(words),
    ensures
        take_words(b, i, words.len()) == Some((words, i + enc_words(words).len())),
    decreases words.len(),
{
    if words.len() == 0 {
    } else {
        let w0 = words[0];
        let rest = words.drop_first();
        assert(enc_words(words) == enc_str(w0) + enc_words(rest));
        lemma_subrange_concat(b, i, enc_str(w0), enc_words(rest));
        lemma_take_str_of_enc(b, i, w0);
        lemma_take_words_of_enc(b, i + enc_str(w0).len(), rest);
        assert(words =~= seq![w0] + rest);
    }
}

proof fn lemma_take_header_of_enc(b: Seq<u8>, order: u8, meta: Seq<char>)
    requires
        str_fits(meta),
        enc_header(order, meta).len() <= b.len(),
        b.subrange(0, enc_header(order, meta).len() as int) == enc_header(order, meta),
    ensures
        take_header(b) == Some(((order, meta), enc_header(order, meta).len() as int)),
{
    let h = enc_header(order, meta);
    if meta.len() == 0 {
        assert(h =~= magic() + (seq![order] + seq![semi()]));
        lemma_subrange_concat(b, 0, magic(), seq![order] + seq![semi()]);
        lemma_subrange_concat(b, 6, seq![order], seq![semi()]);
        assert(b.subrange(6, 7)[0] == b[6]);
        assert(b[6] == order);
        assert(b.subrange(7, 8)[0] == b[7]);
        assert(b[7] == semi());
        assert(take_u8(b, 6) == Some((order, 7int)));
        assert(take_u8(b, 7) == Some((semi(), 8int)));
    } else {
        assert(h =~= magic() + (seq![order] + (seq![colon()] + (enc_str(meta) + seq![semi()]))));
        lemma_subrange_concat(b, 0, magic(), seq![order] + (seq![colon()] + (enc_str(meta)
            + seq![semi()])));
        lemma_subrange_concat(b, 6, seq![order], seq![colon()] + (enc_str(meta) + seq![semi()]));
        lemma_subrange_concat(b, 7, seq![colon()], enc_str(meta) + seq![semi()]);
        lemma_subrange_concat(b, 8, enc_str(meta), seq![semi()]);
        assert(b.subrange(6, 7)[0] == b[6]);
        assert(b[6] == order);
        assert(b.subrange(7, 8)[0] == b[7]);
        assert(b[7] == colon());
        lemma_take_str_of_enc(b, 8, meta);
        let j3: int = 8 + enc_str(meta).len() as int;
        assert(b.subrange(j3, j3 + 1)[0] == b[j3]);
        assert(b[j3] == semi());
        assert(colon() != semi() && colon() != 1);
    }
}

/// Interning a list of distinct new words appends them all, assigning
/// consecutive identifiers.
proof fn lemma_intern_distinct(d: Seq<Seq<char>>, ws: Seq<Seq<char>>)
    requires
        super::dict::distinct_words(d + ws),
    ensures
        super::intern_seq(d, ws) == d + ws,
        super::ids_of(d, ws) == Seq::new(ws.len(), |x: int| (d.len() + x) as u32),
    decreases ws.len(),
{
    if ws.len() == 0 {
        assert(d + ws =~= d);
        assert(super::ids_of(d, ws) =~= Seq::new(ws.len(), |x: int| (d.len() + x) as u32));
    } else {
        let w0 = ws[0];
        assert(!super::dict::has_word(d, w0)) by {
            assert(forall|x: int| 0 <= x < d.len() ==> (d + ws)[x] == d[x]);
            assert((d + ws)[d.len() as int] == w0);
            if super::dict::has_word(d, w0) {
                let x = choose|x: int| 0 <= x < d.len() && d[x] == w0;
                assert((d + ws)[x] == (d + ws)[d.len() as int]);
            }
        }
        assert(super::intern_one(d, w0) == d.push(w0));
        assert(super::intern_one_id(d, w0) == d.len() as u32);
        assert(d.push(w0) + ws.drop_first() =~= d + ws);
        lemma_intern_distinct(d.push(w0), ws.drop_first());
        assert(super::intern_seq(d, ws) == super::intern_seq(d.push(w0), ws.drop_first()));
        assert(super::ids_of(d, ws) =~= Seq::new(ws.len(), |x: int| (d.len() + x) as u32)) by {
            assert(super::ids_of(d, ws) == seq![d.len() as u32] + super::ids_of(
                d.push(w0),
                ws.drop_first(),
            ));
        }
    }
}

/// A table whose counts are all at least one has no more edges than its
/// sum.
proof fn lemma_len_le_sum(es: Seq<Edge>)
    requires
        forall|i: int| 0 <= i < es.len() ==> (#[trigger] es[i].1) >= 1,
    ensures
        es.len() <= super::table_weight_sum(es),
    decreases es.len(),
{
    if es.len() > 0 {
        lemma_len_le_sum(es.drop_last());
    }
}

/// Translating the raw form of a well-formed graph through the identity
/// index map restores the graph, and every validation check passes.
proof fn lemma_trans_identity(words: Seq<Seq<char>>, g: Graph, order: int)
    requires
        super::graph_wf(g, order, words.len() as int),
        sums_fit(g),
        words.len() < u32::MAX as int,
    ensures
        ({
            let map = Seq::new(words.len(), |x: int| x as u32);
            let rn = raw_of_nodes(g);
            &&& trans_nodes(map, rn) == g
            &&& forall|i: int|
                0 <= i < rn.len() ==> raw_key_ok((#[trigger] rn[i]).0, map.len() as int)
            &&& forall|i: int| 0 <= i < rn.len() ==> raw_entries_ok((#[trigger] rn[i]).1, map)
            &&& raw_nodes_ok(rn, map)
        }),
{
    let map = Seq::new(words.len(), |x: int| x as u32);
    let rn = raw_of_nodes(g);
    assert forall|i: int| 0 <= i < rn.len() implies raw_key_ok(
        (#[trigger] rn[i]).0,
        map.len() as int,
    ) && raw_entries_ok(rn[i].1, map) && trans_nodes(map, rn)[i] == g[i] by {
        assert(super::node_wf(g[i], order, words.len() as int));
        let key = g[i].0;
        let es = g[i].1;
        assert(rn[i] == (raw_of_key(key), raw_of_entries(es)));
        assert forall|x: int| 0 <= x < key.len() implies raw_token_ok(
            #[trigger] raw_of_key(key)[x],
            map.len() as int,
        ) && trans_token(map, raw_of_key(key)[x]) == key[x] by {
            assert(super::token_in_dict(key[x], words.len() as int));
        }
        assert(trans_key(map, raw_of_key(key)) =~= key);
        assert forall|x: int| 0 <= x < es.len() implies raw_token_ok(
            (#[trigger] raw_of_entries(es)[x]).0,
            map.len() as int,
        ) && 1 <= raw_of_entries(es)[x].1 < pow256(8) && trans_entries(map, raw_of_entries(es))[x]
            == es[x] by {
            assert(super::token_in_dict(es[x].0, words.len() as int));
            assert(es[x].1 >= 1);
            assert(pow256(8) == 0x10000000000000000) by {
                lemma_pow256_values();
            }
        }
        assert(trans_entries(map, raw_of_entries(es)) =~= es);
        assert(super::distinct_tokens(es));
        assert(super::table_weight_sum(es) <= u64::MAX as int);
        assert(es.len() >= 1);
        assert(trans_nodes(map, rn)[i] == (trans_key(map, raw_of_key(key)), trans_entries(
            map,
            raw_of_entries(es),
        )));
    }
    assert(trans_nodes(map, rn) =~= g);
}

/// Every table's sum fits its 64-bit field.
pub open spec fn sums_fit(g: Graph) -> bool {
    forall|i: int|
        0 <= i < g.len() ==> super::table_weight_sum((#[trigger] g[i]).1) <= u64::MAX as int
}

/// Round trip: a serialized model parses back to exactly its metadata,
/// its dictionary and its graph.
#[verifier::rlimit(100)]
pub proof fn lemma_round_trip(meta: Seq<char>, order: u8, words: Seq<Seq<char>>, g: Graph)
    requires
        1 <= order <= 4,
        str_fits(meta),
        words_fit(words),
        super::dict::distinct_words(words),
        words.len() < u32::MAX as int,
        g.len() <= u64::MAX as int,
        super::graph_wf(g, order as int, words.len() as int),
        sums_fit(g),
    ensures
        parse_model(enc_model(meta, order, words, g), order as int) == Some((meta, words, g)),
{
    let b = enc_model(meta, order, words, g);
    let h = enc_header(order, meta);
    let wc = le_bytes(words.len() as int, 8);
    let wsec = enc_words(words);
    let nc = le_bytes(g.len() as int, 8);
    let nsec = enc_nodes(g);
    assert(b =~= h + (wc + (wsec + (nc + nsec))));
    assert(b.subrange(0, b.len() as int) =~= b);
    lemma_subrange_concat(b, 0, h, wc + (wsec + (nc + nsec)));
    lemma_take_header_of_enc(b, order, meta);
    let i1 = h.len() as int;
    lemma_subrange_concat(b, i1, wc, wsec + (nc + nsec));
    assert(pow256(8) == 0x10000000000000000) by {
        lemma_pow256_values();
    }
    lemma_take_uint_of_enc(b, i1, words.len() as int, 8);
    let i2 = i1 + 8;
    lemma_subrange_concat(b, i2, wsec, nc + nsec);
    lemma_take_words_of_enc(b, i2, words);
    let i3 = i2 + wsec.len();
    lemma_subrange_concat(b, i3, nc, nsec);
    lemma_take_uint_of_enc(b, i3, g.len() as int, 8);
    let i4 = i3 + 8;
    assert forall|x: int| 0 <= x < g.len() implies (#[trigger] g[x]).1.len() < pow256(8) by {
        assert(super::node_wf(g[x], order as int, words.len() as int));
        lemma_len_le_sum(g[x].1);
        assert(pow256(8) == 0x10000000000000000) by {
            lemma_pow256_values();
        }
    }
    lemma_take_nodes_of_enc(b, i4, g, order as nat);

    // The dictionary rebuilds to itself, with the identity index map.
    assert(Seq::<Seq<char>>::empty() + words =~= words);
    lemma_intern_distinct(Seq::<Seq<char>>::empty(), words);
    let map = rebuilt_map(words);
    assert(rebuilt_words(words) == words);
    assert(map == Seq::new(words.len(), |x: int| x as u32));

    // Translation through the identity map restores the graph.
    lemma_trans_identity(words, g, order as int);
    let rn = raw_of_nodes(g);
    assert(raw_nodes_ok(rn, map));
    assert(trans_nodes(map, rn) == g);
}

// ---------------------------------------------------------------------------
// Format rejection: a truncated stream never parses
// ---------------------------------------------------------------------------


proof fn lemma_take_str_low(b: Seq<u8>, i: int)
    requires
        0 <= i,
    ensures
        take_str(b, i) is Some ==> i <= take_str(b, i).unwrap().1,
{
    if take_str(b, i) is Some {
        lemma_from_le_bound(b.subrange(i, i + 2));
    }
}

proof fn lemma_take_key_low(b: Seq<u8>, i: int, order: nat)
    requires
        0 <= i,
    ensures
        take_key(b, i, order) is Some ==> i <= take_key(b, i, order).unwrap().1,
    decreases order,
{
    if order > 0 && take_key(b, i, order) is Some {
        let (t, j0) = take_token(b, i).unwrap();
        lemma_take_key_low(b, j0, (order - 1) as nat);
    }
}

proof fn lemma_take_entries_low(b: Seq<u8>, i: int, c: nat)
    requires
        0 <= i,
    ensures
        take_entries(b, i, c) is Some ==> i <= take_entries(b, i, c).unwrap().1,
    decreases c,
{
    if c > 0 && take_entries(b, i, c) is Some {
        let (t, j0) = take_token(b, i).unwrap();
        let (w, j1) = take_uint(b, j0, 8).unwrap();
        lemma_take_entries_low(b, j1, (c - 1) as nat);
    }
}

proof fn lemma_take_words_low(b: Seq<u8>, i: int, c: nat)
    requires
        0 <= i,
    ensures
        take_words(b, i, c) is Some ==> i <= take_words(b, i, c).unwrap().1,
    decreases c,
{
    if c > 0 && take_words(b, i, c) is Some {
        lemma_take_str_low(b, i);
        let (w, j0) = take_str(b, i).unwrap();
        lemma_take_words_low(b, j0, (c - 1) as nat);
    }
}

proof fn lemma_take_node_low(b: Seq<u8>, i: int, order: nat)
    requires
        0 <= i,
    ensures
        take_node(b, i, order) is Some ==> i <= take_node(b, i, order).unwrap().1,
{
    if take_node(b, i, order) is Some {
        lemma_take_key_low(b, i, order);
        let (key, j0) = take_key(b, i, order).unwrap();
        let (c, j1) = take_uint(b, j0, 8).unwrap();
        lemma_take_entries_low(b, j1, c as nat);
    }
}

proof fn lemma_take_nodes_low(b: Seq<u8>, i: int, c: nat, order: nat)
    requires
        0 <= i,
    ensures
        take_nodes(b, i, c, order) is Some ==> i <= take_nodes(b, i, c, order).unwrap().1,
    decreases c,
{
    if c > 0 && take_nodes(b, i, c, order) is Some {
        lemma_take_node_low(b, i, order);
        let (n, j0) = take_node(b, i, order).unwrap();
        lemma_take_nodes_low(b, j0, (c - 1) as nat, order);
    }
}

proof fn lemma_take_u8_prefix(b: Seq<u8>, i: int, m: int)
    requires
        0 <= i,
        0 <= m <= b.len(),
    ensures
        take_u8(b.take(m), i) == (match take_u8(b, i) {
            Some((v, j)) => if j <= m {
                Some((v, j))
            } else {
                None
            },
            None => None,
        }),
{
    if i + 1 <= m {
        assert(b.take(m)[i] == b[i]);
    }
}

proof fn lemma_take_uint_prefix(b: Seq<u8>, i: int, k: nat, m: int)
    requires
        0 <= i,
        0 <= m <= b.len(),
    ensures
        take_uint(b.take(m), i, k) == (match take_uint(b, i, k) {
            Some((v, j)) => if j <= m {
                Some((v, j))
            } else {
                None
            },
            None => None,
        }),
{
    if i + k <= m {
        assert(b.take(m).subrange(i, i + k) =~= b.subrange(i, i + k));
    }
}

proof fn lemma_take_str_prefix(b: Seq<u8>, i: int, m: int)
    requires
        0 <= i,
        0 <= m <= b.len(),
    ensures
        take_str(b.take(m), i) == (match take_str(b, i) {
            Some((s, j)) => if j <= m {
                Some((s, j))
            } else {
                None
            },
            None => None,
        }),
{
    lemma_take_uint_prefix(b, i, 2, m);
    match take_uint(b, i, 2) {
        None => {},
        Some((len, j0)) => {
            lemma_from_le_bound(b.subrange(i, i + 2));
            if j0 + len <= m {
                assert(b.take(m).subrange(j0, j0 + len) =~= b.subrange(j0, j0 + len));
            }
        },
    }
}

proof fn lemma_take_token_prefix(b: Seq<u8>, i: int, m: int)
    requires
        0 <= i,
        0 <= m <= b.len(),
    ensures
        take_token(b.take(m), i) == (match take_token(b, i) {
            Some((t, j)) => if j <= m {
                Some((t, j))
            } else {
                None
            },
            None => None,
        }),
{
    lemma_take_u8_prefix(b, i, m);
    match take_u8(b, i) {
        None => {},
        Some((tag, j0)) => {
            if tag == 0 {
                lemma_take_uint_prefix(b, j0, 4, m);
            }
        },
    }
}

proof fn lemma_take_words_prefix(b: Seq<u8>, i: int, c: nat, m: int)
    requires
        0 <= i,
        0 <= m <= b.len(),
    ensures
        i <= m ==> take_words(b.take(m), i, c) == (match take_words(b, i, c) {
            Some((ws, j)) => if j <= m {
                Some((ws, j))
            } else {
                None
            },
            None => None,
        }),
    decreases c,
{
    if c > 0 && i <= m {
        lemma_take_str_prefix(b, i, m);
        lemma_take_str_low(b, i);
        match take_str(b, i) {
            None => {},
            Some((w, j0)) => {
                lemma_take_words_low(b, j0, (c - 1) as nat);
                if j0 <= m {
                    lemma_take_words_prefix(b, j0, (c - 1) as nat, m);
                }
            },
        }
    }
}

proof fn lemma_take_key_prefix(b: Seq<u8>, i: int, order: nat, m: int)
    requires
        0 <= i,
        0 <= m <= b.len(),
    ensures
        i <= m ==> take_key(b.take(m), i, order) == (match take_key(b, i, order) {
            Some((ts, j)) => if j <= m {
                Some((ts, j))
            } else {
                None
            },
            None => None,
        }),
    decreases order,
{
    if order > 0 && i <= m {
        lemma_take_token_prefix(b, i, m);
        match take_token(b, i) {
            None => {},
            Some((t, j0)) => {
                lemma_take_key_low(b, j0, (order - 1) as nat);
                if j0 <= m {
                    lemma_take_key_prefix(b, j0, (order - 1) as nat, m);
                }
            },
        }
    }
}

proof fn lemma_take_entries_prefix(b: Seq<u8>, i: int, c: nat, m: int)
    requires
        0 <= i,
        0 <= m <= b.len(),
    ensures
        i <= m ==> take_entries(b.take(m), i, c) == (match take_entries(b, i, c) {
            Some((es, j)) => if j <= m {
                Some((es, j))
            } else {
                None
            },
            None => None,
        }),
    decreases c,
{
    if c > 0 && i <= m {
        lemma_take_token_prefix(b, i, m);
        match take_token(b, i) {
            None => {},
            Some((t, j0)) => {
                lemma_take_uint_prefix(b, j0, 8, m);
                match take_uint(b, j0, 8) {
                    None => {},
                    Some((w, j1)) => {
                        lemma_take_entries_low(b, j1, (c - 1) as nat);
                        if j1 <= m {
                            lemma_take_entries_prefix(b, j1, (c - 1) as nat, m);
                        }
                    },
                }
            },
        }
    }
}

proof fn lemma_take_node_prefix(b: Seq<u8>, i: int, order: nat, m: int)
    requires
        0 <= i,
        0 <= m <= b.len(),
    ensures
        i <= m ==> take_node(b.take(m), i, order) == (match take_node(b, i, order) {
            Some((n, j)) => if j <= m {
                Some((n, j))
            } else {
                None
            },
            None => None,
        }),
{
    if i <= m {
        lemma_take_key_prefix(b, i, order, m);
        lemma_take_key_low(b, i, order);
        match take_key(b, i, order) {
            None => {},
            Some((key, j0)) => {
                lemma_take_uint_prefix(b, j0, 8, m);
                match take_uint(b, j0, 8) {
                    None => {},
                    Some((c, j1)) => {
                        lemma_take_entries_low(b, j1, c as nat);
                        if j1 <= m {
                            lemma_take_entries_prefix(b, j1, c as nat, m);
                        }
                    },
                }
            },
        }
    }
}

proof fn lemma_take_nodes_prefix(b: Seq<u8>, i: int, c: nat, order: nat, m: int)
    requires
        0 <= i,
        0 <= m <= b.len(),
    ensures
        i <= m ==> take_nodes(b.take(m), i, c, order) == (match take_nodes(b, i, c, order) {
            Some((ns, j)) => if j <= m {
                Some((ns, j))
            } else {
                None
            },
            None => None,
        }),
    decreases c,
{
    if c > 0 && i <= m {
        lemma_take_node_prefix(b, i, order, m);
        match take_node(b, i, order) {
            None => {},
            Some((n, j0)) => {
                lemma_take_node_low(b, i, order);
                lemma_take_nodes_low(b, j0, (c - 1) as nat, order);
                if j0 <= m {
                    lemma_take_nodes_prefix(b, j0, (c - 1) as nat, order, m);
                }
            },
        }
    }
}

proof fn lemma_take_header_prefix(b: Seq<u8>, m: int)
    requires
        0 <= m <= b.len(),
    ensures
        take_header(b.take(m)) == (match take_header(b) {
            Some((h, j)) => if j <= m {
                Some((h, j))
            } else {
                None
            },
            None => None,
        }),
{
    let p = b.take(m);
    if m >= 6 {
        assert(p.subrange(0, 6) =~= b.subrange(0, 6));
        if b.len() >= 6 && b.subrange(0, 6) == magic() {
            lemma_take_u8_prefix(b, 6, m);
            match take_u8(b, 6) {
                None => {},
                Some((order, j0)) => {
                    if j0 <= m {
                        lemma_take_u8_prefix(b, j0, m);
                        match take_u8(b, j0) {
                            None => {},
                            Some((next, j1)) => {
                                if next == colon() {
                                    lemma_take_str_prefix(b, j1, m);
                                    lemma_take_str_low(b, j1);
                                    match take_str(b, j1) {
                                        None => {},
                                        Some((meta, j2)) => {
                                            lemma_take_u8_prefix(b, j2, m);
                                        },
                                    }
                                }
                            },
                        }
                    }
                },
            }
        }
    } else {
        assert(p.len() < 6);
    }
}

/// Format rejection: truncating a serialized stream at any point before
/// its final byte makes parsing fail — it never silently succeeds on
/// partial data.
#[verifier::rlimit(60)]
pub proof fn lemma_truncation_rejected(
    meta: Seq<char>,
    order: u8,
    words: Seq<Seq<char>>,
    g: Graph,
    m: int,
)
    requires
        1 <= order <= 4,
        str_fits(meta),
        words_fit(words),
        super::dict::distinct_words(words),
        words.len() < u32::MAX as int,
        g.len() <= u64::MAX as int,
        super::graph_wf(g, order as int, words.len() as int),
        sums_fit(g),
        0 <= m < enc_model(meta, order, words, g).len(),
    ensures
        parse_model(enc_model(meta, order, words, g).take(m), order as int) is None,
{
    let b = enc_model(meta, order, words, g);
    let h = enc_header(order, meta);
    let wc = le_bytes(words.len() as int, 8);
    let wsec = enc_words(words);
    let nc = le_bytes(g.len() as int, 8);
    let nsec = enc_nodes(g);
    assert(b =~= h + (wc + (wsec + (nc + nsec))));
    assert(b.subrange(0, b.len() as int) =~= b);
    lemma_subrange_concat(b, 0, h, wc + (wsec + (nc + nsec)));
    lemma_take_header_of_enc(b, order, meta);
    let i1 = h.len() as int;
    lemma_subrange_concat(b, i1, wc, wsec + (nc + nsec));
    assert(pow256(8) == 0x10000000000000000) by {
        lemma_pow256_values();
    }
    lemma_take_uint_of_enc(b, i1, words.len() as int, 8);
    let i2 = i1 + 8;
    lemma_subrange_concat(b, i2, wsec, nc + nsec);
    lemma_take_words_of_enc(b, i2, words);
    let i3 = i2 + wsec.len();
    lemma_subrange_concat(b, i3, nc, nsec);
    lemma_take_uint_of_enc(b, i3, g.len() as int, 8);
    let i4 = i3 + 8;
    assert forall|x: int| 0 <= x < g.len() implies (#[trigger] g[x]).1.len() < pow256(8) by {
        assert(super::node_wf(g[x], order as int, words.len() as int));
        lemma_len_le_sum(g[x].1);
    }
    lemma_take_nodes_of_enc(b, i4, g, order as nat);
    let i5 = i4 + nsec.len();
    assert(i5 == b.len());

    // Cut the stream anywhere before its end: some section's parse runs
    // out of bytes, and the failure propagates.
    let p = b.take(m);
    lemma_take_header_prefix(b, m);
    if i1 <= m {
        lemma_take_uint_prefix(b, i1, 8, m);
        if i2 <= m {
            lemma_take_words_prefix(b, i2, words.len(), m);
            if i3 <= m {
                lemma_take_uint_prefix(b, i3, 8, m);
                if i4 <= m {
                    lemma_take_nodes_prefix(b, i4, g.len(), order as nat, m);
                    assert(take_nodes(p, i4, g.len(), order as nat) is None);
                }
            }
        }
    }
}

} // verus!

