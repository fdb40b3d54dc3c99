//! The weighted word-transition model: training, traversal and sampling.

use vstd::prelude::*;

pub mod dict;
pub mod rng;
pub mod ser;

use dict::Dictionary;
use dict::has_word;
use dict::id_of;
use rand::rngs::StdRng;
use rng::gen_range_u64;
use rng::rng_from_entropy;

verus! {

/// Safety bound on the words one walk may produce: a graph with a cycle
/// through non-boundary symbols would otherwise walk forever.
pub const MAX_GENERATED_WORDS: usize = 1024;

/// A symbol stored in context keys and edge tables: a word identifier, or
/// the boundary marker (`None`) that stands for start/end of a message.
pub type Token = Option<u32>;

/// One outgoing edge: the next symbol and its accumulated occurrence count.
pub type Edge = (Token, u64);

/// A context key paired with its edge table, as a mathematical value.
pub type GraphNode = (Seq<Token>, Seq<Edge>);

/// The whole transition graph, as a mathematical value.
pub type Graph = Seq<GraphNode>;

/// Width of a context key: how many preceding symbols predict the next one.
pub open spec fn valid_order(order: usize) -> bool {
    1 <= order <= 4
}

// ---------------------------------------------------------------------------
// Edge tables
// ---------------------------------------------------------------------------

/// Sum of the occurrence counts of all edges in a table.
pub open spec fn table_weight_sum(entries: Seq<Edge>) -> int
    decreases entries.len(),
{
    if entries.len() == 0 {
        0
    } else {
        table_weight_sum(entries.drop_last()) + entries.last().1
    }
}

/// True when the table has an edge for symbol `t`.
pub open spec fn table_has(entries: Seq<Edge>, t: Token) -> bool {
    exists|i: int| 0 <= i < entries.len() && entries[i].0 == t
}

/// The position of symbol `t` in the table; meaningful only when
/// `table_has` holds and the symbols are distinct.
pub open spec fn table_idx(entries: Seq<Edge>, t: Token) -> int {
    choose|i: int| 0 <= i < entries.len() && entries[i].0 == t
}

/// Each symbol appears in at most one edge of the table.
pub open spec fn distinct_tokens(entries: Seq<Edge>) -> bool {
    forall|i: int, j: int| 0 <= i < j < entries.len() ==> entries[i].0 != entries[j].0
}

/// Record one observation of symbol `t`: raise its count by one, adding
/// the edge with count one when it is new.
pub open spec fn bump_entry(entries: Seq<Edge>, t: Token) -> Seq<Edge> {
    if table_has(entries, t) {
        let i = table_idx(entries, t);
        entries.update(i, (t, (entries[i].1 + 1) as u64))
    } else {
        entries.push((t, 1u64))
    }
}

/// One context key's edge-table sum, or zero when the key has no node.
pub open spec fn key_sum(g: Graph, key: Seq<Token>) -> int {
    if graph_has_key(g, key) {
        table_weight_sum(g[graph_idx(g, key)].1)
    } else {
        0
    }
}

// ---------------------------------------------------------------------------
// The graph
// ---------------------------------------------------------------------------

/// True when the graph has a node for `key`.
pub open spec fn graph_has_key(g: Graph, key: Seq<Token>) -> bool {
    exists|i: int| 0 <= i < g.len() && g[i].0 == key
}

/// The position of `key`'s node; meaningful only when `graph_has_key`
/// holds and the keys are distinct.
pub open spec fn graph_idx(g: Graph, key: Seq<Token>) -> int {
    choose|i: int| 0 <= i < g.len() && g[i].0 == key
}

/// Each context key owns at most one node.
pub open spec fn distinct_keys(g: Graph) -> bool {
    forall|i: int, j: int| 0 <= i < j < g.len() ==> g[i].0 != g[j].0
}

/// A training window: a context key and the symbol observed after it.
pub type Window = (Seq<Token>, Token);

/// Record one window: find or create the key's node, then raise the
/// observed symbol's count by one.
pub open spec fn graph_bump(g: Graph, w: Window) -> Graph {
    if graph_has_key(g, w.0) {
        let i = graph_idx(g, w.0);
        g.update(i, (w.0, bump_entry(g[i].1, w.1)))
    } else {
        g.push((w.0, seq![(w.1, 1u64)]))
    }
}

/// Record a sequence of windows, first to last.
pub open spec fn graph_feed(g: Graph, ws: Seq<Window>) -> Graph
    decreases ws.len(),
{
    if ws.len() == 0 {
        g
    } else {
        graph_feed(graph_bump(g, ws[0]), ws.drop_first())
    }
}

/// Total of all edge counts over the whole graph.
pub open spec fn graph_total(g: Graph) -> int
    decreases g.len(),
{
    if g.len() == 0 {
        0
    } else {
        graph_total(g.drop_last()) + table_weight_sum(g.last().1)
    }
}

/// Symbols of a key or edge table all resolve within a dictionary of
/// `dict_len` words (the boundary marker always does).
pub open spec fn token_in_dict(t: Token, dict_len: int) -> bool {
    match t {
        Some(id) => id < dict_len,
        None => true,
    }
}

pub open spec fn tokens_in_dict(key: Seq<Token>, dict_len: int) -> bool {
    forall|i: int| 0 <= i < key.len() ==> token_in_dict(#[trigger] key[i], dict_len)
}

pub open spec fn entries_in_dict(entries: Seq<Edge>, dict_len: int) -> bool {
    forall|i: int| 0 <= i < entries.len() ==> token_in_dict(#[trigger] entries[i].0, dict_len)
}

/// Well-formed node for a model of the given order and dictionary size.
pub open spec fn node_wf(n: GraphNode, order: int, dict_len: int) -> bool {
    &&& n.0.len() == order
    &&& tokens_in_dict(n.0, dict_len)
    &&& entries_in_dict(n.1, dict_len)
    &&& distinct_tokens(n.1)
    &&& n.1.len() >= 1
    &&& forall|i: int| 0 <= i < n.1.len() ==> (#[trigger] n.1[i].1) >= 1
}

/// Well-formed graph for a model of the given order and dictionary size.
pub open spec fn graph_wf(g: Graph, order: int, dict_len: int) -> bool {
    &&& distinct_keys(g)
    &&& forall|i: int| 0 <= i < g.len() ==> node_wf(#[trigger] g[i], order, dict_len)
}

// ---------------------------------------------------------------------------
// Training windows
// ---------------------------------------------------------------------------

/// A message's symbol stream: `order` boundary markers, then the words'
/// identifiers, then one closing boundary marker.
pub open spec fn extended_stream(ids: Seq<u32>, order: int) -> Seq<Token>
    recommends
        order >= 1,
{
    Seq::new(order as nat, |i: int| None::<u32>) + ids.map_values(|id: u32| Some(id)) + seq![
        None::<u32>,
    ]
}

/// All sliding windows of one message: for each position, `order`
/// consecutive symbols form the key and the following symbol is the target.
pub open spec fn windows_of(ext: Seq<Token>, order: int) -> Seq<Window>
    recommends
        ext.len() >= order + 1,
{
    Seq::new(
        (ext.len() - order) as nat,
        |i: int| (ext.subrange(i, i + order), ext[i + order]),
    )
}

/// Count of windows whose key is `key`.
pub open spec fn window_count(ws: Seq<Window>, key: Seq<Token>) -> int
    decreases ws.len(),
{
    if ws.len() == 0 {
        0
    } else {
        (if ws[0].0 == key {
            1int
        } else {
            0int
        }) + window_count(ws.drop_first(), key)
    }
}

/// A graph whose keys and table symbols are duplicate-free: what the
/// conservation law needs of the state it starts from.
pub open spec fn graph_sane(g: Graph) -> bool {
    &&& distinct_keys(g)
    &&& forall|i: int| 0 <= i < g.len() ==> distinct_tokens((#[trigger] g[i]).1)
}

// ---------------------------------------------------------------------------
// Interning a message's words
// ---------------------------------------------------------------------------

/// The dictionary after interning one word.
pub open spec fn intern_one(words: Seq<Seq<char>>, w: Seq<char>) -> Seq<Seq<char>> {
    if has_word(words, w) {
        words
    } else {
        words.push(w)
    }
}

/// The identifier one word interns to.
pub open spec fn intern_one_id(words: Seq<Seq<char>>, w: Seq<char>) -> u32 {
    if has_word(words, w) {
        id_of(words, w) as u32
    } else {
        words.len() as u32
    }
}

/// The dictionary after interning a message's words, first to last.
pub open spec fn intern_seq(words: Seq<Seq<char>>, toks: Seq<Seq<char>>) -> Seq<Seq<char>>
    decreases toks.len(),
{
    if toks.len() == 0 {
        words
    } else {
        intern_seq(intern_one(words, toks[0]), toks.drop_first())
    }
}

/// The identifiers a message's words intern to, in message order.
pub open spec fn ids_of(words: Seq<Seq<char>>, toks: Seq<Seq<char>>) -> Seq<u32>
    decreases toks.len(),
{
    if toks.len() == 0 {
        Seq::empty()
    } else {
        seq![intern_one_id(words, toks[0])] + ids_of(intern_one(words, toks[0]), toks.drop_first())
    }
}

// ---------------------------------------------------------------------------
// Weighted choice
// ---------------------------------------------------------------------------

/// The symbol a draw value selects: walk the table accumulating counts
/// and stop at the edge whose accumulation first exceeds the draw.
pub open spec fn chosen(entries: Seq<Edge>, d: int) -> Token
    recommends
        0 <= d < table_weight_sum(entries),
    decreases entries.len(),
{
    if entries.len() == 0 {
        None
    } else if d < entries[0].1 {
        entries[0].0
    } else {
        chosen(entries.drop_first(), d - entries[0].1)
    }
}

/// Prefix sums never shrink as the prefix grows.
pub proof fn lemma_table_sum_take_le(entries: Seq<Edge>, i: int, j: int)
    requires
        0 <= i <= j <= entries.len(),
    ensures
        table_weight_sum(entries.take(i)) <= table_weight_sum(entries.take(j)),
    decreases j - i,
{
    if i < j {
        lemma_table_sum_take_le(entries, i, j - 1);
        assert(entries.take(j).drop_last() =~= entries.take(j - 1));
        assert(table_weight_sum(entries.take(j)) == table_weight_sum(entries.take(j - 1))
            + entries[j - 1].1);
    }
}

pub proof fn lemma_table_sum_take_step(entries: Seq<Edge>, j: int)
    requires
        0 <= j < entries.len(),
    ensures
        table_weight_sum(entries.take(j + 1)) == table_weight_sum(entries.take(j)) + entries[j].1,
{
    assert(entries.take(j + 1).drop_last() =~= entries.take(j));
}

pub proof fn lemma_table_sum_take_all(entries: Seq<Edge>)
    ensures
        table_weight_sum(entries.take(entries.len() as int)) == table_weight_sum(entries),
{
    assert(entries.take(entries.len() as int) =~= entries);
}

/// Determinism: the draw value alone decides the edge. A draw inside
/// edge `j`'s accumulation block selects edge `j`'s symbol.
pub proof fn lemma_chosen_at(entries: Seq<Edge>, j: int, d: int)
    requires
        0 <= j < entries.len(),
        table_weight_sum(entries.take(j)) <= d < table_weight_sum(entries.take(j + 1)),
    ensures
        chosen(entries, d) == entries[j].0,
    decreases j,
{
    lemma_table_sum_take_step(entries, j);
    if j == 0 {
        assert(table_weight_sum(entries.take(0)) == 0) by {
            assert(entries.take(0) =~= Seq::<Edge>::empty());
        }
    } else {
        assert(table_weight_sum(entries.take(1)) == entries[0].1) by {
            lemma_table_sum_take_step(entries, 0);
            assert(table_weight_sum(entries.take(0)) == 0) by {
                assert(entries.take(0) =~= Seq::<Edge>::empty());
            }
        }
        lemma_table_sum_take_le(entries, 1, j);
        let rest = entries.drop_first();
        assert(rest.take(j - 1) =~= entries.take(j).drop_first());
        assert(rest.take(j) =~= entries.take(j + 1).drop_first());
        lemma_drop_first_sum(entries.take(j));
        lemma_drop_first_sum(entries.take(j + 1));
        lemma_chosen_at(rest, j - 1, d - entries[0].1);
    }
}

/// Dropping the first edge lowers the sum by exactly its count.
pub proof fn lemma_drop_first_sum(entries: Seq<Edge>)
    requires
        entries.len() >= 1,
    ensures
        table_weight_sum(entries.drop_first()) == table_weight_sum(entries) - entries[0].1,
    decreases entries.len(),
{
    if entries.len() == 1 {
        assert(entries.drop_first() =~= Seq::<Edge>::empty());
        assert(entries.drop_last() =~= Seq::<Edge>::empty());
    } else {
        assert(entries.drop_first().drop_last() =~= entries.drop_last().drop_first());
        assert(entries.drop_first().last() == entries.last());
        lemma_drop_first_sum(entries.drop_last());
    }
}

/// Every draw below the sum falls into exactly one edge's block.
pub proof fn lemma_some_block(entries: Seq<Edge>, d: int)
    requires
        0 <= d < table_weight_sum(entries),
    ensures
        exists|j: int|
            0 <= j < entries.len() && table_weight_sum(#[trigger] entries.take(j)) <= d
                < table_weight_sum(entries.take(j + 1)),
    decreases entries.len(),
{
    lemma_table_sum_take_all(entries);
    let last = entries.len() - 1;
    lemma_table_sum_take_step(entries, last);
    if d < table_weight_sum(entries.take(last)) {
        lemma_table_sum_nonneg(entries.take(last));
        lemma_some_block(entries.take(last), d);
        let j = choose|j: int|
            0 <= j < entries.take(last).len() && table_weight_sum(
                #[trigger] entries.take(last).take(j),
            ) <= d < table_weight_sum(entries.take(last).take(j + 1));
        assert(entries.take(last).take(j) =~= entries.take(j));
        assert(entries.take(last).take(j + 1) =~= entries.take(j + 1));
        assert(table_weight_sum(entries.take(j)) <= d < table_weight_sum(entries.take(j + 1)));
    } else {
        assert(table_weight_sum(entries.take(last)) <= d < table_weight_sum(
            entries.take(last + 1),
        ));
    }
}

/// The chosen symbol always comes from the table.
pub proof fn lemma_chosen_in_table(entries: Seq<Edge>, d: int)
    requires
        0 <= d < table_weight_sum(entries),
    ensures
        exists|j: int| 0 <= j < entries.len() && (#[trigger] entries[j]).0 == chosen(entries, d),
{
    lemma_some_block(entries, d);
    let j = choose|j: int|
        0 <= j < entries.len() && table_weight_sum(#[trigger] entries.take(j)) <= d
            < table_weight_sum(entries.take(j + 1));
    lemma_chosen_at(entries, j, d);
    assert(entries[j].0 == chosen(entries, d));
}

/// Weighted fairness: a draw selects edge `j`'s symbol exactly when it
/// falls in that edge's accumulation block, whose width is the edge's
/// count — so each symbol is chosen with probability count over sum.
pub proof fn lemma_choice_distribution(entries: Seq<Edge>, j: int, d: int)
    requires
        distinct_tokens(entries),
        0 <= j < entries.len(),
        0 <= d < table_weight_sum(entries),
    ensures
        chosen(entries, d) == entries[j].0 <==> table_weight_sum(entries.take(j)) <= d
            < table_weight_sum(entries.take(j + 1)),
        table_weight_sum(entries.take(j + 1)) - table_weight_sum(entries.take(j)) == entries[j].1,
{
    lemma_table_sum_take_step(entries, j);
    if table_weight_sum(entries.take(j)) <= d < table_weight_sum(entries.take(j + 1)) {
        lemma_chosen_at(entries, j, d);
    } else {
        lemma_some_block(entries, d);
        let k = choose|k: int|
            0 <= k < entries.len() && table_weight_sum(#[trigger] entries.take(k)) <= d
                < table_weight_sum(entries.take(k + 1));
        lemma_chosen_at(entries, k, d);
        if k != j {
            assert(entries[k].0 != entries[j].0);
            if k < j {
                lemma_table_sum_take_step(entries, k);
                lemma_table_sum_take_le(entries, k + 1, j);
            } else {
                lemma_table_sum_take_step(entries, k);
                lemma_table_sum_take_le(entries, j + 1, k);
            }
        }
    }
}

/// The edge a draw selects, as executable code: walk the table
/// accumulating counts until the running total exceeds the draw.
fn pick_weighted(entries: &Vec<Edge>, draw: u64) -> (r: Token)
    requires
        table_weight_sum(entries@) <= u64::MAX as int,
        0 <= draw < table_weight_sum(entries@),
    ensures
        r == chosen(entries@, draw as int),
{
    let n = entries.len();
    let mut acc: u64 = 0;
    for j in 0..n
        invariant
            n == entries@.len(),
            table_weight_sum(entries@) <= u64::MAX as int,
            0 <= draw < table_weight_sum(entries@),
            acc == table_weight_sum(entries@.take(j as int)),
            acc <= draw,
    {
        proof {
            lemma_table_sum_take_step(entries@, j as int);
            lemma_table_sum_take_le(entries@, j + 1, n as int);
            lemma_table_sum_take_all(entries@);
        }
        acc = acc + entries[j].1;
        if acc > draw {
            proof {
                lemma_chosen_at(entries@, j as int, draw as int);
            }
            return entries[j].0;
        }
    }
    proof {
        lemma_table_sum_take_all(entries@);
        assert(false);
    }
    None
}

// ---------------------------------------------------------------------------
// Output assembly
// ---------------------------------------------------------------------------

/// The words of a generated sequence joined with single spaces.
pub open spec fn join_spaced(parts: Seq<Seq<char>>) -> Seq<char>
    decreases parts.len(),
{
    if parts.len() == 0 {
        Seq::empty()
    } else if parts.len() == 1 {
        parts[0]
    } else {
        join_spaced(parts.drop_last()) + seq![' '] + parts.last()
    }
}

/// The context key a plain `generate` starts from: all boundary markers.
pub open spec fn boundary_key(order: int) -> Seq<Token> {
    Seq::new(order as nat, |i: int| None::<u32>)
}

/// The key after one step: shift left, append the chosen symbol.
pub open spec fn shifted(key: Seq<Token>, t: Token) -> Seq<Token> {
    key.drop_first().push(t)
}

/// The produced words form a walk of the graph: each one is an edge out
/// of the key reached so far.
pub open spec fn is_walk(g: Graph, key: Seq<Token>, ids: Seq<u32>) -> bool
    decreases ids.len(),
{
    if ids.len() == 0 {
        true
    } else {
        &&& graph_has_key(g, key)
        &&& table_has(g[graph_idx(g, key)].1, Some(ids[0]))
        &&& is_walk(g, shifted(key, Some(ids[0])), ids.drop_first())
    }
}

/// The key a walk ends at.
pub open spec fn walk_end(key: Seq<Token>, ids: Seq<u32>) -> Seq<Token>
    decreases ids.len(),
{
    if ids.len() == 0 {
        key
    } else {
        walk_end(shifted(key, Some(ids[0])), ids.drop_first())
    }
}

/// The three ways a walk may stop: the output cap is reached, the key
/// reached has no node, or that node's table has a boundary edge the
/// draw may select.
pub open spec fn walk_stops(g: Graph, key: Seq<Token>, ids: Seq<u32>, cap: int) -> bool {
    ||| ids.len() == cap
    ||| !graph_has_key(g, walk_end(key, ids))
    ||| table_has(g[graph_idx(g, walk_end(key, ids))].1, None)
}

/// What a generation entry point returns, for every draw the generator
/// can make: some walk of the graph from `key`, stopped for one of the
/// three possible reasons, appended to the seed identifiers, resolved
/// and joined with single spaces.
pub open spec fn generated_from(
    g: Graph,
    words: Seq<Seq<char>>,
    key: Seq<Token>,
    prefix_ids: Seq<u32>,
    out: Seq<char>,
    cap: int,
) -> bool {
    exists|ids: Seq<u32>|
        {
            &&& #[trigger] is_walk(g, key, ids)
            &&& walk_stops(g, key, ids, cap)
            &&& out == join_spaced(resolved(words, prefix_ids + ids))
        }
}

/// The identifiers of one alignment of a seed sequence: the words from
/// position `s` on, interned.
pub open spec fn align_ids(words: Seq<Seq<char>>, toks: Seq<Seq<char>>, s: int) -> Seq<u32> {
    Seq::new((toks.len() - s) as nat, |i: int| id_of(words, toks[s + i]) as u32)
}

/// The candidate key of one alignment: `s` boundary markers, then the
/// seed's words from position `s` on.
pub open spec fn align_key(
    words: Seq<Seq<char>>,
    toks: Seq<Seq<char>>,
    s: int,
    order: int,
) -> Seq<Token> {
    Seq::new(
        order as nat,
        |i: int|
            if i < s {
                None::<u32>
            } else {
                Some(id_of(words, toks[i]) as u32)
            },
    )
}

/// Extending a walk by one chosen symbol.
pub proof fn lemma_walk_push(g: Graph, key: Seq<Token>, ids: Seq<u32>, x: u32)
    ensures
        is_walk(g, key, ids.push(x)) == (is_walk(g, key, ids) && graph_has_key(
            g,
            walk_end(key, ids),
        ) && table_has(g[graph_idx(g, walk_end(key, ids))].1, Some(x))),
        walk_end(key, ids.push(x)) == shifted(walk_end(key, ids), Some(x)),
    decreases ids.len(),
{
    let p = ids.push(x);
    if ids.len() == 0 {
        assert(p[0] == x);
        assert(p.drop_first() =~= Seq::<u32>::empty());
        assert(is_walk(g, shifted(key, Some(x)), p.drop_first()));
        assert(walk_end(key, p) == walk_end(shifted(key, Some(x)), p.drop_first()));
    } else {
        assert(p[0] == ids[0]);
        assert(p.drop_first() =~= ids.drop_first().push(x));
        lemma_walk_push(g, shifted(key, Some(ids[0])), ids.drop_first(), x);
    }
}

/// The words a sequence of identifiers resolves to.
pub open spec fn resolved(words: Seq<Seq<char>>, ids: Seq<u32>) -> Seq<Seq<char>> {
    ids.map_values(|id: u32| words[id as int])
}

/// A joined sequence starts with its first part.
pub proof fn lemma_join_prefix(parts: Seq<Seq<char>>)
    requires
        parts.len() >= 1,
    ensures
        join_spaced(parts).len() >= parts[0].len(),
        join_spaced(parts).subrange(0, parts[0].len() as int) == parts[0],
    decreases parts.len(),
{
    if parts.len() == 1 {
        assert(join_spaced(parts).subrange(0, parts[0].len() as int) =~= parts[0]);
    } else {
        lemma_join_prefix(parts.drop_last());
        let a = join_spaced(parts.drop_last());
        let whole = a + seq![' '] + parts.last();
        assert(parts.drop_last()[0] == parts[0]);
        assert(whole.subrange(0, parts[0].len() as int) =~= a.subrange(
            0,
            parts[0].len() as int,
        ));
    }
}

// ---------------------------------------------------------------------------
// Sum lemmas
// ---------------------------------------------------------------------------

pub proof fn lemma_table_sum_nonneg(entries: Seq<Edge>)
    ensures
        table_weight_sum(entries) >= 0,
    decreases entries.len(),
{
    if entries.len() > 0 {
        lemma_table_sum_nonneg(entries.drop_last());
    }
}

pub proof fn lemma_table_sum_push(entries: Seq<Edge>, e: Edge)
    ensures
        table_weight_sum(entries.push(e)) == table_weight_sum(entries) + e.1,
{
    assert(entries.push(e).drop_last() =~= entries);
}

pub proof fn lemma_table_sum_update(entries: Seq<Edge>, i: int, e: Edge)
    requires
        0 <= i < entries.len(),
    ensures
        table_weight_sum(entries.update(i, e)) == table_weight_sum(entries) - entries[i].1 + e.1,
    decreases entries.len(),
{
    let u = entries.update(i, e);
    if i == entries.len() - 1 {
        assert(u.drop_last() =~= entries.drop_last());
    } else {
        assert(u.drop_last() =~= entries.drop_last().update(i, e));
        lemma_table_sum_update(entries.drop_last(), i, e);
    }
}

/// A single edge's count never exceeds its table's sum.
pub proof fn lemma_weight_le_table_sum(entries: Seq<Edge>, i: int)
    requires
        0 <= i < entries.len(),
    ensures
        entries[i].1 <= table_weight_sum(entries),
    decreases entries.len(),
{
    lemma_table_sum_nonneg(entries.drop_last());
    if i < entries.len() - 1 {
        lemma_weight_le_table_sum(entries.drop_last(), i);
    }
}

pub proof fn lemma_graph_total_nonneg(g: Graph)
    ensures
        graph_total(g) >= 0,
    decreases g.len(),
{
    if g.len() > 0 {
        lemma_graph_total_nonneg(g.drop_last());
        lemma_table_sum_nonneg(g.last().1);
    }
}

pub proof fn lemma_graph_total_push(g: Graph, n: GraphNode)
    ensures
        graph_total(g.push(n)) == graph_total(g) + table_weight_sum(n.1),
{
    assert(g.push(n).drop_last() =~= g);
}

pub proof fn lemma_graph_total_update(g: Graph, i: int, n: GraphNode)
    requires
        0 <= i < g.len(),
    ensures
        graph_total(g.update(i, n)) == graph_total(g) - table_weight_sum(g[i].1)
            + table_weight_sum(n.1),
    decreases g.len(),
{
    let u = g.update(i, n);
    if i == g.len() - 1 {
        assert(u.drop_last() =~= g.drop_last());
    } else {
        assert(u.drop_last() =~= g.drop_last().update(i, n));
        lemma_graph_total_update(g.drop_last(), i, n);
    }
}

/// One table's sum never exceeds the whole graph's total.
pub proof fn lemma_table_sum_le_total(g: Graph, i: int)
    requires
        0 <= i < g.len(),
    ensures
        table_weight_sum(g[i].1) <= graph_total(g),
    decreases g.len(),
{
    lemma_graph_total_nonneg(g.drop_last());
    lemma_table_sum_nonneg(g.last().1);
    if i < g.len() - 1 {
        lemma_table_sum_le_total(g.drop_last(), i);
    }
}

pub proof fn lemma_bump_entry_sum(entries: Seq<Edge>, t: Token)
    requires
        distinct_tokens(entries),
        table_has(entries, t) ==> entries[table_idx(entries, t)].1 < u64::MAX,
    ensures
        table_weight_sum(bump_entry(entries, t)) == table_weight_sum(entries) + 1,
{
    if table_has(entries, t) {
        let i = table_idx(entries, t);
        lemma_table_sum_update(entries, i, (t, (entries[i].1 + 1) as u64));
    } else {
        lemma_table_sum_push(entries, (t, 1u64));
    }
}

/// Recording one window raises the graph's total by exactly one.
pub proof fn lemma_bump_total(g: Graph, w: Window)
    requires
        distinct_keys(g),
        forall|i: int| 0 <= i < g.len() ==> distinct_tokens((#[trigger] g[i]).1),
        graph_total(g) < u64::MAX as int,
    ensures
        graph_total(graph_bump(g, w)) == graph_total(g) + 1,
{
    if graph_has_key(g, w.0) {
        let i = graph_idx(g, w.0);
        let entries = g[i].1;
        if table_has(entries, w.1) {
            let j = table_idx(entries, w.1);
            lemma_weight_le_table_sum(entries, j);
            lemma_table_sum_le_total(g, i);
        }
        lemma_bump_entry_sum(entries, w.1);
        lemma_graph_total_update(g, i, (w.0, bump_entry(entries, w.1)));
    } else {
        lemma_graph_total_push(g, (w.0, seq![(w.1, 1u64)]));
        assert(table_weight_sum(seq![(w.1, 1u64)].drop_last()) == 0) by {
            assert(seq![(w.1, 1u64)].drop_last() =~= Seq::<Edge>::empty());
        }
    }
}

/// Folding one more window onto the end of a training pass.
pub proof fn lemma_graph_feed_push(g: Graph, ws: Seq<Window>, w: Window)
    ensures
        graph_feed(g, ws.push(w)) == graph_bump(graph_feed(g, ws), w),
    decreases ws.len(),
{
    let p = ws.push(w);
    if ws.len() == 0 {
        assert(p.drop_first() =~= Seq::<Window>::empty());
        assert(p[0] == w);
        assert(graph_feed(g, p) == graph_feed(graph_bump(g, w), p.drop_first()));
        assert(graph_feed(graph_bump(g, w), p.drop_first()) == graph_bump(g, w));
        assert(graph_feed(g, ws) == g);
    } else {
        assert(p.drop_first() =~= ws.drop_first().push(w));
        assert(p[0] == ws[0]);
        lemma_graph_feed_push(graph_bump(g, ws[0]), ws.drop_first(), w);
        assert(graph_feed(g, p) == graph_feed(graph_bump(g, ws[0]), p.drop_first()));
        assert(graph_feed(g, ws) == graph_feed(graph_bump(g, ws[0]), ws.drop_first()));
    }
}

/// Interning one more word after a prefix of the message.
pub proof fn lemma_intern_push(words: Seq<Seq<char>>, toks: Seq<Seq<char>>, t: Seq<char>)
    ensures
        intern_seq(words, toks.push(t)) == intern_one(intern_seq(words, toks), t),
        ids_of(words, toks.push(t)) == ids_of(words, toks).push(
            intern_one_id(intern_seq(words, toks), t),
        ),
    decreases toks.len(),
{
    let p = toks.push(t);
    if toks.len() == 0 {
        assert(p.drop_first() =~= Seq::<Seq<char>>::empty());
        assert(p[0] == t);
        assert(intern_seq(words, p) == intern_seq(intern_one(words, t), p.drop_first()));
        assert(intern_seq(intern_one(words, t), p.drop_first()) == intern_one(words, t));
        assert(ids_of(words, p) == seq![intern_one_id(words, t)] + ids_of(
            intern_one(words, t),
            p.drop_first(),
        ));
        assert(ids_of(intern_one(words, t), p.drop_first()) == Seq::<u32>::empty());
        assert(ids_of(words, toks) == Seq::<u32>::empty());
        assert(intern_seq(words, toks) == words);
        assert(ids_of(words, p) =~= ids_of(words, toks).push(
            intern_one_id(intern_seq(words, toks), t),
        ));
    } else {
        assert(p.drop_first() =~= toks.drop_first().push(t));
        assert(p[0] == toks[0]);
        lemma_intern_push(intern_one(words, toks[0]), toks.drop_first(), t);
        assert(intern_seq(words, p) == intern_seq(intern_one(words, toks[0]), p.drop_first()));
        assert(intern_seq(words, toks) == intern_seq(
            intern_one(words, toks[0]),
            toks.drop_first(),
        ));
        assert(ids_of(words, p) == seq![intern_one_id(words, toks[0])] + ids_of(
            intern_one(words, toks[0]),
            p.drop_first(),
        ));
        assert(ids_of(words, toks) == seq![intern_one_id(words, toks[0])] + ids_of(
            intern_one(words, toks[0]),
            toks.drop_first(),
        ));
        assert(ids_of(words, p) =~= ids_of(words, toks).push(
            intern_one_id(intern_seq(words, toks), t),
        ));
    }
}

/// Interning a concatenation is interning the parts in turn.
pub proof fn lemma_intern_concat(words: Seq<Seq<char>>, a: Seq<Seq<char>>, b: Seq<Seq<char>>)
    ensures
        intern_seq(words, a + b) == intern_seq(intern_seq(words, a), b),
    decreases a.len(),
{
    if a.len() == 0 {
        assert(a + b =~= b);
        assert(intern_seq(words, a) == words);
    } else {
        assert((a + b)[0] == a[0]);
        assert((a + b).drop_first() =~= a.drop_first() + b);
        lemma_intern_concat(intern_one(words, a[0]), a.drop_first(), b);
        assert(intern_seq(words, a) == intern_seq(intern_one(words, a[0]), a.drop_first()));
    }
}

/// Interning never shrinks the dictionary.
pub proof fn lemma_intern_len_mono(words: Seq<Seq<char>>, toks: Seq<Seq<char>>)
    ensures
        intern_seq(words, toks).len() >= words.len(),
    decreases toks.len(),
{
    if toks.len() > 0 {
        lemma_intern_len_mono(intern_one(words, toks[0]), toks.drop_first());
    }
}

// ---------------------------------------------------------------------------
// The model
// ---------------------------------------------------------------------------

/// One node of the transition graph: a context key and its edge table
/// with the precomputed sum of all counts.
#[derive(Debug)]
pub struct EdgeMap {
    pub(crate) sum: u64,
    pub(crate) entries: Vec<Edge>,
}

#[derive(Debug)]
pub(crate) struct Node {
    pub(crate) key: Vec<Token>,
    pub(crate) table: EdgeMap,
}

/// An n-gram model: a dictionary, a transition graph keyed by `order`
/// consecutive symbols, and a free-form metadata string.
#[derive(Debug)]
pub struct Chain {
    pub(crate) metadata: String,
    pub(crate) order: usize,
    pub(crate) dict: Dictionary,
    pub(crate) nodes: Vec<Node>,
}

impl Chain {
    /// The graph as a mathematical value.
    pub closed spec fn graph(&self) -> Graph {
        self.nodes@.map_values(|n: Node| (n.key@, n.table.entries@))
    }

    pub closed spec fn spec_order(&self) -> usize {
        self.order
    }

    pub closed spec fn spec_meta(&self) -> Seq<char> {
        self.metadata@
    }

    /// The dictionary's words, in identifier order.
    pub closed spec fn words(&self) -> Seq<Seq<char>> {
        self.dict@
    }

    /// Every node's stored sum matches its table, all symbols resolve in
    /// the dictionary, and keys, symbols and words are duplicate-free.
    pub open spec fn wf(&self) -> bool {
        &&& valid_order(self.spec_order())
        &&& self.dict_wf()
        &&& graph_wf(self.graph(), self.spec_order() as int, self.words().len() as int)
        &&& self.sums_ok()
    }

    pub closed spec fn dict_wf(&self) -> bool {
        self.dict.wf()
    }

    pub closed spec fn sums_ok(&self) -> bool {
        forall|i: int|
            0 <= i < self.nodes@.len() ==> (#[trigger] self.nodes@[i].table.sum) as int
                == table_weight_sum(self.nodes@[i].table.entries@)
    }

    /// An empty model of the given order.
    pub fn new(order: usize) -> (r: Chain)
        requires
            valid_order(order),
        ensures
            r.wf(),
            r.spec_order() == order,
            r.spec_meta() == Seq::<char>::empty(),
            r.words() == Seq::<Seq<char>>::empty(),
            r.graph() == Seq::<GraphNode>::empty(),
    {
        let c = Chain { metadata: String::new(), order, dict: Dictionary::new(), nodes: Vec::new() };
        assert(c.graph() =~= Seq::<GraphNode>::empty());
        c
    }

    /// Replaces the metadata string, returning the model.
    pub fn with_metadata(self, metadata: String) -> (r: Chain)
        ensures
            r.spec_meta() == metadata@,
            r.spec_order() == self.spec_order(),
            r.words() == self.words(),
            r.graph() == self.graph(),
            self.wf() ==> r.wf(),
    {
        Chain { metadata, ..self }
    }

    /// The model's configured order.
    pub fn order(&self) -> (r: usize)
        ensures
            r == self.spec_order(),
    {
        self.order
    }

    /// The identifier the dictionary holds for a word, if the model has
    /// seen it.
    pub fn word_id(&self, word: &str) -> (r: Option<u32>)
        requires
            self.wf(),
        ensures
            match r {
                Some(id) => has_word(self.words(), word@) && id == id_of(self.words(), word@),
                None => !has_word(self.words(), word@),
            },
    {
        self.dict.get(word)
    }

    /// How many context keys the graph holds.
    pub fn node_count(&self) -> (r: usize)
        ensures
            r == self.graph().len(),
    {
        self.nodes.len()
    }

    /// The model's free-form metadata string.
    pub fn model_meta_data(&self) -> (r: &str)
        ensures
            r@ == self.spec_meta(),
    {
        self.metadata.as_str()
    }

    /// Resolve each identifier through the dictionary and join the words
    /// with single spaces.
    fn translate(&self, ids: &Vec<u32>) -> (r: String)
        requires
            self.wf(),
            forall|i: int| 0 <= i < ids@.len() ==> ids@[i] < self.words().len(),
        ensures
            r@ == join_spaced(resolved(self.words(), ids@)),
    {
        let ghost parts = resolved(self.words(), ids@);
        let mut out = String::new();
        let n = ids.len();
        assert(join_spaced(parts.take(0)) == Seq::<char>::empty()) by {
            assert(parts.take(0) =~= Seq::<Seq<char>>::empty());
        }
        for i in 0..n
            invariant
                self.wf(),
                n == ids@.len(),
                parts == resolved(self.words(), ids@),
                parts.len() == n,
                forall|k: int| 0 <= k < ids@.len() ==> ids@[k] < self.words().len(),
                out@ == join_spaced(parts.take(i as int)),
        {
            if i > 0 {
                out.append(" ");
                proof {
                    reveal_strlit(" ");
                }
            }
            match self.dict.resolve(ids[i]) {
                Some(w) => {
                    out.append(w.as_str());
                },
                None => {
                    proof {
                        assert(false);
                    }
                },
            }
            proof {
                assert(parts.take(i + 1).drop_last() =~= parts.take(i as int));
                assert(parts[i as int] == self.words()[ids@[i as int] as int]);
                if i == 0 {
                    assert(join_spaced(parts.take(1)) == parts[0]);
                    assert(out@ =~= parts[0]);
                } else {
                    assert(" "@ == seq![' ']) by {
                        reveal_strlit(" ");
                    }
                    assert(out@ =~= join_spaced(parts.take(i as int)) + seq![' ']
                        + parts[i as int]);
                }
            }
        }
        proof {
            assert(parts.take(n as int) =~= parts);
        }
        out
    }

    /// The core traversal: from a starting key, repeatedly look up the
    /// current key's edge table, draw a weighted random next symbol,
    /// shift it into the key, and append it to the output — until an
    /// unknown context or a boundary symbol ends the walk, or the safety
    /// bound on the output length is reached.
    fn traverse_word_graph(
        &self,
        rng: &mut StdRng,
        output: &mut Vec<u32>,
        start: Vec<Token>,
        max_words: usize,
    )
        requires
            self.wf(),
            start@.len() == self.spec_order(),
        ensures
            final(output)@.len() >= old(output)@.len(),
            final(output)@.subrange(0, old(output)@.len() as int) == old(output)@,
            forall|i: int|
                old(output)@.len() <= i < final(output)@.len() ==> final(output)@[i]
                    < self.words().len(),
            !graph_has_key(self.graph(), start@) ==> final(output)@ == old(output)@,
            is_walk(
                self.graph(),
                start@,
                final(output)@.subrange(
                    old(output)@.len() as int,
                    final(output)@.len() as int,
                ),
            ),
            walk_stops(
                self.graph(),
                start@,
                final(output)@.subrange(
                    old(output)@.len() as int,
                    final(output)@.len() as int,
                ),
                max_words as int,
            ),
    {
        let ghost start0 = start@;
        let ghost len0 = output@.len();
        let order = self.order;
        let mut curs = start;
        let mut steps: usize = 0;
        proof {
            assert(output@.subrange(len0 as int, output@.len() as int) =~= Seq::<u32>::empty());
        }
        while steps < max_words
            invariant
                self.wf(),
                order == self.spec_order(),
                curs@.len() == order,
                steps <= max_words,
                output@.len() >= len0,
                output@.subrange(0, len0 as int) == old(output)@,
                len0 == old(output)@.len(),
                forall|i: int|
                    len0 <= i < output@.len() ==> output@[i] < self.words().len(),
                (curs@ == start0 && output@ == old(output)@) || graph_has_key(
                    self.graph(),
                    start0,
                ),
                is_walk(
                    self.graph(),
                    start0,
                    output@.subrange(len0 as int, output@.len() as int),
                ),
                curs@ == walk_end(
                    start0,
                    output@.subrange(len0 as int, output@.len() as int),
                ),
                output@.len() - len0 == steps,
            ensures
                walk_stops(
                    self.graph(),
                    start0,
                    output@.subrange(len0 as int, output@.len() as int),
                    max_words as int,
                ),
            decreases max_words - steps,
        {
            let found = self.find_node(&curs);
            match found {
                None => {
                    proof {
                        assert(walk_stops(
                            self.graph(),
                            start0,
                            output@.subrange(len0 as int, output@.len() as int),
                            max_words as int,
                        ));
                    }
                    break ;
                },
                Some(i) => {
                    let ghost entries = self.graph()[i as int].1;
                    proof {
                        assert(node_wf(
                            self.graph()[i as int],
                            self.spec_order() as int,
                            self.words().len() as int,
                        ));
                        assert(self.nodes@[i as int].table.sum as int == table_weight_sum(
                            entries,
                        ));
                        lemma_weight_le_table_sum(entries, 0);
                    }
                    let sum = self.nodes[i].table.sum;
                    let draw = gen_range_u64(rng, sum);
                    let next = pick_weighted(&self.nodes[i].table.entries, draw);
                    proof {
                        lemma_chosen_in_table(entries, draw as int);
                        let j = choose|j: int|
                            0 <= j < entries.len() && (#[trigger] entries[j]).0 == chosen(
                                entries,
                                draw as int,
                            );
                        assert(token_in_dict(entries[j].0, self.words().len() as int));
                        assert(table_has(entries, next));
                    }
                    match next {
                        Some(id) => {
                            let ghost app0 = output@.subrange(len0 as int, output@.len() as int);
                            output.push(id);
                            let mut nc: Vec<Token> = Vec::new();
                            let mut x: usize = 1;
                            while x < order
                                invariant
                                    1 <= x <= order,
                                    curs@.len() == order,
                                    nc@.len() == x - 1,
                                    forall|k: int| 0 <= k < nc@.len() ==> nc@[k] == curs@[k + 1],
                                decreases order - x,
                            {
                                nc.push(curs[x]);
                                x += 1;
                            }
                            nc.push(Some(id));
                            proof {
                                assert(nc@ =~= shifted(curs@, Some(id)));
                            }
                            curs = nc;
                            proof {
                                lemma_walk_push(self.graph(), start0, app0, id);
                                assert(output@.subrange(len0 as int, output@.len() as int)
                                    =~= app0.push(id));
                                assert(output@.subrange(0, len0 as int) =~= old(
                                    output,
                                )@.subrange(0, len0 as int));
                            }
                        },
                        None => {
                            proof {
                                assert(graph_idx(self.graph(), curs@) == i as int);
                                assert(walk_stops(
                                    self.graph(),
                                    start0,
                                    output@.subrange(len0 as int, output@.len() as int),
                                    max_words as int,
                                ));
                            }
                            break ;
                        },
                    }
                    steps += 1;
                },
            }
        }
    }

    /// Generate a message starting from the all-boundary context key,
    /// with a self-seeded random generator. Whatever the draws, the
    /// output is some walk of the graph, resolved and joined with
    /// spaces.
    pub fn generate(&self) -> (r: String)
        requires
            self.wf(),
        ensures
            !graph_has_key(self.graph(), boundary_key(self.spec_order() as int)) ==> r@
                == Seq::<char>::empty(),
            self.graph().len() == 0 ==> r@ == Seq::<char>::empty(),
            generated_from(
                self.graph(),
                self.words(),
                boundary_key(self.spec_order() as int),
                Seq::empty(),
                r@,
                MAX_GENERATED_WORDS as int,
            ),
    {
        let mut rng = rng_from_entropy();
        self.generate_with_rng(&mut rng)
    }

    /// Generate a message starting from the all-boundary context key,
    /// drawing from the given generator. Whatever the draws, the output
    /// is some walk of the graph, resolved and joined with spaces.
    pub fn generate_with_rng(&self, rng: &mut StdRng) -> (r: String)
        requires
            self.wf(),
        ensures
            !graph_has_key(self.graph(), boundary_key(self.spec_order() as int)) ==> r@
                == Seq::<char>::empty(),
            self.graph().len() == 0 ==> r@ == Seq::<char>::empty(),
            generated_from(
                self.graph(),
                self.words(),
                boundary_key(self.spec_order() as int),
                Seq::empty(),
                r@,
                MAX_GENERATED_WORDS as int,
            ),
    {
        let order = self.order;
        let mut start: Vec<Token> = Vec::new();
        for _k in 0..order
            invariant
                start@.len() == _k,
                forall|i: int| 0 <= i < start@.len() ==> start@[i] == None::<u32>,
        {
            start.push(None);
        }
        proof {
            assert(start@ =~= boundary_key(order as int));
        }
        let mut output: Vec<u32> = Vec::new();
        self.traverse_word_graph(rng, &mut output, start, MAX_GENERATED_WORDS);
        proof {
            if !graph_has_key(self.graph(), boundary_key(self.spec_order() as int)) {
                assert(output@ =~= Seq::<u32>::empty());
            }
            if self.graph().len() == 0 {
                assert(!graph_has_key(self.graph(), boundary_key(self.spec_order() as int)));
                assert(output@ =~= Seq::<u32>::empty());
            }
        }
        let r = self.translate(&output);
        proof {
            if output@.len() == 0 {
                assert(resolved(self.words(), output@) =~= Seq::<Seq<char>>::empty());
            }
            assert(output@.subrange(0, output@.len() as int) =~= output@);
            assert(is_walk(
                self.graph(),
                boundary_key(self.spec_order() as int),
                output@,
            ));
            assert(walk_stops(
                self.graph(),
                boundary_key(self.spec_order() as int),
                output@,
                MAX_GENERATED_WORDS as int,
            ));
            assert(Seq::<u32>::empty() + output@ =~= output@);
            assert(r@ == join_spaced(resolved(self.words(), Seq::<u32>::empty() + output@)));
        }
        r
    }

    /// Generate a message continuing from one seed word, with a
    /// self-seeded random generator. A word the model has never seen
    /// yields the empty string; a known word begins the output, and the
    /// rest is a walk from the key seeding that word.
    pub fn generate_from_token(&self, word: &str) -> (r: String)
        requires
            self.wf(),
        ensures
            !has_word(self.words(), word@) ==> r@ == Seq::<char>::empty(),
            has_word(self.words(), word@) ==> r@.len() >= word@.len() && r@.subrange(
                0,
                word@.len() as int,
            ) == word@,
            has_word(self.words(), word@) ==> generated_from(
                self.graph(),
                self.words(),
                placed_key(
                    id_of(self.words(), word@) as u32,
                    self.spec_order() as int,
                    true,
                ),
                seq![id_of(self.words(), word@) as u32],
                r@,
                MAX_GENERATED_WORDS as int,
            ),
    {
        let mut rng = rng_from_entropy();
        self.generate_from_token_with_rng(&mut rng, word)
    }

    /// As `generate_from_token`, drawing from the given generator.
    pub fn generate_from_token_with_rng(&self, rng: &mut StdRng, word: &str) -> (r: String)
        requires
            self.wf(),
        ensures
            !has_word(self.words(), word@) ==> r@ == Seq::<char>::empty(),
            has_word(self.words(), word@) ==> r@.len() >= word@.len() && r@.subrange(
                0,
                word@.len() as int,
            ) == word@,
            has_word(self.words(), word@) ==> generated_from(
                self.graph(),
                self.words(),
                placed_key(
                    id_of(self.words(), word@) as u32,
                    self.spec_order() as int,
                    true,
                ),
                seq![id_of(self.words(), word@) as u32],
                r@,
                MAX_GENERATED_WORDS as int,
            ),
    {
        let id_opt = self.dict.get(word);
        match id_opt {
            None => String::new(),
            Some(id) => {
                let order = self.order;
                let mut start: Vec<Token> = Vec::new();
                for _k in 0..order - 1
                    invariant
                        start@.len() == _k,
                        forall|i: int| 0 <= i < start@.len() ==> start@[i] == None::<u32>,
                {
                    start.push(None);
                }
                start.push(Some(id));
                let mut output: Vec<u32> = Vec::new();
                output.push(id);
                let ghost skey = start@;
                self.traverse_word_graph(rng, &mut output, start, MAX_GENERATED_WORDS);
                proof {
                    assert(has_word(self.words(), word@));
                    assert(0 <= id_of(self.words(), word@) < self.words().len());
                    assert(output@.subrange(0, 1) =~= seq![id]);
                    assert(output@[0] == output@.subrange(0, 1)[0]);
                    assert(output@[0] == id);
                    assert forall|i: int| 0 <= i < output@.len() implies output@[i]
                        < self.words().len() by {
                        if i >= 1 {
                            assert(output@[i] < self.words().len());
                        }
                    }
                }
                let r = self.translate(&output);
                proof {
                    let parts = resolved(self.words(), output@);
                    assert(parts.len() >= 1);
                    assert(parts[0] == word@);
                    lemma_join_prefix(parts);
                    // The output is the seed identifier followed by a
                    // stopped walk from the seeded key.
                    assert(skey =~= placed_key(id, self.spec_order() as int, true));
                    let rest = output@.subrange(1, output@.len() as int);
                    assert(is_walk(self.graph(), skey, rest));
                    assert(walk_stops(
                        self.graph(),
                        skey,
                        rest,
                        MAX_GENERATED_WORDS as int,
                    ));
                    assert(seq![id] + rest =~= output@);
                    assert(r@ == join_spaced(resolved(self.words(), seq![id] + rest)));
                    assert(id == id_of(self.words(), word@) as u32);
                }
                r
            },
        }
    }
}

/// True when every word of `seq` from position `s` on is known to the
/// dictionary: the condition for one alignment of a seed sequence.
pub open spec fn suffix_known(words: Seq<Seq<char>>, toks: Seq<Seq<char>>, s: int) -> bool {
    forall|x: int| s <= x < toks.len() ==> has_word(words, #[trigger] toks[x])
}

/// Everything that can go wrong loading or saving a model, or handing a
/// generation entry point a malformed seed.
#[derive(Clone, Copy, Debug, PartialEq, Eq, Structural)]
pub enum ChainError {
    /// The stream does not begin with the magic bytes.
    BadMagic,
    /// The header's terminator byte is missing or wrong.
    BadHeader,
    /// The stream ended before the structure it promised.
    UnexpectedEof,
    /// A string's bytes are not valid UTF-8.
    InvalidUtf8,
    /// A string longer than the format's 16-bit length field allows.
    StringTooLong,
    /// A symbol's word index lies outside the dictionary section.
    InvalidWordId,
    /// A symbol tag byte that is neither the word tag nor the boundary
    /// tag.
    BadSymbolTag,
    /// The recovered edge counts of one table overflow their 64-bit sum.
    SumOverflow,
    /// An edge table that breaks the model's invariant: no edges, a zero
    /// count, or two edges for one symbol.
    InvalidEdgeTable,
    /// Two nodes for one context key.
    DuplicateKey,
    /// A dictionary section with more words than identifiers exist.
    DictTooLarge,
    /// The stream's order differs from the order the caller expects.
    OrderMismatch { expected: u8, found: u8 },
    /// The stream's order is outside the set the loader implements.
    UnsupportedOrder { found: u8 },
    /// A seed sequence whose length is not the model's order.
    WrongSeedLength { needed: usize, got: usize },
}

impl Chain {
    /// Generate a message continuing from a seed sequence of exactly
    /// `order` words, with a self-seeded random generator. Alignments of
    /// the seed within a context key are tried from "all words" down to
    /// "only the last words"; the first alignment with every word known
    /// yields its words followed by a walk from its key, and when no
    /// alignment qualifies the result is the empty string.
    pub fn generate_from_token_seq(&self, seed: &Vec<String>) -> (r: String)
        requires
            self.wf(),
            seed@.len() == self.spec_order(),
        ensures
            (forall|s: int|
                0 <= s < self.spec_order() - 1 ==> !suffix_known(
                    self.words(),
                    seed.deep_view(),
                    s,
                )) ==> r@ == Seq::<char>::empty(),
            forall|s: int|
                (0 <= s < self.spec_order() - 1 && #[trigger] suffix_known(
                    self.words(),
                    seed.deep_view(),
                    s,
                ) && (forall|s2: int|
                    0 <= s2 < s ==> !suffix_known(self.words(), seed.deep_view(), s2)))
                    ==> generated_from(
                    self.graph(),
                    self.words(),
                    align_key(self.words(), seed.deep_view(), s, self.spec_order() as int),
                    align_ids(self.words(), seed.deep_view(), s),
                    r@,
                    MAX_GENERATED_WORDS as int,
                ),
    {
        let mut rng = rng_from_entropy();
        self.generate_from_token_seq_with_rng(&mut rng, seed)
    }

    /// As `generate_from_token_seq`, drawing from the given generator.
    pub fn generate_from_token_seq_with_rng(&self, rng: &mut StdRng, seed: &Vec<String>) -> (r:
        String)
        requires
            self.wf(),
            seed@.len() == self.spec_order(),
        ensures
            (forall|s: int|
                0 <= s < self.spec_order() - 1 ==> !suffix_known(
                    self.words(),
                    seed.deep_view(),
                    s,
                )) ==> r@ == Seq::<char>::empty(),
            forall|s: int|
                (0 <= s < self.spec_order() - 1 && #[trigger] suffix_known(
                    self.words(),
                    seed.deep_view(),
                    s,
                ) && (forall|s2: int|
                    0 <= s2 < s ==> !suffix_known(self.words(), seed.deep_view(), s2)))
                    ==> generated_from(
                    self.graph(),
                    self.words(),
                    align_key(self.words(), seed.deep_view(), s, self.spec_order() as int),
                    align_ids(self.words(), seed.deep_view(), s),
                    r@,
                    MAX_GENERATED_WORDS as int,
                ),
    {
        let ghost toks = seed.deep_view();
        let order = self.order;
        let mut s: usize = 0;
        while s < order - 1
            invariant
                self.wf(),
                order == self.spec_order(),
                seed@.len() == order,
                toks == seed.deep_view(),
                toks.len() == order,
                s <= order,
                forall|k: int| 0 <= k < s ==> !suffix_known(self.words(), toks, k),
            decreases order - s,
        {
            let mut ids: Vec<u32> = Vec::new();
            let mut all_known = true;
            let mut x: usize = s;
            while x < order
                invariant
                    self.wf(),
                    s <= x <= order,
                    order == toks.len(),
                    seed@.len() == order,
                    toks == seed.deep_view(),
                    all_known ==> ids@.len() == x - s,
                    all_known ==> forall|k: int|
                        0 <= k < ids@.len() ==> ids@[k] < self.words().len(),
                    all_known ==> forall|k: int|
                        0 <= k < ids@.len() ==> (#[trigger] ids@[k]) == id_of(
                            self.words(),
                            toks[s + k],
                        ) as u32,
                    all_known ==> forall|k: int|
                        s <= k < x ==> has_word(self.words(), #[trigger] toks[k]),
                    !all_known ==> exists|k: int|
                        s <= k < x && !has_word(self.words(), #[trigger] toks[k]),
                decreases order - x,
            {
                assert(toks[x as int] == seed@[x as int]@);
                match self.dict.get(seed[x].as_str()) {
                    Some(id) => {
                        if all_known {
                            proof {
                                assert(0 <= id_of(self.words(), toks[x as int])
                                    < self.words().len());
                            }
                            ids.push(id);
                        }
                    },
                    None => {
                        all_known = false;
                    },
                }
                x += 1;
            }
            if all_known {
                let mut start: Vec<Token> = Vec::new();
                let mut output: Vec<u32> = Vec::new();
                for _k in 0..s
                    invariant
                        start@.len() == _k,
                        forall|k: int| 0 <= k < start@.len() ==> start@[k] == None::<u32>,
                {
                    start.push(None);
                }
                let m = ids.len();
                for y in 0..m
                    invariant
                        m == ids@.len(),
                        m == order - s,
                        start@.len() == s + y,
                        output@.len() == y,
                        forall|k: int| 0 <= k < ids@.len() ==> ids@[k] < self.words().len(),
                        forall|k: int|
                            0 <= k < ids@.len() ==> (#[trigger] ids@[k]) == id_of(
                                self.words(),
                                toks[s + k],
                            ) as u32,
                        forall|k: int| 0 <= k < s ==> start@[k] == None::<u32>,
                        forall|k: int| s <= k < s + y ==> start@[k] == Some(ids@[k - s]),
                        forall|k: int| 0 <= k < y ==> output@[k] == ids@[k],
                        self.wf(),
                        order == self.spec_order(),
                        toks.len() == order,
                        suffix_known(self.words(), toks, s as int),
                {
                    start.push(Some(ids[y]));
                    output.push(ids[y]);
                }
                let ghost skey = start@;
                let ghost out0 = output@;
                proof {
                    assert(skey =~= align_key(self.words(), toks, s as int, order as int));
                    assert(out0 =~= ids@);
                }
                self.traverse_word_graph(rng, &mut output, start, MAX_GENERATED_WORDS);
                proof {
                    assert(suffix_known(self.words(), toks, s as int));
                    assert forall|i: int| 0 <= i < output@.len() implies output@[i]
                        < self.words().len() by {
                        if i < m {
                            assert(output@.subrange(0, m as int)[i] == output@[i]);
                        }
                    }
                }
                let r = self.translate(&output);
                proof {
                    // This alignment is the first whose words are all
                    // known; its clause holds with the walk just taken.
                    let appended = output@.subrange(m as int, output@.len() as int);
                    assert(output@.subrange(0, m as int) =~= ids@);
                    assert(align_ids(self.words(), toks, s as int) =~= ids@);
                    assert(align_ids(self.words(), toks, s as int) + appended =~= output@);
                    assert(is_walk(
                        self.graph(),
                        align_key(self.words(), toks, s as int, order as int),
                        appended,
                    ));
                    assert(walk_stops(
                        self.graph(),
                        align_key(self.words(), toks, s as int, order as int),
                        appended,
                        MAX_GENERATED_WORDS as int,
                    ));
                    assert(r@ == join_spaced(
                        resolved(
                            self.words(),
                            align_ids(self.words(), toks, s as int) + appended,
                        ),
                    ));
                    assert(generated_from(
                        self.graph(),
                        self.words(),
                        align_key(self.words(), toks, s as int, order as int),
                        align_ids(self.words(), toks, s as int),
                        r@,
                        MAX_GENERATED_WORDS as int,
                    ));
                    assert forall|s2: int|
                        (0 <= s2 < order - 1 && suffix_known(self.words(), toks, s2) && (
                        forall|s3: int|
                            0 <= s3 < s2 ==> !suffix_known(
                                self.words(),
                                toks,
                                s3,
                            ))) implies generated_from(
                        self.graph(),
                        self.words(),
                        align_key(self.words(), toks, s2, order as int),
                        align_ids(self.words(), toks, s2),
                        r@,
                        MAX_GENERATED_WORDS as int,
                    ) by {
                        if s2 < s as int {
                            assert(!suffix_known(self.words(), toks, s2));
                        }
                        if (s as int) < s2 {
                            assert(!suffix_known(self.words(), toks, s as int));
                        }
                    }
                }
                return r;
            }
            s += 1;
        }
        String::new()
    }

    /// Generate from a seed sequence handed in by a collaborator: fails
    /// exactly when the sequence does not have one word per slot of a
    /// context key.
    pub fn try_generate_from_token_sequence(&self, seed: &Vec<String>) -> (r: Result<
        String,
        ChainError,
    >)
        requires
            self.wf(),
        ensures
            r is Ok <==> seed@.len() == self.spec_order(),
            r is Err ==> r == Result::<String, ChainError>::Err(
                ChainError::WrongSeedLength { needed: self.spec_order(), got: seed@.len() as usize },
            ),
            (match r {
                Ok(out) => {
                    &&& (forall|s: int|
                        0 <= s < self.spec_order() - 1 ==> !suffix_known(
                            self.words(),
                            seed.deep_view(),
                            s,
                        )) ==> out@ == Seq::<char>::empty()
                    &&& forall|s: int|
                        (0 <= s < self.spec_order() - 1 && #[trigger] suffix_known(
                            self.words(),
                            seed.deep_view(),
                            s,
                        ) && (forall|s2: int|
                            0 <= s2 < s ==> !suffix_known(
                                self.words(),
                                seed.deep_view(),
                                s2,
                            ))) ==> generated_from(
                            self.graph(),
                            self.words(),
                            align_key(
                                self.words(),
                                seed.deep_view(),
                                s,
                                self.spec_order() as int,
                            ),
                            align_ids(self.words(), seed.deep_view(), s),
                            out@,
                            MAX_GENERATED_WORDS as int,
                        )
                },
                Err(_) => true,
            }),
    {
        let order = self.order;
        if seed.len() != order {
            return Err(ChainError::WrongSeedLength { needed: order, got: seed.len() });
        }
        Ok(self.generate_from_token_seq(seed))
    }
    fn find_node(&self, key: &Vec<Token>) -> (r: Option<usize>)
        requires
            distinct_keys(self.graph()),
        ensures
            match r {
                Some(i) => graph_has_key(self.graph(), key@) && i == graph_idx(
                    self.graph(),
                    key@,
                ) && i < self.graph().len(),
                None => !graph_has_key(self.graph(), key@),
            },
    {
        let ghost g = self.graph();
        let n = self.nodes.len();
        for i in 0..n
            invariant
                distinct_keys(g),
                g == self.graph(),
                n == g.len(),
                forall|k: int| 0 <= k < i ==> (#[trigger] g[k]).0 != key@,
        {
            assert(g[i as int].0 == self.nodes@[i as int].key@);
            if keys_equal(&self.nodes[i].key, key) {
                assert(graph_has_key(g, key@));
                assert(graph_idx(g, key@) == i as int) by {
                    let j = graph_idx(g, key@);
                    assert(0 <= j < g.len() && g[j].0 == key@);
                    if j < i as int {
                        assert(g[j].0 != g[i as int].0);
                    }
                    if (i as int) < j {
                        assert(g[i as int].0 != g[j].0);
                    }
                }
                return Some(i);
            }
        }
        None
    }

    /// Train on one message: prepend `order` boundary markers and append a
    /// closing one, then record every window of `order + 1` consecutive
    /// symbols, interning new words along the way.
    pub fn feed(&mut self, tokens: &Vec<String>)
        requires
            old(self).wf(),
            old(self).words().len() + tokens@.len() <= u32::MAX as int,
            graph_total(old(self).graph()) + tokens@.len() + 1 <= u64::MAX as int,
        ensures
            final(self).wf(),
            final(self).spec_order() == old(self).spec_order(),
            final(self).spec_meta() == old(self).spec_meta(),
            final(self).words() == intern_seq(old(self).words(), tokens.deep_view()),
            final(self).graph() == graph_feed(
                old(self).graph(),
                windows_of(
                    extended_stream(
                        ids_of(old(self).words(), tokens.deep_view()),
                        old(self).spec_order() as int,
                    ),
                    old(self).spec_order() as int,
                ),
            ),
            graph_total(final(self).graph()) == graph_total(old(self).graph()) + tokens@.len()
                + 1,
    {
        let ghost words0 = self.words();
        let ghost g0 = self.graph();
        let ghost toks = tokens.deep_view();
        let n = tokens.len();

        // Intern every word, collecting the message's identifier stream.
        let mut ids: Vec<u32> = Vec::new();
        for k in 0..n
            invariant
                n == toks.len(),
                tokens.deep_view() == toks,
                self.dict.wf(),
                words0.len() + n <= u32::MAX as int,
                self.words() == intern_seq(words0, toks.take(k as int)),
                self.words().len() <= words0.len() + k,
                words0.len() <= self.words().len(),
                ids@ == ids_of(words0, toks.take(k as int)),
                ids@.len() == k,
                forall|x: int| 0 <= x < ids@.len() ==> ids@[x] < self.words().len(),
                self.graph() == g0,
                self.spec_order() == old(self).spec_order(),
                self.spec_meta() == old(self).spec_meta(),
                self.nodes == old(self).nodes,
        {
            let ghost words_k = self.words();
            assert(toks[k as int] == tokens@[k as int]@);
            let id = self.dict.get_or_intern(tokens[k].as_str());
            ids.push(id);
            proof {
                assert(toks.take(k + 1) =~= toks.take(k as int).push(toks[k as int]));
                lemma_intern_push(words0, toks.take(k as int), toks[k as int]);
                assert(self.words() == intern_one(words_k, toks[k as int]));
                assert(id == intern_one_id(words_k, toks[k as int]));
            }
        }
        proof {
            assert(toks.take(n as int) =~= toks);
        }
        let ghost words1 = self.words();

        // Build the extended symbol stream.
        let order = self.order;
        let mut ext: Vec<Token> = Vec::new();
        for k in 0..order
            invariant
                ext@.len() == k,
                forall|x: int| 0 <= x < k ==> ext@[x] == None::<u32>,
        {
            ext.push(None);
        }
        for k in 0..n
            invariant
                n == ids@.len(),
                ext@.len() == order + k,
                forall|x: int| 0 <= x < order ==> ext@[x] == None::<u32>,
                forall|x: int| 0 <= x < k ==> ext@[order + x] == Some(ids@[x]),
        {
            ext.push(Some(ids[k]));
        }
        ext.push(None);
        proof {
            assert(ext@ =~= extended_stream(ids@, order as int));
        }

        // Record every window.
        proof {
            lemma_graph_wf_mono(g0, order as int, words0.len() as int, words1.len() as int);
        }
        let ghost ws = windows_of(ext@, order as int);
        let ghost total0 = graph_total(g0);
        let ext_len = ext.len();
        let total_windows = ext_len - order;
        assert(total_windows == n + 1);
        for i in 0..total_windows
            invariant
                self.wf(),
                valid_order(order),
                order == self.spec_order(),
                total_windows == n + 1,
                ext_len == ext@.len(),
                ext@.len() == n + 1 + order,
                ws == windows_of(ext@, order as int),
                ws.len() == total_windows,
                tokens_in_dict(ext@, self.words().len() as int),
                self.words() == words1,
                self.spec_meta() == old(self).spec_meta(),
                self.graph() == graph_feed(g0, ws.take(i as int)),
                graph_total(self.graph()) == total0 + i,
                total0 + n + 1 <= u64::MAX as int,
        {
            let mut key: Vec<Token> = Vec::new();
            let mut j = i;
            while j < i + order
                invariant
                    i + order <= ext_len,
                    ext_len == ext@.len(),
                    i <= j <= i + order,
                    key@.len() == j - i,
                    forall|x: int| 0 <= x < key@.len() ==> key@[x] == ext@[i + x],
                decreases i + order - j,
            {
                key.push(ext[j]);
                j += 1;
            }
            let t = ext[i + order];
            proof {
                assert(key@ =~= ext@.subrange(i as int, i + order));
                assert(ws[i as int] == (ext@.subrange(i as int, i + order), ext@[i + order]));
                assert(ws.take(i + 1) =~= ws.take(i as int).push(ws[i as int]));
                lemma_graph_feed_push(g0, ws.take(i as int), ws[i as int]);
            }
            self.add_window(key, t);
        }
        proof {
            assert(ws.take(total_windows as int) =~= ws);
        }
    }

    /// Train on one message given as space-separated text: split on
    /// single spaces and feed the words.
    pub fn feed_str(&mut self, s: &str)
        requires
            old(self).wf(),
            old(self).words().len() + crate::strutil::split_spec(s@, ' ').len() <= u32::MAX
                as int,
            graph_total(old(self).graph()) + crate::strutil::split_spec(s@, ' ').len() + 1
                <= u64::MAX as int,
        ensures
            final(self).wf(),
            final(self).spec_order() == old(self).spec_order(),
            final(self).spec_meta() == old(self).spec_meta(),
            final(self).words() == intern_seq(
                old(self).words(),
                crate::strutil::split_spec(s@, ' '),
            ),
            final(self).graph() == graph_feed(
                old(self).graph(),
                windows_of(
                    extended_stream(
                        ids_of(old(self).words(), crate::strutil::split_spec(s@, ' ')),
                        old(self).spec_order() as int,
                    ),
                    old(self).spec_order() as int,
                ),
            ),
    {
        let toks = crate::strutil::split_char(s, ' ');
        self.feed(&toks);
    }

    /// Record one observed window: find or create the key's node, then
    /// raise the target symbol's count and the table's sum together.
    #[verifier::rlimit(60)]
    fn add_window(&mut self, key: Vec<Token>, t: Token)
        requires
            old(self).wf(),
            key@.len() == old(self).spec_order(),
            tokens_in_dict(key@, old(self).words().len() as int),
            token_in_dict(t, old(self).words().len() as int),
            graph_total(old(self).graph()) < u64::MAX as int,
        ensures
            final(self).wf(),
            final(self).spec_order() == old(self).spec_order(),
            final(self).spec_meta() == old(self).spec_meta(),
            final(self).words() == old(self).words(),
            final(self).graph() == graph_bump(old(self).graph(), (key@, t)),
            graph_total(final(self).graph()) == graph_total(old(self).graph()) + 1,
    {
        let ghost g0 = self.graph();
        let ghost w: Window = (key@, t);
        proof {
            lemma_bump_total(g0, w);
        }
        match self.find_node(&key) {
            Some(i) => {
                let ghost entries0 = self.nodes@[i as int].table.entries@;
                proof {
                    assert(g0[i as int].1 == entries0);
                    lemma_table_sum_le_total(g0, i as int);
                    if table_has(entries0, t) {
                        lemma_weight_le_table_sum(entries0, table_idx(entries0, t));
                    }
                    lemma_bump_entry_sum(entries0, t);
                }
                let j_opt = find_edge(&self.nodes[i].table.entries, t);
                let node = &mut self.nodes[i];
                let s = node.table.sum;
                node.table.sum = s + 1;
                match j_opt {
                    Some(j) => {
                        proof {
                            lemma_weight_le_table_sum(entries0, j as int);
                        }
                        let w0 = node.table.entries[j].1;
                        let e = &mut node.table.entries[j];
                        *e = (t, w0 + 1);
                        proof {
                            assert(node.table.entries@ =~= bump_entry(entries0, t));
                        }
                    },
                    None => {
                        node.table.entries.push((t, 1u64));
                        proof {
                            assert(node.table.entries@ =~= bump_entry(entries0, t));
                        }
                    },
                }
                proof {
                    assert(self.graph() =~= graph_bump(g0, w));
                    lemma_bump_preserves_node_wf(
                        g0,
                        i as int,
                        t,
                        self.spec_order() as int,
                        self.words().len() as int,
                    );
                    assert(forall|k: int|
                        0 <= k < self.graph().len() && k != i as int ==> self.graph()[k]
                            == g0[k]);
                    assert(self.graph()[i as int] == (g0[i as int].0, bump_entry(entries0, t)));
                    assert(distinct_keys(self.graph())) by {
                        assert(forall|k: int|
                            0 <= k < self.graph().len() ==> (#[trigger] self.graph()[k]).0
                                == g0[k].0);
                    }
                    assert forall|k: int|
                        0 <= k < self.graph().len() implies node_wf(
                        #[trigger] self.graph()[k],
                        self.spec_order() as int,
                        self.words().len() as int,
                    ) by {
                        if k != i as int {
                            assert(self.graph()[k] == g0[k]);
                        }
                    }
                    assert forall|k: int|
                        0 <= k < self.nodes@.len() implies (#[trigger] self.nodes@[k].table.sum)
                        as int == table_weight_sum(self.nodes@[k].table.entries@) by {
                        if k != i as int {
                            assert(self.graph()[k] == g0[k]);
                            assert(self.nodes@[k].table.entries@ == old(
                                self,
                            ).nodes@[k].table.entries@);
                            assert(self.nodes@[k].table.sum == old(self).nodes@[k].table.sum);
                        } else {
                            assert(self.nodes@[k].table.entries@ == bump_entry(entries0, t));
                            assert(self.nodes@[k].table.sum as int == old(
                                self,
                            ).nodes@[k].table.sum as int + 1);
                        }
                    }
                    assert(self.wf());
                }
            },
            None => {
                let mut entries: Vec<Edge> = Vec::new();
                entries.push((t, 1u64));
                let table = EdgeMap { sum: 1, entries };
                self.nodes.push(Node { key, table });
                proof {
                    assert(self.graph() =~= g0.push((w.0, seq![(w.1, 1u64)])));
                    assert(self.graph() == graph_bump(g0, w));
                    assert(table_weight_sum(seq![(w.1, 1u64)]) == 1) by {
                        assert(seq![(w.1, 1u64)].drop_last() =~= Seq::<Edge>::empty());
                        assert(table_weight_sum(Seq::<Edge>::empty()) == 0);
                    }
                    assert(self.wf()) by {
                        assert(forall|k: int|
                            0 <= k < g0.len() ==> self.graph()[k] == g0[k]);
                        assert(node_wf(
                            self.graph()[g0.len() as int],
                            self.spec_order() as int,
                            self.words().len() as int,
                        ));
                        assert forall|k: int|
                            0 <= k < self.graph().len() implies node_wf(
                            #[trigger] self.graph()[k],
                            self.spec_order() as int,
                            self.words().len() as int,
                        ) by {
                            if k < g0.len() {
                                assert(self.graph()[k] == g0[k]);
                            }
                        }
                        assert(distinct_keys(self.graph())) by {
                            assert(forall|k: int|
                                0 <= k < g0.len() ==> (#[trigger] self.graph()[k]).0
                                    == g0[k].0);
                            assert(self.graph()[g0.len() as int].0 == w.0);
                            assert(forall|k: int|
                                0 <= k < g0.len() ==> (#[trigger] g0[k]).0 != w.0);
                        }
                        assert forall|k: int|
                            0 <= k < self.nodes@.len() implies (#[trigger] self.nodes@[
                        k].table.sum) as int == table_weight_sum(
                            self.nodes@[k].table.entries@,
                        ) by {
                            if k < g0.len() {
                                assert(self.nodes@[k] == old(self).nodes@[k]);
                                assert(old(self).nodes@[k].table.sum as int
                                    == table_weight_sum(old(self).nodes@[k].table.entries@));
                            } else {
                                assert(k == g0.len());
                                assert(self.nodes@[k] == self.nodes@.last());
                                assert(self.nodes@.last().table.sum == 1);
                                assert(self.nodes@.last().table.entries@ =~= seq![
                                    (w.1, 1u64),
                                ]);
                                assert(table_weight_sum(seq![(w.1, 1u64)]) == 1) by {
                                    assert(seq![(w.1, 1u64)].drop_last() =~= Seq::<
                                        Edge,
                                    >::empty());
                                    assert(table_weight_sum(Seq::<Edge>::empty()) == 0);
                                }
                            }
                        }
                    }
                }
            },
        }
    }
}

/// A graph well formed against a dictionary stays well formed when the
/// dictionary grows.
proof fn lemma_graph_wf_mono(g: Graph, order: int, l1: int, l2: int)
    requires
        graph_wf(g, order, l1),
        l1 <= l2,
    ensures
        graph_wf(g, order, l2),
{
    assert forall|i: int| 0 <= i < g.len() implies node_wf(#[trigger] g[i], order, l2) by {
        assert(node_wf(g[i], order, l1));
        assert forall|x: int| 0 <= x < g[i].0.len() implies token_in_dict(
            #[trigger] g[i].0[x],
            l2,
        ) by {
            assert(token_in_dict(g[i].0[x], l1));
        }
        assert forall|x: int| 0 <= x < g[i].1.len() implies token_in_dict(
            (#[trigger] g[i].1[x]).0,
            l2,
        ) by {
            assert(token_in_dict(g[i].1[x].0, l1));
        }
    }
}

/// Recording one window raises exactly its own key's sum, by one.
pub proof fn lemma_bump_key_sum(g: Graph, w: Window, key: Seq<Token>)
    requires
        graph_sane(g),
        graph_total(g) < u64::MAX as int,
    ensures
        key_sum(graph_bump(g, w), key) == key_sum(g, key) + (if w.0 == key {
            1int
        } else {
            0int
        }),
        graph_sane(graph_bump(g, w)),
        graph_total(graph_bump(g, w)) == graph_total(g) + 1,
{
    lemma_bump_total(g, w);
    let g2 = graph_bump(g, w);
    if graph_has_key(g, w.0) {
        let i = graph_idx(g, w.0);
        assert(0 <= i < g.len() && g[i].0 == w.0);
        let entries = g[i].1;
        if table_has(entries, w.1) {
            lemma_weight_le_table_sum(entries, table_idx(entries, w.1));
            lemma_table_sum_le_total(g, i);
        }
        lemma_bump_entry_sum(entries, w.1);
        assert(distinct_tokens(bump_entry(entries, w.1))) by {
            lemma_bump_preserves_distinct(entries, w.1);
        }
        assert(forall|x: int| 0 <= x < g2.len() && x != i ==> g2[x] == g[x]);
        assert(g2[i] == (w.0, bump_entry(entries, w.1)));
        assert(forall|x: int| 0 <= x < g2.len() ==> (#[trigger] g2[x]).0 == g[x].0);
        assert(graph_sane(g2));
        if graph_has_key(g2, key) {
            let j2 = graph_idx(g2, key);
            assert(0 <= j2 < g2.len() && g2[j2].0 == key);
            assert(graph_has_key(g, key));
            let j = graph_idx(g, key);
            assert(0 <= j < g.len() && g[j].0 == key);
            assert(j == j2) by {
                if j < j2 {
                    assert(g[j].0 != g[j2].0);
                }
                if j2 < j {
                    assert(g[j2].0 != g[j].0);
                }
            }
            if key == w.0 {
                assert(j == i) by {
                    if j < i {
                        assert(g[j].0 != g[i].0);
                    }
                    if i < j {
                        assert(g[i].0 != g[j].0);
                    }
                }
            } else {
                assert(j != i);
                assert(g2[j] == g[j]);
            }
        } else {
            assert(!graph_has_key(g, key)) by {
                if graph_has_key(g, key) {
                    let j = graph_idx(g, key);
                    assert(g2[j].0 == g[j].0);
                }
            }
            assert(key != w.0);
        }
    } else {
        assert(g2 == g.push((w.0, seq![(w.1, 1u64)])));
        assert(forall|x: int| 0 <= x < g.len() ==> g2[x] == g[x]);
        assert(g2[g.len() as int] == (w.0, seq![(w.1, 1u64)]));
        assert(table_weight_sum(seq![(w.1, 1u64)]) == 1) by {
            assert(seq![(w.1, 1u64)].drop_last() =~= Seq::<Edge>::empty());
            assert(table_weight_sum(Seq::<Edge>::empty()) == 0);
        }
        assert(graph_sane(g2)) by {
            assert(forall|x: int|
                0 <= x < g.len() ==> (#[trigger] g[x]).0 != w.0);
        }
        if key == w.0 {
            assert(graph_has_key(g2, key));
            assert(graph_idx(g2, key) == g.len() as int) by {
                let j = graph_idx(g2, key);
                assert(0 <= j < g2.len() && g2[j].0 == key);
                if j < g.len() {
                    assert(g[j].0 == w.0);
                }
            }
        } else {
            if graph_has_key(g2, key) {
                let j = graph_idx(g2, key);
                assert(0 <= j < g2.len() && g2[j].0 == key);
                assert(j < g.len());
                assert(graph_has_key(g, key));
                let j0 = graph_idx(g, key);
                assert(j0 == j) by {
                    if j0 < j {
                        assert(g2[j0].0 != g2[j].0);
                    }
                    if j < j0 {
                        assert(g2[j].0 != g2[j0].0);
                    }
                }
            } else {
                assert(!graph_has_key(g, key)) by {
                    if graph_has_key(g, key) {
                        let j = graph_idx(g, key);
                        assert(g2[j].0 == g[j].0);
                    }
                }
            }
        }
    }
}

/// Bumping a table keeps its symbols duplicate-free.
proof fn lemma_bump_preserves_distinct(entries: Seq<Edge>, t: Token)
    requires
        distinct_tokens(entries),
    ensures
        distinct_tokens(bump_entry(entries, t)),
{
    let b = bump_entry(entries, t);
    if table_has(entries, t) {
        let j = table_idx(entries, t);
        assert(forall|k: int| 0 <= k < b.len() && k != j ==> b[k] == entries[k]);
        assert(b[j].0 == t && entries[j].0 == t);
    } else {
        assert(forall|k: int| 0 <= k < entries.len() ==> b[k] == entries[k]);
        assert(forall|k: int| 0 <= k < entries.len() ==> (#[trigger] entries[k]).0 != t);
    }
}

/// Conservation: one training pass raises each context key's edge-table
/// sum by exactly the number of windows of the message that carry that
/// key — so after any sequence of passes from an empty model, every
/// key's sum equals the number of times that context was observed.
pub proof fn lemma_feed_conservation(g: Graph, ws: Seq<Window>, key: Seq<Token>)
    requires
        graph_sane(g),
        graph_total(g) + ws.len() <= u64::MAX as int,
    ensures
        key_sum(graph_feed(g, ws), key) == key_sum(g, key) + window_count(ws, key),
        graph_sane(graph_feed(g, ws)),
        graph_total(graph_feed(g, ws)) == graph_total(g) + ws.len(),
    decreases ws.len(),
{
    if ws.len() == 0 {
    } else {
        lemma_bump_key_sum(g, ws[0], key);
        lemma_feed_conservation(graph_bump(g, ws[0]), ws.drop_first(), key);
    }
}

/// Training passes compose: feeding two window sequences in turn is
/// feeding their concatenation.
pub proof fn lemma_graph_feed_concat(g: Graph, a: Seq<Window>, b: Seq<Window>)
    ensures
        graph_feed(g, a + b) == graph_feed(graph_feed(g, a), b),
    decreases a.len(),
{
    if a.len() == 0 {
        assert(a + b =~= b);
        assert(graph_feed(g, a) == g);
    } else {
        assert((a + b)[0] == a[0]);
        assert((a + b).drop_first() =~= a.drop_first() + b);
        lemma_graph_feed_concat(graph_bump(g, a[0]), a.drop_first(), b);
        assert(graph_feed(g, a) == graph_feed(graph_bump(g, a[0]), a.drop_first()));
    }
}

// ---------------------------------------------------------------------------
// Introspection
// ---------------------------------------------------------------------------

/// Insert an edge into a count-descending list: strictly heavier edges
/// go first, an equal-count edge stays after the ones already there.
pub open spec fn insert_desc(e: Edge, s: Seq<Edge>) -> Seq<Edge>
    decreases s.len(),
{
    if s.len() == 0 {
        seq![e]
    } else if e.1 > s[0].1 {
        seq![e] + s
    } else {
        seq![s[0]] + insert_desc(e, s.drop_first())
    }
}

/// The table sorted by count, heaviest first; ties keep their table
/// order, a deterministic tie-break.
pub open spec fn sort_desc(s: Seq<Edge>) -> Seq<Edge>
    decreases s.len(),
{
    if s.len() == 0 {
        Seq::empty()
    } else {
        insert_desc(s.last(), sort_desc(s.drop_last()))
    }
}

proof fn lemma_insert_desc_at(e: Edge, s: Seq<Edge>, pos: int)
    requires
        0 <= pos <= s.len(),
        forall|k: int| 0 <= k < pos ==> !(e.1 > (#[trigger] s[k]).1),
        pos < s.len() ==> e.1 > s[pos].1,
    ensures
        insert_desc(e, s) == s.subrange(0, pos) + seq![e] + s.subrange(pos, s.len() as int),
    decreases pos,
{
    if pos == 0 {
        if s.len() == 0 {
            assert(insert_desc(e, s) =~= s.subrange(0, 0) + seq![e] + s.subrange(
                0,
                s.len() as int,
            ));
        } else {
            assert(insert_desc(e, s) == seq![e] + s);
            assert(seq![e] + s =~= s.subrange(0, 0) + seq![e] + s.subrange(0, s.len() as int));
        }
    } else {
        let t = s.drop_first();
        assert(forall|k: int| 0 <= k < pos - 1 ==> !(e.1 > (#[trigger] t[k]).1));
        lemma_insert_desc_at(e, t, pos - 1);
        assert(seq![s[0]] + (t.subrange(0, pos - 1) + seq![e] + t.subrange(
            pos - 1,
            t.len() as int,
        )) =~= s.subrange(0, pos) + seq![e] + s.subrange(pos, s.len() as int));
    }
}

/// Insert one edge into a count-descending vector.
fn insert_desc_exec(acc: &mut Vec<Edge>, e: Edge)
    ensures
        final(acc)@ == insert_desc(e, old(acc)@),
{
    let ghost s = acc@;
    let n = acc.len();
    let mut pos: usize = 0;
    while pos < n && !(e.1 > acc[pos].1)
        invariant
            acc@ == s,
            n == s.len(),
            0 <= pos <= n,
            forall|k: int| 0 <= k < pos ==> !(e.1 > (#[trigger] s[k]).1),
        decreases n - pos,
    {
        pos += 1;
    }
    proof {
        lemma_insert_desc_at(e, s, pos as int);
    }
    acc.insert(pos, e);
    proof {
        assert(acc@ =~= s.subrange(0, pos as int) + seq![e] + s.subrange(
            pos as int,
            s.len() as int,
        ));
    }
}

/// Sort a table by count, heaviest first, with the deterministic
/// tie-break of table order.
fn sort_desc_exec(entries: &Vec<Edge>) -> (r: Vec<Edge>)
    ensures
        r@ == sort_desc(entries@),
{
    let mut acc: Vec<Edge> = Vec::new();
    let n = entries.len();
    assert(sort_desc(entries@.take(0)) == Seq::<Edge>::empty()) by {
        assert(entries@.take(0) =~= Seq::<Edge>::empty());
    }
    for i in 0..n
        invariant
            n == entries@.len(),
            acc@ == sort_desc(entries@.take(i as int)),
    {
        insert_desc_exec(&mut acc, entries[i]);
        proof {
            assert(entries@.take(i + 1).drop_last() =~= entries@.take(i as int));
        }
    }
    proof {
        assert(entries@.take(n as int) =~= entries@);
    }
    acc
}

/// One context key's report data: how many distinct next symbols it
/// has, and its heaviest edges.
pub struct WordStats {
    pub key: Vec<Token>,
    pub edge_count: usize,
    pub top_edges: Vec<Edge>,
}

impl Chain {
    /// The key's edge count and its `top_n` heaviest edges, when the key
    /// has a node.
    pub fn find_edge_stats(&self, key: &Vec<Token>, top_n: usize) -> (r: Option<WordStats>)
        requires
            self.wf(),
        ensures
            match r {
                Some(st) => graph_has_key(self.graph(), key@) && {
                    let entries = self.graph()[graph_idx(self.graph(), key@)].1;
                    &&& st.key@ == key@
                    &&& st.edge_count == entries.len()
                    &&& st.top_edges@ == sort_desc(entries).take(
                        if top_n <= entries.len() {
                            top_n as int
                        } else {
                            entries.len() as int
                        },
                    )
                },
                None => !graph_has_key(self.graph(), key@),
            },
    {
        match self.find_node(key) {
            None => None,
            Some(i) => {
                let ghost entries = self.graph()[i as int].1;
                let sorted = sort_desc_exec(&self.nodes[i].table.entries);
                proof {
                    lemma_sort_desc_len(entries);
                }
                let count = self.nodes[i].table.entries.len();
                let take_n = if top_n <= count {
                    top_n
                } else {
                    count
                };
                let mut top: Vec<Edge> = Vec::new();
                for x in 0..take_n
                    invariant
                        take_n <= sorted@.len(),
                        sorted@ == sort_desc(entries),
                        top@ == sort_desc(entries).take(x as int),
                    decreases take_n - x,
                {
                    top.push(sorted[x]);
                    proof {
                        assert(sort_desc(entries).take(x + 1) =~= sort_desc(entries).take(
                            x as int,
                        ).push(sort_desc(entries)[x as int]));
                    }
                }
                let mut k: Vec<Token> = Vec::new();
                let klen = key.len();
                for x in 0..klen
                    invariant
                        klen == key@.len(),
                        k@ == key@.take(x as int),
                    decreases klen - x,
                {
                    k.push(key[x]);
                    proof {
                        assert(key@.take(x + 1) =~= key@.take(x as int).push(key@[x as int]));
                    }
                }
                proof {
                    assert(k@ =~= key@);
                }
                Some(WordStats { key: k, edge_count: count, top_edges: top })
            },
        }
    }
}

/// Sorting keeps the table's length.
proof fn lemma_insert_desc_len(e: Edge, s: Seq<Edge>)
    ensures
        insert_desc(e, s).len() == s.len() + 1,
    decreases s.len(),
{
    if s.len() > 0 && !(e.1 > s[0].1) {
        lemma_insert_desc_len(e, s.drop_first());
    }
}

proof fn lemma_sort_desc_len(s: Seq<Edge>)
    ensures
        sort_desc(s).len() == s.len(),
    decreases s.len(),
{
    if s.len() > 0 {
        lemma_sort_desc_len(s.drop_last());
        lemma_insert_desc_len(s.last(), sort_desc(s.drop_last()));
    }
}

/// Sorting keeps every symbol resolvable.
proof fn lemma_insert_desc_in_dict(e: Edge, s: Seq<Edge>, dict_len: int)
    requires
        token_in_dict(e.0, dict_len),
        entries_in_dict(s, dict_len),
    ensures
        entries_in_dict(insert_desc(e, s), dict_len),
    decreases s.len(),
{
    if s.len() > 0 && !(e.1 > s[0].1) {
        assert(entries_in_dict(s.drop_first(), dict_len)) by {
            assert(forall|k: int|
                0 <= k < s.drop_first().len() ==> s.drop_first()[k] == s[k + 1]);
        }
        lemma_insert_desc_in_dict(e, s.drop_first(), dict_len);
        let r = insert_desc(e, s);
        assert(r == seq![s[0]] + insert_desc(e, s.drop_first()));
        assert forall|k: int| 0 <= k < r.len() implies token_in_dict(
            (#[trigger] r[k]).0,
            dict_len,
        ) by {
            if k > 0 {
                assert(r[k] == insert_desc(e, s.drop_first())[k - 1]);
            }
        }
    }
}

proof fn lemma_sort_desc_in_dict(s: Seq<Edge>, dict_len: int)
    requires
        entries_in_dict(s, dict_len),
    ensures
        entries_in_dict(sort_desc(s), dict_len),
    decreases s.len(),
{
    if s.len() > 0 {
        assert(entries_in_dict(s.drop_last(), dict_len)) by {
            assert(forall|k: int|
                0 <= k < s.drop_last().len() ==> s.drop_last()[k] == s[k]);
        }
        lemma_sort_desc_in_dict(s.drop_last(), dict_len);
        lemma_insert_desc_in_dict(s.last(), sort_desc(s.drop_last()), dict_len);
    }
}

/// A symbol's display text: its word, or a placeholder for the boundary
/// marker.
pub open spec fn token_text_spec(words: Seq<Seq<char>>, t: Token) -> Seq<char> {
    match t {
        Some(id) => words[id as int],
        None => "<None>"@,
    }
}

/// A key's display text: its symbols' texts joined with spaces.
pub open spec fn key_text_spec(words: Seq<Seq<char>>, key: Seq<Token>) -> Seq<char> {
    crate::strutil::join_sep(key.map_values(|t: Token| token_text_spec(words, t)), ' ')
}

/// The report lines for one edge list, heaviest first.
pub open spec fn edge_lines_spec(words: Seq<Seq<char>>, edges: Seq<Edge>) -> Seq<char>
    decreases edges.len(),
{
    if edges.len() == 0 {
        Seq::empty()
    } else {
        edge_lines_spec(words, edges.drop_last()) + "    -> "@ + token_text_spec(
            words,
            edges.last().0,
        ) + ": "@ + crate::strutil::dec_str(edges.last().1 as nat) + "\n"@
    }
}

/// The number of heaviest edges the report shows per key.
pub const TOP_EDGES_SHOWN: usize = 5;

/// The report section for one candidate key: nothing when the key has
/// no node, else its resolved key, edge count, and heaviest edges.
pub open spec fn key_section_spec(words: Seq<Seq<char>>, g: Graph, key: Seq<Token>) -> Seq<
    char,
> {
    if graph_has_key(g, key) {
        let entries = g[graph_idx(g, key)].1;
        let shown = if TOP_EDGES_SHOWN <= entries.len() {
            TOP_EDGES_SHOWN as int
        } else {
            entries.len() as int
        };
        "  -> key: "@ + key_text_spec(words, key) + "\n"@ + "  -> edge_count: "@
            + crate::strutil::dec_str(entries.len() as nat) + "\n"@ + "  -> top(5) edges:\n"@
            + edge_lines_spec(words, sort_desc(entries).take(shown))
    } else {
        Seq::empty()
    }
}

/// The report sections for a list of candidate keys, in order.
pub open spec fn key_sections_spec(words: Seq<Seq<char>>, g: Graph, keys: Seq<Seq<Token>>) -> Seq<
    char,
>
    decreases keys.len(),
{
    if keys.len() == 0 {
        Seq::empty()
    } else {
        key_sections_spec(words, g, keys.drop_last()) + key_section_spec(words, g, keys.last())
    }
}

/// The candidate key placing one word in the last slot of an otherwise
/// all-boundary key, or in the first.
pub open spec fn placed_key(id: u32, order: int, at_end: bool) -> Seq<Token> {
    Seq::new(
        order as nat,
        |i: int|
            if (at_end && i == order - 1) || (!at_end && i == 0) {
                Some(id)
            } else {
                None::<u32>
            },
    )
}

/// The whole phrase report: the queried words, their identifiers when
/// known, and each matching context key's edge summary.
pub open spec fn phrase_report_spec(
    words: Seq<Seq<char>>,
    g: Graph,
    order: int,
    toks: Seq<Seq<char>>,
) -> Seq<char> {
    let header = "==== Word Metadata ====\n"@ + "-> Word: `"@ + crate::strutil::join_sep(
        toks,
        ' ',
    ) + "`\n"@;
    let footer = "======================="@;
    let body = if toks.len() == 1 && has_word(words, toks[0]) {
        let id = id_of(words, toks[0]) as u32;
        "-> word_id: "@ + crate::strutil::dec_str(id as nat) + "\n"@ + "-> keys:\n"@
            + key_sections_spec(
            words,
            g,
            seq![placed_key(id, order, true), placed_key(id, order, false)],
        )
    } else if toks.len() == order && (forall|i: int|
        0 <= i < toks.len() ==> has_word(words, #[trigger] toks[i])) {
        let key = Seq::new(order as nat, |i: int| Some(id_of(words, toks[i]) as u32));
        "-> word_id: "@ + crate::strutil::join_sep(
            Seq::new(order as nat, |i: int| crate::strutil::dec_str(id_of(words, toks[i]) as nat)),
            ',',
        ) + "\n"@ + "-> keys:\n"@ + key_sections_spec(words, g, seq![key])
    } else {
        "-> word_id: not found\n"@
    };
    header + body + footer
}

impl Chain {
    /// A symbol's display text through this model's dictionary.
    fn token_text(&self, t: Token) -> (r: String)
        requires
            self.wf(),
            token_in_dict(t, self.words().len() as int),
        ensures
            r@ == token_text_spec(self.words(), t),
    {
        match t {
            Some(id) => match self.dict.resolve(id) {
                Some(w) => w.clone(),
                None => {
                    proof {
                        assert(false);
                    }
                    String::new()
                },
            },
            None => "<None>".to_owned(),
        }
    }

    /// The report section for one candidate key.
    fn key_section(&self, key: &Vec<Token>) -> (r: String)
        requires
            self.wf(),
            tokens_in_dict(key@, self.words().len() as int),
        ensures
            r@ == key_section_spec(self.words(), self.graph(), key@),
    {
        match self.find_edge_stats(key, TOP_EDGES_SHOWN) {
            None => String::new(),
            Some(st) => {
                let ghost gi = graph_idx(self.graph(), key@);
                let ghost entries = self.graph()[gi].1;
                proof {
                    assert(0 <= gi < self.graph().len() && self.graph()[gi].0 == key@);
                    assert(node_wf(
                        self.graph()[gi],
                        self.spec_order() as int,
                        self.words().len() as int,
                    ));
                }
                let mut out = "  -> key: ".to_owned();
                // Key text: symbols joined with spaces.
                let ghost parts = key@.map_values(
                    |t: Token| token_text_spec(self.words(), t),
                );
                let klen = key.len();
                assert(crate::strutil::join_sep(parts.take(0), ' ') == Seq::<char>::empty())
                    by {
                    assert(parts.take(0) =~= Seq::<Seq<char>>::empty());
                }
                let mut ktext = String::new();
                for i in 0..klen
                    invariant
                        self.wf(),
                        klen == key@.len(),
                        tokens_in_dict(key@, self.words().len() as int),
                        parts == key@.map_values(
                            |t: Token| token_text_spec(self.words(), t),
                        ),
                        ktext@ == crate::strutil::join_sep(parts.take(i as int), ' '),
                {
                    if i > 0 {
                        ktext.append(" ");
                    }
                    let t = self.token_text(key[i]);
                    ktext.append(t.as_str());
                    proof {
                        assert(parts.take(i + 1).drop_last() =~= parts.take(i as int));
                        assert(parts[i as int] == token_text_spec(
                            self.words(),
                            key@[i as int],
                        ));
                        if i == 0 {
                            assert(ktext@ =~= parts[0]);
                        } else {
                            assert(" "@ == seq![' ']) by {
                                reveal_strlit(" ");
                            }
                            assert(ktext@ =~= crate::strutil::join_sep(
                                parts.take(i as int),
                                ' ',
                            ) + seq![' '] + parts[i as int]);
                        }
                    }
                }
                proof {
                    assert(parts.take(klen as int) =~= parts);
                }
                out.append(ktext.as_str());
                out.append("\n");
                out.append("  -> edge_count: ");
                let cnt = crate::strutil::u64_to_string(st.edge_count as u64);
                out.append(cnt.as_str());
                out.append("\n");
                out.append("  -> top(5) edges:\n");
                // Edge lines, heaviest first.
                let ghost shown_edges = st.top_edges@;
                let elen = st.top_edges.len();
                assert(edge_lines_spec(self.words(), shown_edges.take(0)) == Seq::<
                    char,
                >::empty()) by {
                    assert(shown_edges.take(0) =~= Seq::<Edge>::empty());
                }
                proof {
                    assert(entries_in_dict(entries, self.words().len() as int));
                    lemma_sort_desc_in_dict(entries, self.words().len() as int);
                    lemma_sort_desc_len(entries);
                    let shown = if TOP_EDGES_SHOWN <= entries.len() {
                        TOP_EDGES_SHOWN as int
                    } else {
                        entries.len() as int
                    };
                    assert(shown_edges == sort_desc(entries).take(shown));
                    assert forall|x: int|
                        0 <= x < shown_edges.len() implies token_in_dict(
                        (#[trigger] shown_edges[x]).0,
                        self.words().len() as int,
                    ) by {
                        assert(shown_edges[x] == sort_desc(entries).take(shown)[x]);
                        assert(sort_desc(entries).take(shown)[x] == sort_desc(entries)[x]);
                        assert(token_in_dict(sort_desc(entries)[x].0, self.words().len() as int));
                    }
                }
                let ghost out_base = out@;
                for i in 0..elen
                    invariant
                        self.wf(),
                        elen == shown_edges.len(),
                        st.top_edges@ == shown_edges,
                        entries_in_dict(shown_edges, self.words().len() as int),
                        out@ == out_base + edge_lines_spec(
                            self.words(),
                            shown_edges.take(i as int),
                        ),
                {
                    let e = st.top_edges[i];
                    out.append("    -> ");
                    let t = self.token_text(e.0);
                    out.append(t.as_str());
                    out.append(": ");
                    let w = crate::strutil::u64_to_string(e.1);
                    out.append(w.as_str());
                    out.append("\n");
                    proof {
                        assert(shown_edges.take(i + 1).drop_last() =~= shown_edges.take(
                            i as int,
                        ));
                        assert(shown_edges.take(i + 1).last() == shown_edges[i as int]);
                        assert(out@ =~= out_base + edge_lines_spec(
                            self.words(),
                            shown_edges.take(i + 1),
                        ));
                    }
                }
                proof {
                    assert(shown_edges.take(elen as int) =~= shown_edges);
                    assert(out@ =~= key_section_spec(self.words(), self.graph(), key@));
                }
                out
            },
        }
    }
}

impl Chain {
    /// The phrase report: given one word or exactly `order` words,
    /// locate the matching context keys and report each one's outgoing
    /// edge count and heaviest edges.
    #[verifier::rlimit(80)]
    pub fn stats_for_phrase(&self, words: &Vec<String>) -> (r: String)
        requires
            self.wf(),
        ensures
            r@ == phrase_report_spec(
                self.words(),
                self.graph(),
                self.spec_order() as int,
                words.deep_view(),
            ),
    {
        let ghost toks = words.deep_view();
        let order = self.order;
        let mut out = "==== Word Metadata ====\n".to_owned();
        out.append("-> Word: `");
        let joined = crate::strutil::join_space(words);
        out.append(joined.as_str());
        out.append("`\n");
        let ghost header_done = out@;

        if words.len() == 1 {
            assert(toks[0] == words@[0]@);
            match self.dict.get(words[0].as_str()) {
                Some(id) => {
                    out.append("-> word_id: ");
                    let idtext = crate::strutil::u64_to_string(id as u64);
                    out.append(idtext.as_str());
                    out.append("\n");
                    out.append("-> keys:\n");
                    let mut key_end: Vec<Token> = Vec::new();
                    let mut key_front: Vec<Token> = Vec::new();
                    for x in 0..order
                        invariant
                            valid_order(order),
                            key_end@.len() == x,
                            key_front@.len() == x,
                            forall|k: int|
                                0 <= k < x ==> key_end@[k] == (if k == order - 1 {
                                    Some(id)
                                } else {
                                    None::<u32>
                                }),
                            forall|k: int|
                                0 <= k < x ==> key_front@[k] == (if k == 0 {
                                    Some(id)
                                } else {
                                    None::<u32>
                                }),
                    {
                        if x == order - 1 {
                            key_end.push(Some(id));
                        } else {
                            key_end.push(None);
                        }
                        if x == 0 {
                            key_front.push(Some(id));
                        } else {
                            key_front.push(None);
                        }
                    }
                    proof {
                        assert(key_end@ =~= placed_key(id, order as int, true));
                        assert(key_front@ =~= placed_key(id, order as int, false));
                        assert(0 <= id_of(self.words(), toks[0]) < self.words().len());
                        assert(tokens_in_dict(key_end@, self.words().len() as int));
                        assert(tokens_in_dict(key_front@, self.words().len() as int));
                    }
                    let s1 = self.key_section(&key_end);
                    out.append(s1.as_str());
                    let s2 = self.key_section(&key_front);
                    out.append(s2.as_str());
                    proof {
                        let w = self.words();
                        let g = self.graph();
                        let k1 = placed_key(id, order as int, true);
                        let k2 = placed_key(id, order as int, false);
                        let ks = seq![k1, k2];
                        assert(ks.last() == k2);
                        assert(ks.drop_last() =~= seq![k1]);
                        assert(seq![k1].last() == k1);
                        assert(seq![k1].drop_last() =~= Seq::<Seq<Token>>::empty());
                        assert(key_sections_spec(w, g, Seq::<Seq<Token>>::empty()) == Seq::<
                            char,
                        >::empty());
                        assert(key_sections_spec(w, g, seq![k1]) == key_sections_spec(
                            w,
                            g,
                            seq![k1].drop_last(),
                        ) + key_section_spec(w, g, k1));
                        assert(key_sections_spec(w, g, ks) == key_sections_spec(w, g, seq![k1])
                            + key_section_spec(w, g, k2));
                        assert(key_sections_spec(w, g, ks) =~= key_section_spec(w, g, k1)
                            + key_section_spec(w, g, k2));
                    }
                },
                None => {
                    out.append("-> word_id: not found\n");
                },
            }
        } else if words.len() == order {
            let mut ids: Vec<u32> = Vec::new();
            let mut all_known = true;
            let n = words.len();
            for x in 0..n
                invariant
                    self.wf(),
                    n == toks.len(),
                    words.deep_view() == toks,
                    all_known ==> ids@.len() == x,
                    all_known ==> forall|k: int|
                        0 <= k < x ==> has_word(self.words(), #[trigger] toks[k]),
                    all_known ==> forall|k: int|
                        0 <= k < x ==> (#[trigger] ids@[k]) == id_of(
                            self.words(),
                            toks[k],
                        ) as u32,
                    all_known ==> forall|k: int|
                        0 <= k < x ==> (#[trigger] ids@[k]) < self.words().len(),
                    !all_known ==> exists|k: int|
                        0 <= k < x && !has_word(self.words(), #[trigger] toks[k]),
            {
                assert(toks[x as int] == words@[x as int]@);
                match self.dict.get(words[x].as_str()) {
                    Some(id) => {
                        if all_known {
                            proof {
                                assert(0 <= id_of(self.words(), toks[x as int])
                                    < self.words().len());
                            }
                            ids.push(id);
                        }
                    },
                    None => {
                        all_known = false;
                    },
                }
            }
            if all_known {
                out.append("-> word_id: ");
                let ghost idparts = Seq::new(
                    order as nat,
                    |i: int| crate::strutil::dec_str(id_of(self.words(), toks[i]) as nat),
                );
                let mut idtext = String::new();
                assert(crate::strutil::join_sep(idparts.take(0), ',') == Seq::<char>::empty())
                    by {
                    assert(idparts.take(0) =~= Seq::<Seq<char>>::empty());
                }
                let m = ids.len();
                for x in 0..m
                    invariant
                        self.wf(),
                        m == order,
                        m == ids@.len(),
                        toks.len() == m,
                        forall|k: int| 0 <= k < m ==> has_word(self.words(), #[trigger] toks[k]),
                        idparts == Seq::new(
                            m as nat,
                            |i: int| crate::strutil::dec_str(
                                id_of(self.words(), toks[i]) as nat,
                            ),
                        ),
                        forall|k: int|
                            0 <= k < m ==> (#[trigger] ids@[k]) == id_of(
                                self.words(),
                                toks[k],
                            ) as u32,
                        idtext@ == crate::strutil::join_sep(idparts.take(x as int), ','),
                {
                    if x > 0 {
                        idtext.append(",");
                    }
                    let d = crate::strutil::u64_to_string(ids[x] as u64);
                    idtext.append(d.as_str());
                    proof {
                        assert(idparts.take(x + 1).drop_last() =~= idparts.take(x as int));
                        assert(has_word(self.words(), toks[x as int]));
                        assert(0 <= id_of(self.words(), toks[x as int]) < self.words().len());
                        assert(self.words().len() <= u32::MAX as int);
                        assert(idparts[x as int] == crate::strutil::dec_str(
                            id_of(self.words(), toks[x as int]) as nat,
                        ));
                        assert(ids@[x as int] == id_of(self.words(), toks[x as int]) as u32);
                        assert(d@ == idparts[x as int]);
                        if x == 0 {
                            assert(idtext@ =~= idparts[0]);
                        } else {
                            assert(","@ == seq![',']) by {
                                reveal_strlit(",");
                            }
                            assert(idtext@ =~= crate::strutil::join_sep(
                                idparts.take(x as int),
                                ',',
                            ) + seq![','] + idparts[x as int]);
                        }
                    }
                }
                proof {
                    assert(idparts.take(m as int) =~= idparts);
                }
                out.append(idtext.as_str());
                out.append("\n");
                out.append("-> keys:\n");
                let mut key: Vec<Token> = Vec::new();
                for x in 0..m
                    invariant
                        self.wf(),
                        m == order,
                        m == ids@.len(),
                        toks.len() == m,
                        key@.len() == x,
                        forall|k: int| 0 <= k < m ==> has_word(self.words(), #[trigger] toks[k]),
                        forall|k: int|
                            0 <= k < m ==> (#[trigger] ids@[k]) == id_of(
                                self.words(),
                                toks[k],
                            ) as u32,
                        forall|k: int|
                            0 <= k < m ==> (#[trigger] ids@[k]) < self.words().len(),
                        forall|k: int| 0 <= k < x ==> key@[k] == Some(ids@[k]),
                {
                    key.push(Some(ids[x]));
                }
                proof {
                    assert forall|i: int| 0 <= i < m implies key@[i] == Some(
                        id_of(self.words(), toks[i]) as u32,
                    ) by {
                        assert(key@[i] == Some(ids@[i]));
                    }
                    assert(key@ =~= Seq::new(
                        order as nat,
                        |i: int| Some(id_of(self.words(), toks[i]) as u32),
                    ));
                    assert(tokens_in_dict(key@, self.words().len() as int)) by {
                        assert forall|i: int|
                            0 <= i < key@.len() implies token_in_dict(
                            #[trigger] key@[i],
                            self.words().len() as int,
                        ) by {
                            assert(key@[i] == Some(ids@[i]));
                        }
                    }
                }
                let s1 = self.key_section(&key);
                out.append(s1.as_str());
                proof {
                    let w = self.words();
                    let g = self.graph();
                    let k1 = Seq::new(
                        order as nat,
                        |i: int| Some(id_of(self.words(), toks[i]) as u32),
                    );
                    let ks = seq![k1];
                    assert(ks.last() == k1);
                    assert(ks.drop_last() =~= Seq::<Seq<Token>>::empty());
                    assert(key_sections_spec(w, g, Seq::<Seq<Token>>::empty()) == Seq::<
                        char,
                    >::empty());
                    assert(key_sections_spec(w, g, ks) == key_sections_spec(
                        w,
                        g,
                        ks.drop_last(),
                    ) + key_section_spec(w, g, k1));
                    assert(key_sections_spec(w, g, ks) =~= key_section_spec(w, g, k1));
                    assert(key@ == k1);
                }
            } else {
                out.append("-> word_id: not found\n");
            }
        } else {
            out.append("-> word_id: not found\n");
        }
        out.append("=======================");
        proof {
            assert(out@ =~= phrase_report_spec(
                self.words(),
                self.graph(),
                self.spec_order() as int,
                toks,
            ));
        }
        out
    }
}

/// Retry degenerate echoes: generate (continuing from the trimmed seed
/// when one is given), and while the trimmed output equals the trimmed
/// seed, retry up to `max_samples` times, returning the last attempt —
/// which is always one generation call's output.
pub fn sample(generator: &Chain, token: &str, max_samples: usize) -> (r: String)
    requires
        generator.wf(),
    ensures
        crate::strutil::trim_spec(token@).len() == 0 ==> generated_from(
            generator.graph(),
            generator.words(),
            boundary_key(generator.spec_order() as int),
            Seq::empty(),
            r@,
            MAX_GENERATED_WORDS as int,
        ),
        (crate::strutil::trim_spec(token@).len() == 0 && !graph_has_key(
            generator.graph(),
            boundary_key(generator.spec_order() as int),
        )) ==> r@ == Seq::<char>::empty(),
        (crate::strutil::trim_spec(token@).len() > 0 && !has_word(
            generator.words(),
            crate::strutil::trim_spec(token@),
        )) ==> r@ == Seq::<char>::empty(),
        (crate::strutil::trim_spec(token@).len() > 0 && has_word(
            generator.words(),
            crate::strutil::trim_spec(token@),
        )) ==> r@.len() >= crate::strutil::trim_spec(token@).len() && r@.subrange(
            0,
            crate::strutil::trim_spec(token@).len() as int,
        ) == crate::strutil::trim_spec(token@) && generated_from(
            generator.graph(),
            generator.words(),
            placed_key(
                id_of(generator.words(), crate::strutil::trim_spec(token@)) as u32,
                generator.spec_order() as int,
                true,
            ),
            seq![id_of(generator.words(), crate::strutil::trim_spec(token@)) as u32],
            r@,
            MAX_GENERATED_WORDS as int,
        ),
{
    let ghost tview = crate::strutil::trim_spec(token@);
    let tok = crate::strutil::trim(token);
    let mut output = if tok.is_empty() {
        generator.generate()
    } else {
        generator.generate_from_token(tok)
    };
    let mut count: usize = 0;
    while count < max_samples
        invariant
            generator.wf(),
            tok@ == tview,
            tview.len() == 0 ==> generated_from(
                generator.graph(),
                generator.words(),
                boundary_key(generator.spec_order() as int),
                Seq::empty(),
                output@,
                MAX_GENERATED_WORDS as int,
            ),
            (tview.len() == 0 && !graph_has_key(
                generator.graph(),
                boundary_key(generator.spec_order() as int),
            )) ==> output@ == Seq::<char>::empty(),
            (tview.len() > 0 && !has_word(generator.words(), tview)) ==> output@
                == Seq::<char>::empty(),
            (tview.len() > 0 && has_word(generator.words(), tview)) ==> output@.len()
                >= tview.len() && output@.subrange(0, tview.len() as int) == tview
                && generated_from(
                generator.graph(),
                generator.words(),
                placed_key(
                    id_of(generator.words(), tview) as u32,
                    generator.spec_order() as int,
                    true,
                ),
                seq![id_of(generator.words(), tview) as u32],
                output@,
                MAX_GENERATED_WORDS as int,
            ),
        decreases max_samples - count,
    {
        let echoed = {
            let ot = crate::strutil::trim(output.as_str());
            crate::strutil::str_eq(ot, tok)
        };
        if !echoed {
            break ;
        }
        output = if tok.is_empty() {
            generator.generate()
        } else {
            generator.generate_from_token(tok)
        };
        count += 1;
    }
    output
}

/// Retry degenerate seed-sequence outputs: regenerate while the output
/// has at most one word or merely echoes the comma-joined seed, up to
/// `max_samples` times, returning the last attempt — which is always
/// one generation call's output. A seed whose length is not the model's
/// order yields the empty string.
pub fn sample_seq(generator: &Chain, words: &Vec<String>, max_samples: usize) -> (r: String)
    requires
        generator.wf(),
    ensures
        words@.len() != generator.spec_order() ==> r@ == Seq::<char>::empty(),
        (words@.len() == generator.spec_order() && (forall|s: int|
            0 <= s < generator.spec_order() - 1 ==> !suffix_known(
                generator.words(),
                words.deep_view(),
                s,
            ))) ==> r@ == Seq::<char>::empty(),
        words@.len() == generator.spec_order() ==> forall|s: int|
            (0 <= s < generator.spec_order() - 1 && #[trigger] suffix_known(
                generator.words(),
                words.deep_view(),
                s,
            ) && (forall|s2: int|
                0 <= s2 < s ==> !suffix_known(generator.words(), words.deep_view(), s2)))
                ==> generated_from(
                generator.graph(),
                generator.words(),
                align_key(
                    generator.words(),
                    words.deep_view(),
                    s,
                    generator.spec_order() as int,
                ),
                align_ids(generator.words(), words.deep_view(), s),
                r@,
                MAX_GENERATED_WORDS as int,
            ),
{
    let joined = crate::strutil::join_comma(words);
    let mut output = match generator.try_generate_from_token_sequence(words) {
        Ok(s) => s,
        Err(_) => String::new(),
    };
    let mut count: usize = 0;
    while count < max_samples
        invariant
            generator.wf(),
            words@.len() != generator.spec_order() ==> output@ == Seq::<char>::empty(),
            (words@.len() == generator.spec_order() && (forall|s: int|
                0 <= s < generator.spec_order() - 1 ==> !suffix_known(
                    generator.words(),
                    words.deep_view(),
                    s,
                ))) ==> output@ == Seq::<char>::empty(),
            words@.len() == generator.spec_order() ==> forall|s: int|
                (0 <= s < generator.spec_order() - 1 && #[trigger] suffix_known(
                    generator.words(),
                    words.deep_view(),
                    s,
                ) && (forall|s2: int|
                    0 <= s2 < s ==> !suffix_known(
                        generator.words(),
                        words.deep_view(),
                        s2,
                    ))) ==> generated_from(
                    generator.graph(),
                    generator.words(),
                    align_key(
                        generator.words(),
                        words.deep_view(),
                        s,
                        generator.spec_order() as int,
                    ),
                    align_ids(generator.words(), words.deep_view(), s),
                    output@,
                    MAX_GENERATED_WORDS as int,
                ),
        decreases max_samples - count,
    {
        let degenerate = {
            let ot = crate::strutil::trim(output.as_str());
            crate::strutil::count_words(ot) <= 1 || crate::strutil::str_eq(ot, joined.as_str())
        };
        if !degenerate {
            break ;
        }
        output = match generator.try_generate_from_token_sequence(words) {
            Ok(s) => s,
            Err(_) => String::new(),
        };
        count += 1;
    }
    output
}

/// A generation capability, exposed polymorphically so that consumers
/// can hold differently-ordered models behind one interface.
pub trait TextGenerator {
    spec fn inv(&self) -> bool;

    /// The generator's dictionary, as the words in identifier order.
    spec fn gen_words(&self) -> Seq<Seq<char>>;

    /// The generator's transition graph.
    spec fn gen_graph(&self) -> Graph;

    /// The generator's context-key width.
    spec fn gen_order(&self) -> usize;

    /// The generator's free-form metadata.
    spec fn gen_meta(&self) -> Seq<char>;

    fn generate_text(&self) -> (r: String)
        requires
            self.inv(),
        ensures
            generated_from(
                self.gen_graph(),
                self.gen_words(),
                boundary_key(self.gen_order() as int),
                Seq::empty(),
                r@,
                MAX_GENERATED_WORDS as int,
            ),
            !graph_has_key(self.gen_graph(), boundary_key(self.gen_order() as int)) ==> r@
                == Seq::<char>::empty(),
    ;

    fn generate_text_from_token(&self, word: &str) -> (r: String)
        requires
            self.inv(),
        ensures
            !has_word(self.gen_words(), word@) ==> r@ == Seq::<char>::empty(),
            has_word(self.gen_words(), word@) ==> r@.len() >= word@.len() && r@.subrange(
                0,
                word@.len() as int,
            ) == word@ && generated_from(
                self.gen_graph(),
                self.gen_words(),
                placed_key(
                    id_of(self.gen_words(), word@) as u32,
                    self.gen_order() as int,
                    true,
                ),
                seq![id_of(self.gen_words(), word@) as u32],
                r@,
                MAX_GENERATED_WORDS as int,
            ),
    ;

    fn try_generate_text_from_token_sequence(&self, words: &Vec<String>) -> (r: Result<
        String,
        ChainError,
    >)
        requires
            self.inv(),
        ensures
            r is Ok <==> words@.len() == self.gen_order(),
            r is Err ==> r == Result::<String, ChainError>::Err(
                ChainError::WrongSeedLength {
                    needed: self.gen_order(),
                    got: words@.len() as usize,
                },
            ),
            (match r {
                Ok(out) => {
                    &&& (forall|s: int|
                        0 <= s < self.gen_order() - 1 ==> !suffix_known(
                            self.gen_words(),
                            words.deep_view(),
                            s,
                        )) ==> out@ == Seq::<char>::empty()
                    &&& forall|s: int|
                        (0 <= s < self.gen_order() - 1 && #[trigger] suffix_known(
                            self.gen_words(),
                            words.deep_view(),
                            s,
                        ) && (forall|s2: int|
                            0 <= s2 < s ==> !suffix_known(
                                self.gen_words(),
                                words.deep_view(),
                                s2,
                            ))) ==> generated_from(
                            self.gen_graph(),
                            self.gen_words(),
                            align_key(
                                self.gen_words(),
                                words.deep_view(),
                                s,
                                self.gen_order() as int,
                            ),
                            align_ids(self.gen_words(), words.deep_view(), s),
                            out@,
                            MAX_GENERATED_WORDS as int,
                        )
                },
                Err(_) => true,
            }),
    ;

    fn model_meta_data(&self) -> (r: &str)
        requires
            self.inv(),
        ensures
            r@ == self.gen_meta(),
    ;

    fn phrase_meta_data(&self, words: &Vec<String>) -> (r: String)
        requires
            self.inv(),
        ensures
            r@ == phrase_report_spec(
                self.gen_words(),
                self.gen_graph(),
                self.gen_order() as int,
                words.deep_view(),
            ),
    ;
}

impl TextGenerator for Chain {
    open spec fn inv(&self) -> bool {
        self.wf()
    }

    open spec fn gen_words(&self) -> Seq<Seq<char>> {
        self.words()
    }

    open spec fn gen_graph(&self) -> Graph {
        self.graph()
    }

    open spec fn gen_order(&self) -> usize {
        self.spec_order()
    }

    open spec fn gen_meta(&self) -> Seq<char> {
        self.spec_meta()
    }

    fn generate_text(&self) -> (r: String) {
        self.generate()
    }

    fn generate_text_from_token(&self, word: &str) -> (r: String) {
        self.generate_from_token(word)
    }

    fn try_generate_text_from_token_sequence(&self, words: &Vec<String>) -> (r: Result<
        String,
        ChainError,
    >) {
        let r = self.try_generate_from_token_sequence(words);
        proof {
            let dv = words.deep_view();
            match &r {
                Ok(out) => {
                    if forall|s: int|
                        0 <= s < self.gen_order() - 1 ==> !suffix_known(
                            self.gen_words(),
                            dv,
                            s,
                        ) {
                        assert forall|s: int|
                            0 <= s < self.spec_order() - 1 implies !suffix_known(
                            self.words(),
                            dv,
                            s,
                        ) by {
                            assert(!suffix_known(self.gen_words(), dv, s));
                        }
                        assert(out@ == Seq::<char>::empty());
                    }
                    assert forall|s: int|
                        (0 <= s < self.gen_order() - 1 && suffix_known(
                            self.gen_words(),
                            dv,
                            s,
                        ) && (forall|s2: int|
                            0 <= s2 < s ==> !suffix_known(
                                self.gen_words(),
                                dv,
                                s2,
                            ))) implies generated_from(
                        self.gen_graph(),
                        self.gen_words(),
                        align_key(self.gen_words(), dv, s, self.gen_order() as int),
                        align_ids(self.gen_words(), dv, s),
                        out@,
                        MAX_GENERATED_WORDS as int,
                    ) by {
                        assert(suffix_known(self.words(), dv, s));
                        assert(forall|s2: int|
                            0 <= s2 < s ==> !suffix_known(self.words(), dv, s2));
                        assert(generated_from(
                            self.graph(),
                            self.words(),
                            align_key(self.words(), dv, s, self.spec_order() as int),
                            align_ids(self.words(), dv, s),
                            out@,
                            MAX_GENERATED_WORDS as int,
                        ));
                    }
                },
                Err(_) => {},
            }
        }
        r
    }

    fn model_meta_data(&self) -> (r: &str) {
        Chain::model_meta_data(self)
    }

    fn phrase_meta_data(&self, words: &Vec<String>) -> (r: String) {
        self.stats_for_phrase(words)
    }
}

/// Round trip at the model level: a well-formed model whose strings fit
/// the format serializes to a stream that parses back to exactly its
/// metadata, dictionary and graph.
pub proof fn lemma_chain_round_trip(m: Chain)
    requires
        m.wf(),
        ser::str_fits(m.spec_meta()),
        ser::words_fit(m.words()),
        m.words().len() < u32::MAX as int,
        m.graph().len() <= u64::MAX as int,
    ensures
        ser::parse_model(
            ser::enc_model(m.spec_meta(), m.spec_order() as u8, m.words(), m.graph()),
            m.spec_order() as int,
        ) == Some((m.spec_meta(), m.words(), m.graph())),
{
    assert(ser::sums_fit(m.graph())) by {
        assert forall|i: int|
            0 <= i < m.graph().len() implies table_weight_sum(
            (#[trigger] m.graph()[i]).1,
        ) <= u64::MAX as int by {
            assert(m.graph()[i].1 == m.nodes@[i].table.entries@);
            assert(m.nodes@[i].table.sum as int == table_weight_sum(
                m.nodes@[i].table.entries@,
            ));
        }
    }
    ser::lemma_round_trip(m.spec_meta(), m.spec_order() as u8, m.words(), m.graph());
}

/// Format rejection at the model level: cutting a model's serialized
/// stream anywhere before its final byte makes parsing fail.
pub proof fn lemma_chain_truncation_rejected(m: Chain, cut: int)
    requires
        m.wf(),
        ser::str_fits(m.spec_meta()),
        ser::words_fit(m.words()),
        m.words().len() < u32::MAX as int,
        m.graph().len() <= u64::MAX as int,
        0 <= cut < ser::enc_model(
            m.spec_meta(),
            m.spec_order() as u8,
            m.words(),
            m.graph(),
        ).len(),
    ensures
        ser::parse_model(
            ser::enc_model(m.spec_meta(), m.spec_order() as u8, m.words(), m.graph()).take(
                cut,
            ),
            m.spec_order() as int,
        ) is None,
{
    assert(ser::sums_fit(m.graph())) by {
        assert forall|i: int|
            0 <= i < m.graph().len() implies table_weight_sum(
            (#[trigger] m.graph()[i]).1,
        ) <= u64::MAX as int by {
            assert(m.graph()[i].1 == m.nodes@[i].table.entries@);
            assert(m.nodes@[i].table.sum as int == table_weight_sum(
                m.nodes@[i].table.entries@,
            ));
        }
    }
    ser::lemma_truncation_rejected(
        m.spec_meta(),
        m.spec_order() as u8,
        m.words(),
        m.graph(),
        cut,
    );
}

/// Keys, symbols and counts of the bumped node stay well formed.
proof fn lemma_bump_preserves_node_wf(g: Graph, i: int, t: Token, order: int, dict_len: int)
    requires
        0 <= i < g.len(),
        node_wf(g[i], order, dict_len),
        token_in_dict(t, dict_len),
        table_has(g[i].1, t) ==> g[i].1[table_idx(g[i].1, t)].1 < u64::MAX,
    ensures
        node_wf((g[i].0, bump_entry(g[i].1, t)), order, dict_len),
        distinct_tokens(bump_entry(g[i].1, t)),
{
    let entries = g[i].1;
    let b = bump_entry(entries, t);
    if table_has(entries, t) {
        let j = table_idx(entries, t);
        assert(forall|k: int| 0 <= k < b.len() && k != j ==> b[k] == entries[k]);
        assert(b[j].0 == t && entries[j].0 == t);
    } else {
        assert(forall|k: int| 0 <= k < entries.len() ==> b[k] == entries[k]);
        assert(b[entries.len() as int] == (t, 1u64));
        assert(forall|k: int| 0 <= k < entries.len() ==> (#[trigger] entries[k]).0 != t);
    }
}

/// True exactly when the two symbols are equal.
pub(crate) fn token_eq(a: Token, b: Token) -> (r: bool)
    ensures
        r == (a == b),
{
    match (a, b) {
        (None, None) => true,
        (Some(x), Some(y)) => x == y,
        _ => false,
    }
}

/// True exactly when the two keys hold the same symbols.
pub(crate) fn keys_equal(a: &Vec<Token>, b: &Vec<Token>) -> (r: bool)
    ensures
        r == (a@ == b@),
{
    if a.len() != b.len() {
        return false;
    }
    let n = a.len();
    for i in 0..n
        invariant
            n == a@.len() == b@.len(),
            forall|k: int| 0 <= k < i ==> a@[k] == b@[k],
    {
        if !token_eq(a[i], b[i]) {
            return false;
        }
    }
    proof {
        assert(a@ =~= b@);
    }
    true
}

/// The position of symbol `t` in the table, if it has an edge there.
pub(crate) fn find_edge(entries: &Vec<Edge>, t: Token) -> (r: Option<usize>)
    requires
        distinct_tokens(entries@),
    ensures
        match r {
            Some(j) => j < entries@.len() && entries@[j as int].0 == t && table_has(entries@, t)
                && j == table_idx(entries@, t),
            None => !table_has(entries@, t),
        },
{
    let n = entries.len();
    for j in 0..n
        invariant
            distinct_tokens(entries@),
            n == entries@.len(),
            forall|k: int| 0 <= k < j ==> (#[trigger] entries@[k]).0 != t,
    {
        if token_eq(entries[j].0, t) {
            assert(table_has(entries@, t));
            assert(table_idx(entries@, t) == j as int) by {
                let k = table_idx(entries@, t);
                assert(0 <= k < entries@.len() && entries@[k].0 == t);
                if k < j as int {
                    assert(entries@[k].0 != entries@[j as int].0);
                }
                if (j as int) < k {
                    assert(entries@[j as int].0 != entries@[k].0);
                }
            }
            return Some(j);
        }
    }
    None
}

} // verus!
