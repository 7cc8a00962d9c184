//! How the work of the fused path is divided: layers into chunks, positions into
//! cubes, columns among threads, and which chunk buffer is kept.
use vstd::prelude::*;

verus! {

/// Layers per chunk.
pub const CHUNK_G: usize = 8;

/// Threads of a cube.
pub const THREADS: u32 = 256;

/// The binary logarithm of [`THREADS`].
pub const LOG_THREADS: u32 = 8;

/// Consecutive layers that are folded in together.
#[derive(Clone, Copy, PartialEq, Eq, Structural)]
pub struct Chunk {
    /// The first layer.
    pub start: usize,
    /// The number of layers.
    pub rows: usize,
    /// This is the first chunk.
    pub first: bool,
    /// This is the last chunk.
    pub last: bool,
}

/// The number of rows of a chunk buffer for `l` layers.
pub open spec fn height(l: nat) -> nat {
    if l < CHUNK_G {
        l
    } else {
        CHUNK_G as nat
    }
}

/// The number of chunks of `l` layers: `l` over the height, rounded up.
pub open spec fn chunk_count(l: nat) -> nat {
    ((l + height(l) - 1) as nat) / height(l)
}

/// The chunk number `c` of `l` layers: as many rows as the buffer has or, in the
/// last chunk, as there are layers left.
pub open spec fn chunk(l: nat, c: nat) -> Chunk {
    let g = height(l);
    Chunk {
        start: (c * g) as usize,
        rows: (if l - c * g < g {
            l - c * g
        } else {
            g as int
        }) as usize,
        first: c == 0,
        last: c + 1 == chunk_count(l),
    }
}

/// All chunks but the last are full, and the last has at least one row.
pub proof fn lemma_chunk_count(l: nat)
    requires
        l > 0,
    ensures
        chunk_count(l) > 0,
        (chunk_count(l) - 1) * height(l) < l <= chunk_count(l) * height(l),
{
    let g = height(l);
    let n = chunk_count(l);
    vstd::arithmetic::div_mod::lemma_fundamental_div_mod(l + g - 1, g as int);
    assert(g * n == n * g) by (nonlinear_arith);
    assert((n - 1) * g == n * g - g) by (nonlinear_arith);
    assert(n > 0) by (nonlinear_arith)
        requires
            n * g > l - 1,
            l > 0,
            g > 0,
    ;
}

/// The layer `i` lies in the chunk `i / g` and in no other, in the row `i % g`.
pub proof fn lemma_every_layer_in_one_chunk(l: nat, i: nat)
    requires
        0 < l <= usize::MAX,
        i < l,
    ensures
        ({
            let c = i / height(l);
            &&& c < chunk_count(l)
            &&& chunk(l, c).start + i % height(l) == i
            &&& i % height(l) < chunk(l, c).rows <= height(l)
            &&& forall|e: nat|
                e < chunk_count(l) && #[trigger] chunk(l, e).start <= i < chunk(l, e).start + chunk(
                    l,
                    e,
                ).rows ==> e == c
        }),
{
    let g = height(l);
    let c = i / g;
    lemma_chunk_count(l);
    vstd::arithmetic::div_mod::lemma_fundamental_div_mod(i as int, g as int);
    assert(g * c == c * g) by (nonlinear_arith);
    assert(c < chunk_count(l)) by (nonlinear_arith)
        requires
            c * g <= i,
            i < l,
            l <= chunk_count(l) * g,
    ;
    assert forall|e: nat|
        e < chunk_count(l) && #[trigger] chunk(l, e).start <= i < chunk(l, e).start + chunk(
            l,
            e,
        ).rows implies e == c by {
        assert(0 <= e * g <= (chunk_count(l) - 1) * g) by (nonlinear_arith)
            requires
                e <= chunk_count(l) - 1,
        ;
        assert(e == c) by (nonlinear_arith)
            requires
                e * g <= i < e * g + g,
                c * g <= i < c * g + g,
        ;
    }
}

/// The chunks follow one another without a gap: the first starts at the first
/// layer, each other one where the one before it ends, and the last ends with the
/// last layer.
pub proof fn lemma_chunks_in_order(l: nat, c: nat)
    requires
        0 < l <= usize::MAX,
        c < chunk_count(l),
    ensures
        chunk(l, c).first <==> chunk(l, c).start == 0,
        chunk(l, c).last <==> chunk(l, c).start + chunk(l, c).rows == l,
        !chunk(l, c).last ==> chunk(l, c).rows == height(l) && chunk(l, c + 1).start == chunk(
            l,
            c,
        ).start + chunk(l, c).rows,
        chunk(l, c).rows > 0,
        chunk(l, c).start + chunk(l, c).rows <= l,
{
    let g = height(l);
    let n = chunk_count(l);
    lemma_chunk_count(l);
    assert(0 <= c * g <= (n - 1) * g) by (nonlinear_arith)
        requires
            c <= n - 1,
    ;
    assert(c > 0 ==> c * g > 0) by (nonlinear_arith)
        requires
            g > 0,
    ;
    assert(c == 0 ==> c * g == 0) by (nonlinear_arith);
    assert((c + 1) * g == c * g + g) by (nonlinear_arith);
    if c + 1 < n {
        assert((c + 1) * g <= (n - 1) * g) by (nonlinear_arith)
            requires
                c + 1 <= n - 1,
        ;
    }
}

/// The number of rows of a chunk buffer for `l` layers.
pub fn chunk_height(l: usize) -> (r: usize)
    ensures
        r == height(l as nat),
{
    if l < CHUNK_G {
        l
    } else {
        CHUNK_G
    }
}

/// The chunks of `l` layers, in their order.
pub fn chunk_plan(l: usize) -> (r: Vec<Chunk>)
    requires
        l > 0,
    ensures
        r@ == Seq::new(chunk_count(l as nat), |c: int| chunk(l as nat, c as nat)),
{
    let g = chunk_height(l);
    let mut plan: Vec<Chunk> = Vec::new();
    let mut start: usize = 0;
    let ghost n = chunk_count(l as nat);
    proof {
        lemma_chunk_count(l as nat);
        assert(0 * g == 0) by (nonlinear_arith);
    }
    while start < l
        invariant
            g == height(l as nat),
            g > 0,
            n == chunk_count(l as nat),
            plan.len() <= n,
            (n - 1) * g < l <= n * g,
            start == if plan.len() < n {
                plan.len() * g
            } else {
                l as int
            },
            forall|c: int|
                0 <= c < plan.len() ==> #[trigger] plan[c] == chunk(l as nat, c as nat),
        decreases l - start,
    {
        let ghost c = plan.len() as nat;
        proof {
            lemma_chunks_in_order(l as nat, c);
            assert((c + 1) * g == c * g + g) by (nonlinear_arith);
            assert(c + 1 < n ==> (c + 1) * g <= (n - 1) * g) by (nonlinear_arith)
                requires
                    g > 0,
            ;
            assert(c + 1 == n ==> (c + 1) * g == n * g);
        }
        let left = l - start;
        let rows = if left < g {
            left
        } else {
            g
        };
        plan.push(Chunk { start, rows, first: start == 0, last: rows == left });
        start += rows;
    }
    assert(plan.len() < n ==> plan.len() * g <= (n - 1) * g) by (nonlinear_arith)
        requires
            g > 0,
    ;
    assert(plan@ =~= Seq::new(n, |c: int| chunk(l as nat, c as nat)));
    plan
}

/// How one launch is divided.
#[derive(Clone, Copy, PartialEq, Eq, Structural)]
pub struct Geometry {
    /// One cube for each of the `b * t` positions.
    pub cubes: u32,
    /// Threads of a cube.
    pub threads: u32,
    /// Columns per thread.
    pub per: u32,
    /// Rounds of the reduction over the threads.
    pub rounds: u32,
}

/// The geometry of a launch over `[b, t, d]`, or nothing where the counts exceed
/// what a launch can address.
pub fn geometry(b: usize, t: usize, d: usize) -> (r: Option<Geometry>)
    ensures
        r is Some <==> b * t <= u32::MAX && d <= u32::MAX,
        r matches Some(g) ==> g.cubes == b * t && g.threads == THREADS && g.rounds == LOG_THREADS
            && g.per == (d + THREADS - 1) / THREADS as int,
{
    let positions = b.checked_mul(t)?;
    if positions > u32::MAX as usize || d > u32::MAX as usize {
        return None;
    }
    let d = d as u32;
    let per = if d % THREADS == 0 {
        d / THREADS
    } else {
        d / THREADS + 1
    };
    Some(Geometry { cubes: positions as u32, threads: THREADS, per, rounds: LOG_THREADS })
}

/// The column that the thread `tid` works on in its turn `j`.
pub open spec fn column(j: nat, tid: nat) -> nat {
    j * (THREADS as nat) + tid
}

/// Every column is worked on by one thread in one turn, and by no other.
pub proof fn lemma_every_column_once(d: nat, per: nat, col: nat)
    requires
        per == (d + THREADS - 1) / THREADS as int,
        col < d,
    ensures
        ({
            let j = col / (THREADS as nat);
            let tid = col % (THREADS as nat);
            &&& j < per
            &&& tid < THREADS
            &&& column(j, tid) == col
            &&& forall|i: nat, u: nat|
                u < THREADS && #[trigger] column(i, u) == col ==> i == j && u == tid
        }),
{
}

/// Lengths of the buffers of a launch, in elements.
#[derive(Clone, Copy, PartialEq, Eq, Structural)]
pub struct Buffers {
    /// `[b, t]`: one entry per position.
    pub positions: usize,
    /// `[b, t, d]`: one layer.
    pub layer: usize,
    /// `[g, b, t]`: the scores of a chunk.
    pub scores: usize,
    /// `[g, b, t, d]`: the layers of a chunk.
    pub chunk: usize,
}

/// The lengths of the buffers for chunks of `g` layers of shape `[b, t, d]`, or
/// nothing where they exceed the address space.
pub fn buffers(g: usize, b: usize, t: usize, d: usize) -> (r: Option<Buffers>)
    ensures
        r is None <==> b * t > usize::MAX || b * t * d > usize::MAX || g * (b * t) > usize::MAX || g
            * (b * t * d) > usize::MAX,
        r matches Some(s) ==> s.positions == b * t && s.layer == b * t * d && s.scores == g * (b
            * t) && s.chunk == g * (b * t * d),
{
    let positions = b.checked_mul(t)?;
    let layer = positions.checked_mul(d)?;
    let scores = g.checked_mul(positions)?;
    let chunk = g.checked_mul(layer)?;
    Some(Buffers { positions, layer, scores, chunk })
}

/// Where the score of the row `row` at the position `at` is kept.
pub open spec fn score_index(row: nat, positions: nat, at: nat) -> nat {
    row * positions + at
}

/// Where the column `col` at the position `at` of a layer is kept.
pub open spec fn layer_index(at: nat, d: nat, col: nat) -> nat {
    at * d + col
}

/// Where the column `col` at the position `at` of the row `row` is kept.
pub open spec fn chunk_index(row: nat, positions: nat, at: nat, d: nat, col: nat) -> nat {
    row * (positions * d) + layer_index(at, d, col)
}

/// Every place that a launch reads or writes lies in its buffer.
pub proof fn lemma_places_in_buffers(
    g: nat,
    positions: nat,
    d: nat,
    row: nat,
    at: nat,
    col: nat,
)
    requires
        row < g,
        at < positions,
        col < d,
    ensures
        score_index(row, positions, at) < g * positions,
        layer_index(at, d, col) < positions * d,
        chunk_index(row, positions, at, d, col) < g * (positions * d),
{
    assert(row * positions + positions <= g * positions) by (nonlinear_arith)
        requires
            row + 1 <= g,
    ;
    assert(at * d + d <= positions * d) by (nonlinear_arith)
        requires
            at + 1 <= positions,
    ;
    assert(row * (positions * d) + positions * d <= g * (positions * d)) by (nonlinear_arith)
        requires
            row + 1 <= g,
    ;
}

/// Two places of a chunk buffer are the same only if row, position and column are.
pub proof fn lemma_places_are_distinct(
    positions: nat,
    d: nat,
    row1: nat,
    at1: nat,
    col1: nat,
    row2: nat,
    at2: nat,
    col2: nat,
)
    requires
        at1 < positions,
        at2 < positions,
        col1 < d,
        col2 < d,
        chunk_index(row1, positions, at1, d, col1) == chunk_index(row2, positions, at2, d, col2),
    ensures
        row1 == row2,
        at1 == at2,
        col1 == col2,
{
    lemma_places_in_buffers(row1 + 1, positions, d, row1, at1, col1);
    lemma_places_in_buffers(row2 + 1, positions, d, row2, at2, col2);
    let layer = positions * d;
    assert(row1 == row2) by (nonlinear_arith)
        requires
            row1 * layer + layer_index(at1, d, col1) == row2 * layer + layer_index(at2, d, col2),
            0 <= layer_index(at1, d, col1) < layer,
            0 <= layer_index(at2, d, col2) < layer,
    ;
    assert(at1 == at2) by (nonlinear_arith)
        requires
            at1 * d + col1 == at2 * d + col2,
            col1 < d,
            col2 < d,
    ;
}

/// One buffer of the shape it was made for.
pub struct ChunkCache<T> {
    slot: Option<(usize, usize, usize, usize, T)>,
}

impl<T> View for ChunkCache<T> {
    type V = Option<(usize, usize, usize, usize, T)>;

    closed spec fn view(&self) -> Option<(usize, usize, usize, usize, T)> {
        self.slot
    }
}

impl<T> ChunkCache<T> {
    /// Nothing is kept.
    pub fn new() -> (r: Self)
        ensures
            r@ is None,
    {
        ChunkCache { slot: None }
    }

    /// The buffer that is kept, if it was made for this shape.
    pub fn get(&self, g: usize, b: usize, t: usize, d: usize) -> (r: Option<&T>)
        ensures
            r == match self@ {
                Some((cg, cb, ct, cd, buf)) if cg == g && cb == b && ct == t && cd == d => Some(
                    &buf,
                ),
                _ => None,
            },
    {
        match &self.slot {
            Some((cg, cb, ct, cd, buf)) => {
                if *cg == g && *cb == b && *ct == t && *cd == d {
                    Some(buf)
                } else {
                    None
                }
            },
            None => None,
        }
    }

    /// Keeps a buffer made for this shape, in place of the one that was kept.
    pub fn put(&mut self, g: usize, b: usize, t: usize, d: usize, buf: T)
        ensures
            final(self)@ == Some((g, b, t, d, buf)),
    {
        self.slot = Some((g, b, t, d, buf));
    }
}

} // verus!
