//! Topology bookkeeping for memory-node-aware scheduling: pure parsing
//! and distribution logic. Detecting the topology and pinning threads
//! touch the operating system and live outside the library.

use vstd::prelude::*;

verus! {

/// One memory node: its id, its processor cores, and its memory size.
#[derive(Debug, Clone)]
pub struct NumaNode {
    pub node_id: usize,
    pub cpu_cores: Vec<usize>,
    pub memory_size_mb: u64,
}

/// The machine's memory-node topology.
#[derive(Debug, Clone)]
pub struct NumaTopology {
    pub nodes: Vec<NumaNode>,
    pub total_cores: usize,
}

impl NumaTopology {
    /// The node owning a processor, if any: the first node whose core
    /// list holds it.
    pub fn node_for_cpu(&self, cpu: usize) -> (r: Option<usize>)
        ensures
            r is Some ==> exists|n: int|
                0 <= n < self.nodes@.len() && (#[trigger] self.nodes@[n]).cpu_cores@.contains(cpu)
                    && r->0 == self.nodes@[n].node_id && (forall|m: int|
                    0 <= m < n ==> !self.nodes@[m].cpu_cores@.contains(cpu)),
            r is None ==> forall|n: int|
                0 <= n < self.nodes@.len() ==> !(#[trigger] self.nodes@[n]).cpu_cores@.contains(
                    cpu,
                ),
    {
        let mut n: usize = 0;
        while n < self.nodes.len()
            invariant
                n <= self.nodes@.len(),
                forall|q: int|
                    0 <= q < n ==> !(#[trigger] self.nodes@[q]).cpu_cores@.contains(cpu),
            decreases self.nodes@.len() - n,
        {
            let node: &NumaNode = &self.nodes[n];
            let mut c: usize = 0;
            let mut found: bool = false;
            while c < node.cpu_cores.len()
                invariant
                    c <= node.cpu_cores@.len(),
                    found ==> node.cpu_cores@.contains(cpu),
                    !found ==> forall|q: int| 0 <= q < c ==> node.cpu_cores@[q] != cpu,
                decreases node.cpu_cores@.len() - c,
            {
                if node.cpu_cores[c] == cpu {
                    found = true;
                }
                c = c + 1;
            }
            if found {
                return Some(node.node_id);
            }
            n = n + 1;
        }
        None
    }

    /// Spread `total_chunks` chunk indices over the nodes, nearly
    /// evenly, earlier nodes taking the remainder. Every index is
    /// assigned exactly once, in order.
    pub fn distribute_chunks(&self, total_chunks: usize) -> (r: Vec<(usize, Vec<usize>)>)
        ensures
            spec_assigned(r@) == total_chunks,
            // Chunk indices are handed out in order, each exactly once:
            // entry `q` of group `g` is the running total before `g`,
            // plus `q`.
            forall|g: int, q: int|
                0 <= g < r@.len() && 0 <= q < r@[g].1@.len() ==> (#[trigger] r@[g].1@[q])
                    == spec_assigned(r@.subrange(0, g)) + q,
            // An empty topology yields one group, node zero, with all
            // the indices.
            self.nodes@.len() == 0 ==> r@.len() == 1 && r@[0].0 == 0 && r@[0].1@.len()
                == total_chunks,
            // With nodes, one group per node, balanced to within one:
            // the first `total % n` nodes take one extra index.
            self.nodes@.len() > 0 ==> r@.len() == self.nodes@.len() && (forall|g: int|
                0 <= g < r@.len() ==> (#[trigger] r@[g].1@.len()) == total_chunks as int
                    / self.nodes@.len() as int + (if g < total_chunks as int
                    % self.nodes@.len() as int {
                    1int
                } else {
                    0int
                })),
    {
        let mut distribution: Vec<(usize, Vec<usize>)> = Vec::new();
        if self.nodes.len() == 0 {
            let mut all: Vec<usize> = Vec::new();
            let mut id: usize = 0;
            while id < total_chunks
                invariant
                    id <= total_chunks,
                    all@.len() == id,
                    forall|q: int| 0 <= q < id ==> #[trigger] all@[q] == q,
                decreases total_chunks - id,
            {
                all.push(id);
                id = id + 1;
            }
            distribution.push((0, all));
            proof {
                assert(distribution@.drop_last() =~= Seq::<(usize, Vec<usize>)>::empty());
                assert(distribution@.last().1@.len() == all@.len());
                assert(spec_assigned(Seq::<(usize, Vec<usize>)>::empty()) == 0);
                assert(distribution@.subrange(0, 0) =~= Seq::<(usize, Vec<usize>)>::empty());
            }
            return distribution;
        }
        let node_count: usize = self.nodes.len();
        let chunks_per_node: usize = total_chunks / node_count;
        let remainder: usize = total_chunks % node_count;
        let mut chunk_id: usize = 0;
        let mut i: usize = 0;
        while i < node_count
            invariant
                node_count == self.nodes@.len() > 0,
                chunks_per_node as int == total_chunks as int / node_count as int,
                remainder as int == total_chunks as int % node_count as int,
                i <= node_count,
                chunk_id <= total_chunks,
                spec_assigned(distribution@) == chunk_id,
                distribution@.len() == i,
                chunk_id as int == i * (chunks_per_node as int) + (if i < remainder {
                    i as int
                } else {
                    remainder as int
                }),
                forall|g: int|
                    0 <= g < i ==> (#[trigger] distribution@[g].1@.len()) == chunks_per_node
                        as int + (if g < remainder {
                        1int
                    } else {
                        0int
                    }),
                forall|g: int, q: int|
                    0 <= g < distribution@.len() && 0 <= q < distribution@[g].1@.len() ==> (
                    #[trigger] distribution@[g].1@[q]) == spec_assigned(
                        distribution@.subrange(0, g),
                    ) + q,
            decreases node_count - i,
        {
            proof {
                if remainder >= 1 {
                    assert(total_chunks as int % 1 == 0) by (nonlinear_arith);
                    assert(node_count >= 2);
                    vstd::arithmetic::div_mod::lemma_div_is_ordered_by_denominator(
                        total_chunks as int,
                        2,
                        node_count as int,
                    );
                    vstd::arithmetic::div_mod::lemma_div_is_ordered(
                        total_chunks as int,
                        usize::MAX as int,
                        2,
                    );
                    assert(chunks_per_node < usize::MAX);
                }
            }
            let count: usize = if i < remainder {
                chunks_per_node + 1
            } else {
                chunks_per_node
            };
            let mut chunks: Vec<usize> = Vec::new();
            let mut c: usize = 0;
            let ghost start_id: int = chunk_id as int;
            proof {
                // The division accounts for every index: this node's
                // share still fits.
                lemma_division_accounts(total_chunks as int, node_count as int);
                assert((i + 1) * (chunks_per_node as int) <= node_count * (
                chunks_per_node as int)) by (nonlinear_arith)
                    requires
                        i + 1 <= node_count,
                        chunks_per_node >= 0,
                ;
                assert(i * (chunks_per_node as int) + (chunks_per_node as int) == (i + 1) * (
                chunks_per_node as int)) by (nonlinear_arith);
                assert(start_id + count <= total_chunks);
            }
            while c < count
                invariant
                    c <= count,
                    chunk_id <= total_chunks,
                    chunks@.len() == chunk_id - start_id,
                    start_id <= chunk_id,
                    start_id + count <= total_chunks,
                    chunk_id == start_id + c,
                    forall|q: int| 0 <= q < chunks@.len() ==> #[trigger] chunks@[q] == start_id + q,
                decreases count - c,
            {
                if chunk_id < total_chunks {
                    chunks.push(chunk_id);
                    chunk_id = chunk_id + 1;
                }
                c = c + 1;
            }
            proof {
                assert(chunks@.len() == count);
            }
            let ghost before: Seq<(usize, Vec<usize>)> = distribution@;
            distribution.push((self.nodes[i].node_id, chunks));
            proof {
                assert(distribution@.drop_last() =~= before);
                assert(distribution@.subrange(0, before.len() as int) =~= before);
                assert forall|g: int, q: int|
                    0 <= g < distribution@.len() && 0 <= q < distribution@[g].1@.len() implies (
                #[trigger] distribution@[g].1@[q]) == spec_assigned(
                    distribution@.subrange(0, g),
                ) + q by {
                    assert(distribution@.subrange(0, g) =~= before.subrange(0, g));
                    if g < distribution@.len() - 1 {
                        assert(distribution@[g] == before[g]);
                    } else {
                        assert(spec_assigned(before) == start_id);
                    }
                }
            }
            i = i + 1;
        }
        // Any chunks past a full division (only possible with zero
        // nodes) were handed out above; with nodes present the counts
        // sum to the total.
        proof {
            lemma_division_accounts(total_chunks as int, node_count as int);
            assert(remainder < node_count);
            assert((node_count as int) * (chunks_per_node as int) == (chunks_per_node as int) * (
            node_count as int)) by (nonlinear_arith);
            assert(chunk_id == total_chunks);
        }
        if chunk_id < total_chunks {
            let mut tailv: Vec<usize> = Vec::new();
            let ghost tail_start: int = chunk_id as int;
            while chunk_id < total_chunks
                invariant
                    chunk_id <= total_chunks,
                    spec_assigned(distribution@) + tailv@.len() == chunk_id,
                    tail_start + tailv@.len() == chunk_id,
                    forall|q: int|
                        0 <= q < tailv@.len() ==> #[trigger] tailv@[q] == tail_start + q,
                    forall|g: int, q: int|
                        0 <= g < distribution@.len() && 0 <= q < distribution@[g].1@.len() ==> (
                        #[trigger] distribution@[g].1@[q]) == spec_assigned(
                            distribution@.subrange(0, g),
                        ) + q,
                decreases total_chunks - chunk_id,
            {
                tailv.push(chunk_id);
                chunk_id = chunk_id + 1;
            }
            let ghost before: Seq<(usize, Vec<usize>)> = distribution@;
            distribution.push((0, tailv));
            proof {
                assert(distribution@.drop_last() =~= before);
                assert(distribution@.subrange(0, before.len() as int) =~= before);
                assert forall|g: int, q: int|
                    0 <= g < distribution@.len() && 0 <= q < distribution@[g].1@.len() implies (
                #[trigger] distribution@[g].1@[q]) == spec_assigned(
                    distribution@.subrange(0, g),
                ) + q by {
                    assert(distribution@.subrange(0, g) =~= before.subrange(0, g));
                    if g < distribution@.len() - 1 {
                        assert(distribution@[g] == before[g]);
                    } else {
                        assert(spec_assigned(before) == tail_start);
                    }
                }
            }
        }
        distribution
    }
}

/// Total number of chunk indices assigned.
pub open spec fn spec_assigned(d: Seq<(usize, Vec<usize>)>) -> int
    decreases d.len(),
{
    if d.len() == 0 {
        0
    } else {
        spec_assigned(d.drop_last()) + d.last().1@.len()
    }
}

/// Near-even division never exceeds the total.
proof fn lemma_division_accounts(total: int, nodes: int)
    requires
        nodes > 0,
        total >= 0,
    ensures
        (total / nodes) * nodes + total % nodes == total,
{
    vstd::arithmetic::div_mod::lemma_fundamental_div_mod(total, nodes);
    assert(nodes * (total / nodes) == (total / nodes) * nodes) by (nonlinear_arith);
}

/// Parse a processor list such as `0-3,8-11` into single indices.
///
/// Malformed pieces are skipped; a range `a-b` yields `a..=b`.
pub fn parse_cpu_list(cpu_list: &str) -> (r: Vec<usize>)
{
    let bytes: &[u8] = cpu_list.as_bytes();
    let t: &[u8] = crate::validator::trim_ascii(bytes);
    let mut cpus: Vec<usize> = Vec::new();
    let mut i: usize = 0;
    let n: usize = t.len();
    while i < n
        invariant
            n == t@.len(),
            i <= n,
        decreases n - i,
    {
        // One comma-separated piece: [i, piece_end).
        let mut piece_end: usize = i;
        while piece_end < n && t[piece_end] != 44
            invariant
                i <= piece_end <= n,
                n == t@.len(),
            decreases n - piece_end,
        {
            piece_end = piece_end + 1;
        }
        if piece_end > i {
            // Split at a dash, if any.
            let mut dash: usize = i;
            while dash < piece_end && t[dash] != 45
                invariant
                    i <= dash <= piece_end <= n,
                    n == t@.len(),
                decreases piece_end - dash,
            {
                dash = dash + 1;
            }
            if dash < piece_end {
                let a: Option<usize> = parse_usize_digits(t, i, dash);
                let b: Option<usize> = parse_usize_digits(t, dash + 1, piece_end);
                match (a, b) {
                    (Some(lo), Some(hi)) => {
                        let mut v: usize = lo;
                        while v < hi
                            invariant
                                v <= hi || v == lo,
                            decreases hi - v,
                        {
                            cpus.push(v);
                            v = v + 1;
                        }
                        if lo <= hi {
                            cpus.push(hi);
                        }
                    },
                    _ => {
                    },
                }
            } else {
                match parse_usize_digits(t, i, piece_end) {
                    Some(v) => {
                        cpus.push(v);
                    },
                    None => {
                    },
                }
            }
        }
        i = if piece_end < n {
            piece_end + 1
        } else {
            n
        };
        if piece_end >= n {
            return cpus;
        }
    }
    cpus
}

/// Parse the decimal digits in `[from, to)`; `None` when empty, out of
/// range, or holding a non-digit.
fn parse_usize_digits(t: &[u8], from: usize, to: usize) -> (r: Option<usize>)
    requires
        to <= t@.len(),
{
    if from >= to {
        return None;
    }
    let mut value: usize = 0;
    let mut i: usize = from;
    while i < to
        invariant
            from <= i <= to <= t@.len(),
        decreases to - i,
    {
        let b: u8 = t[i];
        if b < 48 || b > 57 {
            return None;
        }
        let d: usize = (b - 48) as usize;
        if value > (usize::MAX - d) / 10 {
            return None;
        }
        value = value * 10 + d;
        i = i + 1;
    }
    Some(value)
}

/// Parse the per-node total out of a memory-information text: the first
/// line that starts with `Node` and holds `MemTotal:` yields its
/// second-to-last whitespace-separated field, taken as KiB and returned
/// in MiB.
pub fn parse_memory_size(meminfo: &str) -> (r: Option<u64>)
{
    let bytes: &[u8] = meminfo.as_bytes();
    let n: usize = bytes.len();
    let mut line_start: usize = 0;
    while line_start < n
        invariant
            line_start <= n,
            n == bytes@.len(),
        decreases n - line_start,
    {
        let mut line_end: usize = line_start;
        while line_end < n && bytes[line_end] != 10
            invariant
                line_start <= line_end <= n,
                n == bytes@.len(),
            decreases n - line_end,
        {
            line_end = line_end + 1;
        }
        let line: &[u8] = vstd::slice::slice_subrange(bytes, line_start, line_end);
        if line_matches_node_total(line) {
            match second_to_last_field(line) {
                Some((f, t)) => {
                    match parse_u64_digits(line, f, t) {
                        Some(kb) => {
                            return Some(kb / 1024);
                        },
                        None => {
                        },
                    }
                },
                None => {
                },
            }
        }
        if line_end >= n {
            return None;
        }
        line_start = line_end + 1;
    }
    None
}

/// The line starts with `Node` and holds `MemTotal:`.
fn line_matches_node_total(line: &[u8]) -> (r: bool)
{
    let mut node: Vec<u8> = Vec::new();
    node.push(78);
    node.push(111);
    node.push(100);
    node.push(101);
    if line.len() < 4 {
        return false;
    }
    let head: &[u8] = vstd::slice::slice_subrange(line, 0, 4);
    if !crate::matcher::eq_bytes(head, node.as_slice()) {
        return false;
    }
    let mut needle: Vec<u8> = Vec::new();
    needle.push(77);
    needle.push(101);
    needle.push(109);
    needle.push(84);
    needle.push(111);
    needle.push(116);
    needle.push(97);
    needle.push(108);
    needle.push(58);
    crate::validator::contains_needle(line, needle.as_slice())
}

/// Bounds of the second-to-last whitespace-separated field.
fn second_to_last_field(line: &[u8]) -> (r: Option<(usize, usize)>)
    ensures
        r is Some ==> (r->0).0 <= (r->0).1 <= line@.len(),
{
    // Walk fields, remembering the last two.
    let n: usize = line.len();
    let mut i: usize = 0;
    let mut last: Option<(usize, usize)> = None;
    let mut before_last: Option<(usize, usize)> = None;
    while i < n
        invariant
            i <= n,
            n == line@.len(),
            last is Some ==> (last->0).0 <= (last->0).1 <= n,
            before_last is Some ==> (before_last->0).0 <= (before_last->0).1 <= n,
        decreases n - i,
    {
        // Skip whitespace.
        if line[i] == 32 || line[i] == 9 {
            i = i + 1;
        } else {
            let start: usize = i;
            while i < n && line[i] != 32 && line[i] != 9
                invariant
                    start <= i <= n,
                    n == line@.len(),
                decreases n - i,
            {
                i = i + 1;
            }
            before_last = last;
            last = Some((start, i));
        }
    }
    before_last
}

/// Parse the decimal digits in `[from, to)` as a `u64`.
fn parse_u64_digits(t: &[u8], from: usize, to: usize) -> (r: Option<u64>)
    requires
        to <= t@.len(),
{
    if from >= to {
        return None;
    }
    let mut value: u64 = 0;
    let mut i: usize = from;
    while i < to
        invariant
            from <= i <= to <= t@.len(),
        decreases to - i,
    {
        let b: u8 = t[i];
        if b < 48 || b > 57 {
            return None;
        }
        let d: u64 = (b - 48) as u64;
        if value > (u64::MAX - d) / 10 {
            return None;
        }
        value = value * 10 + d;
        i = i + 1;
    }
    Some(value)
}

} // verus!
