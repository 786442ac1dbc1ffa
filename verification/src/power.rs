//! The pipe network and power propagation: pipes form an undirected graph
//! over structure ids, power originates at Water structures with resource
//! remaining, and a depth-first walk marks every reachable consumer powered.

use vstd::prelude::*;
use crate::pipe::Pipe;
use crate::registry::StructureRegistry;
use crate::structure::{Structure, StructureType, can_be_powered_of};

verus! {

/// A structure that can originate power: a Water structure with resource
/// remaining.
pub open spec fn is_live_root(reg: StructureRegistry, id: i64) -> bool {
    &&& reg.has_id(id)
    &&& reg.structure_of(id).ty is Water
    &&& reg.structure_of(id).amount_spec() > 0
}

/// Whether `dst` can be reached from `src` over the pipe graph in at most
/// `k` steps.
pub open spec fn reach(ps: Seq<Pipe>, src: i64, dst: i64, k: nat) -> bool
    decreases k,
{
    if src == dst {
        true
    } else if k == 0 {
        false
    } else {
        exists|i: int|
            0 <= i < ps.len() && (#[trigger] ps[i]).touches(dst) && reach(
                ps,
                src,
                ps[i].other_end(dst),
                (k - 1) as nat,
            )
    }
}

/// Whether `dst` can be reached from `src` over the pipe graph.
pub open spec fn connected(ps: Seq<Pipe>, src: i64, dst: i64) -> bool {
    exists|k: nat| reach(ps, src, dst, k)
}

/// Whether some live Water root reaches `id` over the pipe graph.
pub open spec fn root_connected(reg: StructureRegistry, ps: Seq<Pipe>, id: i64) -> bool {
    exists|w: i64| is_live_root(reg, w) && #[trigger] connected(ps, w, id)
}

/// Whether structure `id` ends up powered: it is registered, its type can be
/// powered, and a live Water root reaches it over the pipes.
pub open spec fn consumer_powered(reg: StructureRegistry, ps: Seq<Pipe>, id: i64) -> bool {
    &&& reg.has_id(id)
    &&& can_be_powered_of(reg.structure_of(id).ty)
    &&& root_connected(reg, ps, id)
}

/// Every pipe of the sequence is well formed.
pub open spec fn pipes_wf(ps: Seq<Pipe>) -> bool {
    forall|i: int| 0 <= i < ps.len() ==> (#[trigger] ps[i]).wf()
}

/// Both endpoints of every pipe are registered structures.
pub open spec fn endpoints_registered(ps: Seq<Pipe>, reg: StructureRegistry) -> bool {
    forall|j: int|
        0 <= j < ps.len() ==> reg.has_id((#[trigger] ps[j]).start_id) && reg.has_id(ps[j].end_id)
}

/// Whether the source table holds an entry for consumer `id`.
pub open spec fn sources_has_key(srcs: Seq<(i64, i64)>, id: i64) -> bool {
    exists|q: int| 0 <= q < srcs.len() && (#[trigger] srcs[q]).0 == id
}

/// Whether some stack entry is about structure `id`.
pub open spec fn stack_has_sid(stack: Seq<(i64, i64, i64)>, id: i64) -> bool {
    exists|i: int| 0 <= i < stack.len() && (#[trigger] stack[i]).1 == id
}

/// Everything reached so far is registered and reachable from a live root.
pub open spec fn visited_ok(reg: StructureRegistry, ps: Seq<Pipe>, visited: Seq<i64>) -> bool {
    &&& forall|i: int| 0 <= i < visited.len() ==> reg.has_id(#[trigger] visited[i])
    &&& forall|i: int| 0 <= i < visited.len() ==> root_connected(reg, ps, #[trigger] visited[i])
}

/// A pending walk entry `(pipe id, structure id, root id)`: the structure is
/// registered and reachable from the live root, through a pipe of that id
/// whose far endpoint the root also reaches.
pub open spec fn stack_entry_ok(reg: StructureRegistry, ps: Seq<Pipe>, e: (i64, i64, i64)) -> bool {
    &&& reg.has_id(e.1)
    &&& is_live_root(reg, e.2)
    &&& connected(ps, e.2, e.1)
    &&& exists|j: int|
        0 <= j < ps.len() && (#[trigger] ps[j]).pipe_id == e.0 && ps[j].touches(e.1) && connected(
            ps,
            e.2,
            ps[j].other_end(e.1),
        )
}

pub open spec fn stack_ok(reg: StructureRegistry, ps: Seq<Pipe>, stack: Seq<(i64, i64, i64)>) -> bool {
    forall|i: int| 0 <= i < stack.len() ==> stack_entry_ok(reg, ps, #[trigger] stack[i])
}

/// A source table entry `(consumer id, root id)`: a registered consumer that
/// the live root reaches.
pub open spec fn source_entry_ok(reg: StructureRegistry, ps: Seq<Pipe>, e: (i64, i64)) -> bool {
    &&& reg.has_id(e.0)
    &&& can_be_powered_of(reg.structure_of(e.0).ty)
    &&& is_live_root(reg, e.1)
    &&& connected(ps, e.1, e.0)
}

pub open spec fn sources_ok(reg: StructureRegistry, ps: Seq<Pipe>, srcs: Seq<(i64, i64)>) -> bool {
    forall|q: int| 0 <= q < srcs.len() ==> source_entry_ok(reg, ps, #[trigger] srcs[q])
}

/// No consumer appears twice in the source table.
pub open spec fn sources_unique(srcs: Seq<(i64, i64)>) -> bool {
    forall|q1: int, q2: int|
        0 <= q1 < q2 < srcs.len() ==> (#[trigger] srcs[q1]).0 != (#[trigger] srcs[q2]).0
}

/// Every visited structure whose type can be powered has a source entry.
pub open spec fn sources_complete(
    reg: StructureRegistry,
    srcs: Seq<(i64, i64)>,
    visited: Seq<i64>,
) -> bool {
    forall|i: int|
        0 <= i < visited.len() && can_be_powered_of(
            reg.structure_of(#[trigger] visited[i]).ty,
        ) ==> sources_has_key(srcs, visited[i])
}

/// Every powered consumer has an incident pipe in the powered pipe list.
pub open spec fn sources_incident(
    ps: Seq<Pipe>,
    srcs: Seq<(i64, i64)>,
    pids: Seq<i64>,
) -> bool {
    forall|q: int|
        0 <= q < srcs.len() ==> exists|j: int|
            0 <= j < ps.len() && (#[trigger] ps[j]).touches((#[trigger] srcs[q]).0)
                && pids.contains(ps[j].pipe_id)
}

/// Every powered pipe id belongs to a pipe both of whose endpoints one live
/// root reaches.
pub open spec fn powered_pipes_ok(reg: StructureRegistry, ps: Seq<Pipe>, pids: Seq<i64>) -> bool {
    forall|q: int|
        0 <= q < pids.len() ==> exists|j: int|
            0 <= j < ps.len() && (#[trigger] ps[j]).pipe_id == #[trigger] pids[q] && exists|w: i64|
                is_live_root(reg, w) && #[trigger] connected(ps, w, ps[j].start_id) && connected(
                    ps,
                    w,
                    ps[j].end_id,
                )
}

/// Every pipe touching a live root is in the powered pipe list.
pub open spec fn root_pipes_done(reg: StructureRegistry, ps: Seq<Pipe>, pids: Seq<i64>) -> bool {
    forall|j: int|
        0 <= j < ps.len() && (is_live_root(reg, (#[trigger] ps[j]).start_id) || is_live_root(
            reg,
            ps[j].end_id,
        )) ==> pids.contains(ps[j].pipe_id)
}

/// Whether the root table has an entry for root `w`.
pub open spec fn roots_has(roots: Seq<(i64, i64)>, w: i64) -> bool {
    exists|q: int| 0 <= q < roots.len() && (#[trigger] roots[q]).1 == w
}

/// Every root table entry is a live root touched by a pipe of the recorded
/// id.
pub open spec fn roots_ok(reg: StructureRegistry, ps: Seq<Pipe>, roots: Seq<(i64, i64)>) -> bool {
    forall|q: int|
        0 <= q < roots.len() ==> is_live_root(reg, (#[trigger] roots[q]).1) && exists|j: int|
            0 <= j < ps.len() && (#[trigger] ps[j]).pipe_id == roots[q].0 && ps[j].touches(
                roots[q].1,
            )
}

/// Every live root that touches some pipe has a root table entry.
pub open spec fn roots_complete(
    reg: StructureRegistry,
    ps: Seq<Pipe>,
    roots: Seq<(i64, i64)>,
) -> bool {
    forall|j: int|
        0 <= j < ps.len() ==> {
            &&& (is_live_root(reg, (#[trigger] ps[j]).start_id) ==> roots_has(
                roots,
                ps[j].start_id,
            ))
            &&& (is_live_root(reg, ps[j].end_id) ==> roots_has(roots, ps[j].end_id))
        }
}

/// Every pipe neighbour of a visited structure is visited or pending on the
/// stack.
pub open spec fn frontier_ok(
    ps: Seq<Pipe>,
    visited: Seq<i64>,
    stack: Seq<(i64, i64, i64)>,
) -> bool {
    forall|x: i64, j: int|
        #![trigger visited.contains(x), ps[j]]
        visited.contains(x) && 0 <= j < ps.len() && ps[j].touches(x) ==> visited.contains(
            ps[j].other_end(x),
        ) || stack_has_sid(stack, ps[j].other_end(x))
}

/// Every pipe neighbour of a visited structure is visited.
pub open spec fn visited_closed(ps: Seq<Pipe>, visited: Seq<i64>) -> bool {
    forall|x: i64, j: int|
        #![trigger visited.contains(x), ps[j]]
        visited.contains(x) && 0 <= j < ps.len() && ps[j].touches(x) ==> visited.contains(
            ps[j].other_end(x),
        )
}

/// How many registered structures the walk has not visited yet.
pub open spec fn unvisited_count(ss: Seq<Structure>, visited: Seq<i64>) -> int
    decreases ss.len(),
{
    if ss.len() == 0 {
        0
    } else {
        unvisited_count(ss.drop_last(), visited) + if visited.contains(ss.last().id) {
            0int
        } else {
            1int
        }
    }
}

proof fn lemma_unvisited_bounds(ss: Seq<Structure>, visited: Seq<i64>)
    ensures
        0 <= unvisited_count(ss, visited) <= ss.len(),
    decreases ss.len(),
{
    if ss.len() > 0 {
        lemma_unvisited_bounds(ss.drop_last(), visited);
    }
}

proof fn lemma_unvisited_push(ss: Seq<Structure>, visited: Seq<i64>, x: i64)
    ensures
        unvisited_count(ss, visited.push(x)) <= unvisited_count(ss, visited),
    decreases ss.len(),
{
    if ss.len() > 0 {
        lemma_unvisited_push(ss.drop_last(), visited, x);
        vstd::seq_lib::lemma_seq_contains_after_push(visited, x, ss.last().id);
    }
}

proof fn lemma_unvisited_push_new(ss: Seq<Structure>, visited: Seq<i64>, x: i64, w: int)
    requires
        0 <= w < ss.len(),
        ss[w].id == x,
        !visited.contains(x),
    ensures
        unvisited_count(ss, visited.push(x)) <= unvisited_count(ss, visited) - 1,
    decreases ss.len(),
{
    vstd::seq_lib::lemma_seq_contains_after_push(visited, x, ss.last().id);
    if w == ss.len() - 1 {
        lemma_unvisited_push(ss.drop_last(), visited, x);
        assert(visited.push(x)[visited.len() as int] == x);
        assert(visited.push(x).contains(x));
    } else {
        assert(ss.drop_last()[w] == ss[w]);
        lemma_unvisited_push_new(ss.drop_last(), visited, x, w);
    }
}

/// Reaching anywhere is reflexive.
pub proof fn lemma_connected_refl(ps: Seq<Pipe>, x: i64)
    ensures
        connected(ps, x, x),
{
    assert(reach(ps, x, x, 0));
}

/// One pipe hop preserves reachability.
pub proof fn lemma_connected_step(ps: Seq<Pipe>, src: i64, u: i64, i: int)
    requires
        pipes_wf(ps),
        connected(ps, src, u),
        0 <= i < ps.len(),
        ps[i].touches(u),
    ensures
        connected(ps, src, ps[i].other_end(u)),
{
    let k = choose|k: nat| reach(ps, src, u, k);
    let v = ps[i].other_end(u);
    if v != src {
        assert(ps[i].touches(v));
        assert(ps[i].other_end(v) == u);
        assert(reach(ps, src, ps[i].other_end(v), k));
        assert(reach(ps, src, v, (k + 1) as nat));
    } else {
        lemma_connected_refl(ps, src);
    }
}

/// In a set of structures closed under pipe adjacency, everything reachable
/// from a member is a member.
proof fn lemma_reach_closed(ps: Seq<Pipe>, visited: Seq<i64>, src: i64, dst: i64, k: nat)
    requires
        pipes_wf(ps),
        reach(ps, src, dst, k),
        visited.contains(src),
        visited_closed(ps, visited),
    ensures
        visited.contains(dst),
    decreases k,
{
    if src != dst {
        let i = choose|i: int|
            0 <= i < ps.len() && (#[trigger] ps[i]).touches(dst) && reach(
                ps,
                src,
                ps[i].other_end(dst),
                (k - 1) as nat,
            );
        let other = ps[i].other_end(dst);
        lemma_reach_closed(ps, visited, src, other, (k - 1) as nat);
        assert(ps[i].touches(other));
        assert(ps[i].other_end(other) == dst);
    }
}

/// A path that leaves its start crosses some pipe touching the start.
proof fn lemma_reach_has_root_pipe(ps: Seq<Pipe>, src: i64, dst: i64, k: nat)
    requires
        pipes_wf(ps),
        reach(ps, src, dst, k),
        src != dst,
    ensures
        exists|j: int| 0 <= j < ps.len() && (#[trigger] ps[j]).touches(src),
    decreases k,
{
    let i = choose|i: int|
        0 <= i < ps.len() && (#[trigger] ps[i]).touches(dst) && reach(
            ps,
            src,
            ps[i].other_end(dst),
            (k - 1) as nat,
        );
    let other = ps[i].other_end(dst);
    if other == src {
        assert(ps[i].touches(src));
    } else {
        lemma_reach_has_root_pipe(ps, src, other, (k - 1) as nat);
    }
}

/// The result of one power recomputation: which consumer is powered from
/// which Water root, and which pipes carry power.
pub struct PowerState {
    /// `(consumer id, water root id)` pairs; the consumer ids are unique.
    pub sources: Vec<(i64, i64)>,
    /// Ids of pipes that carry power.
    pub powered_pipes: Vec<i64>,
}

impl PowerState {
    /// An empty power state: nothing powered.
    pub fn none() -> (st: PowerState)
        ensures
            st.sources@.len() == 0,
            st.powered_pipes@.len() == 0,
    {
        PowerState { sources: Vec::new(), powered_pipes: Vec::new() }
    }

    /// Whether consumer `id` is powered.
    pub fn is_powered(&self, id: i64) -> (r: bool)
        ensures
            r == sources_has_key(self.sources@, id),
    {
        let mut q: usize = 0;
        while q < self.sources.len()
            invariant
                q <= self.sources@.len(),
                forall|m: int| 0 <= m < q ==> (#[trigger] self.sources@[m]).0 != id,
            decreases self.sources@.len() - q,
        {
            if self.sources[q].0 == id {
                return true;
            }
            q += 1;
        }
        false
    }

    /// The Water root that powers consumer `id`, if any.
    pub fn source_of(&self, id: i64) -> (r: Option<i64>)
        ensures
            r matches Some(w) ==> exists|q: int|
                0 <= q < self.sources@.len() && #[trigger] self.sources@[q] == (id, w),
            r is None ==> !sources_has_key(self.sources@, id),
    {
        let mut q: usize = 0;
        while q < self.sources.len()
            invariant
                q <= self.sources@.len(),
                forall|m: int| 0 <= m < q ==> (#[trigger] self.sources@[m]).0 != id,
            decreases self.sources@.len() - q,
        {
            let e = self.sources[q];
            if e.0 == id {
                return Some(e.1);
            }
            q += 1;
        }
        None
    }

    /// Whether pipe `pid` carries power.
    pub fn pipe_powered(&self, pid: i64) -> (r: bool)
        ensures
            r == self.powered_pipes@.contains(pid),
    {
        let mut q: usize = 0;
        while q < self.powered_pipes.len()
            invariant
                q <= self.powered_pipes@.len(),
                forall|m: int| 0 <= m < q ==> self.powered_pipes@[m] != pid,
            decreases self.powered_pipes@.len() - q,
        {
            if self.powered_pipes[q] == pid {
                assert(self.powered_pipes@.contains(pid));
                return true;
            }
            q += 1;
        }
        false
    }
}

/// Whether a vector of ids holds `x`.
pub(crate) fn vec_has_i64(v: &Vec<i64>, x: i64) -> (r: bool)
    ensures
        r == v@.contains(x),
{
    let mut q: usize = 0;
    while q < v.len()
        invariant
            q <= v@.len(),
            forall|m: int| 0 <= m < q ==> v@[m] != x,
        decreases v@.len() - q,
    {
        if v[q] == x {
            assert(v@.contains(x));
            return true;
        }
        q += 1;
    }
    false
}

/// Whether `id` is a registered Water structure with resource remaining.
fn check_live_root(reg: &StructureRegistry, id: i64) -> (r: bool)
    requires
        reg.wf(),
    ensures
        r == is_live_root(*reg, id),
{
    match reg.find_index(id) {
        Some(i) => {
            let s = reg.get_at(i);
            match s.ty() {
                StructureType::Water => s.amount() > 0,
                _ => false,
            }
        },
        None => false,
    }
}

/// The pipes kept after pruning structure `id` from the first `n` pipes:
/// exactly those that do not touch `id`, in order.
pub open spec fn kept_pipes(ps: Seq<Pipe>, id: i64, n: int) -> Seq<Pipe>
    decreases n,
{
    if n <= 0 {
        Seq::empty()
    } else {
        let pre = kept_pipes(ps, id, n - 1);
        if ps[n - 1].touches(id) {
            pre
        } else {
            pre.push(ps[n - 1])
        }
    }
}

/// The ids of the pipes removed when pruning structure `id` from the first
/// `n` pipes: exactly those that touch `id`, in order.
pub open spec fn removed_pipe_ids(ps: Seq<Pipe>, id: i64, n: int) -> Seq<i64>
    decreases n,
{
    if n <= 0 {
        Seq::empty()
    } else {
        let pre = removed_pipe_ids(ps, id, n - 1);
        if ps[n - 1].touches(id) {
            pre.push(ps[n - 1].pipe_id)
        } else {
            pre
        }
    }
}

/// Pruning removes exactly the pipes touching `id`: every pipe that touches
/// `id` contributes its id to the removed list, and every other pipe is
/// kept.
pub proof fn lemma_prune_exact(ps: Seq<Pipe>, id: i64, n: int)
    requires
        0 <= n <= ps.len(),
    ensures
        forall|j: int|
            0 <= j < n && (#[trigger] ps[j]).touches(id) ==> removed_pipe_ids(
                ps,
                id,
                n,
            ).contains(ps[j].pipe_id),
        forall|j: int|
            0 <= j < n && !(#[trigger] ps[j]).touches(id) ==> kept_pipes(ps, id, n).contains(
                ps[j],
            ),
    decreases n,
{
    if n > 0 {
        lemma_prune_exact(ps, id, n - 1);
        let r_pre = removed_pipe_ids(ps, id, n - 1);
        let k_pre = kept_pipes(ps, id, n - 1);
        let r_now = removed_pipe_ids(ps, id, n);
        let k_now = kept_pipes(ps, id, n);
        assert forall|x: i64| r_pre.contains(x) implies r_now.contains(x) by {
            let q = choose|q: int| 0 <= q < r_pre.len() && r_pre[q] == x;
            assert(r_now[q] == x);
        }
        assert forall|x: Pipe| k_pre.contains(x) implies k_now.contains(x) by {
            let q = choose|q: int| 0 <= q < k_pre.len() && k_pre[q] == x;
            assert(k_now[q] == x);
        }
        if ps[n - 1].touches(id) {
            assert(r_now[r_now.len() - 1] == ps[n - 1].pipe_id);
            assert(r_now.contains(ps[n - 1].pipe_id));
        } else {
            assert(k_now[k_now.len() - 1] == ps[n - 1]);
            assert(k_now.contains(ps[n - 1]));
        }
    }
}

/// Whether some pipe among the first `n` touches `id` and has pipe id `x`.
pub open spec fn removed_from(ps: Seq<Pipe>, id: i64, n: int, x: i64) -> bool {
    exists|j: int| 0 <= j < n && (#[trigger] ps[j]).touches(id) && ps[j].pipe_id == x
}

/// Whether `p` is one of the first `n` pipes and does not touch `id`.
pub open spec fn kept_from(ps: Seq<Pipe>, id: i64, n: int, p: Pipe) -> bool {
    exists|j: int| 0 <= j < n && !(#[trigger] ps[j]).touches(id) && ps[j] == p
}

/// Nothing else is removed or kept: every removed id comes from a pipe that
/// touches `id`, and every kept pipe is one of the originals that does not.
pub proof fn lemma_prune_origin(ps: Seq<Pipe>, id: i64, n: int)
    requires
        0 <= n <= ps.len(),
    ensures
        forall|q: int|
            0 <= q < removed_pipe_ids(ps, id, n).len() ==> removed_from(
                ps,
                id,
                n,
                #[trigger] removed_pipe_ids(ps, id, n)[q],
            ),
        forall|q: int|
            0 <= q < kept_pipes(ps, id, n).len() ==> kept_from(
                ps,
                id,
                n,
                #[trigger] kept_pipes(ps, id, n)[q],
            ),
    decreases n,
{
    if n > 0 {
        lemma_prune_origin(ps, id, n - 1);
        let r_pre = removed_pipe_ids(ps, id, n - 1);
        let k_pre = kept_pipes(ps, id, n - 1);
        let r_now = removed_pipe_ids(ps, id, n);
        let k_now = kept_pipes(ps, id, n);
        assert forall|q: int| 0 <= q < r_now.len() implies removed_from(ps, id, n, #[trigger] r_now[q]) by {
            if q < r_pre.len() {
                assert(r_now[q] == r_pre[q]);
                assert(removed_from(ps, id, n - 1, r_pre[q]));
                let j0 = choose|j: int|
                    0 <= j < n - 1 && (#[trigger] ps[j]).touches(id) && ps[j].pipe_id == r_pre[q];
                assert(ps[j0].touches(id) && ps[j0].pipe_id == r_now[q]);
            } else {
                assert(ps[n - 1].touches(id) && ps[n - 1].pipe_id == r_now[q]);
            }
        }
        assert forall|q: int| 0 <= q < k_now.len() implies kept_from(ps, id, n, #[trigger] k_now[q]) by {
            if q < k_pre.len() {
                assert(k_now[q] == k_pre[q]);
                assert(kept_from(ps, id, n - 1, k_pre[q]));
                let j0 = choose|j: int|
                    0 <= j < n - 1 && !(#[trigger] ps[j]).touches(id) && ps[j] == k_pre[q];
                assert(!ps[j0].touches(id) && ps[j0] == k_now[q]);
            } else {
                assert(!ps[n - 1].touches(id) && ps[n - 1] == k_now[q]);
            }
        }
    } else {
        assert(removed_pipe_ids(ps, id, n).len() == 0);
        assert(kept_pipes(ps, id, n).len() == 0);
    }
}

/// Pruning a structure that no pipe references removes nothing and keeps
/// every pipe.
pub proof fn lemma_prune_no_refs(ps: Seq<Pipe>, id: i64)
    requires
        forall|j: int| 0 <= j < ps.len() ==> !(#[trigger] ps[j]).touches(id),
    ensures
        removed_pipe_ids(ps, id, ps.len() as int) == Seq::<i64>::empty(),
        kept_pipes(ps, id, ps.len() as int) == ps,
{
    lemma_prune_take(ps, id, ps.len() as int);
    assert(kept_pipes(ps, id, ps.len() as int) =~= ps);
    assert(removed_pipe_ids(ps, id, ps.len() as int) =~= Seq::<i64>::empty());
}

proof fn lemma_prune_take(ps: Seq<Pipe>, id: i64, n: int)
    requires
        0 <= n <= ps.len(),
        forall|j: int| 0 <= j < ps.len() ==> !(#[trigger] ps[j]).touches(id),
    ensures
        removed_pipe_ids(ps, id, n).len() == 0,
        kept_pipes(ps, id, n) == ps.take(n),
    decreases n,
{
    if n > 0 {
        lemma_prune_take(ps, id, n - 1);
        assert(kept_pipes(ps, id, n) =~= ps.take(n));
    } else {
        assert(kept_pipes(ps, id, 0) =~= ps.take(0));
    }
}

/// The undirected pipe graph.
pub struct PipeNetwork {
    pub pipes: Vec<Pipe>,
}

impl PipeNetwork {
    /// Every pipe is well formed.
    pub open spec fn wf(self) -> bool {
        forall|i: int| 0 <= i < self.pipes@.len() ==> (#[trigger] self.pipes@[i]).wf()
    }

    /// An empty network.
    pub fn new() -> (n: PipeNetwork)
        ensures
            n.wf(),
            n.pipes@.len() == 0,
    {
        PipeNetwork { pipes: Vec::new() }
    }

    /// How many pipes the network holds.
    pub fn count(&self) -> (n: usize)
        ensures
            n == self.pipes@.len(),
    {
        self.pipes.len()
    }

    /// Adds a pipe joining `start_id` and `end_id` under `pipe_id`.
    pub fn add(&mut self, pipe_id: i64, start_id: i64, end_id: i64)
        requires
            old(self).wf(),
            start_id != end_id,
            pipe_id != start_id,
            pipe_id != end_id,
        ensures
            final(self).wf(),
            final(self).pipes@ == old(self).pipes@.push(
                Pipe::spec_canonical(pipe_id, start_id, end_id),
            ),
    {
        let p = Pipe::new(pipe_id, start_id, end_id);
        self.pipes.push(p);
    }

    /// Removes every pipe touching `id` and returns the removed pipe ids, in
    /// order; a structure no pipe references yields an empty list.
    pub fn prune_structure(&mut self, id: i64) -> (removed: Vec<i64>)
        requires
            old(self).wf(),
        ensures
            final(self).wf(),
            final(self).pipes@ == kept_pipes(old(self).pipes@, id, old(self).pipes@.len() as int),
            removed@ == removed_pipe_ids(old(self).pipes@, id, old(self).pipes@.len() as int),
    {
        let ghost orig = self.pipes@;
        let mut kept: Vec<Pipe> = Vec::new();
        let mut removed: Vec<i64> = Vec::new();
        let mut k: usize = 0;
        while k < self.pipes.len()
            invariant
                self.wf(),
                self.pipes@ == orig,
                k <= orig.len(),
                kept@ == kept_pipes(orig, id, k as int),
                removed@ == removed_pipe_ids(orig, id, k as int),
            decreases orig.len() - k,
        {
            let p = self.pipes[k];
            if p.start_node_id() == id || p.end_node_id() == id {
                removed.push(p.pipe_node_id());
            } else {
                kept.push(p);
            }
            k += 1;
        }
        self.pipes = kept;
        proof {
            lemma_prune_origin(orig, id, orig.len() as int);
            assert forall|i: int| 0 <= i < self.pipes@.len() implies (
            #[trigger] self.pipes@[i]).wf() by {
                assert(kept_from(orig, id, orig.len() as int, kept_pipes(orig, id, orig.len() as int)[i]));
                let j0 = choose|j: int|
                    0 <= j < orig.len() && !(#[trigger] orig[j]).touches(id) && orig[j]
                        == self.pipes@[i];
                assert(orig[j0].wf());
            }
        }
        removed
    }
}


/// The frontier obligation while one entry about `sid` is in hand: every
/// neighbour of a visited structure is visited, pending on the stack, or is
/// `sid` itself.
pub open spec fn frontier_except(
    ps: Seq<Pipe>,
    visited: Seq<i64>,
    stack: Seq<(i64, i64, i64)>,
    sid: i64,
) -> bool {
    forall|x: i64, j: int|
        #![trigger visited.contains(x), ps[j]]
        visited.contains(x) && 0 <= j < ps.len() && ps[j].touches(x) ==> visited.contains(
            ps[j].other_end(x),
        ) || stack_has_sid(stack, ps[j].other_end(x)) || ps[j].other_end(x) == sid
}

/// Whether `e` describes a pipe touching `node`: some pipe has id `e.0`,
/// touches `node`, and its far endpoint from `node` is `e.1`.
pub open spec fn adj_pair_ok(ps: Seq<Pipe>, node: i64, e: (i64, i64)) -> bool {
    exists|j: int|
        0 <= j < ps.len() && (#[trigger] ps[j]).pipe_id == e.0 && ps[j].touches(node)
            && ps[j].other_end(node) == e.1
}

/// The roots up to position `upto` are visited or pending on the stack.
pub open spec fn roots_covered(
    roots: Seq<(i64, i64)>,
    upto: int,
    visited: Seq<i64>,
    stack: Seq<(i64, i64, i64)>,
) -> bool {
    forall|q: int|
        0 <= q < upto && q < roots.len() ==> visited.contains((#[trigger] roots[q]).1)
            || stack_has_sid(stack, roots[q].1)
}

/// Like `roots_covered`, but a root may also be the structure in hand.
pub open spec fn covered_except(
    roots: Seq<(i64, i64)>,
    upto: int,
    visited: Seq<i64>,
    stack: Seq<(i64, i64, i64)>,
    sid: i64,
) -> bool {
    forall|q: int|
        0 <= q < upto && q < roots.len() ==> visited.contains((#[trigger] roots[q]).1)
            || stack_has_sid(stack, roots[q].1) || roots[q].1 == sid
}

/// Popping the top entry keeps the stack sound and weakens the frontier and
/// the root coverage only by the entry taken in hand.
proof fn lemma_pop(
    reg: StructureRegistry,
    ps: Seq<Pipe>,
    roots: Seq<(i64, i64)>,
    upto: int,
    visited: Seq<i64>,
    stack0: Seq<(i64, i64, i64)>,
)
    requires
        stack0.len() > 0,
        stack_ok(reg, ps, stack0),
        frontier_ok(ps, visited, stack0),
        roots_covered(roots, upto, visited, stack0),
    ensures
        stack_ok(reg, ps, stack0.drop_last()),
        stack_entry_ok(reg, ps, stack0.last()),
        frontier_except(ps, visited, stack0.drop_last(), stack0.last().1),
        covered_except(roots, upto, visited, stack0.drop_last(), stack0.last().1),
{
    let stack1 = stack0.drop_last();
    let sid = stack0.last().1;
    assert forall|i: int| 0 <= i < stack1.len() implies stack_entry_ok(
        reg,
        ps,
        #[trigger] stack1[i],
    ) by {
        assert(stack1[i] == stack0[i]);
    }
    assert forall|x: i64, jj: int|
        #![trigger visited.contains(x), ps[jj]]
        visited.contains(x) && 0 <= jj < ps.len() && ps[jj].touches(x) implies visited.contains(
        ps[jj].other_end(x),
    ) || stack_has_sid(stack1, ps[jj].other_end(x)) || ps[jj].other_end(x) == sid by {
        let other = ps[jj].other_end(x);
        if !visited.contains(other) {
            assert(stack_has_sid(stack0, other));
            let i = choose|i: int| 0 <= i < stack0.len() && (#[trigger] stack0[i]).1 == other;
            if i < stack0.len() - 1 {
                assert(stack1[i] == stack0[i]);
                assert(stack_has_sid(stack1, other));
            }
        }
    }
    assert forall|q: int| 0 <= q < upto && q < roots.len() implies visited.contains(
        (#[trigger] roots[q]).1,
    ) || stack_has_sid(stack1, roots[q].1) || roots[q].1 == sid by {
        if !visited.contains(roots[q].1) {
            assert(stack_has_sid(stack0, roots[q].1));
            let i = choose|i: int| 0 <= i < stack0.len() && (#[trigger] stack0[i]).1 == roots[q].1;
            if i < stack0.len() - 1 {
                assert(stack1[i] == stack0[i]);
                assert(stack_has_sid(stack1, roots[q].1));
            }
        }
    }
}

/// Once the structure in hand is visited, frontier and coverage hold again
/// on any stack that keeps the old entries.
proof fn lemma_after_visit(
    roots: Seq<(i64, i64)>,
    upto: int,
    visited0: Seq<i64>,
    sid: i64,
    stack1: Seq<(i64, i64, i64)>,
    stack2: Seq<(i64, i64, i64)>,
)
    requires
        covered_except(roots, upto, visited0, stack1, sid),
        forall|i: int| 0 <= i < stack1.len() ==> #[trigger] stack2[i] == stack1[i],
        stack2.len() >= stack1.len(),
    ensures
        roots_covered(roots, upto, visited0.push(sid), stack2),
{
    let visited = visited0.push(sid);
    assert(visited[visited.len() - 1] == sid);
    assert(visited.contains(sid));
    assert forall|q: int| 0 <= q < upto && q < roots.len() implies visited.contains(
        (#[trigger] roots[q]).1,
    ) || stack_has_sid(stack2, roots[q].1) by {
        if visited0.contains(roots[q].1) {
            let vq = choose|vq: int| 0 <= vq < visited0.len() && visited0[vq] == roots[q].1;
            assert(visited[vq] == roots[q].1);
        } else if stack_has_sid(stack1, roots[q].1) {
            let i = choose|i: int| 0 <= i < stack1.len() && (#[trigger] stack1[i]).1 == roots[q].1;
            assert(stack2[i] == stack1[i]);
            assert(stack_has_sid(stack2, roots[q].1));
        }
    }
}

/// Discarding an already-visited entry keeps frontier and coverage.
proof fn lemma_discard(
    ps: Seq<Pipe>,
    roots: Seq<(i64, i64)>,
    upto: int,
    visited: Seq<i64>,
    stack1: Seq<(i64, i64, i64)>,
    sid: i64,
)
    requires
        visited.contains(sid),
        frontier_except(ps, visited, stack1, sid),
        covered_except(roots, upto, visited, stack1, sid),
    ensures
        frontier_ok(ps, visited, stack1),
        roots_covered(roots, upto, visited, stack1),
{
}

/// Appending a well-formed stack entry keeps the stack well formed.
proof fn lemma_stack_ok_push(
    reg: StructureRegistry,
    ps: Seq<Pipe>,
    stack: Seq<(i64, i64, i64)>,
    e: (i64, i64, i64),
)
    requires
        stack_ok(reg, ps, stack),
        stack_entry_ok(reg, ps, e),
    ensures
        stack_ok(reg, ps, stack.push(e)),
{
    assert forall|i: int| 0 <= i < stack.push(e).len() implies stack_entry_ok(
        reg,
        ps,
        #[trigger] stack.push(e)[i],
    ) by {
        if i < stack.len() {
            assert(stack.push(e)[i] == stack[i]);
        } else {
            assert(stack.push(e)[i] == e);
        }
    }
}

/// Appending a stack entry loses no pending structure.
proof fn lemma_stack_has_sid_push(stack: Seq<(i64, i64, i64)>, e: (i64, i64, i64), x: i64)
    requires
        stack_has_sid(stack, x),
    ensures
        stack_has_sid(stack.push(e), x),
{
    let i = choose|i: int| 0 <= i < stack.len() && (#[trigger] stack[i]).1 == x;
    assert(stack.push(e)[i].1 == x);
}

/// The structure of a freshly appended stack entry is pending.
proof fn lemma_stack_has_sid_pushed(stack: Seq<(i64, i64, i64)>, e: (i64, i64, i64))
    ensures
        stack_has_sid(stack.push(e), e.1),
{
    assert(stack.push(e)[stack.len() as int].1 == e.1);
}

impl PipeNetwork {
    /// All `(pipe id, far endpoint)` pairs of pipes touching `node_id`; one
    /// pair per touching pipe.
    fn adjacent_pairs(&self, node_id: i64) -> (r: Vec<(i64, i64)>)
        requires
            self.wf(),
        ensures
            r@.len() <= self.pipes@.len(),
            forall|q: int|
                0 <= q < r@.len() ==> adj_pair_ok(self.pipes@, node_id, #[trigger] r@[q]),
            forall|j: int|
                0 <= j < self.pipes@.len() && (#[trigger] self.pipes@[j]).touches(node_id)
                    ==> r@.contains(
                    (self.pipes@[j].pipe_id, self.pipes@[j].other_end(node_id)),
                ),
    {
        let ghost ps = self.pipes@;
        let mut out: Vec<(i64, i64)> = Vec::new();
        let mut k: usize = 0;
        while k < self.pipes.len()
            invariant
                self.wf(),
                self.pipes@ == ps,
                k <= ps.len(),
                out@.len() <= k,
                forall|q: int| 0 <= q < out@.len() ==> adj_pair_ok(ps, node_id, #[trigger] out@[q]),
                forall|j: int|
                    0 <= j < k && (#[trigger] ps[j]).touches(node_id) ==> out@.contains(
                        (ps[j].pipe_id, ps[j].other_end(node_id)),
                    ),
            decreases ps.len() - k,
        {
            let p = self.pipes[k];
            let ghost out_pre = out@;
            if p.start_node_id() == node_id {
                out.push((p.pipe_node_id(), p.end_node_id()));
            } else if p.end_node_id() == node_id {
                out.push((p.pipe_node_id(), p.start_node_id()));
            }
            proof {
                if ps[k as int].touches(node_id) {
                    assert(out@[out@.len() - 1] == (
                        ps[k as int].pipe_id,
                        ps[k as int].other_end(node_id),
                    ));
                    assert(out@.contains((ps[k as int].pipe_id, ps[k as int].other_end(node_id))));
                    assert(adj_pair_ok(ps, node_id, out@[out@.len() - 1]));
                }
                assert forall|j: int|
                    0 <= j < k + 1 && (#[trigger] ps[j]).touches(node_id) implies out@.contains(
                    (ps[j].pipe_id, ps[j].other_end(node_id)),
                ) by {
                    if j < k {
                        let e = (ps[j].pipe_id, ps[j].other_end(node_id));
                        assert(out_pre.contains(e));
                        let q = choose|q: int| 0 <= q < out_pre.len() && out_pre[q] == e;
                        assert(out@[q] == e);
                    }
                }
                assert forall|q: int|
                    0 <= q < out@.len() implies adj_pair_ok(ps, node_id, #[trigger] out@[q]) by {
                    if q < out_pre.len() {
                        assert(out@[q] == out_pre[q]);
                    }
                }
            }
            k += 1;
        }
        out
    }

    /// Visits one structure reached by the walk: marks it visited, records
    /// it as powered when its type allows, powers the pipe the walk came in
    /// through, and puts every pipe neighbour on the stack.
    #[verifier::rlimit(100)]
    fn visit_structure(
        &self,
        reg: &StructureRegistry,
        visited: &mut Vec<i64>,
        sources: &mut Vec<(i64, i64)>,
        powered_pipes: &mut Vec<i64>,
        stack: &mut Vec<(i64, i64, i64)>,
        pid: i64,
        sid: i64,
        org: i64,
    )
        requires
            self.wf(),
            reg.wf(),
            endpoints_registered(self.pipes@, *reg),
            stack_entry_ok(*reg, self.pipes@, (pid, sid, org)),
            !old(visited)@.contains(sid),
            visited_ok(*reg, self.pipes@, old(visited)@),
            stack_ok(*reg, self.pipes@, old(stack)@),
            frontier_except(self.pipes@, old(visited)@, old(stack)@, sid),
            powered_pipes_ok(*reg, self.pipes@, old(powered_pipes)@),
            root_pipes_done(*reg, self.pipes@, old(powered_pipes)@),
            sources_ok(*reg, self.pipes@, old(sources)@),
            sources_unique(old(sources)@),
            forall|q: int|
                0 <= q < old(sources)@.len() ==> old(visited)@.contains(
                    (#[trigger] old(sources)@[q]).0,
                ),
            sources_complete(*reg, old(sources)@, old(visited)@),
            sources_incident(self.pipes@, old(sources)@, old(powered_pipes)@),
        ensures
            final(visited)@ == old(visited)@.push(sid),
            visited_ok(*reg, self.pipes@, final(visited)@),
            stack_ok(*reg, self.pipes@, final(stack)@),
            frontier_ok(self.pipes@, final(visited)@, final(stack)@),
            forall|i: int| 0 <= i < old(stack)@.len() ==> #[trigger] final(stack)@[i] == old(stack)@[i],
            old(stack)@.len() <= final(stack)@.len() <= old(stack)@.len() + self.pipes@.len(),
            powered_pipes_ok(*reg, self.pipes@, final(powered_pipes)@),
            root_pipes_done(*reg, self.pipes@, final(powered_pipes)@),
            sources_ok(*reg, self.pipes@, final(sources)@),
            sources_unique(final(sources)@),
            forall|q: int|
                0 <= q < final(sources)@.len() ==> final(visited)@.contains(
                    (#[trigger] final(sources)@[q]).0,
                ),
            sources_complete(*reg, final(sources)@, final(visited)@),
            sources_incident(self.pipes@, final(sources)@, final(powered_pipes)@),
            unvisited_count(reg.s(), final(visited)@) <= unvisited_count(reg.s(), old(visited)@)
                - 1,
    {
        let ghost ps = self.pipes@;
        let ghost visited0 = old(visited)@;
        let ghost sources0 = old(sources)@;
        let ghost pids0 = old(powered_pipes)@;
        let ghost stack1 = old(stack)@;
        proof {
            assert(pipes_wf(ps));
        }
        visited.push(sid);
        proof {
            assert(visited@ == visited0.push(sid));
            assert(visited@[visited@.len() - 1] == sid);
            assert(visited@.contains(sid));
            assert forall|i: int| 0 <= i < visited@.len() implies reg.has_id(
                #[trigger] visited@[i],
            ) && root_connected(*reg, ps, visited@[i]) by {
                if i < visited0.len() {
                    assert(visited@[i] == visited0[i]);
                } else {
                    assert(visited@[i] == sid);
                    assert(is_live_root(*reg, org) && connected(ps, org, sid));
                }
            }
            let w = choose|w: int| 0 <= w < reg.s().len() && (#[trigger] reg.s()[w]).id == sid;
            lemma_unvisited_push_new(reg.s(), visited0, sid, w);
        }
        let s = reg.get_copy(sid);
        if s.can_be_powered() {
            powered_pipes.push(pid);
            sources.push((sid, org));
            proof {
                assert(sources@ == sources0.push((sid, org)));
                assert(powered_pipes@ == pids0.push(pid));
                assert(sources@[sources@.len() - 1] == (sid, org));
                assert(powered_pipes@[powered_pipes@.len() - 1] == pid);
                assert(powered_pipes@.contains(pid));
                let jj = choose|jj: int|
                    0 <= jj < ps.len() && (#[trigger] ps[jj]).pipe_id == pid && ps[jj].touches(sid)
                        && connected(ps, org, ps[jj].other_end(sid));
                assert(connected(ps, org, ps[jj].start_id) && connected(ps, org, ps[jj].end_id))
                    by {
                    assert(connected(ps, org, sid));
                    if ps[jj].start_id == sid {
                        assert(ps[jj].other_end(sid) == ps[jj].end_id);
                    } else {
                        assert(ps[jj].other_end(sid) == ps[jj].start_id);
                    }
                }
            }
        }
        proof {
            // Old powered pipes and sources keep their witnesses.
            assert forall|q: int|
                0 <= q < powered_pipes@.len() implies exists|jj: int|
                    0 <= jj < ps.len() && (#[trigger] ps[jj]).pipe_id
                        == #[trigger] powered_pipes@[q] && exists|w: i64|
                        is_live_root(*reg, w) && #[trigger] connected(ps, w, ps[jj].start_id)
                            && connected(ps, w, ps[jj].end_id) by {
                if q < pids0.len() {
                    assert(powered_pipes@[q] == pids0[q]);
                    assert(powered_pipes_ok(*reg, ps, pids0));
                    let jj = choose|jj: int|
                        0 <= jj < ps.len() && (#[trigger] ps[jj]).pipe_id == pids0[q] && exists|
                            w: i64,
                        |
                            is_live_root(*reg, w) && #[trigger] connected(ps, w, ps[jj].start_id)
                                && connected(ps, w, ps[jj].end_id);
                    assert(ps[jj].pipe_id == powered_pipes@[q]);
                } else {
                    let jj = choose|jj: int|
                        0 <= jj < ps.len() && (#[trigger] ps[jj]).pipe_id == pid && ps[jj].touches(
                            sid,
                        ) && connected(ps, org, ps[jj].other_end(sid));
                    assert(connected(ps, org, ps[jj].start_id) && connected(
                        ps,
                        org,
                        ps[jj].end_id,
                    )) by {
                        if ps[jj].start_id == sid {
                            assert(ps[jj].other_end(sid) == ps[jj].end_id);
                        } else {
                            assert(ps[jj].other_end(sid) == ps[jj].start_id);
                        }
                    }
                    assert(ps[jj].pipe_id == powered_pipes@[q]);
                }
            }
            assert(powered_pipes_ok(*reg, ps, powered_pipes@));
            assert forall|mm: int|
                0 <= mm < ps.len() && (is_live_root(*reg, (#[trigger] ps[mm]).start_id)
                    || is_live_root(*reg, ps[mm].end_id)) implies powered_pipes@.contains(
                ps[mm].pipe_id,
            ) by {
                assert(pids0.contains(ps[mm].pipe_id));
                let q = choose|q: int| 0 <= q < pids0.len() && pids0[q] == ps[mm].pipe_id;
                assert(powered_pipes@[q] == ps[mm].pipe_id);
            }
            assert forall|q: int| 0 <= q < sources@.len() implies source_entry_ok(
                *reg,
                ps,
                #[trigger] sources@[q],
            ) && visited@.contains(sources@[q].0) by {
                if q < sources0.len() {
                    assert(sources@[q] == sources0[q]);
                    assert(visited0.contains(sources0[q].0));
                    let vq = choose|vq: int| 0 <= vq < visited0.len() && visited0[vq] == sources0[q].0;
                    assert(visited@[vq] == sources0[q].0);
                } else {
                    assert(sources@[q] == (sid, org));
                    assert(reg.structure_of(sid) == s);
                }
            }
            assert(sources_unique(sources@)) by {
                assert forall|q1: int, q2: int|
                    0 <= q1 < q2 < sources@.len() implies (#[trigger] sources@[q1]).0 != (
                #[trigger] sources@[q2]).0 by {
                    if q2 < sources0.len() {
                    } else if q1 < sources0.len() {
                        assert(sources@[q2] == (sid, org));
                        assert(visited0.contains(sources0[q1].0));
                    }
                }
            }
            assert forall|q: int|
                0 <= q < sources@.len() implies exists|jj: int|
                    0 <= jj < ps.len() && (#[trigger] ps[jj]).touches((#[trigger] sources@[q]).0)
                        && powered_pipes@.contains(ps[jj].pipe_id) by {
                if q < sources0.len() {
                    assert(sources@[q] == sources0[q]);
                    assert(sources_incident(ps, sources0, pids0));
                    let jj = choose|jj: int|
                        0 <= jj < ps.len() && (#[trigger] ps[jj]).touches(sources0[q].0)
                            && pids0.contains(ps[jj].pipe_id);
                    let pq = choose|pq: int| 0 <= pq < pids0.len() && pids0[pq] == ps[jj].pipe_id;
                    assert(powered_pipes@[pq] == ps[jj].pipe_id);
                    assert(powered_pipes@.contains(ps[jj].pipe_id));
                } else {
                    let jj = choose|jj: int|
                        0 <= jj < ps.len() && (#[trigger] ps[jj]).pipe_id == pid && ps[jj].touches(
                            sid,
                        ) && connected(ps, org, ps[jj].other_end(sid));
                    assert(ps[jj].touches(sources@[q].0));
                    assert(powered_pipes@.contains(ps[jj].pipe_id));
                }
            }
            assert forall|i: int|
                0 <= i < visited@.len() && can_be_powered_of(
                    reg.structure_of(#[trigger] visited@[i]).ty,
                ) implies sources_has_key(sources@, visited@[i]) by {
                if i < visited0.len() {
                    assert(visited@[i] == visited0[i]);
                    assert(sources_has_key(sources0, visited0[i]));
                    let q = choose|q: int|
                        0 <= q < sources0.len() && (#[trigger] sources0[q]).0 == visited0[i];
                    assert(sources@[q].0 == visited@[i]);
                } else {
                    assert(visited@[i] == sid);
                    assert(reg.structure_of(sid) == s);
                    assert(sources@[sources@.len() - 1].0 == sid);
                }
            }
        }
        let adj = self.adjacent_pairs(sid);
        let mut a: usize = 0;
        while a < adj.len()
            invariant
                self.wf(),
                reg.wf(),
                self.pipes@ == ps,
                endpoints_registered(ps, *reg),
                a <= adj@.len(),
                adj@.len() <= ps.len(),
                forall|q: int| 0 <= q < adj@.len() ==> adj_pair_ok(ps, sid, #[trigger] adj@[q]),
                is_live_root(*reg, org),
                connected(ps, org, sid),
                stack_ok(*reg, ps, stack@),
                stack@.len() == stack1.len() + a,
                forall|i: int| 0 <= i < stack1.len() ==> #[trigger] stack@[i] == stack1[i],
                forall|q: int| 0 <= q < a ==> stack_has_sid(stack@, (#[trigger] adj@[q]).1),
            decreases adj@.len() - a,
        {
            let pair = adj[a];
            let ghost stack_pre = stack@;
            proof {
                assert(pipes_wf(ps));
                assert(adj_pair_ok(ps, sid, adj@[a as int]));
                let jj = choose|jj: int|
                    0 <= jj < ps.len() && (#[trigger] ps[jj]).pipe_id == adj@[a as int].0
                        && ps[jj].touches(sid) && ps[jj].other_end(sid) == adj@[a as int].1;
                lemma_connected_step(ps, org, sid, jj);
                assert(ps[jj].touches(pair.1)) by {
                    if ps[jj].start_id == sid {
                        assert(ps[jj].other_end(sid) == ps[jj].end_id);
                    } else {
                        assert(ps[jj].other_end(sid) == ps[jj].start_id);
                    }
                }
                assert(reg.has_id(pair.1)) by {
                    if ps[jj].start_id == pair.1 {
                    } else {
                        assert(ps[jj].end_id == pair.1);
                    }
                }
                assert(ps[jj].other_end(pair.1) == sid) by {
                    assert(ps[jj].wf());
                }
                assert(stack_entry_ok(*reg, ps, (pair.0, pair.1, org)));
                lemma_stack_ok_push(*reg, ps, stack@, (pair.0, pair.1, org));
            }
            stack.push((pair.0, pair.1, org));
            proof {
                lemma_stack_has_sid_pushed(stack_pre, (pair.0, pair.1, org));
                assert forall|q: int| 0 <= q < a + 1 implies stack_has_sid(
                    stack@,
                    (#[trigger] adj@[q]).1,
                ) by {
                    if q < a {
                        lemma_stack_has_sid_push(stack_pre, (pair.0, pair.1, org), adj@[q].1);
                    }
                }
                assert forall|i: int| 0 <= i < stack1.len() implies #[trigger] stack@[i]
                    == stack1[i] by {
                    assert(stack@[i] == stack_pre[i]);
                }
            }
            a += 1;
        }
        proof {
            // New neighbours of the visited structure are pending; older
            // obligations keep their witnesses or point at it.
            assert forall|x: i64, jj: int|
                #![trigger visited@.contains(x), ps[jj]]
                visited@.contains(x) && 0 <= jj < ps.len() && ps[jj].touches(x)
                    implies visited@.contains(ps[jj].other_end(x)) || stack_has_sid(
                stack@,
                ps[jj].other_end(x),
            ) by {
                vstd::seq_lib::lemma_seq_contains_after_push(visited0, sid, x);
                if x == sid {
                    assert(adj@.contains((ps[jj].pipe_id, ps[jj].other_end(sid))));
                    let q = choose|q: int|
                        0 <= q < adj@.len() && adj@[q] == (ps[jj].pipe_id, ps[jj].other_end(sid));
                    assert(stack_has_sid(stack@, adj@[q].1));
                } else {
                    assert(visited0.contains(x));
                    let other = ps[jj].other_end(x);
                    if visited0.contains(other) {
                        let vq = choose|vq: int| 0 <= vq < visited0.len() && visited0[vq] == other;
                        assert(visited@[vq] == other);
                    } else if other == sid {
                        assert(visited@.contains(sid));
                    } else {
                        assert(stack_has_sid(stack1, other));
                        let i = choose|i: int|
                            0 <= i < stack1.len() && (#[trigger] stack1[i]).1 == other;
                        assert(stack@[i] == stack1[i]);
                        assert(stack_has_sid(stack@, other));
                    }
                }
            }
        }
    }

    /// Recomputes which structures and pipes carry power: every Water
    /// structure with resource remaining seeds a depth-first walk over the
    /// pipe graph, every reachable structure whose type can be powered is
    /// recorded with the root that first reached it, and a pipe is powered
    /// when it touches a live root or leads the walk into a powered
    /// consumer. The recorded consumers are exactly the registered,
    /// powerable structures that some live root reaches.
    #[verifier::rlimit(100)]
    pub fn recompute_power(&self, reg: &StructureRegistry) -> (st: PowerState)
        requires
            self.wf(),
            reg.wf(),
            endpoints_registered(self.pipes@, *reg),
        ensures
            sources_ok(*reg, self.pipes@, st.sources@),
            sources_unique(st.sources@),
            sources_incident(self.pipes@, st.sources@, st.powered_pipes@),
            powered_pipes_ok(*reg, self.pipes@, st.powered_pipes@),
            root_pipes_done(*reg, self.pipes@, st.powered_pipes@),
            forall|id: i64|
                #[trigger] sources_has_key(st.sources@, id) <==> consumer_powered(
                    *reg,
                    self.pipes@,
                    id,
                ),
    {
        let ghost ps = self.pipes@;
        proof {
            assert(pipes_wf(ps));
        }
        let mut sources: Vec<(i64, i64)> = Vec::new();
        let mut powered_pipes: Vec<i64> = Vec::new();
        let mut roots: Vec<(i64, i64)> = Vec::new();

        // Gather the live Water roots and power their pipes.
        let mut j: usize = 0;
        while j < self.pipes.len()
            invariant
                self.wf(),
                reg.wf(),
                self.pipes@ == ps,
                endpoints_registered(ps, *reg),
                j <= ps.len(),
                roots_ok(*reg, ps, roots@),
                forall|m: int|
                    0 <= m < j ==> {
                        &&& (is_live_root(*reg, (#[trigger] ps[m]).start_id) ==> roots_has(
                            roots@,
                            ps[m].start_id,
                        ))
                        &&& (is_live_root(*reg, ps[m].end_id) ==> roots_has(roots@, ps[m].end_id))
                    },
                forall|m: int|
                    0 <= m < j && (is_live_root(*reg, (#[trigger] ps[m]).start_id) || is_live_root(
                        *reg,
                        ps[m].end_id,
                    )) ==> powered_pipes@.contains(ps[m].pipe_id),
                powered_pipes_ok(*reg, ps, powered_pipes@),
            decreases ps.len() - j,
        {
            let p = self.pipes[j];
            let ghost roots_pre = roots@;
            let ghost pids_pre = powered_pipes@;
            let live_start = check_live_root(reg, p.start_node_id());
            let live_end = check_live_root(reg, p.end_node_id());
            if live_start {
                roots.push((p.pipe_node_id(), p.start_node_id()));
            }
            if live_end {
                roots.push((p.pipe_node_id(), p.end_node_id()));
            }
            if live_start || live_end {
                powered_pipes.push(p.pipe_node_id());
            }
            proof {
                let m = j as int;
                assert(pipes_wf(ps));
                // Each new root entry is sound, old entries stay sound.
                assert forall|q: int|
                    0 <= q < roots@.len() implies is_live_root(*reg, (#[trigger] roots@[q]).1)
                        && exists|jj: int|
                        0 <= jj < ps.len() && (#[trigger] ps[jj]).pipe_id == roots@[q].0
                            && ps[jj].touches(roots@[q].1) by {
                    if q < roots_pre.len() {
                        assert(roots@[q] == roots_pre[q]);
                        assert(roots_ok(*reg, ps, roots_pre));
                        let jj = choose|jj: int|
                            0 <= jj < ps.len() && (#[trigger] ps[jj]).pipe_id == roots_pre[q].0
                                && ps[jj].touches(roots_pre[q].1);
                        assert(ps[jj].pipe_id == roots@[q].0 && ps[jj].touches(roots@[q].1));
                    } else {
                        assert(roots@[q].0 == ps[m].pipe_id);
                        assert(ps[m].touches(roots@[q].1));
                    }
                }
                // The roots gathered for earlier pipes are still present.
                assert forall|mm: int|
                    0 <= mm < m + 1 implies {
                        &&& (is_live_root(*reg, (#[trigger] ps[mm]).start_id) ==> roots_has(
                            roots@,
                            ps[mm].start_id,
                        ))
                        &&& (is_live_root(*reg, ps[mm].end_id) ==> roots_has(roots@, ps[mm].end_id))
                    } by {
                    if mm < m {
                        if is_live_root(*reg, ps[mm].start_id) {
                            let q = choose|q: int|
                                0 <= q < roots_pre.len() && (#[trigger] roots_pre[q]).1
                                    == ps[mm].start_id;
                            assert(roots@[q].1 == ps[mm].start_id);
                        }
                        if is_live_root(*reg, ps[mm].end_id) {
                            let q = choose|q: int|
                                0 <= q < roots_pre.len() && (#[trigger] roots_pre[q]).1
                                    == ps[mm].end_id;
                            assert(roots@[q].1 == ps[mm].end_id);
                        }
                    } else {
                        if is_live_root(*reg, ps[m].start_id) {
                            if live_end {
                                assert(roots@[roots@.len() - 2].1 == ps[m].start_id);
                            } else {
                                assert(roots@[roots@.len() - 1].1 == ps[m].start_id);
                            }
                        }
                        if is_live_root(*reg, ps[m].end_id) {
                            assert(roots@[roots@.len() - 1].1 == ps[m].end_id);
                        }
                    }
                }
                // Root pipes stay powered; the new one is powered.
                assert forall|mm: int|
                    0 <= mm < m + 1 && (is_live_root(*reg, (#[trigger] ps[mm]).start_id)
                        || is_live_root(*reg, ps[mm].end_id)) implies powered_pipes@.contains(
                    ps[mm].pipe_id,
                ) by {
                    if mm < m {
                        assert(pids_pre.contains(ps[mm].pipe_id));
                        let q = choose|q: int| 0 <= q < pids_pre.len() && pids_pre[q] == ps[mm].pipe_id;
                        assert(powered_pipes@[q] == ps[mm].pipe_id);
                    } else {
                        assert(powered_pipes@[powered_pipes@.len() - 1] == ps[m].pipe_id);
                    }
                }
                // Every powered pipe still joins two reachable endpoints.
                assert forall|q: int|
                    0 <= q < powered_pipes@.len() implies exists|jj: int|
                        0 <= jj < ps.len() && (#[trigger] ps[jj]).pipe_id
                            == #[trigger] powered_pipes@[q] && exists|w: i64|
                            is_live_root(*reg, w) && #[trigger] connected(ps, w, ps[jj].start_id)
                                && connected(ps, w, ps[jj].end_id) by {
                    if q < pids_pre.len() {
                        assert(powered_pipes@[q] == pids_pre[q]);
                        assert(powered_pipes_ok(*reg, ps, pids_pre));
                        let jj = choose|jj: int|
                            0 <= jj < ps.len() && (#[trigger] ps[jj]).pipe_id == pids_pre[q]
                                && exists|w: i64|
                                is_live_root(*reg, w) && #[trigger] connected(
                                    ps,
                                    w,
                                    ps[jj].start_id,
                                ) && connected(ps, w, ps[jj].end_id);
                        assert(ps[jj].pipe_id == powered_pipes@[q]);
                    } else {
                        let w = if live_start {
                            ps[m].start_id
                        } else {
                            ps[m].end_id
                        };
                        lemma_connected_refl(ps, w);
                        lemma_connected_step(ps, w, w, m);
                        assert(connected(ps, w, ps[m].start_id) && connected(ps, w, ps[m].end_id));
                        assert(ps[m].pipe_id == powered_pipes@[q]);
                    }
                }
            }
            j += 1;
        }

        // Walk the graph from each root in turn, sharing one visited set.
        let mut visited: Vec<i64> = Vec::new();
        let mut r: usize = 0;
        while r < roots.len()
            invariant
                self.wf(),
                reg.wf(),
                self.pipes@ == ps,
                endpoints_registered(ps, *reg),
                r <= roots@.len(),
                roots_ok(*reg, ps, roots@),
                roots_complete(*reg, ps, roots@),
                root_pipes_done(*reg, ps, powered_pipes@),
                powered_pipes_ok(*reg, ps, powered_pipes@),
                visited_ok(*reg, ps, visited@),
                visited_closed(ps, visited@),
                forall|q: int| 0 <= q < r ==> visited@.contains((#[trigger] roots@[q]).1),
                sources_ok(*reg, ps, sources@),
                sources_unique(sources@),
                forall|q: int| 0 <= q < sources@.len() ==> visited@.contains((#[trigger] sources@[q]).0),
                sources_complete(*reg, sources@, visited@),
                sources_incident(ps, sources@, powered_pipes@),
            decreases roots@.len() - r,
        {
            let root = roots[r];
            let mut stack: Vec<(i64, i64, i64)> = Vec::new();
            proof {
                assert(roots_ok(*reg, ps, roots@));
                assert(is_live_root(*reg, roots@[r as int].1));
                let jj = choose|jj: int|
                    0 <= jj < ps.len() && (#[trigger] ps[jj]).pipe_id == roots@[r as int].0
                        && ps[jj].touches(roots@[r as int].1);
                lemma_connected_refl(ps, root.1);
                lemma_connected_step(ps, root.1, root.1, jj);
                assert(stack_entry_ok(*reg, ps, (root.0, root.1, root.1)));
                lemma_stack_ok_push(*reg, ps, stack@, (root.0, root.1, root.1));
            }
            stack.push((root.0, root.1, root.1));
            proof {
                lemma_stack_has_sid_pushed(Seq::<(i64, i64, i64)>::empty(), (root.0, root.1, root.1));
                assert(stack_has_sid(stack@, root.1));
                assert forall|x: i64, jj: int|
                    #![trigger visited@.contains(x), ps[jj]]
                    visited@.contains(x) && 0 <= jj < ps.len() && ps[jj].touches(x)
                        implies visited@.contains(ps[jj].other_end(x)) || stack_has_sid(
                    stack@,
                    ps[jj].other_end(x),
                ) by {}
            }
            while stack.len() > 0
                invariant
                    self.wf(),
                    reg.wf(),
                    self.pipes@ == ps,
                    endpoints_registered(ps, *reg),
                    r < roots@.len(),
                    roots_ok(*reg, ps, roots@),
                    roots_complete(*reg, ps, roots@),
                    root_pipes_done(*reg, ps, powered_pipes@),
                    powered_pipes_ok(*reg, ps, powered_pipes@),
                    visited_ok(*reg, ps, visited@),
                    stack_ok(*reg, ps, stack@),
                    frontier_ok(ps, visited@, stack@),
                    roots_covered(roots@, r as int + 1, visited@, stack@),
                    sources_ok(*reg, ps, sources@),
                    sources_unique(sources@),
                    forall|q: int|
                        0 <= q < sources@.len() ==> visited@.contains((#[trigger] sources@[q]).0),
                    sources_complete(*reg, sources@, visited@),
                    sources_incident(ps, sources@, powered_pipes@),
                decreases unvisited_count(reg.s(), visited@) * (ps.len() + 1) + stack@.len(),
            {
                let ghost stack0 = stack@;
                let ghost visited0 = visited@;
                let ghost u0 = unvisited_count(reg.s(), visited@);
                proof {
                    lemma_unvisited_bounds(reg.s(), visited@);
                    lemma_pop(*reg, ps, roots@, r as int + 1, visited@, stack@);
                }
                let top = match stack.pop() {
                    Some(t) => t,
                    None => unreached(),
                };
                if !vec_has_i64(&visited, top.1) {
                    let ghost stack1 = stack@;
                    self.visit_structure(
                        reg,
                        &mut visited,
                        &mut sources,
                        &mut powered_pipes,
                        &mut stack,
                        top.0,
                        top.1,
                        top.2,
                    );
                    proof {
                        lemma_after_visit(roots@, r as int + 1, visited0, top.1, stack1, stack@);
                        let u1 = unvisited_count(reg.s(), visited@);
                        lemma_unvisited_bounds(reg.s(), visited@);
                        assert(u1 * (ps.len() + 1) + stack@.len() < u0 * (ps.len() + 1)
                            + stack0.len()) by (nonlinear_arith)
                            requires
                                u1 <= u0 - 1,
                                u1 >= 0,
                                stack@.len() <= stack1.len() + ps.len(),
                                stack1.len() == stack0.len() - 1,
                                stack@.len() >= 0,
                                stack0.len() >= 1,
                                ps.len() >= 0,
                        ;
                    }
                } else {
                    proof {
                        lemma_discard(ps, roots@, r as int + 1, visited@, stack@, top.1);
                    }
                }
            }
            proof {
                // With the stack empty, pending coverage means visited.
                assert forall|q: int| 0 <= q < r + 1 implies visited@.contains(
                    (#[trigger] roots@[q]).1,
                ) by {
                    if !visited@.contains(roots@[q].1) {
                        assert(stack_has_sid(stack@, roots@[q].1));
                        let i = choose|i: int|
                            0 <= i < stack@.len() && (#[trigger] stack@[i]).1 == roots@[q].1;
                        assert(false);
                    }
                }
                assert(visited_closed(ps, visited@)) by {
                    assert forall|x: i64, jj: int|
                        #![trigger visited@.contains(x), ps[jj]]
                        visited@.contains(x) && 0 <= jj < ps.len() && ps[jj].touches(x)
                            implies visited@.contains(ps[jj].other_end(x)) by {
                        if !visited@.contains(ps[jj].other_end(x)) {
                            assert(stack_has_sid(stack@, ps[jj].other_end(x)));
                            let i = choose|i: int|
                                0 <= i < stack@.len() && (#[trigger] stack@[i]).1 == ps[jj].other_end(
                                    x,
                                );
                            assert(false);
                        }
                    }
                }
            }
            r += 1;
        }
        proof {
            // A consumer has a source entry exactly when a live root reaches
            // it.
            assert forall|id: i64| #[trigger]
                sources_has_key(sources@, id) implies consumer_powered(*reg, ps, id) by {
                let q = choose|q: int| 0 <= q < sources@.len() && (#[trigger] sources@[q]).0 == id;
                assert(source_entry_ok(*reg, ps, sources@[q]));
                assert(is_live_root(*reg, sources@[q].1) && connected(ps, sources@[q].1, id));
            }
            assert forall|id: i64| consumer_powered(*reg, ps, id) implies #[trigger]
                sources_has_key(sources@, id) by {
                let w = choose|w: i64| is_live_root(*reg, w) && #[trigger] connected(ps, w, id);
                assert(!(w == id));
                let k = choose|k: nat| reach(ps, w, id, k);
                lemma_reach_has_root_pipe(ps, w, id, k);
                let jj = choose|jj: int| 0 <= jj < ps.len() && (#[trigger] ps[jj]).touches(w);
                assert(roots_has(roots@, w));
                let q = choose|q: int| 0 <= q < roots@.len() && (#[trigger] roots@[q]).1 == w;
                assert(visited@.contains(w));
                lemma_reach_closed(ps, visited@, w, id, k);
                let vi = choose|vi: int| 0 <= vi < visited@.len() && visited@[vi] == id;
                assert(can_be_powered_of(reg.structure_of(#[trigger] visited@[vi]).ty));
                assert(sources_has_key(sources@, visited@[vi]));
            }
        }
        PowerState { sources, powered_pipes }
    }
}


/// Two structure tables that agree on ids, types and amounts locate the same
/// structure under an id, with the same type and amount.
pub proof fn lemma_structure_of_same(a: StructureRegistry, b: StructureRegistry, id: i64)
    requires
        a.ids_unique(),
        b.s().len() == a.s().len(),
        forall|i: int|
            0 <= i < a.s().len() ==> (#[trigger] b.s()[i]).id == a.s()[i].id && b.s()[i].ty
                == a.s()[i].ty && b.s()[i].amount == a.s()[i].amount,
        a.has_id(id),
    ensures
        b.has_id(id),
        b.id_index(id) == a.id_index(id),
        b.structure_of(id).ty == a.structure_of(id).ty,
        b.structure_of(id).amount == a.structure_of(id).amount,
{
    let ai = a.id_index(id);
    assert(0 <= ai < a.s().len() && a.s()[ai].id == id);
    assert(b.s()[ai].id == id);
    assert(b.has_id(id));
    let bi = b.id_index(id);
    assert(0 <= bi < b.s().len() && b.s()[bi].id == id);
    assert(a.s()[bi].id == id);
    assert(bi == ai);
}

/// Power propagation ignores power flags: it reads only ids, types, amounts
/// and the pipes, so two registries that differ only in flags power the same
/// consumers.
pub proof fn lemma_power_ignores_flags(a: StructureRegistry, b: StructureRegistry, ps: Seq<Pipe>)
    requires
        a.ids_unique(),
        b.s().len() == a.s().len(),
        forall|i: int|
            0 <= i < a.s().len() ==> (#[trigger] b.s()[i]).id == a.s()[i].id && b.s()[i].ty
                == a.s()[i].ty && b.s()[i].amount == a.s()[i].amount,
    ensures
        forall|id: i64| #[trigger] b.has_id(id) <==> a.has_id(id),
        forall|id: i64| #[trigger] is_live_root(b, id) <==> is_live_root(a, id),
        forall|id: i64| #[trigger] consumer_powered(b, ps, id) <==> consumer_powered(a, ps, id),
{
    assert forall|id: i64| #[trigger] b.has_id(id) <==> a.has_id(id) by {
        if a.has_id(id) {
            let i = a.id_index(id);
            assert(b.s()[i].id == id);
        }
        if b.has_id(id) {
            let i = choose|i: int| 0 <= i < b.s().len() && (#[trigger] b.s()[i]).id == id;
            assert(a.s()[i].id == id);
        }
    }
    assert forall|id: i64| #[trigger] is_live_root(b, id) <==> is_live_root(a, id) by {
        if a.has_id(id) {
            lemma_structure_of_same(a, b, id);
        }
    }
    assert forall|id: i64| #[trigger] consumer_powered(b, ps, id) <==> consumer_powered(
        a,
        ps,
        id,
    ) by {
        if a.has_id(id) {
            lemma_structure_of_same(a, b, id);
            if root_connected(a, ps, id) {
                let w = choose|w: i64| is_live_root(a, w) && #[trigger] connected(ps, w, id);
                assert(is_live_root(b, w) && connected(ps, w, id));
                assert(root_connected(b, ps, id));
            }
            if root_connected(b, ps, id) {
                let w = choose|w: i64| is_live_root(b, w) && #[trigger] connected(ps, w, id);
                assert(is_live_root(a, w) && connected(ps, w, id));
                assert(root_connected(a, ps, id));
            }
        }
    }
}

} // verus!
