use vstd::prelude::*;
use crate::function::{exchange, successors, BasicBlock, HIR};
use crate::diagnostic::Diagnostic;
use crate::ids::{BlockId, InstructionId};
use crate::merge::block_below;

verus! {

/// The ids of the blocks among the first `n` whose terminal can pass control
/// to `id`, in block order.
pub open spec fn predecessors_upto(blocks: Seq<BasicBlock>, id: BlockId, n: int) -> Seq<BlockId>
    decreases n,
{
    if n <= 0 {
        Seq::empty()
    } else if successors(blocks[n - 1].terminal.value).contains(id) {
        predecessors_upto(blocks, id, n - 1).push(blocks[n - 1].id)
    } else {
        predecessors_upto(blocks, id, n - 1)
    }
}

/// The ids of the blocks whose terminal can pass control to `id`, in block order.
pub open spec fn predecessors_of(blocks: Seq<BasicBlock>, id: BlockId) -> Seq<BlockId> {
    predecessors_upto(blocks, id, blocks.len() as int)
}

/// `b` is `a` with other predecessors.
pub open spec fn same_but_predecessors(a: BasicBlock, b: BasicBlock) -> bool {
    &&& b.id == a.id
    &&& b.kind == a.kind
    &&& b.instructions == a.instructions
    &&& b.terminal == a.terminal
}

fn block_predecessors(blocks: &Vec<BasicBlock>, id: BlockId) -> (r: Vec<BlockId>)
    ensures
        r@ == predecessors_of(blocks@, id),
{
    let mut r: Vec<BlockId> = Vec::new();
    let mut j: usize = 0;
    while j < blocks.len()
        invariant
            j <= blocks@.len(),
            r@ == predecessors_upto(blocks@, id, j as int),
        decreases blocks@.len() - j,
    {
        let succ = blocks[j].terminal.successors();
        let mut k: usize = 0;
        let mut found = false;
        while k < succ.len()
            invariant
                k <= succ@.len(),
                found == succ@.take(k as int).contains(id),
            decreases succ@.len() - k,
        {
            proof {
                assert(succ@.take(k + 1) =~= succ@.take(k as int).push(succ@[k as int]));
            }
            if succ[k] == id {
                found = true;
                proof {
                    assert(succ@.take(k + 1)[k as int] == id);
                }
            } else {
                proof {
                    if succ@.take(k + 1).contains(id) {
                        let w = choose|w: int| 0 <= w < k + 1 && #[trigger] succ@.take(k + 1)[w] == id;
                        assert(succ@.take(k as int)[w] == id);
                    }
                    if succ@.take(k as int).contains(id) {
                        let w = choose|w: int| 0 <= w < k && #[trigger] succ@.take(k as int)[w] == id;
                        assert(succ@.take(k + 1)[w] == id);
                    }
                }
            }
            k = k + 1;
        }
        proof {
            assert(succ@.take(k as int) =~= succ@);
        }
        if found {
            r.push(blocks[j].id);
        }
        j = j + 1;
    }
    r
}

/// Recomputes the predecessors of every block from the terminals.
pub fn mark_predecessors(body: &mut HIR)
    ensures
        final(body).entry == old(body).entry,
        final(body).instructions == old(body).instructions,
        final(body).blocks@.len() == old(body).blocks@.len(),
        forall|i: int|
            0 <= i < old(body).blocks@.len() ==> same_but_predecessors(
                #[trigger] old(body).blocks@[i],
                final(body).blocks@[i],
            ),
        forall|i: int|
            0 <= i < final(body).blocks@.len() ==> (#[trigger] final(body).blocks@[i]).predecessors@
                == predecessors_of(final(body).blocks@, final(body).blocks@[i].id),
{
    let ghost old_blocks = body.blocks@;
    let mut i: usize = 0;
    while i < body.blocks.len()
        invariant
            i <= body.blocks@.len(),
            body.entry == old(body).entry,
            body.instructions == old(body).instructions,
            body.blocks@.len() == old_blocks.len(),
            old_blocks == old(body).blocks@,
            forall|k: int| 0 <= k < old_blocks.len() ==> same_but_predecessors(
                #[trigger] old_blocks[k],
                body.blocks@[k],
            ),
            forall|k: int| 0 <= k < i ==> (#[trigger] body.blocks@[k]).predecessors@
                == predecessors_of(body.blocks@, body.blocks@[k].id),
        decreases body.blocks@.len() - i,
    {
        let preds = block_predecessors(&body.blocks, body.blocks[i].id);
        let ghost before = body.blocks@;
        body.blocks[i].predecessors = preds;
        proof {
            lemma_predecessors_ignore_predecessors(before, body.blocks@);
        }
        i = i + 1;
    }
}

proof fn lemma_predecessors_ignore_predecessors(a: Seq<BasicBlock>, b: Seq<BasicBlock>)
    requires
        a.len() == b.len(),
        forall|k: int| 0 <= k < a.len() ==> same_but_predecessors(#[trigger] a[k], b[k]),
    ensures
        forall|id: BlockId| #[trigger] predecessors_of(a, id) == predecessors_of(b, id),
{
    assert forall|id: BlockId| #[trigger] predecessors_of(a, id) == predecessors_of(b, id) by {
        lemma_predecessors_upto_same(a, b, id, a.len() as int);
    }
}

proof fn lemma_predecessors_upto_same(a: Seq<BasicBlock>, b: Seq<BasicBlock>, id: BlockId, n: int)
    requires
        a.len() == b.len(),
        n <= a.len(),
        forall|k: int| 0 <= k < a.len() ==> same_but_predecessors(#[trigger] a[k], b[k]),
    ensures
        predecessors_upto(a, id, n) == predecessors_upto(b, id, n),
    decreases n,
{
    if n > 0 {
        assert(same_but_predecessors(a[n - 1], b[n - 1]));
        lemma_predecessors_upto_same(a, b, id, n - 1);
    }
}


/// Control can reach block `id` from `entry` in at most `k` steps.
pub open spec fn reachable_within(blocks: Seq<BasicBlock>, entry: BlockId, id: BlockId, k: nat) -> bool
    decreases k,
{
    id == entry || (k > 0 && exists|j: int|
        0 <= j < blocks.len() && reachable_within(blocks, entry, blocks[j].id, (k - 1) as nat) && successors(
            #[trigger] blocks[j].terminal.value,
        ).contains(id))
}

/// Control can reach block `id` from `entry`.
pub open spec fn reachable(blocks: Seq<BasicBlock>, entry: BlockId, id: BlockId) -> bool {
    exists|k: nat| reachable_within(blocks, entry, id, k)
}

proof fn lemma_reachable_step(blocks: Seq<BasicBlock>, entry: BlockId, i: int, id: BlockId)
    requires
        0 <= i < blocks.len(),
        reachable(blocks, entry, blocks[i].id),
        successors(blocks[i].terminal.value).contains(id),
    ensures
        reachable(blocks, entry, id),
{
    let k = choose|k: nat| reachable_within(blocks, entry, blocks[i].id, k);
    assert(reachable_within(blocks, entry, id, k + 1));
}

spec fn visited_reachable(blocks: Seq<BasicBlock>, visited: Seq<bool>, entry: BlockId) -> bool {
    forall|j: int| 0 <= j < blocks.len() && #[trigger] visited[j] ==> reachable(blocks, entry, blocks[j].id)
}

/// No two blocks share an id.
pub open spec fn ids_unique(blocks: Seq<BasicBlock>) -> bool {
    forall|a: int, b: int|
        0 <= a < blocks.len() && 0 <= b < blocks.len() && a != b ==> blocks[a].id != blocks[b].id
}

/// Some block has the id.
pub open spec fn has_block(blocks: Seq<BasicBlock>, id: BlockId) -> bool {
    exists|j: int| 0 <= j < blocks.len() && #[trigger] blocks[j].id == id
}

/// Every successor of every block that names a block of `all` names one of `blocks`.
pub open spec fn successors_closed(blocks: Seq<BasicBlock>, all: Seq<BasicBlock>) -> bool {
    forall|t: int, j: int|
        0 <= t < blocks.len() && 0 <= j < all.len() && successors(
            #[trigger] blocks[t].terminal.value,
        ).contains(#[trigger] all[j].id) ==> has_block(blocks, all[j].id)
}

/// The position of the block with the given id.
pub fn find_block(blocks: &Vec<BasicBlock>, id: BlockId) -> (r: Option<usize>)
    ensures
        match r {
            Some(i) => i < blocks@.len() && blocks@[i as int].id == id && first_of_id(blocks@, i as int),
            None => !has_block(blocks@, id),
        },
{
    let mut i: usize = 0;
    while i < blocks.len()
        invariant
            i <= blocks@.len(),
            forall|j: int| 0 <= j < i ==> blocks@[j].id != id,
        decreases blocks@.len() - i,
    {
        if blocks[i].id == id {
            return Some(i);
        }
        i = i + 1;
    }
    None
}

/// No block before position `i` has the id of the block at `i`.
pub open spec fn first_of_id(blocks: Seq<BasicBlock>, i: int) -> bool {
    forall|j: int| 0 <= j < i ==> blocks[j].id != blocks[i].id
}

proof fn lemma_first_index(blocks: Seq<BasicBlock>, j: int) -> (j0: int)
    requires
        0 <= j < blocks.len(),
    ensures
        0 <= j0 <= j,
        blocks[j0].id == blocks[j].id,
        first_of_id(blocks, j0),
    decreases j,
{
    if first_of_id(blocks, j) {
        j
    } else {
        let w = choose|w: int| 0 <= w < j && blocks[w].id == blocks[j].id;
        lemma_first_index(blocks, w)
    }
}

spec fn count_unvisited(s: Seq<bool>) -> nat
    decreases s.len(),
{
    if s.len() == 0 {
        0
    } else {
        count_unvisited(s.drop_last()) + if s.last() {
            0nat
        } else {
            1nat
        }
    }
}

proof fn lemma_count_unvisited_monotone(a: Seq<bool>, b: Seq<bool>, i: int)
    requires
        a.len() == b.len(),
        forall|j: int| 0 <= j < a.len() && a[j] ==> b[j],
    ensures
        count_unvisited(b) <= count_unvisited(a),
        0 <= i < a.len() && !a[i] && b[i] ==> count_unvisited(b) < count_unvisited(a),
    decreases a.len(),
{
    if a.len() > 0 {
        let a2 = a.drop_last();
        let b2 = b.drop_last();
        assert forall|j: int| 0 <= j < a2.len() && a2[j] implies b2[j] by {
            assert(a[j]);
        }
        lemma_count_unvisited_monotone(a2, b2, i);
    }
}

spec fn post_ok(blocks: Seq<BasicBlock>, visited: Seq<bool>, post: Seq<usize>) -> bool {
    &&& forall|k: int| 0 <= k < post.len() ==> (#[trigger] post[k]) < blocks.len() && visited[post[k] as int]
        && first_of_id(blocks, post[k] as int)
    &&& forall|a: int, b: int| 0 <= a < post.len() && 0 <= b < post.len() && a != b ==> post[a] != post[b]
    &&& forall|k: int, j: int|
        0 <= k < post.len() && 0 <= j < blocks.len() && first_of_id(blocks, j) && successors(
            blocks[#[trigger] post[k] as int].terminal.value,
        ).contains(#[trigger] blocks[j].id) ==> visited[j]
}

fn visit(blocks: &Vec<BasicBlock>, i: usize, visited: &mut Vec<bool>, post: &mut Vec<usize>, entry: Ghost<BlockId>)
    requires
        reachable(blocks@, entry@, blocks@[i as int].id),
        visited_reachable(blocks@, old(visited)@, entry@),
        i < blocks@.len(),
        old(visited)@.len() == blocks@.len(),
        !old(visited)@[i as int],
        first_of_id(blocks@, i as int),
        post_ok(blocks@, old(visited)@, old(post)@),
    ensures
        final(visited)@.len() == blocks@.len(),
        final(visited)@[i as int],
        forall|j: int| 0 <= j < blocks@.len() && old(visited)@[j] ==> final(visited)@[j],
        forall|j: int|
            0 <= j < blocks@.len() && !old(visited)@[j] && final(visited)@[j] ==> final(post)@.contains(
                j as usize,
            ),
        final(post)@.len() > old(post)@.len(),
        final(post)@.last() == i,
        final(post)@.take(old(post)@.len() as int) == old(post)@,
        forall|k: int|
            old(post)@.len() <= k < final(post)@.len() ==> !old(visited)@[#[trigger] final(post)@[k] as int],
        post_ok(blocks@, final(visited)@, final(post)@),
        visited_reachable(blocks@, final(visited)@, entry@),
    decreases count_unvisited(old(visited)@),
{
    let ghost v0 = visited@;
    let ghost p0 = post@;
    visited.set(i, true);
    let succ = blocks[i].terminal.successors();
    let mut k: usize = 0;
    while k < succ.len()
        invariant
            k <= succ@.len(),
            succ@ == successors(blocks@[i as int].terminal.value),
            i < blocks@.len(),
            first_of_id(blocks@, i as int),
            visited@.len() == blocks@.len(),
            visited@[i as int],
            v0 == old(visited)@,
            v0.len() == blocks@.len(),
            p0 == old(post)@,
            !v0[i as int],
            forall|j: int| 0 <= j < blocks@.len() && v0[j] ==> visited@[j],
            forall|j: int|
                0 <= j < blocks@.len() && !v0[j] && visited@[j] && j != i ==> post@.contains(j as usize),
            post@.len() >= p0.len(),
            post@.take(p0.len() as int) == p0,
            post_ok(blocks@, visited@, post@),
            visited_reachable(blocks@, visited@, entry@),
            reachable(blocks@, entry@, blocks@[i as int].id),
            !post@.contains(i),
            forall|x: int| p0.len() <= x < post@.len() ==> !v0[#[trigger] post@[x] as int] && post@[x] != i,
            forall|m: int, j: int|
                0 <= m < k && 0 <= j < blocks@.len() && first_of_id(blocks@, j) && #[trigger] succ@[m]
                    == #[trigger] blocks@[j].id ==> visited@[j],
        decreases succ@.len() - k,
    {
        match find_block(blocks, succ[k]) {
            Some(j) => {
                if !visited[j] {
                    let ghost v1 = visited@;
                    let ghost p1 = post@;
                    proof {
                        lemma_count_unvisited_monotone(v0, v1, i as int);
                    }
                    proof {
                        lemma_reachable_step(blocks@, entry@, i as int, blocks@[j as int].id);
                    }
                    visit(blocks, j, visited, post, entry);
                    proof {
                        assert forall|x: int|
                            0 <= x < blocks@.len() && !v0[x] && visited@[x] && x != i implies post@.contains(
                                x as usize,
                            ) by {
                            if v1[x] {
                                assert(p1.contains(x as usize));
                                let w = choose|w: int| 0 <= w < p1.len() && p1[w] == x as usize;
                                assert(post@.take(p1.len() as int)[w] == x as usize);
                                assert(post@[w] == x as usize);
                            }
                        }
                        assert(post@.take(p0.len() as int) =~= p0) by {
                            assert(post@.take(p1.len() as int) == p1);
                            assert forall|w: int| 0 <= w < p0.len() implies post@[w] == p0[w] by {
                                assert(p1.take(p0.len() as int)[w] == p0[w]);
                                assert(post@.take(p1.len() as int)[w] == p1[w]);
                            }
                        }
                        assert forall|x: int| p0.len() <= x < post@.len() implies !v0[#[trigger] post@[x] as int] && post@[x] != i by {
                            if x < p1.len() {
                                assert(post@.take(p1.len() as int)[x] == p1[x]);
                            }
                        }
                        if post@.contains(i) {
                            let w = choose|w: int| 0 <= w < post@.len() && post@[w] == i;
                            if w < p0.len() {
                                assert(post@.take(p0.len() as int)[w] == p0[w]);
                            }
                        }
                    }
                }
            },
            None => {},
        }
        k = k + 1;
    }
    let ghost p2 = post@;
    post.push(i);
    proof {
        assert(post@.take(p0.len() as int) =~= p0) by {
            assert forall|w: int| 0 <= w < p0.len() implies post@[w] == p0[w] by {
                assert(post@.drop_last().take(p0.len() as int)[w] == p0[w]);
            }
        }
        assert forall|j: int|
            0 <= j < blocks@.len() && !v0[j] && visited@[j] implies post@.contains(j as usize) by {
            if j == i {
                assert(post@[post@.len() - 1] == i);
            } else {
                assert(p2.contains(j as usize));
                let w = choose|w: int| 0 <= w < p2.len() && p2[w] == j as usize;
                assert(post@[w] == p2[w]);
            }
        }
        assert forall|k: int, j: int|
            0 <= k < post@.len() && 0 <= j < blocks@.len() && first_of_id(blocks@, j) && successors(
                blocks@[#[trigger] post@[k] as int].terminal.value,
            ).contains(#[trigger] blocks@[j].id) implies visited@[j] by {
            if k == post@.len() - 1 {
                let m = choose|m: int| 0 <= m < succ@.len() && succ@[m] == blocks@[j].id;
                assert(succ@[m] == blocks@[j].id);
            } else {
                assert(post@[k] == post@.drop_last()[k]);
            }
        }
    }
}

/// Orders the blocks in reverse postorder of a depth-first walk from the entry
/// and drops those the walk does not reach.
pub fn reverse_postorder_blocks(body: &mut HIR)
    ensures
        final(body).entry == old(body).entry,
        final(body).instructions == old(body).instructions,
        ids_unique(final(body).blocks@),
        forall|t: int|
            0 <= t < final(body).blocks@.len() ==> exists|j: int|
                0 <= j < old(body).blocks@.len() && #[trigger] final(body).blocks@[t] == old(body).blocks@[j],
        has_block(old(body).blocks@, old(body).entry) ==> final(body).blocks@.len() > 0
            && final(body).blocks@[0].id == old(body).entry,
        !has_block(old(body).blocks@, old(body).entry) ==> final(body).blocks@.len() == 0,
        successors_closed(final(body).blocks@, old(body).blocks@),
        forall|t: int|
            0 <= t < final(body).blocks@.len() ==> reachable(
                old(body).blocks@,
                old(body).entry,
                #[trigger] final(body).blocks@[t].id,
            ),
{
    let n = body.blocks.len();
    let mut visited: Vec<bool> = Vec::new();
    while visited.len() < n
        invariant
            visited@.len() <= n,
            forall|j: int| 0 <= j < visited@.len() ==> !visited@[j],
        decreases n - visited@.len(),
    {
        visited.push(false);
    }
    let mut post: Vec<usize> = Vec::new();
    let ghost old_blocks = body.blocks@;
    let e = find_block(&body.blocks, body.entry);
    assert(visited_reachable(old_blocks, visited@, body.entry));
    match e {
        Some(e) => {
            proof {
                assert(reachable_within(body.blocks@, body.entry, body.blocks@[e as int].id, 0));
            }
            visit(&body.blocks, e, &mut visited, &mut post, Ghost(body.entry));
        },
        None => {},
    }
    assert(has_block(old_blocks, body.entry) ==> post@.len() > 0 && old_blocks[post@.last() as int].id
        == body.entry);
    assert(forall|j: int| 0 <= j < n && #[trigger] visited@[j] ==> post@.contains(j as usize));
    let mut blocks = exchange(&mut body.blocks, Vec::new());
    let mut slots: Vec<Option<BasicBlock>> = Vec::new();
    while blocks.len() > 0
        invariant
            blocks@.len() + slots@.len() == n,
            blocks@ == old_blocks.take(blocks@.len() as int),
            old_blocks.len() == n,
            forall|m: int| 0 <= m < slots@.len() ==> #[trigger] slots@[m] == Some(old_blocks[n - 1 - m]),
        decreases blocks@.len(),
    {
        let b = blocks.pop().unwrap();
        slots.push(Some(b));
        proof {
            assert(blocks@ =~= old_blocks.take(blocks@.len() as int));
        }
    }
    let mut result: Vec<BasicBlock> = Vec::new();
    let mut k: usize = post.len();
    while k > 0
        invariant
            k <= post@.len(),
            slots@.len() == n,
            old_blocks.len() == n,
            post_ok(old_blocks, visited@, post@),
            result@.len() == post@.len() - k,
            forall|t: int| 0 <= t < result@.len() ==> #[trigger] result@[t] == old_blocks[post@[post@.len() - 1 - t] as int],
            forall|m: int| 0 <= m < k ==> #[trigger] slots@[n - 1 - post@[m]] == Some(old_blocks[post@[m] as int]),
        decreases k,
    {
        k = k - 1;
        let idx = post[k];
        let taken = exchange(&mut slots[n - 1 - idx], None);
        match taken {
            Some(b) => {
                result.push(b);
            },
            None => {
                assert(false);
            },
        }
        proof {
            assert forall|m: int| 0 <= m < k implies #[trigger] slots@[n - 1 - post@[m]] == Some(old_blocks[post@[m] as int]) by {
                assert(post@[m] != post@[k as int]);
            }
        }
    }
    proof {
        lemma_ordered_blocks(old_blocks, visited@, post@, result@, body.entry);
        assert forall|t: int| 0 <= t < result@.len() implies reachable(old_blocks, body.entry, #[trigger] result@[t].id) by {
            let pk = post@[post@.len() - 1 - t];
            assert(result@[t] == old_blocks[pk as int]);
            assert(visited@[pk as int]);
        }
    }
    body.blocks = result;
}

spec fn ordered_from(old_blocks: Seq<BasicBlock>, post: Seq<usize>, fb: Seq<BasicBlock>) -> bool {
    &&& fb.len() == post.len()
    &&& forall|t: int| 0 <= t < fb.len() ==> #[trigger] fb[t] == old_blocks[post[post.len() - 1 - t] as int]
}

proof fn lemma_ordered_blocks(
    old_blocks: Seq<BasicBlock>,
    visited: Seq<bool>,
    post: Seq<usize>,
    fb: Seq<BasicBlock>,
    entry: BlockId,
)
    requires
        visited.len() == old_blocks.len(),
        old_blocks.len() <= usize::MAX,
        post_ok(old_blocks, visited, post),
        forall|j: int| 0 <= j < old_blocks.len() && #[trigger] visited[j] ==> post.contains(j as usize),
        ordered_from(old_blocks, post, fb),
        has_block(old_blocks, entry) ==> post.len() > 0 && old_blocks[post.last() as int].id == entry,
        !has_block(old_blocks, entry) ==> post.len() == 0,
    ensures
        ids_unique(fb),
        forall|t: int|
            0 <= t < fb.len() ==> exists|j: int| 0 <= j < old_blocks.len() && #[trigger] fb[t] == old_blocks[j],
        has_block(old_blocks, entry) ==> fb.len() > 0 && fb[0].id == entry,
        !has_block(old_blocks, entry) ==> fb.len() == 0,
        successors_closed(fb, old_blocks),
{
    let pl = post.len();
    assert forall|t: int| 0 <= t < fb.len() implies exists|j: int|
        0 <= j < old_blocks.len() && #[trigger] fb[t] == old_blocks[j] by {
        assert(fb[t] == old_blocks[post[pl - 1 - t] as int]);
    }
    lemma_ordered_unique(old_blocks, visited, post, fb);
    lemma_ordered_closed(old_blocks, visited, post, fb);
    if has_block(old_blocks, entry) {
        assert(fb[0] == old_blocks[post[pl - 1] as int]);
    }
}

proof fn lemma_ordered_unique(old_blocks: Seq<BasicBlock>, visited: Seq<bool>, post: Seq<usize>, fb: Seq<BasicBlock>)
    requires
        post_ok(old_blocks, visited, post),
        ordered_from(old_blocks, post, fb),
    ensures
        ids_unique(fb),
{
    let pl = post.len();
    assert forall|a: int, b: int| 0 <= a < fb.len() && 0 <= b < fb.len() && a != b implies fb[a].id != fb[b].id by {
        let pa = post[pl - 1 - a];
        let pb = post[pl - 1 - b];
        assert(pa != pb);
        assert(first_of_id(old_blocks, pa as int));
        assert(first_of_id(old_blocks, pb as int));
        assert(fb[a] == old_blocks[pa as int]);
        assert(fb[b] == old_blocks[pb as int]);
    }
}

proof fn lemma_ordered_closed(old_blocks: Seq<BasicBlock>, visited: Seq<bool>, post: Seq<usize>, fb: Seq<BasicBlock>)
    requires
        visited.len() == old_blocks.len(),
        old_blocks.len() <= usize::MAX,
        post_ok(old_blocks, visited, post),
        forall|j: int| 0 <= j < old_blocks.len() && #[trigger] visited[j] ==> post.contains(j as usize),
        ordered_from(old_blocks, post, fb),
    ensures
        successors_closed(fb, old_blocks),
{
    let pl = post.len();
    assert forall|t: int, j: int|
        0 <= t < fb.len() && 0 <= j < old_blocks.len() && successors(
            #[trigger] fb[t].terminal.value,
        ).contains(#[trigger] old_blocks[j].id) implies has_block(fb, old_blocks[j].id) by {
        let pk = pl - 1 - t;
        assert(fb[t] == old_blocks[post[pk] as int]);
        let j0 = lemma_first_index(old_blocks, j);
        assert(visited[j0]);
        assert(post.contains(j0 as usize));
        let w = choose|w: int| 0 <= w < pl && post[w] == j0 as usize;
        let t2 = pl - 1 - w;
        assert(fb[t2] == old_blocks[post[pl - 1 - t2] as int]);
        assert(pl - 1 - t2 == w);
        assert(fb[t2].id == old_blocks[j].id);
    }
}

/// What the consolidated re-initialization guarantees of `after`, given the
/// body `before` it started from: the same entry and instructions; blocks
/// taken from `before` with unique ids, the entry first, closed under
/// successors; and predecessors recomputed from the terminals.
pub open spec fn initialized_from(before: HIR, after: HIR) -> bool {
    &&& after.entry == before.entry
    &&& after.instructions == before.instructions
    &&& ids_unique(after.blocks@)
    &&& forall|t: int|
        0 <= t < after.blocks@.len() ==> exists|j: int|
            0 <= j < before.blocks@.len() && same_but_predecessors(before.blocks@[j], #[trigger] after.blocks@[t])
    &&& has_block(before.blocks@, before.entry) ==> after.blocks@.len() > 0 && after.blocks@[0].id == before.entry
    &&& !has_block(before.blocks@, before.entry) ==> after.blocks@.len() == 0
    &&& successors_closed(after.blocks@, before.blocks@)
    &&& forall|t: int| 0 <= t < after.blocks@.len() ==> reachable(before.blocks@, before.entry, #[trigger] after.blocks@[t].id)
    &&& predecessors_marked(after.blocks@)
}

/// Each block lists as predecessors exactly the blocks that can pass it control.
pub open spec fn predecessors_marked(blocks: Seq<BasicBlock>) -> bool {
    forall|i: int| 0 <= i < blocks.len() ==> (#[trigger] blocks[i]).predecessors@ == predecessors_of(blocks, blocks[i].id)
}

/// Recomputing predecessors is idempotent: two block lists that differ at most
/// in their predecessors, and both have their predecessors marked, have equal
/// predecessor lists, block by block.
pub proof fn lemma_predecessors_stable(a: Seq<BasicBlock>, b: Seq<BasicBlock>)
    requires
        a.len() == b.len(),
        forall|k: int| 0 <= k < a.len() ==> same_but_predecessors(#[trigger] a[k], b[k]),
        predecessors_marked(a),
        predecessors_marked(b),
    ensures
        forall|k: int| 0 <= k < a.len() ==> (#[trigger] a[k]).predecessors@ == b[k].predecessors@,
{
    lemma_predecessors_ignore_predecessors(a, b);
    assert forall|k: int| 0 <= k < a.len() implies (#[trigger] a[k]).predecessors@ == b[k].predecessors@ by {
        assert(same_but_predecessors(a[k], b[k]));
        assert(predecessors_of(a, a[k].id) == predecessors_of(b, a[k].id));
    }
}

/// Re-initializing a body whose blocks keep their order leaves every block
/// exactly as it was, predecessors included.
pub proof fn lemma_reinitialization_stable(first: HIR, second: HIR)
    requires
        predecessors_marked(first.blocks@),
        initialized_from(first, second),
        second.blocks@.len() == first.blocks@.len(),
        forall|k: int| 0 <= k < first.blocks@.len() ==> (#[trigger] second.blocks@[k]).id == first.blocks@[k].id,
        ids_unique(first.blocks@),
    ensures
        forall|k: int|
            0 <= k < first.blocks@.len() ==> same_but_predecessors(first.blocks@[k], #[trigger] second.blocks@[k])
                && second.blocks@[k].predecessors@ == first.blocks@[k].predecessors@,
{
    let a = first.blocks@;
    let b = second.blocks@;
    assert forall|k: int| 0 <= k < a.len() implies same_but_predecessors(a[k], #[trigger] b[k]) by {
        let j = choose|j: int| 0 <= j < a.len() && same_but_predecessors(a[j], #[trigger] b[k]);
        assert(a[j].id == a[k].id);
    }
    lemma_predecessors_stable(a, b);
}

proof fn lemma_reachable_in_result(before: HIR, after: HIR, id: BlockId, k: nat)
    requires
        ids_unique(before.blocks@),
        initialized_from(before, after),
        has_block(before.blocks@, id),
        reachable_within(before.blocks@, before.entry, id, k),
    ensures
        has_block(after.blocks@, id),
        reachable(after.blocks@, after.entry, id),
    decreases k,
{
    let a = after.blocks@;
    let b = before.blocks@;
    if id == before.entry {
        assert(reachable_within(a, after.entry, id, 0));
    } else {
        let j = choose|j: int|
            0 <= j < b.len() && reachable_within(b, before.entry, b[j].id, (k - 1) as nat) && successors(
                #[trigger] b[j].terminal.value,
            ).contains(id);
        lemma_reachable_in_result(before, after, b[j].id, (k - 1) as nat);
        let t = choose|t: int| 0 <= t < a.len() && #[trigger] a[t].id == b[j].id;
        let j2 = choose|j2: int| 0 <= j2 < b.len() && same_but_predecessors(b[j2], #[trigger] a[t]);
        assert(j2 == j);
        let m = choose|m: int| 0 <= m < b.len() && #[trigger] b[m].id == id;
        assert(successors(a[t].terminal.value).contains(b[m].id));
        lemma_reachable_step(a, after.entry, t, id);
    }
}

proof fn lemma_reachable_kept(first: HIR, second: HIR, id: BlockId, k: nat)
    requires
        ids_unique(first.blocks@),
        initialized_from(first, second),
        has_block(first.blocks@, id),
        reachable_within(first.blocks@, first.entry, id, k),
    ensures
        has_block(second.blocks@, id),
    decreases k,
{
    let a = second.blocks@;
    let b = first.blocks@;
    if id != first.entry {
        let j = choose|j: int|
            0 <= j < b.len() && reachable_within(b, first.entry, b[j].id, (k - 1) as nat) && successors(
                #[trigger] b[j].terminal.value,
            ).contains(id);
        lemma_reachable_kept(first, second, b[j].id, (k - 1) as nat);
        let t = choose|t: int| 0 <= t < a.len() && #[trigger] a[t].id == b[j].id;
        let j2 = choose|j2: int| 0 <= j2 < b.len() && same_but_predecessors(b[j2], #[trigger] a[t]);
        assert(j2 == j);
        let m = choose|m: int| 0 <= m < b.len() && #[trigger] b[m].id == id;
        assert(successors(a[t].terminal.value).contains(b[m].id));
    }
}

/// A second re-initialization prunes nothing more: every block that the first
/// one kept, the second keeps too.
pub proof fn lemma_reinitialization_prunes_once(body: HIR, first: HIR, second: HIR)
    requires
        ids_unique(body.blocks@),
        initialized_from(body, first),
        initialized_from(first, second),
    ensures
        forall|t: int| 0 <= t < first.blocks@.len() ==> has_block(second.blocks@, #[trigger] first.blocks@[t].id),
{
    assert forall|t: int| 0 <= t < first.blocks@.len() implies has_block(second.blocks@, #[trigger] first.blocks@[t].id) by {
        let id = first.blocks@[t].id;
        let j = choose|j: int| 0 <= j < body.blocks@.len() && same_but_predecessors(body.blocks@[j], #[trigger] first.blocks@[t]);
        assert(has_block(body.blocks@, id));
        let k = choose|k: nat| reachable_within(body.blocks@, body.entry, id, k);
        lemma_reachable_in_result(body, first, id, k);
        let k2 = choose|k2: nat| reachable_within(first.blocks@, first.entry, id, k2);
        assert(has_block(first.blocks@, id));
        lemma_reachable_kept(first, second, id, k2);
    }
}

/// The id numbering gives the first instruction of block `i`: the blocks
/// before it use one id per instruction and one for the terminal, from 1 on.
pub open spec fn first_id(blocks: Seq<BasicBlock>, i: int) -> nat
    decreases i,
{
    if i <= 0 {
        1
    } else {
        first_id(blocks, i - 1) + blocks[i - 1].instructions@.len() + 1
    }
}

/// No instruction index is listed twice, in one block or in two.
pub open spec fn listed_once(blocks: Seq<BasicBlock>) -> bool {
    forall|i: int, q: int, j: int, r: int|
        0 <= i < blocks.len() && 0 <= j < blocks.len() && 0 <= q < blocks[i].instructions@.len() && 0 <= r
            < blocks[j].instructions@.len() && (i != j || q != r) ==> #[trigger] blocks[i].instructions@[q]
            != #[trigger] blocks[j].instructions@[r]
}

proof fn lemma_first_id_grows(blocks: Seq<BasicBlock>, i: int, j: int)
    requires
        0 <= i <= j <= blocks.len(),
    ensures
        first_id(blocks, i) + (if i < j { blocks[i].instructions@.len() + 1 } else { 0 }) <= first_id(blocks, j),
    decreases j - i,
{
    if i < j {
        lemma_first_id_grows(blocks, i + 1, j);
    }
}

/// Numbers the instructions and terminals in block order, from 1: each block's
/// instructions in order, then its terminal.
pub fn mark_instruction_ids(body: &mut HIR)
    requires
        forall|k: int| 0 <= k < old(body).blocks@.len() ==> block_below(#[trigger] old(body).blocks@[k], old(body).instructions@.len() as nat),
        first_id(old(body).blocks@, old(body).blocks@.len() as int) <= u32::MAX,
    ensures
        final(body).entry == old(body).entry,
        final(body).blocks@.len() == old(body).blocks@.len(),
        final(body).instructions@.len() == old(body).instructions@.len(),
        forall|k: int|
            0 <= k < final(body).instructions@.len() ==> (#[trigger] final(body).instructions@[k]).value
                == old(body).instructions@[k].value,
        forall|i: int|
            0 <= i < final(body).blocks@.len() ==> {
                let a = old(body).blocks@[i];
                let b = #[trigger] final(body).blocks@[i];
                &&& b.id == a.id && b.kind == a.kind && b.instructions == a.instructions
                &&& b.predecessors == a.predecessors && b.terminal.value == a.terminal.value
                &&& b.terminal.id.0 == first_id(old(body).blocks@, i) + a.instructions@.len()
            },
        listed_once(old(body).blocks@) ==> forall|i: int, q: int|
            0 <= i < old(body).blocks@.len() && 0 <= q < old(body).blocks@[i].instructions@.len()
                ==> final(body).instructions@[#[trigger] old(body).blocks@[i].instructions@[q].0 as int].id.0
                == first_id(old(body).blocks@, i) + q,
{
    let ghost b0 = *body;
    let ghost nb = b0.blocks@.len() as int;
    let mut next: u32 = 1;
    let mut i: usize = 0;
    while i < body.blocks.len()
        invariant
            i <= body.blocks@.len(),
            body.entry == b0.entry,
            body.blocks@.len() == b0.blocks@.len(),
            body.instructions@.len() == b0.instructions@.len(),
            forall|k: int| 0 <= k < b0.blocks@.len() ==> block_below(#[trigger] b0.blocks@[k], b0.instructions@.len() as nat),
            first_id(b0.blocks@, nb) <= u32::MAX,
            nb == b0.blocks@.len(),
            next == first_id(b0.blocks@, i as int),
            forall|k: int| 0 <= k < body.instructions@.len() ==> (#[trigger] body.instructions@[k]).value == b0.instructions@[k].value,
            forall|k: int| i <= k < body.blocks@.len() ==> #[trigger] body.blocks@[k] == b0.blocks@[k],
            forall|k: int|
                0 <= k < i ==> {
                    let a = b0.blocks@[k];
                    let b = #[trigger] body.blocks@[k];
                    &&& b.id == a.id && b.kind == a.kind && b.instructions == a.instructions
                    &&& b.predecessors == a.predecessors && b.terminal.value == a.terminal.value
                    &&& b.terminal.id.0 == first_id(b0.blocks@, k) + a.instructions@.len()
                },
            listed_once(b0.blocks@) ==> forall|k: int, q: int|
                0 <= k < i && 0 <= q < b0.blocks@[k].instructions@.len()
                    ==> body.instructions@[#[trigger] b0.blocks@[k].instructions@[q].0 as int].id.0
                    == first_id(b0.blocks@, k) + q,
        decreases b0.blocks@.len() - i,
    {
        proof {
            lemma_first_id_grows(b0.blocks@, i as int, nb);
        }
        let len = body.blocks[i].instructions.len();
        let ghost bs = body.blocks@;
        let mut q: usize = 0;
        while q < len
            invariant
                i < body.blocks@.len(),
                body.blocks@ == bs,
                body.entry == b0.entry,
                q <= len,
                len == b0.blocks@[i as int].instructions@.len(),
                body.blocks@[i as int] == b0.blocks@[i as int],
                body.blocks@.len() == b0.blocks@.len(),
                body.instructions@.len() == b0.instructions@.len(),
                block_below(b0.blocks@[i as int], b0.instructions@.len() as nat),
                forall|k: int| 0 <= k < b0.blocks@.len() ==> block_below(#[trigger] b0.blocks@[k], b0.instructions@.len() as nat),
                first_id(b0.blocks@, i as int) + len + 1 <= u32::MAX,
                next == first_id(b0.blocks@, i as int) + q,
                forall|k: int| 0 <= k < body.instructions@.len() ==> (#[trigger] body.instructions@[k]).value == b0.instructions@[k].value,
                listed_once(b0.blocks@) ==> forall|k: int, r: int|
                    0 <= k < i && 0 <= r < b0.blocks@[k].instructions@.len()
                        ==> body.instructions@[#[trigger] b0.blocks@[k].instructions@[r].0 as int].id.0
                        == first_id(b0.blocks@, k) + r,
                listed_once(b0.blocks@) ==> forall|r: int|
                    0 <= r < q ==> body.instructions@[#[trigger] b0.blocks@[i as int].instructions@[r].0 as int].id.0
                        == first_id(b0.blocks@, i as int) + r,
            decreases len - q,
        {
            let x = body.blocks[i].instructions[q].0 as usize;
            assert(b0.blocks@[i as int].instructions@[q as int].0 < b0.instructions@.len());
            let ghost before = body.instructions@;
            body.instructions[x].id = InstructionId(next);
            proof {
                if listed_once(b0.blocks@) {
                    assert forall|k: int, r: int|
                        0 <= k < i && 0 <= r < b0.blocks@[k].instructions@.len() implies body.instructions@[
                            #[trigger] b0.blocks@[k].instructions@[r].0 as int].id.0 == first_id(b0.blocks@, k) + r by {
                        assert(b0.blocks@[k].instructions@[r] != b0.blocks@[i as int].instructions@[q as int]);
                        assert(b0.blocks@[k].instructions@[r].0 < b0.instructions@.len()) by {
                            assert(block_below(b0.blocks@[k], b0.instructions@.len() as nat));
                        }
                    }
                    assert forall|r: int| 0 <= r < q + 1 implies body.instructions@[
                        #[trigger] b0.blocks@[i as int].instructions@[r].0 as int].id.0 == first_id(b0.blocks@, i as int) + r by {
                        if r < q {
                            assert(b0.blocks@[i as int].instructions@[r] != b0.blocks@[i as int].instructions@[q as int]);
                        }
                    }
                }
            }
            next = next + 1;
            q = q + 1;
        }
        body.blocks[i].terminal.id = InstructionId(next);
        next = next + 1;
        i = i + 1;
    }
}

/// Recomputes the derived structure of a body after blocks were added, removed
/// or split: orders the blocks in reverse postorder from the entry, drops the
/// unreachable ones, and recomputes every block's predecessors.
pub fn initialize_hir(body: &mut HIR) -> (r: Result<(), Diagnostic>)
    ensures
        r is Ok,
        initialized_from(*old(body), *final(body)),
{
    let ghost b0 = *body;
    reverse_postorder_blocks(body);
    let ghost b1 = *body;
    mark_predecessors(body);
    proof {
        let fb = body.blocks@;
        assert forall|t: int| 0 <= t < fb.len() implies exists|j: int|
            0 <= j < b0.blocks@.len() && same_but_predecessors(b0.blocks@[j], #[trigger] fb[t]) by {
            assert(same_but_predecessors(b1.blocks@[t], fb[t]));
            let j = choose|j: int| 0 <= j < b0.blocks@.len() && #[trigger] b1.blocks@[t] == b0.blocks@[j];
        }
        assert forall|a: int, b: int| 0 <= a < fb.len() && 0 <= b < fb.len() && a != b implies fb[a].id != fb[b].id by {
            assert(same_but_predecessors(b1.blocks@[a], fb[a]));
            assert(same_but_predecessors(b1.blocks@[b], fb[b]));
        }
        if has_block(b0.blocks@, b0.entry) {
            assert(same_but_predecessors(b1.blocks@[0], fb[0]));
        }
        assert forall|t: int, j: int|
            0 <= t < fb.len() && 0 <= j < b0.blocks@.len() && successors(
                #[trigger] fb[t].terminal.value,
            ).contains(#[trigger] b0.blocks@[j].id) implies has_block(fb, b0.blocks@[j].id) by {
            assert(same_but_predecessors(b1.blocks@[t], fb[t]));
            let w = choose|w: int| 0 <= w < b1.blocks@.len() && #[trigger] b1.blocks@[w].id == b0.blocks@[j].id;
            assert(same_but_predecessors(b1.blocks@[w], fb[w]));
        }
        assert forall|t: int| 0 <= t < fb.len() implies reachable(b0.blocks@, b0.entry, #[trigger] fb[t].id) by {
            assert(same_but_predecessors(b1.blocks@[t], fb[t]));
        }
    }
    Ok(())
}

} // verus!
