//! Follow-up challenge to Bloxorz Model.
//!
//! Problem: find the shortest solution to a Bloxorz level.

use crate::bloxorz_model::game::{is_active_state, is_win_state};
use crate::bloxorz_model::{ActiveGame, Block, Board, Direction, Game, Orientation, Status, Tile};
use std::collections::HashMap;
use std::collections::VecDeque;
use vstd::prelude::*;

verus! {

/// The block reached by replaying `moves` in order from `start`.
pub open spec fn replay(start: Block, moves: Seq<Direction>) -> Block
    decreases moves.len(),
{
    if moves.len() == 0 {
        start
    } else {
        replay(start, moves.drop_last()).spec_make_move(moves.last())
    }
}

/// A solution: the state before each move is active (so the move is legal),
/// and the state after the last move is a win.
pub open spec fn is_winning_path(board: Board, start: Block, moves: Seq<Direction>) -> bool {
    &&& forall|i: int|
        0 <= i < moves.len() ==> is_active_state(board, #[trigger] replay(start, moves.take(i)))
    &&& is_win_state(board, replay(start, moves))
}

/// A path recorded by the search: it replays from `start` to `b`,
/// and every state it passes through before its last is active.
pub open spec fn path_leads_to(board: Board, start: Block, moves: Seq<Direction>, b: Block) -> bool {
    &&& replay(start, moves) == b
    &&& forall|i: int|
        0 <= i < moves.len() ==> is_active_state(board, #[trigger] replay(start, moves.take(i)))
}

/// Whether a block lies in the halo of representable coordinates around the
/// board: every block the search enqueues (other than the start) is the result
/// of one move from a block whose footprint lies on the board.
pub open spec fn near_board(board: Board, b: Block) -> bool {
    &&& -2 <= b.0.0 <= board.0.spec_width() + 1
    &&& -2 <= b.0.1 <= board.0.spec_height() + 1
}

/// The image of a signed 32-bit value shifted into [0, 2^32).
pub open spec fn u32_image(x: i32) -> int {
    if x >= 0 {
        x as int
    } else {
        x + 0x1_0000_0000
    }
}

/// A distinct index for each orientation.
pub open spec fn orientation_index(orientation: Orientation) -> int {
    match orientation {
        Orientation::Upright => 0,
        Orientation::Horizontal => 1,
        Orientation::Vertical => 2,
    }
}

/// An injective encoding of a block into [0, 2^66),
/// used to key the search's visited map.
pub open spec fn spec_block_key(b: Block) -> int {
    (u32_image(b.0.0) * 0x1_0000_0000 + u32_image(b.0.1)) * 4 + orientation_index(b.1)
}

/// The encoding as an unsigned 128-bit machine key.
pub open spec fn key_of(b: Block) -> u128 {
    spec_block_key(b) as u128
}

proof fn lemma_block_key_range(b: Block)
    ensures
        0 <= spec_block_key(b) < 0x4_0000_0000_0000_0000,
        key_of(b) as int == spec_block_key(b),
{
    assert(0 <= u32_image(b.0.0) < 0x1_0000_0000);
    assert(0 <= u32_image(b.0.1) < 0x1_0000_0000);
    assert(0 <= orientation_index(b.1) < 4);
}

proof fn lemma_block_key_injective(a: Block, b: Block)
    requires
        spec_block_key(a) == spec_block_key(b),
    ensures
        a == b,
{
    let ax = u32_image(a.0.0);
    let ay = u32_image(a.0.1);
    let bx = u32_image(b.0.0);
    let by = u32_image(b.0.1);
    let ao = orientation_index(a.1);
    let bo = orientation_index(b.1);
    assert(0 <= ax < 0x1_0000_0000 && 0 <= ay < 0x1_0000_0000);
    assert(0 <= bx < 0x1_0000_0000 && 0 <= by < 0x1_0000_0000);
    assert(0 <= ao < 4 && 0 <= bo < 4);
    assert((ax * 0x1_0000_0000 + ay) * 4 + ao == (bx * 0x1_0000_0000 + by) * 4 + bo);
    assert(ax * 0x1_0000_0000 + ay == bx * 0x1_0000_0000 + by && ao == bo);
    assert(ax == bx && ay == by);
    assert(a.0.0 == b.0.0 && a.0.1 == b.0.1);
    assert(a.1 == b.1);
}

/// Distinct blocks have distinct machine keys.
proof fn lemma_keys_distinct(a: Block, b: Block)
    requires
        a != b,
    ensures
        key_of(a) != key_of(b),
        spec_block_key(a) != spec_block_key(b),
{
    lemma_block_key_range(a);
    lemma_block_key_range(b);
    if spec_block_key(a) == spec_block_key(b) {
        lemma_block_key_injective(a, b);
    }
}

/// Computes the key under which a block is recorded in the visited map.
fn block_key(b: Block) -> (k: u128)
    ensures
        k == key_of(b),
        k as int == spec_block_key(b),
{
    proof {
        lemma_block_key_range(b);
    }
    let Block((x, y), orientation) = b;
    let xi: u128 = if x >= 0 {
        x as u128
    } else {
        ((x as i64) + 0x1_0000_0000i64) as u128
    };
    let yi: u128 = if y >= 0 {
        y as u128
    } else {
        ((y as i64) + 0x1_0000_0000i64) as u128
    };
    let oi: u128 = match orientation {
        Orientation::Upright => 0,
        Orientation::Horizontal => 1,
        Orientation::Vertical => 2,
    };
    (xi * 0x1_0000_0000 + yi) * 4 + oi
}

/// The internal consistency of the search state: `paths` gives one recorded
/// path per discovered block, the visited map holds exactly the keys of the
/// discovered blocks with predecessor records spelling out those paths, every
/// discovered block lies near the board (or is the start), queue entries are
/// discovered games over the searched board, processed blocks are discovered,
/// are not wins, and have all their successors discovered, and `keys_int`
/// mirrors the visited keys for cardinality bookkeeping.
spec fn search_inv<'a>(
    game: Game<'a>,
    queue: Seq<Game<'a>>,
    visited: Map<u128, Option<(Direction, Block)>>,
    paths: Map<Block, Seq<Direction>>,
    processed: Set<Block>,
    keys_int: Set<int>,
) -> bool {
    let bd = game.spec_board();
    let start = game.spec_block();
    &&& bd.wf()
    &&& bd.0.spec_width() <= i32::MAX - 2
    &&& bd.0.spec_height() <= i32::MAX - 2
    &&& start.footprint_fits()
    &&& paths.contains_key(start)
    &&& paths[start] == Seq::<Direction>::empty()
    &&& forall|b: Block| #[trigger] paths.contains_key(b) <==> visited.contains_key(key_of(b))
    &&& forall|b: Block| #[trigger]
        paths.contains_key(b) ==> match visited[key_of(b)] {
            None => b == start && paths[b] == Seq::<Direction>::empty(),
            Some((d, p)) => paths.contains_key(p) && paths[b] == paths[p].push(d),
        }
    &&& forall|b: Block| #[trigger] paths.contains_key(b) ==> path_leads_to(bd, start, paths[b], b)
    &&& forall|b: Block| #[trigger] paths.contains_key(b) ==> b == start || near_board(bd, b)
    &&& forall|i: int|
        0 <= i < queue.len() ==> (#[trigger] queue[i]).spec_board() == bd && paths.contains_key(
            queue[i].spec_block(),
        )
    &&& forall|b: Block| #[trigger]
        processed.contains(b) ==> paths.contains_key(b) && !is_win_state(bd, b)
    &&& forall|b: Block, d: Direction|
        processed.contains(b) && is_active_state(bd, b) ==> paths.contains_key(
            #[trigger] b.spec_make_move(d),
        ) && paths[b.spec_make_move(d)].len() <= paths[b].len() + 1
    &&& keys_int.finite()
    &&& keys_int.len() == visited.dom().len()
    &&& forall|i: int| #[trigger] keys_int.contains(i) ==> 0 <= i < 0x4_0000_0000_0000_0000
    &&& forall|b: Block| #[trigger] visited.contains_key(key_of(b)) <==> keys_int.contains(
        spec_block_key(b),
    )
    &&& visited.dom().len() <= 0x4_0000_0000_0000_0000
}

/// Every discovered block has been processed, is the extra block currently
/// being expanded, or still waits in the queue.
spec fn covered<'a>(
    paths: Map<Block, Seq<Direction>>,
    processed: Set<Block>,
    queue: Seq<Game<'a>>,
    extra: Set<Block>,
) -> bool {
    forall|b: Block| #[trigger]
        paths.contains_key(b) ==> processed.contains(b) || extra.contains(b) || exists|i: int|
            0 <= i < queue.len() && (#[trigger] queue[i]).spec_block() == b
}

/// The length of the path recorded for the block of the queue entry at `i`.
spec fn qlen<'a>(paths: Map<Block, Seq<Direction>>, queue: Seq<Game<'a>>, i: int) -> nat {
    paths[queue[i].spec_block()].len()
}

/// Breadth-first order of the search state: recorded path lengths along the
/// queue never decrease and span at most two consecutive values, and no
/// processed block's path is longer than a queued block's.
spec fn lengths_ordered<'a>(
    paths: Map<Block, Seq<Direction>>,
    processed: Set<Block>,
    queue: Seq<Game<'a>>,
) -> bool {
    &&& forall|i: int, j: int|
        #![trigger qlen(paths, queue, i), qlen(paths, queue, j)]
        0 <= i <= j < queue.len() ==> qlen(paths, queue, i) <= qlen(paths, queue, j)
    &&& forall|i: int, j: int|
        #![trigger qlen(paths, queue, i), qlen(paths, queue, j)]
        0 <= i < queue.len() && 0 <= j < queue.len() ==> qlen(paths, queue, i) <= qlen(
            paths,
            queue,
            j,
        ) + 1
    &&& forall|b: Block, i: int|
        #![trigger processed.contains(b), qlen(paths, queue, i)]
        processed.contains(b) && 0 <= i < queue.len() ==> paths[b].len() <= qlen(paths, queue, i)
}

/// Expands one edge of the search: if the block one move of `d` away from the
/// active game's block is undiscovered, records it with its predecessor and
/// enqueues it.
fn expand_neighbor<'a>(
    queue: &mut VecDeque<Game<'a>>,
    visited: &mut HashMap<u128, Option<(Direction, Block)>>,
    paths_g: &mut Ghost<Map<Block, Seq<Direction>>>,
    keys_g: &mut Ghost<Set<int>>,
    game: Game<'a>,
    active_curr: ActiveGame<'a>,
    d: Direction,
    Ghost(processed): Ghost<Set<Block>>,
)
    requires
        search_inv(game, old(queue)@, old(visited)@, old(paths_g)@, processed, old(keys_g)@),
        covered(
            old(paths_g)@,
            processed,
            old(queue)@,
            Set::empty().insert(active_curr.spec_block()),
        ),
        active_curr.spec_board() == game.spec_board(),
        is_active_state(game.spec_board(), active_curr.spec_block()),
        old(paths_g)@.contains_key(active_curr.spec_block()),
        0 <= active_curr.spec_block().0.0 < game.spec_board().0.spec_width(),
        0 <= active_curr.spec_block().0.1 < game.spec_board().0.spec_height(),
        forall|b: Block| #[trigger]
            old(paths_g)@.contains_key(b) ==> old(paths_g)@[b].len() <= old(paths_g)@[active_curr.spec_block()].len() + 1,
        forall|i: int, j: int|
            #![trigger qlen(old(paths_g)@, old(queue)@, i), qlen(old(paths_g)@, old(queue)@, j)]
            0 <= i <= j < old(queue)@.len() ==> qlen(old(paths_g)@, old(queue)@, i) <= qlen(
                old(paths_g)@,
                old(queue)@,
                j,
            ),
        forall|i: int|
            0 <= i < old(queue)@.len() ==> old(paths_g)@[active_curr.spec_block()].len() <= (
            #[trigger] qlen(old(paths_g)@, old(queue)@, i)) <= old(paths_g)@[active_curr.spec_block()].len() + 1,
    ensures
        search_inv(game, final(queue)@, final(visited)@, final(paths_g)@, processed, final(keys_g)@),
        covered(
            final(paths_g)@,
            processed,
            final(queue)@,
            Set::empty().insert(active_curr.spec_block()),
        ),
        final(paths_g)@.contains_key(active_curr.spec_block().spec_make_move(d)),
        forall|b: Block| #[trigger]
            old(paths_g)@.contains_key(b) ==> final(paths_g)@.contains_key(b) && final(paths_g)@[b]
                == old(paths_g)@[b],
        final(visited)@.dom().len() - old(visited)@.dom().len() == final(queue)@.len() - old(queue)@.len(),
        old(visited)@.dom().len() <= final(visited)@.dom().len(),
        forall|b: Block| #[trigger]
            final(paths_g)@.contains_key(b) ==> final(paths_g)@[b].len() <= final(paths_g)@[active_curr.spec_block()].len() + 1,
        forall|i: int, j: int|
            #![trigger qlen(final(paths_g)@, final(queue)@, i), qlen(final(paths_g)@, final(queue)@, j)]
            0 <= i <= j < final(queue)@.len() ==> qlen(final(paths_g)@, final(queue)@, i) <= qlen(
                final(paths_g)@,
                final(queue)@,
                j,
            ),
        forall|i: int|
            0 <= i < final(queue)@.len() ==> final(paths_g)@[active_curr.spec_block()].len() <= (
            #[trigger] qlen(final(paths_g)@, final(queue)@, i)) <= final(paths_g)@[active_curr.spec_block()].len() + 1,
        forall|i: int| 0 <= i < old(queue)@.len() ==> final(queue)@[i] == old(queue)@[i],
        final(paths_g)@[active_curr.spec_block().spec_make_move(d)].len() <= final(paths_g)@[active_curr.spec_block()].len() + 1,
{
    let ghost bd = game.spec_board();
    let ghost start = game.spec_block();
    let ghost cb = active_curr.spec_block();
    let next: Game<'a> = active_curr.make_move(d);
    let nb = next.block();
    let nk = block_key(nb);
    proof {
        lemma_block_key_range(nb);
    }
    if !visited.contains_key(&nk) {
        let ghost prev_q = queue@;
        queue.push_back(next);
        visited.insert(nk, Some((d, active_curr.block())));
        proof {
            let old_paths = paths_g@;
            *paths_g = Ghost(old_paths.insert(nb, old_paths[cb].push(d)));
            *keys_g = Ghost(keys_g@.insert(spec_block_key(nb)));
            let paths = paths_g@;
            let keys_int = keys_g@;
            assert forall|b: Block|
                #![trigger key_of(b)]
                b != nb implies key_of(b) != key_of(nb) && spec_block_key(b) != spec_block_key(
                nb,
            ) by {
                lemma_keys_distinct(b, nb);
            }
            assert forall|b: Block| #[trigger]
                paths.contains_key(b) <==> visited@.contains_key(key_of(b)) by {}
            assert forall|b: Block| #[trigger]
                visited@.contains_key(key_of(b)) <==> keys_int.contains(spec_block_key(b)) by {}
            assert forall|b: Block| #[trigger]
                paths.contains_key(b) implies processed.contains(b) || Set::empty().insert(
                cb,
            ).contains(b) || exists|i: int|
                0 <= i < queue@.len() && (#[trigger] queue@[i]).spec_block() == b by {
                if b == nb {
                    assert(queue@[queue@.len() - 1].spec_block() == b);
                } else if !processed.contains(b) && b != cb {
                    let i = choose|i: int|
                        0 <= i < prev_q.len() && (#[trigger] prev_q[i]).spec_block() == b;
                    assert(queue@[i].spec_block() == b);
                }
            }
            // The new record is consistent and its path is valid.
            let np = old_paths[cb].push(d);
            assert(np.drop_last() =~= old_paths[cb]);
            assert(np.last() == d);
            assert(path_leads_to(bd, start, old_paths[cb], cb));
            assert(replay(start, np) == cb.spec_make_move(d));
            assert forall|i: int| 0 <= i < np.len() implies is_active_state(
                bd,
                #[trigger] replay(start, np.take(i)),
            ) by {
                if i < np.len() - 1 {
                    assert(np.take(i) =~= old_paths[cb].take(i));
                } else {
                    assert(np.take(i) =~= old_paths[cb]);
                }
            }
            assert(path_leads_to(bd, start, paths[nb], nb));
            // Path-length bookkeeping: the new entry is one move longer than
            // the block being expanded, and existing entries are untouched.
            assert(nb == cb.spec_make_move(d));
            assert(paths[nb].len() == paths[cb].len() + 1);
            assert forall|i: int, j: int|
                #![trigger qlen(paths, queue@, i), qlen(paths, queue@, j)]
                0 <= i <= j < queue@.len() implies qlen(paths, queue@, i) <= qlen(
                paths,
                queue@,
                j,
            ) by {
                if i < prev_q.len() {
                    assert(queue@[i] == prev_q[i]);
                    assert(qlen(paths, queue@, i) == qlen(old_paths, prev_q, i));
                }
                if j < prev_q.len() {
                    assert(queue@[j] == prev_q[j]);
                    assert(qlen(paths, queue@, j) == qlen(old_paths, prev_q, j));
                } else {
                    assert(queue@[j].spec_block() == nb);
                    assert(qlen(paths, queue@, j) == paths[cb].len() + 1);
                }
            }
            assert forall|i: int|
                0 <= i < queue@.len() implies paths[cb].len() <= (#[trigger] qlen(
                paths,
                queue@,
                i,
            )) <= paths[cb].len() + 1 by {
                if i < prev_q.len() {
                    assert(queue@[i] == prev_q[i]);
                    assert(qlen(paths, queue@, i) == qlen(old_paths, prev_q, i));
                } else {
                    assert(queue@[i].spec_block() == nb);
                }
            }
            // Cardinality bookkeeping for termination.
            vstd::set_lib::lemma_int_range(0, 0x4_0000_0000_0000_0000);
            vstd::set_lib::lemma_len_subset(
                keys_int,
                vstd::set_lib::set_int_range(0, 0x4_0000_0000_0000_0000),
            );
        }
    } else {
        proof {
            assert(nb == cb.spec_make_move(d));
            assert(paths_g@.contains_key(nb));
            assert(paths_g@[nb].len() <= paths_g@[cb].len() + 1);
        }
    }
}

/// Dequeuing shifts the queue by one: every discovered block is now processed,
/// the dequeued block itself, or still in the shortened queue.
proof fn lemma_covered_after_pop<'a>(
    paths: Map<Block, Seq<Direction>>,
    processed: Set<Block>,
    old_q: Seq<Game<'a>>,
    new_q: Seq<Game<'a>>,
    cb: Block,
)
    requires
        old_q.len() > 0,
        old_q[0].spec_block() == cb,
        new_q == old_q.subrange(1, old_q.len() as int),
        covered(paths, processed, old_q, Set::empty()),
    ensures
        covered(paths, processed, new_q, Set::empty().insert(cb)),
{
    assert forall|b: Block| #[trigger]
        paths.contains_key(b) implies processed.contains(b) || Set::empty().insert(cb).contains(b)
        || exists|i: int| 0 <= i < new_q.len() && (#[trigger] new_q[i]).spec_block() == b by {
        if !processed.contains(b) && b != cb {
            let i = choose|i: int| 0 <= i < old_q.len() && (#[trigger] old_q[i]).spec_block() == b;
            assert(i != 0);
            assert(new_q[i - 1].spec_block() == b);
        }
    }
}

/// Marking the block under expansion as processed restores the plain covering.
proof fn lemma_covered_after_process<'a>(
    paths: Map<Block, Seq<Direction>>,
    processed: Set<Block>,
    q: Seq<Game<'a>>,
    cb: Block,
)
    requires
        covered(paths, processed, q, Set::empty().insert(cb)),
    ensures
        covered(paths, processed.insert(cb), q, Set::empty()),
{
}

/// Marking a discovered, non-winning block whose successors (if it is active)
/// are all discovered as processed preserves the search invariant.
proof fn lemma_inv_after_process<'a>(
    game: Game<'a>,
    q: Seq<Game<'a>>,
    visited: Map<u128, Option<(Direction, Block)>>,
    paths: Map<Block, Seq<Direction>>,
    processed: Set<Block>,
    keys_int: Set<int>,
    cb: Block,
)
    requires
        search_inv(game, q, visited, paths, processed, keys_int),
        paths.contains_key(cb),
        !is_win_state(game.spec_board(), cb),
        is_active_state(game.spec_board(), cb) ==> forall|d: Direction|
            paths.contains_key(#[trigger] cb.spec_make_move(d)) && paths[cb.spec_make_move(
                d,
            )].len() <= paths[cb].len() + 1,
    ensures
        search_inv(game, q, visited, paths, processed.insert(cb), keys_int),
{
}

/// Expands all four edges out of an active game's block, recording and
/// enqueuing whichever neighbors are undiscovered.
fn expand_all<'a>(
    queue: &mut VecDeque<Game<'a>>,
    visited: &mut HashMap<u128, Option<(Direction, Block)>>,
    paths_g: &mut Ghost<Map<Block, Seq<Direction>>>,
    keys_g: &mut Ghost<Set<int>>,
    game: Game<'a>,
    active_curr: ActiveGame<'a>,
    Ghost(processed): Ghost<Set<Block>>,
)
    requires
        search_inv(game, old(queue)@, old(visited)@, old(paths_g)@, processed, old(keys_g)@),
        covered(
            old(paths_g)@,
            processed,
            old(queue)@,
            Set::empty().insert(active_curr.spec_block()),
        ),
        active_curr.spec_board() == game.spec_board(),
        is_active_state(game.spec_board(), active_curr.spec_block()),
        old(paths_g)@.contains_key(active_curr.spec_block()),
        forall|b: Block| #[trigger]
            old(paths_g)@.contains_key(b) ==> old(paths_g)@[b].len() <= old(paths_g)@[active_curr.spec_block()].len() + 1,
        forall|i: int, j: int|
            #![trigger qlen(old(paths_g)@, old(queue)@, i), qlen(old(paths_g)@, old(queue)@, j)]
            0 <= i <= j < old(queue)@.len() ==> qlen(old(paths_g)@, old(queue)@, i) <= qlen(
                old(paths_g)@,
                old(queue)@,
                j,
            ),
        forall|i: int|
            0 <= i < old(queue)@.len() ==> old(paths_g)@[active_curr.spec_block()].len() <= (
            #[trigger] qlen(old(paths_g)@, old(queue)@, i)) <= old(paths_g)@[active_curr.spec_block()].len() + 1,
    ensures
        search_inv(game, final(queue)@, final(visited)@, final(paths_g)@, processed, final(keys_g)@),
        covered(
            final(paths_g)@,
            processed,
            final(queue)@,
            Set::empty().insert(active_curr.spec_block()),
        ),
        forall|d: Direction|
            final(paths_g)@.contains_key(#[trigger] active_curr.spec_block().spec_make_move(d))
                && final(paths_g)@[active_curr.spec_block().spec_make_move(d)].len() <= final(paths_g)@[active_curr.spec_block()].len() + 1,
        forall|b: Block| #[trigger]
            old(paths_g)@.contains_key(b) ==> final(paths_g)@.contains_key(b) && final(paths_g)@[b]
                == old(paths_g)@[b],
        final(visited)@.dom().len() - old(visited)@.dom().len() == final(queue)@.len() - old(queue)@.len(),
        old(visited)@.dom().len() <= final(visited)@.dom().len(),
        final(paths_g)@[active_curr.spec_block()] == old(paths_g)@[active_curr.spec_block()],
        forall|b: Block| #[trigger]
            final(paths_g)@.contains_key(b) ==> final(paths_g)@[b].len() <= final(paths_g)@[active_curr.spec_block()].len() + 1,
        forall|i: int, j: int|
            #![trigger qlen(final(paths_g)@, final(queue)@, i), qlen(final(paths_g)@, final(queue)@, j)]
            0 <= i <= j < final(queue)@.len() ==> qlen(final(paths_g)@, final(queue)@, i) <= qlen(
                final(paths_g)@,
                final(queue)@,
                j,
            ),
        forall|i: int|
            0 <= i < final(queue)@.len() ==> final(paths_g)@[active_curr.spec_block()].len() <= (
            #[trigger] qlen(final(paths_g)@, final(queue)@, i)) <= final(paths_g)@[active_curr.spec_block()].len() + 1,
{
    let ghost bd = game.spec_board();
    let ghost cb = active_curr.spec_block();
    proof {
        // An active block touches no empty space, so its whole footprint lies
        // on the board and every move fits.
        assert(!cb.spec_is_touching(Tile::Empty, bd));
        assert(bd.0.in_bounds(cb.0.0 as int, cb.0.1 as int));
    }
    expand_neighbor(queue, visited, paths_g, keys_g, game, active_curr, Direction::Left, Ghost(processed));
    expand_neighbor(queue, visited, paths_g, keys_g, game, active_curr, Direction::Right, Ghost(processed));
    expand_neighbor(queue, visited, paths_g, keys_g, game, active_curr, Direction::Up, Ghost(processed));
    expand_neighbor(queue, visited, paths_g, keys_g, game, active_curr, Direction::Down, Ghost(processed));
    proof {
        assert forall|d: Direction| paths_g@.contains_key(#[trigger] cb.spec_make_move(d)) by {
            if d == Direction::Left {
            } else if d == Direction::Right {
            } else if d == Direction::Up {
            } else {
                assert(d == Direction::Down);
            }
        }
    }
}

/// Dequeuing the head keeps the breadth-first order: recorded lengths on the
/// shortened queue stay within one of the dequeued block's, and processed
/// blocks stay no longer than it.
proof fn lemma_lengths_after_pop<'a>(
    paths: Map<Block, Seq<Direction>>,
    processed: Set<Block>,
    old_q: Seq<Game<'a>>,
    new_q: Seq<Game<'a>>,
    cb: Block,
)
    requires
        old_q.len() > 0,
        old_q[0].spec_block() == cb,
        new_q == old_q.subrange(1, old_q.len() as int),
        lengths_ordered(paths, processed, old_q),
    ensures
        forall|i: int, j: int|
            #![trigger qlen(paths, new_q, i), qlen(paths, new_q, j)]
            0 <= i <= j < new_q.len() ==> qlen(paths, new_q, i) <= qlen(paths, new_q, j),
        forall|i: int|
            0 <= i < new_q.len() ==> paths[cb].len() <= (#[trigger] qlen(paths, new_q, i))
                <= paths[cb].len() + 1,
        forall|b: Block| #[trigger] processed.contains(b) ==> paths[b].len() <= paths[cb].len(),
{
    assert(qlen(paths, old_q, 0) == paths[cb].len());
    assert forall|i: int, j: int|
        #![trigger qlen(paths, new_q, i), qlen(paths, new_q, j)]
        0 <= i <= j < new_q.len() implies qlen(paths, new_q, i) <= qlen(paths, new_q, j) by {
        assert(new_q[i] == old_q[i + 1] && new_q[j] == old_q[j + 1]);
        assert(qlen(paths, old_q, i + 1) <= qlen(paths, old_q, j + 1));
    }
    assert forall|i: int|
        0 <= i < new_q.len() implies paths[cb].len() <= (#[trigger] qlen(paths, new_q, i))
        <= paths[cb].len() + 1 by {
        assert(new_q[i] == old_q[i + 1]);
        assert(qlen(paths, old_q, 0) <= qlen(paths, old_q, i + 1) <= qlen(paths, old_q, 0) + 1);
    }
    assert forall|b: Block| #[trigger] processed.contains(b) implies paths[b].len() <= paths[cb].len() by {
        assert(paths[b].len() <= qlen(paths, old_q, 0));
    }
}

/// Once the queue's lengths sit within one of the current block's and the
/// processed blocks sit below it, the current block can itself be processed
/// without breaking the breadth-first order.
proof fn lemma_lengths_add_processed<'a>(
    paths: Map<Block, Seq<Direction>>,
    processed: Set<Block>,
    q: Seq<Game<'a>>,
    cb: Block,
)
    requires
        forall|i: int, j: int|
            #![trigger qlen(paths, q, i), qlen(paths, q, j)]
            0 <= i <= j < q.len() ==> qlen(paths, q, i) <= qlen(paths, q, j),
        forall|i: int|
            0 <= i < q.len() ==> paths[cb].len() <= (#[trigger] qlen(paths, q, i)) <= paths[cb].len() + 1,
        forall|b: Block| #[trigger] processed.contains(b) ==> paths[b].len() <= paths[cb].len(),
    ensures
        lengths_ordered(paths, processed.insert(cb), q),
{
}

/// Every block discovered so far sits at most one move beyond the block being
/// expanded, measured by recorded path length.
proof fn lemma_discovered_within_one<'a>(
    paths: Map<Block, Seq<Direction>>,
    processed: Set<Block>,
    q: Seq<Game<'a>>,
    cb: Block,
)
    requires
        covered(paths, processed, q, Set::empty().insert(cb)),
        forall|i: int|
            0 <= i < q.len() ==> paths[cb].len() <= (#[trigger] qlen(paths, q, i)) <= paths[cb].len() + 1,
        forall|b: Block| #[trigger] processed.contains(b) ==> paths[b].len() <= paths[cb].len(),
    ensures
        forall|b: Block| #[trigger]
            paths.contains_key(b) ==> paths[b].len() <= paths[cb].len() + 1,
{
    assert forall|b: Block| #[trigger] paths.contains_key(b) implies paths[b].len() <= paths[cb].len() + 1 by {
        if !processed.contains(b) && b != cb {
            let i = choose|i: int| 0 <= i < q.len() && (#[trigger] q[i]).spec_block() == b;
            assert(qlen(paths, q, i) == paths[b].len());
        }
    }
}

/// Breadth-first order means the search dequeues blocks in order of recorded
/// path length: any move sequence through active states that is strictly
/// shorter than the dequeued block's recorded path ends at a block that has
/// already been processed, with a recorded path no longer than the sequence.
proof fn lemma_short_paths_are_processed<'a>(
    bd: Board,
    start: Block,
    paths: Map<Block, Seq<Direction>>,
    processed: Set<Block>,
    queue: Seq<Game<'a>>,
    cb: Block,
    alt: Seq<Direction>,
)
    requires
        paths.contains_key(start),
        paths[start].len() == 0,
        paths.contains_key(cb),
        forall|b: Block, d: Direction|
            processed.contains(b) && is_active_state(bd, b) ==> paths.contains_key(
                #[trigger] b.spec_make_move(d),
            ) && paths[b.spec_make_move(d)].len() <= paths[b].len() + 1,
        covered(paths, processed, queue, Set::empty().insert(cb)),
        forall|i: int|
            0 <= i < queue.len() ==> paths[cb].len() <= #[trigger] qlen(paths, queue, i),
        forall|i: int|
            0 <= i < alt.len() ==> is_active_state(bd, #[trigger] replay(start, alt.take(i))),
        alt.len() < paths[cb].len(),
    ensures
        paths.contains_key(replay(start, alt)),
        paths[replay(start, alt)].len() <= alt.len(),
        processed.contains(replay(start, alt)),
    decreases alt.len(),
{
    if alt.len() == 0 {
        assert(replay(start, alt) == start);
    } else {
        let prefix = alt.drop_last();
        assert forall|i: int| 0 <= i < prefix.len() implies is_active_state(
            bd,
            #[trigger] replay(start, prefix.take(i)),
        ) by {
            assert(prefix.take(i) =~= alt.take(i));
        }
        lemma_short_paths_are_processed(bd, start, paths, processed, queue, cb, prefix);
        let ep = replay(start, prefix);
        assert(alt.take(alt.len() - 1) =~= prefix);
        assert(is_active_state(bd, ep));
        assert(replay(start, alt) == ep.spec_make_move(alt.last()));
    }
    let z = replay(start, alt);
    assert(paths.contains_key(z) && paths[z].len() <= alt.len());
    // A block with a recorded path shorter than the dequeued block's cannot be
    // the dequeued block nor wait in the queue, so it has been processed.
    if !processed.contains(z) && z != cb {
        let i = choose|i: int| 0 <= i < queue.len() && (#[trigger] queue[i]).spec_block() == z;
        assert(qlen(paths, queue, i) == paths[z].len());
        assert(false);
    }
}

/// Reconstructs the moves needed to get to the state associated with the given block,
/// based on the map of visited states.
///
/// The ghost `paths` map gives, for every visited block, the move sequence the
/// search recorded for it; the predecessor records in `visited` spell out the
/// same sequences one step at a time.
fn trace_moves(
    visited: &HashMap<u128, Option<(Direction, Block)>>,
    final_block: Block,
    Ghost(start): Ghost<Block>,
    Ghost(paths): Ghost<Map<Block, Seq<Direction>>>,
) -> (r: Vec<Direction>)
    requires
        forall|b: Block| #[trigger] paths.contains_key(b) <==> visited@.contains_key(key_of(b)),
        forall|b: Block| #[trigger]
            paths.contains_key(b) ==> match visited@[key_of(b)] {
                None => b == start && paths[b] == Seq::<Direction>::empty(),
                Some((d, p)) => paths.contains_key(p) && paths[b] == paths[p].push(d),
            },
        paths.contains_key(final_block),
    ensures
        r@ == paths[final_block],
{
    let mut rev: Vec<Direction> = Vec::new();
    let mut curr = final_block;
    loop
        invariant_except_break
            forall|b: Block| #[trigger] paths.contains_key(b) <==> visited@.contains_key(
                key_of(b),
            ),
            forall|b: Block| #[trigger]
                paths.contains_key(b) ==> match visited@[key_of(b)] {
                    None => b == start && paths[b] == Seq::<Direction>::empty(),
                    Some((d, p)) => paths.contains_key(p) && paths[b] == paths[p].push(d),
                },
            paths.contains_key(curr),
            paths[final_block] == paths[curr] + rev@.reverse(),
        ensures
            paths[final_block] == rev@.reverse(),
        decreases paths[curr].len(),
    {
        let k = block_key(curr);
        match visited.get(&k) {
            Some(entry) => match *entry {
                Some((d, p)) => {
                    proof {
                        assert(paths[curr] == paths[p].push(d));
                        assert(paths[p].push(d) + rev@.reverse() =~= paths[p] + rev@.push(
                            d,
                        ).reverse());
                    }
                    rev.push(d);
                    curr = p;
                },
                None => {
                    proof {
                        assert(paths[curr] =~= Seq::<Direction>::empty());
                        assert(Seq::<Direction>::empty() + rev@.reverse() =~= rev@.reverse());
                    }
                    break ;
                },
            },
            None => {
                proof {
                    assert(visited@.contains_key(key_of(curr)));
                    assert(false);
                }
                break ;
            },
        }
    }
    let mut result: Vec<Direction> = Vec::new();
    let n = rev.len();
    let mut i: usize = n;
    while i > 0
        invariant
            i <= n,
            n == rev@.len(),
            result@.len() == n - i,
            forall|j: int| 0 <= j < result@.len() ==> result@[j] == rev@[n - 1 - j],
        decreases i,
    {
        i = i - 1;
        result.push(rev[i]);
    }
    proof {
        assert(result@ =~= rev@.reverse());
    }
    result
}

/// Any move sequence whose intermediate states are all active stays inside a
/// set of blocks that contains the start and is closed under moving from its
/// active members.
proof fn lemma_closed_set_captures_replay(
    board: Board,
    start: Block,
    s: Set<Block>,
    moves: Seq<Direction>,
)
    requires
        s.contains(start),
        forall|b: Block, d: Direction|
            s.contains(b) && is_active_state(board, b) ==> s.contains(
                #[trigger] b.spec_make_move(d),
            ),
        forall|i: int|
            0 <= i < moves.len() ==> is_active_state(board, #[trigger] replay(start, moves.take(i))),
    ensures
        s.contains(replay(start, moves)),
    decreases moves.len(),
{
    if moves.len() == 0 {
        assert(replay(start, moves) == start);
    } else {
        let prefix = moves.drop_last();
        assert forall|i: int| 0 <= i < prefix.len() implies is_active_state(
            board,
            #[trigger] replay(start, prefix.take(i)),
        ) by {
            assert(prefix.take(i) =~= moves.take(i));
        }
        lemma_closed_set_captures_replay(board, start, s, prefix);
        assert(moves.take(moves.len() - 1) =~= prefix);
        assert(is_active_state(board, replay(start, prefix)));
        assert(replay(start, moves) == replay(start, prefix).spec_make_move(moves.last()));
    }
}

/// Returns the shortest list of moves needed to win the given game,
/// or None if the game is unwinnable.
///
/// If there are multiple shortest solutions, one of them will be returned;
/// it's left unspecified which specific solution is returned.
#[verifier::rlimit(100)]
pub fn solve(game: Game) -> (r: Option<Vec<Direction>>)
    requires
        game.spec_board().wf(),
        game.spec_block().footprint_fits(),
        game.spec_board().0.spec_width() <= i32::MAX - 2,
        game.spec_board().0.spec_height() <= i32::MAX - 2,
    ensures
        match r {
            Some(moves) => is_winning_path(game.spec_board(), game.spec_block(), moves@)
                && forall|alt: Seq<Direction>| #[trigger]
                is_winning_path(game.spec_board(), game.spec_block(), alt) ==> moves@.len()
                    <= alt.len(),
            None => forall|moves: Seq<Direction>|
                !is_winning_path(game.spec_board(), game.spec_block(), moves),
        },
{
    let ghost bd = game.spec_board();
    let ghost start = game.spec_block();
    let mut queue: VecDeque<Game> = VecDeque::new();
    queue.push_back(game);
    // Map from the key of a block representing a state
    // to a (move from previous state to current state, block for previous state) tuple
    // (or None if there is no previous state)
    // so that the solution can be reconstructed once a win is reached.
    let mut visited: HashMap<u128, Option<(Direction, Block)>> = HashMap::new();
    let k0 = block_key(game.block());
    visited.insert(k0, None);
    let mut paths_g: Ghost<Map<Block, Seq<Direction>>> = Ghost(
        Map::empty().insert(start, Seq::empty()),
    );
    let mut keys_g: Ghost<Set<int>> = Ghost(Set::empty().insert(spec_block_key(start)));
    let ghost mut processed: Set<Block> = Set::empty();
    proof {
        lemma_block_key_range(start);
        assert(visited@ =~= Map::<u128, Option<(Direction, Block)>>::empty().insert(
            key_of(start),
            None,
        ));
        assert(visited@.dom() =~= Set::<u128>::empty().insert(key_of(start)));
        assert forall|b: Block| #[trigger]
            paths_g@.contains_key(b) <==> visited@.contains_key(key_of(b)) by {
            if b != start {
                lemma_keys_distinct(b, start);
            }
        }
        assert forall|b: Block| #[trigger]
            visited@.contains_key(key_of(b)) <==> keys_g@.contains(spec_block_key(b)) by {
            if b != start {
                lemma_keys_distinct(b, start);
            }
        }
        assert(replay(start, Seq::empty()) == start);
        assert(queue@[0] == game && queue@[0].spec_block() == start);
        assert(search_inv(game, queue@, visited@, paths_g@, processed, keys_g@));
    }
    loop
        invariant_except_break
            search_inv(game, queue@, visited@, paths_g@, processed, keys_g@),
            covered(paths_g@, processed, queue@, Set::empty()),
            lengths_ordered(paths_g@, processed, queue@),
            bd == game.spec_board(),
            start == game.spec_block(),
        ensures
            processed.contains(start),
            forall|b: Block| #[trigger] processed.contains(b) ==> !is_win_state(bd, b),
            forall|b: Block, d: Direction|
                processed.contains(b) && is_active_state(bd, b) ==> processed.contains(
                    #[trigger] b.spec_make_move(d),
                ),
        decreases 2 * (0x4_0000_0000_0000_0000 - visited@.dom().len()) + queue@.len(),
    {
        let ghost old_q = queue@;
        let ghost old_visited_len = visited@.dom().len();
        let popped = queue.pop_front();
        if popped.is_none() {
            proof {
                assert forall|b: Block| #[trigger] paths_g@.contains_key(b) implies processed
                    .contains(b) by {}
                assert forall|b: Block, d: Direction|
                    processed.contains(b) && is_active_state(bd, b) implies processed.contains(
                    #[trigger] b.spec_make_move(d),
                ) by {}
            }
            break ;
        }
        let curr = popped.unwrap();
        let ghost cb = curr.spec_block();
        proof {
            // The dequeued block's footprint is representable: the start's is by
            // the precondition, and every other recorded block sits near the board.
            if cb != start {
                assert(near_board(bd, cb));
            }
            assert(cb.footprint_fits());
            lemma_covered_after_pop(paths_g@, processed, old_q, queue@, cb);
            lemma_lengths_after_pop(paths_g@, processed, old_q, queue@, cb);
            lemma_discovered_within_one(paths_g@, processed, queue@, cb);
        }
        match curr.status() {
            Status::Win => {
                let moves = trace_moves(&visited, curr.block(), Ghost(start), Ghost(paths_g@));
                proof {
                    assert(path_leads_to(bd, start, paths_g@[cb], cb));
                    assert(is_winning_path(bd, start, moves@));
                    // No strictly shorter winning path exists: its end state
                    // would already have been dequeued and seen not to win.
                    assert forall|alt: Seq<Direction>| #[trigger]
                        is_winning_path(bd, start, alt) implies moves@.len() <= alt.len() by {
                        if alt.len() < paths_g@[cb].len() {
                            lemma_short_paths_are_processed(
                                bd,
                                start,
                                paths_g@,
                                processed,
                                queue@,
                                cb,
                                alt,
                            );
                            assert(!is_win_state(bd, replay(start, alt)));
                        }
                    }
                }
                return Some(moves);
            },
            Status::Loss => {
                proof {
                    lemma_inv_after_process(game, queue@, visited@, paths_g@, processed, keys_g@, cb);
                    lemma_covered_after_process(paths_g@, processed, queue@, cb);
                    lemma_lengths_add_processed(paths_g@, processed, queue@, cb);
                    processed = processed.insert(cb);
                }
            },
            Status::Active(active_curr) => {
                expand_all(
                    &mut queue,
                    &mut visited,
                    &mut paths_g,
                    &mut keys_g,
                    game,
                    active_curr,
                    Ghost(processed),
                );
                proof {
                    lemma_inv_after_process(game, queue@, visited@, paths_g@, processed, keys_g@, cb);
                    lemma_covered_after_process(paths_g@, processed, queue@, cb);
                    lemma_lengths_add_processed(paths_g@, processed, queue@, cb);
                    processed = processed.insert(cb);
                }
            },
        }
    }
    proof {
        assert forall|moves: Seq<Direction>| !is_winning_path(bd, start, moves) by {
            if is_winning_path(bd, start, moves) {
                lemma_closed_set_captures_replay(bd, start, processed, moves);
                assert(!is_win_state(bd, replay(start, moves)));
            }
        }
    }
    None
}

} // verus!
