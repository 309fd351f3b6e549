//! Selective acknowledgements (RFC 2018).
use crate::storage::assembler;
use crate::storage::Assembler;
use crate::wire::TcpSeqNumber;
use vstd::prelude::*;

verus! {

/// The number of blocks that an acknowledgement can carry.
pub const SACK_BLOCKS: usize = 3;

/// A run of sequence numbers, from the first up to the second.
pub type Block = (TcpSeqNumber, TcpSeqNumber);

/// The runs of sequence numbers that have arrived behind a hole, when `ack` is
/// the first one missing.
pub open spec fn islands(ranges: Seq<(usize, usize)>, ack: TcpSeqNumber) -> Seq<Block> {
    Seq::new(
        ranges.len(),
        |i: int| (ack.plus(ranges[i].0 as int), ack.plus(ranges[i].1 as int)),
    )
}

/// `seq` lies in the block.
pub open spec fn holds(block: Block, seq: TcpSeqNumber) -> bool {
    block.0.diff(seq) <= 0 && seq.diff(block.1) < 0
}

/// The island that `seq` lies in, if any.
pub open spec fn find_island(islands: Seq<Block>, seq: TcpSeqNumber) -> Option<Block>
    decreases islands.len(),
{
    if islands.len() == 0 {
        None
    } else if holds(islands[0], seq) {
        Some(islands[0])
    } else {
        find_island(islands.skip(1), seq)
    }
}

/// `blocks` with one more, unless it is there already or there is no room.
pub open spec fn with_block(blocks: Seq<Block>, block: Block) -> Seq<Block> {
    if blocks.len() < SACK_BLOCKS && !blocks.contains(block) {
        blocks.push(block)
    } else {
        blocks
    }
}

/// `blocks` followed by what the blocks reported before have become.
pub open spec fn with_history(
    blocks: Seq<Block>,
    islands: Seq<Block>,
    history: Seq<Option<Block>>,
) -> Seq<Block>
    decreases history.len(),
{
    if history.len() == 0 {
        blocks
    } else {
        let next = match history[0] {
            Some(old) => match find_island(islands, old.0) {
                Some(island) => with_block(blocks, island),
                None => blocks,
            },
            None => blocks,
        };
        with_history(next, islands, history.skip(1))
    }
}

/// `blocks` followed by the islands, lowest first.
pub open spec fn with_islands(blocks: Seq<Block>, islands: Seq<Block>) -> Seq<Block>
    decreases islands.len(),
{
    if islands.len() == 0 {
        blocks
    } else {
        with_islands(with_block(blocks, islands[0]), islands.skip(1))
    }
}

/// The blocks to report: first the island of the segment that arrived last, then
/// what the blocks reported before have become, then the remaining islands.
pub open spec fn sack_blocks(
    ranges: Seq<(usize, usize)>,
    ack: TcpSeqNumber,
    last_seq: Option<TcpSeqNumber>,
    history: Seq<Option<Block>>,
) -> Seq<Block> {
    let islands = islands(ranges, ack);
    let first = match last_seq {
        Some(seq) => match find_island(islands, seq) {
            Some(island) => seq![island],
            None => Seq::empty(),
        },
        None => Seq::empty(),
    };
    with_islands(with_history(first, islands, history), islands)
}

/// At most three blocks, with the places left over empty.
pub open spec fn as_history(blocks: Seq<Block>) -> Seq<Option<Block>> {
    Seq::new(
        3,
        |i: int|
            if i < blocks.len() {
                Some(blocks[i])
            } else {
                None
            },
    )
}

/// The same as numbers in a header.
pub open spec fn on_wire(blocks: Seq<Block>) -> Seq<Option<(u32, u32)>> {
    Seq::new(
        3,
        |i: int|
            if i < blocks.len() {
                Some((blocks[i].0.0 as u32, blocks[i].1.0 as u32))
            } else {
                None
            },
    )
}

/// The ranges end within what sequence numbers can tell apart.
pub open spec fn in_reach(ranges: Seq<(usize, usize)>) -> bool {
    forall|i: int| 0 <= i < ranges.len() ==> (#[trigger] ranges[i]).0 < ranges[i].1 <= i32::MAX
}

/// `blocks` are different islands, no more than there is room for.
pub open spec fn proper(blocks: Seq<Block>, islands: Seq<Block>) -> bool {
    &&& blocks.len() <= SACK_BLOCKS
    &&& blocks.no_duplicates()
    &&& forall|i: int| 0 <= i < blocks.len() ==> islands.contains(#[trigger] blocks[i])
}

proof fn lemma_find_island(islands: Seq<Block>, seq: TcpSeqNumber)
    ensures
        find_island(islands, seq) matches Some(b) ==> islands.contains(b),
    decreases islands.len(),
{
    if islands.len() > 0 && !holds(islands[0], seq) {
        lemma_find_island(islands.skip(1), seq);
        if let Some(b) = find_island(islands.skip(1), seq) {
            let i = choose|i: int| 0 <= i < islands.skip(1).len() && islands.skip(1)[i] == b;
            assert(islands[i + 1] == b);
        }
    } else if islands.len() > 0 {
        assert(islands.contains(islands[0]));
    }
}

proof fn lemma_with_block(blocks: Seq<Block>, islands: Seq<Block>, b: Block)
    requires
        proper(blocks, islands),
        islands.contains(b),
    ensures
        proper(with_block(blocks, b), islands),
        with_block(blocks, b).len() >= blocks.len(),
        with_block(blocks, b).len() == SACK_BLOCKS || with_block(blocks, b).contains(b),
        forall|x: Block| blocks.contains(x) ==> #[trigger] with_block(blocks, b).contains(x),
{
    let r = with_block(blocks, b);
    if blocks.len() < SACK_BLOCKS && !blocks.contains(b) {
        assert(r[r.len() - 1] == b);
        assert forall|x: Block| blocks.contains(x) implies #[trigger] r.contains(x) by {
            let i = choose|i: int| 0 <= i < blocks.len() && blocks[i] == x;
            assert(r[i] == x);
        }
        assert forall|i: int| 0 <= i < r.len() implies islands.contains(#[trigger] r[i]) by {
            if i < blocks.len() {
                assert(r[i] == blocks[i]);
            }
        }
        assert forall|i: int, j: int| 0 <= i < r.len() && 0 <= j < r.len() && i != j implies r[i]
            != r[j] by {
            if i < blocks.len() && j < blocks.len() {
            } else if i < blocks.len() {
                assert(blocks.contains(blocks[i]));
            } else {
                assert(blocks.contains(blocks[j]));
            }
        }
    }
}

proof fn lemma_with_history(blocks: Seq<Block>, islands: Seq<Block>, history: Seq<Option<Block>>)
    requires
        proper(blocks, islands),
    ensures
        proper(with_history(blocks, islands, history), islands),
    decreases history.len(),
{
    if history.len() > 0 {
        let next = match history[0] {
            Some(old) => match find_island(islands, old.0) {
                Some(island) => with_block(blocks, island),
                None => blocks,
            },
            None => blocks,
        };
        if let Some(old) = history[0] {
            lemma_find_island(islands, old.0);
            if let Some(island) = find_island(islands, old.0) {
                lemma_with_block(blocks, islands, island);
            }
        }
        lemma_with_history(next, islands, history.skip(1));
    }
}

proof fn lemma_with_islands(blocks: Seq<Block>, islands: Seq<Block>, rest: Seq<Block>)
    requires
        proper(blocks, islands),
        forall|i: int| 0 <= i < rest.len() ==> islands.contains(#[trigger] rest[i]),
    ensures
        proper(with_islands(blocks, rest), islands),
        forall|x: Block|
            blocks.contains(x) ==> #[trigger] with_islands(blocks, rest).contains(x),
        with_islands(blocks, rest).len() == SACK_BLOCKS || forall|i: int|
            0 <= i < rest.len() ==> with_islands(blocks, rest).contains(#[trigger] rest[i]),
        with_islands(blocks, rest).len() >= blocks.len(),
    decreases rest.len(),
{
    if rest.len() > 0 {
        let next = with_block(blocks, rest[0]);
        lemma_with_block(blocks, islands, rest[0]);
        let tail = rest.skip(1);
        assert forall|i: int| 0 <= i < tail.len() implies islands.contains(#[trigger] tail[i]) by {
            assert(tail[i] == rest[i + 1]);
        }
        lemma_with_islands(next, islands, tail);
        let r = with_islands(next, tail);
        if r.len() < SACK_BLOCKS {
            assert forall|i: int| 0 <= i < rest.len() implies r.contains(#[trigger] rest[i]) by {
                if i > 0 {
                    assert(rest[i] == tail[i - 1]);
                }
            }
        }
    }
}

/// As many blocks are reported as there are islands, three at most; they are all
/// different, and each of them is an island.
pub proof fn law_sack_block_count(
    ranges: Seq<(usize, usize)>,
    ack: TcpSeqNumber,
    last_seq: Option<TcpSeqNumber>,
    history: Seq<Option<Block>>,
)
    requires
        assembler::ordered(ranges),
        in_reach(ranges),
    ensures
        sack_blocks(ranges, ack, last_seq, history).len() == if ranges.len() < SACK_BLOCKS {
            ranges.len()
        } else {
            SACK_BLOCKS as nat
        },
        proper(sack_blocks(ranges, ack, last_seq, history), islands(ranges, ack)),
{
    let isl = islands(ranges, ack);
    let first = match last_seq {
        Some(seq) => match find_island(isl, seq) {
            Some(island) => seq![island],
            None => Seq::empty(),
        },
        None => Seq::empty(),
    };
    if let Some(seq) = last_seq {
        lemma_find_island(isl, seq);
    }
    assert(proper(first, isl));
    let second = with_history(first, isl, history);
    lemma_with_history(first, isl, history);
    assert forall|i: int| 0 <= i < isl.len() implies isl.contains(#[trigger] isl[i]) by {}
    lemma_with_islands(second, isl, isl);
    let blocks = with_islands(second, isl);
    assert(isl.no_duplicates()) by {
        assert forall|i: int, j: int| 0 <= i < isl.len() && 0 <= j < isl.len() && i != j implies
            isl[i] != isl[j] by {
            if i < j {
                assert(ranges[i].1 < ranges[j].0);
            } else {
                assert(ranges[j].1 < ranges[i].0);
            }
            assert(ranges[i].0 < ranges[i].1 <= i32::MAX);
            assert(ranges[j].0 < ranges[j].1 <= i32::MAX);
            assert(isl[i].0 == ack.plus(ranges[i].0 as int));
            assert(isl[j].0 == ack.plus(ranges[j].0 as int));
            assert(isl[i].0.diff(ack) == ranges[i].0);
            assert(isl[j].0.diff(ack) == ranges[j].0);
        }
    }
    blocks.unique_seq_to_set();
    isl.unique_seq_to_set();
    assert(blocks.to_set().subset_of(isl.to_set())) by {
        assert forall|x: Block| blocks.to_set().contains(x) implies isl.to_set().contains(x) by {
            assert(blocks.contains(x));
            let i = choose|i: int| 0 <= i < blocks.len() && blocks[i] == x;
            assert(isl.contains(blocks[i]));
        }
    }
    vstd::set_lib::lemma_len_subset(blocks.to_set(), isl.to_set());
    if blocks.len() < SACK_BLOCKS {
        assert(isl.to_set().subset_of(blocks.to_set())) by {
            assert forall|x: Block| isl.to_set().contains(x) implies blocks.to_set().contains(
                x,
            ) by {
                assert(isl.contains(x));
                let i = choose|i: int| 0 <= i < isl.len() && isl[i] == x;
                assert(blocks.contains(isl[i]));
            }
        }
        vstd::set_lib::lemma_len_subset(isl.to_set(), blocks.to_set());
    }
}

fn find_in(held: &Assembler, ack: TcpSeqNumber, seq: TcpSeqNumber) -> (r: Option<Block>)
    requires
        in_reach(held@),
    ensures
        r == find_island(islands(held@, ack), seq),
{
    let n: usize = held.count();
    let ghost isl = islands(held@, ack);
    let mut i: usize = 0;
    assert(isl.skip(0) =~= isl);
    while i < n
        invariant
            i <= n == held@.len(),
            in_reach(held@),
            isl == islands(held@, ack),
            find_island(isl, seq) == find_island(isl.skip(i as int), seq),
        decreases n - i,
    {
        let (l, h) = held.range(i);
        let block: Block = (ack + l, ack + h);
        assert(isl.skip(i as int)[0] == block);
        assert(isl.skip(i as int).skip(1) =~= isl.skip(i + 1));
        if block.0 <= seq && seq < block.1 {
            return Some(block);
        }
        i = i + 1;
    }
    None
}

fn add_block(blocks: &mut Vec<Block>, block: Block)
    ensures
        final(blocks)@ == with_block(old(blocks)@, block),
{
    if blocks.len() >= SACK_BLOCKS {
        return ;
    }
    let mut i: usize = 0;
    while i < blocks.len()
        invariant
            i <= blocks@.len(),
            blocks@ == old(blocks)@,
            forall|k: int| 0 <= k < i ==> blocks@[k] != block,
        decreases blocks@.len() - i,
    {
        if blocks[i].0 == block.0 && blocks[i].1 == block.1 {
            assert(blocks@[i as int] == block);
            return ;
        }
        i = i + 1;
    }
    blocks.push(block);
}

/// The blocks to report in an acknowledgement of everything up to `ack`.
pub fn blocks_to_report(
    held: &Assembler,
    ack: TcpSeqNumber,
    last_seq: Option<TcpSeqNumber>,
    history: &[Option<Block>; 3],
) -> (r: Vec<Block>)
    requires
        in_reach(held@),
        assembler::ordered(held@),
    ensures
        r@ == sack_blocks(held@, ack, last_seq, history@),
        r@.len() <= SACK_BLOCKS,
{
    let ghost isl = islands(held@, ack);
    proof {
        law_sack_block_count(held@, ack, last_seq, history@);
    }
    let mut blocks: Vec<Block> = Vec::new();
    if let Some(seq) = last_seq {
        if let Some(block) = find_in(held, ack, seq) {
            blocks.push(block);
        }
    }
    let ghost first = blocks@;
    assert(first =~= match last_seq {
        Some(seq) => match find_island(isl, seq) {
            Some(island) => seq![island],
            None => Seq::empty(),
        },
        None => Seq::empty(),
    });
    let mut i: usize = 0;
    assert(history@.skip(0) =~= history@);
    while i < 3
        invariant
            i <= 3,
            in_reach(held@),
            isl == islands(held@, ack),
            with_history(first, isl, history@) == with_history(
                blocks@,
                isl,
                history@.skip(i as int),
            ),
        decreases 3 - i,
    {
        assert(history@.skip(i as int)[0] == history@[i as int]);
        assert(history@.skip(i as int).skip(1) =~= history@.skip(i + 1));
        if let Some(old_block) = history[i] {
            if let Some(island) = find_in(held, ack, old_block.0) {
                add_block(&mut blocks, island);
            }
        }
        i = i + 1;
    }
    assert(history@.skip(3) =~= Seq::<Option<Block>>::empty());
    let ghost second = blocks@;
    let n: usize = held.count();
    let mut j: usize = 0;
    assert(isl.skip(0) =~= isl);
    while j < n
        invariant
            j <= n == held@.len(),
            in_reach(held@),
            isl == islands(held@, ack),
            with_islands(second, isl) == with_islands(blocks@, isl.skip(j as int)),
        decreases n - j,
    {
        let (l, h) = held.range(j);
        assert(isl.skip(j as int).skip(1) =~= isl.skip(j + 1));
        add_block(&mut blocks, (ack + l, ack + h));
        j = j + 1;
    }
    assert(isl.skip(n as int) =~= Seq::<Block>::empty());
    blocks
}

/// The blocks as they are remembered, and as they go into a header.
pub fn to_arrays(blocks: &Vec<Block>) -> (r: ([Option<Block>; 3], [Option<(u32, u32)>; 3]))
    ensures
        r.0@ == as_history(blocks@),
        r.1@ == on_wire(blocks@),
{
    let mut history: [Option<Block>; 3] = [None, None, None];
    let mut wire: [Option<(u32, u32)>; 3] = [None, None, None];
    let mut i: usize = 0;
    while i < 3 && i < blocks.len()
        invariant
            i <= 3,
            i <= blocks@.len(),
            history@.len() == 3,
            wire@.len() == 3,
            forall|k: int| 0 <= k < i ==> #[trigger] history@[k] == as_history(blocks@)[k],
            forall|k: int| 0 <= k < i ==> #[trigger] wire@[k] == on_wire(blocks@)[k],
            forall|k: int| i <= k < 3 ==> #[trigger] history@[k] is None,
            forall|k: int| i <= k < 3 ==> #[trigger] wire@[k] is None,
        decreases 3 - i,
    {
        let (l, h) = blocks[i];
        history[i] = Some((l, h));
        wire[i] = Some((#[verifier::truncate] (l.0 as u32), #[verifier::truncate] (h.0 as u32)));
        i = i + 1;
    }
    assert(history@ =~= as_history(blocks@));
    assert(wire@ =~= on_wire(blocks@));
    (history, wire)
}

proof fn lemma_block_keeps_front(blocks: Seq<Block>, b: Block)
    ensures
        with_block(blocks, b).len() >= blocks.len(),
        with_block(blocks, b).take(blocks.len() as int) == blocks,
{
    assert(with_block(blocks, b).take(blocks.len() as int) =~= blocks);
}

proof fn lemma_history_keeps_front(
    blocks: Seq<Block>,
    islands: Seq<Block>,
    history: Seq<Option<Block>>,
)
    ensures
        with_history(blocks, islands, history).len() >= blocks.len(),
        with_history(blocks, islands, history).take(blocks.len() as int) == blocks,
    decreases history.len(),
{
    if history.len() == 0 {
        assert(blocks.take(blocks.len() as int) =~= blocks);
    } else {
        let next = match history[0] {
            Some(old) => match find_island(islands, old.0) {
                Some(island) => with_block(blocks, island),
                None => blocks,
            },
            None => blocks,
        };
        if let Some(old) = history[0] {
            if let Some(island) = find_island(islands, old.0) {
                lemma_block_keeps_front(blocks, island);
            }
        }
        assert(next.take(blocks.len() as int) =~= blocks);
        lemma_history_keeps_front(next, islands, history.skip(1));
        let r = with_history(next, islands, history.skip(1));
        assert(r.take(blocks.len() as int) =~= r.take(next.len() as int).take(
            blocks.len() as int,
        ));
    }
}

proof fn lemma_islands_keep_front(blocks: Seq<Block>, islands: Seq<Block>)
    ensures
        with_islands(blocks, islands).len() >= blocks.len(),
        with_islands(blocks, islands).take(blocks.len() as int) == blocks,
    decreases islands.len(),
{
    if islands.len() == 0 {
        assert(blocks.take(blocks.len() as int) =~= blocks);
    } else {
        let next = with_block(blocks, islands[0]);
        lemma_block_keeps_front(blocks, islands[0]);
        lemma_islands_keep_front(next, islands.skip(1));
        let r = with_islands(next, islands.skip(1));
        assert(r.take(blocks.len() as int) =~= r.take(next.len() as int).take(
            blocks.len() as int,
        ));
    }
}

proof fn lemma_found_first(islands: Seq<Block>, seq: TcpSeqNumber, i: int)
    requires
        0 <= i < islands.len(),
        holds(islands[i], seq),
        forall|j: int| 0 <= j < i ==> !holds(#[trigger] islands[j], seq),
    ensures
        find_island(islands, seq) == Some(islands[i]),
    decreases i,
{
    if i > 0 {
        assert(!holds(islands[0], seq));
        let rest = islands.skip(1);
        assert(rest[i - 1] == islands[i]);
        assert forall|j: int| 0 <= j < i - 1 implies !holds(#[trigger] rest[j], seq) by {
            assert(rest[j] == islands[j + 1]);
        }
        lemma_found_first(rest, seq, i - 1);
    }
}

/// The first block of a selective acknowledgement is the run that the segment that arrived
/// last is part of, with its first sequence number and the one behind its last (RFC 2018).
pub proof fn law_newest_block_comes_first(
    ranges: Seq<(usize, usize)>,
    ack: TcpSeqNumber,
    history: Seq<Option<Block>>,
    i: int,
    offset: int,
)
    requires
        assembler::ordered(ranges),
        in_reach(ranges),
        0 <= i < ranges.len(),
        ranges[i].0 <= offset < ranges[i].1,
    ensures
        ({
            let blocks = sack_blocks(ranges, ack, Some(ack.plus(offset)), history);
            &&& blocks.len() > 0
            &&& blocks[0].0 == ack.plus(ranges[i].0 as int)
            &&& blocks[0].1 == ack.plus(ranges[i].1 as int)
        }),
{
    let all = islands(ranges, ack);
    let seq = ack.plus(offset);
    assert(ranges[i].0 < ranges[i].1 <= i32::MAX);
    assert(holds(all[i], seq));
    assert forall|j: int| 0 <= j < i implies !holds(#[trigger] all[j], seq) by {
        assert(ranges[j].1 < ranges[i].0);
        assert(ranges[j].0 < ranges[j].1 <= i32::MAX);
    }
    lemma_found_first(all, seq, i);
    let first = seq![all[i]];
    let second = with_history(first, all, history);
    lemma_history_keeps_front(first, all, history);
    lemma_islands_keep_front(second, all);
    let blocks = with_islands(second, all);
    assert(second[0] == second.take(1)[0]);
    assert(blocks[0] == blocks.take(second.len() as int)[0]);
}

/// Every block that is reported is a run that is held, from its first sequence number to
/// the one behind its last, and goes into the header as these numbers.
pub proof fn law_blocks_are_what_is_held(
    ranges: Seq<(usize, usize)>,
    ack: TcpSeqNumber,
    last_seq: Option<TcpSeqNumber>,
    history: Seq<Option<Block>>,
    k: int,
)
    requires
        assembler::ordered(ranges),
        in_reach(ranges),
        0 <= k < sack_blocks(ranges, ack, last_seq, history).len(),
    ensures
        ({
            let blocks = sack_blocks(ranges, ack, last_seq, history);
            let wire = on_wire(blocks)[k];
            &&& blocks.len() <= 3
            &&& exists|i: int|
                0 <= i < ranges.len() && blocks[k].0 == ack.plus(
                    (#[trigger] ranges[i]).0 as int,
                ) && blocks[k].1 == ack.plus(ranges[i].1 as int)
            &&& wire matches Some((left, right)) && (left - blocks[k].0.0) % 0x1_0000_0000 == 0 && (
            right - blocks[k].1.0) % 0x1_0000_0000 == 0
        }),
{
    let blocks = sack_blocks(ranges, ack, last_seq, history);
    law_sack_block_count(ranges, ack, last_seq, history);
    let all = islands(ranges, ack);
    assert(all.contains(blocks[k]));
    let i = choose|i: int| 0 <= i < all.len() && all[i] == blocks[k];
    assert(ranges[i].0 < ranges[i].1);
    let a = blocks[k].0.0;
    let b = blocks[k].1.0;
    assert(a >= 0 ==> (a as u32) == a) by (bit_vector);
    assert(a < 0 ==> (a as u32) == a + 0x1_0000_0000) by (bit_vector);
    assert(b >= 0 ==> (b as u32) == b) by (bit_vector);
    assert(b < 0 ==> (b as u32) == b + 0x1_0000_0000) by (bit_vector);
}

/// The next block is what the first block that was reported before has become, unless that
/// is the same.
pub proof fn law_reported_block_is_repeated(
    ranges: Seq<(usize, usize)>,
    ack: TcpSeqNumber,
    history: Seq<Option<Block>>,
    i: int,
    offset: int,
    j: int,
    old_offset: int,
)
    requires
        assembler::ordered(ranges),
        in_reach(ranges),
        0 <= i < ranges.len(),
        ranges[i].0 <= offset < ranges[i].1,
        0 <= j < ranges.len(),
        ranges[j].0 <= old_offset < ranges[j].1,
        i != j,
        history.len() > 0,
        history[0] matches Some(old) && old.0 == ack.plus(old_offset),
    ensures
        ({
            let blocks = sack_blocks(ranges, ack, Some(ack.plus(offset)), history);
            &&& blocks.len() > 1
            &&& blocks[1].0 == ack.plus(ranges[j].0 as int)
            &&& blocks[1].1 == ack.plus(ranges[j].1 as int)
        }),
{
    let all = islands(ranges, ack);
    let seq = ack.plus(offset);
    let old = history[0]->0;
    assert(ranges[i].0 < ranges[i].1 <= i32::MAX);
    assert(ranges[j].0 < ranges[j].1 <= i32::MAX);
    assert(holds(all[i], seq));
    assert(holds(all[j], old.0));
    assert forall|m: int| 0 <= m < i implies !holds(#[trigger] all[m], seq) by {
        assert(ranges[m].1 < ranges[i].0);
        assert(ranges[m].0 < ranges[m].1 <= i32::MAX);
    }
    assert forall|m: int| 0 <= m < j implies !holds(#[trigger] all[m], old.0) by {
        assert(ranges[m].1 < ranges[j].0);
        assert(ranges[m].0 < ranges[m].1 <= i32::MAX);
    }
    lemma_found_first(all, seq, i);
    lemma_found_first(all, old.0, j);
    if i < j {
        assert(ranges[i].1 < ranges[j].0);
    } else {
        assert(ranges[j].1 < ranges[i].0);
    }
    assert(all[i] != all[j]);
    let first = seq![all[i]];
    let next = first.push(all[j]);
    assert(!first.contains(all[j]));
    assert(with_block(first, all[j]) == next);
    let second = with_history(next, all, history.skip(1));
    assert(with_history(first, all, history) == second);
    lemma_history_keeps_front(next, all, history.skip(1));
    lemma_islands_keep_front(second, all);
    let blocks = with_islands(second, all);
    assert(second[1] == second.take(2)[1]);
    assert(blocks[1] == blocks.take(second.len() as int)[1]);
}

} // verus!
