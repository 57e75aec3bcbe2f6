//! How much memory the graphics device needs, what lies where in it, and how the work on it is
//! cut into groups.
use vstd::prelude::*;

verus! {

/// The number of buckets that the players are hashed into.
pub const HASH_SIZE: usize = 1_000_003;

/// The size of a bucket: two words.
pub const BUCKET_BYTES: usize = 8;

/// The size of a player's record, and of an input's.
pub const RECORD_BYTES: usize = 16;

/// The size of an output record: a count and the head of a chain.
pub const OUTPUT_BYTES: usize = 8;

/// The size of a neighbour record: a player and the next record.
pub const NEIGHBOR_BYTES: usize = 8;

/// The number of neighbour records that all players share.
pub const MAX_NEIGHBOR_NODES: usize = 10_000_000;

/// The number of players that a server starts with.
pub const START_PLAYER_COUNT: u64 = 1_000_000;

/// The number of invocations in one group.
pub const WORKGROUP_SIZE: u32 = 256;

/// The sizes of the device's buffers, in bytes.
#[derive(Clone, Copy, PartialEq, Eq, Structural, Debug)]
pub struct BufferPlan {
    /// The buckets, and behind them the players.
    pub spatial_size: u64,
    /// Where the players begin behind the buckets.
    pub player_offset: u64,
    /// The players alone.
    pub players_size: u64,
    pub inputs_size: u64,
    pub outputs_size: u64,
    pub neighbors_size: u64,
    /// The one counter from which neighbour records are given out.
    pub allocator_size: u64,
}

/// The plan for a number of players.
pub open spec fn planned(p_count: int) -> BufferPlan {
    BufferPlan {
        spatial_size: (HASH_SIZE * BUCKET_BYTES + p_count * RECORD_BYTES) as u64,
        player_offset: (HASH_SIZE * BUCKET_BYTES) as u64,
        players_size: (p_count * RECORD_BYTES) as u64,
        inputs_size: (p_count * RECORD_BYTES) as u64,
        outputs_size: (p_count * OUTPUT_BYTES) as u64,
        neighbors_size: (MAX_NEIGHBOR_NODES * NEIGHBOR_BYTES) as u64,
        allocator_size: 4,
    }
}

/// Plans the buffers for a number of players. There is no plan where the buffer of buckets and
/// players is larger than the device binds.
pub fn plan_buffers(p_count: usize, max_binding: u64) -> (plan: Option<BufferPlan>)
    requires
        HASH_SIZE * BUCKET_BYTES + p_count * RECORD_BYTES <= usize::MAX,
    ensures
        plan == (if HASH_SIZE * BUCKET_BYTES + p_count * RECORD_BYTES > max_binding {
            None
        } else {
            Some(planned(p_count as int))
        }),
{
    let players_size: usize = p_count * RECORD_BYTES;
    let player_offset: usize = HASH_SIZE * BUCKET_BYTES;
    let spatial_size: usize = player_offset + players_size;
    if spatial_size as u64 > max_binding {
        return None;
    }
    Some(
        BufferPlan {
            spatial_size: spatial_size as u64,
            player_offset: player_offset as u64,
            players_size: players_size as u64,
            inputs_size: players_size as u64,
            outputs_size: (p_count * OUTPUT_BYTES) as u64,
            neighbors_size: (MAX_NEIGHBOR_NODES * NEIGHBOR_BYTES) as u64,
            allocator_size: 4,
        },
    )
}

/// The word of the buffer of buckets and players at which bucket `h` begins. Its second word is the
/// head of the bucket's chain.
pub open spec fn bucket_word(h: int) -> int {
    2 * h
}

/// The word of the buffer of buckets and players at which the record of player `i` begins.
pub open spec fn player_word_at(i: int) -> int {
    2 * HASH_SIZE + 4 * i
}

/// The buckets and the records of the players lie side by side in their buffer: the records begin
/// where the plan says, and the last of them ends where the buffer does.
pub proof fn law_layout(p_count: int, h: int, i: int)
    requires
        0 <= h < HASH_SIZE,
        0 <= i < p_count,
        HASH_SIZE * BUCKET_BYTES + p_count * RECORD_BYTES <= u64::MAX,
    ensures
        4 * (bucket_word(h) + 2) <= planned(p_count).player_offset,
        4 * player_word_at(i) == planned(p_count).player_offset + RECORD_BYTES * i,
        4 * (player_word_at(i) + 4) <= planned(p_count).spatial_size,
        4 * (player_word_at(p_count - 1) + 4) == planned(p_count).spatial_size,
        planned(p_count).spatial_size == planned(p_count).player_offset + planned(
            p_count,
        ).players_size,
{
}

/// Every bucket has two words, every player a record of four and an input of four, every output two
/// and every neighbour record two; there are ten million of the last. A word takes four bytes.
pub proof fn law_sizes(p_count: int)
    requires
        0 <= p_count,
        8 * 1_000_003 + 16 * p_count <= u64::MAX,
    ensures
        planned(p_count).player_offset == 8_000_024,
        planned(p_count).spatial_size - planned(p_count).player_offset == 16 * p_count,
        planned(p_count).players_size == 16 * p_count,
        planned(p_count).inputs_size == 16 * p_count,
        planned(p_count).outputs_size == 8 * p_count,
        planned(p_count).neighbors_size == 80_000_000,
        planned(p_count).allocator_size == 4,
{
}

/// The number of groups that a number of invocations takes.
pub open spec fn groups(count: int) -> int {
    (count + WORKGROUP_SIZE - 1) / WORKGROUP_SIZE as int
}

/// The number of groups that a number of invocations takes. A count above the range of the device
/// is cut to its lower 32 bits.
pub fn workgroups(count: usize) -> (n: u32)
    requires
        count as u32 + WORKGROUP_SIZE - 1 <= u32::MAX,
    ensures
        n == groups((count as u32) as int),
{
    (count as u32 + (WORKGROUP_SIZE - 1)) / WORKGROUP_SIZE
}

/// The groups cover every invocation, and no group is without one.
pub proof fn law_groups(count: int)
    requires
        0 <= count,
    ensures
        groups(count) * WORKGROUP_SIZE >= count,
        groups(count) * WORKGROUP_SIZE < count + WORKGROUP_SIZE,
        WORKGROUP_SIZE == 256,
{
}

} // verus!
