//! The programs that run on the graphics device, with the numbers of this server filled in.
//!
//! A number with a fraction is filled in as its caller writes it.
use crate::layout::{HASH_SIZE, START_PLAYER_COUNT};
use vstd::prelude::*;

verus! {

/// A digit as it is written.
pub open spec fn digit_char(d: int) -> char {
    if d == 0 {
        '0'
    } else if d == 1 {
        '1'
    } else if d == 2 {
        '2'
    } else if d == 3 {
        '3'
    } else if d == 4 {
        '4'
    } else if d == 5 {
        '5'
    } else if d == 6 {
        '6'
    } else if d == 7 {
        '7'
    } else if d == 8 {
        '8'
    } else {
        '9'
    }
}

/// A number as it is written: in decimal, without leading zeros.
pub open spec fn decimal(n: nat) -> Seq<char>
    decreases n,
{
    if n < 10 {
        seq![digit_char(n as int)]
    } else {
        decimal(n / 10).push(digit_char(n as int % 10))
    }
}

fn digit(d: u64) -> (s: &'static str)
    requires
        d < 10,
    ensures
        s@ == seq![digit_char(d as int)],
{
    if d == 0 {
        proof {
            reveal_strlit("0");
            assert("0"@ =~= seq!['0']);
        }
        "0"
    } else if d == 1 {
        proof {
            reveal_strlit("1");
            assert("1"@ =~= seq!['1']);
        }
        "1"
    } else if d == 2 {
        proof {
            reveal_strlit("2");
            assert("2"@ =~= seq!['2']);
        }
        "2"
    } else if d == 3 {
        proof {
            reveal_strlit("3");
            assert("3"@ =~= seq!['3']);
        }
        "3"
    } else if d == 4 {
        proof {
            reveal_strlit("4");
            assert("4"@ =~= seq!['4']);
        }
        "4"
    } else if d == 5 {
        proof {
            reveal_strlit("5");
            assert("5"@ =~= seq!['5']);
        }
        "5"
    } else if d == 6 {
        proof {
            reveal_strlit("6");
            assert("6"@ =~= seq!['6']);
        }
        "6"
    } else if d == 7 {
        proof {
            reveal_strlit("7");
            assert("7"@ =~= seq!['7']);
        }
        "7"
    } else if d == 8 {
        proof {
            reveal_strlit("8");
            assert("8"@ =~= seq!['8']);
        }
        "8"
    } else {
        proof {
            reveal_strlit("9");
            assert("9"@ =~= seq!['9']);
        }
        "9"
    }
}

/// Appends a number in decimal.
pub fn push_decimal(s: &mut String, n: u64)
    ensures
        final(s)@ == old(s)@ + decimal(n as nat),
    decreases n,
{
    let ghost before = s@;
    if n >= 10 {
        push_decimal(s, n / 10);
    }
    s.append(digit(n % 10));
    assert(s@ =~= before + decimal(n as nat));
}

pub const CLEAR_0: &'static str = "
        @group(0) @binding(0) var<storage, read_write> nodes: array<atomic<u32>>;
        @compute @workgroup_size(256) fn main(@builtin(global_invocation_id) gid: vec3<u32>) {
            let h = gid.x; if (h >= ";

pub const CLEAR_1: &'static str = "u) { return; }
            atomicStore(&nodes[h * 2u], 0xFFFFFFFFu); 
            atomicStore(&nodes[h * 2u + 1u], 0xFFFFFFFFu); 
        }";

/// The text of the program that `clear_shader` gives.
pub open spec fn clear_text() -> Seq<char> {
    CLEAR_0@
        + decimal(crate::layout::HASH_SIZE as nat) + CLEAR_1@
}

/// Sets the two words of every hash bucket to "no player".
pub fn clear_shader() -> (s: String)
    ensures
        s@ == clear_text(),
{
    let mut s = String::new();
    s.append(CLEAR_0);
    assert(s@ =~= CLEAR_0@);
    push_decimal(&mut s, HASH_SIZE as u64);
    s.append(CLEAR_1);
    s
}

pub const MOVE_0: &'static str = "
        struct Input { dx: f32, dy: f32, s: f32, p: u32 }
        @group(0) @binding(1) var<storage, read> inputs: array<Input>;
        @group(0) @binding(2) var<storage, read_write> nodes: array<atomic<u32>>;
        @compute @workgroup_size(256) fn main(@builtin(global_invocation_id) gid: vec3<u32>) {
            let i = gid.x; if (i >= ";

pub const MOVE_1: &'static str = "u) { return; }
            let off = ";

pub const MOVE_2: &'static str = "u * 2u + i * 4u;
            var x = bitcast<f32>(atomicLoad(&nodes[off + 2u]));
            var y = bitcast<f32>(atomicLoad(&nodes[off + 3u]));
            let inp = inputs[i];
            if (inp.s > 0.0) {
                x += inp.dx * inp.s * 0.0333; y += inp.dy * inp.s * 0.0333;
                let ms = ";

pub const MOVE_3: &'static str = " - 1.0; if (x < 0.0) { x = ms; } if (x > ms) { x = 0.0; }
                if (y < 0.0) { y = ms; } if (y > ms) { y = 0.0; }
            }
            atomicStore(&nodes[off + 2u], bitcast<u32>(x));
            atomicStore(&nodes[off + 3u], bitcast<u32>(y));
            let h = ((u32(x/";

pub const MOVE_4: &'static str = ")*73856093u)^(u32(y/";

pub const MOVE_5: &'static str = ")*19349663u))%";

pub const MOVE_6: &'static str = "u;
            let old = atomicExchange(&nodes[h * 2u + 1u], i);
            atomicStore(&nodes[off], old);
        }";

/// The text of the program that `move_shader` gives.
pub open spec fn move_text(map_size: Seq<char>, grid_size: Seq<char>) -> Seq<char> {
    MOVE_0@
        + decimal(crate::layout::START_PLAYER_COUNT as nat) + MOVE_1@
        + decimal(crate::layout::HASH_SIZE as nat) + MOVE_2@
        + map_size + MOVE_3@
        + grid_size + MOVE_4@
        + grid_size + MOVE_5@
        + decimal(crate::layout::HASH_SIZE as nat) + MOVE_6@
}

/// Moves every player by its input, and puts it at the head of the chain of its hash bucket.
pub fn move_shader(map_size: &str, grid_size: &str) -> (s: String)
    ensures
        s@ == move_text(map_size@, grid_size@),
{
    let mut s = String::new();
    s.append(MOVE_0);
    assert(s@ =~= MOVE_0@);
    push_decimal(&mut s, START_PLAYER_COUNT);
    s.append(MOVE_1);
    push_decimal(&mut s, HASH_SIZE as u64);
    s.append(MOVE_2);
    s.append(map_size);
    s.append(MOVE_3);
    s.append(grid_size);
    s.append(MOVE_4);
    s.append(grid_size);
    s.append(MOVE_5);
    push_decimal(&mut s, HASH_SIZE as u64);
    s.append(MOVE_6);
    s
}

pub const STREAM_0: &'static str = "
        struct NeighborNode { other_id: u32, next_node: u32, }
        struct Output { count: atomic<u32>, head: atomic<u32> }
        @group(0) @binding(1) var<storage, read> nodes: array<u32>;
        @group(0) @binding(2) var<storage, read_write> outputs: array<Output>;
        @group(0) @binding(3) var<storage, read_write> neighbor_nodes: array<NeighborNode>;
        @group(0) @binding(4) var<storage, read_write> allocator: atomic<u32>;

        @compute @workgroup_size(256) fn main(@builtin(global_invocation_id) gid: vec3<u32>) {
            let i = gid.x; if (i >= ";

pub const STREAM_1: &'static str = "u) { return; }
            let poff = ";

pub const STREAM_2: &'static str = "u * 2u + i * 4u;
            let px = bitcast<f32>(nodes[poff + 2u]);
            let py = bitcast<f32>(nodes[poff + 3u]);
            atomicStore(&outputs[i].count, 0u);
            let cx = i32(px/";

pub const STREAM_3: &'static str = "); let cy = i32(py/";

pub const STREAM_4: &'static str = ");
            let ox = select(-1, 1, (px/";

pub const STREAM_5: &'static str = " - f32(cx)) > 0.5);
            let oy = select(-1, 1, (py/";

pub const STREAM_6: &'static str = " - f32(cy)) > 0.5);
            for (var r=0; r<=1; r++) { for (var c=0; c<=1; c++) {
                let nc = cx + c*ox; let nr = cy + r*oy;
                if (nc<0 || nr<0) { continue; }
                let h = ((u32(nc)*73856093u)^(u32(nr)*19349663u))%";

pub const STREAM_7: &'static str = "u;
                var p2 = nodes[h * 2u + 1u];
                var loop_overflow = 0u;
                while (p2 != 0xFFFFFFFFu && loop_overflow < 200u) {
                    loop_overflow++;
                    if (p2 != i) {
                        let p2off = ";

pub const STREAM_8: &'static str = "u * 2u + p2 * 4u;
                        let p2x = bitcast<f32>(nodes[p2off + 2u]);
                        let p2y = bitcast<f32>(nodes[p2off + 3u]);
                        if (abs(p2x-px)<=200.0 && abs(p2y-py)<=200.0) {
                            let n_idx = atomicAdd(&allocator, 1u);
                            if (n_idx < 10000000u) {
                                neighbor_nodes[n_idx].other_id = p2;
                                let old_h = atomicExchange(&outputs[i].head, n_idx);
                                neighbor_nodes[n_idx].next_node = old_h;
                                atomicAdd(&outputs[i].count, 1u);
                            }
                        }
                    }
                    p2 = nodes[";

pub const STREAM_9: &'static str = "u * 2u + p2 * 4u];
                }
            } }
        }";

/// The text of the program that `stream_shader` gives.
pub open spec fn stream_text(grid_size: Seq<char>) -> Seq<char> {
    STREAM_0@
        + decimal(crate::layout::START_PLAYER_COUNT as nat) + STREAM_1@
        + decimal(crate::layout::HASH_SIZE as nat) + STREAM_2@
        + grid_size + STREAM_3@
        + grid_size + STREAM_4@
        + grid_size + STREAM_5@
        + grid_size + STREAM_6@
        + decimal(crate::layout::HASH_SIZE as nat) + STREAM_7@
        + decimal(crate::layout::HASH_SIZE as nat) + STREAM_8@
        + decimal(crate::layout::HASH_SIZE as nat) + STREAM_9@
}

/// Collects for every player the players near it, from the four buckets next to it.
pub fn stream_shader(grid_size: &str) -> (s: String)
    ensures
        s@ == stream_text(grid_size@),
{
    let mut s = String::new();
    s.append(STREAM_0);
    assert(s@ =~= STREAM_0@);
    push_decimal(&mut s, START_PLAYER_COUNT);
    s.append(STREAM_1);
    push_decimal(&mut s, HASH_SIZE as u64);
    s.append(STREAM_2);
    s.append(grid_size);
    s.append(STREAM_3);
    s.append(grid_size);
    s.append(STREAM_4);
    s.append(grid_size);
    s.append(STREAM_5);
    s.append(grid_size);
    s.append(STREAM_6);
    push_decimal(&mut s, HASH_SIZE as u64);
    s.append(STREAM_7);
    push_decimal(&mut s, HASH_SIZE as u64);
    s.append(STREAM_8);
    push_decimal(&mut s, HASH_SIZE as u64);
    s.append(STREAM_9);
    s
}

pub const RENDER_0: &'static str = "
struct PlayerData { next: u32, id: u32, x: f32, y: f32, }
@group(0) @binding(0) var<storage, read> players: array<PlayerData>;

struct VertexOutput {
    @builtin(position) clip_position: vec4<f32>,
    @location(0) color: vec4<f32>,
};

@vertex
fn vs_main(@builtin(vertex_index) v_idx: u32, @builtin(instance_index) i_idx: u32) -> VertexOutput {
    let p = players[i_idx];
    
    let half_map = ";

pub const RENDER_1: &'static str = " / 2.0;
    let nx = (p.x - half_map) / half_map;
    let ny = (p.y - half_map) / half_map;
    
    // ย่อขนาดพิกเซลกลับลงมาเหลือ 1-2 พิกเซล ให้ดูเป็นฝุ่นมดนับล้านตัวไม่ทับกันจนล้นจอ
    let ds = ";

pub const RENDER_2: &'static str = ";
    var pos = array<vec2<f32>, 6>(
        vec2<f32>(-ds, -ds), vec2<f32>( ds, -ds), vec2<f32>(-ds,  ds),
        vec2<f32>( ds, -ds), vec2<f32>(-ds,  ds), vec2<f32>( ds,  ds),
    );
    
    let offset = pos[v_idx];
    var out: VertexOutput;
    out.clip_position = vec4<f32>(nx + offset.x, ny + offset.y, 0.0, 1.0);
    // กลับไปใช้ความโปร่งแสงต่ำๆ ให้เวลามันวิ่งทับกันเกิดเป็นคลื่นแสง Density สวยงาม
    out.color = vec4<f32>(0.0, 0.8, 1.0, 0.5); 
    return out;
}

@fragment
fn fs_main(in: VertexOutput) -> @location(0) vec4<f32> {
    return in.color;
}
";

/// The text of the program that `render_shader` gives.
pub open spec fn render_text(map_size: Seq<char>, dot_size: Seq<char>) -> Seq<char> {
    RENDER_0@
        + map_size + RENDER_1@
        + dot_size + RENDER_2@
}

/// Draws every player as a small square.
pub fn render_shader(map_size: &str, dot_size: &str) -> (s: String)
    ensures
        s@ == render_text(map_size@, dot_size@),
{
    let mut s = String::new();
    s.append(RENDER_0);
    assert(s@ =~= RENDER_0@);
    s.append(map_size);
    s.append(RENDER_1);
    s.append(dot_size);
    s.append(RENDER_2);
    s
}

/// The number that a text of digits stands for.
pub open spec fn reads(s: Seq<char>) -> int
    decreases s.len(),
{
    if s.len() == 0 {
        0
    } else {
        10 * reads(s.drop_last()) + (s.last() as int - '0' as int)
    }
}

/// A number that is written reads back as itself. It is made of digits alone, and begins with a zero
/// only where it is zero.
pub proof fn law_decimal(n: nat)
    ensures
        reads(decimal(n)) == n,
        decimal(n).len() > 0,
        n > 0 ==> decimal(n)[0] != '0',
        forall|i: int|
            0 <= i < decimal(n).len() ==> '0' as int <= #[trigger] decimal(n)[i] as int <= '9' as int,
    decreases n,
{
    let s = decimal(n);
    if n >= 10 {
        law_decimal(n / 10);
        assert(s.drop_last() =~= decimal(n / 10));
        assert forall|i: int| 0 <= i < s.len() implies '0' as int <= #[trigger] s[i] as int
            <= '9' as int by {
            if i < s.len() - 1 {
                assert(s[i] == decimal(n / 10)[i]);
            }
        }
    } else {
        assert(s.drop_last() =~= Seq::<char>::empty());
        assert(reads(s.drop_last()) == 0);
    }
    assert(s.last() as int - '0' as int == n % 10);
}

/// The numbers of players and of buckets, as they are written.
proof fn lemma_written()
    ensures
        decimal(crate::layout::START_PLAYER_COUNT as nat) == "1000000"@,
        decimal(crate::layout::HASH_SIZE as nat) == "1000003"@,
{
    reveal_strlit("1000000");
    reveal_strlit("1000003");
    reveal_with_fuel(decimal, 8);
    assert(decimal(1_000_000) =~= "1000000"@);
    assert(decimal(1_000_003) =~= "1000003"@);
}

/// The clearing program in full: each of the 1,000,003 invocations sets the two words of its bucket
/// to "no player".
pub proof fn law_clear_program()
    ensures
        clear_text() == "
        @group(0) @binding(0) var<storage, read_write> nodes: array<atomic<u32>>;
        @compute @workgroup_size(256) fn main(@builtin(global_invocation_id) gid: vec3<u32>) {
            let h = gid.x; if (h >= "@
            + "1000003"@
            + "u) { return; }
            atomicStore(&nodes[h * 2u], 0xFFFFFFFFu); 
            atomicStore(&nodes[h * 2u + 1u], 0xFFFFFFFFu); 
        }"@,
{
    lemma_written();
}

/// The moving program in full, on a map of any size and any grid: each of the 1,000,000 players moves
/// by its direction, its speed and the length of a tick, comes back on the other side where it leaves
/// the map, and becomes the head of the chain of its bucket.
pub proof fn law_move_program(map_size: Seq<char>, grid_size: Seq<char>)
    ensures
        move_text(map_size, grid_size) == "
        struct Input { dx: f32, dy: f32, s: f32, p: u32 }
        @group(0) @binding(1) var<storage, read> inputs: array<Input>;
        @group(0) @binding(2) var<storage, read_write> nodes: array<atomic<u32>>;
        @compute @workgroup_size(256) fn main(@builtin(global_invocation_id) gid: vec3<u32>) {
            let i = gid.x; if (i >= "@
            + "1000000"@
            + "u) { return; }
            let off = "@
            + "1000003"@
            + "u * 2u + i * 4u;
            var x = bitcast<f32>(atomicLoad(&nodes[off + 2u]));
            var y = bitcast<f32>(atomicLoad(&nodes[off + 3u]));
            let inp = inputs[i];
            if (inp.s > 0.0) {
                x += inp.dx * inp.s * 0.0333; y += inp.dy * inp.s * 0.0333;
                let ms = "@
            + map_size
            + " - 1.0; if (x < 0.0) { x = ms; } if (x > ms) { x = 0.0; }
                if (y < 0.0) { y = ms; } if (y > ms) { y = 0.0; }
            }
            atomicStore(&nodes[off + 2u], bitcast<u32>(x));
            atomicStore(&nodes[off + 3u], bitcast<u32>(y));
            let h = ((u32(x/"@
            + grid_size
            + ")*73856093u)^(u32(y/"@
            + grid_size
            + ")*19349663u))%"@
            + "1000003"@
            + "u;
            let old = atomicExchange(&nodes[h * 2u + 1u], i);
            atomicStore(&nodes[off], old);
        }"@,
{
    lemma_written();
}

/// The neighbour program in full, on any grid: each of the 1,000,000 players looks through the four
/// buckets next to it, at most 200 players of each, and takes those within 200 on both axes, as long
/// as one of the 10,000,000 neighbour records is left.
pub proof fn law_stream_program(grid_size: Seq<char>)
    ensures
        stream_text(grid_size) == "
        struct NeighborNode { other_id: u32, next_node: u32, }
        struct Output { count: atomic<u32>, head: atomic<u32> }
        @group(0) @binding(1) var<storage, read> nodes: array<u32>;
        @group(0) @binding(2) var<storage, read_write> outputs: array<Output>;
        @group(0) @binding(3) var<storage, read_write> neighbor_nodes: array<NeighborNode>;
        @group(0) @binding(4) var<storage, read_write> allocator: atomic<u32>;

        @compute @workgroup_size(256) fn main(@builtin(global_invocation_id) gid: vec3<u32>) {
            let i = gid.x; if (i >= "@
            + "1000000"@
            + "u) { return; }
            let poff = "@
            + "1000003"@
            + "u * 2u + i * 4u;
            let px = bitcast<f32>(nodes[poff + 2u]);
            let py = bitcast<f32>(nodes[poff + 3u]);
            atomicStore(&outputs[i].count, 0u);
            let cx = i32(px/"@
            + grid_size
            + "); let cy = i32(py/"@
            + grid_size
            + ");
            let ox = select(-1, 1, (px/"@
            + grid_size
            + " - f32(cx)) > 0.5);
            let oy = select(-1, 1, (py/"@
            + grid_size
            + " - f32(cy)) > 0.5);
            for (var r=0; r<=1; r++) { for (var c=0; c<=1; c++) {
                let nc = cx + c*ox; let nr = cy + r*oy;
                if (nc<0 || nr<0) { continue; }
                let h = ((u32(nc)*73856093u)^(u32(nr)*19349663u))%"@
            + "1000003"@
            + "u;
                var p2 = nodes[h * 2u + 1u];
                var loop_overflow = 0u;
                while (p2 != 0xFFFFFFFFu && loop_overflow < 200u) {
                    loop_overflow++;
                    if (p2 != i) {
                        let p2off = "@
            + "1000003"@
            + "u * 2u + p2 * 4u;
                        let p2x = bitcast<f32>(nodes[p2off + 2u]);
                        let p2y = bitcast<f32>(nodes[p2off + 3u]);
                        if (abs(p2x-px)<=200.0 && abs(p2y-py)<=200.0) {
                            let n_idx = atomicAdd(&allocator, 1u);
                            if (n_idx < 10000000u) {
                                neighbor_nodes[n_idx].other_id = p2;
                                let old_h = atomicExchange(&outputs[i].head, n_idx);
                                neighbor_nodes[n_idx].next_node = old_h;
                                atomicAdd(&outputs[i].count, 1u);
                            }
                        }
                    }
                    p2 = nodes["@
            + "1000003"@
            + "u * 2u + p2 * 4u];
                }
            } }
        }"@,
{
    lemma_written();
}

/// The drawing program in full, on a map of any size and with dots of any size: a player is drawn at
/// its place on a map that fills the screen, as two triangles.
pub proof fn law_render_program(map_size: Seq<char>, dot_size: Seq<char>)
    ensures
        render_text(map_size, dot_size) == "
struct PlayerData { next: u32, id: u32, x: f32, y: f32, }
@group(0) @binding(0) var<storage, read> players: array<PlayerData>;

struct VertexOutput {
    @builtin(position) clip_position: vec4<f32>,
    @location(0) color: vec4<f32>,
};

@vertex
fn vs_main(@builtin(vertex_index) v_idx: u32, @builtin(instance_index) i_idx: u32) -> VertexOutput {
    let p = players[i_idx];
    
    let half_map = "@
            + map_size
            + " / 2.0;
    let nx = (p.x - half_map) / half_map;
    let ny = (p.y - half_map) / half_map;
    
    // ย่อขนาดพิกเซลกลับลงมาเหลือ 1-2 พิกเซล ให้ดูเป็นฝุ่นมดนับล้านตัวไม่ทับกันจนล้นจอ
    let ds = "@
            + dot_size
            + ";
    var pos = array<vec2<f32>, 6>(
        vec2<f32>(-ds, -ds), vec2<f32>( ds, -ds), vec2<f32>(-ds,  ds),
        vec2<f32>( ds, -ds), vec2<f32>(-ds,  ds), vec2<f32>( ds,  ds),
    );
    
    let offset = pos[v_idx];
    var out: VertexOutput;
    out.clip_position = vec4<f32>(nx + offset.x, ny + offset.y, 0.0, 1.0);
    // กลับไปใช้ความโปร่งแสงต่ำๆ ให้เวลามันวิ่งทับกันเกิดเป็นคลื่นแสง Density สวยงาม
    out.color = vec4<f32>(0.0, 0.8, 1.0, 0.5); 
    return out;
}

@fragment
fn fs_main(in: VertexOutput) -> @location(0) vec4<f32> {
    return in.color;
}
"@,
{
    lemma_written();
}

/// The piece stands in the text at a place.
pub open spec fn piece_at(text: Seq<char>, at: int, piece: Seq<char>) -> bool {
    &&& 0 <= at
    &&& at + piece.len() <= text.len()
    &&& text.subrange(at, at + piece.len()) == piece
}

/// The text lets an invocation go on exactly where its number, which it calls `name`, is less than
/// `n`.
pub open spec fn lets_pass(text: Seq<char>, name: Seq<char>, n: int) -> bool {
    exists|at: int, num: Seq<char>|
        #[trigger] piece_at(text, at, "if ("@ + name + " >= "@ + num + "u) { return; }"@) && reads(
            num,
        ) == n
}

/// The clearing program works on every bucket, and on nothing behind the last.
pub proof fn law_clear_guard()
    ensures
        lets_pass(clear_text(), "h"@, crate::layout::HASH_SIZE as int),
{
    reveal_strlit("
        @group(0) @binding(0) var<storage, read_write> nodes: array<atomic<u32>>;
        @compute @workgroup_size(256) fn main(@builtin(global_invocation_id) gid: vec3<u32>) {
            let h = gid.x; if (h >= ");
    reveal_strlit("u) { return; }
            atomicStore(&nodes[h * 2u], 0xFFFFFFFFu); 
            atomicStore(&nodes[h * 2u + 1u], 0xFFFFFFFFu); 
        }");
    reveal_strlit("if (");
    reveal_strlit("h");
    reveal_strlit(" >= ");
    reveal_strlit("u) { return; }");
    let num = decimal(crate::layout::HASH_SIZE as nat);
    law_decimal(crate::layout::HASH_SIZE as nat);
    let text = clear_text();
    let piece = "if ("@ + "h"@ + " >= "@ + num + "u) { return; }"@;
    let at = CLEAR_0@.len() - 9;
    let part = text.subrange(at, at + piece.len());
    assert(piece.len() == 23 + num.len());
    assert forall|k: int| 0 <= k < piece.len() implies part[k] == piece[k] by {
        if k < 9 {
            assert(part[k] == CLEAR_0@[at + k]);
        } else if k < 9 + num.len() {
            assert(part[k] == num[k - 9]);
        } else {
            assert(part[k] == CLEAR_1@[k - 9 - num.len()]);
        }
    }
    assert(part =~= piece);
    assert(piece_at(text, at, piece));
}

/// The moving program works on every player that there is room for, and on nobody else.
pub proof fn law_move_guard(map_size: Seq<char>, grid_size: Seq<char>)
    ensures
        lets_pass(move_text(map_size, grid_size), "i"@, crate::layout::START_PLAYER_COUNT as int),
{
    reveal_strlit("
        struct Input { dx: f32, dy: f32, s: f32, p: u32 }
        @group(0) @binding(1) var<storage, read> inputs: array<Input>;
        @group(0) @binding(2) var<storage, read_write> nodes: array<atomic<u32>>;
        @compute @workgroup_size(256) fn main(@builtin(global_invocation_id) gid: vec3<u32>) {
            let i = gid.x; if (i >= ");
    reveal_strlit("u) { return; }
            let off = ");
    reveal_strlit("if (");
    reveal_strlit("i");
    reveal_strlit(" >= ");
    reveal_strlit("u) { return; }");
    let num = decimal(crate::layout::START_PLAYER_COUNT as nat);
    law_decimal(crate::layout::START_PLAYER_COUNT as nat);
    let text = move_text(map_size, grid_size);
    let piece = "if ("@ + "i"@ + " >= "@ + num + "u) { return; }"@;
    let at = MOVE_0@.len() - 9;
    let part = text.subrange(at, at + piece.len());
    assert(piece.len() == 23 + num.len());
    assert forall|k: int| 0 <= k < piece.len() implies part[k] == piece[k] by {
        if k < 9 {
            assert(part[k] == MOVE_0@[at + k]);
        } else if k < 9 + num.len() {
            assert(part[k] == num[k - 9]);
        } else {
            assert(part[k] == MOVE_1@[k - 9 - num.len()]);
        }
    }
    assert(part =~= piece);
    assert(piece_at(text, at, piece));
}

/// The neighbour program works on every player that the moving program moves, and on nobody else.
pub proof fn law_stream_guard(grid_size: Seq<char>)
    ensures
        lets_pass(stream_text(grid_size), "i"@, crate::layout::START_PLAYER_COUNT as int),
{
    reveal_strlit("
        struct NeighborNode { other_id: u32, next_node: u32, }
        struct Output { count: atomic<u32>, head: atomic<u32> }
        @group(0) @binding(1) var<storage, read> nodes: array<u32>;
        @group(0) @binding(2) var<storage, read_write> outputs: array<Output>;
        @group(0) @binding(3) var<storage, read_write> neighbor_nodes: array<NeighborNode>;
        @group(0) @binding(4) var<storage, read_write> allocator: atomic<u32>;

        @compute @workgroup_size(256) fn main(@builtin(global_invocation_id) gid: vec3<u32>) {
            let i = gid.x; if (i >= ");
    reveal_strlit("u) { return; }
            let poff = ");
    reveal_strlit("if (");
    reveal_strlit("i");
    reveal_strlit(" >= ");
    reveal_strlit("u) { return; }");
    let num = decimal(crate::layout::START_PLAYER_COUNT as nat);
    law_decimal(crate::layout::START_PLAYER_COUNT as nat);
    let text = stream_text(grid_size);
    let piece = "if ("@ + "i"@ + " >= "@ + num + "u) { return; }"@;
    let at = STREAM_0@.len() - 9;
    let part = text.subrange(at, at + piece.len());
    assert(piece.len() == 23 + num.len());
    assert forall|k: int| 0 <= k < piece.len() implies part[k] == piece[k] by {
        if k < 9 {
            assert(part[k] == STREAM_0@[at + k]);
        } else if k < 9 + num.len() {
            assert(part[k] == num[k - 9]);
        } else {
            assert(part[k] == STREAM_1@[k - 9 - num.len()]);
        }
    }
    assert(part =~= piece);
    assert(piece_at(text, at, piece));
}

} // verus!
