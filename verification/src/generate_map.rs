//! Deterministic chunk generation: biome selection, the periodic road grid,
//! and the random scatter of ground tiles inside a chunk.

use vstd::prelude::*;
use vstd::arithmetic::div_mod::{lemma_fundamental_div_mod, lemma_fundamental_div_mod_converse};

verus! {

/// A chunk is a square of `CHUNK_SIZE` x `CHUNK_SIZE` tiles.
pub const CHUNK_SIZE: i32 = 16;

/// Climate classification of a whole chunk.
#[derive(Debug, Clone, Copy, PartialEq, Eq, Structural)]
pub enum BiomeType {
    Summer,
    Winter,
}

impl BiomeType {
    /// Characteristic temperature of the biome, in thousandths.
    pub open spec fn temperature(self) -> u32 {
        match self {
            BiomeType::Summer => 700u32,
            BiomeType::Winter => 300u32,
        }
    }

    /// Characteristic humidity of the biome, in thousandths.
    pub open spec fn humidity(self) -> u32 {
        match self {
            BiomeType::Summer => 500u32,
            BiomeType::Winter => 300u32,
        }
    }

    pub fn get_temperature(&self) -> (t: u32)
        ensures
            t == self.temperature(),
    {
        match self {
            BiomeType::Summer => 700,
            BiomeType::Winter => 300,
        }
    }

    pub fn get_humidity(&self) -> (h: u32)
        ensures
            h == self.humidity(),
    {
        match self {
            BiomeType::Summer => 500,
            BiomeType::Winter => 300,
        }
    }
}

/// The biome a temperature sample classifies to: strictly warmer than half
/// the scale is Summer, anything else Winter.
pub open spec fn biome_for_temperature(temperature: u32) -> BiomeType {
    if temperature > 500 {
        BiomeType::Summer
    } else {
        BiomeType::Winter
    }
}

/// Classify a climate sample (both values in thousandths).  Humidity does not
/// discriminate yet; the parameter is kept for interface stability.
pub fn determine_biome(temperature: u32, _humidity: u32) -> (b: BiomeType)
    ensures
        b == biome_for_temperature(temperature),
{
    if temperature > 500 {
        BiomeType::Summer
    } else {
        BiomeType::Winter
    }
}

/// Content of one world cell.  `rotation` is in whole degrees.
#[derive(Debug, Clone, Copy, PartialEq, Eq, Structural)]
pub enum TileType {
    Grass { rotation: i32 },
    Water,
    Dirt,
    Road,
    BiomeBorder { from: BiomeType, to: BiomeType },
}

/// One generated world cell: its content, its position in world tile units,
/// and the biome of the chunk that produced it.
#[derive(Debug, Clone, Copy, PartialEq)]
pub struct Tile {
    pub tile_type: TileType,
    pub position: (i32, i32),
    pub biome: BiomeType,
}

/// Coordinate of a chunk on the chunk grid.
#[derive(Debug, Clone, Copy, PartialEq, Eq, Hash, Structural)]
pub struct ChunkPosition(pub i32, pub i32);

impl ChunkPosition {
    /// The coordinate pair as mathematical integers.
    pub open spec fn coords(self) -> (int, int) {
        (self.0 as int, self.1 as int)
    }
}

/// Chunk coordinates whose world tile coordinates still fit in `i32`:
/// `c * 16 + 15` must not leave the `i32` range.
pub open spec fn chunk_coord_in_bounds(c: int) -> bool {
    -134217728 <= c <= 134217727
}

/// Pseudo-noise sample for a chunk, in thousandths: a fixed mixing function
/// of the chunk coordinate and the world seed, so that the same inputs
/// always give the same sample.
pub open spec fn noise_fraction(cx: int, cy: int, seed: u64) -> int {
    ((cx + 2147483648) * 73 + (cy + 2147483648) * 149 + (seed as int) % 100003) % 1000
}

/// The single biome of the chunk at `(cx, cy)` for the given seed.
pub open spec fn chunk_biome(cx: int, cy: int, seed: u64) -> BiomeType {
    biome_for_temperature(noise_fraction(cx, cy, seed) as u32)
}

/// Sample the chunk noise, in thousandths.
pub fn sample_noise(cx: i32, cy: i32, seed: u64) -> (r: u32)
    ensures
        r as int == noise_fraction(cx as int, cy as int, seed),
        r < 1000,
{
    let ux: u64 = (cx as i64 + 2147483648) as u64;
    let uy: u64 = (cy as i64 + 2147483648) as u64;
    let mixed: u64 = ux * 73 + uy * 149 + seed % 100003;
    (mixed % 1000) as u32
}

/// The tile types a random draw may produce for a non-road cell of the
/// given biome.
pub open spec fn biome_tile_ok(biome: BiomeType, t: TileType) -> bool {
    match biome {
        BiomeType::Summer => t == TileType::Water || t == TileType::Dirt || t == (TileType::Grass {
            rotation: 0,
        }),
        BiomeType::Winter => t == TileType::Water || t == (TileType::Grass { rotation: 0 }),
    }
}

/// The tile type drawn for a non-road cell from a uniform fraction
/// `chance` in thousandths.
pub open spec fn tile_for_chance(biome: BiomeType, chance: u32) -> TileType {
    match biome {
        BiomeType::Summer => if chance < 50 {
            TileType::Water
        } else if chance < 300 {
            TileType::Dirt
        } else {
            TileType::Grass { rotation: 0 }
        },
        BiomeType::Winter => if chance < 50 {
            TileType::Water
        } else {
            TileType::Grass { rotation: 0 }
        },
    }
}

/// Pick the tile type for a non-road cell from a uniform fraction in
/// thousandths, by the biome's thresholds.
pub fn tile_for_fraction(biome: BiomeType, chance: u32) -> (t: TileType)
    ensures
        t == tile_for_chance(biome, chance),
{
    match biome {
        BiomeType::Summer => {
            if chance < 50 {
                TileType::Water
            } else if chance < 300 {
                TileType::Dirt
            } else {
                TileType::Grass { rotation: 0 }
            }
        },
        BiomeType::Winter => {
            if chance < 50 {
                TileType::Water
            } else {
                TileType::Grass { rotation: 0 }
            }
        },
    }
}

/// Everything `generate_chunk` guarantees of its output: 256 tiles in
/// row-major order (y outer, x inner), each at its grid position, all
/// sharing the chunk's biome, roads exactly on the world columns divisible
/// by 32, and every other tile drawn from the biome's tile set.
pub open spec fn chunk_tiles_wf(tiles: Seq<Tile>, cx: int, cy: int, seed: u64) -> bool {
    &&& tiles.len() == 256
    &&& forall|i: int|
        0 <= i < 256 ==> {
            let t = #[trigger] tiles[i];
            &&& t.position.0 == cx * 16 + i % 16
            &&& t.position.1 == cy * 16 + i / 16
            &&& t.biome == chunk_biome(cx, cy, seed)
            &&& ((cx * 16 + i % 16) % 32 == 0 ==> t.tile_type == TileType::Road)
            &&& ((cx * 16 + i % 16) % 32 != 0 ==> biome_tile_ok(chunk_biome(cx, cy, seed), t.tile_type))
        }
}

/// The tiles of one generated chunk cover the 16 x 16 grid with no
/// duplicate positions: distinct indices carry distinct positions.
pub proof fn lemma_chunk_positions_distinct(tiles: Seq<Tile>, cx: int, cy: int, seed: u64)
    requires
        chunk_tiles_wf(tiles, cx, cy, seed),
    ensures
        forall|i: int, j: int|
            0 <= i < j < 256 ==> (#[trigger] tiles[i]).position != (#[trigger] tiles[j]).position,
{
    assert forall|i: int, j: int|
        0 <= i < j < 256 implies (#[trigger] tiles[i]).position != (
    #[trigger] tiles[j]).position by {
        lemma_fundamental_div_mod(i, 16);
        lemma_fundamental_div_mod(j, 16);
    };
}

/// The tiles of one generated chunk span exactly the chunk's world
/// rectangle: `[cx*16, cx*16+15] x [cy*16, cy*16+15]`.
pub proof fn lemma_chunk_positions_span(tiles: Seq<Tile>, cx: int, cy: int, seed: u64)
    requires
        chunk_tiles_wf(tiles, cx, cy, seed),
    ensures
        forall|i: int|
            0 <= i < 256 ==> {
                let p = (#[trigger] tiles[i]).position;
                &&& cx * 16 <= p.0 <= cx * 16 + 15
                &&& cy * 16 <= p.1 <= cy * 16 + 15
            },
{
    assert forall|i: int| 0 <= i < 256 implies {
        let p = (#[trigger] tiles[i]).position;
        &&& cx * 16 <= p.0 <= cx * 16 + 15
        &&& cy * 16 <= p.1 <= cy * 16 + 15
    } by {
        lemma_fundamental_div_mod(i, 16);
        vstd::arithmetic::div_mod::lemma_mod_bound(i, 16);
    };
}

/// The road override: every generated tile on a world column divisible by
/// 32 is a road, whatever the biome.
pub proof fn lemma_road_override(tiles: Seq<Tile>, cx: int, cy: int, seed: u64)
    requires
        chunk_tiles_wf(tiles, cx, cy, seed),
    ensures
        forall|i: int|
            0 <= i < 256 && (#[trigger] tiles[i]).position.0 as int % 32 == 0 ==> tiles[
                i
            ].tile_type == TileType::Road,
{
}

/// Biome uniformity: a single generation call yields one biome, shared by
/// all 256 tiles of the chunk.
pub proof fn lemma_chunk_biome_uniform(tiles: Seq<Tile>, cx: int, cy: int, seed: u64)
    requires
        chunk_tiles_wf(tiles, cx, cy, seed),
    ensures
        forall|i: int, j: int|
            0 <= i < 256 && 0 <= j < 256 ==> (#[trigger] tiles[i]).biome == (
            #[trigger] tiles[j]).biome,
{
}

/// Relies on rand::random: draws a value from the thread-local generator;
/// nothing can be promised of the result.
pub assume_specification<T>[ rand::random::<T> ]() -> (r: T)
    where
        rand::distributions::Standard: rand::distributions::Distribution<T>,
;

/// A uniform random fraction in thousandths, standing in for a real draw
/// from `[0, 1)`.
fn random_fraction() -> (r: u32)
    ensures
        r < 1000,
{
    let raw: u32 = rand::random::<u32>();
    raw % 1000
}

/// Whether the world column `world_x` carries the periodic road grid.
fn is_road_column(world_x: i32) -> (r: bool)
    ensures
        r == ((world_x as int) % 32 == 0),
{
    // Shift into the non-negative range first; 2^31 is a multiple of 32,
    // so divisibility by 32 is unchanged.
    let shifted: u64 = (world_x as i64 + 2147483648) as u64;
    proof {
        vstd::arithmetic::div_mod::lemma_mod_multiples_vanish(
            67108864,
            world_x as int,
            32,
        );
    }
    shifted % 32 == 0
}

/// Generate the full tile content of one chunk.  The biome and the road
/// grid are functions of the chunk coordinate and the seed alone; the
/// remaining tiles are drawn at random from the biome's tile set.
pub fn generate_chunk(chunk_pos: ChunkPosition, seed: u64) -> (tiles: Vec<Tile>)
    requires
        chunk_coord_in_bounds(chunk_pos.0 as int),
        chunk_coord_in_bounds(chunk_pos.1 as int),
    ensures
        chunk_tiles_wf(tiles@, chunk_pos.0 as int, chunk_pos.1 as int, seed),
{
    let mut tiles: Vec<Tile> = Vec::new();
    let cx = chunk_pos.0;
    let cy = chunk_pos.1;
    let noise = sample_noise(cx, cy, seed);
    let biome = if noise > 500 {
        BiomeType::Summer
    } else {
        BiomeType::Winter
    };

    let mut local_y: i32 = 0;
    while local_y < CHUNK_SIZE
        invariant
            0 <= local_y <= 16,
            chunk_coord_in_bounds(cx as int),
            chunk_coord_in_bounds(cy as int),
            biome == chunk_biome(cx as int, cy as int, seed),
            tiles@.len() == local_y * 16,
            forall|i: int|
                0 <= i < tiles@.len() ==> {
                    let t = #[trigger] tiles@[i];
                    &&& t.position.0 == cx as int * 16 + i % 16
                    &&& t.position.1 == cy as int * 16 + i / 16
                    &&& t.biome == biome
                    &&& ((cx as int * 16 + i % 16) % 32 == 0 ==> t.tile_type == TileType::Road)
                    &&& ((cx as int * 16 + i % 16) % 32 != 0 ==> biome_tile_ok(biome, t.tile_type))
                },
        decreases 16 - local_y,
    {
        let mut local_x: i32 = 0;
        while local_x < CHUNK_SIZE
            invariant
                0 <= local_y < 16,
                0 <= local_x <= 16,
                chunk_coord_in_bounds(cx as int),
                chunk_coord_in_bounds(cy as int),
                biome == chunk_biome(cx as int, cy as int, seed),
                tiles@.len() == local_y * 16 + local_x,
                forall|i: int|
                    0 <= i < tiles@.len() ==> {
                        let t = #[trigger] tiles@[i];
                        &&& t.position.0 == cx as int * 16 + i % 16
                        &&& t.position.1 == cy as int * 16 + i / 16
                        &&& t.biome == biome
                        &&& ((cx as int * 16 + i % 16) % 32 == 0 ==> t.tile_type == TileType::Road)
                        &&& ((cx as int * 16 + i % 16) % 32 != 0 ==> biome_tile_ok(biome, t.tile_type))
                    },
            decreases 16 - local_x,
        {
            let world_x = cx * CHUNK_SIZE + local_x;
            let world_y = cy * CHUNK_SIZE + local_y;

            let tile_type = if is_road_column(world_x) {
                TileType::Road
            } else {
                let chance = random_fraction();
                tile_for_fraction(biome, chance)
            };

            proof {
                let i = local_y as int * 16 + local_x as int;
                lemma_fundamental_div_mod_converse(i, 16, local_y as int, local_x as int);
            }
            tiles.push(Tile { tile_type, position: (world_x, world_y), biome });

            local_x = local_x + 1;
        }
        local_y = local_y + 1;
    }
    tiles
}

} // verus!
