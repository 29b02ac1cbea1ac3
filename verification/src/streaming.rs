//! Chunk streaming: the stateful manager that keeps exactly the chunks in a
//! square window around the observer loaded, deciding each tick which chunks
//! to drop and which to generate.

use vstd::prelude::*;
use vstd::arithmetic::div_mod::{
    lemma_fundamental_div_mod, lemma_fundamental_div_mod_converse, lemma_mod_bound,
};
use crate::generate_map::{
    ChunkPosition, Tile, generate_chunk, chunk_tiles_wf, chunk_coord_in_bounds,
};

verus! {

/// Radius, in chunks, of the square window that must stay loaded.
pub const RENDER_DISTANCE: i32 = 2;

/// World size of one chunk: 16 tiles of 32 world units each.
pub const CHUNK_WORLD_UNITS: i64 = 512;

/// The chunk coordinate containing world position `p`: floor division by
/// the chunk world size (`int` division by a positive divisor rounds down).
pub open spec fn chunk_coord(p: int) -> int {
    p / 512
}

/// Whether chunk `c` lies in the loading window centered on the observer
/// chunk `(ocx, ocy)`.
pub open spec fn in_window(ocx: int, ocy: int, c: (int, int)) -> bool {
    &&& ocx - 2 <= c.0 <= ocx + 2
    &&& ocy - 2 <= c.1 <= ocy + 2
}

/// The loading window as a set: the 5 x 5 square of chunk coordinates
/// centered on the observer chunk.
pub open spec fn window_set(ocx: int, ocy: int) -> Set<(int, int)> {
    Set::new(|c: (int, int)| in_window(ocx, ocy, c))
}

/// The loading window as a row-major sequence (y outer, x inner), the
/// deterministic order in which missing chunks are loaded.
pub open spec fn window_seq(ocx: int, ocy: int) -> Seq<(int, int)> {
    Seq::new(25, |i: int| (ocx - 2 + i % 5, ocy - 2 + i / 5))
}

/// The keys of a sequence of loaded-chunk entries.
pub open spec fn entry_keys(es: Seq<((int, int), Option<u64>)>) -> Seq<(int, int)> {
    es.map_values(|e: ((int, int), Option<u64>)| e.0)
}

/// No two entries share a key.
pub open spec fn distinct_keys(es: Seq<((int, int), Option<u64>)>) -> bool {
    forall|i: int, j: int|
        0 <= i < j < es.len() ==> (#[trigger] es[i]).0 != (#[trigger] es[j]).0
}

/// The entries that survive a reconciliation: those whose key lies in the
/// window, in their stored order.
pub open spec fn kept_entries(
    es: Seq<((int, int), Option<u64>)>,
    ocx: int,
    ocy: int,
) -> Seq<((int, int), Option<u64>)>
    decreases es.len(),
{
    if es.len() == 0 {
        Seq::empty()
    } else {
        let rest = kept_entries(es.drop_last(), ocx, ocy);
        if in_window(ocx, ocy, es.last().0) {
            rest.push(es.last())
        } else {
            rest
        }
    }
}

/// The entries a reconciliation unloads: those whose key left the window,
/// in their stored order.
pub open spec fn evicted_entries(
    es: Seq<((int, int), Option<u64>)>,
    ocx: int,
    ocy: int,
) -> Seq<((int, int), Option<u64>)>
    decreases es.len(),
{
    if es.len() == 0 {
        Seq::empty()
    } else {
        let rest = evicted_entries(es.drop_last(), ocx, ocy);
        if in_window(ocx, ocy, es.last().0) {
            rest
        } else {
            rest.push(es.last())
        }
    }
}

/// The keys of `win` that `have` does not contain, in the order of `win`.
pub open spec fn missing_keys(win: Seq<(int, int)>, have: Seq<(int, int)>) -> Seq<(int, int)>
    decreases win.len(),
{
    if win.len() == 0 {
        Seq::empty()
    } else {
        let rest = missing_keys(win.drop_last(), have);
        if have.contains(win.last()) {
            rest
        } else {
            rest.push(win.last())
        }
    }
}

/// The chunks a reconciliation must load: the window keys not yet loaded,
/// in row-major window order.
pub open spec fn fresh_keys(
    es: Seq<((int, int), Option<u64>)>,
    ocx: int,
    ocy: int,
) -> Seq<(int, int)> {
    missing_keys(window_seq(ocx, ocy), entry_keys(es))
}

/// Table entries for freshly loaded chunks: each key paired with no handle
/// yet.
pub open spec fn blank_entries(cs: Seq<(int, int)>) -> Seq<((int, int), Option<u64>)>
    decreases cs.len(),
{
    if cs.len() == 0 {
        Seq::empty()
    } else {
        blank_entries(cs.drop_last()).push((cs.last(), Option::<u64>::None))
    }
}

/// `blank_entries` pairs each key with `None`, index by index.
pub proof fn lemma_blank_entries(cs: Seq<(int, int)>)
    ensures
        blank_entries(cs).len() == cs.len(),
        forall|k: int|
            0 <= k < cs.len() ==> #[trigger] blank_entries(cs)[k] == (cs[k], Option::<u64>::None),
    decreases cs.len(),
{
    if cs.len() > 0 {
        lemma_blank_entries(cs.drop_last());
        assert forall|k: int| 0 <= k < cs.len() implies #[trigger] blank_entries(cs)[k] == (
        cs[k],
        Option::<u64>::None,
        ) by {
            if k < cs.len() - 1 {
                assert(blank_entries(cs)[k] == blank_entries(cs.drop_last())[k]);
                assert(cs.drop_last()[k] == cs[k]);
            }
        };
    }
}

/// The table after recording handle `h` for chunk `c`: the entry with key
/// `c` (if any) now carries `Some(h)`; every other entry is unchanged.
pub open spec fn with_handle(
    es: Seq<((int, int), Option<u64>)>,
    c: (int, int),
    h: u64,
) -> Seq<((int, int), Option<u64>)>
    decreases es.len(),
{
    if es.len() == 0 {
        Seq::empty()
    } else {
        let rest = with_handle(es.drop_last(), c, h);
        if es.last().0 == c {
            rest.push((c, Option::Some(h)))
        } else {
            rest.push(es.last())
        }
    }
}

/// `with_handle` keeps every key in place and changes at most the handle
/// of the entry keyed `c`.
pub proof fn lemma_with_handle(es: Seq<((int, int), Option<u64>)>, c: (int, int), h: u64)
    ensures
        with_handle(es, c, h).len() == es.len(),
        forall|k: int|
            0 <= k < es.len() ==> {
                let e = #[trigger] with_handle(es, c, h)[k];
                &&& e.0 == es[k].0
                &&& (es[k].0 != c ==> e == es[k])
                &&& (es[k].0 == c ==> e == (c, Option::<u64>::Some(h)))
            },
    decreases es.len(),
{
    if es.len() > 0 {
        lemma_with_handle(es.drop_last(), c, h);
        assert forall|k: int| 0 <= k < es.len() implies {
            let e = #[trigger] with_handle(es, c, h)[k];
            &&& e.0 == es[k].0
            &&& (es[k].0 != c ==> e == es[k])
            &&& (es[k].0 == c ==> e == (c, Option::<u64>::Some(h)))
        } by {
            if k < es.len() - 1 {
                assert(with_handle(es, c, h)[k] == with_handle(es.drop_last(), c, h)[k]);
                assert(es.drop_last()[k] == es[k]);
            }
        };
    }
}

/// Every surviving entry is an entry of `es` whose key lies in the window,
/// every entry of `es` whose key lies in the window survives, and entries
/// with pairwise distinct keys keep them distinct.
pub proof fn lemma_kept_entries_props(es: Seq<((int, int), Option<u64>)>, ocx: int, ocy: int)
    ensures
        forall|k: int|
            0 <= k < kept_entries(es, ocx, ocy).len() ==> {
                let e = #[trigger] kept_entries(es, ocx, ocy)[k];
                in_window(ocx, ocy, e.0) && es.contains(e)
            },
        forall|j: int|
            0 <= j < es.len() && in_window(ocx, ocy, (#[trigger] es[j]).0) ==> kept_entries(
                es,
                ocx,
                ocy,
            ).contains(es[j]),
        distinct_keys(es) ==> distinct_keys(kept_entries(es, ocx, ocy)),
    decreases es.len(),
{
    if es.len() == 0 {
    } else {
        let dl = es.drop_last();
        let kept = kept_entries(es, ocx, ocy);
        let rest = kept_entries(dl, ocx, ocy);
        lemma_kept_entries_props(dl, ocx, ocy);
        assert forall|k: int| 0 <= k < kept.len() implies {
            let e = #[trigger] kept[k];
            in_window(ocx, ocy, e.0) && es.contains(e)
        } by {
            if k < rest.len() {
                assert(kept[k] == rest[k]);
                let w = choose|w: int| 0 <= w < dl.len() && dl[w] == rest[k];
                assert(es[w] == rest[k]);
            } else {
                assert(kept[k] == es.last());
                assert(es[es.len() - 1] == es.last());
            }
        };
        assert forall|j: int|
            0 <= j < es.len() && in_window(ocx, ocy, (#[trigger] es[j]).0) implies kept.contains(
            es[j],
        ) by {
            if j < es.len() - 1 {
                assert(dl[j] == es[j]);
                assert(rest.contains(es[j]));
                let w = choose|w: int| 0 <= w < rest.len() && rest[w] == es[j];
                assert(kept[w] == es[j]);
            } else {
                assert(kept[kept.len() - 1] == es[j]);
            }
        };
        if distinct_keys(es) {
            assert(distinct_keys(dl)) by {
                assert forall|i: int, j: int| 0 <= i < j < dl.len() implies (#[trigger] dl[i]).0
                    != (#[trigger] dl[j]).0 by {
                    assert(dl[i] == es[i] && dl[j] == es[j]);
                }
            };
            assert forall|i: int, j: int| 0 <= i < j < kept.len() implies (#[trigger] kept[i]).0
                != (#[trigger] kept[j]).0 by {
                if j < rest.len() {
                    assert(kept[i] == rest[i] && kept[j] == rest[j]);
                } else {
                    assert(kept[i] == rest[i]);
                    assert(kept[j] == es.last());
                    let w = choose|w: int| 0 <= w < dl.len() && dl[w] == rest[i];
                    assert(es[w] == rest[i]);
                    assert(es[w].0 != es[es.len() - 1].0);
                }
            };
        }
    }
}

/// The mirror of `lemma_kept_entries_props` for the entries that leave.
pub proof fn lemma_evicted_entries_props(es: Seq<((int, int), Option<u64>)>, ocx: int, ocy: int)
    ensures
        forall|k: int|
            0 <= k < evicted_entries(es, ocx, ocy).len() ==> {
                let e = #[trigger] evicted_entries(es, ocx, ocy)[k];
                !in_window(ocx, ocy, e.0) && es.contains(e)
            },
        forall|j: int|
            0 <= j < es.len() && !in_window(ocx, ocy, (#[trigger] es[j]).0) ==> evicted_entries(
                es,
                ocx,
                ocy,
            ).contains(es[j]),
        distinct_keys(es) ==> distinct_keys(evicted_entries(es, ocx, ocy)),
    decreases es.len(),
{
    if es.len() == 0 {
    } else {
        let dl = es.drop_last();
        let ev = evicted_entries(es, ocx, ocy);
        let rest = evicted_entries(dl, ocx, ocy);
        lemma_evicted_entries_props(dl, ocx, ocy);
        assert forall|k: int| 0 <= k < ev.len() implies {
            let e = #[trigger] ev[k];
            !in_window(ocx, ocy, e.0) && es.contains(e)
        } by {
            if k < rest.len() {
                assert(ev[k] == rest[k]);
                let w = choose|w: int| 0 <= w < dl.len() && dl[w] == rest[k];
                assert(es[w] == rest[k]);
            } else {
                assert(ev[k] == es.last());
                assert(es[es.len() - 1] == es.last());
            }
        };
        assert forall|j: int|
            0 <= j < es.len() && !in_window(ocx, ocy, (#[trigger] es[j]).0) implies ev.contains(
            es[j],
        ) by {
            if j < es.len() - 1 {
                assert(dl[j] == es[j]);
                assert(rest.contains(es[j]));
                let w = choose|w: int| 0 <= w < rest.len() && rest[w] == es[j];
                assert(ev[w] == es[j]);
            } else {
                assert(ev[ev.len() - 1] == es[j]);
            }
        };
        if distinct_keys(es) {
            assert(distinct_keys(dl)) by {
                assert forall|i: int, j: int| 0 <= i < j < dl.len() implies (#[trigger] dl[i]).0
                    != (#[trigger] dl[j]).0 by {
                    assert(dl[i] == es[i] && dl[j] == es[j]);
                }
            };
            assert forall|i: int, j: int| 0 <= i < j < ev.len() implies (#[trigger] ev[i]).0
                != (#[trigger] ev[j]).0 by {
                if j < rest.len() {
                    assert(ev[i] == rest[i] && ev[j] == rest[j]);
                } else {
                    assert(ev[i] == rest[i]);
                    assert(ev[j] == es.last());
                    let w = choose|w: int| 0 <= w < dl.len() && dl[w] == rest[i];
                    assert(es[w] == rest[i]);
                    assert(es[w].0 != es[es.len() - 1].0);
                }
            };
        }
    }
}

/// Every missing key is a window key that is not yet held, every window key
/// not yet held is missing, and distinct window keys stay distinct.
pub proof fn lemma_missing_keys_props(win: Seq<(int, int)>, have: Seq<(int, int)>)
    ensures
        forall|k: int|
            0 <= k < missing_keys(win, have).len() ==> {
                let c = #[trigger] missing_keys(win, have)[k];
                win.contains(c) && !have.contains(c)
            },
        forall|j: int|
            0 <= j < win.len() && !have.contains(#[trigger] win[j]) ==> missing_keys(
                win,
                have,
            ).contains(win[j]),
        (forall|i: int, j: int| 0 <= i < j < win.len() ==> win[i] != win[j]) ==> (forall|
            i: int,
            j: int,
        |
            0 <= i < j < missing_keys(win, have).len() ==> missing_keys(win, have)[i]
                != missing_keys(win, have)[j]),
    decreases win.len(),
{
    if win.len() == 0 {
    } else {
        let dl = win.drop_last();
        let mi = missing_keys(win, have);
        let rest = missing_keys(dl, have);
        lemma_missing_keys_props(dl, have);
        assert forall|k: int| 0 <= k < mi.len() implies {
            let c = #[trigger] mi[k];
            win.contains(c) && !have.contains(c)
        } by {
            if k < rest.len() {
                assert(mi[k] == rest[k]);
                let w = choose|w: int| 0 <= w < dl.len() && dl[w] == rest[k];
                assert(win[w] == rest[k]);
            } else {
                assert(mi[k] == win.last());
                assert(win[win.len() - 1] == win.last());
            }
        };
        assert forall|j: int|
            0 <= j < win.len() && !have.contains(#[trigger] win[j]) implies mi.contains(
            win[j],
        ) by {
            if j < win.len() - 1 {
                assert(dl[j] == win[j]);
                assert(rest.contains(win[j]));
                let w = choose|w: int| 0 <= w < rest.len() && rest[w] == win[j];
                assert(mi[w] == win[j]);
            } else {
                assert(mi[mi.len() - 1] == win[j]);
            }
        };
        if forall|i: int, j: int| 0 <= i < j < win.len() ==> win[i] != win[j] {
            assert(forall|i: int, j: int| 0 <= i < j < dl.len() ==> dl[i] != dl[j]) by {
                assert forall|i: int, j: int| 0 <= i < j < dl.len() implies dl[i] != dl[j] by {
                    assert(dl[i] == win[i] && dl[j] == win[j]);
                }
            };
            assert forall|i: int, j: int| 0 <= i < j < mi.len() implies mi[i] != mi[j] by {
                if j < rest.len() {
                    assert(mi[i] == rest[i] && mi[j] == rest[j]);
                } else {
                    assert(mi[i] == rest[i]);
                    assert(mi[j] == win.last());
                    let w = choose|w: int| 0 <= w < dl.len() && dl[w] == rest[i];
                    assert(win[w] == rest[i]);
                    assert(win[w] != win[win.len() - 1]);
                }
            };
        }
    }
}

/// The window sequence enumerates exactly the window set, without repeats.
pub proof fn lemma_window_seq_props(ocx: int, ocy: int)
    ensures
        forall|i: int|
            0 <= i < 25 ==> in_window(ocx, ocy, #[trigger] window_seq(ocx, ocy)[i]),
        forall|c: (int, int)| in_window(ocx, ocy, c) ==> window_seq(ocx, ocy).contains(c),
        forall|i: int, j: int|
            0 <= i < j < 25 ==> window_seq(ocx, ocy)[i] != window_seq(ocx, ocy)[j],
{
    let win = window_seq(ocx, ocy);
    assert forall|i: int| 0 <= i < 25 implies in_window(ocx, ocy, #[trigger] win[i]) by {
        lemma_fundamental_div_mod(i, 5);
        lemma_mod_bound(i, 5);
    };
    assert forall|c: (int, int)| in_window(ocx, ocy, c) implies win.contains(c) by {
        let dx = c.0 - ocx + 2;
        let dy = c.1 - ocy + 2;
        let i = dy * 5 + dx;
        lemma_fundamental_div_mod_converse(i, 5, dy, dx);
        assert(win[i] == c);
    };
    assert forall|i: int, j: int| 0 <= i < j < 25 implies win[i] != win[j] by {
        lemma_fundamental_div_mod(i, 5);
        lemma_mod_bound(i, 5);
        lemma_fundamental_div_mod(j, 5);
        lemma_mod_bound(j, 5);
    };
}

/// Compute the chunk coordinate containing world position `p`.
pub fn world_to_chunk(p: i64) -> (c: i64)
    ensures
        c == chunk_coord(p as int),
{
    if p >= 0 {
        let q: u64 = (p as u64) / (CHUNK_WORLD_UNITS as u64);
        q as i64
    } else {
        let n_pos: i64 = -(p + 1);
        let n: u64 = n_pos as u64;
        let q: u64 = n / (CHUNK_WORLD_UNITS as u64);
        proof {
            lemma_fundamental_div_mod(n as int, 512);
            lemma_mod_bound(n as int, 512);
            lemma_fundamental_div_mod_converse(
                p as int,
                512,
                -(n as int / 512) - 1,
                511 - (n as int % 512),
            );
        }
        -(q as i64) - 1
    }
}

/// Whether chunk `c` lies within the window centered on chunk `(ocx, ocy)`.
fn chunk_in_window(ocx: i32, ocy: i32, c: ChunkPosition) -> (r: bool)
    ensures
        r == in_window(ocx as int, ocy as int, c.coords()),
{
    let r: i64 = RENDER_DISTANCE as i64;
    let dx: i64 = c.0 as i64 - ocx as i64;
    let dy: i64 = c.1 as i64 - ocy as i64;
    -r <= dx && dx <= r && -r <= dy && dy <= r
}

/// One entry of the loaded-chunk table, as contracts see it: the chunk key
/// and the handle of its externally materialized representation, once the
/// caller has supplied one.
pub open spec fn entry_view(e: (ChunkPosition, Option<u64>)) -> ((int, int), Option<u64>) {
    (e.0.coords(), e.1)
}

/// A vector of loaded-chunk entries, as contracts see it.
pub open spec fn entries_view(v: Seq<(ChunkPosition, Option<u64>)>) -> Seq<
    ((int, int), Option<u64>),
> {
    v.map_values(|e: (ChunkPosition, Option<u64>)| entry_view(e))
}

/// The tiles of one freshly generated chunk, ready to be materialized by
/// the rendering side.
pub struct LoadedChunk {
    pub pos: ChunkPosition,
    pub tiles: Vec<Tile>,
}

/// The chunk keys of a sequence of freshly generated chunks.
pub open spec fn load_keys(ls: Seq<LoadedChunk>) -> Seq<(int, int)> {
    ls.map_values(|lc: LoadedChunk| lc.pos.coords())
}

/// The tile guarantees of one freshly generated chunk.
#[verifier::opaque]
pub open spec fn loaded_chunk_wf(lc: LoadedChunk, seed: u64) -> bool {
    chunk_tiles_wf(lc.tiles@, lc.pos.0 as int, lc.pos.1 as int, seed)
}

/// What one reconciliation decided: the entries that were dropped (with
/// the handles to release) and the chunks that were generated (whose
/// handles the caller reports back with [`MapState::set_handle`]).
pub struct ReconcileReport {
    pub to_unload: Vec<(ChunkPosition, Option<u64>)>,
    pub to_load: Vec<LoadedChunk>,
}

/// The chunk-streaming manager: the set of currently loaded chunks, keyed
/// by chunk coordinate, plus the immutable world seed.
pub struct MapState {
    loaded_chunks: Vec<(ChunkPosition, Option<u64>)>,
    seed: u64,
}

impl MapState {
    /// The loaded-chunk table as a sequence of entries.
    pub closed spec fn entries(self) -> Seq<((int, int), Option<u64>)> {
        entries_view(self.loaded_chunks@)
    }

    /// The set of loaded chunk coordinates.
    pub open spec fn keys(self) -> Set<(int, int)> {
        Set::new(|c: (int, int)| entry_keys(self.entries()).contains(c))
    }

    /// The world seed, fixed at creation.
    pub closed spec fn seed_val(self) -> u64 {
        self.seed
    }

    /// No chunk is loaded twice.
    pub open spec fn wf(self) -> bool {
        distinct_keys(self.entries())
    }

    /// A fresh manager with nothing loaded.
    pub fn new(seed: u64) -> (m: MapState)
        ensures
            m.wf(),
            m.entries() == Seq::<((int, int), Option<u64>)>::empty(),
            m.seed_val() == seed,
    {
        let m = MapState { loaded_chunks: Vec::new(), seed };
        proof {
            assert(m.entries() =~= Seq::<((int, int), Option<u64>)>::empty());
        }
        m
    }

    pub fn seed(&self) -> (s: u64)
        ensures
            s == self.seed_val(),
    {
        self.seed
    }

    /// How many chunks are loaded.
    pub fn len(&self) -> (n: usize)
        ensures
            n == self.entries().len(),
    {
        self.loaded_chunks.len()
    }

    /// Whether the chunk at `pos` is currently loaded.
    pub fn is_loaded(&self, pos: ChunkPosition) -> (r: bool)
        ensures
            r == self.keys().contains(pos.coords()),
    {
        let mut i: usize = 0;
        while i < self.loaded_chunks.len()
            invariant
                0 <= i <= self.loaded_chunks.len(),
                forall|j: int| 0 <= j < i ==> (#[trigger] self.entries()[j]).0 != pos.coords(),
            decreases self.loaded_chunks.len() - i,
        {
            if self.loaded_chunks[i].0 == pos {
                proof {
                    assert(entry_keys(self.entries())[i as int] == pos.coords());
                }
                return true;
            }
            i = i + 1;
        }
        proof {
            assert forall|k: int|
                0 <= k < entry_keys(self.entries()).len() implies #[trigger] entry_keys(
                self.entries(),
            )[k] != pos.coords() by {
                assert(self.entries()[k].0 != pos.coords());
            };
        }
        false
    }

    /// After a reconciliation installs the surviving entries followed by the
    /// freshly generated ones, the table is well formed and its key set is
    /// exactly the window.
    proof fn lemma_reconcile_final(
        &self,
        es0: Seq<((int, int), Option<u64>)>,
        ocx: int,
        ocy: int,
        gkept: Seq<(ChunkPosition, Option<u64>)>,
        gfresh: Seq<(ChunkPosition, Option<u64>)>,
    )
        requires
            distinct_keys(es0),
            entries_view(gkept) == kept_entries(es0, ocx, ocy),
            entries_view(gfresh) == blank_entries(fresh_keys(es0, ocx, ocy)),
            self.loaded_chunks@ == gkept + gfresh,
        ensures
            self.wf(),
            self.entries() == kept_entries(es0, ocx, ocy) + blank_entries(
                fresh_keys(es0, ocx, ocy),
            ),
            self.keys() == window_set(ocx, ocy),
    {
        let keptv = kept_entries(es0, ocx, ocy);
        let freshk = fresh_keys(es0, ocx, ocy);
        let freshv = blank_entries(freshk);
        lemma_blank_entries(freshk);
        let es = self.entries();
        let kl = keptv.len() as int;
        let win = window_seq(ocx, ocy);

        assert(es =~= entries_view(gkept) + entries_view(gfresh));
        assert(es == keptv + freshv);

        lemma_kept_entries_props(es0, ocx, ocy);
        lemma_missing_keys_props(win, entry_keys(es0));
        lemma_window_seq_props(ocx, ocy);

        assert forall|a: int, b: int| 0 <= a < b < es.len() implies (#[trigger] es[a]).0
            != (#[trigger] es[b]).0 by {
            if b < kl {
                assert(es[a] == keptv[a] && es[b] == keptv[b]);
            } else if a >= kl {
                assert(es[a].0 == freshk[a - kl] && es[b].0 == freshk[b - kl]);
            } else {
                let e = keptv[a];
                assert(es0.contains(e));
                let wi = choose|wi: int| 0 <= wi < es0.len() && es0[wi] == e;
                assert(entry_keys(es0)[wi] == e.0);
                assert(entry_keys(es0).contains(e.0));
                assert(es[b].0 == freshk[b - kl]);
                assert(!entry_keys(es0).contains(freshk[b - kl]));
            }
        };
        assert(self.wf());

        assert forall|c: (int, int)| entry_keys(es).contains(c) implies in_window(
            ocx,
            ocy,
            c,
        ) by {
            let k = choose|k: int| 0 <= k < entry_keys(es).len() && entry_keys(es)[k] == c;
            assert(es[k].0 == c);
            if k < kl {
                assert(keptv[k] == es[k]);
            } else {
                assert(c == freshk[k - kl]);
                assert(win.contains(c));
                let wi = choose|wi: int| 0 <= wi < win.len() && win[wi] == c;
                assert(in_window(ocx, ocy, win[wi]));
            }
        };
        assert forall|c: (int, int)| in_window(ocx, ocy, c) implies entry_keys(es).contains(
            c,
        ) by {
            assert(win.contains(c));
            let wi = choose|wi: int| 0 <= wi < win.len() && win[wi] == c;
            if entry_keys(es0).contains(c) {
                let j = choose|j: int| 0 <= j < entry_keys(es0).len() && entry_keys(es0)[j] == c;
                assert(es0[j].0 == c);
                assert(keptv.contains(es0[j]));
                let k = choose|k: int| 0 <= k < keptv.len() && keptv[k] == es0[j];
                assert(entry_keys(es)[k] == c);
            } else {
                assert(freshk.contains(c));
                let m = choose|m: int| 0 <= m < freshk.len() && freshk[m] == c;
                assert(es[kl + m].0 == freshk[m]);
                assert(entry_keys(es)[kl + m] == c);
            }
        };
        assert(self.keys() =~= window_set(ocx, ocy));
    }

    /// One tick of chunk streaming.  Recomputes the 5 x 5 window around the
    /// observer's chunk, drops every loaded chunk outside it (returning the
    /// entries so the caller can release their handles), and generates every
    /// window chunk not yet loaded, in row-major window order.  Afterwards
    /// the loaded key set is exactly the window.
    #[verifier::rlimit(100)]
    pub fn reconcile(&mut self, observer_x: i64, observer_y: i64) -> (report: ReconcileReport)
        requires
            old(self).wf(),
            chunk_coord_in_bounds(chunk_coord(observer_x as int) - 2),
            chunk_coord_in_bounds(chunk_coord(observer_x as int) + 2),
            chunk_coord_in_bounds(chunk_coord(observer_y as int) - 2),
            chunk_coord_in_bounds(chunk_coord(observer_y as int) + 2),
        ensures
            final(self).wf(),
            final(self).seed_val() == old(self).seed_val(),
            ({
                let ocx = chunk_coord(observer_x as int);
                let ocy = chunk_coord(observer_y as int);
                let es = old(self).entries();
                &&& entries_view(report.to_unload@) == evicted_entries(es, ocx, ocy)
                &&& load_keys(report.to_load@) == fresh_keys(es, ocx, ocy)
                &&& (forall|i: int|
                    0 <= i < report.to_load@.len() ==> {
                        let lc = #[trigger] report.to_load@[i];
                        chunk_tiles_wf(
                            lc.tiles@,
                            lc.pos.0 as int,
                            lc.pos.1 as int,
                            old(self).seed_val(),
                        )
                    })
                &&& final(self).entries() == kept_entries(es, ocx, ocy) + blank_entries(
                    fresh_keys(es, ocx, ocy),
                )
                &&& final(self).keys() == window_set(ocx, ocy)
            }),
    {
        let ghost es0 = self.entries();
        let wx = world_to_chunk(observer_x);
        let wy = world_to_chunk(observer_y);
        let ocx: i32 = wx as i32;
        let ocy: i32 = wy as i32;
        let ghost ocxi = ocx as int;
        let ghost ocyi = ocy as int;
        proof {
            assert(ocxi == chunk_coord(observer_x as int));
            assert(ocyi == chunk_coord(observer_y as int));
        }

        // Partition the loaded entries into those that stay and those that go.
        let mut kept: Vec<(ChunkPosition, Option<u64>)> = Vec::new();
        let mut evicted: Vec<(ChunkPosition, Option<u64>)> = Vec::new();
        let n = self.loaded_chunks.len();
        let mut i: usize = 0;
        while i < n
            invariant
                self.entries() == es0,
                n == self.loaded_chunks.len(),
                0 <= i <= n,
                ocxi == ocx as int,
                ocyi == ocy as int,
                entries_view(kept@) == kept_entries(es0.take(i as int), ocxi, ocyi),
                entries_view(evicted@) == evicted_entries(es0.take(i as int), ocxi, ocyi),
            decreases n - i,
        {
            let e = self.loaded_chunks[i];
            proof {
                assert(es0.take(i as int + 1).drop_last() =~= es0.take(i as int));
                assert(es0.take(i as int + 1).last() == es0[i as int]);
                assert(entry_view(e) == es0[i as int]);
            }
            if chunk_in_window(ocx, ocy, e.0) {
                kept.push(e);
                proof {
                    assert(entries_view(kept@) =~= kept_entries(
                        es0.take(i as int + 1),
                        ocxi,
                        ocyi,
                    ));
                    assert(entries_view(evicted@) =~= evicted_entries(
                        es0.take(i as int + 1),
                        ocxi,
                        ocyi,
                    ));
                }
            } else {
                evicted.push(e);
                proof {
                    assert(entries_view(kept@) =~= kept_entries(
                        es0.take(i as int + 1),
                        ocxi,
                        ocyi,
                    ));
                    assert(entries_view(evicted@) =~= evicted_entries(
                        es0.take(i as int + 1),
                        ocxi,
                        ocyi,
                    ));
                }
            }
            i = i + 1;
        }
        proof {
            assert(es0.take(n as int) =~= es0);
        }

        // The window chunks in row-major order (y outer, x inner).
        let mut window: Vec<ChunkPosition> = Vec::new();
        let mut dy: i32 = 0;
        while dy < 5
            invariant
                0 <= dy <= 5,
                ocxi == ocx as int,
                ocyi == ocy as int,
                chunk_coord_in_bounds(ocxi - 2),
                chunk_coord_in_bounds(ocxi + 2),
                chunk_coord_in_bounds(ocyi - 2),
                chunk_coord_in_bounds(ocyi + 2),
                window@.len() == dy * 5,
                forall|k: int|
                    0 <= k < window@.len() ==> (#[trigger] window@[k]).coords() == window_seq(
                        ocxi,
                        ocyi,
                    )[k],
            decreases 5 - dy,
        {
            let mut dx: i32 = 0;
            while dx < 5
                invariant
                    0 <= dy < 5,
                    0 <= dx <= 5,
                    chunk_coord_in_bounds(ocxi - 2),
                    chunk_coord_in_bounds(ocxi + 2),
                    chunk_coord_in_bounds(ocyi - 2),
                    chunk_coord_in_bounds(ocyi + 2),
                    ocxi == ocx as int,
                    ocyi == ocy as int,
                    window@.len() == dy * 5 + dx,
                    forall|k: int|
                        0 <= k < window@.len() ==> (#[trigger] window@[k]).coords() == window_seq(
                            ocxi,
                            ocyi,
                        )[k],
                decreases 5 - dx,
            {
                let c = ChunkPosition(ocx - 2 + dx, ocy - 2 + dy);
                proof {
                    let k = dy as int * 5 + dx as int;
                    lemma_fundamental_div_mod_converse(k, 5, dy as int, dx as int);
                    assert(window_seq(ocxi, ocyi)[k] == (ocxi - 2 + dx as int, ocyi - 2
                        + dy as int));
                }
                window.push(c);
                dx = dx + 1;
            }
            dy = dy + 1;
        }

        // Generate every window chunk that is not yet loaded.
        let seed = self.seed;
        let mut to_load: Vec<LoadedChunk> = Vec::new();
        let mut fresh: Vec<(ChunkPosition, Option<u64>)> = Vec::new();
        let mut w: usize = 0;
        while w < window.len()
            invariant
                self.entries() == es0,
                seed == self.seed_val(),
                ocxi == ocx as int,
                ocyi == ocy as int,
                chunk_coord_in_bounds(ocxi - 2),
                chunk_coord_in_bounds(ocxi + 2),
                chunk_coord_in_bounds(ocyi - 2),
                chunk_coord_in_bounds(ocyi + 2),
                window@.len() == 25,
                0 <= w <= 25,
                forall|k: int|
                    0 <= k < 25 ==> (#[trigger] window@[k]).coords() == window_seq(ocxi, ocyi)[k],
                load_keys(to_load@) == missing_keys(
                    window_seq(ocxi, ocyi).take(w as int),
                    entry_keys(es0),
                ),
                entries_view(fresh@) == blank_entries(
                    missing_keys(window_seq(ocxi, ocyi).take(w as int), entry_keys(es0)),
                ),
                forall|t: int|
                    0 <= t < to_load@.len() ==> loaded_chunk_wf(#[trigger] to_load@[t], seed),
            decreases window.len() - w,
        {
            let c = window[w];
            let ghost wseq = window_seq(ocxi, ocyi);
            proof {
                assert(wseq.take(w as int + 1).drop_last() =~= wseq.take(w as int));
                assert(wseq.take(w as int + 1).last() == wseq[w as int]);
                assert(c.coords() == wseq[w as int]);
                lemma_mod_bound(w as int, 5);
                lemma_fundamental_div_mod(w as int, 5);
            }
            let ghost fresh0 = fresh@;
            let ghost tl0 = to_load@;
            let loaded = self.is_loaded(c);
            if !loaded {
                let tiles = generate_chunk(c, seed);
                to_load.push(LoadedChunk { pos: c, tiles });
                fresh.push((c, None));
                proof {
                    assert(loaded_chunk_wf(to_load@.last(), seed)) by {
                        reveal(loaded_chunk_wf);
                    };
                }
            }
            proof {
                let miss0 = missing_keys(wseq.take(w as int), entry_keys(es0));
                let miss1 = missing_keys(wseq.take(w as int + 1), entry_keys(es0));
                lemma_blank_entries(miss0);
                lemma_blank_entries(miss1);
                if !loaded {
                    assert(entries_view(fresh@) =~= entries_view(fresh0).push(
                        (c.coords(), Option::<u64>::None),
                    ));
                    assert(load_keys(to_load@) =~= load_keys(tl0).push(c.coords()));
                    assert(miss1 =~= miss0.push(c.coords()));
                }
                assert(load_keys(to_load@) =~= miss1);
                assert(entries_view(fresh@) =~= blank_entries(miss1));
            }
            w = w + 1;
        }
        proof {
            assert(window_seq(ocxi, ocyi).take(25) =~= window_seq(ocxi, ocyi));
            assert forall|t: int| 0 <= t < to_load@.len() implies {
                let lc = #[trigger] to_load@[t];
                chunk_tiles_wf(lc.tiles@, lc.pos.0 as int, lc.pos.1 as int, seed)
            } by {
                reveal(loaded_chunk_wf);
            };
        }

        // Install the new table: survivors first, then the fresh chunks.
        let ghost gkept = kept@;
        let mut new_loaded = kept;
        let mut fi: usize = 0;
        while fi < fresh.len()
            invariant
                0 <= fi <= fresh.len(),
                new_loaded@ == gkept + fresh@.take(fi as int),
            decreases fresh.len() - fi,
        {
            let e = fresh[fi];
            new_loaded.push(e);
            proof {
                assert(gkept + fresh@.take(fi as int) =~= new_loaded@.drop_last());
                assert(new_loaded@ =~= gkept + fresh@.take(fi as int + 1));
            }
            fi = fi + 1;
        }
        proof {
            assert(fresh@.take(fresh@.len() as int) =~= fresh@);
        }
        self.loaded_chunks = new_loaded;

        let report = ReconcileReport { to_unload: evicted, to_load };
        proof {
            self.lemma_reconcile_final(es0, ocxi, ocyi, gkept, fresh@);
        }
        report
    }

    /// Record the handle the rendering side returned for a freshly loaded
    /// chunk.  Returns whether the chunk was in the table; when it is not
    /// (it was unloaded in the meantime), nothing changes.
    pub fn set_handle(&mut self, pos: ChunkPosition, handle: u64) -> (updated: bool)
        ensures
            final(self).seed_val() == old(self).seed_val(),
            final(self).entries() == with_handle(old(self).entries(), pos.coords(), handle),
            old(self).wf() ==> final(self).wf(),
            updated == old(self).keys().contains(pos.coords()),
    {
        let ghost es0 = self.entries();
        let ghost cc = pos.coords();
        let mut updated = false;
        let mut out: Vec<(ChunkPosition, Option<u64>)> = Vec::new();
        let n = self.loaded_chunks.len();
        let mut i: usize = 0;
        while i < n
            invariant
                n == self.loaded_chunks.len(),
                self.entries() == es0,
                cc == pos.coords(),
                0 <= i <= n,
                entries_view(out@) == with_handle(es0.take(i as int), cc, handle),
                updated == entry_keys(es0.take(i as int)).contains(cc),
            decreases n - i,
        {
            let e = self.loaded_chunks[i];
            proof {
                assert(es0.take(i as int + 1).drop_last() =~= es0.take(i as int));
                assert(es0.take(i as int + 1).last() == es0[i as int]);
                assert(entry_view(e) == es0[i as int]);
            }
            let ghost out0 = out@;
            if e.0 == pos {
                out.push((e.0, Some(handle)));
                updated = true;
                proof {
                    assert(entry_keys(es0.take(i as int + 1))[i as int] == cc);
                }
            } else {
                out.push(e);
            }
            proof {
                assert(entries_view(out@) =~= entries_view(out0).push(entry_view(out@.last())));
                assert(entries_view(out@) =~= with_handle(es0.take(i as int + 1), cc, handle));
                if e.0 != pos {
                    if entry_keys(es0.take(i as int + 1)).contains(cc) {
                        let j = choose|j: int|
                            0 <= j < i + 1 && #[trigger] entry_keys(es0.take(i as int + 1))[j]
                                == cc;
                        assert(es0.take(i as int + 1)[j].0 == cc);
                        assert(j < i);
                        assert(entry_keys(es0.take(i as int))[j] == cc);
                    }
                    if entry_keys(es0.take(i as int)).contains(cc) {
                        let j = choose|j: int|
                            0 <= j < i && #[trigger] entry_keys(es0.take(i as int))[j] == cc;
                        assert(entry_keys(es0.take(i as int + 1))[j] == cc);
                    }
                }
            }
            i = i + 1;
        }
        proof {
            assert(es0.take(n as int) =~= es0);
        }
        self.loaded_chunks = out;
        proof {
            if old(self).wf() {
                lemma_with_handle(es0, cc, handle);
                assert(distinct_keys(self.entries())) by {
                    assert forall|a: int, b: int|
                        0 <= a < b < self.entries().len() implies (#[trigger] self.entries()[a]).0
                        != (#[trigger] self.entries()[b]).0 by {
                        assert(self.entries()[a].0 == es0[a].0);
                        assert(self.entries()[b].0 == es0[b].0);
                    };
                };
            }
        }
        updated
    }
}

/// Once every loaded key lies in the window, a second pass keeps every
/// entry and evicts nothing.
proof fn lemma_kept_all_in_window(es: Seq<((int, int), Option<u64>)>, ocx: int, ocy: int)
    requires
        forall|j: int| 0 <= j < es.len() ==> in_window(ocx, ocy, (#[trigger] es[j]).0),
    ensures
        kept_entries(es, ocx, ocy) == es,
        evicted_entries(es, ocx, ocy) == Seq::<((int, int), Option<u64>)>::empty(),
    decreases es.len(),
{
    if es.len() > 0 {
        let dl = es.drop_last();
        assert forall|j: int| 0 <= j < dl.len() implies in_window(
            ocx,
            ocy,
            (#[trigger] dl[j]).0,
        ) by {
            assert(dl[j] == es[j]);
        };
        lemma_kept_all_in_window(dl, ocx, ocy);
        assert(es[es.len() - 1] == es.last());
        assert(kept_entries(es, ocx, ocy) =~= es);
    }
}

/// A window whose every key is already held produces nothing to load.
proof fn lemma_missing_none(win: Seq<(int, int)>, have: Seq<(int, int)>)
    requires
        forall|j: int| 0 <= j < win.len() ==> have.contains(#[trigger] win[j]),
    ensures
        missing_keys(win, have) == Seq::<(int, int)>::empty(),
    decreases win.len(),
{
    if win.len() > 0 {
        let dl = win.drop_last();
        assert forall|j: int| 0 <= j < dl.len() implies have.contains(#[trigger] dl[j]) by {
            assert(dl[j] == win[j]);
        };
        lemma_missing_none(dl, have);
        assert(win[win.len() - 1] == win.last());
    }
}

/// Reconciliation is idempotent.  Once the loaded key set equals the
/// window — as it does after any completed `reconcile` — a second pass for
/// the same observer chunk keeps every entry, evicts nothing and loads
/// nothing.
pub proof fn lemma_reconcile_idempotent(m: MapState, ocx: int, ocy: int)
    requires
        m.keys() == window_set(ocx, ocy),
    ensures
        kept_entries(m.entries(), ocx, ocy) == m.entries(),
        evicted_entries(m.entries(), ocx, ocy) == Seq::<((int, int), Option<u64>)>::empty(),
        fresh_keys(m.entries(), ocx, ocy) == Seq::<(int, int)>::empty(),
{
    let es = m.entries();
    let win = window_seq(ocx, ocy);
    assert forall|c: (int, int)|
        #[trigger] entry_keys(es).contains(c) <==> in_window(ocx, ocy, c) by {
        assert(m.keys().contains(c) == entry_keys(es).contains(c));
        assert(window_set(ocx, ocy).contains(c) == in_window(ocx, ocy, c));
        assert(m.keys().contains(c) == window_set(ocx, ocy).contains(c));
    };
    assert forall|j: int| 0 <= j < es.len() implies in_window(ocx, ocy, (#[trigger] es[j]).0) by {
        assert(entry_keys(es)[j] == es[j].0);
        assert(entry_keys(es).contains(es[j].0));
    };
    lemma_kept_all_in_window(es, ocx, ocy);
    lemma_window_seq_props(ocx, ocy);
    assert forall|j: int| 0 <= j < win.len() implies entry_keys(es).contains(#[trigger] win[j]) by {
        assert(in_window(ocx, ocy, win[j]));
    };
    lemma_missing_none(win, entry_keys(es));
}

} // verus!