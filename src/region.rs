use vstd::prelude::*;

verus! {

/// Side length of a region's chunk grid.
pub const REGION_DIMENSION: usize = 32;

/// Number of chunk slots in a region.
pub const REGION_SIZE: usize = 1024;

/// What a chunk slot holds, seen from outside: the chunk's timestamp and payload,
/// or nothing.
pub type SlotView = Option<(u32, Seq<u8>)>;

/// One chunk of a region: its place in the 32x32 grid, its modification time and
/// its opaque serialized data.
pub struct Chunk {
    pub local_x: usize,
    pub local_z: usize,
    pub timestamp: u32,
    pub payload: Vec<u8>,
    /// The compression tag the payload was stored with, where the source format has one.
    pub source_compression: Option<u8>,
}

impl View for Chunk {
    type V = (u32, Seq<u8>);

    open spec fn view(&self) -> (u32, Seq<u8>) {
        (self.timestamp, self.payload@)
    }
}

/// The row-major grid index of a local position.
pub open spec fn slot_of(local_x: int, local_z: int) -> int {
    local_z * 32 + local_x
}

/// A payload that a slot can hold: not empty (an empty payload means no chunk)
/// and with a length that fits a 32-bit field.
pub open spec fn payload_ok(p: Seq<u8>) -> bool {
    0 < p.len() <= u32::MAX
}

impl Chunk {
    pub open spec fn slot(&self) -> int {
        slot_of(self.local_x as int, self.local_z as int)
    }

    /// Coordinates inside the grid and a payload that a slot can hold.
    pub open spec fn wf(&self) -> bool {
        self.local_x < 32 && self.local_z < 32 && payload_ok(self.payload@)
    }

    /// A chunk read from a source that tagged its payload with `source_compression`.
    pub fn new(
        local_x: usize,
        local_z: usize,
        timestamp: u32,
        payload: Vec<u8>,
        source_compression: Option<u8>,
    ) -> (r: Chunk)
        ensures
            r.local_x == local_x,
            r.local_z == local_z,
            r.timestamp == timestamp,
            r.payload == payload,
            r.source_compression == source_compression,
    {
        Chunk { local_x, local_z, timestamp, payload, source_compression }
    }

    /// The chunk's serialized data, uninterpreted.
    pub fn as_nbt(&self) -> (r: &Vec<u8>)
        ensures
            r@ == self.payload@,
    {
        &self.payload
    }

    /// A chunk made from serialized data, with no source compression recorded.
    pub fn from_nbt(local_x: usize, local_z: usize, timestamp: u32, nbt: Vec<u8>) -> (r: Chunk)
        ensures
            r.local_x == local_x,
            r.local_z == local_z,
            r.timestamp == timestamp,
            r.payload == nbt,
            r.source_compression is None,
    {
        Chunk { local_x, local_z, timestamp, payload: nbt, source_compression: None }
    }
}

/// A region: its coordinates, a timestamp and a 1024-slot grid of chunks in
/// row-major order (`local_z` outer, `local_x` inner).
pub struct Region {
    pub region_x: i32,
    pub region_z: i32,
    pub last_modified: u64,
    pub slots: Vec<Option<Chunk>>,
}

/// Slot `s` of a grid holds a chunk placed at `s`, with a payload a slot can hold.
pub open spec fn slot_ok(slots: Seq<Option<Chunk>>, s: int) -> bool {
    match slots[s] {
        Some(c) => c.wf() && c.slot() == s,
        None => true,
    }
}

/// A full grid whose every chunk stands at its own position.
pub open spec fn grid_wf(slots: Seq<Option<Chunk>>) -> bool {
    &&& slots.len() == REGION_SIZE
    &&& forall|s: int| 0 <= s < REGION_SIZE ==> #[trigger] slot_ok(slots, s)
}

/// What a grid holds, slot by slot.
pub open spec fn grid_view(slots: Seq<Option<Chunk>>) -> Seq<SlotView> {
    slots.map_values(
        |o: Option<Chunk>|
            match o {
                Some(c) => Some(c@),
                None => None,
            },
    )
}

/// Number of occupied slots among the first `n`.
pub open spec fn count_occupied(g: Seq<SlotView>, n: int) -> nat
    decreases n,
{
    if n <= 0 {
        0
    } else {
        count_occupied(g, n - 1) + if g[n - 1] is Some {
            1nat
        } else {
            0nat
        }
    }
}

/// Chunks that a region can be made of: each in the grid, with a payload a slot
/// can hold, and no two at one position.
pub open spec fn chunks_placeable(cs: Seq<Chunk>) -> bool {
    &&& forall|k: int| 0 <= k < cs.len() ==> #[trigger] cs[k].wf()
    &&& forall|k1: int, k2: int|
        0 <= k1 < cs.len() && 0 <= k2 < cs.len() && k1 != k2 ==> #[trigger] cs[k1].slot()
            != #[trigger] cs[k2].slot()
}

proof fn lemma_count_bound(g: Seq<SlotView>, n: int)
    requires
        0 <= n,
    ensures
        count_occupied(g, n) <= n,
    decreases n,
{
    if n > 0 {
        lemma_count_bound(g, n - 1);
    }
}

/// The newest timestamp among the chunks of the first `n` slots (0 where there
/// are none).
pub open spec fn newest_upto(g: Seq<SlotView>, n: int) -> u32
    decreases n,
{
    if n <= 0 {
        0
    } else {
        let rest = newest_upto(g, n - 1);
        match g[n - 1] {
            Some((ts, p)) => if ts > rest {
                ts
            } else {
                rest
            },
            None => rest,
        }
    }
}

/// In a well-formed grid no two chunks share a position.
pub proof fn lemma_slots_unique(slots: Seq<Option<Chunk>>, s1: int, s2: int)
    requires
        grid_wf(slots),
        0 <= s1 < REGION_SIZE,
        0 <= s2 < REGION_SIZE,
        s1 != s2,
        slots[s1] is Some,
        slots[s2] is Some,
    ensures
        (slots[s1]->Some_0.local_x, slots[s1]->Some_0.local_z) != (
            slots[s2]->Some_0.local_x,
            slots[s2]->Some_0.local_z,
        ),
{
    assert(slot_ok(slots, s1));
    assert(slot_ok(slots, s2));
}

impl Region {
    pub open spec fn wf(&self) -> bool {
        grid_wf(self.slots@)
    }

    /// What the region holds, slot by slot.
    pub open spec fn grid(&self) -> Seq<SlotView> {
        grid_view(self.slots@)
    }

    /// A region with no chunks.
    pub fn empty(region_x: i32, region_z: i32, last_modified: u64) -> (r: Region)
        ensures
            r.wf(),
            r.region_x == region_x,
            r.region_z == region_z,
            r.last_modified == last_modified,
            forall|s: int| 0 <= s < REGION_SIZE ==> #[trigger] r.slots@[s] is None,
    {
        let mut slots: Vec<Option<Chunk>> = Vec::new();
        while slots.len() < REGION_SIZE
            invariant
                slots@.len() <= REGION_SIZE,
                forall|s: int| 0 <= s < slots@.len() ==> #[trigger] slots@[s] is None,
            decreases REGION_SIZE - slots@.len(),
        {
            slots.push(None);
        }
        let r = Region { region_x, region_z, last_modified, slots };
        assert forall|s: int| 0 <= s < REGION_SIZE implies #[trigger] slot_ok(r.slots@, s) by {}
        r
    }

    /// Places `chunks` in a new region's grid. Refused (`None`) where a chunk lies
    /// outside the grid, has an empty or oversized payload, or shares its position
    /// with another.
    pub fn new(chunks: Vec<Chunk>, region_x: i32, region_z: i32, last_modified: u64) -> (r: Option<
        Region,
    >)
        ensures
            r is Some <==> chunks_placeable(chunks@),
            r matches Some(reg) ==> {
                &&& reg.wf()
                &&& reg.region_x == region_x
                &&& reg.region_z == region_z
                &&& reg.last_modified == last_modified
                &&& forall|k: int|
                    0 <= k < chunks@.len() ==> reg.slots@[#[trigger] chunks@[k].slot()] == Some(
                        chunks@[k],
                    )
                &&& forall|s: int|
                    0 <= s < REGION_SIZE && reg.slots@[s] is Some ==> exists|k: int|
                        0 <= k < chunks@.len() && #[trigger] chunks@[k].slot() == s
            },
    {
        let ghost orig = chunks@;
        let mut rest = chunks;
        let mut region = Region::empty(region_x, region_z, last_modified);
        while rest.len() > 0
            invariant
                rest@ == orig.take(rest@.len() as int),
                rest@.len() <= orig.len(),
                orig == chunks@,
                region.wf(),
                region.region_x == region_x,
                region.region_z == region_z,
                region.last_modified == last_modified,
                forall|k: int| rest@.len() <= k < orig.len() ==> #[trigger] orig[k].wf(),
                forall|k: int|
                    rest@.len() <= k < orig.len() ==> region.slots@[#[trigger] orig[k].slot()]
                        == Some(orig[k]),
                forall|s: int|
                    0 <= s < REGION_SIZE && region.slots@[s] is Some ==> exists|k: int|
                        rest@.len() <= k < orig.len() && #[trigger] orig[k].slot() == s,
                forall|k1: int, k2: int|
                    rest@.len() <= k1 < orig.len() && rest@.len() <= k2 < orig.len() && k1
                        != k2 ==> #[trigger] orig[k1].slot() != #[trigger] orig[k2].slot(),
            decreases rest@.len(),
        {
            let ghost n = rest@.len() - 1;
            let c = rest.pop().unwrap();
            assert(rest@ == orig.take(n));
            assert(c == orig[n]);
            if c.local_x >= REGION_DIMENSION || c.local_z >= REGION_DIMENSION || c.payload.len() == 0
                || c.payload.len() > u32::MAX as usize {
                assert(!orig[n].wf());
                return None;
            }
            let s = c.local_z * REGION_DIMENSION + c.local_x;
            if region.slots[s].is_some() {
                let ghost k = choose|k: int| n < k < orig.len() && #[trigger] orig[k].slot() == s;
                assert(orig[k].slot() == orig[n].slot());
                return None;
            }
            let ghost prev = region.slots@;
            region.slots.set(s, Some(c));
            assert forall|k: int| n <= k < orig.len() implies region.slots@[#[trigger] orig[k].slot()]
                == Some(orig[k]) by {
                if k != n {
                    assert(orig[k].wf());
                    assert(prev[orig[k].slot()] is Some);
                }
            }
            assert forall|t: int|
                0 <= t < REGION_SIZE && region.slots@[t] is Some implies exists|k: int|
                    n <= k < orig.len() && #[trigger] orig[k].slot() == t by {
                if t == s {
                    assert(orig[n].slot() == t);
                } else {
                    assert(prev[t] is Some);
                }
            }
            assert forall|k1: int, k2: int|
                n <= k1 < orig.len() && n <= k2 < orig.len() && k1 != k2 implies #[trigger] orig[k1].slot()
                    != #[trigger] orig[k2].slot() by {
                if k1 == n {
                    assert(orig[k2].wf());
                    assert(prev[orig[k2].slot()] is Some);
                } else if k2 == n {
                    assert(orig[k1].wf());
                    assert(prev[orig[k1].slot()] is Some);
                }
            }
            assert forall|t: int| 0 <= t < REGION_SIZE implies #[trigger] slot_ok(
                region.slots@,
                t,
            ) by {
                if t != s {
                    assert(slot_ok(prev, t));
                }
            }
        }
        assert(rest@.len() == 0);
        assert forall|s: int|
            0 <= s < REGION_SIZE && region.slots@[s] is Some implies exists|k: int|
                0 <= k < chunks@.len() && #[trigger] chunks@[k].slot() == s by {
            let k = choose|k: int| 0 <= k < orig.len() && #[trigger] orig[k].slot() == s;
        }
        Some(region)
    }

    /// Number of occupied slots.
    pub fn chunk_count(&self) -> (r: u32)
        requires
            self.wf(),
        ensures
            r == count_occupied(self.grid(), REGION_SIZE as int),
    {
        let mut n: u32 = 0;
        let mut i: usize = 0;
        while i < REGION_SIZE
            invariant
                self.wf(),
                i <= REGION_SIZE,
                n == count_occupied(self.grid(), i as int),
            decreases REGION_SIZE - i,
        {
            proof {
                lemma_count_bound(self.grid(), i as int);
            }
            if self.slots[i].is_some() {
                n = n + 1;
            }
            i = i + 1;
        }
        n
    }

    /// The newest chunk timestamp, 0 for a region without chunks.
    pub fn newest_timestamp(&self) -> (r: u32)
        requires
            self.wf(),
        ensures
            r == newest_upto(self.grid(), REGION_SIZE as int),
    {
        let mut newest: u32 = 0;
        let mut i: usize = 0;
        while i < REGION_SIZE
            invariant
                self.wf(),
                i <= REGION_SIZE,
                newest == newest_upto(self.grid(), i as int),
            decreases REGION_SIZE - i,
        {
            match &self.slots[i] {
                Some(c) => {
                    if c.timestamp > newest {
                        newest = c.timestamp;
                    }
                },
                None => {},
            }
            i = i + 1;
        }
        newest
    }

    /// The chunk at a grid position, if one is there.
    pub fn chunk_at(&self, local_x: usize, local_z: usize) -> (r: Option<&Chunk>)
        requires
            self.wf(),
            local_x < 32,
            local_z < 32,
        ensures
            match self.slots@[slot_of(local_x as int, local_z as int)] {
                Some(c) => r == Some(&c),
                None => r is None,
            },
    {
        self.slots[local_z * REGION_DIMENSION + local_x].as_ref()
    }
}

} // verus!
