use vstd::prelude::*;
use std::collections::HashMap;
use vstd::std_specs::iter::IteratorSpec;
use guillotiere::AtlasAllocator;
use crate::atlas::{
    atlas_allocation, fresh_atlas, lemma_packed_prefix, packed, packs,
    atlas_allocate, atlas_allocations, atlas_deallocate, atlas_extent, atlas_node_count, atlas_size,
    new_atlas, node_room, rects_disjoint,
};

verus! {

broadcast use vstd::std_specs::hash::group_hash_axioms;

/// Side length the atlas starts at.
pub const DEFAULT_ATLAS_SIZE: i32 = 1024;

/// Maximum side length of the atlas.
pub const MAX_ATLAS_SIZE: i32 = 8192;

/// Resident images unused for more than this many resolve passes may be evicted.
pub const EVICT_AFTER_GENERATIONS: u64 = 2;

/// What the cache reads of an image: the id of its pixel data and its size.
#[derive(Debug, Copy, Clone, PartialEq, Eq, Structural)]
pub struct AtlasImage {
    /// Identifies the image's pixel data.
    pub id: u64,
    pub width: u32,
    pub height: u32,
}

/// An image that holds a place in the atlas.
#[derive(Debug, Copy, Clone, PartialEq, Eq, Structural)]
pub struct ResidentImage {
    pub image: AtlasImage,
    /// The serialized id of the image's allocation in the atlas.
    pub alloc_id: u32,
    pub x: u32,
    pub y: u32,
    /// Whether the pixels must be uploaded again before they are sampled.
    pub dirty: bool,
    pub last_used_generation: u64,
}

/// What a resolve pass hands the renderer.
pub struct Images<'a> {
    /// Width of the image atlas texture.
    pub width: u32,
    /// Height of the image atlas texture.
    pub height: u32,
    /// Number of resident images evicted during the current resolve pass.
    pub evicted: usize,
    /// Images that must be uploaded in the current resolve pass, with atlas locations.
    pub images: &'a [(AtlasImage, u32, u32)],
}

impl<'a> Default for Images<'a> {
    fn default() -> (r: Self)
        ensures
            r.width == 0,
            r.height == 0,
            r.evicted == 0,
            r.images@.len() == 0,
    {
        Images { width: 0, height: 0, evicted: 0, images: &[] }
    }
}

/// The abstract state of an [`ImageCache`].
pub ghost struct ImageCacheView {
    /// The resident images, by image id.
    pub residents: Map<u64, ResidentImage>,
    /// The images to upload in this resolve pass, with their atlas locations.
    pub uploads: Seq<(AtlasImage, u32, u32)>,
    /// The size of the atlas.
    pub extent: (int, int),
    /// The rectangles allocated in the atlas, by allocation id.
    pub allocations: Map<u32, (i32, i32, i32, i32)>,
    /// The node slots the atlas allocator holds.
    pub atlas_nodes: nat,
    /// A bound on `atlas_nodes` that the cache keeps as it works.
    pub node_bound: int,
    /// The atlas allocator itself.
    pub atlas: AtlasAllocator,
    pub generation: u64,
    pub evicted: usize,
    pub initial_size: int,
    pub max_size: int,
}

/// Whether every queued upload is a resident image used in this pass, at
/// the place the resident holds now: the places the renderer records are
/// the places it will sample.
pub open spec fn uploads_match_residents(v: ImageCacheView) -> bool {
    forall|i: int|
        0 <= i < v.uploads.len() ==> {
            let u = #[trigger] v.uploads[i];
            &&& v.residents.contains_key(u.0.id)
            &&& v.residents[u.0.id].image == u.0
            &&& v.residents[u.0.id].x == u.1
            &&& v.residents[u.0.id].y == u.2
            &&& v.residents[u.0.id].last_used_generation == v.generation
        }
}

/// Whether the atlas rectangle `rect` is exactly where `r` sits.
pub open spec fn occupies(rect: (i32, i32, i32, i32), r: ResidentImage) -> bool {
    &&& rect.0 == r.x
    &&& rect.1 == r.y
    &&& rect.2 == r.image.width
    &&& rect.3 == r.image.height
}

/// Whether a resident image lies inside an atlas of `extent`.
pub open spec fn lies_inside(r: ResidentImage, extent: (int, int)) -> bool {
    &&& r.x + r.image.width <= extent.0
    &&& r.y + r.image.height <= extent.1
}

/// Whether two resident images do not overlap.
pub open spec fn images_disjoint(a: ResidentImage, b: ResidentImage) -> bool {
    ||| a.x + a.image.width <= b.x
    ||| b.x + b.image.width <= a.x
    ||| a.y + a.image.height <= b.y
    ||| b.y + b.image.height <= a.y
}

/// The bond between residents and atlas: every resident, of positive size,
/// occupies its own allocation inside the atlas; no two residents overlap;
/// and the atlas holds nothing else.
pub open spec fn placement(
    residents: Map<u64, ResidentImage>,
    allocations: Map<u32, (i32, i32, i32, i32)>,
    extent: (int, int),
) -> bool {
    &&& forall|k: u64| #[trigger]
        residents.contains_key(k) ==> {
            &&& residents[k].image.id == k
            &&& allocations.contains_key(residents[k].alloc_id)
            &&& occupies(allocations[residents[k].alloc_id], residents[k])
            &&& lies_inside(residents[k], extent)
            &&& 0 < residents[k].image.width
            &&& 0 < residents[k].image.height
        }
    &&& forall|k1: u64, k2: u64|
        #![trigger residents[k1], residents[k2]]
        residents.contains_key(k1) && residents.contains_key(k2) && k1 != k2 ==> {
            &&& residents[k1].alloc_id != residents[k2].alloc_id
            &&& images_disjoint(residents[k1], residents[k2])
        }
    &&& forall|a: u32| #[trigger]
        allocations.contains_key(a) ==> exists|k: u64|
            #[trigger] residents.contains_key(k) && residents[k].alloc_id == a
}

/// The node bound after one more placement: four more slots, unless that
/// would pass `u64::MAX`, in which case the bound, far above any node count
/// that leaves room for a placement, stays.
pub open spec fn bound_after_placement(bound: int) -> int {
    if bound <= u64::MAX - 4 { bound + 4 } else { bound }
}

/// `generation + 1`, wrapping to zero.
pub open spec fn next_generation(generation: u64) -> u64 {
    if generation == u64::MAX { 0 } else { (generation + 1) as u64 }
}

/// `generation - 1`, wrapping to `u64::MAX`.
pub open spec fn previous_generation(generation: u64) -> u64 {
    if generation == 0 { u64::MAX } else { (generation - 1) as u64 }
}

/// `r`, marked as used in `generation`.
pub open spec fn touched(r: ResidentImage, generation: u64) -> ResidentImage {
    ResidentImage { last_used_generation: generation, ..r }
}

/// `r` with its `dirty` flag set to `dirty`.
pub open spec fn with_dirty(r: ResidentImage, dirty: bool) -> ResidentImage {
    ResidentImage { dirty, ..r }
}

/// Whether the two maps hold the same images at the same places.
pub open spec fn same_placement(a: Map<u64, ResidentImage>, b: Map<u64, ResidentImage>) -> bool {
    &&& a.dom() == b.dom()
    &&& forall|k: u64| #[trigger]
        a.contains_key(k) ==> {
            &&& b[k].image == a[k].image
            &&& b[k].alloc_id == a[k].alloc_id
            &&& b[k].x == a[k].x
            &&& b[k].y == a[k].y
        }
}

/// Changing nothing but the flags and generations of residents keeps their placement.
proof fn lemma_placement_kept(
    a: Map<u64, ResidentImage>,
    b: Map<u64, ResidentImage>,
    allocations: Map<u32, (i32, i32, i32, i32)>,
    extent: (int, int),
)
    requires
        placement(a, allocations, extent),
        same_placement(a, b),
    ensures
        placement(b, allocations, extent),
{
    assert forall|k: u64| #[trigger] b.contains_key(k) implies {
        &&& b[k].image.id == k
        &&& allocations.contains_key(b[k].alloc_id)
        &&& occupies(allocations[b[k].alloc_id], b[k])
        &&& lies_inside(b[k], extent)
    } by {
        assert(a.contains_key(k));
    }
    assert forall|k1: u64, k2: u64|
        b.contains_key(k1) && b.contains_key(k2) && k1 != k2 implies #[trigger] b[k1].alloc_id
        != #[trigger] b[k2].alloc_id by {
        assert(a.contains_key(k1) && a.contains_key(k2));
    }
    assert forall|al: u32| #[trigger] allocations.contains_key(al) implies exists|k: u64|
        #[trigger] b.contains_key(k) && b[k].alloc_id == al by {
        let k = choose|k: u64| #[trigger] a.contains_key(k) && a[k].alloc_id == al;
        assert(b.contains_key(k));
    }
}

/// Placing a new image in a fresh allocation that overlaps no other keeps the
/// bond between residents and atlas.
proof fn lemma_placement_insert(
    residents: Map<u64, ResidentImage>,
    allocations: Map<u32, (i32, i32, i32, i32)>,
    extent: (int, int),
    r: ResidentImage,
    rect: (i32, i32, i32, i32),
)
    requires
        placement(residents, allocations, extent),
        !residents.contains_key(r.image.id),
        !allocations.contains_key(r.alloc_id),
        occupies(rect, r),
        lies_inside(r, extent),
        0 < r.image.width,
        0 < r.image.height,
        forall|a: u32| #[trigger] allocations.contains_key(a) ==> rects_disjoint(rect, allocations[a]),
    ensures
        placement(residents.insert(r.image.id, r), allocations.insert(r.alloc_id, rect), extent),
{
    let res2 = residents.insert(r.image.id, r);
    let all2 = allocations.insert(r.alloc_id, rect);
    assert forall|k: u64| #[trigger] res2.contains_key(k) implies {
        &&& res2[k].image.id == k
        &&& all2.contains_key(res2[k].alloc_id)
        &&& occupies(all2[res2[k].alloc_id], res2[k])
        &&& lies_inside(res2[k], extent)
        &&& 0 < res2[k].image.width
        &&& 0 < res2[k].image.height
    } by {
        if k != r.image.id {
            assert(residents.contains_key(k));
        }
    }
    assert forall|k1: u64, k2: u64|
        res2.contains_key(k1) && res2.contains_key(k2) && k1 != k2 implies {
        &&& #[trigger] res2[k1].alloc_id != #[trigger] res2[k2].alloc_id
        &&& images_disjoint(res2[k1], res2[k2])
    } by {
        if k1 != r.image.id {
            assert(residents.contains_key(k1));
        }
        if k2 != r.image.id {
            assert(residents.contains_key(k2));
        }
        if k1 == r.image.id {
            assert(allocations.contains_key(residents[k2].alloc_id));
            assert(rects_disjoint(rect, allocations[residents[k2].alloc_id]));
        }
        if k2 == r.image.id {
            assert(allocations.contains_key(residents[k1].alloc_id));
            assert(rects_disjoint(rect, allocations[residents[k1].alloc_id]));
        }
    }
    assert forall|al: u32| #[trigger] all2.contains_key(al) implies exists|k: u64|
        #[trigger] res2.contains_key(k) && res2[k].alloc_id == al by {
        if al == r.alloc_id {
            assert(res2.contains_key(r.image.id));
        } else {
            let k = choose|k: u64| #[trigger] residents.contains_key(k) && residents[k].alloc_id == al;
            assert(res2.contains_key(k));
        }
    }
}

/// A sequence without duplicates that holds exactly the elements of a set
/// is as long as the set.
proof fn lemma_ids_len(ids: Seq<u64>, set: Set<u64>)
    requires
        (forall|a: int, b: int| 0 <= a < b < ids.len() ==> ids[a] < ids[b]) || ids.no_duplicates(),
        forall|k: u64| #[trigger] ids.contains(k) <==> set.contains(k),
    ensures
        ids.len() == set.len(),
        ids.no_duplicates(),
{
    if !ids.no_duplicates() {
        assert forall|a: int, b: int| 0 <= a < ids.len() && 0 <= b < ids.len() && a != b implies ids[a]
            != ids[b] by {
            if a < b {
            } else {
            }
        }
    }
    ids.unique_seq_to_set();
    assert(ids.to_set() =~= set);
}

/// How a `u32` side becomes the `i32` that the atlas is asked for.
proof fn lemma_side_as_i32(w: u32)
    by (bit_vector)
    ensures
        w <= 0x7fff_ffff ==> w as i32 == w,
        w > 0x7fff_ffff ==> (w as i32) < 0,
{
}

/// A resident after its pass has finished: uploaded if it was used in `generation`.
pub open spec fn finished(r: ResidentImage, generation: u64) -> ResidentImage {
    if r.last_used_generation == generation { with_dirty(r, false) } else { r }
}

/// A resident after its pass restarts: unused again if it was used in `generation`.
pub open spec fn rewound(r: ResidentImage, generation: u64) -> ResidentImage {
    if r.last_used_generation == generation {
        touched(r, previous_generation(generation))
    } else {
        r
    }
}

proof fn lemma_take_one_more(ids: Seq<u64>, i: int)
    requires
        0 <= i < ids.len(),
    ensures
        forall|x: u64| #[trigger] ids.take(i + 1).contains(x) <==> (ids.take(i).contains(x) || x == ids[i]),
{
    assert forall|x: u64| #[trigger] ids.take(i + 1).contains(x) <==> (ids.take(i).contains(x) || x == ids[i]) by {
        if ids.take(i + 1).contains(x) {
            let j = choose|j: int| 0 <= j < i + 1 && #[trigger] ids.take(i + 1)[j] == x;
            if j < i {
                assert(ids.take(i)[j] == x);
            }
        }
        if ids.take(i).contains(x) {
            let j = choose|j: int| 0 <= j < i && #[trigger] ids.take(i)[j] == x;
            assert(ids.take(i + 1)[j] == x);
        }
        if x == ids[i] {
            assert(ids.take(i + 1)[i] == x);
        }
    }
}

proof fn lemma_take_all(ids: Seq<u64>)
    ensures
        ids.take(ids.len() as int) == ids,
{
    assert(ids.take(ids.len() as int) =~= ids);
}

/// The ids of the residents last used before `stale_before`.
pub open spec fn stale_ids(residents: Map<u64, ResidentImage>, stale_before: u64) -> Set<u64> {
    residents.dom().filter(|k: u64| residents[k].last_used_generation < stale_before)
}

/// Taking a resident out together with its allocation keeps the bond between residents and atlas.
proof fn lemma_placement_remove(
    residents: Map<u64, ResidentImage>,
    allocations: Map<u32, (i32, i32, i32, i32)>,
    extent: (int, int),
    k: u64,
)
    requires
        placement(residents, allocations, extent),
        residents.contains_key(k),
    ensures
        placement(residents.remove(k), allocations.remove(residents[k].alloc_id), extent),
{
    let res2 = residents.remove(k);
    let all2 = allocations.remove(residents[k].alloc_id);
    assert forall|j: u64| #[trigger] res2.contains_key(j) implies {
        &&& res2[j].image.id == j
        &&& all2.contains_key(res2[j].alloc_id)
        &&& occupies(all2[res2[j].alloc_id], res2[j])
        &&& lies_inside(res2[j], extent)
    } by {
        assert(residents.contains_key(j));
        assert(residents[j].alloc_id != residents[k].alloc_id);
    }
    assert forall|k1: u64, k2: u64|
        res2.contains_key(k1) && res2.contains_key(k2) && k1 != k2 implies #[trigger] res2[k1].alloc_id
        != #[trigger] res2[k2].alloc_id by {
        assert(residents.contains_key(k1) && residents.contains_key(k2));
    }
    assert forall|al: u32| #[trigger] all2.contains_key(al) implies exists|j: u64|
        #[trigger] res2.contains_key(j) && res2[j].alloc_id == al by {
        let j = choose|j: u64| #[trigger] residents.contains_key(j) && residents[j].alloc_id == al;
        assert(j != k);
        assert(res2.contains_key(j));
    }
}

/// Whether `b` holds the images of `a`, each moved to a fresh place and
/// marked for upload, with nothing else about it changed.
pub open spec fn relocated(a: Map<u64, ResidentImage>, b: Map<u64, ResidentImage>) -> bool {
    &&& a.dom() == b.dom()
    &&& forall|k: u64| #[trigger]
        a.contains_key(k) ==> b[k] == (ResidentImage {
            alloc_id: b[k].alloc_id,
            x: b[k].x,
            y: b[k].y,
            dirty: true,
            ..a[k]
        })
}

/// One growth step: the shorter side doubles (the width, when they are equal).
pub open spec fn grow_step(extent: (int, int)) -> (int, int) {
    if extent.0 <= extent.1 {
        (extent.0 * 2, extent.1)
    } else {
        (extent.0, extent.1 * 2)
    }
}

/// The extent after `steps` growth steps.
pub open spec fn grown_extent(extent: (int, int), steps: nat) -> (int, int)
    decreases steps,
{
    if steps == 0 {
        extent
    } else {
        grow_step(grown_extent(extent, (steps - 1) as nat))
    }
}

/// The growth law: each growth step doubles the shorter side and keeps the
/// longer one (on a tie the width doubles).
pub proof fn lemma_growth_doubles_the_shorter_side(extent: (int, int), steps: nat)
    ensures
        ({
            let e = grown_extent(extent, steps);
            let next = grown_extent(extent, steps + 1);
            &&& e.0 <= e.1 ==> next.0 == 2 * e.0 && next.1 == e.1
            &&& e.1 < e.0 ==> next.1 == 2 * e.1 && next.0 == e.0
        }),
{
    assert(grown_extent(extent, steps + 1) == grow_step(grown_extent(extent, steps)));
}

/// Growth never makes a side smaller, and keeps both sides positive.
proof fn lemma_grown_monotone(extent: (int, int), a: nat, b: nat)
    requires
        0 < extent.0,
        0 < extent.1,
        a <= b,
    ensures
        grown_extent(extent, a).0 <= grown_extent(extent, b).0,
        grown_extent(extent, a).1 <= grown_extent(extent, b).1,
        0 < grown_extent(extent, b).0,
        0 < grown_extent(extent, b).1,
    decreases b,
{
    if b > 0 {
        if a == b {
            lemma_grown_monotone(extent, 0, (b - 1) as nat);
        } else {
            lemma_grown_monotone(extent, a, (b - 1) as nat);
        }
    }
}

/// One shrink step: the longer side halves (the width, when they are equal).
pub open spec fn shrink_step(extent: (int, int)) -> (int, int) {
    if extent.0 >= extent.1 {
        (extent.0 / 2, extent.1)
    } else {
        (extent.0, extent.1 / 2)
    }
}

/// The extent after `steps` shrink steps.
pub open spec fn shrunk_extent(extent: (int, int), steps: nat) -> (int, int)
    decreases steps,
{
    if steps == 0 {
        extent
    } else {
        shrink_step(shrunk_extent(extent, (steps - 1) as nat))
    }
}

/// The shrink law: each shrink step halves the longer side, rounding down,
/// and keeps the shorter one (on a tie the width halves).
pub proof fn lemma_shrinking_halves_the_longer_side(extent: (int, int), steps: nat)
    ensures
        ({
            let e = shrunk_extent(extent, steps);
            let next = shrunk_extent(extent, steps + 1);
            &&& e.0 >= e.1 ==> next.0 == e.0 / 2 && next.1 == e.1
            &&& e.1 > e.0 ==> next.1 == e.1 / 2 && next.0 == e.0
        }),
{
    assert(shrunk_extent(extent, steps + 1) == shrink_step(shrunk_extent(extent, steps)));
}

/// Whether neither side of `extent` passes `max_size`.
pub open spec fn fits_max(extent: (int, int), max_size: int) -> bool {
    extent.0 <= max_size && extent.1 <= max_size
}

/// Whether some resident is wider or taller than `extent`.
pub open spec fn some_resident_exceeds(residents: Map<u64, ResidentImage>, extent: (int, int)) -> bool {
    exists|k: u64| #[trigger]
        residents.contains_key(k) && (residents[k].image.width > extent.0
            || residents[k].image.height > extent.1)
}

/// The extent that repeated shrink steps settle at: shrinking goes on while
/// the next step keeps both sides at least `floor` and every resident still
/// fits inside it.
pub open spec fn settled_extent(extent: (int, int), floor: int, residents: Map<u64, ResidentImage>) -> (int, int)
    decreases extent.0 + extent.1,
{
    let next = shrink_step(extent);
    if 0 < floor && 0 < extent.0 && 0 < extent.1 && next.0 >= floor && next.1 >= floor
        && !some_resident_exceeds(residents, next) {
        settled_extent(next, floor, residents)
    } else {
        extent
    }
}

/// Whether the ids increase along `s`.
pub open spec fn increasing(s: Seq<u64>) -> bool {
    forall|a: int, b: int| 0 <= a < b < s.len() ==> s[a] < s[b]
}

/// The ids of the residents in increasing order.
pub open spec fn ids_in_order(residents: Map<u64, ResidentImage>) -> Seq<u64> {
    choose|s: Seq<u64>|
        increasing(s) && forall|k: u64| #[trigger] s.contains(k) <==> residents.contains_key(k)
}

/// The sizes of the residents with the ids `ids`, in that order, as the atlas is asked for them.
pub open spec fn resident_sizes(residents: Map<u64, ResidentImage>, ids: Seq<u64>) -> Seq<(i32, i32)> {
    Seq::new(
        ids.len(),
        |i: int| (residents[ids[i]].image.width as i32, residents[ids[i]].image.height as i32),
    )
}

/// Whether `order` lists each resident's id exactly once.
pub open spec fn lists_residents(order: Seq<u64>, residents: Map<u64, ResidentImage>) -> bool {
    &&& order.no_duplicates()
    &&& forall|k: u64| #[trigger] order.contains(k) <==> residents.contains_key(k)
}

/// Whether a fresh atlas of `extent` places every resident in some listing of them.
pub open spec fn packs_in_some_order(residents: Map<u64, ResidentImage>, extent: (int, int)) -> bool {
    exists|order: Seq<u64>|
        lists_residents(order, residents) && #[trigger] packs(
            (extent.0 as i32, extent.1 as i32),
            resident_sizes(residents, order),
        )
}

/// Whether a fresh atlas of `extent` refuses some resident in some listing of them.
pub open spec fn fails_in_some_order(residents: Map<u64, ResidentImage>, extent: (int, int)) -> bool {
    exists|order: Seq<u64>|
        lists_residents(order, residents) && !#[trigger] packs(
            (extent.0 as i32, extent.1 as i32),
            resident_sizes(residents, order),
        )
}

/// Whether the search for a smaller atlas, starting from `v`'s extent, may
/// stop after `steps` shrink steps: each extent it passed keeps both sides at
/// least the initial size and holds the residents in the order it tried them,
/// and the next extent does neither.
pub open spec fn shrink_stops_at(v: ImageCacheView, steps: nat) -> bool {
    &&& forall|j: nat|
        1 <= j <= steps ==> {
            let e = #[trigger] shrunk_extent(v.extent, j);
            &&& e.0 >= v.initial_size
            &&& e.1 >= v.initial_size
            &&& packs_in_some_order(v.residents, e)
        }
    &&& ({
        let next = shrunk_extent(v.extent, steps + 1);
        ||| next.0 < v.initial_size
        ||| next.1 < v.initial_size
        ||| fails_in_some_order(v.residents, next)
    })
}

/// Whether a fresh atlas of `extent` places every resident, in increasing order of id.
pub open spec fn packs_in_id_order(residents: Map<u64, ResidentImage>, extent: (int, int)) -> bool {
    packs((extent.0 as i32, extent.1 as i32), resident_sizes(residents, ids_in_order(residents)))
}

/// Two increasing sequences with the same elements are the same sequence.
proof fn lemma_increasing_unique(s1: Seq<u64>, s2: Seq<u64>)
    requires
        increasing(s1),
        increasing(s2),
        forall|k: u64| #![trigger s1.contains(k)] #![trigger s2.contains(k)] s1.contains(k) <==> s2.contains(k),
    ensures
        s1 == s2,
    decreases s1.len(),
{
    if s1.len() == 0 {
        if s2.len() > 0 {
            assert(s2.contains(s2[0]));
            assert(s1.contains(s2[0]));
        }
        assert(s1 =~= s2);
    } else {
        assert(s1.contains(s1[0]));
        assert(s2.contains(s1[0]));
        assert(s2.contains(s2[0]));
        assert(s1.contains(s2[0]));
        let j = choose|j: int| 0 <= j < s2.len() && s2[j] == s1[0];
        let i = choose|i: int| 0 <= i < s1.len() && s1[i] == s2[0];
        assert(s1[0] == s2[0]) by {
            if j > 0 {
                assert(s2[0] < s2[j]);
            }
            if i > 0 {
                assert(s1[0] < s1[i]);
            }
        }
        let t1 = s1.drop_first();
        let t2 = s2.drop_first();
        assert forall|k: u64| #![trigger t1.contains(k)] #![trigger t2.contains(k)] t1.contains(k) <==> t2.contains(k) by {
            if t1.contains(k) {
                let a = choose|a: int| 0 <= a < t1.len() && t1[a] == k;
                assert(s1[a + 1] == k);
                assert(s1[0] < s1[a + 1]);
                assert(s1.contains(k));
                assert(s2.contains(k));
                let b = choose|b: int| 0 <= b < s2.len() && s2[b] == k;
                assert(b != 0);
                assert(t2[b - 1] == k);
            }
            if t2.contains(k) {
                let a = choose|a: int| 0 <= a < t2.len() && t2[a] == k;
                assert(s2[a + 1] == k);
                assert(s2[0] < s2[a + 1]);
                assert(s2.contains(k));
                assert(s1.contains(k));
                let b = choose|b: int| 0 <= b < s1.len() && s1[b] == k;
                assert(b != 0);
                assert(t1[b - 1] == k);
            }
        }
        lemma_increasing_unique(t1, t2);
        assert(s1 =~= s2) by {
            assert forall|a: int| 0 <= a < s1.len() implies s1[a] == s2[a] by {
                if a > 0 {
                    assert(s1[a] == t1[a - 1]);
                    assert(s2[a] == t2[a - 1]);
                }
            }
        }
    }
}

/// An increasing sequence of exactly the residents' ids is `ids_in_order`.
proof fn lemma_ids_in_order(residents: Map<u64, ResidentImage>, s: Seq<u64>)
    requires
        increasing(s),
        forall|k: u64| #[trigger] s.contains(k) <==> residents.contains_key(k),
    ensures
        ids_in_order(residents) == s,
{
    let t = ids_in_order(residents);
    assert(increasing(t) && forall|k: u64| #[trigger] t.contains(k) <==> residents.contains_key(k));
    assert forall|k: u64| #![trigger s.contains(k)] #![trigger t.contains(k)] s.contains(k) <==> t.contains(k) by {
        assert(s.contains(k) <==> residents.contains_key(k));
        assert(t.contains(k) <==> residents.contains_key(k));
    }
    lemma_increasing_unique(s, t);
}

/// `ids` in increasing order.
fn sorted_ids(ids: &Vec<u64>) -> (r: Vec<u64>)
    requires
        ids@.no_duplicates(),
    ensures
        forall|a: int, b: int| 0 <= a < b < r@.len() ==> r@[a] < r@[b],
        forall|k: u64| #[trigger] r@.contains(k) <==> ids@.contains(k),
{
    let mut sorted: Vec<u64> = Vec::new();
    let mut i: usize = 0;
    while i < ids.len()
        invariant
            ids@.no_duplicates(),
            0 <= i <= ids.len(),
            forall|a: int, b: int| 0 <= a < b < sorted@.len() ==> sorted@[a] < sorted@[b],
            forall|k: u64| #[trigger] sorted@.contains(k) <==> ids@.take(i as int).contains(k),
        decreases ids.len() - i,
    {
        let id = ids[i];
        proof {
            lemma_take_one_more(ids@, i as int);
            assert(!ids@.take(i as int).contains(id));
        }
        let mut j: usize = 0;
        while j < sorted.len() && sorted[j] < id
            invariant
                0 <= j <= sorted@.len(),
                forall|a: int| 0 <= a < j ==> sorted@[a] < id,
            decreases sorted.len() - j,
        {
            j += 1;
        }
        let ghost before = sorted@;
        proof {
            if j < before.len() {
                assert(before.contains(before[j as int]));
                assert(before[j as int] != id);
            }
        }
        sorted.insert(j, id);
        proof {
            assert forall|a: int, b: int| 0 <= a < b < sorted@.len() implies sorted@[a] < sorted@[b] by {
                if b < j {
                } else if b == j {
                } else if a < j {
                    assert(sorted@[b] == before[b - 1]);
                } else if a == j {
                    assert(sorted@[b] == before[b - 1]);
                    assert(before[j as int] >= id);
                } else {
                    assert(sorted@[a] == before[a - 1]);
                    assert(sorted@[b] == before[b - 1]);
                }
            }
            assert forall|k: u64| #[trigger] sorted@.contains(k) <==> ids@.take(i + 1).contains(k) by {
                if sorted@.contains(k) {
                    let a = choose|a: int| 0 <= a < sorted@.len() && #[trigger] sorted@[a] == k;
                    if a < j {
                        assert(before[a] == k);
                    } else if a > j {
                        assert(before[a - 1] == k);
                    }
                }
                if before.contains(k) {
                    let a = choose|a: int| 0 <= a < before.len() && #[trigger] before[a] == k;
                    if a < j {
                        assert(sorted@[a] == k);
                    } else {
                        assert(sorted@[a + 1] == k);
                    }
                }
                if k == id {
                    assert(sorted@[j as int] == k);
                }
            }
        }
        i += 1;
    }
    proof {
        lemma_take_all(ids@);
    }
    sorted
}

/// What an eviction pass makes of a cache: the residents it keeps, the
/// eviction count it records, and whether it evicted anything. It evicts
/// only when nothing was evicted yet in this pass and the generation is old
/// enough to have stale images.
pub open spec fn eviction(v: ImageCacheView) -> (Map<u64, ResidentImage>, usize, bool) {
    if v.evicted != 0 || v.generation < EVICT_AFTER_GENERATIONS {
        (v.residents, v.evicted, false)
    } else {
        let stale = stale_ids(v.residents, (v.generation - EVICT_AFTER_GENERATIONS) as u64);
        (v.residents.remove_keys(stale), stale.len() as usize, stale.len() != 0)
    }
}

/// The state after an eviction pass, with the given atlas allocator and its allocations.
pub open spec fn after_eviction(
    v: ImageCacheView,
    allocations: Map<u32, (i32, i32, i32, i32)>,
    atlas: AtlasAllocator,
) -> ImageCacheView {
    ImageCacheView {
        residents: eviction(v).0,
        evicted: eviction(v).1,
        allocations,
        atlas,
        ..v
    }
}

/// The eviction law: an eviction pass keeps, unchanged, every resident used
/// within the last `EVICT_AFTER_GENERATIONS` passes (in particular one used
/// in this pass or the one before); it removes only residents unused for
/// longer; and, when it runs at all (nothing evicted yet in this pass, and
/// enough passes behind), it removes every such resident. It adds nothing,
/// and reports an eviction exactly when it removed a resident.
pub proof fn lemma_eviction_spares_recent_images(v: ImageCacheView)
    requires
        v.residents.dom().finite(),
    ensures
        forall|k: u64| #[trigger]
            v.residents.contains_key(k) && v.residents[k].last_used_generation
                + EVICT_AFTER_GENERATIONS >= v.generation ==> eviction(v).0.contains_key(k)
                && eviction(v).0[k] == v.residents[k],
        forall|k: u64| #[trigger]
            eviction(v).0.contains_key(k) ==> v.residents.contains_key(k) && eviction(v).0[k]
                == v.residents[k],
        forall|k: u64| #[trigger]
            v.residents.contains_key(k) && !eviction(v).0.contains_key(k) ==> v.evicted == 0
                && v.residents[k].last_used_generation + EVICT_AFTER_GENERATIONS < v.generation,
        forall|k: u64| #[trigger]
            v.residents.contains_key(k) && v.evicted == 0 && v.residents[k].last_used_generation
                + EVICT_AFTER_GENERATIONS < v.generation ==> !eviction(v).0.contains_key(k),
        eviction(v).2 <==> exists|k: u64| #[trigger]
            v.residents.contains_key(k) && !eviction(v).0.contains_key(k),
        v.residents.len() <= usize::MAX ==> eviction(v).1 == v.evicted + v.residents.len()
            - eviction(v).0.len(),
{
    if v.evicted == 0 && v.generation >= EVICT_AFTER_GENERATIONS {
        let stale_before = (v.generation - EVICT_AFTER_GENERATIONS) as u64;
        let stale = stale_ids(v.residents, stale_before);
        v.residents.lemma_remove_keys_len(stale);
        vstd::set_lib::lemma_len_subset(stale, v.residents.dom());
        if eviction(v).2 {
            assert(stale.len() != 0);
            assert(stale.finite());
            let k = stale.choose();
            vstd::set_lib::lemma_set_empty_equivalency_len(stale);
            assert(stale.contains(k));
            assert(v.residents.contains_key(k) && !eviction(v).0.contains_key(k));
        } else {
            vstd::set_lib::lemma_set_empty_equivalency_len(stale);
            assert forall|k: u64| v.residents.contains_key(k) implies eviction(v).0.contains_key(k) by {
                assert(!stale.contains(k));
            }
        }
    }
}

/// Stale images are evicted at most once per resolve pass: a second eviction
/// pass right after the first evicts nothing.
pub proof fn lemma_evicts_at_most_once_per_pass(
    v: ImageCacheView,
    allocations: Map<u32, (i32, i32, i32, i32)>,
    atlas: AtlasAllocator,
)
    requires
        v.residents.dom().finite(),
        v.residents.dom().len() <= usize::MAX,
    ensures
        !eviction(after_eviction(v, allocations, atlas)).2,
{
    if v.evicted == 0 && v.generation >= EVICT_AFTER_GENERATIONS {
        let stale_before = (v.generation - EVICT_AFTER_GENERATIONS) as u64;
        let stale = stale_ids(v.residents, stale_before);
        vstd::set_lib::lemma_len_subset(stale, v.residents.dom());
        if stale.len() == 0 {
            vstd::set_lib::lemma_set_empty_equivalency_len(stale);
            assert(v.residents.remove_keys(stale) =~= v.residents);
            let w = after_eviction(v, allocations, atlas);
            assert(w.residents == v.residents);
            assert(stale_ids(w.residents, stale_before) == stale);
        }
    }
}

/// The atlas allocations are determined by the residents.
proof fn lemma_placement_determines_allocations(
    residents: Map<u64, ResidentImage>,
    a1: Map<u32, (i32, i32, i32, i32)>,
    a2: Map<u32, (i32, i32, i32, i32)>,
    extent: (int, int),
)
    requires
        placement(residents, a1, extent),
        placement(residents, a2, extent),
    ensures
        a1 == a2,
{
    assert forall|a: u32| #[trigger] a1.contains_key(a) implies a2.contains_key(a) && a1[a] == a2[a] by {
        let k = choose|k: u64| #[trigger] residents.contains_key(k) && residents[k].alloc_id == a;
    }
    assert forall|a: u32| #[trigger] a2.contains_key(a) implies a1.contains_key(a) by {
        let k = choose|k: u64| #[trigger] residents.contains_key(k) && residents[k].alloc_id == a;
    }
    assert(a1 =~= a2);
}

/// Every resident image lies inside the atlas, in its own allocation; no two
/// resident images overlap; and the atlas holds nothing but the residents.
pub proof fn lemma_residents_lie_inside_atlas(cache: &ImageCache)
    requires
        cache.wf(),
    ensures
        forall|k: u64| #[trigger]
            cache@.residents.contains_key(k) ==> {
                &&& cache@.residents[k].image.id == k
                &&& cache@.residents[k].x + cache@.residents[k].image.width <= cache@.extent.0
                &&& cache@.residents[k].y + cache@.residents[k].image.height <= cache@.extent.1
                &&& cache@.allocations.contains_key(cache@.residents[k].alloc_id)
            },
        forall|k1: u64, k2: u64|
            #![trigger cache@.residents[k1], cache@.residents[k2]]
            cache@.residents.contains_key(k1) && cache@.residents.contains_key(k2) && k1 != k2
                ==> cache@.residents[k1].alloc_id != cache@.residents[k2].alloc_id && images_disjoint(
                cache@.residents[k1],
                cache@.residents[k2],
            ),
        forall|a: u32| #[trigger]
            cache@.allocations.contains_key(a) ==> exists|k: u64|
                #[trigger] cache@.residents.contains_key(k) && cache@.residents[k].alloc_id == a,
{
}

/// A cache of images packed into a texture atlas, with the upload list of
/// the current resolve pass.
pub struct ImageCache {
    atlas: AtlasAllocator,
    /// Side length the atlas starts at, and the floor `shrink_to_fit` will not go below.
    initial_size: i32,
    /// Maximum side length of the atlas.
    max_size: i32,
    /// Counter of resolve passes, used to track when resident images were last used.
    generation: u64,
    /// Number of resident images evicted during the current resolve pass.
    evicted_in_resolve: usize,
    /// Atlas residency, by image id.
    map: HashMap<u64, ResidentImage>,
    /// Images that must be uploaded in the current resolve pass, with atlas locations.
    images: Vec<(AtlasImage, u32, u32)>,
    /// At least the number of node slots of the atlas allocator: one for a
    /// fresh atlas, and at most four more for each placement since.
    node_bound: u64,
}

impl ImageCache {
    pub closed spec fn view(&self) -> ImageCacheView {
        ImageCacheView {
            residents: self.map@,
            uploads: self.images@,
            extent: (atlas_extent(self.atlas).0 as int, atlas_extent(self.atlas).1 as int),
            allocations: atlas_allocations(self.atlas),
            atlas_nodes: atlas_node_count(self.atlas),
            node_bound: self.node_bound as int,
            atlas: self.atlas,
            generation: self.generation,
            evicted: self.evicted_in_resolve,
            initial_size: self.initial_size as int,
            max_size: self.max_size as int,
        }
    }

    /// The cache's invariant.
    pub open spec fn wf(&self) -> bool {
        &&& 0 < self@.initial_size
        &&& self@.max_size <= 0x3fff_ffff
        &&& 0 < self@.extent.0 <= i32::MAX
        &&& 0 < self@.extent.1 <= i32::MAX
        &&& placement(self@.residents, self@.allocations, self@.extent)
        &&& self@.atlas_nodes <= self@.node_bound
    }

    /// A cache whose atlas starts `initial_size` on a side and may grow to `max_size`.
    pub fn new_with_sizes(initial_size: i32, max_size: i32) -> (r: Self)
        requires
            0 < initial_size,
            max_size <= 0x3fff_ffff,
        ensures
            uploads_match_residents(r@),
            r.wf(),
            r@.residents == Map::<u64, ResidentImage>::empty(),
            r@.uploads == Seq::<(AtlasImage, u32, u32)>::empty(),
            r@.extent == (initial_size as int, initial_size as int),
            r@.generation == 0,
            r@.evicted == 0,
            r@.atlas_nodes == 1,
            r@.node_bound == 1,
            r@.initial_size == initial_size,
            r@.max_size == max_size,
    {
        ImageCache {
            atlas: new_atlas(initial_size, initial_size),
            initial_size,
            max_size,
            generation: 0,
            evicted_in_resolve: 0,
            map: HashMap::new(),
            images: Vec::new(),
            node_bound: 1,
        }
    }

    /// A cache with the default atlas sizes.
    pub fn new() -> (r: Self)
        ensures
            uploads_match_residents(r@),
            r.wf(),
            r@.residents == Map::<u64, ResidentImage>::empty(),
            r@.uploads == Seq::<(AtlasImage, u32, u32)>::empty(),
            r@.extent == (DEFAULT_ATLAS_SIZE as int, DEFAULT_ATLAS_SIZE as int),
            r@.generation == 0,
            r@.evicted == 0,
            r@.atlas_nodes == 1,
            r@.node_bound == 1,
            r@.initial_size == DEFAULT_ATLAS_SIZE,
            r@.max_size == MAX_ATLAS_SIZE,
    {
        Self::new_with_sizes(DEFAULT_ATLAS_SIZE, MAX_ATLAS_SIZE)
    }

    /// Starts a resolve pass: a new generation, no evictions and no uploads yet.
    pub fn begin_resolve(&mut self)
        requires
            old(self).wf(),
        ensures
            uploads_match_residents(old(self)@) ==> uploads_match_residents(final(self)@),
            final(self).wf(),
            final(self)@ == (ImageCacheView {
                generation: next_generation(old(self)@.generation),
                evicted: 0,
                uploads: Seq::empty(),
                ..old(self)@
            }),
    {
        self.generation = self.generation.wrapping_add(1);
        self.evicted_in_resolve = 0;
        self.images.clear();
    }

    /// The atlas size, the evictions of this pass, and the uploads it needs.
    pub fn images(&self) -> (r: Images<'_>)
        requires
            self.wf(),
        ensures
            r.width == self@.extent.0,
            r.height == self@.extent.1,
            r.evicted == self@.evicted,
            r.images@ == self@.uploads,
    {
        let (width, height) = atlas_size(&self.atlas);
        Images {
            width: width as u32,
            height: height as u32,
            evicted: self.evicted_in_resolve,
            images: self.images.as_slice(),
        }
    }

    /// The size `(width, height)` of the atlas.
    pub fn atlas_size(&self) -> (r: (i32, i32))
        ensures
            r.0 == self@.extent.0,
            r.1 == self@.extent.1,
    {
        atlas_size(&self.atlas)
    }

    /// The resident image with `id`, if there is one.
    pub fn resident(&self, id: u64) -> (r: Option<ResidentImage>)
        ensures
            r == (if self@.residents.contains_key(id) {
                Some(self@.residents[id])
            } else {
                None
            }),
    {
        match self.map.get(&id) {
            Some(resident) => Some(*resident),
            None => None,
        }
    }

    /// The number of resident images.
    pub fn resident_count(&self) -> (r: usize)
        ensures
            r == self@.residents.len(),
    {
        self.map.len()
    }

    /// A bound on the node slots of the atlas allocator. Placing a new image
    /// needs `node_room` of the node count, which a caller learns from this
    /// bound; a repack brings the bound back to one plus four per resident.
    pub fn atlas_node_bound(&self) -> (r: u64)
        requires
            self.wf(),
        ensures
            r == self@.node_bound,
            self@.atlas_nodes <= r,
    {
        self.node_bound
    }

    /// Marks the resident image of `image`, if any, for upload on its next use.
    pub fn mark_dirty(&mut self, image: &AtlasImage)
        requires
            old(self).wf(),
        ensures
            uploads_match_residents(old(self)@) ==> uploads_match_residents(final(self)@),
            final(self).wf(),
            final(self)@ == (ImageCacheView {
                residents: if old(self)@.residents.contains_key(image.id) {
                    old(self)@.residents.insert(
                        image.id,
                        with_dirty(old(self)@.residents[image.id], true),
                    )
                } else {
                    old(self)@.residents
                },
                ..old(self)@
            }),
    {
        match self.map.get(&image.id) {
            Some(resident) => {
                let mut updated = *resident;
                updated.dirty = true;
                self.map.insert(image.id, updated);
                proof {
                    assert(self@.residents.dom() =~= old(self)@.residents.dom());
                    lemma_placement_kept(old(self)@.residents, self@.residents, self@.allocations, self@.extent);
                }
            },
            None => {},
        }
    }

    /// Whether `image` is no larger than the atlas on either side.
    pub fn can_fit_image(&self, image: &AtlasImage) -> (r: bool)
        requires
            self.wf(),
        ensures
            r == (image.width <= self@.extent.0 && image.height <= self@.extent.1),
    {
        let (width, height) = atlas_size(&self.atlas);
        image.width <= width as u32 && image.height <= height as u32
    }

    /// The atlas location of `image`, placing it in the atlas if it is not
    /// resident yet.
    ///
    /// A resident image is marked as used in this generation; if this is its
    /// first use in the generation and it is dirty, it is queued for upload.
    /// An image that is not resident gets a fresh allocation, and is queued
    /// for upload; when the atlas has no room for it, `None` is returned and
    /// nothing changes.
    pub fn get_or_insert(&mut self, image: &AtlasImage) -> (r: Option<(u32, u32)>)
        requires
            old(self).wf(),
            !old(self)@.residents.contains_key(image.id) ==> node_room(old(self)@.atlas_nodes),
        ensures
            uploads_match_residents(old(self)@) ==> uploads_match_residents(final(self)@),
            final(self).wf(),
            final(self)@.extent == old(self)@.extent,
            final(self)@.generation == old(self)@.generation,
            final(self)@.evicted == old(self)@.evicted,
            final(self)@.initial_size == old(self)@.initial_size,
            final(self)@.max_size == old(self)@.max_size,
            old(self)@.residents.contains_key(image.id) ==> ({
                let res = old(self)@.residents[image.id];
                &&& r == Some((res.x, res.y))
                &&& final(self)@.residents == old(self)@.residents.insert(
                    image.id,
                    touched(res, old(self)@.generation),
                )
                &&& final(self)@.uploads == (if res.last_used_generation != old(self)@.generation
                    && res.dirty {
                    old(self)@.uploads.push((res.image, res.x, res.y))
                } else {
                    old(self)@.uploads
                })
                &&& final(self)@.allocations == old(self)@.allocations
                &&& final(self)@.atlas_nodes == old(self)@.atlas_nodes
                &&& final(self)@.node_bound == old(self)@.node_bound
            }),
            !old(self)@.residents.contains_key(image.id) ==> match r {
                None => final(self)@ == (ImageCacheView { atlas: final(self)@.atlas, ..old(self)@ }),
                Some(xy) => {
                    let res = final(self)@.residents[image.id];
                    &&& final(self)@.residents == old(self)@.residents.insert(image.id, res)
                    &&& res.image == *image
                    &&& res.x == xy.0
                    &&& res.y == xy.1
                    &&& res.dirty
                    &&& res.last_used_generation == old(self)@.generation
                    &&& final(self)@.uploads == old(self)@.uploads.push((*image, xy.0, xy.1))
                    &&& final(self)@.atlas_nodes <= old(self)@.atlas_nodes + 4
                    &&& final(self)@.node_bound == bound_after_placement(old(self)@.node_bound)
                },
            },
            !old(self)@.residents.contains_key(image.id) ==> ({
                let placed = atlas_allocation(
                    old(self)@.atlas,
                    image.width as i32,
                    image.height as i32,
                );
                &&& r == (match placed.0 {
                    Some(p) => Some((p.1 as u32, p.2 as u32)),
                    None => None,
                })
                &&& final(self)@.atlas == placed.1
            }),
            old(self)@.residents.dom().is_empty() && 0 < image.width <= old(self)@.extent.0 && 0
                < image.height <= old(self)@.extent.1 ==> r == Some((0u32, 0u32)),
            !old(self)@.residents.contains_key(image.id) && (image.width == 0 || image.height == 0
                || image.width > old(self)@.extent.0 || image.height > old(self)@.extent.1)
                ==> r is None,
    {
        let id = image.id;
        let generation = self.generation;
        match self.map.get(&id) {
            Some(found) => {
                let mut resident = *found;
                let xy = (resident.x, resident.y);
                if resident.last_used_generation != generation {
                    resident.last_used_generation = generation;
                    if resident.dirty {
                        self.images.push((resident.image, resident.x, resident.y));
                    }
                    self.map.insert(id, resident);
                    proof {
                        assert(self@.residents.dom() =~= old(self)@.residents.dom());
                        lemma_placement_kept(old(self)@.residents, self@.residents, self@.allocations, self@.extent);
                        if uploads_match_residents(old(self)@) {
                            assert forall|i: int| 0 <= i < self@.uploads.len() implies {
                                let u = #[trigger] self@.uploads[i];
                                &&& self@.residents.contains_key(u.0.id)
                                &&& self@.residents[u.0.id].image == u.0
                                &&& self@.residents[u.0.id].x == u.1
                                &&& self@.residents[u.0.id].y == u.2
                                &&& self@.residents[u.0.id].last_used_generation == self@.generation
                            } by {
                                if i < old(self)@.uploads.len() {
                                    assert(old(self)@.uploads[i] == self@.uploads[i]);
                                }
                            }
                        }
                    }
                } else {
                    proof {
                        assert(old(self)@.residents.insert(id, touched(*found, generation)) =~= old(self)@.residents);
                    }
                }
                Some(xy)
            },
            None => {
                proof {
                    lemma_side_as_i32(image.width);
                    lemma_side_as_i32(image.height);
                    if old(self)@.residents.dom().is_empty() {
                        assert forall|a: u32| !old(self)@.allocations.contains_key(a) by {
                            if old(self)@.allocations.contains_key(a) {
                                let k = choose|k: u64| #[trigger] old(self)@.residents.contains_key(k)
                                    && old(self)@.residents[k].alloc_id == a;
                                assert(old(self)@.residents.dom().contains(k));
                            }
                        }
                        assert(old(self)@.allocations.dom() =~= Set::<u32>::empty());
                    }
                }
                let width = image.width as i32;
                let height = image.height as i32;
                match atlas_allocate(&mut self.atlas, width, height) {
                    None => None,
                    Some((alloc_id, x, y)) => {
                        let x = x as u32;
                        let y = y as u32;
                        let resident = ResidentImage {
                            image: *image,
                            alloc_id,
                            x,
                            y,
                            dirty: true,
                            last_used_generation: generation,
                        };
                        self.images.push((*image, x, y));
                        self.map.insert(id, resident);
                        if self.node_bound <= u64::MAX - 4 {
                            self.node_bound = self.node_bound + 4;
                        }
                        proof {
                            lemma_placement_insert(
                                old(self)@.residents,
                                old(self)@.allocations,
                                old(self)@.extent,
                                resident,
                                (x as i32, y as i32, width, height),
                            );
                            if uploads_match_residents(old(self)@) {
                                assert forall|i: int| 0 <= i < self@.uploads.len() implies {
                                    let u = #[trigger] self@.uploads[i];
                                    &&& self@.residents.contains_key(u.0.id)
                                    &&& self@.residents[u.0.id].image == u.0
                                    &&& self@.residents[u.0.id].x == u.1
                                    &&& self@.residents[u.0.id].y == u.2
                                    &&& self@.residents[u.0.id].last_used_generation == self@.generation
                                } by {
                                    if i < old(self)@.uploads.len() {
                                        assert(old(self)@.uploads[i] == self@.uploads[i]);
                                    }
                                }
                            }
                        }
                        Some((x, y))
                    },
                }
            },
        }
    }

    /// Ends a resolve pass: every image used in it has now been uploaded.
    pub fn finish_resolve(&mut self)
        requires
            old(self).wf(),
        ensures
            uploads_match_residents(old(self)@) ==> uploads_match_residents(final(self)@),
            final(self).wf(),
            final(self)@ == (ImageCacheView {
                residents: old(self)@.residents.map_values(
                    |r: ResidentImage| finished(r, old(self)@.generation),
                ),
                ..old(self)@
            }),
    {
        let ids = self.resident_ids();
        let generation = self.generation;
        let ghost before = self@;
        let mut i: usize = 0;
        while i < ids.len()
            invariant
                self.wf(),
                ids@.no_duplicates(),
                forall|k: u64| #[trigger] ids@.contains(k) <==> before.residents.contains_key(k),
                0 <= i <= ids.len(),
                generation == before.generation,
                self@ == (ImageCacheView { residents: self@.residents, ..before }),
                self@.residents.dom() == before.residents.dom(),
                forall|k: u64| #[trigger]
                    before.residents.contains_key(k) ==> self@.residents[k] == (if ids@.take(
                        i as int,
                    ).contains(k) {
                        finished(before.residents[k], generation)
                    } else {
                        before.residents[k]
                    }),
            decreases ids.len() - i,
        {
            let id = ids[i];
            proof {
                lemma_take_one_more(ids@, i as int);
                assert(ids@.contains(id));
                assert(!ids@.take(i as int).contains(id));
            }
            match self.map.get(&id) {
                Some(found) => {
                    let mut resident = *found;
                    if resident.last_used_generation == generation {
                        resident.dirty = false;
                        let ghost current = self@.residents;
                        self.map.insert(id, resident);
                        proof {
                            assert(self@.residents.dom() =~= current.dom());
                            lemma_placement_kept(current, self@.residents, self@.allocations, self@.extent);
                        }
                    }
                },
                None => {},
            }
            i += 1;
        }
        proof {
            lemma_take_all(ids@);
            assert(self@.residents =~= before.residents.map_values(
                |r: ResidentImage| finished(r, generation),
            ));
        }
    }

    /// Starts the current resolve pass over: no uploads, and every image used
    /// in it counts as unused again.
    pub fn restart_resolve_pass(&mut self)
        requires
            old(self).wf(),
        ensures
            uploads_match_residents(old(self)@) ==> uploads_match_residents(final(self)@),
            final(self).wf(),
            final(self)@ == (ImageCacheView {
                residents: old(self)@.residents.map_values(
                    |r: ResidentImage| rewound(r, old(self)@.generation),
                ),
                uploads: Seq::empty(),
                ..old(self)@
            }),
    {
        self.images.clear();
        let previous = self.generation.wrapping_sub(1);
        let ids = self.resident_ids();
        let generation = self.generation;
        let ghost before = self@;
        let mut i: usize = 0;
        while i < ids.len()
            invariant
                self.wf(),
                ids@.no_duplicates(),
                forall|k: u64| #[trigger] ids@.contains(k) <==> before.residents.contains_key(k),
                0 <= i <= ids.len(),
                generation == before.generation,
                previous == previous_generation(generation),
                self@ == (ImageCacheView { residents: self@.residents, ..before }),
                self@.residents.dom() == before.residents.dom(),
                forall|k: u64| #[trigger]
                    before.residents.contains_key(k) ==> self@.residents[k] == (if ids@.take(
                        i as int,
                    ).contains(k) {
                        rewound(before.residents[k], generation)
                    } else {
                        before.residents[k]
                    }),
            decreases ids.len() - i,
        {
            let id = ids[i];
            proof {
                lemma_take_one_more(ids@, i as int);
                assert(ids@.contains(id));
                assert(!ids@.take(i as int).contains(id));
            }
            match self.map.get(&id) {
                Some(found) => {
                    let mut resident = *found;
                    if resident.last_used_generation == generation {
                        resident.last_used_generation = previous;
                        let ghost current = self@.residents;
                        self.map.insert(id, resident);
                        proof {
                            assert(self@.residents.dom() =~= current.dom());
                            lemma_placement_kept(current, self@.residents, self@.allocations, self@.extent);
                        }
                    }
                },
                None => {},
            }
            i += 1;
        }
        proof {
            lemma_take_all(ids@);
            assert(self@.residents =~= before.residents.map_values(
                |r: ResidentImage| rewound(r, generation),
            ));
        }
    }

    /// Evicts, at most once per resolve pass, every resident image that was
    /// last used more than [`EVICT_AFTER_GENERATIONS`] generations ago, and
    /// gives its space in the atlas back. Returns whether anything was evicted.
    pub fn evict_stale_entries(&mut self) -> (r: bool)
        requires
            old(self).wf(),
        ensures
            uploads_match_residents(old(self)@) ==> uploads_match_residents(final(self)@),
            final(self).wf(),
            final(self)@ == after_eviction(old(self)@, final(self)@.allocations, final(self)@.atlas),
            r == eviction(old(self)@).2,
            !r ==> final(self)@ == old(self)@,
            forall|k: u64| #[trigger]
                old(self)@.residents.contains_key(k) && old(self)@.residents[k].last_used_generation
                    + EVICT_AFTER_GENERATIONS >= old(self)@.generation ==> final(self)@.residents.contains_key(k)
                    && final(self)@.residents[k] == old(self)@.residents[k],
            forall|k: u64| #[trigger]
                final(self)@.residents.contains_key(k) ==> old(self)@.residents.contains_key(k)
                    && final(self)@.residents[k] == old(self)@.residents[k],
            forall|k: u64| #[trigger]
                old(self)@.residents.contains_key(k) && !final(self)@.residents.contains_key(k) ==> old(
                    self,
                )@.evicted == 0 && old(self)@.residents[k].last_used_generation + EVICT_AFTER_GENERATIONS
                    < old(self)@.generation,
            forall|k: u64| #[trigger]
                old(self)@.residents.contains_key(k) && old(self)@.evicted == 0 && old(
                    self,
                )@.residents[k].last_used_generation + EVICT_AFTER_GENERATIONS < old(self)@.generation
                    ==> !final(self)@.residents.contains_key(k),
            r <==> exists|k: u64| #[trigger]
                old(self)@.residents.contains_key(k) && !final(self)@.residents.contains_key(k),
            final(self)@.evicted == old(self)@.evicted + old(self)@.residents.len()
                - final(self)@.residents.len(),
    {
        proof {
            lemma_eviction_spares_recent_images(self@);
        }
        if self.evicted_in_resolve != 0 {
            return false;
        }
        let stale_before = match self.generation.checked_sub(EVICT_AFTER_GENERATIONS) {
            Some(stale_before) => stale_before,
            None => return false,
        };
        let ids = self.resident_ids();
        proof {
            lemma_ids_len(ids@, self@.residents.dom());
        }
        let ghost before = self@;
        let ghost mut removed: Set<u64> = Set::empty();
        let mut i: usize = 0;
        while i < ids.len()
            invariant
                self.wf(),
                ids@.no_duplicates(),
                forall|k: u64| #[trigger] ids@.contains(k) <==> before.residents.contains_key(k),
                0 <= i <= ids.len(),
                stale_before == before.generation - EVICT_AFTER_GENERATIONS,
                self@ == (ImageCacheView {
                    residents: self@.residents,
                    allocations: self@.allocations,
                    atlas: self@.atlas,
                    evicted: self@.evicted,
                    ..before
                }),
                forall|k: u64| #[trigger]
                    removed.contains(k) <==> (ids@.take(i as int).contains(k)
                        && before.residents.contains_key(k)
                        && before.residents[k].last_used_generation < stale_before),
                removed.finite(),
                removed.len() == self.evicted_in_resolve,
                self.evicted_in_resolve == 0 ==> self@.atlas == before.atlas,
                self.evicted_in_resolve <= i,
                self@.residents == before.residents.remove_keys(removed),
            decreases ids.len() - i,
        {
            let id = ids[i];
            proof {
                lemma_take_one_more(ids@, i as int);
                assert(ids@.contains(id));
                assert(!ids@.take(i as int).contains(id));
                assert(!removed.contains(id));
                assert(self@.residents.contains_key(id));
            }
            match self.map.get(&id) {
                Some(found) => {
                    let resident = *found;
                    if resident.last_used_generation < stale_before {
                        let ghost current = self@;
                        self.map.remove(&id);
                        atlas_deallocate(&mut self.atlas, resident.alloc_id);
                        self.evicted_in_resolve += 1;
                        proof {
                            lemma_placement_remove(current.residents, current.allocations, current.extent, id);
                            removed = removed.insert(id);
                            assert(self@.residents =~= before.residents.remove_keys(removed));
                        }
                    }
                },
                None => {},
            }
            proof {
                assert forall|k: u64| #[trigger]
                    removed.contains(k) <==> (ids@.take(i + 1).contains(k)
                        && before.residents.contains_key(k)
                        && before.residents[k].last_used_generation < stale_before) by {}
            }
            i += 1;
        }
        proof {
            lemma_take_all(ids@);
            assert(removed =~= stale_ids(before.residents, stale_before));
            if removed.len() == 0 {
                vstd::set_lib::lemma_set_empty_equivalency_len(removed);
                assert(before.residents.remove_keys(removed) =~= before.residents);
                lemma_placement_determines_allocations(
                    before.residents,
                    self@.allocations,
                    before.allocations,
                    before.extent,
                );
            }
        }
        self.evicted_in_resolve != 0
    }

    /// Moves every resident image into a fresh `width` by `height` atlas,
    /// placing them in increasing order of id and marking each for upload.
    ///
    /// When one of them does not fit, nothing changes and `false` is returned.
    fn repack_to(&mut self, width: i32, height: i32) -> (r: bool)
        requires
            old(self).wf(),
            0 < width,
            0 < height,
            old(self)@.residents.len() * 4 + 1 <= 0x100_0000,
        ensures
            final(self).wf(),
            !r ==> final(self)@ == old(self)@,
            r ==> final(self)@ == (ImageCacheView {
                residents: final(self)@.residents,
                allocations: final(self)@.allocations,
                atlas: final(self)@.atlas,
                extent: (width as int, height as int),
                atlas_nodes: final(self)@.atlas_nodes,
                node_bound: final(self)@.node_bound,
                ..old(self)@
            }),
            r ==> final(self)@.atlas_nodes <= 1 + 4 * old(self)@.residents.len(),
            r ==> final(self)@.node_bound == 1 + 4 * old(self)@.residents.len(),
            r ==> relocated(old(self)@.residents, final(self)@.residents),
            some_resident_exceeds(old(self)@.residents, (width as int, height as int)) ==> !r,
            old(self)@.residents.len() <= 1 ==> (r <==> !some_resident_exceeds(
                old(self)@.residents,
                (width as int, height as int),
            )),
            r == packs_in_id_order(old(self)@.residents, (width as int, height as int)),
            r ==> Some(final(self)@.atlas) == packed(
                fresh_atlas(width, height),
                resident_sizes(old(self)@.residents, ids_in_order(old(self)@.residents)),
            ),
            r && old(self)@.residents.dom().is_empty() ==> final(self)@.atlas_nodes == 1,
    {
        let mut atlas = new_atlas(width, height);
        let unordered = self.resident_ids();
        let ids = sorted_ids(&unordered);
        let ghost sizes = resident_sizes(self@.residents, ids@);
        proof {
            lemma_ids_len(ids@, self@.residents.dom());
            lemma_ids_in_order(self@.residents, ids@);
            assert(packed(fresh_atlas(width, height), sizes.take(0)) == Some(atlas)) by {
                assert(sizes.take(0).len() == 0);
            }
        }
        let mut map: HashMap<u64, ResidentImage> = HashMap::with_capacity(self.map.len());
        let ghost extent = (width as int, height as int);
        let mut i: usize = 0;
        while i < ids.len()
            invariant
                self == old(self),
                self.wf(),
                0 <= i <= ids.len(),
                ids@.len() == self@.residents.len(),
                self@.residents.len() * 4 + 1 <= 0x100_0000,
                atlas_node_count(atlas) <= 1 + 4 * i,
                i == 0 ==> atlas_node_count(atlas) == 1,
                sizes == resident_sizes(self@.residents, ids@),
                ids@ == ids_in_order(self@.residents),
                packed(fresh_atlas(width, height), sizes.take(i as int)) == Some(atlas),
                forall|a: int, b: int| 0 <= a < b < ids@.len() ==> ids@[a] < ids@[b],
                forall|k: u64| #[trigger] ids@.contains(k) <==> self@.residents.contains_key(k),
                atlas_extent(atlas) == (width, height),
                extent == (width as int, height as int),
                placement(map@, atlas_allocations(atlas), extent),
                forall|k: u64| #[trigger] map@.contains_key(k) <==> ids@.take(i as int).contains(k),
                forall|k: u64| #[trigger]
                    map@.contains_key(k) ==> map@[k] == (ResidentImage {
                        alloc_id: map@[k].alloc_id,
                        x: map@[k].x,
                        y: map@[k].y,
                        dirty: true,
                        ..self@.residents[k]
                    }),
            decreases ids.len() - i,
        {
            let id = ids[i];
            proof {
                lemma_take_one_more(ids@, i as int);
                assert(ids@.contains(id));
            }
            let resident = match self.map.get(&id) {
                Some(found) => *found,
                None => {
                    proof {
                        assert(false);
                    }
                    return false;
                },
            };
            proof {
                assert(self@.residents.contains_key(id));
                assert(occupies(self@.allocations[resident.alloc_id], resident));
                lemma_side_as_i32(resident.image.width);
                lemma_side_as_i32(resident.image.height);
                assert(!map@.contains_key(id)) by {
                    if map@.contains_key(id) {
                        assert(ids@.take(i as int).contains(id));
                        let a = choose|a: int| 0 <= a < i && #[trigger] ids@.take(i as int)[a] == id;
                        assert(ids@[a] == ids@[i as int]);
                    }
                }
            }
            let ghost prior_allocations = atlas_allocations(atlas);
            proof {
                if i == 0 {
                    assert forall|a: u32| !prior_allocations.contains_key(a) by {
                        if prior_allocations.contains_key(a) {
                            let k = choose|k: u64| #[trigger] map@.contains_key(k) && map@[k].alloc_id == a;
                            assert(ids@.take(0).contains(k));
                        }
                    }
                    assert(prior_allocations.dom() =~= Set::<u32>::empty());
                }
            }
            let ghost before_step = atlas;
            proof {
                assert(sizes.take(i + 1).drop_last() =~= sizes.take(i as int));
                assert(sizes.take(i + 1).last() == (resident.image.width as i32, resident.image.height as i32));
            }
            match atlas_allocate(&mut atlas, resident.image.width as i32, resident.image.height as i32) {
                None => {
                    proof {
                        assert(packed(fresh_atlas(width, height), sizes.take(i + 1)) is None);
                        if packed(fresh_atlas(width, height), sizes) is Some {
                            lemma_packed_prefix(fresh_atlas(width, height), sizes, i + 1);
                        }
                        if self@.residents.len() <= 1 {
                            assert(i == 0);
                            assert(resident == self@.residents[id]);
                            assert(some_resident_exceeds(self@.residents, extent));
                        }
                    }
                    return false;
                },
                Some((alloc_id, x, y)) => {
                    let mut moved = resident;
                    moved.alloc_id = alloc_id;
                    moved.x = x as u32;
                    moved.y = y as u32;
                    moved.dirty = true;
                    let ghost previous = map@;
                    map.insert(id, moved);
                    proof {
                        lemma_placement_insert(
                            previous,
                            prior_allocations,
                            extent,
                            moved,
                            (x, y, resident.image.width as i32, resident.image.height as i32),
                        );
                    }
                },
            }
            i += 1;
        }
        proof {
            lemma_take_all(ids@);
            assert(sizes.take(sizes.len() as int) =~= sizes);
            assert(map@.dom() =~= self@.residents.dom());
            assert(!some_resident_exceeds(self@.residents, extent)) by {
                assert forall|k: u64| #[trigger] self@.residents.contains_key(k) implies !(
                self@.residents[k].image.width > extent.0 || self@.residents[k].image.height
                    > extent.1) by {
                    assert(map@.contains_key(k));
                }
            }
        }
        self.atlas = atlas;
        self.map = map;
        self.node_bound = 1 + 4 * (ids.len() as u64);
        true
    }

    /// A dry run of a repack: whether every resident image, in the map's own
    /// order, would get a place in a fresh `width` by `height` atlas. The
    /// live atlas is not touched.
    fn would_fit(&self, width: i32, height: i32) -> (r: bool)
        requires
            self.wf(),
            0 < width,
            0 < height,
            self@.residents.len() * 4 + 1 <= 0x100_0000,
        ensures
            exists|order: Seq<u64>|
                lists_residents(order, self@.residents) && r == #[trigger] packs(
                    (width, height),
                    resident_sizes(self@.residents, order),
                ),
            r ==> !some_resident_exceeds(self@.residents, (width as int, height as int)),
            self@.residents.len() <= 1 ==> (r <==> !some_resident_exceeds(
                self@.residents,
                (width as int, height as int),
            )),
    {
        let mut atlas = new_atlas(width, height);
        let ids = self.resident_ids();
        let ghost sizes = resident_sizes(self@.residents, ids@);
        proof {
            lemma_ids_len(ids@, self@.residents.dom());
            assert(packed(fresh_atlas(width, height), sizes.take(0)) == Some(atlas)) by {
                assert(sizes.take(0).len() == 0);
            }
        }
        let mut i: usize = 0;
        while i < ids.len()
            invariant
                self.wf(),
                0 <= i <= ids.len(),
                ids@.len() == self@.residents.len(),
                ids@.no_duplicates(),
                self@.residents.len() * 4 + 1 <= 0x100_0000,
                atlas_node_count(atlas) <= 1 + 4 * i,
                i == 0 ==> atlas_node_count(atlas) == 1 && atlas_allocations(atlas).dom().is_empty(),
                forall|k: u64| #[trigger] ids@.contains(k) <==> self@.residents.contains_key(k),
                atlas_extent(atlas) == (width, height),
                sizes == resident_sizes(self@.residents, ids@),
                packed(fresh_atlas(width, height), sizes.take(i as int)) == Some(atlas),
                forall|a: int| #![trigger ids@[a]]
                    0 <= a < i ==> self@.residents[ids@[a]].image.width <= width
                        && self@.residents[ids@[a]].image.height <= height,
            decreases ids.len() - i,
        {
            let id = ids[i];
            proof {
                assert(ids@.contains(id));
            }
            let resident = match self.map.get(&id) {
                Some(found) => *found,
                None => {
                    proof {
                        assert(false);
                    }
                    return false;
                },
            };
            proof {
                lemma_side_as_i32(resident.image.width);
                lemma_side_as_i32(resident.image.height);
                assert(sizes.take(i + 1).drop_last() =~= sizes.take(i as int));
                assert(sizes.take(i + 1).last() == (resident.image.width as i32, resident.image.height as i32));
            }
            if atlas_allocate(&mut atlas, resident.image.width as i32, resident.image.height as i32).is_none() {
                proof {
                    assert(packed(fresh_atlas(width, height), sizes.take(i + 1)) is None);
                    if packed(fresh_atlas(width, height), sizes) is Some {
                        lemma_packed_prefix(fresh_atlas(width, height), sizes, i + 1);
                    }
                    assert(lists_residents(ids@, self@.residents));
                    assert(!packs((width, height), resident_sizes(self@.residents, ids@)));
                    if self@.residents.len() <= 1 {
                        assert(i == 0);
                        assert(resident == self@.residents[id]);
                        assert(some_resident_exceeds(self@.residents, (width as int, height as int)));
                    }
                }
                return false;
            }
            i += 1;
        }
        proof {
            assert(sizes.take(sizes.len() as int) =~= sizes);
            assert(lists_residents(ids@, self@.residents));
            assert(packs((width, height), resident_sizes(self@.residents, ids@)));
            assert forall|k: u64| #[trigger] self@.residents.contains_key(k) implies !(
            self@.residents[k].image.width > width || self@.residents[k].image.height > height) by {
                assert(ids@.contains(k));
                let a = choose|a: int| 0 <= a < ids@.len() && #[trigger] ids@[a] == k;
            }
        }
        true
    }

    /// Repacks every resident image into a fresh square `size` by `size`
    /// atlas, in increasing order of id, marking each for upload. On success
    /// the upload list is cleared, since the places it names have moved; on
    /// failure nothing changes.
    pub fn repack_to_size(&mut self, size: i32) -> (r: bool)
        requires
            old(self).wf(),
            0 < size,
            old(self)@.residents.len() * 4 + 1 <= 0x100_0000,
        ensures
            uploads_match_residents(old(self)@) ==> uploads_match_residents(final(self)@),
            final(self).wf(),
            !r ==> final(self)@ == old(self)@,
            r ==> final(self)@ == (ImageCacheView {
                residents: final(self)@.residents,
                allocations: final(self)@.allocations,
                atlas: final(self)@.atlas,
                extent: (size as int, size as int),
                atlas_nodes: final(self)@.atlas_nodes,
                node_bound: final(self)@.node_bound,
                uploads: Seq::empty(),
                ..old(self)@
            }),
            r ==> final(self)@.atlas_nodes <= 1 + 4 * old(self)@.residents.len(),
            r ==> final(self)@.node_bound == 1 + 4 * old(self)@.residents.len(),
            r ==> relocated(old(self)@.residents, final(self)@.residents),
            some_resident_exceeds(old(self)@.residents, (size as int, size as int)) ==> !r,
            old(self)@.residents.len() <= 1 ==> (r <==> !some_resident_exceeds(
                old(self)@.residents,
                (size as int, size as int),
            )),
            r == packs_in_id_order(old(self)@.residents, (size as int, size as int)),
            r && old(self)@.residents.dom().is_empty() ==> final(self)@.atlas_nodes == 1,
    {
        if self.repack_to(size, size) {
            self.images.clear();
            true
        } else {
            false
        }
    }

    /// Grows the atlas, doubling the shorter side each step, until every
    /// resident image can be repacked into it or a side would pass the
    /// maximum size. A successful repack moves every resident, marks each for
    /// upload, and clears the upload list; a failure changes nothing.
    pub fn bump_size(&mut self) -> (r: bool)
        requires
            old(self).wf(),
            old(self)@.residents.len() * 4 + 1 <= 0x100_0000,
        ensures
            uploads_match_residents(old(self)@) ==> uploads_match_residents(final(self)@),
            final(self).wf(),
            !r ==> final(self)@ == old(self)@,
            r ==> final(self)@.extent.0 <= old(self)@.max_size && final(self)@.extent.1
                <= old(self)@.max_size,
            r ==> final(self)@.extent.0 >= old(self)@.extent.0 && final(self)@.extent.1
                >= old(self)@.extent.1 && final(self)@.extent.0 + final(self)@.extent.1 > old(
                self,
            )@.extent.0 + old(self)@.extent.1,
            r ==> final(self)@ == (ImageCacheView {
                residents: final(self)@.residents,
                allocations: final(self)@.allocations,
                atlas: final(self)@.atlas,
                extent: final(self)@.extent,
                atlas_nodes: final(self)@.atlas_nodes,
                node_bound: final(self)@.node_bound,
                uploads: Seq::empty(),
                ..old(self)@
            }),
            r ==> final(self)@.atlas_nodes <= 1 + 4 * old(self)@.residents.len(),
            r ==> final(self)@.node_bound == 1 + 4 * old(self)@.residents.len(),
            r ==> relocated(old(self)@.residents, final(self)@.residents),
            old(self)@.extent.0 > old(self)@.max_size || old(self)@.extent.1 > old(self)@.max_size
                ==> !r,
            r ==> exists|steps: nat|
                {
                    &&& steps >= 1
                    &&& final(self)@.extent == #[trigger] grown_extent(old(self)@.extent, steps)
                    &&& packs_in_id_order(old(self)@.residents, final(self)@.extent)
                    &&& forall|j: nat|
                        1 <= j < steps ==> !packs_in_id_order(
                            old(self)@.residents,
                            #[trigger] grown_extent(old(self)@.extent, j),
                        )
                },
            !r ==> forall|j: nat|
                j >= 1 && fits_max(#[trigger] grown_extent(old(self)@.extent, j), old(self)@.max_size)
                    ==> !packs_in_id_order(old(self)@.residents, grown_extent(old(self)@.extent, j)),
            old(self)@.residents.len() <= 1 && r ==> exists|steps: nat|
                {
                    &&& steps >= 1
                    &&& final(self)@.extent == #[trigger] grown_extent(old(self)@.extent, steps)
                    &&& forall|j: nat|
                        1 <= j < steps ==> some_resident_exceeds(
                            old(self)@.residents,
                            #[trigger] grown_extent(old(self)@.extent, j),
                        )
                },
            old(self)@.residents.len() <= 1 && !r ==> forall|j: nat|
                j >= 1 && fits_max(#[trigger] grown_extent(old(self)@.extent, j), old(self)@.max_size)
                    ==> some_resident_exceeds(old(self)@.residents, grown_extent(old(self)@.extent, j)),
            old(self)@.residents.dom().is_empty() ==> r == (fits_max(old(self)@.extent, old(self)@.max_size)
                && fits_max(grow_step(old(self)@.extent), old(self)@.max_size)),
            old(self)@.residents.dom().is_empty() && r ==> final(self)@.extent == grow_step(
                old(self)@.extent,
            ),
            r && old(self)@.residents.dom().is_empty() ==> final(self)@.atlas_nodes == 1,
            r && old(self)@.extent.0 <= old(self)@.extent.1 ==> final(self)@.extent.0 >= 2 * old(
                self,
            )@.extent.0,
            r && old(self)@.extent.1 < old(self)@.extent.0 ==> final(self)@.extent.1 >= 2 * old(
                self,
            )@.extent.1,
    {
        let (mut width, mut height) = atlas_size(&self.atlas);
        let ghost mut steps: nat = 0;
        let ghost before = self@;
        proof {
            assert(grown_extent(before.extent, 0) == before.extent);
        }
        while width <= self.max_size && height <= self.max_size
            invariant
                self.wf(),
                self@ == before,
                before == old(self)@,
                before.residents.len() * 4 + 1 <= 0x100_0000,
                0 < width,
                0 < height,
                (width as int, height as int) == grown_extent(before.extent, steps),
                width >= before.extent.0,
                height >= before.extent.1,
                steps >= 1 ==> width + height > before.extent.0 + before.extent.1,
                before.residents.dom().is_empty() ==> steps == 0,
                before.residents.len() <= 1 ==> forall|j: nat|
                    1 <= j <= steps ==> some_resident_exceeds(
                        before.residents,
                        #[trigger] grown_extent(before.extent, j),
                    ),
                forall|j: nat|
                    1 <= j <= steps ==> !packs_in_id_order(
                        before.residents,
                        #[trigger] grown_extent(before.extent, j),
                    ),
            decreases 2 * (i32::MAX as int) - width - height,
        {
            proof {
                assert(grown_extent(before.extent, 0) == before.extent);
            }
            if width <= height {
                width = width * 2;
            } else {
                height = height * 2;
            }
            proof {
                steps = steps + 1;
                assert(grown_extent(before.extent, steps) == (width as int, height as int));
            }
            if width > self.max_size || height > self.max_size {
                proof {
                    assert(grown_extent(before.extent, 0) == before.extent);
                    assert forall|j: nat|
                        j >= 1 && fits_max(#[trigger] grown_extent(before.extent, j), before.max_size)
                            && before.residents.len() <= 1 implies some_resident_exceeds(
                            before.residents,
                            grown_extent(before.extent, j),
                        ) by {
                        if j >= steps {
                            lemma_grown_monotone(before.extent, steps, j);
                        }
                    }
                    assert forall|j: nat|
                        j >= 1 && fits_max(#[trigger] grown_extent(before.extent, j), before.max_size)
                            implies !packs_in_id_order(
                            before.residents,
                            grown_extent(before.extent, j),
                        ) by {
                        if j >= steps {
                            lemma_grown_monotone(before.extent, steps, j);
                        }
                    }
                }
                return false;
            }
            if self.repack_to(width, height) {
                self.images.clear();
                proof {
                    assert(steps >= 1 && self@.extent == grown_extent(before.extent, steps));
                    lemma_growth_doubles_the_shorter_side(before.extent, 0);
                    assert(grown_extent(before.extent, 0) == before.extent);
                    lemma_grown_monotone(before.extent, 1, steps);
                }
                return true;
            }
        }
        proof {
            assert forall|j: nat|
                j >= 1 && fits_max(#[trigger] grown_extent(before.extent, j), before.max_size)
                    && before.residents.len() <= 1 implies some_resident_exceeds(
                    before.residents,
                    grown_extent(before.extent, j),
                ) by {
                if j >= steps {
                    lemma_grown_monotone(before.extent, steps, j);
                }
            }
            assert forall|j: nat|
                j >= 1 && fits_max(#[trigger] grown_extent(before.extent, j), before.max_size)
                    implies !packs_in_id_order(before.residents, grown_extent(before.extent, j)) by {
                if j >= steps {
                    lemma_grown_monotone(before.extent, steps, j);
                }
            }
        }
        false
    }

    /// Gives the atlas back once the images that forced it to grow are gone:
    /// halves the longer side while every resident still fits and neither
    /// side goes below the initial size, then repacks into the smallest such
    /// atlas. An atlas no larger than the initial size on either side is left
    /// alone; so is everything when the repack fails.
    pub fn shrink_to_fit(&mut self)
        requires
            old(self).wf(),
            old(self)@.residents.len() * 4 + 1 <= 0x100_0000,
        ensures
            uploads_match_residents(old(self)@) ==> uploads_match_residents(final(self)@),
            final(self).wf(),
            old(self)@.extent.0 <= old(self)@.initial_size && old(self)@.extent.1
                <= old(self)@.initial_size ==> final(self)@ == old(self)@,
            final(self)@ == old(self)@ || ({
                &&& exists|steps: nat|
                    steps >= 1 && final(self)@.extent == #[trigger] shrunk_extent(
                        old(self)@.extent,
                        steps,
                    )
                &&& final(self)@.extent.0 >= old(self)@.initial_size
                &&& final(self)@.extent.1 >= old(self)@.initial_size
                &&& final(self)@.extent.0 <= old(self)@.extent.0
                &&& final(self)@.extent.1 <= old(self)@.extent.1
                &&& final(self)@.extent.0 + final(self)@.extent.1 < old(self)@.extent.0 + old(
                    self,
                )@.extent.1
                &&& final(self)@.atlas_nodes <= 1 + 4 * old(self)@.residents.len()
                &&& final(self)@.node_bound == 1 + 4 * old(self)@.residents.len()
                &&& relocated(old(self)@.residents, final(self)@.residents)
                &&& final(self)@ == (ImageCacheView {
                    residents: final(self)@.residents,
                    allocations: final(self)@.allocations,
                    atlas: final(self)@.atlas,
                    extent: final(self)@.extent,
                    atlas_nodes: final(self)@.atlas_nodes,
                    node_bound: final(self)@.node_bound,
                    uploads: Seq::empty(),
                    ..old(self)@
                })
            }),
            old(self)@.residents.len() <= 1 ==> final(self)@.extent == settled_extent(
                old(self)@.extent,
                old(self)@.initial_size,
                old(self)@.residents,
            ),
            old(self)@.residents.dom().is_empty() ==> final(self)@.residents.dom().is_empty(),
            old(self)@.residents.dom().is_empty() && final(self)@ != old(self)@
                ==> final(self)@.atlas_nodes == 1,
            !(old(self)@.extent.0 <= old(self)@.initial_size && old(self)@.extent.1
                <= old(self)@.initial_size) ==> exists|steps: nat|
                {
                    &&& #[trigger] shrink_stops_at(old(self)@, steps)
                    &&& steps >= 1 && packs_in_id_order(
                        old(self)@.residents,
                        shrunk_extent(old(self)@.extent, steps),
                    ) ==> final(self)@.extent == shrunk_extent(old(self)@.extent, steps)
                    &&& !(steps >= 1 && packs_in_id_order(
                        old(self)@.residents,
                        shrunk_extent(old(self)@.extent, steps),
                    )) ==> final(self)@ == old(self)@
                },
    {
        let (mut width, mut height) = atlas_size(&self.atlas);
        if width <= self.initial_size && height <= self.initial_size {
            proof {
                assert(settled_extent(self@.extent, self.initial_size as int, self@.residents) == self@.extent);
            }
            return;
        }
        let ghost before = self@;
        let ghost mut steps: nat = 0;
        let mut best: Option<(i32, i32)> = None;
        let mut searching = true;
        proof {
            assert(shrunk_extent(before.extent, 0) == before.extent);
        }
        while searching
            invariant
                self.wf(),
                self@ == before,
                before == old(self)@,
                before.residents.len() * 4 + 1 <= 0x100_0000,
                0 < width,
                0 < height,
                width <= before.extent.0,
                height <= before.extent.1,
                steps >= 1 ==> width + height < before.extent.0 + before.extent.1,
                (width as int, height as int) == shrunk_extent(before.extent, steps),
                best is None ==> steps == 0,
                best matches Some(b) ==> b == (width, height) && steps >= 1 && width
                    >= self.initial_size && height >= self.initial_size && !some_resident_exceeds(
                    before.residents,
                    (width as int, height as int),
                ),
                before.residents.len() <= 1 ==> settled_extent(
                    (width as int, height as int),
                    self.initial_size as int,
                    before.residents,
                ) == settled_extent(before.extent, self.initial_size as int, before.residents),
                !searching && before.residents.len() <= 1 ==> settled_extent(
                    (width as int, height as int),
                    self.initial_size as int,
                    before.residents,
                ) == (width as int, height as int),
                before.initial_size == self.initial_size,
                forall|j: nat|
                    1 <= j <= steps ==> {
                        let e = #[trigger] shrunk_extent(before.extent, j);
                        &&& e.0 >= before.initial_size
                        &&& e.1 >= before.initial_size
                        &&& packs_in_some_order(before.residents, e)
                    },
                !searching ==> shrink_stops_at(before, steps),
            decreases width + height + (if searching { 1int } else { 0int }),
        {
            let (next_width, next_height) = if width >= height {
                (width / 2, height)
            } else {
                (width, height / 2)
            };
            proof {
                assert(shrunk_extent(before.extent, steps + 1) == (next_width as int, next_height as int));
            }
            if next_width < self.initial_size || next_height < self.initial_size {
                searching = false;
            } else if !self.would_fit(next_width, next_height) {
                searching = false;
                proof {
                    assert(fails_in_some_order(before.residents, (next_width as int, next_height as int)));
                }
            } else {
                best = Some((next_width, next_height));
                width = next_width;
                height = next_height;
                proof {
                    assert(packs_in_some_order(before.residents, (next_width as int, next_height as int)));
                    steps = steps + 1;
                    assert(shrunk_extent(before.extent, steps) == (width as int, height as int));
                }
            }
        }
        match best {
            Some((target_width, target_height)) => {
                if self.repack_to(target_width, target_height) {
                    self.images.clear();
                    proof {
                        assert(steps >= 1 && self@.extent == shrunk_extent(before.extent, steps));
                    }
                }
            },
            None => {
                proof {
                    assert(shrunk_extent(before.extent, 0) == before.extent);
                }
            },
        }
        proof {
            assert(shrink_stops_at(before, steps));
        }
    }

    /// The ids of the resident images, in the map's own order.
    fn resident_ids(&self) -> (ids: Vec<u64>)
        ensures
            ids@.no_duplicates(),
            forall|k: u64| #[trigger] ids@.contains(k) <==> self@.residents.contains_key(k),
    {
        let mut ids: Vec<u64> = Vec::new();
        let ghost keys = vstd::std_specs::hash::spec_keys_iter(&self.map).remaining();
        for k in it: self.map.keys()
            invariant
                it.seq() == keys,
                ids@ == keys.take(it.index() as int).unref(),
        {
            ids.push(*k);
            proof {
                assert(keys.take(it.index() as int + 1).unref() =~= ids@);
            }
        }
        proof {
            assert(keys.take(keys.len() as int) =~= keys);
            assert(keys.unref().to_set() == self.map@.dom());
            assert(ids@ == keys.unref());
            assert forall|k: u64| #[trigger] ids@.contains(k) <==> self@.residents.contains_key(k) by {
                assert(keys.unref().to_set().contains(k) == ids@.contains(k));
            }
        }
        ids
    }
}

impl Default for ImageCache {
    fn default() -> (r: Self)
        ensures
            uploads_match_residents(r@),
            r.wf(),
            r@.residents == Map::<u64, ResidentImage>::empty(),
            r@.uploads == Seq::<(AtlasImage, u32, u32)>::empty(),
            r@.extent == (DEFAULT_ATLAS_SIZE as int, DEFAULT_ATLAS_SIZE as int),
            r@.generation == 0,
            r@.evicted == 0,
            r@.atlas_nodes == 1,
            r@.node_bound == 1,
            r@.initial_size == DEFAULT_ATLAS_SIZE,
            r@.max_size == MAX_ATLAS_SIZE,
    {
        Self::new()
    }
}

} // verus!
