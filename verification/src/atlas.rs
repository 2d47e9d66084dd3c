use vstd::prelude::*;
use guillotiere::{AllocId, AtlasAllocator};

verus! {

#[verifier::external_type_specification]
#[verifier::external_body]
pub struct ExAtlasAllocator(AtlasAllocator);

/// The rectangles a `guillotiere::AtlasAllocator` has handed out and not yet
/// taken back: each allocation id, by its `AllocId::serialize` value, with
/// its rectangle as `(x, y, width, height)`.
pub uninterp spec fn atlas_allocations(atlas: AtlasAllocator) -> Map<u32, (i32, i32, i32, i32)>;

/// The size `(width, height)` a `guillotiere::AtlasAllocator` was made with.
pub uninterp spec fn atlas_extent(atlas: AtlasAllocator) -> (i32, i32);

/// The number of node slots of a `guillotiere::AtlasAllocator`: the length of
/// its node vector. An allocation id holds a node's index in 24 bits, so the
/// allocator only works while its node slots stay below `2^24`.
pub uninterp spec fn atlas_node_count(atlas: AtlasAllocator) -> nat;

/// What `AtlasAllocator::new` makes for a `width` by `height` atlas. The
/// allocator is built the same way every time, so its value is a function of
/// the size alone.
pub uninterp spec fn fresh_atlas(width: i32, height: i32) -> AtlasAllocator;

/// What `AtlasAllocator::allocate` does with a `width` by `height` request:
/// the allocation it returns (serialized id and top left corner, or `None`
/// on a refusal), and the allocator afterwards. The allocator chooses among
/// its free rectangles by a fixed rule, without hashing or chance, so both
/// are functions of the allocator's state and the request alone.
pub uninterp spec fn atlas_allocation(atlas: AtlasAllocator, width: i32, height: i32) -> (
    Option<(u32, i32, i32)>,
    AtlasAllocator,
);

/// The allocator after placing each of `sizes` in turn, starting from
/// `atlas`, if every one of them was placed.
pub open spec fn packed(atlas: AtlasAllocator, sizes: Seq<(i32, i32)>) -> Option<AtlasAllocator>
    decreases sizes.len(),
{
    if sizes.len() == 0 {
        Some(atlas)
    } else {
        match packed(atlas, sizes.drop_last()) {
            Some(before) => {
                let step = atlas_allocation(before, sizes.last().0, sizes.last().1);
                if step.0 is Some {
                    Some(step.1)
                } else {
                    None
                }
            },
            None => None,
        }
    }
}

/// Whether a fresh atlas of `extent` places every one of `sizes`, in order.
pub open spec fn packs(extent: (i32, i32), sizes: Seq<(i32, i32)>) -> bool {
    packed(fresh_atlas(extent.0, extent.1), sizes) is Some
}

/// A sequence of requests that is placed in full has each of its prefixes placed in full.
pub proof fn lemma_packed_prefix(atlas: AtlasAllocator, sizes: Seq<(i32, i32)>, n: int)
    requires
        0 <= n <= sizes.len(),
        packed(atlas, sizes) is Some,
    ensures
        packed(atlas, sizes.take(n)) is Some,
    decreases sizes.len(),
{
    if n < sizes.len() {
        assert(sizes.drop_last().take(n) =~= sizes.take(n));
        lemma_packed_prefix(atlas, sizes.drop_last(), n);
    } else {
        assert(sizes.take(n) =~= sizes);
    }
}

/// The node slots an allocator may hold before one allocation could need an
/// index that does not fit an allocation id: one allocation adds at most four.
pub open spec fn node_room(nodes: nat) -> bool {
    nodes + 4 <= 0x100_0000
}

/// Whether two rectangles `(x, y, width, height)` do not overlap.
pub open spec fn rects_disjoint(a: (i32, i32, i32, i32), b: (i32, i32, i32, i32)) -> bool {
    ||| a.0 + a.2 <= b.0
    ||| b.0 + b.2 <= a.0
    ||| a.1 + a.3 <= b.1
    ||| b.1 + b.3 <= a.1
}

/// Whether the rectangle `(x, y, width, height)` lies inside an atlas of `extent`.
pub open spec fn rect_inside(rect: (i32, i32, i32, i32), extent: (i32, i32)) -> bool {
    &&& 0 <= rect.0
    &&& 0 <= rect.1
    &&& rect.0 + rect.2 <= extent.0
    &&& rect.1 + rect.3 <= extent.1
}

/// Calls `AtlasAllocator::new` with the size `width` by `height`.
///
/// Claims that the new allocator is `fresh_atlas(width, height)`, and that
/// it has that size, no allocation, and a single node. The allocator asserts that both sides are positive, so they are
/// required.
#[verifier::external_body]
pub(crate) fn new_atlas(width: i32, height: i32) -> (r: AtlasAllocator)
    requires
        width > 0,
        height > 0,
    ensures
        atlas_extent(r) == (width, height),
        atlas_allocations(r).dom() == Set::<u32>::empty(),
        atlas_node_count(r) == 1,
        r == fresh_atlas(width, height),
{
    AtlasAllocator::new(guillotiere::size2(width, height))
}

/// Calls `AtlasAllocator::size`, which returns the size the allocator was made with.
#[verifier::external_body]
pub(crate) fn atlas_size(atlas: &AtlasAllocator) -> (r: (i32, i32))
    ensures
        r == atlas_extent(*atlas),
{
    let size = atlas.size();
    (size.width, size.height)
}

/// Calls `AtlasAllocator::allocate` for a `width` by `height` rectangle, and
/// returns the new allocation's serialized id and its top left corner.
///
/// Claims that the result and the allocator afterwards are
/// `atlas_allocation` of the allocator before and the request; that the size
/// of the atlas does not change; that the allocator
/// takes at most four new node slots; that an empty request is refused; that
/// a refusal changes no allocation and takes no node slot; and that a success adds exactly the
/// returned rectangle, of the requested size, inside the atlas, overlapping
/// no live allocation (it is cut from a free rectangle), under an id that no
/// live allocation has. An allocator that holds no allocation is a single
/// free rectangle covering the atlas (deallocation merges freed space back up
/// the tree to the root), so it places any request that fits at the top left
/// corner. Otherwise, which free space is chosen, and whether a request that
/// could fit is refused, is only named, not stated: it depends on the free
/// rectangles, which are not modelled. A new node whose index does not fit
/// the 24 bits of an allocation id trips a debug assertion and yields ids
/// that clash, so room for four more node slots is required.
#[verifier::external_body]
pub(crate) fn atlas_allocate(atlas: &mut AtlasAllocator, width: i32, height: i32) -> (r: Option<(u32, i32, i32)>)
    requires
        node_room(atlas_node_count(*old(atlas))),
    ensures
        (r, *final(atlas)) == atlas_allocation(*old(atlas), width, height),
        atlas_extent(*final(atlas)) == atlas_extent(*old(atlas)),
        atlas_node_count(*final(atlas)) <= atlas_node_count(*old(atlas)) + 4,
        width <= 0 || height <= 0 ==> r is None,
        r is None ==> atlas_allocations(*final(atlas)) == atlas_allocations(*old(atlas)),
        r is None ==> atlas_node_count(*final(atlas)) == atlas_node_count(*old(atlas)),
        r matches Some((id, x, y)) ==> {
            &&& !atlas_allocations(*old(atlas)).contains_key(id)
            &&& atlas_allocations(*final(atlas)) == atlas_allocations(*old(atlas)).insert(
                id,
                (x, y, width, height),
            )
            &&& rect_inside((x, y, width, height), atlas_extent(*old(atlas)))
            &&& forall|a: u32| #[trigger]
                atlas_allocations(*old(atlas)).contains_key(a) ==> rects_disjoint(
                    (x, y, width, height),
                    atlas_allocations(*old(atlas))[a],
                )
        },
        atlas_allocations(*old(atlas)).dom().is_empty() && 0 < width <= atlas_extent(*old(atlas)).0
            && 0 < height <= atlas_extent(*old(atlas)).1
            ==> (r matches Some((id, x, y)) && x == 0 && y == 0),
{
    match atlas.allocate(guillotiere::size2(width, height)) {
        Some(allocation) => Some(
            (allocation.id.serialize(), allocation.rectangle.min.x, allocation.rectangle.min.y),
        ),
        None => None,
    }
}

/// Calls `AtlasAllocator::deallocate` on the allocation with serialized id `id`.
///
/// Claims that exactly that allocation is taken back, and that neither the
/// size nor the number of node slots changes (freed nodes are kept for
/// reuse). The allocator asserts that the id names a live allocation, so that
/// is required.
#[verifier::external_body]
pub(crate) fn atlas_deallocate(atlas: &mut AtlasAllocator, id: u32)
    requires
        atlas_allocations(*old(atlas)).contains_key(id),
    ensures
        atlas_extent(*final(atlas)) == atlas_extent(*old(atlas)),
        atlas_allocations(*final(atlas)) == atlas_allocations(*old(atlas)).remove(id),
        atlas_node_count(*final(atlas)) == atlas_node_count(*old(atlas)),
{
    atlas.deallocate(AllocId::deserialize(id))
}

} // verus!
