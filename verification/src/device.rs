//! Choices made when the Vulkan device is set up: the queue family to
//! render with and the memory type of each allocation.
use vstd::prelude::*;

verus! {

/// What a queue family of a physical device can do.
#[derive(Debug, Clone, Copy, PartialEq, Eq)]
pub struct QueueFamilyCaps {
    /// It has `VK_QUEUE_GRAPHICS_BIT`.
    pub graphics: bool,
    /// It can present to the window surface.
    pub present: bool,
}

/// The family can serve the renderer: it does graphics, and presents when
/// there is a surface to present to.
pub open spec fn family_usable(f: QueueFamilyCaps, need_present: bool) -> bool {
    f.graphics && (!need_present || f.present)
}

/// `(d, q)` is the first usable family, devices in order and the families of
/// each device in order.
pub open spec fn is_first_usable(
    devices: Seq<Vec<QueueFamilyCaps>>,
    need_present: bool,
    d: int,
    q: int,
) -> bool {
    &&& 0 <= d < devices.len()
    &&& 0 <= q < devices[d]@.len()
    &&& family_usable(devices[d]@[q], need_present)
    &&& forall|e: int, f: int|
        0 <= e < devices.len() && 0 <= f < devices[e]@.len() && (e < d || (e == d && f < q))
            ==> !family_usable(#[trigger] devices[e]@[f], need_present)
}

/// Finds the first physical device, in enumeration order, with a usable queue
/// family, and that device's first usable family.
pub fn pick_queue_family(devices: &Vec<Vec<QueueFamilyCaps>>, need_present: bool) -> (r: Option<
    (usize, u32),
>)
    requires
        forall|d: int| 0 <= d < devices@.len() ==> #[trigger] devices@[d]@.len() <= u32::MAX,
    ensures
        match r {
            Some((d, q)) => is_first_usable(devices@, need_present, d as int, q as int),
            None => forall|e: int, f: int|
                0 <= e < devices@.len() && 0 <= f < devices@[e]@.len() ==> !family_usable(
                    #[trigger] devices@[e]@[f],
                    need_present,
                ),
        },
{
    let mut d: usize = 0;
    while d < devices.len()
        invariant
            d <= devices@.len(),
            forall|d: int| 0 <= d < devices@.len() ==> #[trigger] devices@[d]@.len() <= u32::MAX,
            forall|e: int, f: int|
                0 <= e < d && 0 <= f < devices@[e]@.len() ==> !family_usable(
                    #[trigger] devices@[e]@[f],
                    need_present,
                ),
        decreases devices.len() - d,
    {
        let families = &devices[d];
        let mut q: usize = 0;
        while q < families.len()
            invariant
                d < devices@.len(),
                families == devices@[d as int],
                q <= families@.len(),
                families@.len() <= u32::MAX,
                forall|e: int, f: int|
                    0 <= e < d && 0 <= f < devices@[e]@.len() ==> !family_usable(
                        #[trigger] devices@[e]@[f],
                        need_present,
                    ),
                forall|f: int| 0 <= f < q ==> !family_usable(#[trigger] families@[f], need_present),
            decreases families.len() - q,
        {
            let fam = families[q];
            if fam.graphics && (!need_present || fam.present) {
                return Some((d, q as u32));
            }
            q = q + 1;
        }
        d = d + 1;
    }
    None
}

/// Memory type `i` is allowed by `type_bits` and has every property in
/// `flags`.
pub open spec fn memory_type_fits(property_flags: u32, i: int, type_bits: u32, flags: u32) -> bool {
    &&& type_bits & (1u32 << (i as u32)) != 0
    &&& property_flags & flags == flags
}

/// No memory type fits the request.
#[derive(Debug, Clone, Copy, PartialEq, Eq)]
pub struct NoMemoryType {
    pub type_bits: u32,
    pub flags: u32,
}

/// Finds the first of the device's memory types (given by their property
/// flags, at most 32 of them) that the resource's `type_bits` allow and that
/// has all the properties in `flags`.
pub fn find_memory_type(memory_types: &[u32], type_bits: u32, flags: u32) -> (r: Result<
    u32,
    NoMemoryType,
>)
    requires
        memory_types@.len() <= 32,
    ensures
        match r {
            Ok(i) => {
                &&& i < memory_types@.len()
                &&& memory_type_fits(memory_types@[i as int], i as int, type_bits, flags)
                &&& forall|j: int|
                    0 <= j < i ==> !memory_type_fits(
                        #[trigger] memory_types@[j],
                        j,
                        type_bits,
                        flags,
                    )
            },
            Err(e) => {
                &&& e == NoMemoryType { type_bits, flags }
                &&& forall|j: int|
                    0 <= j < memory_types@.len() ==> !memory_type_fits(
                        #[trigger] memory_types@[j],
                        j,
                        type_bits,
                        flags,
                    )
            },
        },
{
    let count = memory_types.len() as u32;
    let mut i: u32 = 0;
    while i < count
        invariant
            i <= count,
            count == memory_types@.len(),
            count <= 32,
            forall|j: int|
                0 <= j < i ==> !memory_type_fits(#[trigger] memory_types@[j], j, type_bits, flags),
        decreases count - i,
    {
        if (type_bits & (1u32 << i)) != 0 && (memory_types[i as usize] & flags) == flags {
            return Ok(i);
        }
        i = i + 1;
    }
    Err(NoMemoryType { type_bits, flags })
}

/// A memory type fits exactly when the resource allows it and no requested
/// property is missing from it; so a fitting type has every requested
/// property bit, not just some of them.
pub proof fn lemma_fit_has_every_property(property_flags: u32, i: int, type_bits: u32, flags: u32)
    requires
        0 <= i < 32,
    ensures
        memory_type_fits(property_flags, i, type_bits, flags) <==> (type_bits & (1u32 << (
        i as u32)) != 0 && flags & !property_flags == 0),
        memory_type_fits(property_flags, i, type_bits, flags) ==> forall|j: u32|
            j < 32 && #[trigger] (flags & (1u32 << j)) != 0 ==> property_flags & (1u32 << j) != 0,
{
    let p = property_flags;
    let f = flags;
    assert((p & f == f) <==> (f & !p == 0)) by (bit_vector);
    if p & f == f {
        assert forall|j: u32| j < 32 && #[trigger] (f & (1u32 << j)) != 0 implies p & (1u32 << j)
            != 0 by {
            assert(p & f == f && j < 32 && f & (1u32 << j) != 0 ==> p & (1u32 << j) != 0)
                by (bit_vector);
        }
    }
}

} // verus!
