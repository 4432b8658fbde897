//! The chunk layout of a binary XML document.
//!
//! A document is a document header (8 bytes), a string pool chunk, a
//! resource map chunk and a run of node chunks. All integers are little
//! endian. `layout_ok` holds of the inputs whose lengths, offsets and
//! references agree with each other; every other input is malformed.

use vstd::prelude::*;

verus! {

/// The 16-bit integer stored at `at`.
pub open spec fn u16_at(b: Seq<u8>, at: int) -> int {
    b[at] as int + 256 * (b[at + 1] as int)
}

/// The 32-bit integer stored at `at`.
pub open spec fn u32_at(b: Seq<u8>, at: int) -> int {
    b[at] as int + 256 * (b[at + 1] as int) + 65536 * (b[at + 2] as int) + 16777216 * (b[at
        + 3] as int)
}

/// The size that the document header declares for its own header.
pub open spec fn document_header_size(b: Seq<u8>) -> int {
    u16_at(b, 2)
}

/// The size that the document header declares for the whole document.
pub open spec fn document_size(b: Seq<u8>) -> int {
    u32_at(b, 4)
}

/// The size of the string pool chunk, its 28-byte header included.
pub open spec fn pool_size(b: Seq<u8>) -> int {
    u32_at(b, 12)
}

/// The number of strings in the pool.
pub open spec fn string_count(b: Seq<u8>) -> int {
    u32_at(b, 16)
}

/// The number of styles in the pool.
pub open spec fn style_count(b: Seq<u8>) -> int {
    u32_at(b, 20)
}

/// The pool stores its strings as UTF-8 (else as UTF-16).
pub open spec fn pool_is_utf8(b: Seq<u8>) -> bool {
    b[25] % 2 == 1
}

/// The offset of the string data, counted from the start of the pool chunk.
pub open spec fn string_start(b: Seq<u8>) -> int {
    u32_at(b, 28)
}

/// The number of bytes of string data.
pub open spec fn string_room(b: Seq<u8>) -> int {
    pool_size(b) - string_start(b)
}

/// The offset of string `i`, counted from the start of the string data.
pub open spec fn string_offset(b: Seq<u8>, i: int) -> int {
    u32_at(b, 36 + 4 * i)
}

/// String `i` lies within the string data, and its length is of the short
/// form.
pub open spec fn string_ok(b: Seq<u8>, i: int) -> bool {
    let o = string_offset(b, i);
    let data = 8 + string_start(b);
    if pool_is_utf8(b) {
        &&& o + 2 <= string_room(b)
        &&& b[data + o + 1] < 128
        &&& o + 2 + b[data + o + 1] <= string_room(b)
    } else {
        &&& o + 2 <= string_room(b)
        &&& u16_at(b, data + o) < 0x8000
        &&& o + 2 + 2 * u16_at(b, data + o) <= string_room(b)
    }
}

/// The string pool lies within the input, holds no styles, and each of its
/// strings lies within its string data.
pub open spec fn pool_ok(b: Seq<u8>) -> bool {
    &&& b.len() >= 36
    &&& style_count(b) == 0
    &&& 28 <= pool_size(b)
    &&& 8 + pool_size(b) <= b.len()
    &&& 4 * string_count(b) <= pool_size(b) - 28
    &&& 28 <= string_start(b) <= pool_size(b)
    &&& forall|i: int| 0 <= i < string_count(b) ==> #[trigger] string_ok(b, i)
}

/// Where the resource map chunk starts.
pub open spec fn map_offset(b: Seq<u8>) -> int {
    8 + pool_size(b)
}

/// The size that the resource map chunk declares for its header.
pub open spec fn map_header_size(b: Seq<u8>) -> int {
    u16_at(b, map_offset(b) + 2)
}

/// The size that the resource map chunk declares for itself.
pub open spec fn map_size(b: Seq<u8>) -> int {
    u32_at(b, map_offset(b) + 4)
}

/// The number of resource identifiers in the map.
pub open spec fn map_count(b: Seq<u8>) -> int {
    (map_size(b) - map_header_size(b)) / 4
}

/// Resource identifier `i` of the map.
pub open spec fn resource_id(b: Seq<u8>, i: int) -> int {
    u32_at(b, map_offset(b) + 8 + 4 * i)
}

/// The resource map lies within the input, and each of its identifiers is
/// one of the platform's or of an application: at least `0x0101_0000`.
pub open spec fn map_ok(b: Seq<u8>) -> bool {
    &&& map_offset(b) + 8 <= b.len()
    &&& map_header_size(b) <= map_size(b)
    &&& map_offset(b) + 8 + 4 * map_count(b) <= b.len()
    &&& forall|i: int| 0 <= i < map_count(b) ==> #[trigger] resource_id(b, i) >= 0x0101_0000
}

/// Where the node chunks start.
pub open spec fn nodes_offset(b: Seq<u8>) -> int {
    map_offset(b) + 8 + 4 * map_count(b)
}

/// The number of bytes that the document header leaves for the node chunks.
pub open spec fn nodes_size(b: Seq<u8>) -> int {
    document_size(b) - document_header_size(b) - pool_size(b) - map_size(b)
}

/// The kind of the node chunk at `at`.
pub open spec fn node_kind(b: Seq<u8>, at: int) -> int {
    u16_at(b, at)
}

/// The number of attributes of the start-element chunk at `at`.
pub open spec fn attribute_count(b: Seq<u8>, at: int) -> int {
    u16_at(b, at + 28)
}

/// The number of bytes that the node chunk at `at` takes, if it is of a known
/// kind and lies within the input: 16 bytes of header and a body whose size
/// goes by the kind.
pub open spec fn node_size(b: Seq<u8>, at: int) -> Option<int> {
    if at + 16 > b.len() {
        None
    } else if node_kind(b, at) == 0x0100 || node_kind(b, at) == 0x0101 || node_kind(b, at)
        == 0x0103 {
        if at + 24 <= b.len() {
            Some(24)
        } else {
            None
        }
    } else if node_kind(b, at) == 0x0104 {
        if at + 28 <= b.len() {
            Some(28)
        } else {
            None
        }
    } else if node_kind(b, at) == 0x0102 {
        if at + 36 <= b.len() && at + 36 + 20 * attribute_count(b, at) <= b.len() {
            Some(36 + 20 * attribute_count(b, at))
        } else {
            None
        }
    } else {
        None
    }
}

/// Attribute `j` of the start-element chunk at `at`, if its value is a
/// string, refers to a string of the pool.
pub open spec fn attribute_ok(b: Seq<u8>, at: int, j: int) -> bool {
    b[at + 36 + 20 * j + 15] == 3 ==> u32_at(b, at + 36 + 20 * j + 16) < string_count(b)
}

/// Each attribute of the start-element chunk at `at` is in order.
pub open spec fn attributes_ok(b: Seq<u8>, at: int) -> bool {
    forall|j: int| 0 <= j < attribute_count(b, at) ==> #[trigger] attribute_ok(b, at, j)
}

/// The greatest number of elements that may be open at once.
pub const MAX_DEPTH: u64 = 256;

/// The node chunks from `at` on are in order, `depth` elements being open:
/// each is of a known kind and lies within the input, no element ends and no
/// character data stands outside an element, no more than `MAX_DEPTH`
/// elements are open at once, and the chunks end where the root element ends
/// or exactly at `end`.
pub open spec fn walk_ok(b: Seq<u8>, at: int, end: int, depth: nat) -> bool
    decreases b.len() - at,
{
    match node_size(b, at) {
        None => false,
        Some(size) => {
            let kind = node_kind(b, at);
            if kind == 0x0102 && !attributes_ok(b, at) {
                false
            } else if kind == 0x0102 && depth >= MAX_DEPTH {
                false
            } else if (kind == 0x0103 || kind == 0x0104) && depth == 0 {
                false
            } else if kind == 0x0103 && depth == 1 {
                true
            } else if at + size == end {
                true
            } else if at + size > end {
                false
            } else {
                walk_ok(
                    b,
                    at + size,
                    end,
                    if kind == 0x0102 {
                        depth + 1
                    } else if kind == 0x0103 {
                        (depth - 1) as nat
                    } else {
                        depth
                    },
                )
            }
        },
    }
}

/// The lengths, offsets and references of the document agree with each
/// other.
pub open spec fn layout_ok(b: Seq<u8>) -> bool {
    &&& pool_ok(b)
    &&& map_ok(b)
    &&& document_header_size(b) + pool_size(b) + map_size(b) <= document_size(b)
    &&& walk_ok(b, nodes_offset(b), nodes_offset(b) + nodes_size(b), 0)
}

/// Reads the 16-bit integer stored at `at`.
fn read_u16(bytes: &[u8], at: usize) -> (v: u64)
    requires
        at + 2 <= bytes@.len(),
    ensures
        v == u16_at(bytes@, at as int),
        v < 0x1_0000,
{
    bytes[at] as u64 + 256 * (bytes[at + 1] as u64)
}

/// Reads the 32-bit integer stored at `at`.
fn read_u32(bytes: &[u8], at: usize) -> (v: u64)
    requires
        at + 4 <= bytes@.len(),
    ensures
        v == u32_at(bytes@, at as int),
        v < 0x1_0000_0000,
{
    bytes[at] as u64 + 256 * (bytes[at + 1] as u64) + 65536 * (bytes[at + 2] as u64) + 16777216
        * (bytes[at + 3] as u64)
}

/// Tells whether the string pool is in order.
fn check_pool(bytes: &[u8]) -> (ok: bool)
    ensures
        ok == pool_ok(bytes@),
{
    let n = bytes.len() as u64;
    if n < 36 {
        return false;
    }
    let size = read_u32(bytes, 12);
    let count = read_u32(bytes, 16);
    let styles = read_u32(bytes, 20);
    let start = read_u32(bytes, 28);
    if styles != 0 || size < 28 || 8 + size > n || 4 * count > size - 28 || start < 28 || start
        > size {
        return false;
    }
    let utf8 = bytes[25] % 2 == 1;
    let room = size - start;
    let data = 8 + start;
    let mut i: u64 = 0;
    while i < count
        invariant
            i <= count,
            n == bytes@.len(),
            n <= usize::MAX,
            n >= 36,
            size == pool_size(bytes@),
            count == string_count(bytes@),
            start == string_start(bytes@),
            utf8 == pool_is_utf8(bytes@),
            room == size - start,
            data == 8 + start,
            28 <= size,
            8 + size <= n,
            4 * count <= size - 28,
            28 <= start <= size,
            forall|k: int| 0 <= k < i ==> #[trigger] string_ok(bytes@, k),
        decreases count - i,
    {
        let o = read_u32(bytes, (36 + 4 * i) as usize);
        if o + 2 > room {
            assert(!string_ok(bytes@, i as int));
            return false;
        }
        if utf8 {
            let len = bytes[(data + o + 1) as usize] as u64;
            if len >= 128 || o + 2 + len > room {
                assert(!string_ok(bytes@, i as int));
                return false;
            }
        } else {
            let len = read_u16(bytes, (data + o) as usize);
            if len >= 0x8000 || o + 2 + 2 * len > room {
                assert(!string_ok(bytes@, i as int));
                return false;
            }
        }
        assert(string_ok(bytes@, i as int));
        i += 1;
    }
    true
}

/// Tells whether the resource map is in order. The string pool is.
fn check_map(bytes: &[u8]) -> (ok: bool)
    requires
        pool_ok(bytes@),
    ensures
        ok == map_ok(bytes@),
{
    let n = bytes.len() as u64;
    let at = 8 + read_u32(bytes, 12);
    if at + 8 > n {
        return false;
    }
    let header = read_u16(bytes, (at + 2) as usize);
    let size = read_u32(bytes, (at + 4) as usize);
    if header > size {
        return false;
    }
    let count = (size - header) / 4;
    if at + 8 + 4 * count > n {
        return false;
    }
    let mut i: u64 = 0;
    while i < count
        invariant
            i <= count,
            n == bytes@.len(),
            n <= usize::MAX,
            at == map_offset(bytes@),
            count == map_count(bytes@),
            at + 8 + 4 * count <= n,
            forall|k: int| 0 <= k < i ==> #[trigger] resource_id(bytes@, k) >= 0x0101_0000,
        decreases count - i,
    {
        let id = read_u32(bytes, (at + 8 + 4 * i) as usize);
        if id < 0x0101_0000 {
            assert(resource_id(bytes@, i as int) < 0x0101_0000);
            return false;
        }
        i += 1;
    }
    true
}

/// The number of bytes of the node chunk at `at`, if it is of a known kind
/// and lies within the input.
fn measure_node(bytes: &[u8], at: u64) -> (size: Option<u64>)
    requires
        at <= bytes@.len(),
    ensures
        size matches Some(s) ==> node_size(bytes@, at as int) == Some(s as int) && at + s
            <= bytes@.len() && s >= 24,
        size is None ==> node_size(bytes@, at as int) is None,
{
    let n = bytes.len() as u64;
    if n - at < 16 {
        return None;
    }
    let kind = read_u16(bytes, at as usize);
    if kind == 0x0100 || kind == 0x0101 || kind == 0x0103 {
        if n - at >= 24 {
            Some(24)
        } else {
            None
        }
    } else if kind == 0x0104 {
        if n - at >= 28 {
            Some(28)
        } else {
            None
        }
    } else if kind == 0x0102 {
        if n - at < 36 {
            return None;
        }
        let count = read_u16(bytes, (at + 28) as usize);
        if n - at - 36 >= 20 * count {
            Some(36 + 20 * count)
        } else {
            None
        }
    } else {
        None
    }
}

/// Tells whether the attributes of the start-element chunk at `at` are in
/// order.
fn check_attributes(bytes: &[u8], at: u64, strings: u64) -> (ok: bool)
    requires
        at + 36 <= bytes@.len(),
        at + 36 + 20 * attribute_count(bytes@, at as int) <= bytes@.len(),
        strings == string_count(bytes@),
    ensures
        ok == attributes_ok(bytes@, at as int),
{
    let n = bytes.len() as u64;
    let count = read_u16(bytes, (at + 28) as usize);
    let mut j: u64 = 0;
    while j < count
        invariant
            j <= count,
            n == bytes@.len(),
            n <= usize::MAX,
            count == attribute_count(bytes@, at as int),
            at + 36 + 20 * count <= bytes@.len(),
            strings == string_count(bytes@),
            forall|k: int| 0 <= k < j ==> #[trigger] attribute_ok(bytes@, at as int, k),
        decreases count - j,
    {
        let a = at + 36 + 20 * j;
        if bytes[(a + 15) as usize] == 3 {
            let data = read_u32(bytes, (a + 16) as usize);
            if data >= strings {
                assert(!attribute_ok(bytes@, at as int, j as int));
                return false;
            }
        }
        assert(attribute_ok(bytes@, at as int, j as int));
        j += 1;
    }
    true
}

/// Tells whether the lengths, offsets and references of a binary XML
/// document agree with each other.
pub fn check_layout(bytes: &[u8]) -> (ok: bool)
    ensures
        ok == layout_ok(bytes@),
{
    if !check_pool(bytes) {
        return false;
    }
    if !check_map(bytes) {
        return false;
    }
    let n = bytes.len() as u64;
    let strings = read_u32(bytes, 16);
    let pool = read_u32(bytes, 12);
    let map_at = 8 + pool;
    let map_header = read_u16(bytes, (map_at + 2) as usize);
    let map_bytes = read_u32(bytes, (map_at + 4) as usize);
    let first = map_at + 8 + 4 * ((map_bytes - map_header) / 4);
    let declared = read_u32(bytes, 4);
    let header = read_u16(bytes, 2);
    if header + pool + map_bytes > declared {
        return false;
    }
    let end = first + (declared - header - pool - map_bytes);
    let mut at: u64 = first;
    let mut depth: u64 = 0;
    loop
        invariant
            n == bytes@.len(),
            n <= usize::MAX,
            strings == string_count(bytes@),
            first <= at <= n,
            at < end || at == first,
            end < 0x3_0000_0000,
            depth <= at,
            layout_ok(bytes@) == walk_ok(bytes@, at as int, end as int, depth as nat),
        decreases n - at,
    {
        let size = match measure_node(bytes, at) {
            Some(size) => size,
            None => {
                return false;
            },
        };
        let kind = read_u16(bytes, at as usize);
        if kind == 0x0102 && !check_attributes(bytes, at, strings) {
            return false;
        }
        if kind == 0x0102 && depth >= MAX_DEPTH {
            return false;
        }
        if (kind == 0x0103 || kind == 0x0104) && depth == 0 {
            return false;
        }
        if kind == 0x0103 && depth == 1 {
            return true;
        }
        if at + size == end {
            return true;
        }
        if at + size > end {
            return false;
        }
        if kind == 0x0102 {
            depth += 1;
        } else if kind == 0x0103 {
            depth -= 1;
        }
        at += size;
    }
}

} // verus!
