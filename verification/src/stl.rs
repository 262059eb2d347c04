//! The binary STL layout of a list of triangles.
use crate::point_cloud::Point;
use crate::triangles::Triangle;
use vstd::prelude::*;

verus! {

/// The four bytes of a 32-bit word, least significant first.
pub open spec fn le_bytes(word: u32) -> Seq<u8> {
    seq![
        (word % 256) as u8,
        (word / 256 % 256) as u8,
        (word / 65536 % 256) as u8,
        (word / 16777216) as u8,
    ]
}

/// The twelve bytes of a point: `x`, `y`, then `z`.
pub open spec fn point_bytes(p: Point) -> Seq<u8> {
    le_bytes(p.x) + le_bytes(p.y) + le_bytes(p.z)
}

/// The fifty bytes of one triangle: the normal, the three vertices, and two
/// reserved bytes that are zero.
pub open spec fn record(t: Triangle) -> Seq<u8> {
    point_bytes(t.normal) + point_bytes(t.v0) + point_bytes(t.v1) + point_bytes(t.v2)
        + seq![0u8, 0u8]
}

/// The records of the triangles of a mesh, one after the other.
pub open spec fn records(mesh: Seq<Triangle>) -> Seq<u8>
    decreases mesh.len(),
{
    if mesh.len() == 0 {
        Seq::empty()
    } else {
        records(mesh.drop_last()) + record(mesh.last())
    }
}

/// The eighty zero bytes that open a file.
pub open spec fn header() -> Seq<u8> {
    Seq::new(80, |i: int| 0u8)
}

/// A whole file: the header, the number of triangles as a 32-bit word, and the
/// records in mesh order.
pub open spec fn encode(mesh: Seq<Triangle>) -> Seq<u8> {
    header() + le_bytes(mesh.len() as u32) + records(mesh)
}

/// The 32-bit word whose bytes, least significant first, stand at `at`.
pub open spec fn word_at(bytes: Seq<u8>, at: int) -> u32
    recommends
        0 <= at,
        at + 4 <= bytes.len(),
{
    (bytes[at] + 256 * bytes[at + 1] + 65536 * bytes[at + 2] + 16777216 * bytes[at + 3]) as u32
}

/// The point whose twelve bytes stand at `at`.
pub open spec fn point_at(bytes: Seq<u8>, at: int) -> Point
    recommends
        0 <= at,
        at + 12 <= bytes.len(),
{
    Point { x: word_at(bytes, at), y: word_at(bytes, at + 4), z: word_at(bytes, at + 8) }
}

/// The triangle whose record stands at `at`. The two reserved bytes are not
/// looked at.
pub open spec fn triangle_at(bytes: Seq<u8>, at: int) -> Triangle
    recommends
        0 <= at,
        at + 50 <= bytes.len(),
{
    Triangle {
        normal: point_at(bytes, at),
        v0: point_at(bytes, at + 12),
        v1: point_at(bytes, at + 24),
        v2: point_at(bytes, at + 36),
    }
}

/// The mesh that a file holds, if it is a file: at least a header and a
/// count, and then exactly as many records as the count says. What the header
/// holds is not looked at.
pub open spec fn decode(bytes: Seq<u8>) -> Option<Seq<Triangle>> {
    if bytes.len() < 84 {
        None
    } else if bytes.len() != 84 + 50 * word_at(bytes, 80) {
        None
    } else {
        Some(Seq::new(word_at(bytes, 80) as nat, |k: int| triangle_at(bytes, 84 + 50 * k)))
    }
}

/// A mesh with more triangles than the 32-bit count of the format can hold.
#[derive(Clone, Copy, Debug, PartialEq, Eq)]
pub struct CapacityError {
    /// The number of triangles that was asked for.
    pub triangles: usize,
}

/// A record has fifty bytes.
pub proof fn lemma_record_len(t: Triangle)
    ensures
        record(t).len() == 50,
{
    assert(point_bytes(t.normal).len() == 12);
    assert(point_bytes(t.v0).len() == 12);
    assert(point_bytes(t.v1).len() == 12);
    assert(point_bytes(t.v2).len() == 12);
}

/// The records of a mesh take fifty bytes for each triangle.
pub proof fn lemma_records_len(mesh: Seq<Triangle>)
    ensures
        records(mesh).len() == 50 * mesh.len(),
    decreases mesh.len(),
{
    if mesh.len() > 0 {
        lemma_records_len(mesh.drop_last());
        lemma_record_len(mesh.last());
    }
}

/// A file is 84 bytes longer than its records.
pub proof fn lemma_encode_len(mesh: Seq<Triangle>)
    ensures
        encode(mesh).len() == 80 + 4 + 50 * mesh.len(),
{
    lemma_records_len(mesh);
}

/// A word is the sum of its four bytes, each weighted by its place.
proof fn lemma_word_digits(word: u32)
    ensures
        word / 16777216 < 256,
        word % 256 + 256 * (word / 256 % 256) + 65536 * (word / 65536 % 256) + 16777216 * (word
            / 16777216) == word,
{
    assert(word / 16777216 < 256) by (bit_vector);
    assert(word % 256 + 256 * (word / 256 % 256) + 65536 * (word / 65536 % 256) + 16777216 * (word
        / 16777216) == word) by (bit_vector);
}

/// Reading a word back from its own bytes gives the word.
pub proof fn lemma_word_round_trip(bytes: Seq<u8>, at: int, word: u32)
    requires
        0 <= at,
        at + 4 <= bytes.len(),
        bytes.subrange(at, at + 4) == le_bytes(word),
    ensures
        word_at(bytes, at) == word,
{
    let part = bytes.subrange(at, at + 4);
    assert(part[0] == bytes[at] && part[1] == bytes[at + 1] && part[2] == bytes[at + 2] && part[3]
        == bytes[at + 3]);
    lemma_word_digits(word);
    assert(bytes[at] == word % 256);
    assert(bytes[at + 1] == word / 256 % 256);
    assert(bytes[at + 2] == word / 65536 % 256);
    assert(bytes[at + 3] == word / 16777216);
}

/// Reading a point back from its own bytes gives the point.
pub proof fn lemma_point_round_trip(bytes: Seq<u8>, at: int, p: Point)
    requires
        0 <= at,
        at + 12 <= bytes.len(),
        bytes.subrange(at, at + 12) == point_bytes(p),
    ensures
        point_at(bytes, at) == p,
{
    let part = bytes.subrange(at, at + 12);
    assert(bytes.subrange(at, at + 4) =~= part.subrange(0, 4));
    assert(bytes.subrange(at + 4, at + 8) =~= part.subrange(4, 8));
    assert(bytes.subrange(at + 8, at + 12) =~= part.subrange(8, 12));
    assert(part.subrange(0, 4) =~= le_bytes(p.x));
    assert(part.subrange(4, 8) =~= le_bytes(p.y));
    assert(part.subrange(8, 12) =~= le_bytes(p.z));
    lemma_word_round_trip(bytes, at, p.x);
    lemma_word_round_trip(bytes, at + 4, p.y);
    lemma_word_round_trip(bytes, at + 8, p.z);
}

/// Reading a triangle back from its own record gives the triangle.
pub proof fn lemma_record_round_trip(bytes: Seq<u8>, at: int, t: Triangle)
    requires
        0 <= at,
        at + 50 <= bytes.len(),
        bytes.subrange(at, at + 50) == record(t),
    ensures
        triangle_at(bytes, at) == t,
{
    let part = bytes.subrange(at, at + 50);
    assert(bytes.subrange(at, at + 12) =~= part.subrange(0, 12));
    assert(bytes.subrange(at + 12, at + 24) =~= part.subrange(12, 24));
    assert(bytes.subrange(at + 24, at + 36) =~= part.subrange(24, 36));
    assert(bytes.subrange(at + 36, at + 48) =~= part.subrange(36, 48));
    assert(part.subrange(0, 12) =~= point_bytes(t.normal));
    assert(part.subrange(12, 24) =~= point_bytes(t.v0));
    assert(part.subrange(24, 36) =~= point_bytes(t.v1));
    assert(part.subrange(36, 48) =~= point_bytes(t.v2));
    lemma_point_round_trip(bytes, at, t.normal);
    lemma_point_round_trip(bytes, at + 12, t.v0);
    lemma_point_round_trip(bytes, at + 24, t.v1);
    lemma_point_round_trip(bytes, at + 36, t.v2);
}

/// The record of the `k`-th triangle stands fifty bytes after that of the one
/// before it.
pub proof fn lemma_records_at(mesh: Seq<Triangle>, k: int)
    requires
        0 <= k < mesh.len(),
    ensures
        records(mesh).len() == 50 * mesh.len(),
        records(mesh).subrange(50 * k, 50 * k + 50) == record(mesh[k]),
    decreases mesh.len(),
{
    lemma_records_len(mesh);
    lemma_records_len(mesh.drop_last());
    if k == mesh.len() - 1 {
        assert(records(mesh).subrange(50 * k, 50 * k + 50) =~= record(mesh[k]));
    } else {
        lemma_records_at(mesh.drop_last(), k);
        assert(records(mesh).subrange(50 * k, 50 * k + 50) =~= records(
            mesh.drop_last(),
        ).subrange(50 * k, 50 * k + 50));
    }
}

/// Reading a file back gives the mesh that it was written from, bit for bit:
/// every normal and every vertex.
pub proof fn lemma_round_trip(mesh: Seq<Triangle>)
    requires
        mesh.len() <= u32::MAX,
    ensures
        decode(encode(mesh)) == Some(mesh),
{
    let file = encode(mesh);
    let n = mesh.len() as u32;
    lemma_encode_len(mesh);
    assert(file.subrange(80, 84) =~= le_bytes(n));
    lemma_word_round_trip(file, 80, n);
    let read = decode(file)->0;
    assert forall|k: int| 0 <= k < mesh.len() implies read[k] == mesh[k] by {
        lemma_records_at(mesh, k);
        assert(file.subrange(84 + 50 * k, 84 + 50 * k + 50) =~= records(mesh).subrange(
            50 * k,
            50 * k + 50,
        ));
        lemma_record_round_trip(file, 84 + 50 * k, mesh[k]);
    }
    assert(read =~= mesh);
}

fn word_to_le_bytes(word: u32) -> (bytes: [u8; 4])
    ensures
        bytes@ == le_bytes(word),
{
    let bytes = [
        (word % 256) as u8,
        (word / 256 % 256) as u8,
        (word / 65536 % 256) as u8,
        (word / 16777216) as u8,
    ];
    assert(bytes@ =~= le_bytes(word));
    bytes
}

fn point_to_le_bytes(p: &Point) -> (bytes: [u8; 12])
    ensures
        bytes@ == point_bytes(*p),
{
    let x = word_to_le_bytes(p.x);
    let y = word_to_le_bytes(p.y);
    let z = word_to_le_bytes(p.z);
    let bytes = [x[0], x[1], x[2], x[3], y[0], y[1], y[2], y[3], z[0], z[1], z[2], z[3]];
    assert(bytes@ =~= x@ + y@ + z@);
    bytes
}

/// Lays one triangle out as its fifty-byte record.
pub fn triangle_to_stl_data(t: &Triangle) -> (data: [u8; 50])
    ensures
        data@ == record(*t),
{
    let n = point_to_le_bytes(&t.normal);
    let a = point_to_le_bytes(&t.v0);
    let b = point_to_le_bytes(&t.v1);
    let c = point_to_le_bytes(&t.v2);
    let data = [
        n[0], n[1], n[2], n[3], n[4], n[5], n[6], n[7], n[8], n[9], n[10], n[11],
        a[0], a[1], a[2], a[3], a[4], a[5], a[6], a[7], a[8], a[9], a[10], a[11],
        b[0], b[1], b[2], b[3], b[4], b[5], b[6], b[7], b[8], b[9], b[10], b[11],
        c[0], c[1], c[2], c[3], c[4], c[5], c[6], c[7], c[8], c[9], c[10], c[11],
        0x00, 0x00,
    ];
    assert(data@ =~= n@ + a@ + b@ + c@ + seq![0u8, 0u8]);
    data
}

/// Lays a mesh out as a binary STL file.
///
/// Fails, before writing anything, when the mesh has more triangles than a
/// 32-bit count can hold.
pub fn build(triangles: Vec<Triangle>) -> (result: Result<Vec<u8>, CapacityError>)
    ensures
        result is Ok <==> triangles@.len() <= u32::MAX,
        result matches Ok(data) ==> data@ == encode(triangles@) && data@.len() == 80 + 4 + 50
            * triangles@.len(),
        result matches Err(e) ==> e.triangles == triangles@.len(),
{
    let n = triangles.len();
    if n > u32::MAX as usize {
        return Err(CapacityError { triangles: n });
    }
    let mut data: Vec<u8> = Vec::new();
    let mut i: usize = 0;
    while i < 80
        invariant
            i <= 80,
            data@ == Seq::new(i as nat, |k: int| 0u8),
        decreases 80 - i,
    {
        data.push(0x00);
        i += 1;
    }
    let count = word_to_le_bytes(n as u32);
    data.push(count[0]);
    data.push(count[1]);
    data.push(count[2]);
    data.push(count[3]);
    assert(data@ =~= header() + le_bytes(n as u32));
    let mut t: usize = 0;
    while t < n
        invariant
            t <= n,
            n == triangles@.len(),
            data@ == header() + le_bytes(n as u32) + records(triangles@.take(t as int)),
        decreases n - t,
    {
        let bytes = triangle_to_stl_data(&triangles[t]);
        let ghost before = data@;
        let mut b: usize = 0;
        while b < 50
            invariant
                b <= 50,
                bytes@.len() == 50,
                data@ == before + bytes@.take(b as int),
            decreases 50 - b,
        {
            data.push(bytes[b]);
            b += 1;
        }
        proof {
            assert(bytes@.take(50) =~= bytes@);
            assert(triangles@.take(t + 1).drop_last() =~= triangles@.take(t as int));
            assert(triangles@.take(t + 1).last() == triangles@[t as int]);
            assert(data@ =~= header() + le_bytes(n as u32) + records(triangles@.take(t + 1)));
        }
        t += 1;
    }
    proof {
        assert(triangles@.take(n as int) =~= triangles@);
        lemma_encode_len(triangles@);
    }
    Ok(data)
}

fn read_word(data: &[u8], at: usize) -> (word: u32)
    requires
        at + 4 <= data.len(),
    ensures
        word == word_at(data@, at as int),
{
    let b0: u32 = data[at] as u32;
    let b1: u32 = data[at + 1] as u32;
    let b2: u32 = data[at + 2] as u32;
    let b3: u32 = data[at + 3] as u32;
    b0 + 256 * b1 + 65536 * b2 + 16777216 * b3
}

fn read_point(data: &[u8], at: usize) -> (p: Point)
    requires
        at + 12 <= data.len(),
    ensures
        p == point_at(data@, at as int),
{
    Point { x: read_word(data, at), y: read_word(data, at + 4), z: read_word(data, at + 8) }
}

/// Reads a binary STL file back into its mesh.
///
/// Gives `None` unless the data holds a header, a count, and exactly as many
/// records as the count says.
pub fn parse(data: &[u8]) -> (result: Option<Vec<Triangle>>)
    ensures
        result is Some <==> decode(data@) is Some,
        result matches Some(mesh) ==> decode(data@) == Some(mesh@),
{
    let len = data.len();
    if len < 84 {
        return None;
    }
    let count = read_word(data, 80);
    if len as u64 != 84 + 50 * (count as u64) {
        return None;
    }
    let mut mesh: Vec<Triangle> = Vec::new();
    let mut k: usize = 0;
    while k < count as usize
        invariant
            k <= count,
            len == data.len(),
            len == 84 + 50 * count,
            mesh@.len() == k,
            forall|i: int| 0 <= i < k ==> mesh@[i] == triangle_at(data@, 84 + 50 * i),
        decreases count - k,
    {
        let at = 84 + 50 * k;
        mesh.push(
            Triangle {
                normal: read_point(data, at),
                v0: read_point(data, at + 12),
                v1: read_point(data, at + 24),
                v2: read_point(data, at + 36),
            },
        );
        k += 1;
    }
    assert(mesh@ =~= decode(data@)->0);
    Some(mesh)
}

} // verus!
