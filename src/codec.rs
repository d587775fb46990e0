use vstd::prelude::*;

verus! {

/// Three `f32` values kept as their IEEE-754 bit patterns.
#[derive(Clone, Copy, Debug, PartialEq, Eq, Structural)]
pub struct Float3 {
    pub x: u32,
    pub y: u32,
    pub z: u32,
}

/// Two `f32` values kept as their IEEE-754 bit patterns.
#[derive(Clone, Copy, Debug, PartialEq, Eq, Structural)]
pub struct Float2 {
    pub u: u32,
    pub v: u32,
}

/// Vertex data of one chunk mesh: the on-disk and inter-thread wire format.
pub struct TerrainMeshData {
    pub positions: Vec<Float3>,
    pub normals: Vec<Float3>,
    pub uvs: Vec<Float2>,
    pub indices: Vec<u32>,
}

pub struct MeshDataView {
    pub positions: Seq<Float3>,
    pub normals: Seq<Float3>,
    pub uvs: Seq<Float2>,
    pub indices: Seq<u32>,
}

impl View for TerrainMeshData {
    type V = MeshDataView;

    open spec fn view(&self) -> MeshDataView {
        MeshDataView {
            positions: self.positions@,
            normals: self.normals@,
            uvs: self.uvs@,
            indices: self.indices@,
        }
    }
}

/// Why bytes do not decode to a mesh.
#[derive(Clone, Copy, Debug, PartialEq, Eq, Structural)]
pub enum DecodeError {
    /// The input ends inside a length prefix, an array or a 4-byte word.
    Truncated,
    /// Bytes follow the last array.
    TrailingBytes,
    /// Positions, normals and uvs do not have one entry per vertex.
    AttributeLengthMismatch,
    /// A triangle index names no vertex.
    IndexOutOfRange,
}

pub const WORD_SPLIT: u64 = 0x1_0000_0000;

/// A mesh that the format carries: one normal and one uv per position, every
/// index naming a position, and lengths that fit a 64-bit prefix.
pub open spec fn valid_mesh(m: MeshDataView) -> bool {
    &&& m.normals.len() == m.positions.len()
    &&& m.uvs.len() == m.positions.len()
    &&& forall|i: int| 0 <= i < m.indices.len() ==> (#[trigger] m.indices[i]) < m.positions.len()
    &&& m.positions.len() < 0x1_0000_0000_0000_0000
    &&& m.indices.len() < 0x1_0000_0000_0000_0000
}

pub open spec fn flat3(s: Seq<Float3>) -> Seq<u32> {
    Seq::new(
        3 * s.len(),
        |k: int|
            if k % 3 == 0 {
                s[k / 3].x
            } else if k % 3 == 1 {
                s[k / 3].y
            } else {
                s[k / 3].z
            },
    )
}

pub open spec fn flat2(s: Seq<Float2>) -> Seq<u32> {
    Seq::new(2 * s.len(), |k: int| if k % 2 == 0 { s[k / 2].u } else { s[k / 2].v })
}

/// A 64-bit length prefix as two words, low word first.
pub open spec fn count_words(c: nat) -> Seq<u32> {
    seq![(c % 0x1_0000_0000) as u32, (c / 0x1_0000_0000) as u32]
}

/// The mesh as 32-bit words: each array is its length (two words) followed by
/// its elements, in the order positions, normals, uvs, indices.
#[verifier::opaque]
pub open spec fn mesh_words(m: MeshDataView) -> Seq<u32> {
    count_words(m.positions.len()) + flat3(m.positions) + count_words(m.normals.len()) + flat3(
        m.normals,
    ) + count_words(m.uvs.len()) + flat2(m.uvs) + count_words(m.indices.len()) + m.indices
}

pub open spec fn byte_of(v: u32, b: int) -> u8 {
    ((v >> ((8 * b) as u32)) & 0xff) as u8
}

/// Words as little-endian bytes.
pub open spec fn word_bytes(w: Seq<u32>) -> Seq<u8> {
    Seq::new(4 * w.len(), |k: int| byte_of(w[k / 4], k % 4))
}

pub open spec fn word_at(b: Seq<u8>, k: int) -> u32 {
    (b[4 * k] as u32) | ((b[4 * k + 1] as u32) << 8u32) | ((b[4 * k + 2] as u32) << 16u32) | ((b[4
        * k + 3] as u32) << 24u32)
}

/// Little-endian bytes read back as words.
pub open spec fn bytes_words(b: Seq<u8>) -> Seq<u32> {
    Seq::new(b.len() / 4, |k: int| word_at(b, k))
}

pub open spec fn encode_spec(m: MeshDataView) -> Seq<u8> {
    word_bytes(mesh_words(m))
}

pub open spec fn count_at(w: Seq<u32>, off: int) -> int {
    w[off] as int + w[off + 1] as int * 0x1_0000_0000
}

pub open spec fn unflat3(w: Seq<u32>, off: int, n: int) -> Seq<Float3> {
    Seq::new(
        n as nat,
        |i: int| Float3 { x: w[off + 3 * i], y: w[off + 3 * i + 1], z: w[off + 3 * i + 2] },
    )
}

pub open spec fn unflat2(w: Seq<u32>, off: int, n: int) -> Seq<Float2> {
    Seq::new(n as nat, |i: int| Float2 { u: w[off + 2 * i], v: w[off + 2 * i + 1] })
}

/// Reads a mesh from words, or says what is wrong with them.
pub open spec fn decode_words(w: Seq<u32>) -> Result<MeshDataView, DecodeError> {
    if w.len() < 2 {
        Err(DecodeError::Truncated)
    } else {
        let np = count_at(w, 0);
        let o1 = 2 + 3 * np;
        if w.len() < o1 + 2 {
            Err(DecodeError::Truncated)
        } else {
            let nn = count_at(w, o1);
            let o2 = o1 + 2 + 3 * nn;
            if w.len() < o2 + 2 {
                Err(DecodeError::Truncated)
            } else {
                let nu = count_at(w, o2);
                let o3 = o2 + 2 + 2 * nu;
                if w.len() < o3 + 2 {
                    Err(DecodeError::Truncated)
                } else {
                    let ni = count_at(w, o3);
                    let o4 = o3 + 2 + ni;
                    if w.len() < o4 {
                        Err(DecodeError::Truncated)
                    } else if w.len() > o4 {
                        Err(DecodeError::TrailingBytes)
                    } else if nn != np || nu != np {
                        Err(DecodeError::AttributeLengthMismatch)
                    } else if exists|i: int| o3 + 2 <= i < o4 && w[i] >= np {
                        Err(DecodeError::IndexOutOfRange)
                    } else {
                        Ok(
                            MeshDataView {
                                positions: unflat3(w, 2, np),
                                normals: unflat3(w, o1 + 2, nn),
                                uvs: unflat2(w, o2 + 2, nu),
                                indices: w.subrange(o3 + 2, o4),
                            },
                        )
                    }
                }
            }
        }
    }
}

pub open spec fn decode_spec(b: Seq<u8>) -> Result<MeshDataView, DecodeError> {
    if b.len() % 4 != 0 {
        Err(DecodeError::Truncated)
    } else {
        decode_words(bytes_words(b))
    }
}

proof fn lemma_word_bytes_push(w: Seq<u32>, v: u32)
    ensures
        word_bytes(w.push(v)) == word_bytes(w) + seq![byte_of(v, 0), byte_of(v, 1), byte_of(v, 2), byte_of(v, 3)],
{
    let l = word_bytes(w.push(v));
    let r = word_bytes(w) + seq![byte_of(v, 0), byte_of(v, 1), byte_of(v, 2), byte_of(v, 3)];
    assert forall|k: int| 0 <= k < l.len() implies l[k] == r[k] by {
        if k < 4 * w.len() {
            assert(k / 4 < w.len());
        } else {
            assert(k / 4 == w.len());
        }
    }
    assert(l =~= r);
}

fn push_word(out: &mut Vec<u8>, v: u32, Ghost(words): Ghost<Seq<u32>>)
    requires
        old(out)@ == word_bytes(words),
    ensures
        final(out)@ == word_bytes(words.push(v)),
{
    proof {
        lemma_word_bytes_push(words, v);
        assert(v >> 0u32 == v) by (bit_vector);
        assert(byte_of(v, 0) == (v & 0xff) as u8);
        assert(byte_of(v, 1) == ((v >> 8) & 0xff) as u8);
        assert(byte_of(v, 2) == ((v >> 16) & 0xff) as u8);
        assert(byte_of(v, 3) == ((v >> 24) & 0xff) as u8);
    }
    out.push((v & 0xff) as u8);
    out.push(((v >> 8) & 0xff) as u8);
    out.push(((v >> 16) & 0xff) as u8);
    out.push(((v >> 24) & 0xff) as u8);
}

fn push_count(out: &mut Vec<u8>, c: usize, Ghost(words): Ghost<Seq<u32>>)
    requires
        old(out)@ == word_bytes(words),
    ensures
        final(out)@ == word_bytes(words + count_words(c as nat)),
{
    let c64 = c as u64;
    let lo = (c64 % WORD_SPLIT) as u32;
    let hi = (c64 / WORD_SPLIT) as u32;
    push_word(out, lo, Ghost(words));
    push_word(out, hi, Ghost(words.push(lo)));
    assert(words.push(lo).push(hi) =~= words + count_words(c as nat));
}

/// Serialises a mesh: each array as a 64-bit little-endian length followed by
/// its elements as little-endian 32-bit words.
pub fn encode(mesh: &TerrainMeshData) -> (r: Vec<u8>)
    ensures
        r@ == encode_spec(mesh@),
{
    let mut out: Vec<u8> = Vec::new();
    let ghost m = mesh@;
    assert(out@ =~= word_bytes(Seq::<u32>::empty()));
    push_count(&mut out, mesh.positions.len(), Ghost(Seq::empty()));
    let ghost w0 = Seq::<u32>::empty() + count_words(m.positions.len());
    let w1g = push_float3s(&mut out, &mesh.positions, Ghost(w0));
    let ghost w1 = w1g@;
    push_count(&mut out, mesh.normals.len(), Ghost(w1));
    let ghost w2 = w1 + count_words(m.normals.len());
    let w3g = push_float3s(&mut out, &mesh.normals, Ghost(w2));
    let ghost w3 = w3g@;
    push_count(&mut out, mesh.uvs.len(), Ghost(w3));
    let ghost w4 = w3 + count_words(m.uvs.len());
    let w5g = push_float2s(&mut out, &mesh.uvs, Ghost(w4));
    let ghost w5 = w5g@;
    push_count(&mut out, mesh.indices.len(), Ghost(w5));
    let ghost w6 = w5 + count_words(m.indices.len());
    let mut i: usize = 0;
    while i < mesh.indices.len()
        invariant
            i <= mesh.indices@.len(),
            out@ == word_bytes(w6 + mesh.indices@.take(i as int)),
        decreases mesh.indices@.len() - i,
    {
        push_word(&mut out, mesh.indices[i], Ghost(w6 + mesh.indices@.take(i as int)));
        assert((w6 + mesh.indices@.take(i as int)).push(mesh.indices@[i as int]) =~= w6
            + mesh.indices@.take(i + 1));
        i = i + 1;
    }
    assert(mesh.indices@.take(i as int) =~= mesh.indices@);
    reveal(mesh_words);
    assert(w6 + mesh.indices@ =~= mesh_words(m));
    out
}

fn push_float3s(out: &mut Vec<u8>, s: &Vec<Float3>, Ghost(words): Ghost<Seq<u32>>) -> (res: Ghost<Seq<u32>>)
    requires
        old(out)@ == word_bytes(words),
    ensures
        res@ == words + flat3(s@),
        final(out)@ == word_bytes(res@),
{
    let mut i: usize = 0;
    while i < s.len()
        invariant
            i <= s@.len(),
            out@ == word_bytes(words + flat3(s@.take(i as int))),
        decreases s@.len() - i,
    {
        let e = s[i];
        let ghost pre = words + flat3(s@.take(i as int));
        push_word(out, e.x, Ghost(pre));
        push_word(out, e.y, Ghost(pre.push(e.x)));
        push_word(out, e.z, Ghost(pre.push(e.x).push(e.y)));
        assert(pre.push(e.x).push(e.y).push(e.z) =~= words + flat3(s@.take(i + 1)));
        i = i + 1;
    }
    assert(s@.take(i as int) =~= s@);
    Ghost(words + flat3(s@))
}

fn push_float2s(out: &mut Vec<u8>, s: &Vec<Float2>, Ghost(words): Ghost<Seq<u32>>) -> (res: Ghost<Seq<u32>>)
    requires
        old(out)@ == word_bytes(words),
    ensures
        res@ == words + flat2(s@),
        final(out)@ == word_bytes(res@),
{
    let mut i: usize = 0;
    while i < s.len()
        invariant
            i <= s@.len(),
            out@ == word_bytes(words + flat2(s@.take(i as int))),
        decreases s@.len() - i,
    {
        let e = s[i];
        let ghost pre = words + flat2(s@.take(i as int));
        push_word(out, e.u, Ghost(pre));
        push_word(out, e.v, Ghost(pre.push(e.u)));
        assert(pre.push(e.u).push(e.v) =~= words + flat2(s@.take(i + 1)));
        i = i + 1;
    }
    assert(s@.take(i as int) =~= s@);
    Ghost(words + flat2(s@))
}

fn bytes_to_words(bytes: &[u8]) -> (w: Vec<u32>)
    requires
        bytes@.len() % 4 == 0,
    ensures
        w@ == bytes_words(bytes@),
{
    let bl = bytes.len();
    let n = bl / 4;
    let mut w: Vec<u32> = Vec::with_capacity(n);
    let mut k: usize = 0;
    while k < n
        invariant
            bl == bytes@.len(),
            n == bytes@.len() / 4,
            bytes@.len() % 4 == 0,
            k <= n,
            w@.len() == k,
            forall|t: int| 0 <= t < k ==> w@[t] == word_at(bytes@, t),
        decreases n - k,
    {
        let b = 4 * k;
        let v = (bytes[b] as u32) | ((bytes[b + 1] as u32) << 8u32) | ((bytes[b + 2] as u32) << 16u32)
            | ((bytes[b + 3] as u32) << 24u32);
        w.push(v);
        k = k + 1;
    }
    assert(w@ =~= bytes_words(bytes@));
    w
}

fn read_count(w: &Vec<u32>, off: usize) -> (c: u64)
    requires
        off + 2 <= w@.len(),
    ensures
        c == count_at(w@, off as int),
{
    let _ = w.len();
    let lo = w[off] as u64;
    let hi = w[off + 1] as u64;
    assert(hi * 0x1_0000_0000 + lo <= u64::MAX) by (nonlinear_arith)
        requires
            hi < 0x1_0000_0000,
            lo < 0x1_0000_0000,
    ;
    lo + hi * WORD_SPLIT
}

fn read_float3s(w: &Vec<u32>, off: usize, n: usize) -> (r: Vec<Float3>)
    requires
        off + 3 * n <= w@.len(),
    ensures
        r@ == unflat3(w@, off as int, n as int),
{
    let mut r: Vec<Float3> = Vec::with_capacity(n);
    let wl = w.len();
    let mut i: usize = 0;
    while i < n
        invariant
            wl == w@.len(),
            off + 3 * n <= w@.len(),
            i <= n,
            r@ =~= unflat3(w@, off as int, i as int),
        decreases n - i,
    {
        let b = off + 3 * i;
        r.push(Float3 { x: w[b], y: w[b + 1], z: w[b + 2] });
        i = i + 1;
    }
    r
}

fn read_float2s(w: &Vec<u32>, off: usize, n: usize) -> (r: Vec<Float2>)
    requires
        off + 2 * n <= w@.len(),
    ensures
        r@ == unflat2(w@, off as int, n as int),
{
    let mut r: Vec<Float2> = Vec::with_capacity(n);
    let wl = w.len();
    let mut i: usize = 0;
    while i < n
        invariant
            wl == w@.len(),
            off + 2 * n <= w@.len(),
            i <= n,
            r@ =~= unflat2(w@, off as int, i as int),
        decreases n - i,
    {
        let b = off + 2 * i;
        r.push(Float2 { u: w[b], v: w[b + 1] });
        i = i + 1;
    }
    r
}

fn copy_words(w: &Vec<u32>, from: usize, to: usize) -> (r: Vec<u32>)
    requires
        from <= to <= w@.len(),
    ensures
        r@ == w@.subrange(from as int, to as int),
{
    let mut r: Vec<u32> = Vec::with_capacity(to - from);
    let mut i = from;
    while i < to
        invariant
            from <= i <= to <= w@.len(),
            r@ =~= w@.subrange(from as int, i as int),
        decreases to - i,
    {
        r.push(w[i]);
        i = i + 1;
    }
    r
}

/// Reads a mesh written by `encode`, rejecting truncated, oversized or
/// inconsistent input.
pub fn decode(bytes: &[u8]) -> (r: Result<TerrainMeshData, DecodeError>)
    ensures
        match r {
            Ok(m) => decode_spec(bytes@) == Ok::<MeshDataView, DecodeError>(m@),
            Err(e) => decode_spec(bytes@) == Err::<MeshDataView, DecodeError>(e),
        },
{
    if bytes.len() % 4 != 0 {
        return Err(DecodeError::Truncated);
    }
    let w = bytes_to_words(bytes);
    let ghost ws = w@;
    let len = w.len();
    if len < 2 {
        return Err(DecodeError::Truncated);
    }
    let np = read_count(&w, 0);
    if np > ((len - 2) / 3) as u64 {
        return Err(DecodeError::Truncated);
    }
    let o1 = 2 + 3 * np as usize;
    if len - o1 < 2 {
        return Err(DecodeError::Truncated);
    }
    let nn = read_count(&w, o1);
    if nn > ((len - o1 - 2) / 3) as u64 {
        return Err(DecodeError::Truncated);
    }
    let o2 = o1 + 2 + 3 * nn as usize;
    if len - o2 < 2 {
        return Err(DecodeError::Truncated);
    }
    let nu = read_count(&w, o2);
    if nu > ((len - o2 - 2) / 2) as u64 {
        return Err(DecodeError::Truncated);
    }
    let o3 = o2 + 2 + 2 * nu as usize;
    if len - o3 < 2 {
        return Err(DecodeError::Truncated);
    }
    let ni = read_count(&w, o3);
    if ni > (len - o3 - 2) as u64 {
        return Err(DecodeError::Truncated);
    }
    let o4 = o3 + 2 + ni as usize;
    if len > o4 {
        return Err(DecodeError::TrailingBytes);
    }
    if nn != np || nu != np {
        return Err(DecodeError::AttributeLengthMismatch);
    }
    let mut i = o3 + 2;
    while i < o4
        invariant
            o3 + 2 <= i <= o4 == len == w@.len(),
            ws == w@,
            bytes@.len() % 4 == 0,
            ws == bytes_words(bytes@),
            np == count_at(ws, 0),
            o1 == 2 + 3 * np,
            nn == count_at(ws, o1 as int),
            o2 == o1 + 2 + 3 * nn,
            nu == count_at(ws, o2 as int),
            o3 == o2 + 2 + 2 * nu,
            ni == count_at(ws, o3 as int),
            o4 == o3 + 2 + ni,
            nn == np,
            nu == np,
            forall|t: int| o3 + 2 <= t < i ==> w@[t] < np,
        decreases o4 - i,
    {
        if w[i] as u64 >= np {
            assert(o3 + 2 <= i < o4 && ws[i as int] >= np);
            return Err(DecodeError::IndexOutOfRange);
        }
        i = i + 1;
    }
    let positions = read_float3s(&w, 2, np as usize);
    let normals = read_float3s(&w, o1 + 2, nn as usize);
    let uvs = read_float2s(&w, o2 + 2, nu as usize);
    let indices = copy_words(&w, o3 + 2, o4);
    let mesh = TerrainMeshData { positions, normals, uvs, indices };
    assert(mesh@ == decode_words(ws)->Ok_0);
    Ok(mesh)
}

proof fn lemma_word_bytes_inverse(v: u32)
    ensures
        (byte_of(v, 0) as u32) | ((byte_of(v, 1) as u32) << 8u32) | ((byte_of(v, 2) as u32) << 16u32)
            | ((byte_of(v, 3) as u32) << 24u32) == v,
{
    assert(v >> 0u32 == v) by (bit_vector);
    let b0 = v & 0xff;
    let b1 = (v >> 8u32) & 0xff;
    let b2 = (v >> 16u32) & 0xff;
    let b3 = (v >> 24u32) & 0xff;
    assert(b0 < 256 && b1 < 256 && b2 < 256 && b3 < 256) by (bit_vector)
        requires
            b0 == v & 0xff,
            b1 == (v >> 8u32) & 0xff,
            b2 == (v >> 16u32) & 0xff,
            b3 == (v >> 24u32) & 0xff,
    ;
    assert(b0 | (b1 << 8u32) | (b2 << 16u32) | (b3 << 24u32) == v) by (bit_vector)
        requires
            b0 == v & 0xff,
            b1 == (v >> 8u32) & 0xff,
            b2 == (v >> 16u32) & 0xff,
            b3 == (v >> 24u32) & 0xff,
    ;
}

proof fn lemma_bytes_words_inverse(w: Seq<u32>)
    ensures
        word_bytes(w).len() % 4 == 0,
        bytes_words(word_bytes(w)) == w,
{
    let b = word_bytes(w);
    assert forall|k: int| 0 <= k < w.len() implies word_at(b, k) == w[k] by {
        assert((4 * k) / 4 == k && (4 * k + 1) / 4 == k && (4 * k + 2) / 4 == k && (4 * k + 3) / 4
            == k);
        assert((4 * k) % 4 == 0 && (4 * k + 1) % 4 == 1 && (4 * k + 2) % 4 == 2 && (4 * k + 3) % 4
            == 3);
        lemma_word_bytes_inverse(w[k]);
    }
    assert(bytes_words(b) =~= w);
}

proof fn lemma_count_words(c: nat)
    requires
        c < 0x1_0000_0000_0000_0000,
    ensures
        count_at(count_words(c), 0) == c,
{
    assert(c / 0x1_0000_0000 < 0x1_0000_0000) by (nonlinear_arith)
        requires
            c < 0x1_0000_0000_0000_0000,
    ;
    assert(c % 0x1_0000_0000 + (c / 0x1_0000_0000) * 0x1_0000_0000 == c) by (nonlinear_arith);
}

proof fn lemma_unflat3(w: Seq<u32>, off: int, s: Seq<Float3>)
    requires
        0 <= off,
        off + 3 * s.len() <= w.len(),
        forall|k: int| 0 <= k < 3 * s.len() ==> w[off + k] == #[trigger] flat3(s)[k],
    ensures
        unflat3(w, off, s.len() as int) == s,
{
    assert forall|i: int| 0 <= i < s.len() implies #[trigger] unflat3(w, off, s.len() as int)[i] == s[i] by {
        assert((3 * i) / 3 == i && (3 * i + 1) / 3 == i && (3 * i + 2) / 3 == i);
        assert((3 * i) % 3 == 0 && (3 * i + 1) % 3 == 1 && (3 * i + 2) % 3 == 2);
        assert(w[off + 3 * i] == flat3(s)[3 * i]);
        assert(w[off + (3 * i + 1)] == flat3(s)[3 * i + 1]);
        assert(w[off + (3 * i + 2)] == flat3(s)[3 * i + 2]);
    }
    assert(unflat3(w, off, s.len() as int) =~= s);
}

proof fn lemma_unflat2(w: Seq<u32>, off: int, s: Seq<Float2>)
    requires
        0 <= off,
        off + 2 * s.len() <= w.len(),
        forall|k: int| 0 <= k < 2 * s.len() ==> w[off + k] == #[trigger] flat2(s)[k],
    ensures
        unflat2(w, off, s.len() as int) == s,
{
    assert forall|i: int| 0 <= i < s.len() implies #[trigger] unflat2(w, off, s.len() as int)[i] == s[i] by {
        assert((2 * i) / 2 == i && (2 * i + 1) / 2 == i);
        assert((2 * i) % 2 == 0 && (2 * i + 1) % 2 == 1);
        assert(w[off + 2 * i] == flat2(s)[2 * i]);
        assert(w[off + (2 * i + 1)] == flat2(s)[2 * i + 1]);
    }
    assert(unflat2(w, off, s.len() as int) =~= s);
}

/// The words of a mesh split into its parts, with where each part starts.
proof fn lemma_mesh_words_layout(m: MeshDataView)
    ensures
        ({
            let w = mesh_words(m);
            let o1 = 2 + 3 * m.positions.len() as int;
            let o2 = o1 + 2 + 3 * m.normals.len() as int;
            let o3 = o2 + 2 + 2 * m.uvs.len() as int;
            &&& w.len() == o3 + 2 + m.indices.len()
            &&& w.subrange(0, 2) == count_words(m.positions.len())
            &&& w.subrange(2, o1) == flat3(m.positions)
            &&& w.subrange(o1, o1 + 2) == count_words(m.normals.len())
            &&& w.subrange(o1 + 2, o2) == flat3(m.normals)
            &&& w.subrange(o2, o2 + 2) == count_words(m.uvs.len())
            &&& w.subrange(o2 + 2, o3) == flat2(m.uvs)
            &&& w.subrange(o3, o3 + 2) == count_words(m.indices.len())
            &&& w.subrange(o3 + 2, w.len() as int) == m.indices
        }),
{
    let c0 = count_words(m.positions.len());
    let c1 = count_words(m.normals.len());
    let c2 = count_words(m.uvs.len());
    let c3 = count_words(m.indices.len());
    let f1 = flat3(m.positions);
    let f2 = flat3(m.normals);
    let f3 = flat2(m.uvs);
    let s1 = c0 + f1;
    let s2 = s1 + c1;
    let s3 = s2 + f2;
    let s4 = s3 + c2;
    let s5 = s4 + f3;
    let s6 = s5 + c3;
    let w = s6 + m.indices;
    reveal(mesh_words);
    assert(w == mesh_words(m));
    assert(w.subrange(0, s6.len() as int) =~= s6);
    assert(s6.subrange(0, s5.len() as int) =~= s5);
    assert(s5.subrange(0, s4.len() as int) =~= s4);
    assert(s4.subrange(0, s3.len() as int) =~= s3);
    assert(s3.subrange(0, s2.len() as int) =~= s2);
    assert(s2.subrange(0, s1.len() as int) =~= s1);
    assert(w.subrange(s6.len() as int, w.len() as int) =~= m.indices);
    assert(s6.subrange(s5.len() as int, s6.len() as int) =~= c3);
    assert(s5.subrange(s4.len() as int, s5.len() as int) =~= f3);
    assert(s4.subrange(s3.len() as int, s4.len() as int) =~= c2);
    assert(s3.subrange(s2.len() as int, s3.len() as int) =~= f2);
    assert(s2.subrange(s1.len() as int, s2.len() as int) =~= c1);
    assert(s1.subrange(c0.len() as int, s1.len() as int) =~= f1);
    assert(s1.subrange(0, 2) =~= c0);
    assert(w.subrange(0, 2) =~= s1.subrange(0, 2));
    assert(w.subrange(2, s1.len() as int) =~= s1.subrange(2, s1.len() as int));
    assert(w.subrange(s1.len() as int, s2.len() as int) =~= s2.subrange(s1.len() as int, s2.len() as int));
    assert(w.subrange(s2.len() as int, s3.len() as int) =~= s3.subrange(s2.len() as int, s3.len() as int));
    assert(w.subrange(s3.len() as int, s4.len() as int) =~= s4.subrange(s3.len() as int, s4.len() as int));
    assert(w.subrange(s4.len() as int, s5.len() as int) =~= s5.subrange(s4.len() as int, s5.len() as int));
    assert(w.subrange(s5.len() as int, s6.len() as int) =~= s6.subrange(s5.len() as int, s6.len() as int));
}

/// Decoding what `encode` wrote gives back the same mesh, for every mesh whose
/// attributes have one entry per vertex and whose indices name vertices.
pub proof fn lemma_decode_encode(m: MeshDataView)
    requires
        valid_mesh(m),
    ensures
        decode_spec(encode_spec(m)) == Ok::<MeshDataView, DecodeError>(m),
{
    let w = mesh_words(m);
    lemma_bytes_words_inverse(w);
    lemma_decode_mesh_words(m);
    assert(encode_spec(m) == word_bytes(w));
    assert(bytes_words(word_bytes(w)) == w);
}

proof fn lemma_decode_mesh_words(m: MeshDataView)
    requires
        valid_mesh(m),
    ensures
        decode_words(mesh_words(m)) == Ok::<MeshDataView, DecodeError>(m),
{
    let w = mesh_words(m);
    lemma_mesh_words_layout(m);
    let np = m.positions.len() as int;
    let ni = m.indices.len() as int;
    lemma_count_words(np as nat);
    lemma_count_words(ni as nat);
    let o1 = 2 + 3 * np;
    let o2 = o1 + 2 + 3 * np;
    let o3 = o2 + 2 + 2 * np;
    let o4 = o3 + 2 + ni;
    assert(w.subrange(0, 2)[0] == w[0] && w.subrange(0, 2)[1] == w[1]);
    assert(w.subrange(o1, o1 + 2)[0] == w[o1] && w.subrange(o1, o1 + 2)[1] == w[o1 + 1]);
    assert(w.subrange(o2, o2 + 2)[0] == w[o2] && w.subrange(o2, o2 + 2)[1] == w[o2 + 1]);
    assert(w.subrange(o3, o3 + 2)[0] == w[o3] && w.subrange(o3, o3 + 2)[1] == w[o3 + 1]);
    assert(count_at(w, 0) == np);
    assert(count_at(w, o1) == np);
    assert(count_at(w, o2) == np);
    assert(count_at(w, o3) == ni);
    assert forall|k: int| 0 <= k < 3 * np implies w[2 + k] == #[trigger] flat3(m.positions)[k] by {
        assert(w.subrange(2, o1)[k] == w[2 + k]);
    }
    lemma_unflat3(w, 2, m.positions);
    assert forall|k: int| 0 <= k < 3 * np implies w[o1 + 2 + k] == #[trigger] flat3(m.normals)[k] by {
        assert(w.subrange(o1 + 2, o2)[k] == w[o1 + 2 + k]);
    }
    lemma_unflat3(w, o1 + 2, m.normals);
    assert forall|k: int| 0 <= k < 2 * np implies w[o2 + 2 + k] == #[trigger] flat2(m.uvs)[k] by {
        assert(w.subrange(o2 + 2, o3)[k] == w[o2 + 2 + k]);
    }
    lemma_unflat2(w, o2 + 2, m.uvs);
    assert forall|i: int| o3 + 2 <= i < o4 implies w[i] < np by {
        assert(w.subrange(o3 + 2, o4)[i - (o3 + 2)] == w[i]);
    }
    assert(decode_words(w) == Ok::<MeshDataView, DecodeError>(m));
}

} // verus!
