use vstd::prelude::*;
use image::ImageError;

verus! {

/// Heights are kept in twentieths of a world unit, so that the remapping
/// curve below is exact in integers.
pub const HEIGHT_SCALE: u32 = 20;

/// Raw samples below this value lie on the sea floor and map to height zero.
pub const SEA_FLOOR_SAMPLE: u8 = 6;

/// Raw sample of the sea level.
pub const SEA_LEVEL_SAMPLE: u8 = 16;

/// World height, in twentieths, of a raw 8-bit heightmap sample:
/// zero below the floor, `0.4 * raw` up to sea level, and above it the
/// sea-level plateau plus `0.35` per raw step.
pub open spec fn height_of(raw: u8) -> nat {
    if raw < SEA_FLOOR_SAMPLE {
        0
    } else if raw <= SEA_LEVEL_SAMPLE {
        8 * raw as nat
    } else {
        8 * SEA_LEVEL_SAMPLE as nat + 7 * (raw - SEA_LEVEL_SAMPLE) as nat
    }
}

pub fn calc_height(raw: u8) -> (r: u32)
    ensures
        r == height_of(raw),
        r <= 8 * 16 + 7 * 239,
{
    if raw < SEA_FLOOR_SAMPLE {
        return 0;
    }
    if raw <= SEA_LEVEL_SAMPLE {
        return 8 * raw as u32;
    }
    8 * SEA_LEVEL_SAMPLE as u32 + 7 * (raw - SEA_LEVEL_SAMPLE) as u32
}

/// A single-channel 8-bit heightmap; pixel `(x, z)` maps to world `(x, z)`.
pub struct Heightmap {
    pub width: u32,
    pub height: u32,
    /// Row-major samples, `width` per row.
    pub pixels: Vec<u8>,
}

/// Why a buffer of samples does not make a heightmap.
#[derive(Clone, Copy, Debug, PartialEq, Eq, Structural)]
pub enum HeightmapError {
    /// The image has no pixel.
    Empty,
    /// The sample count is not `width * height`.
    SizeMismatch,
    /// The bytes are not an image that can be decoded.
    Undecodable,
}

impl Heightmap {
    pub open spec fn wf(&self) -> bool {
        &&& self.width > 0
        &&& self.height > 0
        &&& self.pixels@.len() == self.width as int * self.height as int
    }

    pub open spec fn pixel(&self, x: int, z: int) -> u8 {
        self.pixels@[z * self.width + x]
    }

    pub fn new(width: u32, height: u32, pixels: Vec<u8>) -> (r: Result<Heightmap, HeightmapError>)
        ensures
            width == 0 || height == 0 ==> r == Err::<Heightmap, HeightmapError>(
                HeightmapError::Empty,
            ),
            width > 0 && height > 0 && pixels@.len() != width as int * height as int ==> r
                == Err::<Heightmap, HeightmapError>(HeightmapError::SizeMismatch),
            width > 0 && height > 0 && pixels@.len() == width as int * height as int ==> r
                is Ok && r->Ok_0.width == width && r->Ok_0.height == height && r->Ok_0.pixels@
                == pixels@,
            r is Ok ==> r->Ok_0.wf(),
    {
        if width == 0 || height == 0 {
            return Err(HeightmapError::Empty);
        }
        assert(width as u64 * height as u64 <= u64::MAX) by (nonlinear_arith)
            requires
                width <= u32::MAX,
                height <= u32::MAX,
        ;
        if pixels.len() as u64 != width as u64 * height as u64 {
            return Err(HeightmapError::SizeMismatch);
        }
        Ok(Heightmap { width, height, pixels })
    }

    pub fn get_pixel(&self, x: u32, z: u32) -> (r: u8)
        requires
            self.wf(),
            x < self.width,
            z < self.height,
        ensures
            r == self.pixel(x as int, z as int),
    {
        let len = self.pixels.len();
        proof {
            assert(z * self.width + x < self.width * self.height) by (nonlinear_arith)
                requires
                    x < self.width,
                    z < self.height,
            ;
            assert(0 <= z * self.width) by (nonlinear_arith)
                requires
                    z >= 0,
                    self.width >= 0,
            ;
        }
        let i = z as usize * self.width as usize + x as usize;
        self.pixels[i]
    }
}

/// Declares `image::ImageError`, the error that decoding returns; it is only
/// told apart from success.
#[verifier::external_type_specification]
#[verifier::external_body]
pub struct ExImageError(ImageError);

/// Width, height and row-major 8-bit gray samples of the image encoded in
/// the bytes, if they decode.
pub uninterp spec fn luma8_decoding(bytes: Seq<u8>) -> Option<(u32, u32, Seq<u8>)>;

/// Relies on `image::load_from_memory` and `DynamicImage::into_luma8`: the
/// bytes decode, or fail to, as a function of the bytes alone, and the image
/// converts to one 8-bit gray sample per pixel.
#[verifier::external_body]
fn decode_luma8(bytes: &[u8]) -> (r: Result<(u32, u32, Vec<u8>), ImageError>)
    ensures
        match r {
            Ok(t) => luma8_decoding(bytes@) == Some((t.0, t.1, t.2@)),
            Err(_) => luma8_decoding(bytes@) is None,
        },
{
    let gray = image::load_from_memory(bytes)?.into_luma8();
    Ok((gray.width(), gray.height(), gray.into_raw()))
}

/// Reads a heightmap from encoded image bytes.
pub fn load_heightmap(bytes: &[u8]) -> (r: Result<Heightmap, HeightmapError>)
    ensures
        luma8_decoding(bytes@) is None ==> r == Err::<Heightmap, HeightmapError>(
            HeightmapError::Undecodable,
        ),
        luma8_decoding(bytes@) matches Some(t) ==> {
            &&& (t.0 == 0 || t.1 == 0) ==> r == Err::<Heightmap, HeightmapError>(HeightmapError::Empty)
            &&& (t.0 > 0 && t.1 > 0 && t.2.len() != t.0 as int * t.1 as int) ==> r == Err::<
                Heightmap,
                HeightmapError,
            >(HeightmapError::SizeMismatch)
            &&& (t.0 > 0 && t.1 > 0 && t.2.len() == t.0 as int * t.1 as int) ==> r is Ok
                && r->Ok_0.width == t.0 && r->Ok_0.height == t.1 && r->Ok_0.pixels@ == t.2
        },
        r is Ok ==> r->Ok_0.wf(),
{
    match decode_luma8(bytes) {
        Ok((width, height, pixels)) => Heightmap::new(width, height, pixels),
        Err(_) => Err(HeightmapError::Undecodable),
    }
}

} // verus!
