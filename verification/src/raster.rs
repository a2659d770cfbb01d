use vstd::prelude::*;

verus! {

/// The engine rasterizes into four-byte pixels in blue-green-red-alpha order.
/// Byte `i` of the normalized red-green-blue-alpha buffer: the red and blue
/// samples of each pixel trade places, green and alpha stay.
pub open spec fn rgba_byte_at(native: Seq<u8>, i: int) -> u8 {
    if i % 4 == 0 {
        native[i + 2]
    } else if i % 4 == 2 {
        native[i - 2]
    } else {
        native[i]
    }
}

/// The whole normalized buffer: same length, every pixel's red and blue
/// samples swapped.
pub open spec fn rgba_of(native: Seq<u8>) -> Seq<u8> {
    Seq::new(native.len(), |i: int| rgba_byte_at(native, i))
}

/// What a normalizing render yields: absence if the engine yielded nothing or
/// a buffer of the wrong extent, else the normalized buffer. The result is a
/// function of the engine's buffer and the requested extent alone, so equal
/// inputs render equally.
pub open spec fn render_result(native: Option<Seq<u8>>, width: int, height: int) -> Option<
    Seq<u8>,
> {
    match native {
        Option::None => Option::None,
        Option::Some(b) => if b.len() == 4 * width * height {
            Option::Some(rgba_of(b))
        } else {
            Option::None
        },
    }
}

/// Render determinism, for the part of rendering this crate owns: the
/// normalized output is pinned down by the engine's buffer and the requested
/// extent, so two renders handed the same bytes for the same extent yield
/// identical output. (That the engine itself rasterizes a page identically
/// twice is the engine's own property and is not provable here.)
pub proof fn lemma_render_deterministic(
    native: Option<Seq<u8>>,
    width: int,
    height: int,
    r1: Option<Seq<u8>>,
    r2: Option<Seq<u8>>,
)
    requires
        r1 == render_result(native, width, height),
        r2 == render_result(native, width, height),
    ensures
        r1 == r2,
{
}

/// Normalizes a tightly packed blue-green-red-alpha raster to
/// red-green-blue-alpha, pixel by pixel.
pub fn bgra_to_rgba(native: &Vec<u8>) -> (out: Vec<u8>)
    requires
        native@.len() % 4 == 0,
    ensures
        out@ == rgba_of(native@),
{
    let n = native.len();
    let mut out: Vec<u8> = Vec::new();
    let mut i: usize = 0;
    while i < n
        invariant
            native@.len() == n,
            n % 4 == 0,
            i % 4 == 0,
            i <= n,
            out@.len() == i,
            forall|j: int| 0 <= j < i ==> out@[j] == rgba_byte_at(native@, j),
        decreases n - i,
    {
        assert((i + 1) % 4 == 1 && (i + 2) % 4 == 2 && (i + 3) % 4 == 3 && (i + 4) % 4 == 0);
        out.push(native[i + 2]);
        out.push(native[i + 1]);
        out.push(native[i]);
        out.push(native[i + 3]);
        i = i + 4;
    }
    assert(out@ =~= rgba_of(native@));
    out
}

} // verus!
