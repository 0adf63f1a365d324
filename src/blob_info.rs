use vstd::prelude::*;

verus! {

/// Colour of a body's summary until one is set, as 0xRRGGBBAA (alice blue).
pub const DEFAULT_INFO_COLOR: u32 = 0xF0F8_FFFF;

/// Summary of a built body: the centre of its first segment and the span of
/// all its segments on each axis, as `[min, max]`. A bound that nothing has
/// set yet is `None`.
#[derive(Clone, Copy, Debug)]
pub struct BlobInfo {
    pub center: Option<[i64; 2]>,
    pub xbound: Option<[i64; 2]>,
    pub ybound: Option<[i64; 2]>,
    pub color: u32,
}

/// The span `b` widened to cover `[lo, hi]`; an unset span becomes `[lo, hi]`.
pub open spec fn widened(b: Option<[i64; 2]>, lo: int, hi: int) -> (int, int) {
    match b {
        None => (lo, hi),
        Some(s) => (
            if s[0] <= lo { s[0] as int } else { lo },
            if s[1] >= hi { s[1] as int } else { hi },
        ),
    }
}

/// Both corners of the box of half-extent `size` at `c` fit the coordinate range.
pub open spec fn box_fits(c: [i64; 2], size: [i32; 2]) -> bool {
    &&& i64::MIN <= c[0] - size[0] && c[0] + size[0] <= i64::MAX
    &&& i64::MIN <= c[1] - size[1] && c[1] + size[1] <= i64::MAX
    &&& i64::MIN <= c[0] + size[0] && c[0] - size[0] <= i64::MAX
    &&& i64::MIN <= c[1] + size[1] && c[1] - size[1] <= i64::MAX
}

fn widen(b: Option<[i64; 2]>, lo: i64, hi: i64) -> (r: [i64; 2])
    ensures
        (r[0] as int, r[1] as int) == widened(b, lo as int, hi as int),
{
    match b {
        None => [lo, hi],
        Some(s) => [if s[0] <= lo { s[0] } else { lo }, if s[1] >= hi { s[1] } else { hi }],
    }
}

impl Default for BlobInfo {
    fn default() -> (r: BlobInfo)
        ensures
            r.center is None,
            r.xbound is None,
            r.ybound is None,
            r.color == DEFAULT_INFO_COLOR,
    {
        BlobInfo { center: None, xbound: None, ybound: None, color: DEFAULT_INFO_COLOR }
    }
}

impl BlobInfo {
    /// Starts the summary from one segment of half-extent `size` at `center`.
    pub fn init(&mut self, center: [i64; 2], size: [i32; 2])
        requires
            box_fits(center, size),
        ensures
            final(self).center == Some(center),
            final(self).xbound matches Some(b) && b[0] == center[0] - size[0] && b[1] == center[0] + size[0],
            final(self).ybound matches Some(b) && b[0] == center[1] - size[1] && b[1] == center[1] + size[1],
            final(self).color == old(self).color,
    {
        self.center = Some(center);
        self.xbound = Some([center[0] - size[0] as i64, center[0] + size[0] as i64]);
        self.ybound = Some([center[1] - size[1] as i64, center[1] + size[1] as i64]);
    }

    /// Widens the spans to cover a segment of half-extent `size` at `translation`.
    pub fn add(&mut self, translation: [i64; 2], size: [i32; 2])
        requires
            box_fits(translation, size),
        ensures
            final(self).center == old(self).center,
            final(self).color == old(self).color,
            final(self).xbound matches Some(b) && (b[0] as int, b[1] as int) == widened(
                old(self).xbound,
                translation[0] - size[0],
                translation[0] + size[0],
            ),
            final(self).ybound matches Some(b) && (b[0] as int, b[1] as int) == widened(
                old(self).ybound,
                translation[1] - size[1],
                translation[1] + size[1],
            ),
    {
        let large = [translation[0] + size[0] as i64, translation[1] + size[1] as i64];
        let small = [translation[0] - size[0] as i64, translation[1] - size[1] as i64];
        self.xbound = Some(widen(self.xbound, small[0], large[0]));
        self.ybound = Some(widen(self.ybound, small[1], large[1]));
    }
}

} // verus!
