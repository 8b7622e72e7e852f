//! The integer side of the screenshot regression gates: the `WxH` size
//! argument, its text form, and the largest per-channel difference between
//! two RGBA8 images.
use vstd::prelude::*;
use crate::text::{
    chars_of, decimal, is_digit, lemma_parse_decimal, parse_u32, parse_u32_spec, push_decimal,
    IntErrorKind,
};

verus! {

/// The default per-channel tolerance of a stage's pixel comparison.
pub fn default_max_delta() -> (d: u8)
    ensures
        d == 4,
{
    4
}

/// Why a size argument is not `WxH`.
#[derive(Debug, Clone, Copy, PartialEq, Eq)]
pub enum SizeError {
    /// The text does not have exactly one `x` or `X` in it.
    ExpectedWxH,
    /// A side is not a `u32`.
    Number(IntErrorKind),
}

pub open spec fn is_size_sep(c: char) -> bool {
    c == 'x' || c == 'X'
}

/// Position `k` holds the one and only `x` or `X` of `s`.
pub open spec fn single_sep_at(s: Seq<char>, k: int) -> bool {
    &&& 0 <= k < s.len()
    &&& is_size_sep(s[k])
    &&& forall|j: int| 0 <= j < s.len() && j != k ==> !is_size_sep(#[trigger] s[j])
}

/// `WxH`: the text split at `x` or `X` into exactly two parts, each read as a
/// `u32`, the width first.
pub open spec fn parse_size_spec(s: Seq<char>) -> Result<(u32, u32), SizeError> {
    if exists|k: int| single_sep_at(s, k) {
        let k = choose|k: int| single_sep_at(s, k);
        match parse_u32_spec(s.take(k)) {
            Err(e) => Err(SizeError::Number(e)),
            Ok(w) => match parse_u32_spec(s.skip(k + 1)) {
                Err(e) => Err(SizeError::Number(e)),
                Ok(h) => Ok((w, h)),
            },
        }
    } else {
        Err(SizeError::ExpectedWxH)
    }
}

/// Reads a `WxH` size argument such as `1280x720`.
pub fn parse_size(s: &str) -> (r: Result<(u32, u32), SizeError>)
    ensures
        r == parse_size_spec(s@),
{
    let v = chars_of(s);
    let n = v.len();
    let mut first: Option<usize> = None;
    let mut more = false;
    let mut i: usize = 0;
    while i < n
        invariant
            i <= n,
            n == v@.len(),
            v@ == s@,
            first is None ==> forall|j: int| 0 <= j < i ==> !is_size_sep(#[trigger] v@[j]),
            first is None ==> !more,
            first matches Some(a) ==> {
                &&& a < i
                &&& is_size_sep(v@[a as int])
                &&& (!more ==> forall|j: int|
                    0 <= j < i && j != a ==> !is_size_sep(#[trigger] v@[j]))
                &&& (more ==> exists|b: int|
                    0 <= b < i && b != a && is_size_sep(#[trigger] v@[b]))
            },
        decreases n - i,
    {
        let c = v[i];
        if c == 'x' || c == 'X' {
            match first {
                None => {
                    first = Some(i);
                },
                Some(a) => {
                    proof {
                        assert(is_size_sep(v@[i as int]));
                    }
                    more = true;
                },
            }
        }
        i = i + 1;
    }
    match first {
        Some(k) if !more => {
            proof {
                assert(single_sep_at(s@, k as int));
                let kk = choose|kk: int| single_sep_at(s@, kk);
                assert(kk == k);
                assert(s@.take(k as int) =~= v@.subrange(0, k as int));
                assert(s@.skip(k + 1) =~= v@.subrange(k + 1, n as int));
            }
            let w = match parse_u32(v.as_slice(), 0, k) {
                Ok(w) => w,
                Err(e) => return Err(SizeError::Number(e)),
            };
            let h = match parse_u32(v.as_slice(), k + 1, n) {
                Ok(h) => h,
                Err(e) => return Err(SizeError::Number(e)),
            };
            Ok((w, h))
        },
        _ => {
            proof {
                assert forall|k: int| !single_sep_at(s@, k) by {
                    if single_sep_at(s@, k) {
                        if let Some(a) = first {
                            let b = choose|b: int|
                                0 <= b < n && b != a && is_size_sep(#[trigger] v@[b]);
                            assert(b == k || a == k);
                        } else {
                            assert(!is_size_sep(v@[k]));
                        }
                    }
                }
            }
            Err(SizeError::ExpectedWxH)
        },
    }
}

/// The text `WxH` of a size.
pub open spec fn size_text(width: u32, height: u32) -> Seq<char> {
    decimal(width as nat) + seq!['x'] + decimal(height as nat)
}

/// Writes a size as `WxH`, in decimal.
pub fn format_size(width: u32, height: u32) -> (t: String)
    ensures
        t@ == size_text(width, height),
{
    let mut t = String::new();
    push_decimal(&mut t, width);
    proof {
        reveal_strlit("x");
    }
    t.append("x");
    push_decimal(&mut t, height);
    proof {
        assert(t@ =~= size_text(width, height));
    }
    t
}

/// The size that a stage without one renders at.
pub open spec fn default_size() -> (u32, u32) {
    (1280, 720)
}

/// The text that a stage's `size` field is shown as: its `WxH`, and the
/// default `1280x720` when it has none.
pub fn size_field_text(size: Option<[u32; 2]>) -> (t: String)
    ensures
        t@ == match size {
            Some(s) => size_text(s[0], s[1]),
            None => size_text(default_size().0, default_size().1),
        },
{
    match size {
        Some(s) => format_size(s[0], s[1]),
        None => format_size(1280, 720),
    }
}

proof fn lemma_decimal_has_no_sep(n: u32)
    ensures
        forall|i: int|
            0 <= i < decimal(n as nat).len() ==> !is_size_sep(#[trigger] decimal(n as nat)[i]),
{
    crate::text::lemma_decimal_digits(n);
}

/// A size written with `format_size` reads back as the same size.
pub proof fn lemma_parse_format_size(width: u32, height: u32)
    ensures
        parse_size_spec(size_text(width, height)) == Ok::<(u32, u32), SizeError>((width, height)),
{
    let dw = decimal(width as nat);
    let dh = decimal(height as nat);
    let s = size_text(width, height);
    let k = dw.len() as int;
    lemma_decimal_has_no_sep(width);
    lemma_decimal_has_no_sep(height);
    assert(s[k] == 'x');
    assert forall|j: int| 0 <= j < s.len() && j != k implies !is_size_sep(#[trigger] s[j]) by {
        if j < k {
            assert(s[j] == dw[j]);
        } else {
            assert(s[j] == dh[j - k - 1]);
        }
    }
    assert(single_sep_at(s, k));
    let kk = choose|kk: int| single_sep_at(s, kk);
    assert(kk == k);
    assert(s.take(k) =~= dw);
    assert(s.skip(k + 1) =~= dh);
    lemma_parse_decimal(width);
    lemma_parse_decimal(height);
}

/// The text shown for a stage's size reads back as that size, or as the
/// default size when the stage has none.
pub proof fn lemma_size_field_roundtrip(size: Option<[u32; 2]>)
    ensures
        parse_size_spec(
            match size {
                Some(s) => size_text(s[0], s[1]),
                None => size_text(default_size().0, default_size().1),
            },
        ) == Ok::<(u32, u32), SizeError>(
            match size {
                Some(s) => (s[0], s[1]),
                None => default_size(),
            },
        ),
{
    match size {
        Some(s) => lemma_parse_format_size(s[0], s[1]),
        None => lemma_parse_format_size(1280, 720),
    }
}

/// How a comparison of a render with its reference ends.
#[derive(Debug, Clone, Copy, PartialEq, Eq)]
pub enum DiffVerdict {
    Pass,
    /// The structural similarity is below the stage's minimum.
    SsimTooLow,
    /// Some channel differs by more than the stage's tolerance.
    DeltaTooHigh,
    /// The two images differ in size.
    SizeMismatch,
    /// An image could not be loaded.
    LoadFailed,
}

impl DiffVerdict {
    /// The exit code the comparator ends with.
    pub fn exit_code(self) -> (code: u8)
        ensures
            code == match self {
                DiffVerdict::Pass => 0u8,
                DiffVerdict::SsimTooLow => 1u8,
                DiffVerdict::DeltaTooHigh => 2u8,
                DiffVerdict::SizeMismatch => 3u8,
                DiffVerdict::LoadFailed => 4u8,
            },
    {
        match self {
            DiffVerdict::Pass => 0,
            DiffVerdict::SsimTooLow => 1,
            DiffVerdict::DeltaTooHigh => 2,
            DiffVerdict::SizeMismatch => 3,
            DiffVerdict::LoadFailed => 4,
        }
    }
}

/// The verdict on two images of the same size: similarity is checked first,
/// then the largest channel difference against the tolerance.
pub fn diff_verdict(ssim_meets_min: bool, delta: u8, max_delta: u8) -> (v: DiffVerdict)
    ensures
        v == (if !ssim_meets_min {
            DiffVerdict::SsimTooLow
        } else if delta > max_delta {
            DiffVerdict::DeltaTooHigh
        } else {
            DiffVerdict::Pass
        }),
{
    if !ssim_meets_min {
        DiffVerdict::SsimTooLow
    } else if delta > max_delta {
        DiffVerdict::DeltaTooHigh
    } else {
        DiffVerdict::Pass
    }
}

/// Why two images cannot be compared.
#[derive(Debug, Clone, Copy, PartialEq, Eq)]
pub enum CompareError {
    /// The images differ in width or height.
    SizeMismatch,
}

/// An RGBA8 image: `width * height` pixels, row-major, four bytes each.
pub struct Rgba8Image {
    pub width: u32,
    pub height: u32,
    pub data: Vec<u8>,
}

impl Rgba8Image {
    /// The pixel buffer holds exactly four bytes for every pixel.
    pub open spec fn wf(&self) -> bool {
        self.data@.len() == self.width * self.height * 4
    }

    /// An image of one colour.
    pub fn from_pixel(width: u32, height: u32, rgba: [u8; 4]) -> (img: Self)
        requires
            width * height * 4 <= usize::MAX,
        ensures
            img.wf(),
            img.width == width,
            img.height == height,
            forall|i: int| 0 <= i < img.data@.len() ==> #[trigger] img.data@[i] == rgba[i % 4],
    {
        let total = (width as usize) * (height as usize) * 4;
        let mut data: Vec<u8> = Vec::with_capacity(total);
        let mut i: usize = 0;
        while i < total
            invariant
                i <= total,
                total == width * height * 4,
                data@.len() == i,
                forall|j: int| 0 <= j < i ==> #[trigger] data@[j] == rgba[j % 4],
            decreases total - i,
        {
            data.push(rgba[i % 4]);
            i = i + 1;
        }
        Rgba8Image { width, height, data }
    }
}

/// The distance between two channel bytes.
pub open spec fn abs_diff(a: u8, b: u8) -> u8 {
    if a >= b {
        (a - b) as u8
    } else {
        (b - a) as u8
    }
}

/// The largest difference in red, green or blue over the first `n` pixels
/// of two pixel buffers; alpha is not compared.
pub open spec fn max_delta_spec(a: Seq<u8>, b: Seq<u8>, n: nat) -> u8
    decreases n,
{
    if n == 0 {
        0
    } else {
        let m = max_delta_spec(a, b, (n - 1) as nat);
        let p = (n - 1) * 4;
        let d0 = abs_diff(a[p], b[p]);
        let d1 = abs_diff(a[p + 1], b[p + 1]);
        let d2 = abs_diff(a[p + 2], b[p + 2]);
        let m0 = if d0 > m {
            d0
        } else {
            m
        };
        let m1 = if d1 > m0 {
            d1
        } else {
            m0
        };
        if d2 > m1 {
            d2
        } else {
            m1
        }
    }
}

fn channel_diff(x: u8, y: u8) -> (d: u8)
    ensures
        d == abs_diff(x, y),
{
    if x >= y {
        x - y
    } else {
        y - x
    }
}

/// The largest difference between two images in any red, green or blue
/// byte of the same pixel; images of different sizes are not compared.
pub fn max_delta(a: &Rgba8Image, b: &Rgba8Image) -> (r: Result<u8, CompareError>)
    requires
        a.wf(),
        b.wf(),
    ensures
        (a.width != b.width || a.height != b.height) ==> r == Err::<u8, CompareError>(
            CompareError::SizeMismatch,
        ),
        (a.width == b.width && a.height == b.height) ==> r == Ok::<u8, CompareError>(
            max_delta_spec(a.data@, b.data@, (a.width * a.height) as nat),
        ),
{
    if a.width != b.width || a.height != b.height {
        return Err(CompareError::SizeMismatch);
    }
    let count = a.data.len() / 4;
    let mut m: u8 = 0;
    let mut k: usize = 0;
    while k < count
        invariant
            k <= count,
            count == a.width * a.height,
            a.data.len() == count * 4,
            b.data.len() == count * 4,
            m == max_delta_spec(a.data@, b.data@, k as nat),
        decreases count - k,
    {
        proof {
            assert(k * 4 + 3 < count * 4) by (nonlinear_arith)
                requires
                    k < count,
            ;
        }
        let p = k * 4;
        let ghost m_prev = m;
        let d0 = channel_diff(a.data[p], b.data[p]);
        if d0 > m {
            m = d0;
        }
        let d1 = channel_diff(a.data[p + 1], b.data[p + 1]);
        if d1 > m {
            m = d1;
        }
        let d2 = channel_diff(a.data[p + 2], b.data[p + 2]);
        if d2 > m {
            m = d2;
        }
        proof {
            assert((k + 1 - 1) * 4 == p);
        }
        k = k + 1;
    }
    Ok(m)
}

/// No red, green or blue difference exceeds the maximum, and the maximum is
/// zero or one of them.
pub proof fn lemma_max_delta_is_maximum(a: Seq<u8>, b: Seq<u8>, n: nat)
    requires
        a.len() >= n * 4,
        b.len() >= n * 4,
    ensures
        forall|p: int, c: int|
            0 <= p < n && 0 <= c < 3 ==> abs_diff(#[trigger] a[p * 4 + c], b[p * 4 + c])
                <= max_delta_spec(a, b, n),
        max_delta_spec(a, b, n) == 0 || exists|p: int, c: int|
            0 <= p < n && 0 <= c < 3 && abs_diff(#[trigger] a[p * 4 + c], b[p * 4 + c])
                == max_delta_spec(a, b, n),
    decreases n,
{
    if n > 0 {
        lemma_max_delta_is_maximum(a, b, (n - 1) as nat);
        let q = n - 1;
        assert forall|p: int, c: int|
            0 <= p < n && 0 <= c < 3 implies abs_diff(#[trigger] a[p * 4 + c], b[p * 4 + c])
            <= max_delta_spec(a, b, n) by {
            if p < q {
            } else {
                assert(p * 4 + c == q * 4 + c);
            }
        }
        let m = max_delta_spec(a, b, n);
        if m != 0 && m != max_delta_spec(a, b, q as nat) {
            if m == abs_diff(a[q * 4], b[q * 4]) {
                assert(abs_diff(a[q * 4 + 0], b[q * 4 + 0]) == m);
            } else if m == abs_diff(a[q * 4 + 1], b[q * 4 + 1]) {
                assert(abs_diff(a[q * 4 + 1], b[q * 4 + 1]) == m);
            } else {
                assert(abs_diff(a[q * 4 + 2], b[q * 4 + 2]) == m);
            }
        }
    }
}

/// An image does not differ from itself.
pub proof fn lemma_max_delta_identical(a: Seq<u8>, n: nat)
    ensures
        max_delta_spec(a, a, n) == 0,
    decreases n,
{
    if n > 0 {
        lemma_max_delta_identical(a, (n - 1) as nat);
    }
}

/// Comparing `a` with `b` gives what comparing `b` with `a` gives.
pub proof fn lemma_max_delta_symmetric(a: Seq<u8>, b: Seq<u8>, n: nat)
    ensures
        max_delta_spec(a, b, n) == max_delta_spec(b, a, n),
    decreases n,
{
    if n > 0 {
        lemma_max_delta_symmetric(a, b, (n - 1) as nat);
    }
}

/// The difference of two channel bytes is their distance on the integers:
/// adding it to the smaller byte gives the larger, it is zero only for equal
/// bytes, and it does not depend on the order (black against white is 255).
pub proof fn lemma_abs_diff_is_distance(a: u8, b: u8)
    ensures
        a <= b ==> a + abs_diff(a, b) == b,
        b <= a ==> b + abs_diff(a, b) == a,
        abs_diff(a, b) == abs_diff(b, a),
        abs_diff(a, b) == 0 <==> a == b,
{
}

} // verus!
