//! Which graphics card there is, and how pictures lie in its memory.
use vstd::arithmetic::div_mod::{
    lemma_fundamental_div_mod, lemma_fundamental_div_mod_converse, lemma_mod_multiples_basic,
};
use vstd::arithmetic::power2::{lemma_pow2_pos, pow2};
use vstd::bits::{lemma_u64_shl_is_mul, lemma_u64_shr_is_div};
use vstd::prelude::*;

verus! {

/// Who made a graphics card.
#[derive(Debug, Clone, Copy, PartialEq, Eq, Structural)]
pub enum GpuVendor {
    Amd,
    Intel,
    Nvidia,
    Unknown,
}

/// The characters that Unicode calls white space.
pub open spec fn white_space(c: char) -> bool {
    let n = c as u32;
    ||| 0x9 <= n <= 0xd
    ||| n == 0x20
    ||| n == 0x85
    ||| n == 0xa0
    ||| n == 0x1680
    ||| 0x2000 <= n <= 0x200a
    ||| n == 0x2028
    ||| n == 0x2029
    ||| n == 0x202f
    ||| n == 0x205f
    ||| n == 0x3000
}

/// Without white space at the front.
pub open spec fn front_trimmed(s: Seq<char>) -> Seq<char>
    decreases s.len(),
{
    if s.len() > 0 && white_space(s[0]) {
        front_trimmed(s.skip(1))
    } else {
        s
    }
}

/// Without white space at the back.
pub open spec fn back_trimmed(s: Seq<char>) -> Seq<char>
    decreases s.len(),
{
    if s.len() > 0 && white_space(s.last()) {
        back_trimmed(s.drop_last())
    } else {
        s
    }
}

/// `str::trim`: the text without white space at either end.
#[verifier::external_body]
fn trimmed(s: &str) -> (r: String)
    ensures
        r@ == back_trimmed(front_trimmed(s@)),
{
    s.trim().to_owned()
}

/// What [`str::to_lowercase`] makes of a text.
pub uninterp spec fn lower_case(s: Seq<char>) -> Seq<char>;

/// `str::to_lowercase`: the text in lower case as Unicode has it.
#[verifier::external_body]
fn lowered(s: &str) -> (r: String)
    ensures
        r@ == lower_case(s@),
{
    s.to_lowercase()
}

/// What [`str::to_uppercase`] makes of a text.
pub uninterp spec fn upper_case(s: Seq<char>) -> Seq<char>;

/// `str::to_uppercase`: the text in upper case as Unicode has it.
#[verifier::external_body]
fn raised(s: &str) -> (r: String)
    ensures
        r@ == upper_case(s@),
{
    s.to_uppercase()
}

/// `part` stands somewhere in `s`.
pub open spec fn stands_in(s: Seq<char>, part: Seq<char>) -> bool {
    exists|i: int|
        0 <= i <= s.len() - part.len() && #[trigger] s.subrange(i, i + part.len()) == part
}

/// `str::contains`: whether one text stands in another.
#[verifier::external_body]
fn holds(s: &str, part: &str) -> (r: bool)
    ensures
        r == stands_in(s@, part@),
{
    s.contains(part)
}

/// The maker by the number that the kernel gives, in lower case.
pub open spec fn vendor_of_number(id: Seq<char>) -> GpuVendor {
    if id == "0x1002"@ {
        GpuVendor::Amd
    } else if id == "0x8086"@ {
        GpuVendor::Intel
    } else if id == "0x10de"@ {
        GpuVendor::Nvidia
    } else {
        GpuVendor::Unknown
    }
}

/// The maker by the number that the kernel gives, in lower case.
pub fn number_vendor(id: &String) -> (r: GpuVendor)
    ensures
        r == vendor_of_number(id@),
{
    if *id == "0x1002".to_owned() {
        GpuVendor::Amd
    } else if *id == "0x8086".to_owned() {
        GpuVendor::Intel
    } else if *id == "0x10de".to_owned() {
        GpuVendor::Nvidia
    } else {
        GpuVendor::Unknown
    }
}

/// The maker by what the registry says of the device, in upper case.
pub open spec fn vendor_of_device(id: Seq<char>) -> GpuVendor {
    if stands_in(id, "VEN_1002"@) {
        GpuVendor::Amd
    } else if stands_in(id, "VEN_8086"@) {
        GpuVendor::Intel
    } else if stands_in(id, "VEN_10DE"@) {
        GpuVendor::Nvidia
    } else {
        GpuVendor::Unknown
    }
}

/// The maker by what the registry says of the device, in upper case.
pub fn device_vendor(id: &str) -> (r: GpuVendor)
    ensures
        r == vendor_of_device(id@),
{
    if holds(id, "VEN_1002") {
        GpuVendor::Amd
    } else if holds(id, "VEN_8086") {
        GpuVendor::Intel
    } else if holds(id, "VEN_10DE") {
        GpuVendor::Nvidia
    } else {
        GpuVendor::Unknown
    }
}

/// The first maker that is known.
pub open spec fn first_known(vendors: Seq<GpuVendor>) -> GpuVendor
    decreases vendors.len(),
{
    if vendors.len() == 0 {
        GpuVendor::Unknown
    } else if vendors[0] != GpuVendor::Unknown {
        vendors[0]
    } else {
        first_known(vendors.skip(1))
    }
}

/// The makers by the numbers that the kernel gives, as they are read.
pub open spec fn numbered(raw: Seq<String>) -> Seq<GpuVendor> {
    raw.map_values(
        |s: String| vendor_of_number(lower_case(back_trimmed(front_trimmed(s@)))),
    )
}

/// The maker of the first card whose number, as the kernel gives it, is known.
pub fn detect_gpu_vendor(raw: &[String]) -> (r: GpuVendor)
    ensures
        r == first_known(numbered(raw@)),
{
    let mut i: usize = 0;
    assert(numbered(raw@).skip(0) =~= numbered(raw@));
    while i < raw.len()
        invariant
            i <= raw@.len(),
            first_known(numbered(raw@)) == first_known(numbered(raw@).skip(i as int)),
        decreases raw@.len() - i,
    {
        let text: String = trimmed(raw[i].as_str());
        let low: String = lowered(text.as_str());
        let vendor: GpuVendor = number_vendor(&low);
        assert(numbered(raw@).skip(i as int)[0] == vendor);
        if vendor != GpuVendor::Unknown {
            return vendor;
        }
        assert(numbered(raw@).skip(i as int).skip(1) =~= numbered(raw@).skip(i + 1));
        i = i + 1;
    }
    GpuVendor::Unknown
}

/// The makers by what the registry says of the devices.
pub open spec fn registered(ids: Seq<String>) -> Seq<GpuVendor> {
    ids.map_values(|s: String| vendor_of_device(upper_case(s@)))
}

/// The maker of the first device of the registry that is known.
pub fn detect_registered_vendor(ids: &[String]) -> (r: GpuVendor)
    ensures
        r == first_known(registered(ids@)),
{
    let mut i: usize = 0;
    assert(registered(ids@).skip(0) =~= registered(ids@));
    while i < ids.len()
        invariant
            i <= ids@.len(),
            first_known(registered(ids@)) == first_known(registered(ids@).skip(i as int)),
        decreases ids@.len() - i,
    {
        let high: String = raised(ids[i].as_str());
        let vendor: GpuVendor = device_vendor(high.as_str());
        assert(registered(ids@).skip(i as int)[0] == vendor);
        if vendor != GpuVendor::Unknown {
            return vendor;
        }
        assert(registered(ids@).skip(i as int).skip(1) =~= registered(ids@).skip(i + 1));
        i = i + 1;
    }
    GpuVendor::Unknown
}

/// Whether pictures are handed on without a copy. What the user says comes first; on cards
/// of one maker it does not work.
pub fn evaluate_dmabuf_support(force: bool, disable: bool, initial: bool, gpu: GpuVendor) -> (r:
    bool)
    ensures
        r == (force || (!disable && gpu != GpuVendor::Nvidia && initial)),
{
    if force {
        return true;
    }
    if disable {
        return false;
    }
    if gpu == GpuVendor::Nvidia {
        return false;
    }
    initial
}

/// The least multiple of a power of two that is no less; with no alignment, the value.
pub fn align_up(value: u64, align: u64) -> (r: u64)
    requires
        align != 0 ==> value + align - 1 <= u64::MAX,
    ensures
        r == (if align == 0 {
            value
        } else {
            ((value + align - 1) as u64) & !((align - 1) as u64)
        }),
{
    if align == 0 {
        return value;
    }
    (value + (align - 1)) & !(align - 1)
}

/// To align to a power of two is to go up to the next multiple: the result is a multiple, is
/// no less than the value, and lies less than one step above it.
pub proof fn law_aligned_is_the_next_multiple(value: u64, align: u64, k: u64)
    requires
        k < 64,
        align == pow2(k as nat),
        value + align - 1 <= u64::MAX,
    ensures
        ({
            let r = ((value + align - 1) as u64) & !((align - 1) as u64);
            &&& r as int % align as int == 0
            &&& value <= r < value + align
        }),
{
    let low = (align - 1) as u64;
    let sum = (value + align - 1) as u64;
    let r = sum & !low;
    lemma_pow2_pos(k as nat);
    assert(pow2(k as nat) <= u64::MAX);
    lemma_u64_shl_is_mul(1, k);
    assert(align == 1u64 << k);
    assert(r == (sum >> k) << k) by (bit_vector)
        requires
            k < 64,
            align == 1u64 << k,
            low == align - 1,
            r == sum & !low,
    ;
    assert(sum - low <= r <= sum) by (bit_vector)
        requires
            sum >= low,
            r == sum & !low,
    ;
    lemma_u64_shr_is_div(sum, k);
    let q = sum as int / align as int;
    lemma_fundamental_div_mod(sum as int, align as int);
    assert(q * align == align * q) by (nonlinear_arith);
    lemma_u64_shl_is_mul(sum >> k, k);
    assert(r == q * align);
    lemma_mod_multiples_basic(q, align as int);
}

/// The kind of memory `i` may be used and has all properties.
pub open spec fn memory_fits(flags: Seq<u32>, type_bits: u32, required: u32, i: int) -> bool {
    type_bits & (1u32 << (i as u32)) != 0 && flags[i] & required == required
}

/// The first kind of memory that may be used and has all properties.
pub fn find_memory_type(flags: &[u32], type_bits: u32, required: u32) -> (r: Option<u32>)
    requires
        flags@.len() <= 32,
    ensures
        match r {
            Some(i) => {
                &&& i < flags@.len()
                &&& memory_fits(flags@, type_bits, required, i as int)
                &&& forall|j: int|
                    0 <= j < i ==> !#[trigger] memory_fits(flags@, type_bits, required, j)
            },
            None => forall|j: int|
                0 <= j < flags@.len() ==> !#[trigger] memory_fits(flags@, type_bits, required, j),
        },
{
    let mut i: usize = 0;
    while i < flags.len()
        invariant
            i <= flags@.len() <= 32,
            forall|j: int|
                0 <= j < i ==> !#[trigger] memory_fits(flags@, type_bits, required, j),
        decreases flags@.len() - i,
    {
        if type_bits & (1u32 << (i as u32)) != 0 && flags[i] & required == required {
            assert(memory_fits(flags@, type_bits, required, i as int));
            return Some(i as u32);
        }
        i = i + 1;
    }
    None
}

/// The layout that needs no description.
pub const DRM_FORMAT_MOD_LINEAR: u64 = 0;

/// No layout is given.
pub const DRM_FORMAT_MOD_INVALID: u64 = 0x00ff_ffff_ffff_ffff;

/// Whether the lines of a picture lie one after another.
pub fn is_linear(modifier: u64) -> (r: bool)
    ensures
        r == (modifier == DRM_FORMAT_MOD_LINEAR || modifier == DRM_FORMAT_MOD_INVALID),
{
    modifier == DRM_FORMAT_MOD_LINEAR || modifier == DRM_FORMAT_MOD_INVALID
}

/// Where a plane begins and how far apart its lines are.
#[derive(Debug, Clone, Copy, PartialEq, Eq, Structural)]
pub struct DrmPlane {
    pub offset: u32,
    pub pitch: u32,
}

/// A piece of memory that is shared with the card.
#[derive(Debug, Clone, Copy, PartialEq, Eq, Structural)]
pub struct DrmObject {
    pub fd: i32,
    pub modifier: u64,
    pub size: usize,
}

/// How a picture is shared with the card: the memory, and the planes of each layer.
#[derive(Debug)]
pub struct DrmDescriptor {
    pub objects: Vec<DrmObject>,
    pub layers: Vec<Vec<DrmPlane>>,
}

/// Where the two planes of a picture lie in the memory.
#[derive(Debug, Clone, Copy, PartialEq, Eq, Structural)]
pub struct Nv12Layout {
    pub object: DrmObject,
    pub y: DrmPlane,
    pub uv: DrmPlane,
}

/// What is wrong with a description.
#[derive(Debug, Clone, Copy, PartialEq, Eq, Structural)]
pub enum LayoutError {
    NoObjectOrLayer,
    NotTwoPlanes,
    InvalidHandle,
}

impl LayoutError {
    /// The words for the error.
    pub open spec fn words(self) -> Seq<char> {
        match self {
            LayoutError::NoObjectOrLayer =>
                "unexpected DRM descriptor: nb_objects or nb_layers < 1"@,
            LayoutError::NotTwoPlanes => "NV12 DRM descriptor: expected 2 planes or 2 layers"@,
            LayoutError::InvalidHandle => "DRM object fd is invalid"@,
        }
    }

    /// The words for the error.
    pub fn message(&self) -> (r: String)
        ensures
            r@ == self.words(),
    {
        match self {
            LayoutError::NoObjectOrLayer =>
                "unexpected DRM descriptor: nb_objects or nb_layers < 1".to_owned(),
            LayoutError::NotTwoPlanes =>
                "NV12 DRM descriptor: expected 2 planes or 2 layers".to_owned(),
            LayoutError::InvalidHandle => "DRM object fd is invalid".to_owned(),
        }
    }
}

/// Where the two planes lie: both in the first layer, or one in each of the first two.
pub open spec fn layout_of(d: DrmDescriptor) -> Result<Nv12Layout, LayoutError> {
    let layers = d.layers@;
    if d.objects@.len() < 1 || layers.len() < 1 {
        Err(LayoutError::NoObjectOrLayer)
    } else if layers[0]@.len() < 2 && layers.len() < 2 {
        Err(LayoutError::NotTwoPlanes)
    } else if d.objects@[0].fd < 0 {
        Err(LayoutError::InvalidHandle)
    } else {
        Ok(
            Nv12Layout {
                object: d.objects@[0],
                y: layers[0]@[0],
                uv: if layers[0]@.len() >= 2 {
                    layers[0]@[1]
                } else {
                    layers[1]@[0]
                },
            },
        )
    }
}

/// Finds where the two planes of a picture lie.
pub fn nv12_layout(d: &DrmDescriptor) -> (r: Result<Nv12Layout, LayoutError>)
    requires
        forall|i: int| 0 <= i < d.layers@.len() ==> (#[trigger] d.layers@[i])@.len() >= 1,
    ensures
        r == layout_of(*d),
{
    if d.objects.len() < 1 || d.layers.len() < 1 {
        return Err(LayoutError::NoObjectOrLayer);
    }
    let object: DrmObject = d.objects[0];
    assert(d.layers@[0]@.len() >= 1);
    let y: DrmPlane = d.layers[0][0];
    let uv: DrmPlane = if d.layers[0].len() >= 2 {
        d.layers[0][1]
    } else if d.layers.len() >= 2 {
        assert(d.layers@[1]@.len() >= 1);
        d.layers[1][0]
    } else {
        return Err(LayoutError::NotTwoPlanes);
    };
    if object.fd < 0 {
        return Err(LayoutError::InvalidHandle);
    }
    Ok(Nv12Layout { object, y, uv })
}

/// How the pixels of a decoded picture are stored.
#[derive(Debug, Clone, Copy, PartialEq, Eq, Structural)]
pub enum PixelFormat {
    /// In the memory of the card.
    Vaapi,
    /// Brightness, then colours at half the size.
    Nv12,
    /// In another way.
    Other(i32),
}

/// What is done with a decoded picture.
#[derive(Debug, Clone, Copy, PartialEq, Eq, Structural)]
pub struct OutputPlan {
    /// It is tried to hand it on without a copy; the rest is done where that fails.
    pub share: bool,
    /// It is copied from the memory of the card.
    pub download: bool,
    /// Its pixels are converted.
    pub convert: bool,
    /// A new converter is made first.
    pub new_converter: bool,
}

/// Decides what is done with a decoded picture; the last converter was made for
/// `last_format`.
pub fn output_plan(format: PixelFormat, last_format: PixelFormat, dmabuf_enabled: bool) -> (r:
    OutputPlan)
    ensures
        r == (OutputPlan {
            share: format == PixelFormat::Vaapi && dmabuf_enabled,
            download: format == PixelFormat::Vaapi,
            convert: format != PixelFormat::Nv12,
            new_converter: format != PixelFormat::Nv12 && format != last_format,
        }),
{
    OutputPlan {
        share: format == PixelFormat::Vaapi && dmabuf_enabled,
        download: format == PixelFormat::Vaapi,
        convert: format != PixelFormat::Nv12,
        new_converter: format != PixelFormat::Nv12 && format != last_format,
    }
}

/// The pixel format that the decoder is told to use: the memory of the card if that is
/// offered.
pub fn pick_format(offered: &[PixelFormat]) -> (r: Option<PixelFormat>)
    ensures
        r == (if offered@.contains(PixelFormat::Vaapi) {
            Some(PixelFormat::Vaapi)
        } else {
            None
        }),
{
    let mut i: usize = 0;
    while i < offered.len()
        invariant
            i <= offered@.len(),
            forall|j: int| 0 <= j < i ==> #[trigger] offered@[j] != PixelFormat::Vaapi,
        decreases offered@.len() - i,
    {
        if offered[i] == PixelFormat::Vaapi {
            return Some(offered[i]);
        }
        i = i + 1;
    }
    None
}

/// Whether new textures are needed for a picture of this size.
pub fn needs_recreate(current: Option<(u32, u32)>, width: u32, height: u32) -> (r: bool)
    ensures
        r == (current != Some((width, height))),
{
    match current {
        None => true,
        Some((w, h)) => w != width || h != height,
    }
}

/// The sizes of the textures for brightness and for colours.
pub fn texture_sizes(width: u32, height: u32) -> (r: ((u32, u32), (u32, u32)))
    ensures
        r == ((width, height), (width / 2, height / 2)),
{
    ((width, height), (width / 2, height / 2))
}

/// A surface has at least one pixel.
pub fn surface_size(width: u32, height: u32) -> (r: (u32, u32))
    ensures
        r.0 == (if width >= 1 {
            width
        } else {
            1
        }),
        r.1 == (if height >= 1 {
            height
        } else {
            1
        }),
{
    (
        if width >= 1 {
            width
        } else {
            1
        },
        if height >= 1 {
            height
        } else {
            1
        },
    )
}

/// The pixel at column `x` and line `y` of test picture `n`: blue, green, red and opacity.
pub open spec fn test_pixel(x: int, y: int, n: int) -> Seq<u8> {
    seq![
        ((x + n) % 256) as u8,
        ((y + n * 2) % 256) as u8,
        ((x + y + n * 3) % 256) as u8,
        255u8,
    ]
}

/// The first `count` pixels of test picture `n`, line by line.
pub open spec fn test_pixels(width: int, n: int, count: nat) -> Seq<u8>
    decreases count,
{
    if count == 0 {
        Seq::empty()
    } else {
        test_pixels(width, n, (count - 1) as nat) + test_pixel(
            (count - 1) % width,
            (count - 1) / width,
            n,
        )
    }
}

/// The lower eight bits.
fn low_byte(v: u64) -> (r: u8)
    ensures
        r == v % 256,
{
    (v % 256) as u8
}

/// A picture of moving stripes to test with.
pub fn make_bgra_frame(width: u32, height: u32, frame_no: u64) -> (r: Vec<u8>)
    requires
        width * height * 4 <= usize::MAX,
        width + height + frame_no * 3 <= u64::MAX,
    ensures
        r@ == test_pixels(width as int, frame_no as int, (width * height) as nat),
{
    let mut frame: Vec<u8> = Vec::new();
    let mut y: u32 = 0;
    while y < height
        invariant
            y <= height,
            width + height + frame_no * 3 <= u64::MAX,
            frame@ == test_pixels(width as int, frame_no as int, (width * y) as nat),
        decreases height - y,
    {
        let mut x: u32 = 0;
        while x < width
            invariant
                x <= width,
                y < height,
                width + height + frame_no * 3 <= u64::MAX,
                frame@ == test_pixels(width as int, frame_no as int, (width * y + x) as nat),
            decreases width - x,
        {
            proof {
                assert((width * y + x) % (width as int) == x && (width * y + x) / (width as int)
                    == y) by {
                    assert(width * y == y * width) by (nonlinear_arith);
                    lemma_fundamental_div_mod_converse(
                        width * y + x,
                        width as int,
                        y as int,
                        x as int,
                    );
                }
            }
            let ghost before = frame@;
            frame.push(low_byte(x as u64 + frame_no));
            frame.push(low_byte(y as u64 + frame_no * 2));
            frame.push(low_byte(x as u64 + y as u64 + frame_no * 3));
            frame.push(255);
            assert(frame@ =~= before + test_pixel(x as int, y as int, frame_no as int));
            x = x + 1;
        }
        assert(width * y + width == width * (y + 1)) by (nonlinear_arith);
        y = y + 1;
    }
    frame
}

/// The maker that is found is known and stands before any other that is, or none is known.
pub proof fn law_first_known_maker_is_found(vendors: Seq<GpuVendor>)
    ensures
        first_known(vendors) == GpuVendor::Unknown <==> forall|i: int|
            0 <= i < vendors.len() ==> (#[trigger] vendors[i]) == GpuVendor::Unknown,
        first_known(vendors) != GpuVendor::Unknown ==> exists|i: int| #[trigger]
            is_first_known(vendors, i) && vendors[i] == first_known(vendors),
    decreases vendors.len(),
{
    if vendors.len() > 0 {
        if vendors[0] != GpuVendor::Unknown {
            assert(is_first_known(vendors, 0));
        } else {
            let rest = vendors.skip(1);
            law_first_known_maker_is_found(rest);
            if first_known(rest) != GpuVendor::Unknown {
                let i = choose|i: int| #[trigger]
                    is_first_known(rest, i) && rest[i] == first_known(rest);
                assert forall|j: int| 0 <= j < i + 1 implies (#[trigger] vendors[j])
                    == GpuVendor::Unknown by {
                    if j > 0 {
                        assert(rest[j - 1] == vendors[j]);
                    }
                }
                assert(vendors[i + 1] == rest[i]);
                assert(is_first_known(vendors, i + 1));
            } else {
                assert forall|j: int| 0 <= j < vendors.len() implies (#[trigger] vendors[j])
                    == GpuVendor::Unknown by {
                    if j > 0 {
                        assert(rest[j - 1] == vendors[j]);
                    }
                }
            }
        }
    }
}

/// Maker `i` is known and none before it is.
pub open spec fn is_first_known(vendors: Seq<GpuVendor>, i: int) -> bool {
    &&& 0 <= i < vendors.len()
    &&& vendors[i] != GpuVendor::Unknown
    &&& forall|j: int| 0 <= j < i ==> (#[trigger] vendors[j]) == GpuVendor::Unknown
}

/// Every maker has a number of its own, and what has none of them is unknown.
pub proof fn law_makers_have_their_numbers(id: Seq<char>)
    ensures
        vendor_of_number("0x1002"@) == GpuVendor::Amd,
        vendor_of_number("0x8086"@) == GpuVendor::Intel,
        vendor_of_number("0x10de"@) == GpuVendor::Nvidia,
        vendor_of_number(id) == GpuVendor::Unknown <==> id != "0x1002"@ && id != "0x8086"@ && id
            != "0x10de"@,
{
    reveal_strlit("0x1002");
    reveal_strlit("0x8086");
    reveal_strlit("0x10de");
    assert("0x1002"@[2] == '1' && "0x8086"@[2] == '8' && "0x10de"@[2] == '1');
    assert("0x1002"@[4] == '0' && "0x10de"@[4] == 'd');
}

/// The brightness is the first plane of the first layer. The colours are the plane behind it,
/// or the first plane of the next layer where there is none. Both lie in the first object,
/// which must be open.
pub proof fn law_planes_are_found(d: DrmDescriptor)
    ensures
        layout_of(d) is Ok <==> {
            &&& d.objects@.len() >= 1
            &&& d.objects@[0].fd >= 0
            &&& d.layers@.len() >= 1
            &&& d.layers@[0]@.len() >= 2 || d.layers@.len() >= 2
        },
        layout_of(d) matches Ok(l) ==> {
            &&& l.object == d.objects@[0]
            &&& l.y == d.layers@[0]@[0]
            &&& d.layers@[0]@.len() >= 2 ==> l.uv == d.layers@[0]@[1]
            &&& d.layers@[0]@.len() < 2 ==> l.uv == d.layers@[1]@[0]
        },
{
}

} // verus!
