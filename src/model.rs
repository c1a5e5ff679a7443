use vstd::prelude::*;
use crate::chunk::{be_u32_at, copy_range, end_tag, read_be_u32, GeneralChunk, RawChunk};
use crate::error::DecodeError;
use crate::filter::{unsub, unsub_row};

verus! {

/// One pixel's colour; samples without an alpha channel are fully opaque.
#[derive(Debug, Clone, Copy, PartialEq, Eq, Structural)]
pub struct Color {
    pub red: u8,
    pub green: u8,
    pub blue: u8,
    pub alpha: u8,
}

/// The colour of group `i` when `s` is read `step` bytes per colour:
/// red, green, blue, then alpha where the group has a fourth byte.
pub open spec fn color_at(s: Seq<u8>, step: int, i: int) -> Color {
    Color {
        red: s[i * step],
        green: s[i * step + 1],
        blue: s[i * step + 2],
        alpha: if step >= 4 {
            s[i * step + 3]
        } else {
            255
        },
    }
}

/// The colours of `s` read `step` bytes at a time; a trailing partial group is dropped.
pub open spec fn colors_of(s: Seq<u8>, step: int) -> Seq<Color> {
    Seq::new(((s.len() as int) / step) as nat, |i: int| color_at(s, step, i))
}

impl Color {
    /// Groups `flatten_slice` into colours of `step` bytes each.
    pub fn new_vector(flatten_slice: &[u8], step: usize) -> (r: Vec<Self>)
        requires
            step >= 3,
        ensures
            r@ == colors_of(flatten_slice@, step as int),
    {
        let total = flatten_slice.len();
        let n = total / step;
        let mut colors: Vec<Color> = Vec::new();
        let mut i: usize = 0;
        let mut base: usize = 0;
        proof {
            vstd::arithmetic::div_mod::lemma_fundamental_div_mod(
                flatten_slice@.len() as int,
                step as int,
            );
        }
        while i < n
            invariant
                step >= 3,
                total == flatten_slice@.len(),
                n == (flatten_slice@.len() as int) / (step as int),
                flatten_slice@.len() as int == step * n + (flatten_slice@.len() as int) % (step as int),
                i <= n,
                base == i * step,
                colors@ == colors_of(flatten_slice@, step as int).subrange(0, i as int),
            decreases n - i,
        {
            assert(base + step <= flatten_slice@.len()) by (nonlinear_arith)
                requires
                    base == i * step,
                    i < n,
                    flatten_slice@.len() as int == step * n + (flatten_slice@.len() as int) % (step as int),
                    (flatten_slice@.len() as int) % (step as int) >= 0,
            ;
            let alpha = if step >= 4 {
                assert(base + 3 < flatten_slice@.len());
                flatten_slice[base + 3]
            } else {
                255
            };
            let color = Color {
                red: flatten_slice[base],
                green: flatten_slice[base + 1],
                blue: flatten_slice[base + 2],
                alpha,
            };
            colors.push(color);
            proof {
                assert(colors@ =~= colors_of(flatten_slice@, step as int).subrange(
                    0,
                    i + 1,
                ));
            }
            assert(base + step == (i + 1) * step) by (nonlinear_arith)
                requires
                    base == i * step,
            ;
            i = i + 1;
            base = base + step;
        }
        proof {
            assert(colors@ =~= colors_of(flatten_slice@, step as int));
        }
        colors
    }

    /// Reverses the Sub filter on a row of RGBA samples (lookback of four
    /// bytes) and groups the result into colours.
    pub fn with_sub(scanline: &[u8]) -> (r: Vec<Self>)
        ensures
            r@ == colors_of(unsub(scanline@, 4), 4),
    {
        let raws = unsub_row(scanline, 4);
        Self::new_vector(raws.as_slice(), 4)
    }
}

/// The colour mode byte of indexed (palette) images.
pub const COLOR_TYPE_INDEXED: u8 = 3;

/// The colour mode byte of direct RGBA images.
pub const COLOR_TYPE_RGBA: u8 = 6;

/// The header's metadata.
#[derive(Debug, Clone, Copy, PartialEq, Eq, Structural)]
pub struct Ihdr {
    pub width: u32,
    pub height: u32,
    pub bit_depth: u8,
    pub color_type: u8,
    pub compression_method: u8,
    pub filter_method: u8,
    pub interlace_method: u8,
}

/// The header that a payload of at least 13 bytes describes.
pub open spec fn ihdr_of(d: Seq<u8>) -> Ihdr {
    Ihdr {
        width: be_u32_at(d, 0) as u32,
        height: be_u32_at(d, 4) as u32,
        bit_depth: d[8],
        color_type: d[9],
        compression_method: d[10],
        filter_method: d[11],
        interlace_method: d[12],
    }
}

/// A header payload is long enough and gives a non-empty image.
pub open spec fn header_ok(d: Seq<u8>) -> bool {
    d.len() >= 13 && be_u32_at(d, 0) > 0 && be_u32_at(d, 4) > 0
}

impl Ihdr {
    /// Reads a header payload: width and height big-endian, then bit depth,
    /// colour mode, compression, filter and interlace methods.
    pub fn new(chunk_data: &[u8]) -> (r: Result<Self, DecodeError>)
        ensures
            header_ok(chunk_data@) ==> r == Ok::<Ihdr, DecodeError>(ihdr_of(chunk_data@)),
            !header_ok(chunk_data@) ==> r == Err::<Ihdr, DecodeError>(DecodeError::MalformedChunk),
    {
        if chunk_data.len() < 13 {
            return Err(DecodeError::MalformedChunk);
        }
        let width = read_be_u32(chunk_data, 0);
        let height = read_be_u32(chunk_data, 4);
        if width == 0 || height == 0 {
            return Err(DecodeError::MalformedChunk);
        }
        Ok(Self {
            width,
            height,
            bit_depth: chunk_data[8],
            color_type: chunk_data[9],
            compression_method: chunk_data[10],
            filter_method: chunk_data[11],
            interlace_method: chunk_data[12],
        })
    }
}

/// A palette: the colours that indexed samples refer to.
#[derive(Debug)]
pub struct Plte {
    pub colors: Vec<Color>,
}

impl Plte {
    /// Reads a palette payload of RGB triples; a partial triple is malformed.
    pub fn new(chunk_data: &[u8]) -> (r: Result<Self, DecodeError>)
        ensures
            chunk_data@.len() % 3 == 0 ==> r is Ok && r->Ok_0.colors@ == colors_of(chunk_data@, 3),
            chunk_data@.len() % 3 != 0 ==> r is Err && r->Err_0 == DecodeError::MalformedChunk,
    {
        if chunk_data.len() % 3 != 0 {
            return Err(DecodeError::MalformedChunk);
        }
        Ok(Self { colors: Color::new_vector(chunk_data, 3) })
    }
}

/// The colours that the indices `ix` name in palette `pal`; fails when an
/// index is not below the palette's length.
pub open spec fn indexed(ix: Seq<u8>, pal: Seq<Color>) -> Result<Seq<Color>, DecodeError> {
    if exists|i: int| 0 <= i < ix.len() && #[trigger] ix[i] >= pal.len() {
        Err(DecodeError::PaletteIndexOutOfRange)
    } else {
        Ok(Seq::new(ix.len(), |i: int| pal[ix[i] as int]))
    }
}

impl Plte {
    /// Looks each index up in the palette, in order.
    pub fn resolve(&self, indices: &[u8]) -> (r: Result<Vec<Color>, DecodeError>)
        ensures
            match indexed(indices@, self.colors@) {
                Ok(v) => r is Ok && r->Ok_0@ == v,
                Err(e) => r is Err && r->Err_0 == e,
            },
    {
        let mut out: Vec<Color> = Vec::new();
        let mut i: usize = 0;
        while i < indices.len()
            invariant
                i <= indices@.len(),
                forall|j: int| 0 <= j < i ==> #[trigger] indices@[j] < self.colors@.len(),
                out@ == Seq::new(i as nat, |j: int| self.colors@[indices@[j] as int]),
            decreases indices@.len() - i,
        {
            let ix = indices[i] as usize;
            if ix >= self.colors.len() {
                return Err(DecodeError::PaletteIndexOutOfRange);
            }
            out.push(self.colors[ix]);
            i = i + 1;
            proof {
                assert(out@ =~= Seq::new(i as nat, |j: int| self.colors@[indices@[j] as int]));
            }
        }
        proof {
            assert(out@ =~= Seq::new(indices@.len(), |j: int| self.colors@[indices@[j] as int]));
        }
        Ok(out)
    }
}

/// Indices that all lie below the palette's length resolve to the palette's
/// colours at those indices, in order; an index at or past the length makes
/// resolution fail with `PaletteIndexOutOfRange`.
pub proof fn lemma_indexed_round_trip(ix: Seq<u8>, pal: Seq<Color>)
    ensures
        (forall|i: int| 0 <= i < ix.len() ==> #[trigger] ix[i] < pal.len()) ==> indexed(ix, pal)
            == Ok::<Seq<Color>, DecodeError>(Seq::new(ix.len(), |i: int| pal[ix[i] as int])),
        (exists|i: int| 0 <= i < ix.len() && #[trigger] ix[i] >= pal.len()) ==> indexed(ix, pal)
            == Err::<Seq<Color>, DecodeError>(DecodeError::PaletteIndexOutOfRange),
{
}

/// One fragment of the compressed pixel stream.
#[derive(Debug)]
pub struct Idat {
    pub compression_method: u8,
    pub additional_flags: u8,
    pub compressed_data: Vec<u8>,
    pub check_value: u32,
}

/// `i` is the fragment that a payload `d` of at least six bytes describes:
/// a method byte, a flags byte, the compressed bytes, a big-endian check value.
pub open spec fn idat_of(i: Idat, d: Seq<u8>) -> bool {
    &&& i.compression_method == d[0]
    &&& i.additional_flags == d[1]
    &&& i.compressed_data@ == d.subrange(2, d.len() - 4)
    &&& i.check_value as int == be_u32_at(d, d.len() - 4)
}

impl Idat {
    /// Splits a compressed-data payload into its parts.
    pub fn new(data_bytes: Vec<u8>) -> (r: Result<Self, DecodeError>)
        ensures
            data_bytes@.len() >= 6 ==> r is Ok && idat_of(r->Ok_0, data_bytes@),
            data_bytes@.len() < 6 ==> r is Err && r->Err_0 == DecodeError::MalformedChunk,
    {
        if data_bytes.len() < 6 {
            return Err(DecodeError::MalformedChunk);
        }
        let check_value_start_at = data_bytes.len() - 4;
        Ok(Self {
            compression_method: data_bytes[0],
            additional_flags: data_bytes[1],
            compressed_data: copy_range(data_bytes.as_slice(), 2, check_value_start_at),
            check_value: read_be_u32(data_bytes.as_slice(), check_value_start_at),
        })
    }
}

/// The terminator; it carries nothing.
#[derive(Debug, Clone, Copy, PartialEq, Eq, Structural)]
pub struct Iend {}

impl Iend {
    pub fn new() -> (r: Self) {
        Iend {  }
    }
}

/// A chunk after classification.
#[derive(Debug)]
pub enum Chunk {
    Header(Ihdr),
    Palette(Plte),
    Data(Idat),
    End(Iend),
    Other(GeneralChunk),
}

pub open spec fn ihdr_tag() -> Seq<u8> {
    seq![73u8, 72u8, 68u8, 82u8]
}

pub open spec fn plte_tag() -> Seq<u8> {
    seq![80u8, 76u8, 84u8, 69u8]
}

pub open spec fn idat_tag() -> Seq<u8> {
    seq![73u8, 68u8, 65u8, 84u8]
}

pub open spec fn is_letter(b: u8) -> bool {
    (65 <= b && b <= 90) || (97 <= b && b <= 122)
}

/// A type tag is four ASCII letters.
pub open spec fn tag_ok(t: Seq<u8>) -> bool {
    t.len() == 4 && forall|i: int| 0 <= i < 4 ==> is_letter(#[trigger] t[i])
}

/// `r` is what classifying the framed chunk `c` yields.
pub open spec fn classified(c: RawChunk, r: Result<Chunk, DecodeError>) -> bool {
    if !tag_ok(c.tag) {
        r == Err::<Chunk, DecodeError>(DecodeError::MalformedChunk)
    } else if c.tag == ihdr_tag() {
        if header_ok(c.data) {
            r is Ok && r->Ok_0 is Header && r->Ok_0->Header_0 == ihdr_of(c.data)
        } else {
            r == Err::<Chunk, DecodeError>(DecodeError::MalformedChunk)
        }
    } else if c.tag == plte_tag() {
        if c.data.len() % 3 == 0 {
            r is Ok && r->Ok_0 is Palette && r->Ok_0->Palette_0.colors@ == colors_of(c.data, 3)
        } else {
            r == Err::<Chunk, DecodeError>(DecodeError::MalformedChunk)
        }
    } else if c.tag == idat_tag() {
        if c.data.len() >= 6 {
            r is Ok && r->Ok_0 is Data && idat_of(r->Ok_0->Data_0, c.data)
        } else {
            r == Err::<Chunk, DecodeError>(DecodeError::MalformedChunk)
        }
    } else if c.tag == end_tag() {
        r is Ok && r->Ok_0 is End
    } else {
        r is Ok && r->Ok_0 is Other && r->Ok_0->Other_0@ == c && r->Ok_0->Other_0.wf()
    }
}

/// Classifying the framed chunk `c` succeeds: its tag is four letters and
/// its payload fits its type.
pub open spec fn chunk_ok(c: RawChunk) -> bool {
    &&& tag_ok(c.tag)
    &&& c.tag == ihdr_tag() ==> header_ok(c.data)
    &&& c.tag == plte_tag() ==> c.data.len() % 3 == 0
    &&& c.tag == idat_tag() ==> c.data.len() >= 6
}

/// Classifies every framed chunk, in order; fails on the first malformed one.
pub fn classify_all(chunks: Vec<GeneralChunk>) -> (r: Result<Vec<Chunk>, DecodeError>)
    requires
        forall|i: int| 0 <= i < chunks@.len() ==> (#[trigger] chunks@[i]).wf(),
    ensures
        r is Ok <==> forall|i: int| 0 <= i < chunks@.len() ==> chunk_ok(#[trigger] chunks@[i]@),
        r is Err ==> r->Err_0 == DecodeError::MalformedChunk,
        r is Ok ==> r->Ok_0@.len() == chunks@.len() && forall|i: int|
            0 <= i < chunks@.len() ==> classified(
                #[trigger] chunks@[i]@,
                Ok::<Chunk, DecodeError>(r->Ok_0@[i]),
            ),
{
    let ghost cs = chunks@;
    let mut rest = chunks;
    let total = rest.len();
    let mut out: Vec<Chunk> = Vec::new();
    let mut i: usize = 0;
    while i < total
        invariant
            cs == chunks@,
            total == cs.len(),
            i <= total,
            rest@ == cs.subrange(i as int, total as int),
            forall|k: int| 0 <= k < cs.len() ==> (#[trigger] cs[k]).wf(),
            out@.len() == i,
            forall|k: int| 0 <= k < i ==> chunk_ok(#[trigger] cs[k]@),
            forall|k: int|
                0 <= k < i ==> classified(#[trigger] cs[k]@, Ok::<Chunk, DecodeError>(out@[k])),
        decreases total - i,
    {
        let c = rest.remove(0);
        proof {
            assert(c == cs[i as int]);
            assert(rest@ =~= cs.subrange(i + 1, total as int));
        }
        match c.classify() {
            Ok(k) => {
                out.push(k);
            },
            Err(e) => {
                return Err(e);
            },
        }
        i = i + 1;
    }
    Ok(out)
}

fn tag_is(t: &Vec<u8>, a: u8, b: u8, c: u8, d: u8) -> (r: bool)
    requires
        t@.len() == 4,
    ensures
        r == (t@ == seq![a, b, c, d]),
{
    let r = t[0] == a && t[1] == b && t[2] == c && t[3] == d;
    proof {
        if r {
            assert(t@ =~= seq![a, b, c, d]);
        }
    }
    r
}

impl GeneralChunk {
    pub fn to_ihdr(self) -> (r: Result<Ihdr, DecodeError>)
        ensures
            header_ok(self.chunk_data@) ==> r == Ok::<Ihdr, DecodeError>(ihdr_of(self.chunk_data@)),
            !header_ok(self.chunk_data@) ==> r == Err::<Ihdr, DecodeError>(DecodeError::MalformedChunk),
    {
        Ihdr::new(self.chunk_data.as_slice())
    }

    pub fn to_idat(self) -> (r: Result<Idat, DecodeError>)
        ensures
            self.chunk_data@.len() >= 6 ==> r is Ok && idat_of(r->Ok_0, self.chunk_data@),
            self.chunk_data@.len() < 6 ==> r is Err && r->Err_0 == DecodeError::MalformedChunk,
    {
        Idat::new(self.chunk_data)
    }

    pub fn to_iend(self) -> (r: Iend) {
        Iend::new()
    }

    pub fn to_plte(self) -> (r: Result<Plte, DecodeError>)
        ensures
            self.chunk_data@.len() % 3 == 0 ==> r is Ok && r->Ok_0.colors@ == colors_of(self.chunk_data@, 3),
            self.chunk_data@.len() % 3 != 0 ==> r is Err && r->Err_0 == DecodeError::MalformedChunk,
    {
        Plte::new(self.chunk_data.as_slice())
    }

    /// Classifies a framed chunk by its tag: header, palette, compressed
    /// data, terminator, or any other chunk kept as it is.
    pub fn classify(self) -> (r: Result<Chunk, DecodeError>)
        requires
            self.wf(),
        ensures
            classified(self@, r),
    {
        let mut i: usize = 0;
        while i < 4
            invariant
                self.wf(),
                i <= 4,
                forall|j: int| 0 <= j < i ==> is_letter(#[trigger] self.chunk_type@[j]),
            decreases 4 - i,
        {
            let b = self.chunk_type[i];
            if !((65 <= b && b <= 90) || (97 <= b && b <= 122)) {
                assert(!is_letter(self.chunk_type@[i as int]));
                assert(!tag_ok(self.chunk_type@));
                return Err(DecodeError::MalformedChunk);
            }
            i = i + 1;
        }
        assert(tag_ok(self.chunk_type@));
        if tag_is(&self.chunk_type, 73, 72, 68, 82) {
            match self.to_ihdr() {
                Ok(h) => Ok(Chunk::Header(h)),
                Err(e) => Err(e),
            }
        } else if tag_is(&self.chunk_type, 80, 76, 84, 69) {
            match self.to_plte() {
                Ok(p) => Ok(Chunk::Palette(p)),
                Err(e) => Err(e),
            }
        } else if tag_is(&self.chunk_type, 73, 68, 65, 84) {
            match self.to_idat() {
                Ok(d) => Ok(Chunk::Data(d)),
                Err(e) => Err(e),
            }
        } else if tag_is(&self.chunk_type, 73, 69, 78, 68) {
            Ok(Chunk::End(self.to_iend()))
        } else {
            Ok(Chunk::Other(self))
        }
    }
}

} // verus!
