use vstd::prelude::*;
use crate::error::{DecodeError, DocumentFault};
use crate::chunk::{frames, parse_to_chunks, raw_views, GeneralChunk};
use crate::filter::{defilter_rows, unfilter};
use crate::image::Image;
use crate::model::{
    chunk_ok, classified, classify_all, colors_of, indexed, Chunk, Color, Iend, Idat, Ihdr, Plte, COLOR_TYPE_INDEXED,
    COLOR_TYPE_RGBA,
};

verus! {

/// A decoded container: header, optional palette, compressed fragments in
/// order, terminator, and the other chunks in order.
#[derive(Debug)]
pub struct Png {
    pub ihdr: Ihdr,
    pub plte_opt: Option<Plte>,
    pub idats: Vec<Idat>,
    pub iend: Iend,
    pub others: Vec<GeneralChunk>,
}

/// What assembly has gathered so far.
pub struct Assembly {
    pub ihdr: Ihdr,
    pub plte: Option<Plte>,
    pub idats: Seq<Idat>,
    pub others: Seq<GeneralChunk>,
}

/// Takes chunk `c` into the assembly `a`; `is_last` tells whether `c` ends
/// the sequence.
pub open spec fn assembly_step(a: Assembly, c: Chunk, is_last: bool) -> Result<
    Assembly,
    DocumentFault,
> {
    match c {
        Chunk::Header(_) => Err(DocumentFault::DuplicateHeader),
        Chunk::Palette(p) => if a.plte is Some {
            Err(DocumentFault::DuplicatePalette)
        } else {
            Ok(Assembly { plte: Some(p), ..a })
        },
        Chunk::Data(d) => Ok(Assembly { idats: a.idats.push(d), ..a }),
        Chunk::End(_) => if is_last {
            Ok(a)
        } else {
            Err(DocumentFault::MisplacedTerminator)
        },
        Chunk::Other(g) => Ok(Assembly { others: a.others.push(g), ..a }),
    }
}

/// The assembly of the first `n` chunks of `cs`: the first must be a header,
/// the rest are folded in by `assembly_step`.
pub open spec fn assemble_prefix(cs: Seq<Chunk>, n: nat) -> Result<Assembly, DocumentFault>
    decreases n,
{
    if n == 0 {
        Err(DocumentFault::MissingHeader)
    } else if n == 1 {
        match cs[0] {
            Chunk::Header(h) => Ok(
                Assembly { ihdr: h, plte: None, idats: Seq::empty(), others: Seq::empty() },
            ),
            _ => Err(DocumentFault::MissingHeader),
        }
    } else {
        match assemble_prefix(cs, (n - 1) as nat) {
            Ok(a) => assembly_step(a, cs[n - 1], n == cs.len()),
            Err(f) => Err(f),
        }
    }
}

/// The document that the chunk sequence `cs` forms, or the first structural
/// fault: a missing header, a second header or palette, a terminator before
/// the end, no terminator at the end, or indexed colour without a palette.
pub open spec fn assemble(cs: Seq<Chunk>) -> Result<Assembly, DocumentFault> {
    match assemble_prefix(cs, cs.len()) {
        Err(f) => Err(f),
        Ok(a) => if !(cs.last() is End) {
            Err(DocumentFault::MissingTerminator)
        } else if a.ihdr.color_type == COLOR_TYPE_INDEXED && a.plte is None {
            Err(DocumentFault::MissingPalette)
        } else {
            Ok(a)
        },
    }
}

proof fn lemma_prefix_err_stays(cs: Seq<Chunk>, k: nat, n: nat)
    requires
        1 <= k <= n,
        assemble_prefix(cs, k) is Err,
    ensures
        assemble_prefix(cs, n) == assemble_prefix(cs, k),
    decreases n - k,
{
    if k < n {
        lemma_prefix_err_stays(cs, k, (n - 1) as nat);
    }
}

proof fn lemma_palette_kept(cs: Seq<Chunk>, i: int, n: nat)
    requires
        1 <= i < n,
        cs[i] is Palette,
        assemble_prefix(cs, n) is Ok,
    ensures
        assemble_prefix(cs, n)->Ok_0.plte is Some,
    decreases n,
{
    if n > i + 1 {
        let m = (n - 1) as nat;
        if assemble_prefix(cs, m) is Err {
            lemma_prefix_err_stays(cs, m, n);
        } else {
            lemma_palette_kept(cs, i, m);
        }
    }
}

/// A chunk sequence without a header first, without a terminator last, or
/// with two palettes forms no document.
pub proof fn lemma_structural_rejection(cs: Seq<Chunk>)
    requires
        cs.len() == 0 || !(cs[0] is Header) || !(cs.last() is End) || exists|i: int, j: int|
            0 <= i < j < cs.len() && #[trigger] cs[i] is Palette && #[trigger] cs[j] is Palette,
    ensures
        assemble(cs) is Err,
{
    if cs.len() > 0 && cs[0] is Header && cs.last() is End {
        let (i, j) = choose|i: int, j: int|
            0 <= i < j < cs.len() && #[trigger] cs[i] is Palette && #[trigger] cs[j] is Palette;
        if assemble_prefix(cs, cs.len()) is Ok {
            if i == 0 {
                lemma_prefix_err_stays(cs, 1, cs.len());
            } else {
                let m = j as nat;
                if assemble_prefix(cs, m) is Err {
                    lemma_prefix_err_stays(cs, m, cs.len());
                } else {
                    lemma_palette_kept(cs, i, m);
                    lemma_prefix_err_stays(cs, (j + 1) as nat, cs.len());
                }
            }
        }
    } else if cs.len() > 0 && !(cs[0] is Header) {
        lemma_prefix_err_stays(cs, 1, cs.len());
    }
}

/// `p` holds what the assembly `a` gathered.
pub open spec fn png_of(p: Png, a: Assembly) -> bool {
    &&& p.ihdr == a.ihdr
    &&& p.plte_opt == a.plte
    &&& p.idats@ == a.idats
    &&& p.others@ == a.others
}

impl Png {
    /// Builds a document from classified chunks, enforcing its structure.
    pub fn from_chunks(chunks: Vec<Chunk>) -> (r: Result<Png, DecodeError>)
        ensures
            match assemble(chunks@) {
                Ok(a) => r is Ok && png_of(r->Ok_0, a),
                Err(f) => r is Err && r->Err_0 == DecodeError::InvalidDocument(f),
            },
    {
        let ghost cs = chunks@;
        let mut rest = chunks;
        let total = rest.len();
        if total == 0 {
            return Err(DecodeError::InvalidDocument(DocumentFault::MissingHeader));
        }
        let first = rest.remove(0);
        let ihdr = match first {
            Chunk::Header(h) => h,
            _ => {
                proof {
                    lemma_prefix_err_stays(cs, 1, cs.len());
                }
                return Err(DecodeError::InvalidDocument(DocumentFault::MissingHeader));
            },
        };
        let mut plte_opt: Option<Plte> = None;
        let mut idats: Vec<Idat> = Vec::new();
        let mut others: Vec<GeneralChunk> = Vec::new();
        let mut last_is_end = false;
        let mut i: usize = 1;
        proof {
            assert(rest@ =~= cs.subrange(1, total as int));
        }
        while i < total
            invariant
                1 <= i <= total,
                total == cs.len(),
                cs == chunks@,
                rest@ == cs.subrange(i as int, total as int),
                assemble_prefix(cs, i as nat) == Ok::<Assembly, DocumentFault>(
                    Assembly { ihdr, plte: plte_opt, idats: idats@, others: others@ },
                ),
                last_is_end == cs[i - 1] is End,
            decreases total - i,
        {
            let c = rest.remove(0);
            proof {
                assert(c == cs[i as int]);
                assert(rest@ =~= cs.subrange(i + 1, total as int));
            }
            let ghost a = Assembly { ihdr, plte: plte_opt, idats: idats@, others: others@ };
            match c {
                Chunk::Header(_) => {
                    proof {
                        assert(cs[i as int] is Header);
                        assert(assemble_prefix(cs, (i + 1) as nat) == assembly_step(
                            a,
                            cs[i as int],
                            i + 1 == cs.len(),
                        ));
                        lemma_prefix_err_stays(cs, (i + 1) as nat, cs.len());
                    }
                    return Err(DecodeError::InvalidDocument(DocumentFault::DuplicateHeader));
                },
                Chunk::Palette(p) => {
                    if plte_opt.is_some() {
                        proof {
                            assert(cs[i as int] is Palette);
                            assert(assemble_prefix(cs, (i + 1) as nat) == assembly_step(
                                a,
                                cs[i as int],
                                i + 1 == cs.len(),
                            ));
                            lemma_prefix_err_stays(cs, (i + 1) as nat, cs.len());
                        }
                        return Err(DecodeError::InvalidDocument(DocumentFault::DuplicatePalette));
                    }
                    plte_opt = Some(p);
                    last_is_end = false;
                },
                Chunk::Data(d) => {
                    idats.push(d);
                    last_is_end = false;
                },
                Chunk::End(_) => {
                    if i + 1 < total {
                        proof {
                            lemma_prefix_err_stays(cs, (i + 1) as nat, cs.len());
                        }
                        return Err(
                            DecodeError::InvalidDocument(DocumentFault::MisplacedTerminator),
                        );
                    }
                    last_is_end = true;
                },
                Chunk::Other(g) => {
                    others.push(g);
                    last_is_end = false;
                },
            }
            i = i + 1;
        }
        if !last_is_end {
            return Err(DecodeError::InvalidDocument(DocumentFault::MissingTerminator));
        }
        if ihdr.color_type == COLOR_TYPE_INDEXED && plte_opt.is_none() {
            return Err(DecodeError::InvalidDocument(DocumentFault::MissingPalette));
        }
        Ok(Png { ihdr, plte_opt, idats, iend: Iend::new(), others })
    }
}

/// What decompressing `data` as a raw DEFLATE stream yields; `None` when
/// the stream is rejected.
pub uninterp spec fn inflated(data: Seq<u8>) -> Option<Seq<u8>>;

/// Relies on inflate's `inflate_bytes`: it decodes a raw DEFLATE stream, and
/// its result depends on the input bytes alone.
#[verifier::external_body]
fn inflate_stream(data: &[u8]) -> (r: Result<Vec<u8>, String>)
    ensures
        r is Ok <==> inflated(data@) is Some,
        r is Ok ==> inflated(data@) == Some(r->Ok_0@),
{
    inflate::inflate_bytes(data)
}

/// The compressed payloads of `ids`, concatenated in order.
pub open spec fn compressed_stream(ids: Seq<Idat>) -> Seq<u8>
    decreases ids.len(),
{
    if ids.len() == 0 {
        Seq::empty()
    } else {
        compressed_stream(ids.drop_last()) + ids.last().compressed_data@
    }
}

/// The scanline width in bytes and the Sub lookback for a header, given
/// whether a palette is present: one byte per pixel for 8-bit indexed
/// colour, four for 8-bit RGBA; `None` for any other format.
pub open spec fn layout(h: Ihdr, has_palette: bool) -> Option<(int, int)> {
    if h.bit_depth != 8 {
        None
    } else if has_palette {
        if h.color_type == COLOR_TYPE_INDEXED {
            Some((h.width as int, 1))
        } else {
            None
        }
    } else if h.color_type == COLOR_TYPE_RGBA {
        Some((4 * h.width, 4))
    } else {
        None
    }
}

/// The pixels that the decompressed bytes `raw` describe under header `h`
/// and palette `plte`, or the first error: an unsupported format, a length
/// other than `height * (1 + stride)`, an unsupported filter, a palette
/// index out of range, or a direct-colour remainder.
pub open spec fn pixels_from(h: Ihdr, plte: Option<Plte>, raw: Seq<u8>) -> Result<
    Seq<Color>,
    DecodeError,
> {
    match layout(h, plte is Some) {
        None => Err(DecodeError::UnsupportedFormat),
        Some((stride, bpp)) => if raw.len() != h.height * (stride + 1) {
            Err(DecodeError::MalformedStream)
        } else {
            match defilter_rows(raw, stride, bpp, h.height as nat) {
                None => Err(DecodeError::UnsupportedFilter),
                Some(lines) => match plte {
                    Some(p) => indexed(lines, p.colors@),
                    None => if lines.len() % 4 != 0 {
                        Err(DecodeError::MalformedStream)
                    } else {
                        Ok(colors_of(lines, 4))
                    },
                },
            }
        },
    }
}

proof fn lemma_pixel_count(h: Ihdr, plte: Option<Plte>, raw: Seq<u8>)
    requires
        pixels_from(h, plte, raw) is Ok,
    ensures
        pixels_from(h, plte, raw)->Ok_0.len() == h.width * h.height,
{
    let (stride, bpp) = layout(h, plte is Some)->Some_0;
    crate::filter::lemma_defilter_rows_len(raw, stride, bpp, h.height as nat);
    let lines = defilter_rows(raw, stride, bpp, h.height as nat)->Some_0;
    if plte is None {
        let n = h.width * h.height;
        assert(lines.len() == n * 4) by (nonlinear_arith)
            requires
                lines.len() == h.height * stride,
                stride == 4 * h.width,
                n == h.width * h.height,
        ;
        vstd::arithmetic::div_mod::lemma_div_by_multiple(n as int, 4);
    } else {
        assert(h.height * stride == h.width * h.height) by (nonlinear_arith)
            requires
                stride == h.width,
        ;
    }
}

impl Png {
    pub fn height(&self) -> (r: usize)
        ensures
            r == self.ihdr.height,
    {
        self.ihdr.height as usize
    }

    pub fn width(&self) -> (r: usize)
        ensures
            r == self.ihdr.width,
    {
        self.ihdr.width as usize
    }

    /// Concatenates the compressed fragments in order and decompresses them.
    pub fn decompress(&self) -> (r: Result<Vec<u8>, DecodeError>)
        ensures
            match inflated(compressed_stream(self.idats@)) {
                Some(v) => r is Ok && r->Ok_0@ == v,
                None => r is Err && r->Err_0 == DecodeError::Decompression,
            },
    {
        let mut stream: Vec<u8> = Vec::new();
        let mut i: usize = 0;
        while i < self.idats.len()
            invariant
                i <= self.idats@.len(),
                stream@ == compressed_stream(self.idats@.subrange(0, i as int)),
            decreases self.idats@.len() - i,
        {
            let part = &self.idats[i].compressed_data;
            let mut j: usize = 0;
            let ghost before = stream@;
            while j < part.len()
                invariant
                    j <= part@.len(),
                    stream@ == before + part@.subrange(0, j as int),
                decreases part@.len() - j,
            {
                stream.push(part[j]);
                j = j + 1;
                proof {
                    assert(stream@ =~= before + part@.subrange(0, j as int));
                }
            }
            proof {
                let next = self.idats@.subrange(0, i + 1);
                assert(next.drop_last() =~= self.idats@.subrange(0, i as int));
                assert(part@.subrange(0, j as int) =~= part@);
            }
            i = i + 1;
        }
        proof {
            assert(self.idats@.subrange(0, i as int) =~= self.idats@);
        }
        match inflate_stream(stream.as_slice()) {
            Ok(v) => Ok(v),
            Err(_) => Err(DecodeError::Decompression),
        }
    }

    /// Turns decompressed bytes into pixels: checks the format and the
    /// length, reverses each scanline's filter and resolves the colours,
    /// through the palette when there is one, else as RGBA groups.
    pub fn resolve_pixels(&self, raw: &[u8]) -> (r: Result<Vec<Color>, DecodeError>)
        ensures
            match pixels_from(self.ihdr, self.plte_opt, raw@) {
                Ok(v) => r is Ok && r->Ok_0@ == v,
                Err(e) => r is Err && r->Err_0 == e,
            },
    {
        let h = &self.ihdr;
        if h.bit_depth != 8 {
            return Err(DecodeError::UnsupportedFormat);
        }
        let width = h.width as usize;
        let height = h.height as usize;
        let raw_len = raw.len();
        let (per_pixel, bpp): (usize, usize) = match &self.plte_opt {
            Some(_) => {
                if h.color_type != COLOR_TYPE_INDEXED {
                    return Err(DecodeError::UnsupportedFormat);
                }
                (1, 1)
            },
            None => {
                if h.color_type != COLOR_TYPE_RGBA {
                    return Err(DecodeError::UnsupportedFormat);
                }
                (4, 4)
            },
        };
        let ghost stride_spec = layout(*h, self.plte_opt is Some)->Some_0.0;
        let row_len = match width.checked_mul(per_pixel) {
            Some(s) => s.checked_add(1),
            None => None,
        };
        let stride = match row_len {
            None => {
                if height == 0 && raw.len() == 0 {
                    proof {
                        assert(defilter_rows(raw@, stride_spec, bpp as int, 0) == Some(
                            Seq::<u8>::empty(),
                        ));
                        assert(colors_of(Seq::<u8>::empty(), 4) =~= Seq::<Color>::empty());
                        assert(Seq::new(0, |i: int| Color { red: 0, green: 0, blue: 0, alpha: 0 })
                            =~= Seq::<Color>::empty());
                    }
                    return Ok(Vec::new());
                }
                proof {
                    if height > 0 {
                        assert(height * (stride_spec + 1) >= stride_spec + 1) by (nonlinear_arith)
                            requires
                                height >= 1,
                                stride_spec >= 0,
                        ;
                    }
                }
                return Err(DecodeError::MalformedStream);
            },
            Some(rl) => {
                match height.checked_mul(rl) {
                    None => {
                        return Err(DecodeError::MalformedStream);
                    },
                    Some(n) => {
                        if n != raw.len() {
                            return Err(DecodeError::MalformedStream);
                        }
                    },
                }
                rl - 1
            },
        };
        assert(stride as int == stride_spec);
        let lines = match unfilter(raw, height, stride, bpp) {
            Ok(v) => v,
            Err(e) => {
                return Err(e);
            },
        };
        match &self.plte_opt {
            Some(p) => p.resolve(lines.as_slice()),
            None => {
                if lines.len() % 4 != 0 {
                    return Err(DecodeError::MalformedStream);
                }
                Ok(Color::new_vector(lines.as_slice(), 4))
            },
        }
    }

    /// Decompresses the pixel data and resolves it into colours.
    pub fn decompress_with_color(&self) -> (r: Result<Vec<Color>, DecodeError>)
        ensures
            match inflated(compressed_stream(self.idats@)) {
                None => r is Err && r->Err_0 == DecodeError::Decompression,
                Some(raw) => match pixels_from(self.ihdr, self.plte_opt, raw) {
                    Ok(v) => r is Ok && r->Ok_0@ == v,
                    Err(e) => r is Err && r->Err_0 == e,
                },
            },
    {
        let raw = match self.decompress() {
            Ok(v) => v,
            Err(e) => {
                return Err(e);
            },
        };
        self.resolve_pixels(raw.as_slice())
    }

    /// The image the document holds: its header's size and its pixels.
    pub fn to_image(&self) -> (r: Result<Image, DecodeError>)
        ensures
            match inflated(compressed_stream(self.idats@)) {
                None => r is Err && r->Err_0 == DecodeError::Decompression,
                Some(raw) => match pixels_from(self.ihdr, self.plte_opt, raw) {
                    Ok(v) => r is Ok && r->Ok_0.pixels@ == v,
                    Err(e) => r is Err && r->Err_0 == e,
                },
            },
            r is Ok ==> r->Ok_0.wf() && r->Ok_0.width == self.ihdr.width && r->Ok_0.height
                == self.ihdr.height,
    {
        let pixels = match self.decompress_with_color() {
            Ok(v) => v,
            Err(e) => {
                return Err(e);
            },
        };
        proof {
            let raw = inflated(compressed_stream(self.idats@))->Some_0;
            lemma_pixel_count(self.ihdr, self.plte_opt, raw);
        }
        Ok(Image { width: self.ihdr.width as usize, height: self.ihdr.height as usize, pixels })
    }
}

/// `r` is what decoding `bytes` gives when its framed chunks classify as
/// `ks`: the assembly's fault, a decompression failure, or the pixels that
/// the decompressed stream resolves to, with the header's size.
pub open spec fn decodes_to(bytes: Seq<u8>, ks: Seq<Chunk>, r: Result<Image, DecodeError>) -> bool {
    &&& frames(bytes) is Some
    &&& ks.len() == frames(bytes)->Some_0.len()
    &&& forall|i: int|
        0 <= i < ks.len() ==> classified(
            #[trigger] frames(bytes)->Some_0[i],
            Ok::<Chunk, DecodeError>(ks[i]),
        )
    &&& match assemble(ks) {
        Err(f) => r is Err && r->Err_0 == DecodeError::InvalidDocument(f),
        Ok(a) => match inflated(compressed_stream(a.idats)) {
            None => r is Err && r->Err_0 == DecodeError::Decompression,
            Some(raw) => match pixels_from(a.ihdr, a.plte, raw) {
                Ok(v) => r is Ok && r->Ok_0.pixels@ == v && r->Ok_0.width == a.ihdr.width
                    && r->Ok_0.height == a.ihdr.height,
                Err(e) => r is Err && r->Err_0 == e,
            },
        },
    }
}

/// Decodes a whole file held in `bytes`: frames its chunks after the
/// signature, classifies and assembles them, decompresses the pixel data,
/// reverses the scanline filters and resolves the colours.
pub fn decode(bytes: &[u8]) -> (r: Result<Image, DecodeError>)
    ensures
        frames(bytes@) is None ==> r is Err && r->Err_0 == DecodeError::TruncatedStream,
        frames(bytes@) is Some && !(forall|i: int|
            0 <= i < frames(bytes@)->Some_0.len() ==> chunk_ok(
                #[trigger] frames(bytes@)->Some_0[i],
            )) ==> r is Err && r->Err_0 == DecodeError::MalformedChunk,
        frames(bytes@) is Some && (forall|i: int|
            0 <= i < frames(bytes@)->Some_0.len() ==> chunk_ok(
                #[trigger] frames(bytes@)->Some_0[i],
            )) ==> exists|ks: Seq<Chunk>| decodes_to(bytes@, ks, r),
        r is Ok ==> r->Ok_0.wf(),
{
    let raw_chunks = match parse_to_chunks(bytes) {
        Ok(v) => v,
        Err(e) => {
            return Err(e);
        },
    };
    let ghost cs = frames(bytes@)->Some_0;
    proof {
        assert forall|i: int| 0 <= i < raw_chunks@.len() implies raw_chunks@[i]@ == cs[i] by {
            assert(raw_views(raw_chunks@)[i] == raw_chunks@[i]@);
        }
    }
    let chunks = match classify_all(raw_chunks) {
        Ok(v) => v,
        Err(e) => {
            proof {
                let i = choose|i: int| 0 <= i < raw_chunks@.len() && !chunk_ok(#[trigger] raw_chunks@[i]@);
                assert(!chunk_ok(cs[i]));
            }
            return Err(e);
        },
    };
    let ghost ks = chunks@;
    proof {
        assert forall|i: int| 0 <= i < cs.len() implies chunk_ok(#[trigger] cs[i]) by {
            assert(raw_chunks@[i]@ == cs[i]);
        }
        assert forall|i: int| 0 <= i < ks.len() implies classified(
            #[trigger] cs[i],
            Ok::<Chunk, DecodeError>(ks[i]),
        ) by {
            assert(raw_chunks@[i]@ == cs[i]);
        }
    }
    let png = match Png::from_chunks(chunks) {
        Ok(p) => p,
        Err(e) => {
            proof {
                assert(decodes_to(bytes@, ks, Err::<Image, DecodeError>(e)));
            }
            return Err(e);
        },
    };
    let r = png.to_image();
    proof {
        assert(decodes_to(bytes@, ks, r));
    }
    r
}

} // verus!
