//! Byte encodings and compression: hexadecimal, Base64 and gzip.

use vstd::prelude::*;

use crate::converter::{self, ConvertError, ConvertOutput, Converter, ConverterDecl, DeclModel};
use crate::font::io_error_message;
use crate::properties::{self, EntriesModel, Properties, ValueModel};
use crate::registry::{RegisterError, Registry};
use crate::scan::{self, string_of_chars, trim_range};
use crate::text;
use std::io::Read;

verus! {

/// The lowercase hexadecimal digit of `d` (below 16).
pub open spec fn hex_digit(d: nat) -> char {
    if d < 10 {
        ((48 + d) as u8) as char
    } else {
        ((87 + d) as u8) as char
    }
}

/// Two lowercase hexadecimal digits per byte, high nibble first.
pub open spec fn hex_text(b: Seq<u8>) -> Seq<char>
    decreases b.len(),
{
    if b.len() == 0 {
        Seq::empty()
    } else {
        hex_text(b.drop_last()) + seq![hex_digit(b.last() as nat / 16), hex_digit(b.last() as nat % 16)]
    }
}

/// The value of a hexadecimal digit of either case.
pub open spec fn hex_value(c: char) -> Option<nat> {
    if '0' <= c && c <= '9' {
        Some((c as u32 - 48) as nat)
    } else if 'a' <= c && c <= 'f' {
        Some((c as u32 - 87) as nat)
    } else if 'A' <= c && c <= 'F' {
        Some((c as u32 - 55) as nat)
    } else {
        None
    }
}

/// The bytes that pairs of hexadecimal digits spell: an even number of digits
/// and nothing else.
pub open spec fn hex_bytes(s: Seq<char>) -> Option<Seq<u8>> {
    if s.len() % 2 == 0 && forall|i: int| 0 <= i < s.len() ==> #[trigger] hex_value(s[i]) is Some {
        Some(
            Seq::new(
                s.len() / 2,
                |i: int| (hex_value(s[2 * i])->0 * 16 + hex_value(s[2 * i + 1])->0) as u8,
            ),
        )
    } else {
        None
    }
}

/// Relies on `hex::encode`: two lowercase digits per byte, high nibble first.
#[verifier::external_body]
fn hex_encode(b: &[u8]) -> (r: String)
    ensures
        r@ == hex_text(b@),
{
    hex::encode(b)
}

/// Relies on `hex::decode`: digit pairs of either case to bytes; an odd
/// length or any other character fails.
#[verifier::external_body]
fn hex_decode(s: &str) -> (r: Option<Vec<u8>>)
    ensures
        match r {
            Some(b) => hex_bytes(s@) == Some(b@),
            None => hex_bytes(s@) is None,
        },
{
    hex::decode(s).ok()
}

/// The standard Base64 text (with padding) of `b`.
pub uninterp spec fn base64_encoding(b: Seq<u8>) -> Seq<char>;

/// The bytes of standard Base64 text `s`, if it is well formed.
pub uninterp spec fn base64_decoding(s: Seq<char>) -> Option<Seq<u8>>;

/// Relies on `base64::Engine::encode` with the `STANDARD` engine: a function of the bytes.
#[verifier::external_body]
fn base64_encode(b: &[u8]) -> (r: String)
    ensures
        r@ == base64_encoding(b@),
{
    base64::Engine::encode(&base64::engine::general_purpose::STANDARD, b)
}

/// Relies on `base64::Engine::decode` with the `STANDARD` engine: the bytes,
/// or an error for malformed text.
#[verifier::external_body]
fn base64_decode(s: &str) -> (r: Option<Vec<u8>>)
    ensures
        match r {
            Some(b) => base64_decoding(s@) == Some(b@),
            None => base64_decoding(s@) is None,
        },
{
    base64::Engine::decode(&base64::engine::general_purpose::STANDARD, s).ok()
}

/// The gzip stream that flate2 writes for `b` at its default level.
pub uninterp spec fn gzip_compressed(b: Seq<u8>) -> Seq<u8>;

/// The bytes that the gzip stream `b` holds, if it is one.
pub uninterp spec fn gzip_decoding(b: Seq<u8>) -> Option<Seq<u8>>;

/// Relies on `flate2::read::GzEncoder` with `Compression::default()`, read to
/// its end: the compressed stream, a function of the input.
#[verifier::external_body]
fn gzip_compress(b: &[u8]) -> (r: Result<Vec<u8>, std::io::Error>)
    ensures
        r matches Ok(v) ==> v@ == gzip_compressed(b@),
{
    let mut encoder = flate2::read::GzEncoder::new(b, flate2::Compression::default());
    let mut out = Vec::new();
    encoder.read_to_end(&mut out)?;
    Ok(out)
}

/// Relies on `flate2::read::GzDecoder` read to its end: the decompressed
/// bytes, or an error for a malformed stream.
#[verifier::external_body]
fn gzip_decompress(b: &[u8]) -> (r: Result<Vec<u8>, std::io::Error>)
    ensures
        match r {
            Ok(v) => gzip_decoding(b@) == Some(v@),
            Err(_) => gzip_decoding(b@) is None,
        },
{
    let mut decoder = flate2::read::GzDecoder::new(b);
    let mut out = Vec::new();
    decoder.read_to_end(&mut out)?;
    Ok(out)
}

pub open spec fn is_separator(c: char) -> bool {
    c == ' ' || c == ':' || c == '-'
}

/// `s` without spaces, colons and hyphens.
pub open spec fn without_separators(s: Seq<char>) -> Seq<char>
    decreases s.len(),
{
    if s.len() == 0 {
        Seq::empty()
    } else if is_separator(s.last()) {
        without_separators(s.drop_last())
    } else {
        without_separators(s.drop_last()).push(s.last())
    }
}

/// The text of UTF-8 `input`, trimmed, if it is UTF-8.
pub open spec fn trimmed_text(input: Seq<u8>) -> Option<Seq<char>> {
    match text::utf8_decoding(input) {
        Some(t) => Some(scan::trim(t)),
        None => None,
    }
}

/// The trimmed text of UTF-8 `input`, as characters.
fn trimmed_chars(input: &[u8]) -> (r: Option<(Vec<char>, usize, usize)>)
    ensures
        match trimmed_text(input@) {
            Some(t) => r matches Some(p) && p.1 <= p.2 <= p.0@.len() && p.0@.subrange(p.1 as int, p.2 as int) == t,
            None => r is None,
        },
{
    let t = match text::decode_utf8(input) {
        Some(t) => t,
        None => return None,
    };
    let cs = scan::chars_of(t);
    let (a, b) = trim_range(&cs, 0, cs.len());
    assert(cs@.subrange(0, cs@.len() as int) =~= cs@);
    Some((cs, a, b))
}

/// The trimmed UTF-8 text of `input` without separators, if it is UTF-8.
fn hex_digits_of(input: &[u8]) -> (r: Option<String>)
    ensures
        match trimmed_text(input@) {
            Some(t) => r matches Some(s) && s@ == without_separators(t),
            None => r is None,
        },
{
    let (cs, a, b) = match trimmed_chars(input) {
        Some(p) => p,
        None => return None,
    };
    let mut kept: Vec<char> = Vec::new();
    let mut i = a;
    while i < b
        invariant
            a <= i <= b <= cs@.len(),
            kept@ == without_separators(cs@.subrange(a as int, i as int)),
        decreases b - i,
    {
        let c = cs[i];
        proof {
            let sub = cs@.subrange(a as int, i + 1);
            assert(sub.drop_last() =~= cs@.subrange(a as int, i as int));
        }
        if !(c == ' ' || c == ':' || c == '-') {
            kept.push(c);
        }
        i = i + 1;
    }
    Some(string_of_chars(kept.as_slice()))
}

/// The trimmed UTF-8 text of `input`, if it is UTF-8.
fn trimmed_string(input: &[u8]) -> (r: Option<String>)
    ensures
        match trimmed_text(input@) {
            Some(t) => r matches Some(s) && s@ == t,
            None => r is None,
        },
{
    match trimmed_chars(input) {
        Some((cs, a, b)) => Some(scan::range_string(&cs, a, b)),
        None => None,
    }
}

fn not_utf8() -> (r: ConvertError)
    ensures
        r is InvalidInput,
{
    ConvertError::InvalidInput("Invalid UTF-8".to_string())
}

/// Encodes bytes as lowercase hexadecimal text.
pub struct HexEncoder {
    decl: ConverterDecl,
}

impl HexEncoder {
    #[verifier::type_invariant]
    closed spec fn inv(&self) -> bool {
        self.decl@ == converter::format_decl_model("encoding.raw-to-hex"@, "raw"@, "hex"@)
    }

    /// The declaration: `encoding.raw-to-hex`, from `format == raw` to `format == TO`.
    pub closed spec fn declared(&self) -> DeclModel {
        self.decl@
    }

    pub fn new() -> (r: HexEncoder)
        ensures
            r.declared() == converter::format_decl_model("encoding.raw-to-hex"@, "raw"@, "hex"@),
    {
        let decl = converter::format_decl("encoding.raw-to-hex", "raw", "hex").description("Encode raw bytes to hexadecimal");
        HexEncoder { decl }
    }
}

impl Converter for HexEncoder {
    open spec fn converts(&self, input: Seq<u8>, props: EntriesModel, out: Result<ConvertOutput, ConvertError>) -> bool {
        &&& (out matches Ok(ConvertOutput::Single(d, _)) && d@ == text::utf8_encoding(hex_text(input))
                && text::utf8_decoding(d@) == Some(hex_text(input)))
        &&& (out matches Ok(ConvertOutput::Single(_, p)) ==> self.declared().produces(p@) && p@
                == properties::upsert(props, "format"@, ValueModel::Str("hex"@)))
    }

    open spec fn states_decl(&self) -> bool {
        true
    }

    open spec fn decl_model(&self) -> DeclModel {
        self.declared()
    }

    fn decl(&self) -> (r: &ConverterDecl)
        ensures
            r@ == self.declared(),
    {
        &self.decl
    }

    fn convert(&self, input: &[u8], props: &Properties) -> (r: Result<ConvertOutput, ConvertError>)
        ensures
            r matches Ok(ConvertOutput::Single(d, _)) && d@ == text::utf8_encoding(hex_text(input@))
                && text::utf8_decoding(d@) == Some(hex_text(input@)),
            r matches Ok(ConvertOutput::Single(_, p)) ==> self.declared().produces(p@) && p@
                == properties::upsert(props@, "format"@, ValueModel::Str("hex"@)),
    {
        proof {
            use_type_invariant(self);
        }
        let bytes = text::into_bytes(hex_encode(input));
        let out = converter::with_format(props, "hex");
        proof {
            converter::lemma_format_produced(self.decl@, "hex"@, out@);
        }
        Ok(ConvertOutput::Single(bytes, out))
    }
}

/// Decodes hexadecimal text; blanks around it and spaces, colons and hyphens in it are ignored.
pub struct HexDecoder {
    decl: ConverterDecl,
}

impl HexDecoder {
    #[verifier::type_invariant]
    closed spec fn inv(&self) -> bool {
        self.decl@ == converter::format_decl_model("encoding.hex-to-raw"@, "hex"@, "raw"@)
    }

    /// The declaration: `encoding.hex-to-raw`, from `format == hex` to `format == TO`.
    pub closed spec fn declared(&self) -> DeclModel {
        self.decl@
    }

    pub fn new() -> (r: HexDecoder)
        ensures
            r.declared() == converter::format_decl_model("encoding.hex-to-raw"@, "hex"@, "raw"@),
    {
        let decl = converter::format_decl("encoding.hex-to-raw", "hex", "raw").description("Decode hexadecimal to raw bytes");
        HexDecoder { decl }
    }
}

impl Converter for HexDecoder {
    open spec fn converts(&self, input: Seq<u8>, props: EntriesModel, out: Result<ConvertOutput, ConvertError>) -> bool {
        &&& (match trimmed_text(input) {
                Some(t) => match hex_bytes(without_separators(t)) {
                    Some(b) => out matches Ok(ConvertOutput::Single(d, _)) && d@ == b,
                    None => out matches Err(ConvertError::InvalidInput(_)),
                },
                None => out matches Err(ConvertError::InvalidInput(_)),
            })
        &&& (out matches Ok(ConvertOutput::Single(_, p)) ==> self.declared().produces(p@) && p@
                == properties::upsert(props, "format"@, ValueModel::Str("raw"@)))
    }

    open spec fn states_decl(&self) -> bool {
        true
    }

    open spec fn decl_model(&self) -> DeclModel {
        self.declared()
    }

    fn decl(&self) -> (r: &ConverterDecl)
        ensures
            r@ == self.declared(),
    {
        &self.decl
    }

    fn convert(&self, input: &[u8], props: &Properties) -> (r: Result<ConvertOutput, ConvertError>)
        ensures
            match trimmed_text(input@) {
                Some(t) => match hex_bytes(without_separators(t)) {
                    Some(b) => r matches Ok(ConvertOutput::Single(d, _)) && d@ == b,
                    None => r matches Err(ConvertError::InvalidInput(_)),
                },
                None => r matches Err(ConvertError::InvalidInput(_)),
            },
            r matches Ok(ConvertOutput::Single(_, p)) ==> self.declared().produces(p@) && p@
                == properties::upsert(props@, "format"@, ValueModel::Str("raw"@)),
    {
        proof {
            use_type_invariant(self);
        }
        let digits = match hex_digits_of(input) {
            Some(s) => s,
            None => return Err(not_utf8()),
        };
        let bytes = match hex_decode(digits.as_str()) {
            Some(b) => b,
            None => return Err(ConvertError::InvalidInput("Invalid hex".to_string())),
        };
        let out = converter::with_format(props, "raw");
        proof {
            converter::lemma_format_produced(self.decl@, "raw"@, out@);
        }
        Ok(ConvertOutput::Single(bytes, out))
    }
}

/// Encodes bytes as standard Base64 text.
pub struct Base64Encoder {
    decl: ConverterDecl,
}

impl Base64Encoder {
    #[verifier::type_invariant]
    closed spec fn inv(&self) -> bool {
        self.decl@ == converter::format_decl_model("encoding.raw-to-base64"@, "raw"@, "base64"@)
    }

    /// The declaration: `encoding.raw-to-base64`, from `format == raw` to `format == TO`.
    pub closed spec fn declared(&self) -> DeclModel {
        self.decl@
    }

    pub fn new() -> (r: Base64Encoder)
        ensures
            r.declared() == converter::format_decl_model("encoding.raw-to-base64"@, "raw"@, "base64"@),
    {
        let decl = converter::format_decl("encoding.raw-to-base64", "raw", "base64").description("Encode raw bytes to base64");
        Base64Encoder { decl }
    }
}

impl Converter for Base64Encoder {
    open spec fn converts(&self, input: Seq<u8>, props: EntriesModel, out: Result<ConvertOutput, ConvertError>) -> bool {
        &&& (out matches Ok(ConvertOutput::Single(d, _)) && d@ == text::utf8_encoding(base64_encoding(input)))
        &&& (out matches Ok(ConvertOutput::Single(_, p)) ==> self.declared().produces(p@) && p@
                == properties::upsert(props, "format"@, ValueModel::Str("base64"@)))
    }

    open spec fn states_decl(&self) -> bool {
        true
    }

    open spec fn decl_model(&self) -> DeclModel {
        self.declared()
    }

    fn decl(&self) -> (r: &ConverterDecl)
        ensures
            r@ == self.declared(),
    {
        &self.decl
    }

    fn convert(&self, input: &[u8], props: &Properties) -> (r: Result<ConvertOutput, ConvertError>)
        ensures
            r matches Ok(ConvertOutput::Single(d, _)) && d@ == text::utf8_encoding(base64_encoding(input@)),
            r matches Ok(ConvertOutput::Single(_, p)) ==> self.declared().produces(p@) && p@
                == properties::upsert(props@, "format"@, ValueModel::Str("base64"@)),
    {
        proof {
            use_type_invariant(self);
        }
        let bytes = text::into_bytes(base64_encode(input));
        let out = converter::with_format(props, "base64");
        proof {
            converter::lemma_format_produced(self.decl@, "base64"@, out@);
        }
        Ok(ConvertOutput::Single(bytes, out))
    }
}

/// Decodes standard Base64 text; blanks around it are ignored.
pub struct Base64Decoder {
    decl: ConverterDecl,
}

impl Base64Decoder {
    #[verifier::type_invariant]
    closed spec fn inv(&self) -> bool {
        self.decl@ == converter::format_decl_model("encoding.base64-to-raw"@, "base64"@, "raw"@)
    }

    /// The declaration: `encoding.base64-to-raw`, from `format == base64` to `format == TO`.
    pub closed spec fn declared(&self) -> DeclModel {
        self.decl@
    }

    pub fn new() -> (r: Base64Decoder)
        ensures
            r.declared() == converter::format_decl_model("encoding.base64-to-raw"@, "base64"@, "raw"@),
    {
        let decl = converter::format_decl("encoding.base64-to-raw", "base64", "raw").description("Decode base64 to raw bytes");
        Base64Decoder { decl }
    }
}

impl Converter for Base64Decoder {
    open spec fn converts(&self, input: Seq<u8>, props: EntriesModel, out: Result<ConvertOutput, ConvertError>) -> bool {
        &&& (match trimmed_text(input) {
                Some(t) => match base64_decoding(t) {
                    Some(b) => out matches Ok(ConvertOutput::Single(d, _)) && d@ == b,
                    None => out matches Err(ConvertError::InvalidInput(_)),
                },
                None => out matches Err(ConvertError::InvalidInput(_)),
            })
        &&& (out matches Ok(ConvertOutput::Single(_, p)) ==> self.declared().produces(p@) && p@
                == properties::upsert(props, "format"@, ValueModel::Str("raw"@)))
    }

    open spec fn states_decl(&self) -> bool {
        true
    }

    open spec fn decl_model(&self) -> DeclModel {
        self.declared()
    }

    fn decl(&self) -> (r: &ConverterDecl)
        ensures
            r@ == self.declared(),
    {
        &self.decl
    }

    fn convert(&self, input: &[u8], props: &Properties) -> (r: Result<ConvertOutput, ConvertError>)
        ensures
            match trimmed_text(input@) {
                Some(t) => match base64_decoding(t) {
                    Some(b) => r matches Ok(ConvertOutput::Single(d, _)) && d@ == b,
                    None => r matches Err(ConvertError::InvalidInput(_)),
                },
                None => r matches Err(ConvertError::InvalidInput(_)),
            },
            r matches Ok(ConvertOutput::Single(_, p)) ==> self.declared().produces(p@) && p@
                == properties::upsert(props@, "format"@, ValueModel::Str("raw"@)),
    {
        proof {
            use_type_invariant(self);
        }
        let text = match trimmed_string(input) {
            Some(s) => s,
            None => return Err(not_utf8()),
        };
        let bytes = match base64_decode(text.as_str()) {
            Some(b) => b,
            None => return Err(ConvertError::InvalidInput("Invalid base64".to_string())),
        };
        let out = converter::with_format(props, "raw");
        proof {
            converter::lemma_format_produced(self.decl@, "raw"@, out@);
        }
        Ok(ConvertOutput::Single(bytes, out))
    }
}

/// Compresses bytes with gzip.
pub struct GzipCompress {
    decl: ConverterDecl,
}

impl GzipCompress {
    #[verifier::type_invariant]
    closed spec fn inv(&self) -> bool {
        self.decl@ == converter::format_decl_model("compression.raw-to-gzip"@, "raw"@, "gzip"@)
    }

    /// The declaration: `compression.raw-to-gzip`, from `format == raw` to `format == TO`.
    pub closed spec fn declared(&self) -> DeclModel {
        self.decl@
    }

    pub fn new() -> (r: GzipCompress)
        ensures
            r.declared() == converter::format_decl_model("compression.raw-to-gzip"@, "raw"@, "gzip"@),
    {
        let decl = converter::format_decl("compression.raw-to-gzip", "raw", "gzip").description("Compress with gzip");
        GzipCompress { decl }
    }
}

impl Converter for GzipCompress {
    open spec fn converts(&self, input: Seq<u8>, props: EntriesModel, out: Result<ConvertOutput, ConvertError>) -> bool {
        &&& (out matches Ok(ConvertOutput::Single(d, _)) ==> d@ == gzip_compressed(input))
        &&& (out matches Err(e) ==> e is Failed)
        &&& (out matches Ok(ConvertOutput::Single(_, p)) ==> self.declared().produces(p@) && p@
                == properties::upsert(props, "format"@, ValueModel::Str("gzip"@)))
    }

    open spec fn states_decl(&self) -> bool {
        true
    }

    open spec fn decl_model(&self) -> DeclModel {
        self.declared()
    }

    fn decl(&self) -> (r: &ConverterDecl)
        ensures
            r@ == self.declared(),
    {
        &self.decl
    }

    fn convert(&self, input: &[u8], props: &Properties) -> (r: Result<ConvertOutput, ConvertError>)
        ensures
            r matches Ok(ConvertOutput::Single(d, _)) ==> d@ == gzip_compressed(input@),
            r matches Err(e) ==> e is Failed,
            r matches Ok(ConvertOutput::Single(_, p)) ==> self.declared().produces(p@) && p@
                == properties::upsert(props@, "format"@, ValueModel::Str("gzip"@)),
    {
        proof {
            use_type_invariant(self);
        }
        let bytes = match gzip_compress(input) {
            Ok(b) => b,
            Err(e) => return Err(ConvertError::Failed(io_error_message(&e))),
        };
        let out = converter::with_format(props, "gzip");
        proof {
            converter::lemma_format_produced(self.decl@, "gzip"@, out@);
        }
        Ok(ConvertOutput::Single(bytes, out))
    }
}

/// Decompresses a gzip stream.
pub struct GzipDecompress {
    decl: ConverterDecl,
}

impl GzipDecompress {
    #[verifier::type_invariant]
    closed spec fn inv(&self) -> bool {
        self.decl@ == converter::format_decl_model("compression.gzip-to-raw"@, "gzip"@, "raw"@)
    }

    /// The declaration: `compression.gzip-to-raw`, from `format == gzip` to `format == TO`.
    pub closed spec fn declared(&self) -> DeclModel {
        self.decl@
    }

    pub fn new() -> (r: GzipDecompress)
        ensures
            r.declared() == converter::format_decl_model("compression.gzip-to-raw"@, "gzip"@, "raw"@),
    {
        let decl = converter::format_decl("compression.gzip-to-raw", "gzip", "raw").description("Decompress gzip");
        GzipDecompress { decl }
    }
}

impl Converter for GzipDecompress {
    open spec fn converts(&self, input: Seq<u8>, props: EntriesModel, out: Result<ConvertOutput, ConvertError>) -> bool {
        &&& (match gzip_decoding(input) {
                Some(b) => out matches Ok(ConvertOutput::Single(d, _)) && d@ == b,
                None => out matches Err(ConvertError::InvalidInput(_)),
            })
        &&& (out matches Ok(ConvertOutput::Single(_, p)) ==> self.declared().produces(p@) && p@
                == properties::upsert(props, "format"@, ValueModel::Str("raw"@)))
    }

    open spec fn states_decl(&self) -> bool {
        true
    }

    open spec fn decl_model(&self) -> DeclModel {
        self.declared()
    }

    fn decl(&self) -> (r: &ConverterDecl)
        ensures
            r@ == self.declared(),
    {
        &self.decl
    }

    fn convert(&self, input: &[u8], props: &Properties) -> (r: Result<ConvertOutput, ConvertError>)
        ensures
            match gzip_decoding(input@) {
                Some(b) => r matches Ok(ConvertOutput::Single(d, _)) && d@ == b,
                None => r matches Err(ConvertError::InvalidInput(_)),
            },
            r matches Ok(ConvertOutput::Single(_, p)) ==> self.declared().produces(p@) && p@
                == properties::upsert(props@, "format"@, ValueModel::Str("raw"@)),
    {
        proof {
            use_type_invariant(self);
        }
        let bytes = match gzip_decompress(input) {
            Ok(b) => b,
            Err(e) => return Err(ConvertError::InvalidInput(io_error_message(&e))),
        };
        let out = converter::with_format(props, "raw");
        proof {
            converter::lemma_format_produced(self.decl@, "raw"@, out@);
        }
        Ok(ConvertOutput::Single(bytes, out))
    }
}

/// Any of the encoding and compression converters.
pub enum EncodingConverter {
    HexEncoder(HexEncoder),
    HexDecoder(HexDecoder),
    Base64Encoder(Base64Encoder),
    Base64Decoder(Base64Decoder),
    GzipCompress(GzipCompress),
    GzipDecompress(GzipDecompress),
}

impl Converter for EncodingConverter {
    open spec fn converts(&self, input: Seq<u8>, props: EntriesModel, out: Result<ConvertOutput, ConvertError>) -> bool {
        match self {
            EncodingConverter::HexEncoder(c) => c.converts(input, props, out),
            EncodingConverter::HexDecoder(c) => c.converts(input, props, out),
            EncodingConverter::Base64Encoder(c) => c.converts(input, props, out),
            EncodingConverter::Base64Decoder(c) => c.converts(input, props, out),
            EncodingConverter::GzipCompress(c) => c.converts(input, props, out),
            EncodingConverter::GzipDecompress(c) => c.converts(input, props, out),
        }
    }

    open spec fn states_decl(&self) -> bool {
        true
    }

    open spec fn decl_model(&self) -> DeclModel {
        match self {
            EncodingConverter::HexEncoder(c) => c.declared(),
            EncodingConverter::HexDecoder(c) => c.declared(),
            EncodingConverter::Base64Encoder(c) => c.declared(),
            EncodingConverter::Base64Decoder(c) => c.declared(),
            EncodingConverter::GzipCompress(c) => c.declared(),
            EncodingConverter::GzipDecompress(c) => c.declared(),
        }
    }

    fn decl(&self) -> (r: &ConverterDecl) {
        match self {
            EncodingConverter::HexEncoder(c) => c.decl(),
            EncodingConverter::HexDecoder(c) => c.decl(),
            EncodingConverter::Base64Encoder(c) => c.decl(),
            EncodingConverter::Base64Decoder(c) => c.decl(),
            EncodingConverter::GzipCompress(c) => c.decl(),
            EncodingConverter::GzipDecompress(c) => c.decl(),
        }
    }

    fn convert(&self, input: &[u8], props: &Properties) -> (r: Result<ConvertOutput, ConvertError>) {
        match self {
            EncodingConverter::HexEncoder(c) => c.convert(input, props),
            EncodingConverter::HexDecoder(c) => c.convert(input, props),
            EncodingConverter::Base64Encoder(c) => c.convert(input, props),
            EncodingConverter::Base64Decoder(c) => c.convert(input, props),
            EncodingConverter::GzipCompress(c) => c.convert(input, props),
            EncodingConverter::GzipDecompress(c) => c.convert(input, props),
        }
    }
}

/// The declarations that `register_all` adds, in order.
pub open spec fn encoding_models() -> Seq<DeclModel> {
    seq![
        converter::format_decl_model("encoding.raw-to-base64"@, "raw"@, "base64"@),
        converter::format_decl_model("encoding.base64-to-raw"@, "base64"@, "raw"@),
        converter::format_decl_model("encoding.raw-to-hex"@, "raw"@, "hex"@),
        converter::format_decl_model("encoding.hex-to-raw"@, "hex"@, "raw"@),
        converter::format_decl_model("compression.raw-to-gzip"@, "raw"@, "gzip"@),
        converter::format_decl_model("compression.gzip-to-raw"@, "gzip"@, "raw"@)
    ]
}

/// Registers the six encoding and compression converters, in order, stopping at the first whose id is taken.
pub fn register_all(registry: &mut Registry<EncodingConverter>) -> (r: Result<(), RegisterError>)
    ensures
        r is Ok <==> forall|i: int| 0 <= i < encoding_models().len() ==> !crate::registry::has_id(old(registry)@, #[trigger] encoding_models()[i].id),
        r is Ok ==> final(registry)@ == old(registry)@ + encoding_models(),
{
    let mut cs: Vec<EncodingConverter> = Vec::new();
    cs.push(EncodingConverter::Base64Encoder(Base64Encoder::new()));
    cs.push(EncodingConverter::Base64Decoder(Base64Decoder::new()));
    cs.push(EncodingConverter::HexEncoder(HexEncoder::new()));
    cs.push(EncodingConverter::HexDecoder(HexDecoder::new()));
    cs.push(EncodingConverter::GzipCompress(GzipCompress::new()));
    cs.push(EncodingConverter::GzipDecompress(GzipDecompress::new()));
    proof {
        reveal_strlit("compression.gzip-to-raw");
        reveal_strlit("compression.raw-to-gzip");
        reveal_strlit("encoding.base64-to-raw");
        reveal_strlit("encoding.hex-to-raw");
        reveal_strlit("encoding.raw-to-base64");
        reveal_strlit("encoding.raw-to-hex");
        let m = encoding_models();
        assert(crate::registry::models_of(cs@) =~= m);
        assert forall|i: int, j: int| 0 <= i < j < cs@.len() implies #[trigger] cs@[i].decl_model().id != #[trigger] cs@[j].decl_model().id by {
            assert(cs@[i].decl_model() == m[i]);
            assert(cs@[j].decl_model() == m[j]);
            if i == 0 && j == 1 { assert(m[0].id[9] != m[1].id[9]); }
            if i == 0 && j == 2 { assert(m[0].id[16] != m[2].id[16]); }
            if i == 0 && j == 3 { assert(m[0].id[9] != m[3].id[9]); }
            if i == 0 && j == 4 { assert(m[0].id[0] != m[4].id[0]); }
            if i == 0 && j == 5 { assert(m[0].id[0] != m[5].id[0]); }
            if i == 1 && j == 2 { assert(m[1].id[9] != m[2].id[9]); }
            if i == 1 && j == 3 { assert(m[1].id[9] != m[3].id[9]); }
            if i == 1 && j == 4 { assert(m[1].id[0] != m[4].id[0]); }
            if i == 1 && j == 5 { assert(m[1].id[0] != m[5].id[0]); }
            if i == 2 && j == 3 { assert(m[2].id[9] != m[3].id[9]); }
            if i == 2 && j == 4 { assert(m[2].id[0] != m[4].id[0]); }
            if i == 2 && j == 5 { assert(m[2].id[0] != m[5].id[0]); }
            if i == 3 && j == 4 { assert(m[3].id[0] != m[4].id[0]); }
            if i == 3 && j == 5 { assert(m[3].id[0] != m[5].id[0]); }
            if i == 4 && j == 5 { assert(m[4].id[12] != m[5].id[12]); }
        }
        assert forall|i: int| 0 <= i < cs@.len() implies #[trigger] cs@[i].states_decl() by {}
        assert forall|i: int| 0 <= i < cs@.len() implies (!crate::registry::has_id(registry@, #[trigger] cs@[i].decl_model().id) <==> !crate::registry::has_id(registry@, m[i].id)) by {
            assert(cs@[i].decl_model() == m[i]);
        }
    }
    registry.register_each(cs)
}


proof fn lemma_hex_digit_value(d: nat)
    requires
        d < 16,
    ensures
        hex_value(hex_digit(d)) == Some(d),
        !scan::is_ws(hex_digit(d)),
        !is_separator(hex_digit(d)),
{
}

proof fn lemma_hex_text_shape(b: Seq<u8>)
    ensures
        hex_text(b).len() == 2 * b.len(),
        forall|i: int|
            0 <= i < b.len() ==> #[trigger] hex_text(b)[2 * i] == hex_digit(b[i] as nat / 16) && hex_text(
                b,
            )[2 * i + 1] == hex_digit(b[i] as nat % 16),
    decreases b.len(),
{
    if b.len() > 0 {
        lemma_hex_text_shape(b.drop_last());
    }
}

proof fn lemma_without_separators_id(s: Seq<char>)
    requires
        forall|i: int| 0 <= i < s.len() ==> !is_separator(#[trigger] s[i]),
    ensures
        without_separators(s) == s,
    decreases s.len(),
{
    if s.len() > 0 {
        lemma_without_separators_id(s.drop_last());
        assert(s.drop_last().push(s.last()) =~= s);
    }
}

/// Hexadecimal text of any bytes, trimmed and cleared of separators as the
/// decoder does, decodes to those bytes.
pub proof fn lemma_hex_round_trip(b: Seq<u8>)
    ensures
        hex_bytes(without_separators(scan::trim(hex_text(b)))) == Some(b),
{
    let s = hex_text(b);
    lemma_hex_text_shape(b);
    assert forall|k: int| 0 <= k < s.len() implies hex_value(#[trigger] s[k]) is Some && !scan::is_ws(s[k])
        && !is_separator(s[k]) by {
        let i = k / 2;
        assert(0 <= i < b.len());
        assert(hex_text(b)[2 * i] == hex_digit(b[i] as nat / 16));
        assert(hex_text(b)[2 * i + 1] == hex_digit(b[i] as nat % 16));
        if k % 2 == 0 {
            assert(k == 2 * i);
            lemma_hex_digit_value(b[i] as nat / 16);
        } else {
            assert(k == 2 * i + 1);
            lemma_hex_digit_value(b[i] as nat % 16);
        }
    }
    scan::lemma_lead(s, 0);
    scan::lemma_trail(s.subrange(0, s.len() as int), 0);
    assert(s.subrange(0, s.len() as int) =~= s);
    let t = s.subrange(scan::lead(s), s.len() as int);
    assert(t.subrange(0, t.len() - scan::trail(t)) =~= s);
    lemma_without_separators_id(s);
    assert forall|i: int| 0 <= i < b.len() implies (hex_value(s[2 * i])->0 * 16 + hex_value(s[2 * i + 1])->0) as u8
        == #[trigger] b[i] by {
        lemma_hex_digit_value(b[i] as nat / 16);
        lemma_hex_digit_value(b[i] as nat % 16);
        assert(hex_text(b)[2 * i] == hex_digit(b[i] as nat / 16));
        let x = b[i] as nat;
        assert(x / 16 * 16 + x % 16 == x) by (nonlinear_arith);
    }
    assert(Seq::new(s.len() / 2, |i: int| (hex_value(s[2 * i])->0 * 16 + hex_value(s[2 * i + 1])->0) as u8) =~= b);
}


/// Decoding what the hexadecimal encoder wrote gives back the bytes it was given.
pub proof fn lemma_hex_converters_round_trip(
    encoder: HexEncoder,
    decoder: HexDecoder,
    blob: Seq<u8>,
    props: EntriesModel,
    encoded: Result<ConvertOutput, ConvertError>,
    text_props: EntriesModel,
    decoded: Result<ConvertOutput, ConvertError>,
)
    requires
        encoder.converts(blob, props, encoded),
        encoded matches Ok(ConvertOutput::Single(d, _)) && decoder.converts(d@, text_props, decoded),
    ensures
        decoded matches Ok(ConvertOutput::Single(b, _)) && b@ == blob,
{
    lemma_hex_round_trip(blob);
    let d = encoded->Ok_0->Single_0;
    assert(trimmed_text(d@) == Some(scan::trim(hex_text(blob))));
}

} // verus!
