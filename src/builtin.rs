//! Every converter this library ships, in one registry type.

use vstd::prelude::*;

use crate::converter::{self, ConvertError, ConvertOutput, Converter, ConverterDecl, DeclModel};
use crate::encoding::{
    Base64Decoder, Base64Encoder, EncodingConverter, GzipCompress, GzipDecompress, HexDecoder,
    HexEncoder,
};
use crate::font::{FontConverter, OtfToWoff, TtfToWoff, WoffToTtf};
use crate::pki::{DerToPem, PemToDer, PkiConverter};
use crate::properties::Properties;
use crate::registry::{self, RegisterError, Registry};
use crate::subtitle::{self, SubtitleConverter, SubtitleFormat};

verus! {

/// A converter of any of this library's families, or one of a caller's own (`Other`).
pub enum Builtin<X: Converter> {
    Pki(PkiConverter),
    Subtitle(SubtitleConverter),
    Font(FontConverter),
    Encoding(EncodingConverter),
    Other(X),
}

impl<X: Converter> Converter for Builtin<X> {
    open spec fn states_decl(&self) -> bool {
        match self {
            Builtin::Other(c) => c.states_decl(),
            _ => true,
        }
    }

    open spec fn decl_model(&self) -> DeclModel {
        match self {
            Builtin::Pki(c) => c.decl_model(),
            Builtin::Subtitle(c) => c.decl_model(),
            Builtin::Font(c) => c.decl_model(),
            Builtin::Encoding(c) => c.decl_model(),
            Builtin::Other(c) => c.decl_model(),
        }
    }

    open spec fn converts(&self, input: Seq<u8>, props: crate::properties::EntriesModel, out: Result<ConvertOutput, ConvertError>) -> bool {
        match self {
            Builtin::Pki(c) => c.converts(input, props, out),
            Builtin::Subtitle(c) => c.converts(input, props, out),
            Builtin::Font(c) => c.converts(input, props, out),
            Builtin::Encoding(c) => c.converts(input, props, out),
            Builtin::Other(c) => c.converts(input, props, out),
        }
    }

    fn decl(&self) -> (r: &ConverterDecl) {
        match self {
            Builtin::Pki(c) => c.decl(),
            Builtin::Subtitle(c) => c.decl(),
            Builtin::Font(c) => c.decl(),
            Builtin::Encoding(c) => c.decl(),
            Builtin::Other(c) => c.decl(),
        }
    }

    fn convert(&self, input: &[u8], props: &Properties) -> (r: Result<ConvertOutput, ConvertError>) {
        match self {
            Builtin::Pki(c) => c.convert(input, props),
            Builtin::Subtitle(c) => c.convert(input, props),
            Builtin::Font(c) => c.convert(input, props),
            Builtin::Encoding(c) => c.convert(input, props),
            Builtin::Other(c) => c.convert(input, props),
        }
    }
}

/// The declarations that `register_builtins` adds, in order.
pub open spec fn builtin_models() -> Seq<DeclModel> {
    seq![
        converter::format_decl_model("pki.pem-to-der"@, "pem"@, "der"@),
        converter::format_decl_model("pki.der-to-pem"@, "der"@, "pem"@),
        converter::format_decl_model(subtitle::converter_id(SubtitleFormat::Srt, SubtitleFormat::Vtt), subtitle::format_name(SubtitleFormat::Srt), subtitle::format_name(SubtitleFormat::Vtt)),
        converter::format_decl_model(subtitle::converter_id(SubtitleFormat::Vtt, SubtitleFormat::Srt), subtitle::format_name(SubtitleFormat::Vtt), subtitle::format_name(SubtitleFormat::Srt)),
        converter::format_decl_model(subtitle::converter_id(SubtitleFormat::Srt, SubtitleFormat::Sbv), subtitle::format_name(SubtitleFormat::Srt), subtitle::format_name(SubtitleFormat::Sbv)),
        converter::format_decl_model(subtitle::converter_id(SubtitleFormat::Sbv, SubtitleFormat::Srt), subtitle::format_name(SubtitleFormat::Sbv), subtitle::format_name(SubtitleFormat::Srt)),
        converter::format_decl_model(subtitle::converter_id(SubtitleFormat::Vtt, SubtitleFormat::Sbv), subtitle::format_name(SubtitleFormat::Vtt), subtitle::format_name(SubtitleFormat::Sbv)),
        converter::format_decl_model(subtitle::converter_id(SubtitleFormat::Sbv, SubtitleFormat::Vtt), subtitle::format_name(SubtitleFormat::Sbv), subtitle::format_name(SubtitleFormat::Vtt)),
        converter::format_decl_model("font.ttf-to-woff"@, "ttf"@, "woff"@),
        converter::format_decl_model("font.otf-to-woff"@, "otf"@, "woff"@),
        converter::format_decl_model("font.woff-to-ttf"@, "woff"@, "ttf"@),
        converter::format_decl_model("encoding.raw-to-base64"@, "raw"@, "base64"@),
        converter::format_decl_model("encoding.base64-to-raw"@, "base64"@, "raw"@),
        converter::format_decl_model("encoding.raw-to-hex"@, "raw"@, "hex"@),
        converter::format_decl_model("encoding.hex-to-raw"@, "hex"@, "raw"@),
        converter::format_decl_model("compression.raw-to-gzip"@, "raw"@, "gzip"@),
        converter::format_decl_model("compression.gzip-to-raw"@, "gzip"@, "raw"@)
    ]
}

/// Registers every converter of the library, in order, stopping at the first
/// whose id is taken.
pub fn register_builtins<X: Converter>(registry: &mut Registry<Builtin<X>>) -> (r: Result<(), RegisterError>)
    ensures
        r is Ok <==> forall|i: int| 0 <= i < builtin_models().len() ==> !registry::has_id(old(registry)@, #[trigger] builtin_models()[i].id),
        r is Ok ==> final(registry)@ == old(registry)@ + builtin_models(),
{
    let mut cs: Vec<Builtin<X>> = Vec::new();
    cs.push(Builtin::Pki(PkiConverter::PemToDer(PemToDer::new())));
    cs.push(Builtin::Pki(PkiConverter::DerToPem(DerToPem::new())));
    cs.push(Builtin::Subtitle(SubtitleConverter::new(SubtitleFormat::Srt, SubtitleFormat::Vtt)));
    cs.push(Builtin::Subtitle(SubtitleConverter::new(SubtitleFormat::Vtt, SubtitleFormat::Srt)));
    cs.push(Builtin::Subtitle(SubtitleConverter::new(SubtitleFormat::Srt, SubtitleFormat::Sbv)));
    cs.push(Builtin::Subtitle(SubtitleConverter::new(SubtitleFormat::Sbv, SubtitleFormat::Srt)));
    cs.push(Builtin::Subtitle(SubtitleConverter::new(SubtitleFormat::Vtt, SubtitleFormat::Sbv)));
    cs.push(Builtin::Subtitle(SubtitleConverter::new(SubtitleFormat::Sbv, SubtitleFormat::Vtt)));
    cs.push(Builtin::Font(FontConverter::TtfToWoff(TtfToWoff::new())));
    cs.push(Builtin::Font(FontConverter::OtfToWoff(OtfToWoff::new())));
    cs.push(Builtin::Font(FontConverter::WoffToTtf(WoffToTtf::new())));
    cs.push(Builtin::Encoding(EncodingConverter::Base64Encoder(Base64Encoder::new())));
    cs.push(Builtin::Encoding(EncodingConverter::Base64Decoder(Base64Decoder::new())));
    cs.push(Builtin::Encoding(EncodingConverter::HexEncoder(HexEncoder::new())));
    cs.push(Builtin::Encoding(EncodingConverter::HexDecoder(HexDecoder::new())));
    cs.push(Builtin::Encoding(EncodingConverter::GzipCompress(GzipCompress::new())));
    cs.push(Builtin::Encoding(EncodingConverter::GzipDecompress(GzipDecompress::new())));
    proof {
        reveal_strlit("-to-");
        reveal_strlit("compression.gzip-to-raw");
        reveal_strlit("compression.raw-to-gzip");
        reveal_strlit("encoding.base64-to-raw");
        reveal_strlit("encoding.hex-to-raw");
        reveal_strlit("encoding.raw-to-base64");
        reveal_strlit("encoding.raw-to-hex");
        reveal_strlit("font.otf-to-woff");
        reveal_strlit("font.ttf-to-woff");
        reveal_strlit("font.woff-to-ttf");
        reveal_strlit("pki.der-to-pem");
        reveal_strlit("pki.pem-to-der");
        reveal_strlit("sbv");
        reveal_strlit("srt");
        reveal_strlit("subtitle.");
        reveal_strlit("vtt");
        let m = builtin_models();
        assert(registry::models_of(cs@) =~= m);
        assert forall|i: int, j: int| 0 <= i < j < cs@.len() implies #[trigger] cs@[i].decl_model().id != #[trigger] cs@[j].decl_model().id by {
            assert(cs@[i].decl_model() == m[i]);
            assert(cs@[j].decl_model() == m[j]);
            if i == 0 && j == 1 { assert(m[0].id[4] != m[1].id[4]); }
            if i == 0 && j == 2 { assert(m[0].id[0] != m[2].id[0]); }
            if i == 0 && j == 3 { assert(m[0].id[0] != m[3].id[0]); }
            if i == 0 && j == 4 { assert(m[0].id[0] != m[4].id[0]); }
            if i == 0 && j == 5 { assert(m[0].id[0] != m[5].id[0]); }
            if i == 0 && j == 6 { assert(m[0].id[0] != m[6].id[0]); }
            if i == 0 && j == 7 { assert(m[0].id[0] != m[7].id[0]); }
            if i == 0 && j == 8 { assert(m[0].id[0] != m[8].id[0]); }
            if i == 0 && j == 9 { assert(m[0].id[0] != m[9].id[0]); }
            if i == 0 && j == 10 { assert(m[0].id[0] != m[10].id[0]); }
            if i == 0 && j == 11 { assert(m[0].id[0] != m[11].id[0]); }
            if i == 0 && j == 12 { assert(m[0].id[0] != m[12].id[0]); }
            if i == 0 && j == 13 { assert(m[0].id[0] != m[13].id[0]); }
            if i == 0 && j == 14 { assert(m[0].id[0] != m[14].id[0]); }
            if i == 0 && j == 15 { assert(m[0].id[0] != m[15].id[0]); }
            if i == 0 && j == 16 { assert(m[0].id[0] != m[16].id[0]); }
            if i == 1 && j == 2 { assert(m[1].id[0] != m[2].id[0]); }
            if i == 1 && j == 3 { assert(m[1].id[0] != m[3].id[0]); }
            if i == 1 && j == 4 { assert(m[1].id[0] != m[4].id[0]); }
            if i == 1 && j == 5 { assert(m[1].id[0] != m[5].id[0]); }
            if i == 1 && j == 6 { assert(m[1].id[0] != m[6].id[0]); }
            if i == 1 && j == 7 { assert(m[1].id[0] != m[7].id[0]); }
            if i == 1 && j == 8 { assert(m[1].id[0] != m[8].id[0]); }
            if i == 1 && j == 9 { assert(m[1].id[0] != m[9].id[0]); }
            if i == 1 && j == 10 { assert(m[1].id[0] != m[10].id[0]); }
            if i == 1 && j == 11 { assert(m[1].id[0] != m[11].id[0]); }
            if i == 1 && j == 12 { assert(m[1].id[0] != m[12].id[0]); }
            if i == 1 && j == 13 { assert(m[1].id[0] != m[13].id[0]); }
            if i == 1 && j == 14 { assert(m[1].id[0] != m[14].id[0]); }
            if i == 1 && j == 15 { assert(m[1].id[0] != m[15].id[0]); }
            if i == 1 && j == 16 { assert(m[1].id[0] != m[16].id[0]); }
            if i == 2 && j == 3 { assert(m[2].id[9] != m[3].id[9]); }
            if i == 2 && j == 4 { assert(m[2].id[16] != m[4].id[16]); }
            if i == 2 && j == 5 { assert(m[2].id[10] != m[5].id[10]); }
            if i == 2 && j == 6 { assert(m[2].id[9] != m[6].id[9]); }
            if i == 2 && j == 7 { assert(m[2].id[10] != m[7].id[10]); }
            if i == 2 && j == 8 { assert(m[2].id[0] != m[8].id[0]); }
            if i == 2 && j == 9 { assert(m[2].id[0] != m[9].id[0]); }
            if i == 2 && j == 10 { assert(m[2].id[0] != m[10].id[0]); }
            if i == 2 && j == 11 { assert(m[2].id[0] != m[11].id[0]); }
            if i == 2 && j == 12 { assert(m[2].id[0] != m[12].id[0]); }
            if i == 2 && j == 13 { assert(m[2].id[0] != m[13].id[0]); }
            if i == 2 && j == 14 { assert(m[2].id[0] != m[14].id[0]); }
            if i == 2 && j == 15 { assert(m[2].id[0] != m[15].id[0]); }
            if i == 2 && j == 16 { assert(m[2].id[0] != m[16].id[0]); }
            if i == 3 && j == 4 { assert(m[3].id[9] != m[4].id[9]); }
            if i == 3 && j == 5 { assert(m[3].id[9] != m[5].id[9]); }
            if i == 3 && j == 6 { assert(m[3].id[17] != m[6].id[17]); }
            if i == 3 && j == 7 { assert(m[3].id[9] != m[7].id[9]); }
            if i == 3 && j == 8 { assert(m[3].id[0] != m[8].id[0]); }
            if i == 3 && j == 9 { assert(m[3].id[0] != m[9].id[0]); }
            if i == 3 && j == 10 { assert(m[3].id[0] != m[10].id[0]); }
            if i == 3 && j == 11 { assert(m[3].id[0] != m[11].id[0]); }
            if i == 3 && j == 12 { assert(m[3].id[0] != m[12].id[0]); }
            if i == 3 && j == 13 { assert(m[3].id[0] != m[13].id[0]); }
            if i == 3 && j == 14 { assert(m[3].id[0] != m[14].id[0]); }
            if i == 3 && j == 15 { assert(m[3].id[0] != m[15].id[0]); }
            if i == 3 && j == 16 { assert(m[3].id[0] != m[16].id[0]); }
            if i == 4 && j == 5 { assert(m[4].id[10] != m[5].id[10]); }
            if i == 4 && j == 6 { assert(m[4].id[9] != m[6].id[9]); }
            if i == 4 && j == 7 { assert(m[4].id[10] != m[7].id[10]); }
            if i == 4 && j == 8 { assert(m[4].id[0] != m[8].id[0]); }
            if i == 4 && j == 9 { assert(m[4].id[0] != m[9].id[0]); }
            if i == 4 && j == 10 { assert(m[4].id[0] != m[10].id[0]); }
            if i == 4 && j == 11 { assert(m[4].id[0] != m[11].id[0]); }
            if i == 4 && j == 12 { assert(m[4].id[0] != m[12].id[0]); }
            if i == 4 && j == 13 { assert(m[4].id[0] != m[13].id[0]); }
            if i == 4 && j == 14 { assert(m[4].id[0] != m[14].id[0]); }
            if i == 4 && j == 15 { assert(m[4].id[0] != m[15].id[0]); }
            if i == 4 && j == 16 { assert(m[4].id[0] != m[16].id[0]); }
            if i == 5 && j == 6 { assert(m[5].id[9] != m[6].id[9]); }
            if i == 5 && j == 7 { assert(m[5].id[16] != m[7].id[16]); }
            if i == 5 && j == 8 { assert(m[5].id[0] != m[8].id[0]); }
            if i == 5 && j == 9 { assert(m[5].id[0] != m[9].id[0]); }
            if i == 5 && j == 10 { assert(m[5].id[0] != m[10].id[0]); }
            if i == 5 && j == 11 { assert(m[5].id[0] != m[11].id[0]); }
            if i == 5 && j == 12 { assert(m[5].id[0] != m[12].id[0]); }
            if i == 5 && j == 13 { assert(m[5].id[0] != m[13].id[0]); }
            if i == 5 && j == 14 { assert(m[5].id[0] != m[14].id[0]); }
            if i == 5 && j == 15 { assert(m[5].id[0] != m[15].id[0]); }
            if i == 5 && j == 16 { assert(m[5].id[0] != m[16].id[0]); }
            if i == 6 && j == 7 { assert(m[6].id[9] != m[7].id[9]); }
            if i == 6 && j == 8 { assert(m[6].id[0] != m[8].id[0]); }
            if i == 6 && j == 9 { assert(m[6].id[0] != m[9].id[0]); }
            if i == 6 && j == 10 { assert(m[6].id[0] != m[10].id[0]); }
            if i == 6 && j == 11 { assert(m[6].id[0] != m[11].id[0]); }
            if i == 6 && j == 12 { assert(m[6].id[0] != m[12].id[0]); }
            if i == 6 && j == 13 { assert(m[6].id[0] != m[13].id[0]); }
            if i == 6 && j == 14 { assert(m[6].id[0] != m[14].id[0]); }
            if i == 6 && j == 15 { assert(m[6].id[0] != m[15].id[0]); }
            if i == 6 && j == 16 { assert(m[6].id[0] != m[16].id[0]); }
            if i == 7 && j == 8 { assert(m[7].id[0] != m[8].id[0]); }
            if i == 7 && j == 9 { assert(m[7].id[0] != m[9].id[0]); }
            if i == 7 && j == 10 { assert(m[7].id[0] != m[10].id[0]); }
            if i == 7 && j == 11 { assert(m[7].id[0] != m[11].id[0]); }
            if i == 7 && j == 12 { assert(m[7].id[0] != m[12].id[0]); }
            if i == 7 && j == 13 { assert(m[7].id[0] != m[13].id[0]); }
            if i == 7 && j == 14 { assert(m[7].id[0] != m[14].id[0]); }
            if i == 7 && j == 15 { assert(m[7].id[0] != m[15].id[0]); }
            if i == 7 && j == 16 { assert(m[7].id[0] != m[16].id[0]); }
            if i == 8 && j == 9 { assert(m[8].id[5] != m[9].id[5]); }
            if i == 8 && j == 10 { assert(m[8].id[5] != m[10].id[5]); }
            if i == 8 && j == 11 { assert(m[8].id[0] != m[11].id[0]); }
            if i == 8 && j == 12 { assert(m[8].id[0] != m[12].id[0]); }
            if i == 8 && j == 13 { assert(m[8].id[0] != m[13].id[0]); }
            if i == 8 && j == 14 { assert(m[8].id[0] != m[14].id[0]); }
            if i == 8 && j == 15 { assert(m[8].id[0] != m[15].id[0]); }
            if i == 8 && j == 16 { assert(m[8].id[0] != m[16].id[0]); }
            if i == 9 && j == 10 { assert(m[9].id[5] != m[10].id[5]); }
            if i == 9 && j == 11 { assert(m[9].id[0] != m[11].id[0]); }
            if i == 9 && j == 12 { assert(m[9].id[0] != m[12].id[0]); }
            if i == 9 && j == 13 { assert(m[9].id[0] != m[13].id[0]); }
            if i == 9 && j == 14 { assert(m[9].id[0] != m[14].id[0]); }
            if i == 9 && j == 15 { assert(m[9].id[0] != m[15].id[0]); }
            if i == 9 && j == 16 { assert(m[9].id[0] != m[16].id[0]); }
            if i == 10 && j == 11 { assert(m[10].id[0] != m[11].id[0]); }
            if i == 10 && j == 12 { assert(m[10].id[0] != m[12].id[0]); }
            if i == 10 && j == 13 { assert(m[10].id[0] != m[13].id[0]); }
            if i == 10 && j == 14 { assert(m[10].id[0] != m[14].id[0]); }
            if i == 10 && j == 15 { assert(m[10].id[0] != m[15].id[0]); }
            if i == 10 && j == 16 { assert(m[10].id[0] != m[16].id[0]); }
            if i == 11 && j == 12 { assert(m[11].id[9] != m[12].id[9]); }
            if i == 11 && j == 13 { assert(m[11].id[16] != m[13].id[16]); }
            if i == 11 && j == 14 { assert(m[11].id[9] != m[14].id[9]); }
            if i == 11 && j == 15 { assert(m[11].id[0] != m[15].id[0]); }
            if i == 11 && j == 16 { assert(m[11].id[0] != m[16].id[0]); }
            if i == 12 && j == 13 { assert(m[12].id[9] != m[13].id[9]); }
            if i == 12 && j == 14 { assert(m[12].id[9] != m[14].id[9]); }
            if i == 12 && j == 15 { assert(m[12].id[0] != m[15].id[0]); }
            if i == 12 && j == 16 { assert(m[12].id[0] != m[16].id[0]); }
            if i == 13 && j == 14 { assert(m[13].id[9] != m[14].id[9]); }
            if i == 13 && j == 15 { assert(m[13].id[0] != m[15].id[0]); }
            if i == 13 && j == 16 { assert(m[13].id[0] != m[16].id[0]); }
            if i == 14 && j == 15 { assert(m[14].id[0] != m[15].id[0]); }
            if i == 14 && j == 16 { assert(m[14].id[0] != m[16].id[0]); }
            if i == 15 && j == 16 { assert(m[15].id[12] != m[16].id[12]); }
        }
        assert forall|i: int| 0 <= i < cs@.len() implies #[trigger] cs@[i].states_decl() by {}
        assert forall|i: int| 0 <= i < cs@.len() implies (!registry::has_id(registry@, #[trigger] cs@[i].decl_model().id) <==> !registry::has_id(registry@, m[i].id)) by {
            assert(cs@[i].decl_model() == m[i]);
        }
    }
    registry.register_each(cs)
}

} // verus!
