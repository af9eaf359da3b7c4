//! PEM and DER: certificates and keys as Base64 text or raw bytes.

use vstd::prelude::*;

use crate::properties::EntriesModel;

use crate::converter::{self, ConvertError, ConvertOutput, Converter, ConverterDecl, DeclModel};
use crate::properties::{self, Properties, Value, ValueModel};
use crate::registry::{RegisterError, Registry};
use crate::text;

verus! {

#[verifier::external_type_specification]
#[verifier::external_body]
pub struct ExPemError(pem_rfc7468::Error);

/// The type label and the bytes of the PEM document `pem`, if it is one.
pub uninterp spec fn pem_decoding(pem: Seq<u8>) -> Option<(Seq<char>, Seq<u8>)>;

/// The PEM document with type label `label` that encodes `der`, with `\n` line endings.
pub uninterp spec fn pem_encoding(label: Seq<char>, der: Seq<u8>) -> Option<Seq<char>>;

/// Relies on `pem_rfc7468::decode_vec`: the label and data of a strict RFC 7468
/// document, a function of the input alone.
#[verifier::external_body]
fn pem_decode(pem: &[u8]) -> (r: Result<(String, Vec<u8>), pem_rfc7468::Error>)
    ensures
        match r {
            Ok((label, der)) => pem_decoding(pem@) == Some((label@, der@)),
            Err(_) => pem_decoding(pem@) is None,
        },
{
    match pem_rfc7468::decode_vec(pem) {
        Ok((label, der)) => Ok((label.to_string(), der)),
        Err(e) => Err(e),
    }
}

/// Relies on `pem_rfc7468::encode_string` with `LineEnding::LF`: a function of
/// the label and the data alone.
#[verifier::external_body]
fn pem_encode(label: &str, der: &[u8]) -> (r: Result<String, pem_rfc7468::Error>)
    ensures
        match r {
            Ok(text) => pem_encoding(label@, der@) == Some(text@),
            Err(_) => pem_encoding(label@, der@) is None,
        },
{
    pem_rfc7468::encode_string(label, pem_rfc7468::LineEnding::LF, der)
}

/// Relies on the `Display` impl of `pem_rfc7468::Error`: a message for the error.
#[verifier::external_body]
fn pem_error_message(e: &pem_rfc7468::Error) -> String {
    e.to_string()
}

/// The label used when the properties name none.
pub open spec fn default_label() -> Seq<char> {
    "CERTIFICATE"@
}

/// The `pem_label` of `props` when it is a string, else `CERTIFICATE`.
pub open spec fn label_of(props: properties::EntriesModel) -> Seq<char> {
    match properties::lookup(props, "pem_label"@) {
        Some(ValueModel::Str(l)) => l,
        _ => default_label(),
    }
}

/// Decodes PEM text to the DER bytes it holds; records the label as `pem_label`.
pub struct PemToDer {
    decl: ConverterDecl,
}

/// Encodes DER bytes as PEM text, labelled by `pem_label` (default `CERTIFICATE`).
pub struct DerToPem {
    decl: ConverterDecl,
}

impl PemToDer {
    #[verifier::type_invariant]
    closed spec fn inv(&self) -> bool {
        self.decl@ == converter::format_decl_model("pki.pem-to-der"@, "pem"@, "der"@)
    }

    /// The declaration: `pki.pem-to-der`, from `format == pem` to `format == der`.
    pub closed spec fn declared(&self) -> DeclModel {
        self.decl@
    }

    pub fn new() -> (r: PemToDer)
        ensures
            r.declared() == converter::format_decl_model("pki.pem-to-der"@, "pem"@, "der"@),
    {
        let decl = converter::format_decl("pki.pem-to-der", "pem", "der").description(
            "Decode PEM to raw DER bytes",
        );
        PemToDer { decl }
    }
}

impl Converter for PemToDer {
    open spec fn converts(&self, input: Seq<u8>, props: EntriesModel, out: Result<ConvertOutput, ConvertError>) -> bool {
        &&& (match pem_decoding(input) {
                Some((label, der)) => out matches Ok(ConvertOutput::Single(d, p)) && d@ == der
                    && p@ == properties::upsert(
                    properties::upsert(props, "format"@, ValueModel::Str("der"@)),
                    "pem_label"@,
                    ValueModel::Str(label),
                ),
                None => out matches Err(ConvertError::InvalidInput(_)),
            })
        &&& (out matches Ok(ConvertOutput::Single(_, p)) ==> self.declared().produces(p@))
    }

    open spec fn states_decl(&self) -> bool {
        true
    }

    open spec fn decl_model(&self) -> DeclModel {
        self.declared()
    }

    fn decl(&self) -> (r: &ConverterDecl)
        ensures
            r@ == self.declared(),
    {
        &self.decl
    }

    /// The bytes and label that `pem_decoding` gives; `InvalidInput` when it gives none.
    fn convert(&self, input: &[u8], props: &Properties) -> (r: Result<ConvertOutput, ConvertError>)
        ensures
            match pem_decoding(input@) {
                Some((label, der)) => r matches Ok(ConvertOutput::Single(d, p)) && d@ == der
                    && p@ == properties::upsert(
                    properties::upsert(props@, "format"@, ValueModel::Str("der"@)),
                    "pem_label"@,
                    ValueModel::Str(label),
                ),
                None => r matches Err(ConvertError::InvalidInput(_)),
            },
            r matches Ok(ConvertOutput::Single(_, p)) ==> self.declared().produces(p@),
    {
        proof {
            use_type_invariant(self);
        }
        match pem_decode(input) {
            Ok((label, der)) => {
                let mut out = converter::with_format(props, "der");
                proof {
                    use_type_invariant(&out);
                    properties::lemma_upsert_unique(out@, "pem_label"@, ValueModel::Str(label@));
                    reveal_strlit("pem_label");
                    reveal_strlit("format");
                    assert("pem_label"@ != "format"@) by {
                        assert("pem_label"@[0] != "format"@[0]);
                    }
                }
                out.insert("pem_label".to_string(), Value::Str(label));
                proof {
                    converter::lemma_format_produced(self.decl@, "der"@, out@);
                }
                Ok(ConvertOutput::Single(der, out))
            },
            Err(e) => Err(ConvertError::InvalidInput(pem_error_message(&e))),
        }
    }
}

impl DerToPem {
    #[verifier::type_invariant]
    closed spec fn inv(&self) -> bool {
        self.decl@ == converter::format_decl_model("pki.der-to-pem"@, "der"@, "pem"@)
    }

    /// The declaration: `pki.der-to-pem`, from `format == der` to `format == pem`.
    pub closed spec fn declared(&self) -> DeclModel {
        self.decl@
    }

    pub fn new() -> (r: DerToPem)
        ensures
            r.declared() == converter::format_decl_model("pki.der-to-pem"@, "der"@, "pem"@),
    {
        let decl = converter::format_decl("pki.der-to-pem", "der", "pem").description(
            "Encode DER bytes as PEM (label from pem_label, default CERTIFICATE)",
        );
        DerToPem { decl }
    }
}

impl Converter for DerToPem {
    open spec fn converts(&self, input: Seq<u8>, props: EntriesModel, out: Result<ConvertOutput, ConvertError>) -> bool {
        &&& (match pem_encoding(label_of(props), input) {
                Some(text) => out matches Ok(ConvertOutput::Single(d, p)) && d@ == text::utf8_encoding(text)
                    && p@ == properties::upsert(props, "format"@, ValueModel::Str("pem"@)),
                None => out matches Err(ConvertError::Failed(_)),
            })
        &&& (out matches Ok(ConvertOutput::Single(_, p)) ==> self.declared().produces(p@))
    }

    open spec fn states_decl(&self) -> bool {
        true
    }

    open spec fn decl_model(&self) -> DeclModel {
        self.declared()
    }

    fn decl(&self) -> (r: &ConverterDecl)
        ensures
            r@ == self.declared(),
    {
        &self.decl
    }

    /// The text that `pem_encoding` gives for the label and the input; `Failed`
    /// when it gives none.
    fn convert(&self, input: &[u8], props: &Properties) -> (r: Result<ConvertOutput, ConvertError>)
        ensures
            match pem_encoding(label_of(props@), input@) {
                Some(text) => r matches Ok(ConvertOutput::Single(d, p)) && d@ == text::utf8_encoding(text)
                    && p@ == properties::upsert(props@, "format"@, ValueModel::Str("pem"@)),
                None => r matches Err(ConvertError::Failed(_)),
            },
            r matches Ok(ConvertOutput::Single(_, p)) ==> self.declared().produces(p@),
    {
        proof {
            use_type_invariant(self);
        }
        let label = match props.get("pem_label") {
            Some(Value::Str(l)) => l.clone(),
            _ => "CERTIFICATE".to_string(),
        };
        match pem_encode(label.as_str(), input) {
            Ok(text) => {
                let out = converter::with_format(props, "pem");
                proof {
                    converter::lemma_format_produced(self.decl@, "pem"@, out@);
                }
                Ok(ConvertOutput::Single(text::into_bytes(text), out))
            },
            Err(e) => Err(ConvertError::Failed(pem_error_message(&e))),
        }
    }
}

/// Either PEM converter.
pub enum PkiConverter {
    PemToDer(PemToDer),
    DerToPem(DerToPem),
}

impl Converter for PkiConverter {
    open spec fn converts(&self, input: Seq<u8>, props: EntriesModel, out: Result<ConvertOutput, ConvertError>) -> bool {
        match self {
            PkiConverter::PemToDer(c) => c.converts(input, props, out),
            PkiConverter::DerToPem(c) => c.converts(input, props, out),
        }
    }

    open spec fn states_decl(&self) -> bool {
        true
    }

    open spec fn decl_model(&self) -> DeclModel {
        match self {
            PkiConverter::PemToDer(c) => c.declared(),
            PkiConverter::DerToPem(c) => c.declared(),
        }
    }

    fn decl(&self) -> (r: &ConverterDecl)
        ensures
            r@ == self.decl_model(),
    {
        match self {
            PkiConverter::PemToDer(c) => c.decl(),
            PkiConverter::DerToPem(c) => c.decl(),
        }
    }

    fn convert(&self, input: &[u8], props: &Properties) -> (r: Result<ConvertOutput, ConvertError>)
        ensures
            r matches Ok(ConvertOutput::Single(_, p)) ==> self.decl_model().produces(p@),
    {
        match self {
            PkiConverter::PemToDer(c) => c.convert(input, props),
            PkiConverter::DerToPem(c) => c.convert(input, props),
        }
    }
}

/// The declarations that `register_all` adds, in order.
pub open spec fn pki_models() -> Seq<DeclModel> {
    seq![
        converter::format_decl_model("pki.pem-to-der"@, "pem"@, "der"@),
        converter::format_decl_model("pki.der-to-pem"@, "der"@, "pem"@)
    ]
}

/// Registers both PEM converters: all or, where an id is taken, none beyond those before it.
pub fn register_all(registry: &mut Registry<PkiConverter>) -> (r: Result<(), RegisterError>)
    ensures
        r is Ok <==> forall|i: int| 0 <= i < pki_models().len() ==> !crate::registry::has_id(old(registry)@, #[trigger] pki_models()[i].id),
        r is Ok ==> final(registry)@ == old(registry)@ + pki_models(),
{
    let mut cs: Vec<PkiConverter> = Vec::new();
    cs.push(PkiConverter::PemToDer(PemToDer::new()));
    cs.push(PkiConverter::DerToPem(DerToPem::new()));
    proof {
        reveal_strlit("pki.der-to-pem");
        reveal_strlit("pki.pem-to-der");
        let m = pki_models();
        assert(crate::registry::models_of(cs@) =~= m);
        assert forall|i: int, j: int| 0 <= i < j < cs@.len() implies #[trigger] cs@[i].decl_model().id != #[trigger] cs@[j].decl_model().id by {
            assert(cs@[i].decl_model() == m[i]);
            assert(cs@[j].decl_model() == m[j]);
            if i == 0 && j == 1 { assert(m[0].id[4] != m[1].id[4]); }
        }
        assert forall|i: int| 0 <= i < cs@.len() implies #[trigger] cs@[i].states_decl() by {}
        assert forall|i: int| 0 <= i < cs@.len() implies (!crate::registry::has_id(registry@, #[trigger] cs@[i].decl_model().id) <==> !crate::registry::has_id(registry@, m[i].id)) by {
            assert(cs@[i].decl_model() == m[i]);
        }
    }
    registry.register_each(cs)
}

} // verus!
