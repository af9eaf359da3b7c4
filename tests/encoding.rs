use cambium::converter::{ConvertError, ConvertOutput, Converter};
use cambium::encoding::{
    register_all, Base64Decoder, Base64Encoder, GzipCompress, GzipDecompress, HexDecoder,
    HexEncoder,
};
use cambium::properties::{Properties, Value};
use cambium::registry::Registry;

fn single(r: Result<ConvertOutput, ConvertError>) -> (Vec<u8>, Properties) {
    match r.unwrap() {
        ConvertOutput::Single(b, p) => (b, p),
        _ => panic!("Expected single"),
    }
}

#[test]
fn test_base64_roundtrip() {
    let original = b"Hello, World! \x00\x01\x02\xff";
    let props = Properties::new().with("format", Value::text("raw"));

    let (encoded, encoded_props) = single(Base64Encoder::new().convert(original, &props));
    assert_eq!(encoded_props.get("format").unwrap().as_str(), Some("base64"));
    assert_eq!(String::from_utf8(encoded.clone()).unwrap(), "SGVsbG8sIFdvcmxkISAAAQL/");

    let (decoded, _) = single(Base64Decoder::new().convert(&encoded, &encoded_props));
    assert_eq!(decoded, original);
}

#[test]
fn test_hex_roundtrip() {
    let original = b"\xde\xad\xbe\xef";
    let props = Properties::new().with("format", Value::text("raw"));

    let (encoded, encoded_props) = single(HexEncoder::new().convert(original, &props));
    assert_eq!(encoded_props.get("format").unwrap().as_str(), Some("hex"));
    assert_eq!(String::from_utf8(encoded.clone()).unwrap(), "deadbeef");

    let (decoded, _) = single(HexDecoder::new().convert(&encoded, &encoded_props));
    assert_eq!(decoded, original);
}

#[test]
fn test_hex_with_separators() {
    let input = b"de:ad:be:ef";
    let props = Properties::new().with("format", Value::text("hex"));
    let (decoded, _) = single(HexDecoder::new().convert(input, &props));
    assert_eq!(decoded, b"\xde\xad\xbe\xef");
}

#[test]
fn test_gzip_roundtrip() {
    let original = b"Hello, World! This is test data. ".repeat(100);
    let props = Properties::new().with("format", Value::text("raw"));

    let (compressed_bytes, compressed_props) = single(GzipCompress::new().convert(&original, &props));
    assert_eq!(compressed_props.get("format").unwrap().as_str(), Some("gzip"));
    assert!(compressed_bytes.len() < original.len());

    let (decompressed_bytes, _) =
        single(GzipDecompress::new().convert(&compressed_bytes, &compressed_props));
    assert_eq!(decompressed_bytes, original);
}

#[test]
fn malformed_encodings_are_invalid_input() {
    let props = Properties::new();
    for bad in [&b"abc"[..], b"zz", b"\xff\xfe"] {
        assert!(matches!(
            HexDecoder::new().convert(bad, &props),
            Err(ConvertError::InvalidInput(_))
        ));
    }
    assert!(matches!(
        Base64Decoder::new().convert(b"not base64!", &props),
        Err(ConvertError::InvalidInput(_))
    ));
    assert!(matches!(
        GzipDecompress::new().convert(b"plain", &props),
        Err(ConvertError::InvalidInput(_))
    ));
    let (upper, _) = single(HexDecoder::new().convert(b"  DE-AD BE\n", &props));
    assert_eq!(upper, vec![0xde, 0xad, 0xbe]);
    let (padded, _) = single(Base64Decoder::new().convert(b"  QUJD\n", &props));
    assert_eq!(padded, b"ABC".to_vec());
}

#[test]
fn lib_test_register_all() {
    let mut registry = Registry::new();
    register_all(&mut registry).unwrap();
    assert_eq!(registry.len(), 6);
    assert!(registry.get("encoding.raw-to-base64").is_some());
}
