use cambium::converter::{ConvertOutput, Converter};
use cambium::font::{build_woff, parse_sfnt_tables, woff_to_sfnt, OtfToWoff, TtfToWoff, WoffToTtf};
use cambium::properties::{Properties, Value};

#[test]
fn test_woff_bad_magic() {
    let bad_data = b"not a font";
    let props = Properties::new().with("format", Value::text("ttf"));
    let result = TtfToWoff::new().convert(bad_data, &props);
    assert!(result.is_err());
}

#[test]
fn test_woff_to_ttf_bad_magic() {
    let bad_data = b"not a woff file at all really";
    let props = Properties::new().with("format", Value::text("woff"));
    let result = WoffToTtf::new().convert(bad_data, &props);
    assert!(result.is_err());
}

fn be32(v: u32) -> [u8; 4] {
    v.to_be_bytes()
}

/// A canonical two-table sfnt: tables in tag order, padded, offsets in order.
fn sample_font() -> Vec<u8> {
    let head: Vec<u8> = vec![1, 2, 3, 4, 5];
    let glyf: Vec<u8> = b"abcdabcdabcdabcdabcdabcdabcdabcdabcdabcdabcdabcd".to_vec();
    let mut f = Vec::new();
    f.extend_from_slice(&be32(0x0001_0000));
    f.extend_from_slice(&[0, 2, 0, 32, 0, 1, 0, 0]);
    let first = 12 + 32;
    let second = first + 8; // five bytes padded to eight
    f.extend_from_slice(b"glyf");
    f.extend_from_slice(&be32(7));
    f.extend_from_slice(&be32(first));
    f.extend_from_slice(&be32(glyf.len() as u32));
    f.extend_from_slice(b"head");
    f.extend_from_slice(&be32(9));
    f.extend_from_slice(&be32(first + glyf.len() as u32));
    f.extend_from_slice(&be32(head.len() as u32));
    assert_eq!(second, 52);
    f.extend_from_slice(&glyf);
    f.extend_from_slice(&head);
    f.extend_from_slice(&[0, 0, 0]);
    f
}

#[test]
fn woff_round_trip_is_exact() {
    let font = sample_font();
    let (version, tables) = parse_sfnt_tables(&font).unwrap();
    assert_eq!(version, 0x0001_0000);
    assert_eq!(tables.len(), 2);
    assert_eq!(tables[0].tag, u32::from_be_bytes(*b"glyf"));
    let woff = build_woff(version, &tables).unwrap();
    assert_eq!(&woff[0..4], b"wOFF");
    assert_eq!(u32::from_be_bytes([woff[8], woff[9], woff[10], woff[11]]) as usize, woff.len());
    // the repetitive table is stored compressed, the short one as it is
    let glyf_stored = u32::from_be_bytes([woff[44 + 8], woff[45 + 8], woff[46 + 8], woff[47 + 8]]);
    assert!(glyf_stored < 48);
    assert_eq!(woff_to_sfnt(&woff).unwrap(), font);
}

#[test]
fn tables_are_sorted_by_tag() {
    let mut f = Vec::new();
    f.extend_from_slice(&be32(0x4F54_544F));
    f.extend_from_slice(&[0, 2, 0, 32, 0, 1, 0, 0]);
    f.extend_from_slice(b"zzzz");
    f.extend_from_slice(&be32(0));
    f.extend_from_slice(&be32(44));
    f.extend_from_slice(&be32(4));
    f.extend_from_slice(b"aaaa");
    f.extend_from_slice(&be32(0));
    f.extend_from_slice(&be32(48));
    f.extend_from_slice(&be32(4));
    f.extend_from_slice(&[1, 1, 1, 1, 2, 2, 2, 2]);
    let (_, tables) = parse_sfnt_tables(&f).unwrap();
    assert_eq!(tables[0].tag, u32::from_be_bytes(*b"aaaa"));
    assert_eq!(tables[0].data, vec![2, 2, 2, 2]);
    let props = Properties::new().with("format", Value::text("otf"));
    let out = OtfToWoff::new().convert(&f, &props).unwrap();
    match out {
        ConvertOutput::Single(_, p) => {
            assert_eq!(p.get("format").and_then(|v| v.as_str()), Some("woff"))
        }
        _ => panic!("Expected single"),
    }
}

#[test]
fn truncated_tables_are_rejected() {
    let mut f = sample_font();
    f.truncate(50);
    assert!(parse_sfnt_tables(&f).is_err());
    let mut w = build_woff(0x0001_0000, &parse_sfnt_tables(&sample_font()).unwrap().1).unwrap();
    w.truncate(w.len() - 4);
    assert!(woff_to_sfnt(&w).is_err());
}
