use cambium::palette::{parse_gpl, serialize_gpl, Color, Palette};

#[test]
fn test_gpl_roundtrip() {
    let gpl = "GIMP Palette\nName: Test\nColumns: 16\n#\n255   0   0  Red\n  0 255   0  Green\n  0   0 255  Blue\n";
    let palette = parse_gpl(gpl).unwrap();
    assert_eq!(palette.name, Some("Test".to_string()));
    assert_eq!(palette.colors.len(), 3);
    assert_eq!(palette.colors[0].r, 255);
    assert_eq!(palette.colors[0].g, 0);
    assert_eq!(palette.colors[0].b, 0);

    let out = serialize_gpl(&palette);
    let palette2 = parse_gpl(&out).unwrap();
    assert_eq!(palette2.colors.len(), 3);
    assert_eq!(palette2.colors[0].r, 255);
}

#[test]
fn gpl_text_layout() {
    let palette = Palette {
        name: None,
        colors: vec![
            Color { name: None, r: 1, g: 22, b: 255 },
            Color { name: Some("Deep  Sea".to_string()), r: 0, g: 0, b: 7 },
        ],
    };
    assert_eq!(
        serialize_gpl(&palette),
        "GIMP Palette\nColumns: 16\n#\n  1  22 255  Untitled\n  0   0   7  Deep  Sea\n"
    );
}

#[test]
fn gpl_parsing_details() {
    assert!(parse_gpl("JASC-PAL\n").is_err());
    assert!(parse_gpl("").is_err());
    let p = parse_gpl("  GIMP Palette  \n# comment\n\n10 20 30\n300 0 0 Too big\n1 2\n4 5 6   Two   words \n").unwrap();
    assert_eq!(p.name, None);
    assert_eq!(p.colors.len(), 2);
    assert_eq!((p.colors[0].r, p.colors[0].g, p.colors[0].b), (10, 20, 30));
    assert_eq!(p.colors[0].name, None);
    assert_eq!(p.colors[1].name, Some("Two words".to_string()));
}

use cambium::palette::{parse_aco, serialize_aco};

#[test]
fn test_aco_roundtrip() {
    let palette = Palette {
        name: None,
        colors: vec![
            Color { r: 255, g: 0, b: 0, name: Some("Red".to_string()) },
            Color { r: 0, g: 255, b: 0, name: Some("Green".to_string()) },
            Color { r: 0, g: 0, b: 255, name: Some("Blue".to_string()) },
        ],
    };

    let aco = serialize_aco(&palette);
    let parsed = parse_aco(&aco).unwrap();
    assert_eq!(parsed.colors.len(), 3);
    assert_eq!(parsed.colors[0].r, 255);
    assert_eq!(parsed.colors[0].g, 0);
    assert_eq!(parsed.colors[0].b, 0);
    assert_eq!(parsed.colors[0].name, Some("Red".to_string()));
}

#[test]
fn aco_layout() {
    let palette = Palette {
        name: None,
        colors: vec![Color { r: 1, g: 2, b: 3, name: Some("\u{1F600}".to_string()) }],
    };
    let aco = serialize_aco(&palette);
    let expected: Vec<u8> = vec![
        0, 1, 0, 1, 0, 0, 1, 0, 2, 0, 3, 0, 0, 0, // version 1
        0, 2, 0, 1, 0, 0, 1, 0, 2, 0, 3, 0, 0, 0, // version 2 entry
        0, 0, 0, 3, 0xd8, 0x3d, 0xde, 0x00, 0, 0, // name: surrogate pair, then zero
    ];
    assert_eq!(aco, expected);
    let back = parse_aco(&aco).unwrap();
    assert_eq!(back.colors[0].name, Some("\u{1F600}".to_string()));
}

#[test]
fn aco_grey_truncated_and_short() {
    assert!(parse_aco(&[0, 1, 0]).is_err());
    // grey colour space, and a count larger than the entries present
    let data = vec![0, 1, 0, 5, 0, 8, 0x80, 0x7f, 0, 0, 0, 0, 0, 0];
    let p = parse_aco(&data).unwrap();
    assert_eq!(p.colors.len(), 1);
    assert_eq!((p.colors[0].r, p.colors[0].g, p.colors[0].b), (0x80, 0x80, 0x80));
    assert_eq!(p.colors[0].name, None);
}
