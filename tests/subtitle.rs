use cambium::builtin::{register_builtins, Builtin};
use cambium::executor::{ExecutionContext, Executor, SimpleExecutor};
use cambium::pattern::PropertyPattern;
use cambium::planner::Planner;
use std::sync::Arc;
use cambium::converter::{ConvertOutput, Converter};
use cambium::properties::{Properties, Value};
use cambium::registry::Registry;
use cambium::subtitle::{
    parse_sbv, parse_srt, parse_vtt, register_all, serialize_sbv, serialize_srt, serialize_vtt,
    Subtitle, SubtitleConverter, SubtitleFile, SubtitleFormat,
};

const SRT_SAMPLE: &str = "1\n00:00:01,000 --> 00:00:04,000\nHello, world!\n\n2\n00:00:05,000 --> 00:00:08,000\nSecond subtitle.\n\n";
const VTT_SAMPLE: &str = "WEBVTT\n\n00:00:01.000 --> 00:00:04.000\nHello, world!\n\n00:00:05.000 --> 00:00:08.000\nSecond subtitle.\n\n";
const SBV_SAMPLE: &str =
    "0:00:01.000,0:00:04.000\nHello, world!\n\n0:00:05.000,0:00:08.000\nSecond subtitle.\n\n";

#[test]
fn test_parse_srt() {
    let file = parse_srt(SRT_SAMPLE.as_bytes()).unwrap();
    assert_eq!(file.entries.len(), 2);
    assert_eq!(file.entries[0].index, Some(1));
    assert_eq!(file.entries[0].start, 1000);
    assert_eq!(file.entries[0].end, 4000);
    assert_eq!(file.entries[0].text, "Hello, world!");
}

#[test]
fn test_parse_vtt() {
    let file = parse_vtt(VTT_SAMPLE.as_bytes()).unwrap();
    assert_eq!(file.entries.len(), 2);
    assert_eq!(file.entries[0].start, 1000);
    assert_eq!(file.entries[0].text, "Hello, world!");
}

#[test]
fn test_parse_sbv() {
    let file = parse_sbv(SBV_SAMPLE.as_bytes()).unwrap();
    assert_eq!(file.entries.len(), 2);
    assert_eq!(file.entries[0].start, 1000);
    assert_eq!(file.entries[0].text, "Hello, world!");
}

#[test]
fn test_srt_roundtrip() {
    let file = parse_srt(SRT_SAMPLE.as_bytes()).unwrap();
    let out = serialize_srt(&file);
    let file2 = parse_srt(out.as_bytes()).unwrap();
    assert_eq!(file.entries.len(), file2.entries.len());
    for (a, b) in file.entries.iter().zip(file2.entries.iter()) {
        assert_eq!(a.start, b.start);
        assert_eq!(a.end, b.end);
        assert_eq!(a.text, b.text);
    }
}

#[test]
fn test_srt_to_vtt_converter() {
    let props = Properties::new().with("format", Value::text("srt"));
    let converter = SubtitleConverter::new(SubtitleFormat::Srt, SubtitleFormat::Vtt);
    let result = converter.convert(SRT_SAMPLE.as_bytes(), &props).unwrap();
    let (out, out_props) = match result {
        ConvertOutput::Single(b, p) => (b, p),
        _ => panic!("Expected single"),
    };
    assert_eq!(
        out_props.get("format").and_then(|v| v.as_str()),
        Some("vtt")
    );
    let out_str = std::str::from_utf8(&out).unwrap();
    assert!(out_str.starts_with("WEBVTT"));
    assert!(out_str.contains("00:00:01.000 --> 00:00:04.000"));
    assert!(out_str.contains("Hello, world!"));
}

fn cue(index: Option<u64>, start: u64, end: u64, text: &str) -> Subtitle {
    Subtitle { index, start, end, text: text.to_string() }
}

#[test]
fn timestamps_are_formatted_per_format() {
    let file = SubtitleFile { entries: vec![cue(None, 3_723_004, 36_000_000, "a\nb")] };
    assert_eq!(serialize_srt(&file), "1\n01:02:03,004 --> 10:00:00,000\na\nb\n\n");
    assert_eq!(serialize_vtt(&file), "WEBVTT\n\n01:02:03.004 --> 10:00:00.000\na\nb\n\n");
    assert_eq!(serialize_sbv(&file), "1:02:03.004,10:00:00.000\na\nb\n\n");
    let long = SubtitleFile { entries: vec![cue(Some(7), 360_000_000, 360_000_001, "x")] };
    assert_eq!(serialize_srt(&long), "7\n100:00:00,000 --> 100:00:00,001\nx\n\n");
}

#[test]
fn srt_edge_cases() {
    // byte order mark, missing index, trailing position settings
    let text = "\u{feff}00:00:01,500 --> 00:00:02,000 X1:10\nno index\n\n";
    let file = parse_srt(text.as_bytes()).unwrap();
    assert_eq!(file.entries.len(), 1);
    assert_eq!(file.entries[0].index, None);
    assert_eq!(file.entries[0].start, 1500);
    assert_eq!(file.entries[0].end, 2000);
    assert_eq!(file.entries[0].text, "no index");
    // an empty cue whose start equals its end is dropped; junk blocks are skipped
    let text = "1\n00:00:01,000 --> 00:00:01,000\n\njunk\n\n2\n00:00:02,000 --> 00:00:03,000\nkept\n";
    let file = parse_srt(text.as_bytes()).unwrap();
    assert_eq!(file.entries.len(), 1);
    assert_eq!(file.entries[0].index, Some(2));
    assert_eq!(file.entries[0].text, "kept");
    // an empty file has no cues
    assert_eq!(parse_srt(b"").unwrap().entries.len(), 0);
    // invalid UTF-8 is rejected
    assert!(parse_srt(&[0xff, 0xfe, 0x00]).is_err());
}

#[test]
fn vtt_edge_cases() {
    assert!(parse_vtt(b"not a vtt file").is_err());
    assert_eq!(parse_vtt(b"WEBVTT").unwrap().entries.len(), 0);
    let text = "  WEBVTT - title\n\nintro\n01:02.500 --> 01:03.000 align:start\nshort form\n\n";
    let file = parse_vtt(text.as_bytes()).unwrap();
    assert_eq!(file.entries.len(), 1);
    assert_eq!(file.entries[0].start, 62_500);
    assert_eq!(file.entries[0].end, 63_000);
    assert_eq!(file.entries[0].text, "short form");
}

#[test]
fn timestamps_that_overflow_are_skipped() {
    let text = "1\n99999999999999999:00:00,000 --> 00:00:02,000\nbig\n\n";
    assert_eq!(parse_srt(text.as_bytes()).unwrap().entries.len(), 0);
}

#[test]
fn round_trips_between_formats() {
    let file = parse_srt(SRT_SAMPLE.as_bytes()).unwrap();
    for f in [SubtitleFormat::Srt, SubtitleFormat::Vtt, SubtitleFormat::Sbv] {
        let text = f.serialize(&file);
        let back = f.parse(text.as_bytes()).unwrap();
        assert_eq!(back.entries.len(), 2);
        for (a, b) in file.entries.iter().zip(back.entries.iter()) {
            assert_eq!((a.start, a.end, &a.text), (b.start, b.end, &b.text));
        }
    }
}

#[test]
fn subtitle_registration() {
    let mut registry = Registry::new();
    register_all(&mut registry).unwrap();
    assert_eq!(registry.len(), 6);
    assert!(registry.get("subtitle.sbv-to-vtt").is_some());
    assert!(register_all(&mut registry).is_err());
}

#[test]
fn planned_conversion_with_builtins() {
    let mut registry: Registry<Builtin<SubtitleConverter>> = Registry::new();
    register_builtins(&mut registry).unwrap();
    assert_eq!(registry.len(), 17);
    assert!(register_builtins(&mut registry).is_err());
    let source = Properties::new().with("format", Value::text("srt"));
    let target = PropertyPattern::new().eq("format", Value::text("sbv"));
    let plan = Planner::new().plan(&registry, &source, &target).unwrap();
    assert_eq!(plan.steps.len(), 1);
    assert_eq!(plan.steps[0].converter_id, "subtitle.srt-to-sbv");
    let ctx = ExecutionContext::new(Arc::new(registry));
    let out = SimpleExecutor::new()
        .execute(&ctx, &plan, SRT_SAMPLE.as_bytes().to_vec(), source)
        .unwrap();
    assert!(target.matches(&out.props));
    assert_eq!(String::from_utf8(out.data).unwrap(), SBV_SAMPLE);
}
