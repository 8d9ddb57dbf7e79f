use dearlystars::bbq::{Bbq, Command, Type2Data, Type3Data, Type5Data, Type6Data, Type7Data};
use dearlystars::bbq_read::BbqError;
use dearlystars::script::{ScriptLine, LineWarning, InjectError, get_index, row_to_text, row_to_message, replace_strings, replace_script, string_csv_field};
use dearlystars::yaml::to_array_string;
use dearlystars::yaml_read::{YamlError, from_array_string};

fn chars(s: &str) -> Vec<char> {
    s.chars().collect()
}

fn sample() -> Bbq {
    Bbq {
        datetime: 5,
        type2data: Some(vec![Type2Data { data: [1, 2, 3, 4, 5, 6, 7] }]),
        type3data: Some(vec![Type3Data { data: [7, 6, 5, 4, 3, 2, 1], children: vec![[1, 2, 3, 4], [5, 6, 7, 8]] }]),
        type5data: Some(vec![
            Type5Data { small_data: Some(9), lines: vec![] },
            Type5Data { small_data: None, lines: vec![(1, 0, 300, 2, 3, 4)] },
        ]),
        type6data: Some(vec![Type6Data {
            commands: vec![Command { code1: 1, code2: 2, arg_count: 1, place: 3, args: vec![4] }],
        }]),
        type7data: Some(vec![
            Type7Data { text: String::new() },
            Type7Data { text: "abc".to_string() },
            Type7Data { text: "one\ntwo".to_string() },
            Type7Data { text: "end\n".to_string() },
        ]),
        footer: [0, 0, 0, 0, 0, 1],
    }
}

#[test]
fn yaml_lines_of_sample() {
    let lines = sample().yaml_lines();
    let want = vec![
        "datetime: 5",
        "type2data:",
        "- data: [1, 2, 3, 4, 5, 6, 7]",
        "type3data:",
        "- data: [7, 6, 5, 4, 3, 2, 1]",
        "  children:",
        "  - [1, 2, 3, 4]",
        "  - [5, 6, 7, 8]",
        "type5data:",
        "- 9",
        "- lines:",
        "  - [1, 0, 300, 2, 3, 4]",
        "type6data:",
        "- commands:",
        "  - {code1: 1, code2: 2, arg_count: 1, place: 3, args: [4]}",
        "type7data:",
        "- |",
        "- abc",
        "- |-",
        "  one",
        "  two",
        "- |+",
        "  end",
        "footer: [0, 0, 0, 0, 0, 1]",
    ];
    assert_eq!(lines, want);
}

#[test]
fn yaml_roundtrip_of_sample() {
    let b = sample();
    let lines = b.yaml_lines();
    let refs: Vec<&str> = lines.iter().map(|s| s.as_str()).collect();
    let back = Bbq::from_yaml_lines(&refs).unwrap();
    assert_eq!(back, b);
}

#[test]
fn yaml_zero_footer_is_omitted_and_read_back() {
    let mut b = sample();
    b.footer = [0; 6];
    b.type3data = None;
    let lines = b.yaml_lines();
    assert!(!lines.iter().any(|l| l.starts_with("footer")));
    assert!(!lines.iter().any(|l| l.starts_with("type3data")));
    let refs: Vec<&str> = lines.iter().map(|s| s.as_str()).collect();
    assert_eq!(Bbq::from_yaml_lines(&refs).unwrap(), b);
}

#[test]
fn yaml_errors() {
    assert_eq!(Bbq::from_yaml_lines(&[]), Err(YamlError::NoData));
    assert_eq!(Bbq::from_yaml_lines(&["time: 1"]), Err(YamlError::DatetimeLabel));
    assert_eq!(Bbq::from_yaml_lines(&["datetime: x"]), Err(YamlError::DatetimeValue));
    assert_eq!(Bbq::from_yaml_lines(&["datetime: 1", "  more"]), Err(YamlError::DatetimeLines));
    assert_eq!(Bbq::from_yaml_lines(&["datetime: 1", "bogus"]), Err(YamlError::UnknownChunk));
    assert_eq!(Bbq::from_yaml_lines(&["datetime: 1", "footer: [1, 2]"]), Err(YamlError::FooterLength));
    assert_eq!(Bbq::from_yaml_lines(&["datetime: 1", "type2data:", "- data: [1, 2]"]), Err(YamlError::Type2Length));
    assert_eq!(Bbq::from_yaml_lines(&["datetime: 1", "type2data:", "- info: [1]"]), Err(YamlError::Type2Label));
    assert_eq!(Bbq::from_yaml_lines(&["datetime: 1", "type7data:", "- |x", "  a"]), Err(YamlError::Type7Block));
    assert_eq!(Bbq::from_yaml_lines(&["datetime: 1", "type5data:", "- x"]), Err(YamlError::Type5SmallData));
    assert_eq!(Bbq::from_yaml_lines(&["datetime: 1", "type6data:", "- orders:"]), Err(YamlError::Type6Label));
}

#[test]
fn yaml_datetime_only() {
    let b = Bbq::from_yaml_lines(&["datetime: 42"]).unwrap();
    assert_eq!(b.datetime, 42);
    assert!(b.type2data.is_none() && b.type7data.is_none());
    assert_eq!(b.footer, [0; 6]);
}

#[test]
fn array_strings() {
    assert_eq!(to_array_string(&[1, 22, 333]), "[1, 22, 333]");
    assert_eq!(to_array_string(&[]), "[]");
    assert_eq!(from_array_string(&chars("[1, 22, 333]")), Ok(vec![1, 22, 333]));
    assert_eq!(from_array_string(&chars("[ 4 ,5 ]")), Ok(vec![4, 5]));
    assert_eq!(from_array_string(&chars("[]")), Ok(vec![]));
    assert_eq!(from_array_string(&chars("1, 2")), Err(YamlError::ArrayBrackets));
    assert_eq!(from_array_string(&chars("[1, x]")), Err(YamlError::ArrayInteger));
    assert_eq!(from_array_string(&chars("[4294967296]")), Err(YamlError::ArrayInteger));
}

#[test]
fn command_lines() {
    let c = Command { code1: 255, code2: 0, arg_count: 2, place: 70000, args: vec![1, 4294967295] };
    let line: String = c.yaml_line().into_iter().collect();
    assert_eq!(line, "{code1: 255, code2: 0, arg_count: 2, place: 70000, args: [1, 4294967295]}");
    assert_eq!(Command::from_yaml_line(&chars(&line)), Ok(c));
    assert_eq!(Command::from_yaml_line(&chars("code1: 1")), Err(YamlError::CommandBraces));
    assert_eq!(Command::from_yaml_line(&chars("{code1: 1}")), Err(YamlError::CommandFields));
    assert_eq!(Command::from_yaml_line(&chars("{code: 1, x}")), Err(YamlError::Code1Label));
    assert_eq!(
        Command::from_yaml_line(&chars("{code1: 256, code2: 0, arg_count: 0, place: 0, args: []}")),
        Err(YamlError::Code1Value)
    );
    assert_eq!(
        Command::from_yaml_line(&chars("{code1: 1, code2: 0, arg_count: 1, place: 0, args: []}")),
        Err(YamlError::ArgsLength)
    );
    assert_eq!(
        Command::from_yaml_line(&chars("{code1: 1, code2: 0, arg_count: 0, place: 0, arguments: []}")),
        Err(YamlError::ArgsLabel)
    );
}

#[test]
fn bytes_of_one_section() {
    let b = Bbq {
        datetime: 5,
        type2data: Some(vec![Type2Data { data: [1, 2, 3, 4, 5, 6, 7] }]),
        type3data: None,
        type5data: None,
        type6data: None,
        type7data: None,
        footer: [0; 6],
    };
    let d = b.bytes();
    assert_eq!(d.len(), 100);
    assert_eq!(&d[0..8], b".BBQ1.00");
    assert_eq!(&d[8..24], &[5, 0, 0, 0, 1, 0, 0, 0, 0x18, 0, 0, 0, 1, 0, 0, 0]);
    assert_eq!(&d[24..44], &[2, 0, 0, 0, 20, 0, 0, 0, 1, 0, 0, 0, 24, 0, 0, 0, 28, 0, 0, 0]);
    assert_eq!(&d[44..52], &[0, 0, 0, 0, 1, 0, 0, 0]);
    assert_eq!(Bbq::read_bbq(&d), Ok(b));
}

#[test]
fn bytes_roundtrip_of_sample() {
    let b = sample();
    let d = b.bytes();
    assert!(Bbq::is_readable(&d));
    assert_eq!(Bbq::read_bbq(&d), Ok(b));
}

#[test]
fn read_errors() {
    assert_eq!(Bbq::read_bbq(&[0; 10]), Err(BbqError::UnexpectedEof));
    let mut d = vec![0u8; 24];
    assert_eq!(Bbq::read_bbq(&d), Err(BbqError::BadHeader));
    d[0..8].copy_from_slice(b".BBQ1.00");
    d[12] = 1;
    d[16] = 24;
    assert_eq!(Bbq::read_bbq(&d), Err(BbqError::NoSections));
}

#[test]
fn script_line_csv() {
    let l = ScriptLine {
        speaker_id: 3,
        audio_flag: 1,
        audio_id: 512,
        speaker_text: "A\"B".to_string(),
        line_text: "hi".to_string(),
    };
    assert_eq!(l.to_csv_string(), "3,1,512,\"A\"\"B\",\"hi\"");
}

#[test]
fn strings_of_a_file() {
    let b = sample();
    assert_eq!(b.get_strings(), Some(vec!["abc", "one\ntwo", "end\n"]));
    let mut c = sample();
    c.type7data = None;
    assert_eq!(c.get_strings(), None);
}

#[test]
fn index_of_strings() {
    let mut list = vec!["a".to_string()];
    assert_eq!(get_index(&mut list, "a".to_string()), 0);
    assert_eq!(get_index(&mut list, "b".to_string()), 1);
    assert_eq!(list, vec!["a".to_string(), "b".to_string()]);
}

#[test]
fn csv_rows() {
    assert_eq!(row_to_text(vec![]), None);
    assert_eq!(
        row_to_text(vec!["F".to_string(), "old".to_string(), "new".to_string()]),
        Some(("F".to_string(), "new".to_string()))
    );
    assert_eq!(
        row_to_message(vec!["F".to_string(), "who".to_string(), "old".to_string(), "new".to_string()]),
        Some(("F".to_string(), ("who".to_string(), "new".to_string())))
    );
}

#[test]
fn replacing_strings() {
    let b = sample();
    let r = replace_strings(b, vec!["x".to_string(), "y".to_string(), "z".to_string()]).unwrap().unwrap();
    let texts: Vec<String> = r.type7data.unwrap().into_iter().map(|t| t.text).collect();
    assert_eq!(texts, vec!["".to_string(), "x".to_string(), "y".to_string(), "z".to_string()]);
    assert_eq!(replace_strings(sample(), vec!["x".to_string()]), Err(InjectError::IncorrectTextCount));
    let mut none = sample();
    none.type7data = None;
    assert_eq!(replace_strings(none, vec![]), Ok(None));
}

#[test]
fn script_injection_warnings() {
    let b = Bbq {
        datetime: 0,
        type2data: None,
        type3data: None,
        type5data: Some(vec![Type5Data { small_data: None, lines: vec![] }]),
        type6data: None,
        type7data: Some(vec![Type7Data { text: String::new() }]),
        footer: [0; 6],
    };
    let lines = vec![
        ScriptLine { speaker_id: 1, audio_flag: 0, audio_id: 0, speaker_text: "S".to_string(), line_text: "a\nb\nc".to_string() },
        ScriptLine { speaker_id: 1, audio_flag: 0, audio_id: 0, speaker_text: "S".to_string(), line_text: "x".repeat(41) },
    ];
    let (out, warnings) = b.inject_script_lines(lines);
    assert_eq!(warnings, vec![LineWarning::MoreThanTwoLines(0), LineWarning::OverCharacterLimit(1)]);
    let texts: Vec<String> = out.type7data.unwrap().into_iter().map(|t| t.text).collect();
    assert_eq!(texts[0], "");
    assert!(texts.contains(&"S".to_string()));
}

#[test]
fn script_lines_read_back() {
    let b = Bbq {
        datetime: 7,
        type2data: None,
        type3data: None,
        type5data: None,
        type6data: None,
        type7data: None,
        footer: [0; 6],
    };
    let lines = vec![
        ScriptLine { speaker_id: 3, audio_flag: 1, audio_id: 42, speaker_text: "Ai".to_string(), line_text: "Hello\nthere".to_string() },
        ScriptLine { speaker_id: 4, audio_flag: 0, audio_id: 0, speaker_text: "Ai".to_string(), line_text: "One line".to_string() },
    ];
    let (out, warnings) = b.inject_script_lines(lines);
    assert!(warnings.is_empty());
    assert!(out.script_refs_valid());
    let back = out.get_script_lines().unwrap();
    assert_eq!(back.len(), 2);
    assert_eq!((back[0].speaker_id, back[0].audio_flag, back[0].audio_id), (3, 1, 42));
    assert_eq!(back[0].speaker_text, "Ai");
    assert_eq!(back[0].line_text, "Hello\nthere");
    assert_eq!((back[1].speaker_id, back[1].audio_flag, back[1].audio_id), (4, 0, 0));
    assert_eq!(back[1].line_text, "One line\n");
}

#[test]
fn replaced_strings_read_back() {
    let r = replace_strings(sample(), vec!["x".to_string(), "y".to_string(), "z".to_string()]).unwrap().unwrap();
    assert_eq!(r.get_strings(), Some(vec!["x", "y", "z"]));
}

#[test]
fn mismatched_command_line_is_refused() {
    let c = Command { code1: 3, code2: 4, arg_count: 3, place: 9, args: vec![1, 2] };
    let line: String = c.yaml_line().into_iter().collect();
    assert_eq!(Command::from_yaml_line(&chars(&line)), Err(YamlError::ArgsLength));
}

#[test]
fn byte_size_of_sample_fits() {
    let b = sample();
    assert!(b.bytes_fit());
    assert!(!b.bytes().is_empty());
}

#[test]
fn quoted_string_field() {
    assert_eq!(string_csv_field("a\"b"), "\"a\"\"b\"");
    assert_eq!(string_csv_field(""), "\"\"");
}

#[test]
fn script_replacement_errors() {
    let no_script = Bbq {
        datetime: 0,
        type2data: None,
        type3data: None,
        type5data: None,
        type6data: None,
        type7data: None,
        footer: [0; 6],
    };
    let rows = vec![("a".to_string(), "b".to_string())];
    assert_eq!(replace_script(no_script, rows).err(), Some(InjectError::NoScriptLines));
    let empty_script = Bbq {
        datetime: 0,
        type2data: None,
        type3data: None,
        type5data: Some(vec![Type5Data { small_data: None, lines: vec![] }]),
        type6data: None,
        type7data: Some(vec![Type7Data { text: String::new() }]),
        footer: [0; 6],
    };
    let rows = vec![("a".to_string(), "b".to_string())];
    assert_eq!(replace_script(empty_script, rows).err(), Some(InjectError::IncorrectLineCount));
}

#[test]
fn csv_row_is_comma_separated() {
    let l = ScriptLine { speaker_id: 1, audio_flag: 0, audio_id: 2, speaker_text: "A".to_string(), line_text: "say \"hi\"".to_string() };
    assert_eq!(l.to_csv_string(), "1,0,2,\"A\",\"say \"\"hi\"\"\"");
}

#[test]
fn file_without_sections() {
    let mut d = vec![0x2E, 0x42, 0x42, 0x51, 0x31, 0x2E, 0x30, 0x30];
    d.extend(0u32.to_le_bytes());
    d.extend(1u32.to_le_bytes());
    d.extend(0x1000u32.to_le_bytes());
    d.extend(0u32.to_le_bytes());
    assert_eq!(Bbq::read_bbq(&d), Err(BbqError::NoSections));
}
