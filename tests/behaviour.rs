use std::collections::HashMap;

use aliesce::{
    context_get, inputs_parse, line_break_and_indent, line_center_with_fill, messages_new, outputs_get,
    parse_number, push_text, setting_only_apply, settings_new, source_parse, source_with_line, tag_head_add,
    ArgHandler, Config, ConfigDefaults, ConfigError, ConfigReceiptVal, ConfigReceipts, ConfigSettingCall,
    Output, OutputFileInit, OutputFileInitCode, OutputFilePath, OutputText, Script,
};
use aliesce::text::{chars_of, words_of};

fn config_default() -> Config {
    let defaults = ConfigDefaults::new();
    let settings = settings_new(&defaults);
    let messages = messages_new(&defaults);
    Config { defaults, settings, messages, receipts: ConfigReceipts::new() }
}

fn strings(items: &[&str]) -> Vec<String> {
    items.iter().map(|s| s.to_string()).collect()
}

fn parse(line: &str, n: usize, config: &Config) -> Output {
    inputs_parse(&Script { n, line: line.to_string(), body: String::from("body") }, config)
}

#[test]
fn path_render_joins_parts() {
    let p = OutputFilePath { dir: String::from("a/b"), stem: String::from("c.d"), ext: String::from("e") };
    assert_eq!(p.get(), "a/b/c.d.e");
}

#[test]
fn bare_extension_takes_source_stem() {
    let mut config = config_default();
    config.receipts.insert(String::from("path_src"), ConfigReceiptVal::Strs(strings(&["notes.md"])));
    match parse(" sh sh", 1, &config) {
        Output::File(f) => {
            assert_eq!(f.path, OutputFilePath {
                dir: String::from("scripts"),
                stem: String::from("notes"),
                ext: String::from("sh"),
            });
        },
        other => panic!("unexpected {:?}", other),
    }
}

#[test]
fn dir_placeholder_takes_overridden_dir() {
    let mut config = config_default();
    config.receipts.insert(String::from("dest"), ConfigReceiptVal::Strs(strings(&["out"])));
    match parse(" >/sub/run.sh sh", 1, &config) {
        Output::File(f) => assert_eq!(f.path.get(), "out/sub/run.sh"),
        other => panic!("unexpected {:?}", other),
    }
}

#[test]
fn tokens_ignore_surrounding_whitespace() {
    let expected = strings(&["ext", "program", "--flag", "value"]);
    assert_eq!(words_of(&chars_of(" ext program --flag value\n")), expected);
    assert_eq!(words_of(&chars_of("\t ext  program --flag   value \r\n ")), expected);
    assert_eq!(words_of(&chars_of("   ")), Vec::<String>::new());
}

#[test]
fn path_only_never_scans_placeholders() {
    let config = config_default();
    match parse(" >< ", 3, &config) {
        Output::File(f) => {
            assert_eq!(f.data, strings(&["><"]));
            assert_eq!(f.init, OutputFileInit::Text(OutputText::Stderr(String::from("Not running file no. 3 (no values)"))));
        },
        other => panic!("unexpected {:?}", other),
    }
}

#[test]
fn stop_signal_before_command_wins_over_placeholders() {
    let config = config_default();
    match parse(" ext ! cat >< >2<", 12, &config) {
        Output::File(f) => {
            assert_eq!(f.init, OutputFileInit::Text(OutputText::Stderr(String::from("Not running file no. 12 (! applied)"))));
            assert_eq!(f.path.get(), "scripts/src.ext");
        },
        other => panic!("unexpected {:?}", other),
    }
}

#[test]
fn numbered_placeholder_names_other_script() {
    let config = config_default();
    match parse(" ext diff >2< x>< | cat", 1, &config) {
        Output::File(f) => {
            let expected = OutputFileInitCode {
                prog: String::from("bash"),
                args: strings(&["-c", "diff >2< x>< | cat"]),
                plcs: vec![(2, String::from(">2<")), (0, String::from("><"))],
            };
            assert_eq!(f.init, OutputFileInit::Code(expected));
        },
        other => panic!("unexpected {:?}", other),
    }
}

#[test]
fn non_numeric_slot_is_no_placeholder() {
    let config = config_default();
    match parse(" ext cmd >a< z", 1, &config) {
        Output::File(f) => {
            let expected = OutputFileInitCode {
                prog: String::from("cmd"),
                args: strings(&[">a<", "z", "scripts/src.ext"]),
                plcs: vec![],
            };
            assert_eq!(f.init, OutputFileInit::Code(expected));
        },
        other => panic!("unexpected {:?}", other),
    }
}

#[test]
fn list_mode_prints_label_and_data_even_when_malformed() {
    let mut config = config_default();
    config.receipts.insert(String::from("list"), ConfigReceiptVal::Bool);
    assert_eq!(parse(" label # >/ \n", 7, &config), Output::Text(OutputText::Stdout(String::from("7: label : >/"))));
    assert_eq!(parse("", 2, &config), Output::Text(OutputText::Stdout(String::from("2: "))));
}

#[test]
fn document_scenario_one_fragment() {
    let config = config_default();
    let source = source_parse("pre\n### ext bash -c 'echo hi'\nbody\n", &config);
    assert_eq!(source.preface, "pre\n");
    assert_eq!(source.scripts.len(), 1);
    assert_eq!(source.scripts[0].n, 1);
    assert_eq!(source.scripts[0].body, "body");
    let outputs = outputs_get(source, &config);
    assert_eq!(outputs.len(), 1);
    match &outputs[0] {
        Output::File(f) => {
            assert_eq!(f.path, OutputFilePath {
                dir: String::from("scripts"),
                stem: String::from("src"),
                ext: String::from("ext"),
            });
            assert_eq!(f.code, "body");
            match &f.init {
                OutputFileInit::Code(c) => {
                    assert_eq!(c.prog, "bash");
                    assert_eq!(c.args, strings(&["-c", "'echo", "hi'", "scripts/src.ext"]));
                    assert!(c.plcs.is_empty());
                },
                other => panic!("unexpected {:?}", other),
            }
        },
        other => panic!("unexpected {:?}", other),
    }
}

#[test]
fn source_split_numbers_scripts_and_drops_shebang() {
    let config = config_default();
    let source = source_parse("#!/usr/bin/env aliesce\nintro\n### a.sh sh\necho 1\r\n###  b.sh sh\n", &config);
    assert_eq!(source.preface, "intro\n");
    assert_eq!(source.scripts.len(), 2);
    assert_eq!(source.scripts[0], Script { n: 1, line: String::from(" a.sh sh"), body: String::from("echo 1") });
    assert_eq!(source.scripts[1], Script { n: 2, line: String::from("  b.sh sh"), body: String::new() });
}

#[test]
fn source_split_keeps_note_lines_in_preface() {
    let config = config_default();
    let line_note = messages_new(&config.defaults).repository[1].1.clone();
    let text = format!("{line_note}\n### x.sh sh\n");
    let source = source_parse(&text, &config);
    assert_eq!(source.preface, format!("{line_note}\n"));
    assert_eq!(source.scripts.len(), 1);
}

#[test]
fn subset_filter_keeps_listed_scripts() {
    let mut config = config_default();
    config.receipts.insert(String::from("only"), ConfigReceiptVal::Ints(vec![2]));
    let source = source_parse("p\n### a sh\n### b sh\n### c sh\n", &config);
    let outputs = outputs_get(source, &config);
    assert_eq!(outputs.len(), 1);
    match &outputs[0] {
        Output::File(f) => assert_eq!(f.n, 2),
        other => panic!("unexpected {:?}", other),
    }
}

#[test]
fn context_maps_each_saved_script() {
    let config = config_default();
    let source = source_parse("p\n### a.sh sh\n### ! skipped\n### c.py cat >1< ><\n", &config);
    let outputs = outputs_get(source, &config);
    let context = context_get(&outputs);
    let mut expected = HashMap::new();
    expected.insert(1, String::from("scripts/a.sh"));
    expected.insert(3, String::from("scripts/c.py"));
    assert_eq!(context, expected);
    match &outputs[2] {
        Output::File(f) => match &f.init {
            OutputFileInit::Code(c) => {
                let args = c.args_resolved(f.n, &context).unwrap();
                assert_eq!(args, strings(&["-c", "cat scripts/a.sh scripts/c.py"]));
            },
            other => panic!("unexpected {:?}", other),
        },
        other => panic!("unexpected {:?}", other),
    }
}

#[test]
fn missing_context_entry_is_reported() {
    let code = OutputFileInitCode {
        prog: String::from("bash"),
        args: strings(&["-c", "cat >4<"]),
        plcs: vec![(4, String::from(">4<"))],
    };
    let context: HashMap<usize, String> = HashMap::new();
    assert_eq!(code.args_resolved(1, &context), Err(4));
    let direct = OutputFileInitCode { prog: String::from("sh"), args: strings(&["x"]), plcs: vec![] };
    assert_eq!(direct.args_resolved(1, &context), Ok(strings(&["x"])));
}

#[test]
fn subset_parses_numbers_and_ranges() {
    assert_eq!(setting_only_apply(&strings(&[" 1,3-5 "])), Some(ConfigReceiptVal::Ints(vec![1, 3, 4, 5])));
    assert_eq!(setting_only_apply(&strings(&["5-3"])), Some(ConfigReceiptVal::Ints(vec![])));
    assert_eq!(setting_only_apply(&strings(&["1,x"])), None);
    assert_eq!(setting_only_apply(&strings(&[""])), None);
}

#[test]
fn receive_takes_flags_and_source_path() {
    let config = config_default();
    let config = Config::receive(config, ArgHandler::Cli, strings(&["-d", "out", "--list", "doc.txt"])).unwrap();
    assert_eq!(config.receipts.get("dest"), Some(&ConfigReceiptVal::Strs(strings(&["out"]))));
    assert_eq!(config.receipts.get("list"), Some(&ConfigReceiptVal::Bool));
    assert_eq!(config.receipts.get("path_src"), Some(&ConfigReceiptVal::Strs(strings(&["doc.txt"]))));
    assert_eq!(config.get("dest", "path_dir"), "out");
    assert_eq!(config.get("path_src", "path_src"), "doc.txt");
}

#[test]
fn receive_from_source_ignores_rest() {
    let config = config_default();
    let config = Config::receive(config, ArgHandler::Src, strings(&["-o", "2-3", "other"])).unwrap();
    assert_eq!(config.receipts.get("only"), Some(&ConfigReceiptVal::Ints(vec![2, 3])));
    assert!(!config.receipts.contains_key("path_src"));
    assert_eq!(config.get("path_src", "path_src"), "src.txt");
}

#[test]
fn receive_reports_each_error() {
    let r = Config::receive(config_default(), ArgHandler::Cli, strings(&["-o"]));
    assert_eq!(r.err(), Some(ConfigError::ValuesMissing(String::from("only"))));
    let r = Config::receive(config_default(), ArgHandler::Cli, strings(&["-d", "-l"]));
    assert_eq!(r.err(), Some(ConfigError::ArgsOverlap));
    let r = Config::receive(config_default(), ArgHandler::Cli, strings(&["-o", "a-b"]));
    assert_eq!(r.err(), Some(ConfigError::SubsetInvalid(String::from("a-b"))));
}

#[test]
fn settings_table_in_order() {
    let settings = settings_new(&ConfigDefaults::new());
    let words: Vec<&str> = settings.iter().map(|s| s.word.as_str()).collect();
    assert_eq!(words, vec!["list", "only", "dest", "init", "push", "edit", "version", "help"]);
    assert_eq!(settings[2].desc, "set the default output dirname ('scripts') to DIRNAME");
    assert_eq!(settings[4].strs, strings(&["LINE", "PATH"]));
    assert_eq!(settings[1].call, ConfigSettingCall::Only);
}

#[test]
fn notes_in_order() {
    let messages = messages_new(&ConfigDefaults::new());
    let notes = messages.compose_notes();
    assert_eq!(notes.len(), 5);
    assert_eq!(notes[1], "###[ label #] <OUTPUT EXTENSION / PATH: [[[.../]dirname/]stem.]ext> <COMMAND>");
    assert!(notes[2].contains("The '><' placeholder"));
    assert!(notes[2].contains("('>n<')"));
    assert!(notes[2].contains("'bash -c'"));
}

#[test]
fn tag_head_added_only_when_missing() {
    let config = config_default();
    assert_eq!(tag_head_add("  ext prog ", &config), "### ext prog");
    assert_eq!(tag_head_add("### ext prog", &config), "### ext prog");
    assert_eq!(push_text("! a.sh", "echo\n", &config), "\n### ! a.sh\n\necho\n");
}

#[test]
fn source_rewrite_sets_one_tag_line() {
    let config = config_default();
    let source = source_parse("pre\n### a.sh sh\nx\n### b.sh sh\ny\n", &config);
    let text = source_with_line(&source, 2, "c.sh bash", &config);
    assert_eq!(text, "pre\n### a.sh sh\nx\n### c.sh bash\ny\n");
    assert_eq!(parse_number("12"), Some(12));
    assert_eq!(parse_number("1x"), None);
    assert_eq!(parse_number(""), None);
}

#[test]
fn centered_title() {
    assert_eq!(line_center_with_fill("ab", 10, "-"), "--- ab ---");
    assert_eq!(line_center_with_fill("abc", 10, "-"), "-- abc ---");
}

#[test]
fn wrapped_paragraph() {
    assert_eq!(line_break_and_indent("aa bb cc", 2, 8, true), "  aa bb\n  cc");
    assert_eq!(line_break_and_indent("aa bb cc", 2, 8, false), "aa bb\n  cc");
}

#[test]
fn help_lays_out_usage_flags_and_notes() {
    let config = config_default();
    let text = aliesce::help_text(&config, "aliesce v1.0.0").unwrap();
    assert!(text.starts_with("-------------------------------- aliesce v1.0.0 --------------------------------\n\n"));
    assert!(text.contains("Usage: aliesce [--list/-l] [--only/-o SUBSET] [--dest/-d DIRNAME]"));
    assert!(text.contains("               / --version/-v / --help/-h\nFlags:\n"));
    assert!(text.contains("\n -l, --list             print for each script in SOURCE (def. 'src.txt')"));
    assert!(text.contains("\n -o, --only  SUBSET     include only"));
    assert!(text.contains("\n\nNotes:\n The default source path is 'src.txt'."));
    assert_eq!(aliesce::help_text(&config, &"x".repeat(79)), None);
}

#[test]
fn init_template_lays_out_notes() {
    let messages = messages_new(&ConfigDefaults::new());
    let text = aliesce::init_template(&messages).unwrap();
    assert!(text.starts_with("<any arguments to aliesce (run 'aliesce --help' for options)>\n\nNotes on source file format:\n\nThe default source path is 'src.txt'."));
    assert!(text.ends_with("\n\nTag line and script section:\n\n###[ label #] <OUTPUT EXTENSION / PATH: [[[.../]dirname/]stem.]ext> <COMMAND>\n\n<script>\n"));
}

#[test]
fn script_lines_drop_carriage_return_only_before_line_feed() {
    let sc = Script::new(4, String::from(" a.sh sh\r\necho\r\nlast\r"));
    assert_eq!(sc, Script { n: 4, line: String::from(" a.sh sh"), body: String::from("echo\nlast\r") });
    let empty = Script::new(5, String::new());
    assert_eq!(empty, Script { n: 5, line: String::new(), body: String::new() });
}

#[test]
fn default_stem_drops_only_last_extension() {
    let mut config = config_default();
    config.receipts.insert(String::from("path_src"), ConfigReceiptVal::Strs(strings(&["my.notes.txt"])));
    match parse(" ext cat", 1, &config) {
        Output::File(f) => {
            assert_eq!(f.path, OutputFilePath {
                dir: String::from("scripts"),
                stem: String::from("my.notes"),
                ext: String::from("ext"),
            });
            assert_eq!(f.init, OutputFileInit::Code(OutputFileInitCode {
                prog: String::from("cat"),
                args: strings(&["scripts/my.notes.ext"]),
                plcs: vec![],
            }));
        },
        other => panic!("unexpected {:?}", other),
    }
    config.receipts.insert(String::from("path_src"), ConfigReceiptVal::Strs(strings(&["plain"])));
    match parse(" ext cat", 1, &config) {
        Output::File(f) => assert_eq!(f.path.stem, "plain"),
        other => panic!("unexpected {:?}", other),
    }
}

#[test]
fn every_placeholder_in_a_token_is_found() {
    let config = config_default();
    match parse(" ext cat x<y>2< >1<>2< >3", 1, &config) {
        Output::File(f) => {
            let expected = OutputFileInitCode {
                prog: String::from("bash"),
                args: strings(&["-c", "cat x<y>2< >1<>2< >3"]),
                plcs: vec![
                    (2, String::from(">2<")),
                    (1, String::from(">1<")),
                    (2, String::from(">2<")),
                ],
            };
            assert_eq!(f.init, OutputFileInit::Code(expected));
        },
        other => panic!("unexpected {:?}", other),
    }
}

#[test]
fn preface_keeps_placeholder_words() {
    let config = config_default();
    let source = source_parse("keep plc_doc_line_file here\nplc_doc_line_line\n### a sh\n", &config);
    assert_eq!(source.preface, "keep plc_doc_line_file here\nplc_doc_line_line\n");
}

#[test]
fn get_falls_back_to_default_then_empty() {
    let mut config = config_default();
    assert_eq!(config.get("dest", "path_dir"), "scripts");
    assert_eq!(config.get("dest", "no_such_key"), "");
    config.receipts.insert(String::from("dest"), ConfigReceiptVal::Strs(vec![]));
    assert_eq!(config.get("dest", "path_dir"), "scripts");
    config.receipts.insert(String::from("dest"), ConfigReceiptVal::Strs(strings(&["out"])));
    assert_eq!(config.get("dest", "no_such_key"), "out");
}

#[test]
fn padded_tag_line_gives_same_output() {
    let config = config_default();
    assert_eq!(parse(" \t ext program --flag value \n", 1, &config), parse("ext program --flag value", 1, &config));
}
