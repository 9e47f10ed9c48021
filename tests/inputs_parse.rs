use aliesce::{
    inputs_parse, messages_new, settings_new, Config, ConfigDefaults, ConfigReceiptVal, ConfigReceipts,
    Output, OutputFile, OutputFileInit, OutputFileInitCode, OutputFilePath, OutputText, Script,
};

fn test_values_inputs_parse_get() -> (Config, String, usize, String, OutputFilePath, OutputFileInit) {
    let defaults = ConfigDefaults::new();
    let settings = settings_new(&defaults);
    let messages = messages_new(&defaults);

    let config_default = Config {
        defaults,
        settings,
        messages,
        receipts: ConfigReceipts::new(),
    };

    let output_path = OutputFilePath {
        dir: config_default.defaults.path_dir.clone(),
        stem: String::from(config_default.defaults.path_src.split(".").nth(0).unwrap()),
        ext: String::from("ext"),
    };

    let body = String::from("//code");

    let number = 1;
    let prog = String::from("program");
    let args = Vec::from([String::from("--flag"), String::from("value"), output_path.get()]);
    let plcs = Vec::new();
    let code = String::from("//code");

    let output_init = OutputFileInit::Code(OutputFileInitCode { prog, args, plcs });

    (config_default, body, number, code, output_path, output_init)
}

#[test]
fn inputs_parse_returns_for_tag_data_full_some_output() {
    let (config_default, body, n, code, path, init) = test_values_inputs_parse_get();

    let line = String::from(" ext program --flag value\n");
    let data = Vec::from([
        String::from("ext"),
        String::from("program"),
        String::from("--flag"),
        String::from("value"),
    ]);

    let expected = Output::File(OutputFile { data, code, path, init, n });
    let obtained = inputs_parse(&Script { n, line, body }, &config_default);

    assert_eq!(expected, obtained);
}

#[test]
fn inputs_parse_returns_for_tag_label_and_data_full_some_output_file() {
    let (config_default, body, n, code, path, init) = test_values_inputs_parse_get();

    let line = String::from(" label # ext program --flag value\n");
    let data = Vec::from([
        String::from("ext"),
        String::from("program"),
        String::from("--flag"),
        String::from("value"),
    ]);

    let expected = Output::File(OutputFile { data, code, path, init, n });
    let obtained = inputs_parse(&Script { n, line, body }, &config_default);

    assert_eq!(expected, obtained);
}

#[test]
fn inputs_parse_returns_for_dest_option_some_output_file() {
    let (mut config_default, body, n, code, _, mut init) = test_values_inputs_parse_get();

    let line = String::from(" ext program --flag value\n");
    let data = Vec::from([
        String::from("ext"),
        String::from("program"),
        String::from("--flag"),
        String::from("value"),
    ]);

    let dir = String::from("dest");
    let stem = String::from(config_default.defaults.path_src.split(".").nth(0).unwrap());
    let ext = String::from("ext");
    let path = OutputFilePath { dir, stem, ext };

    match init {
        OutputFileInit::Code(ref mut c) => c.args[2] = path.get(),
        _ => (),
    };
    config_default
        .receipts
        .insert(String::from("dest"), ConfigReceiptVal::Strs(Vec::from([String::from("dest")])));

    let expected = Output::File(OutputFile { data, code, path, init, n });
    let obtained = inputs_parse(&Script { n, line, body }, &config_default);

    assert_eq!(expected, obtained);
}

#[test]
fn inputs_parse_returns_for_list_option_some_output_text() {
    let (mut config_default, body, n, _, _, _) = test_values_inputs_parse_get();

    let line = String::from(" ext program --flag value\n");

    config_default.receipts.insert(String::from("list"), ConfigReceiptVal::Bool);

    let expected = Output::Text(OutputText::Stdout(String::from("1: ext program --flag value")));
    let obtained = inputs_parse(&Script { n, line, body }, &config_default);

    assert_eq!(expected, obtained);
}

#[test]
fn inputs_parse_returns_for_tag_data_full_incl_singlepart_output_stem_some_output_file() {
    let (config_default, body, n, code, _, mut init) = test_values_inputs_parse_get();

    let line = String::from(" script.ext program --flag value\n");
    let data = Vec::from([
        String::from("script.ext"),
        String::from("program"),
        String::from("--flag"),
        String::from("value"),
    ]);

    let dir = config_default.defaults.path_dir.clone();
    let stem = String::from("script");
    let ext = String::from("ext");
    let path = OutputFilePath { dir, stem, ext };

    match init {
        OutputFileInit::Code(ref mut c) => c.args[2] = path.get(),
        _ => (),
    };

    let expected = Output::File(OutputFile { data, code, path, init, n });
    let obtained = inputs_parse(&Script { n, line, body }, &config_default);

    assert_eq!(expected, obtained);
}

#[test]
fn inputs_parse_returns_for_tag_data_full_incl_multipart_output_stem_some_output_file() {
    let (config_default, body, n, code, _, mut init) = test_values_inputs_parse_get();

    let line = String::from(" script.suffix1.suffix2.ext program --flag value\n");
    let data = Vec::from([
        String::from("script.suffix1.suffix2.ext"),
        String::from("program"),
        String::from("--flag"),
        String::from("value"),
    ]);

    let dir = config_default.defaults.path_dir.clone();
    let stem = String::from("script.suffix1.suffix2");
    let ext = String::from("ext");
    let path = OutputFilePath { dir, stem, ext };

    match init {
        OutputFileInit::Code(ref mut c) => c.args[2] = path.get(),
        _ => (),
    };

    let expected = Output::File(OutputFile { data, code, path, init, n });
    let obtained = inputs_parse(&Script { n, line, body }, &config_default);

    assert_eq!(expected, obtained);
}

#[test]
fn inputs_parse_returns_for_tag_data_full_incl_output_dir_some_output_file() {
    let (config_default, body, n, code, _, mut init) = test_values_inputs_parse_get();

    let line = String::from(" dir/script.ext program --flag value\n");
    let data = Vec::from([
        String::from("dir/script.ext"),
        String::from("program"),
        String::from("--flag"),
        String::from("value"),
    ]);

    let dir = String::from("dir");
    let stem = String::from("script");
    let ext = String::from("ext");
    let path = OutputFilePath { dir, stem, ext };

    match init {
        OutputFileInit::Code(ref mut c) => c.args[2] = path.get(),
        _ => (),
    };

    let expected = Output::File(OutputFile { data, code, path, init, n });
    let obtained = inputs_parse(&Script { n, line, body }, &config_default);

    assert_eq!(expected, obtained);
}

#[test]
fn inputs_parse_returns_for_tag_data_full_incl_output_path_dir_placeholder_some_output_file() {
    let (config_default, body, n, code, _, mut init) = test_values_inputs_parse_get();

    let line = String::from(" >/script.ext program --flag value\n");
    let data = Vec::from([
        String::from(">/script.ext"),
        String::from("program"),
        String::from("--flag"),
        String::from("value"),
    ]);

    let dir = String::from("scripts");
    let stem = String::from("script");
    let ext = String::from("ext");
    let path = OutputFilePath { dir, stem, ext };

    match init {
        OutputFileInit::Code(ref mut c) => c.args[2] = path.get(),
        _ => (),
    };

    let expected = Output::File(OutputFile { data, code, path, init, n });
    let obtained = inputs_parse(&Script { n, line, body }, &config_default);

    assert_eq!(expected, obtained);
}

#[test]
fn inputs_parse_returns_for_tag_data_full_incl_output_path_all_placeholder_some_output() {
    let (config_default, body, n, code, path, _) = test_values_inputs_parse_get();

    let line = String::from(" ext program_1 --flag value >< | program_2\n");
    let data = Vec::from([
        String::from("ext"),
        String::from("program_1"),
        String::from("--flag"),
        String::from("value"),
        String::from("><"),
        String::from("|"),
        String::from("program_2"),
    ]);

    let prog = config_default.defaults.cmd_prog.clone();
    let args = Vec::from([
        config_default.defaults.cmd_flag.clone(),
        String::from("program_1 --flag value >< | program_2"),
    ]);
    let plcs = Vec::from([(0, String::from("><"))]);
    let init = OutputFileInit::Code(OutputFileInitCode { prog, args, plcs });

    let expected = Output::File(OutputFile { data, code, path, init, n });
    let obtained = inputs_parse(&Script { n, line, body }, &config_default);

    assert_eq!(expected, obtained);
}

#[test]
fn inputs_parse_returns_for_tag_data_minus_cmd_some_output_file_indicating() {
    let (config_default, body, n, code, path, _) = test_values_inputs_parse_get();

    let line = String::from(" ext\n");
    let data = Vec::from([String::from("ext")]);

    let init = OutputFileInit::Text(OutputText::Stderr(String::from("Not running file no. 1 (no values)")));

    let expected = Output::File(OutputFile { data, code, path, init, n });
    let obtained = inputs_parse(&Script { n, line, body }, &config_default);

    assert_eq!(expected, obtained);
}

#[test]
fn inputs_parse_returns_for_tag_data_full_with_bypass_some_output_text() {
    let (config_default, body, n, _, _, _) = test_values_inputs_parse_get();

    let line = String::from(" ! ext program --flag value\n");

    let expected = Output::Text(OutputText::Stderr(String::from("Bypassing script no. 1 (! applied)")));
    let obtained = inputs_parse(&Script { n, line, body }, &config_default);

    assert_eq!(expected, obtained);
}

#[test]
fn inputs_parse_returns_for_tag_data_absent_some_output_text() {
    let (config_default, body, n, _, _, _) = test_values_inputs_parse_get();

    let line = String::from("\n");

    let expected = Output::Text(OutputText::Stderr(String::from("No tag data found for script no. 1")));
    let obtained = inputs_parse(&Script { n, line, body }, &config_default);

    assert_eq!(expected, obtained);
}
