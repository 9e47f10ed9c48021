//! A literate-script extractor: a source document holds a preface and scripts, each under a
//! tag line that says where to save the script and how to run it. The library splits the
//! document, resolves each script's output path and command, and builds the map from script
//! number to path that commands refer to through placeholders.
pub mod config;
pub mod engine;
pub mod help;
pub mod output;
pub mod settings;
pub mod text;

pub use config::{
    ArgHandler, Config, ConfigDefaults, ConfigError, ConfigMessages, ConfigReceiptVal, ConfigReceipts,
    ConfigSetting, ConfigSettingCall,
};
pub use engine::{
    context_get, inputs_parse, outputs_get, parse_number, push_text, source_parse, source_with_line,
    tag_head_add, Script, Source,
};
pub use help::{help_text, line_break_and_indent, line_center_with_fill};
pub use output::{Output, OutputFile, OutputFileInit, OutputFileInitCode, OutputFilePath, OutputText};
pub use settings::{init_template, messages_new, settings_new, setting_only_apply};
