//! Configuration of transaction execution.

use vstd::prelude::*;

verus! {

broadcast use vstd::string::to_string_from_display_ensures_for_str;

/// Where the execution configuration is read from unless told otherwise.
pub const DEFAULT_CONFIG_FILE: &'static str = "config/execution_config/default_config.json";

/// Configuration of transaction execution: the file that holds it.
pub struct ExecutionConfig {
    pub config_file_name: String,
}

impl Default for ExecutionConfig {
    fn default() -> (r: ExecutionConfig)
        ensures
            r.config_file_name@ == DEFAULT_CONFIG_FILE@,
    {
        ExecutionConfig { config_file_name: DEFAULT_CONFIG_FILE.to_string() }
    }
}

} // verus!
