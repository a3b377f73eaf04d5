use deoxys_state::config::{ExecutionConfig, DEFAULT_CONFIG_FILE};

#[test]
fn execution_config_default_file() {
    let c = ExecutionConfig::default();
    assert_eq!(c.config_file_name, DEFAULT_CONFIG_FILE);
    assert_eq!(c.config_file_name, "config/execution_config/default_config.json");
}
