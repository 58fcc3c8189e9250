use dog_bot_template::Args;

#[test]
fn default_paths() {
    let a = Args::default();
    assert_eq!(a.config, "config.json");
    assert_eq!(a.db, "sqlite.db");
}
