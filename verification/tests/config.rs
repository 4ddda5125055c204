use nargun::config::Config;

#[test]
fn config_keeps_the_file() {
    let c = Config::new("ubuntu.torrent".to_string());
    assert_eq!(c.file, "ubuntu.torrent");
}
