use sendmail_into_mbox::config::{is_world_writable, is_world_writable_ancestors, Config};
use sendmail_into_mbox::error::Error;

#[test]
fn test_config_new_from_toml_file() {
    assert_eq!(
        Config::new_from_toml_file(
            "spool_file = \"/var/spool/mail/alice\"\n\
             sender = \"MAILER-DAEMON@localhost\"\n"
        )
        .unwrap(),
        Config {
            spool_file: "/var/spool/mail/alice".to_string(),
            sender: "MAILER-DAEMON@localhost".to_string()
        }
    );

    assert!(matches!(
        Config::new_from_toml_file("\n"),
        Err(Error::ConfigToml)
    ));

    assert!(matches!(
        Config::new_from_toml_file("spool_file = 3\nsender = \"x\"\n"),
        Err(Error::ConfigToml)
    ));

    assert!(matches!(
        Config::new_from_toml_file("not toml at all ["),
        Err(Error::ConfigToml)
    ));
}

#[test]
fn default_file_load_rejects_world_writable_lineage() {
    let text = "spool_file = \"-\"\nsender = \"a@b\"\n";
    assert!(matches!(
        Config::new_from_default_toml_file(true, text),
        Err(Error::ConfigFileWorldWritable)
    ));
    let config = Config::new_from_default_toml_file(false, text).unwrap();
    assert_eq!(config.spool_file, "-");
    assert_eq!(config.sender, "a@b");
}

#[test]
fn world_writable_mode_bits() {
    assert!(!is_world_writable(0o100644));
    assert!(is_world_writable(0o100666));
    assert!(is_world_writable(0o100622));
    assert!(!is_world_writable(0o100600));
    assert!(!is_world_writable_ancestors(&vec![0o40755, 0o100644]));
    assert!(is_world_writable_ancestors(&vec![0o40755, 0o100666]));
    assert!(!is_world_writable_ancestors(&Vec::new()));
}
