use multi_wechat_rs::macos::cli::{Cli, Commands};
use multi_wechat_rs::macos::config::{Entry, PatchConfig, Target};
use multi_wechat_rs::macos::patcher::{
    codesign_commands, command_result, list_versions, select_entries, version_from_output,
    WeChatApp,
};
use multi_wechat_rs::macos::Error;

fn entry(arch: &str, addr: &str, asm_hex: &str) -> Entry {
    Entry { arch: arch.to_string(), addr: addr.to_string(), asm_hex: asm_hex.to_string() }
}

fn configs() -> Vec<PatchConfig> {
    vec![
        PatchConfig {
            version: "31927".to_string(),
            targets: vec![Target {
                identifier: "revoke".to_string(),
                entries: vec![entry("arm64", "103dba3d0", "00008052C0035FD6")],
            }],
        },
        PatchConfig {
            version: "34371".to_string(),
            targets: vec![
                Target {
                    identifier: "multiInstance".to_string(),
                    entries: vec![entry("arm64", "1001b82c4", "20008052C0035FD6")],
                },
                Target {
                    identifier: "revoke".to_string(),
                    entries: vec![
                        entry("arm64", "103e7cd2c", "00008052C0035FD6"),
                        entry("x86_64", "103e7cd2c", "31C0C3"),
                    ],
                },
            ],
        },
    ]
}

#[test]
fn app_paths_are_joined_under_the_bundle() {
    let app = WeChatApp::new("/Applications/WeChat.app");
    assert_eq!(app.app_path, "/Applications/WeChat.app");
    assert_eq!(app.binary_path, "/Applications/WeChat.app/Contents/MacOS/WeChat");
    assert_eq!(app.plist_path, "/Applications/WeChat.app/Contents/Info.plist");
    let app = WeChatApp::new("/tmp/W.app/");
    assert_eq!(app.binary_path, "/tmp/W.app/Contents/MacOS/WeChat");
    let app = WeChatApp::new("");
    assert_eq!(app.plist_path, "Contents/Info.plist");
}

#[test]
fn validate_reports_the_first_missing_part() {
    let app = WeChatApp::new("/A.app");
    assert!(app.validate(true, true, true).is_ok());
    match app.validate(false, false, false) {
        Err(Error::AppNotFound(m)) => assert_eq!(m, "/A.app"),
        _ => panic!(),
    }
    match app.validate(true, false, false) {
        Err(Error::AppNotFound(m)) => assert_eq!(m, "binary not found: /A.app/Contents/MacOS/WeChat"),
        _ => panic!(),
    }
    match app.validate(true, true, false) {
        Err(Error::AppNotFound(m)) => assert_eq!(m, "Info.plist not found: /A.app/Contents/Info.plist"),
        _ => panic!(),
    }
}

#[test]
fn version_is_the_trimmed_output() {
    assert_eq!(version_from_output(true, b"31927\n", b"").unwrap(), "31927");
    assert_eq!(version_from_output(true, b" \t34371 \r\n", b"").unwrap(), "34371");
    assert_eq!(version_from_output(true, b"\n", b"").unwrap(), "");
    match version_from_output(false, b"", b"does not exist") {
        Err(Error::Io(m)) => assert_eq!(m, "defaults read failed: does not exist"),
        _ => panic!(),
    }
}

#[test]
fn select_entries_collects_all_targets() {
    let cs = configs();
    let (matched, entries) = select_entries(&cs, "34371").unwrap();
    assert_eq!(matched.version, "34371");
    assert_eq!(entries.len(), 3);
    assert_eq!(entries[0].addr, "1001b82c4");
    assert_eq!(entries[1].addr, "103e7cd2c");
    assert_eq!(entries[2].arch, "x86_64");
}

#[test]
fn unsupported_version_lists_supported_ones() {
    let cs = configs();
    match select_entries(&cs, "30000") {
        Err(Error::UnsupportedVersion(m)) => assert_eq!(m, "30000 (supported: 31927, 34371)"),
        _ => panic!(),
    }
    match select_entries(&[], "30000") {
        Err(Error::UnsupportedVersion(m)) => assert_eq!(m, "30000 (supported: )"),
        _ => panic!(),
    }
}

#[test]
fn list_versions_lists_config_versions() {
    let (current, supported) = list_versions(Some("31927".to_string()), &configs());
    assert_eq!(current.as_deref(), Some("31927"));
    assert_eq!(supported, vec!["31927".to_string(), "34371".to_string()]);
    let (current, supported) = list_versions(None, &[]);
    assert!(current.is_none());
    assert!(supported.is_empty());
}

#[test]
fn codesign_commands_resign_the_bundle() {
    let app = WeChatApp::new("/Applications/WeChat.app");
    let cmds = codesign_commands(&app);
    assert_eq!(cmds.len(), 3);
    assert_eq!(cmds[0].program, "codesign");
    assert_eq!(cmds[0].args, vec!["--remove-sign", "/Applications/WeChat.app"]);
    assert_eq!(cmds[1].program, "codesign");
    assert_eq!(cmds[1].args, vec!["--force", "--deep", "--sign", "-", "/Applications/WeChat.app"]);
    assert_eq!(cmds[2].program, "xattr");
    assert_eq!(cmds[2].args, vec!["-cr", "/Applications/WeChat.app"]);
}

#[test]
fn command_result_reports_failures() {
    assert!(command_result("xattr", true, b"ignored").is_ok());
    match command_result("codesign", false, b"no identity") {
        Err(Error::Codesign(m)) => assert_eq!(m, "codesign failed: no identity"),
        _ => panic!(),
    }
    match command_result("codesign", false, b"bad \xff byte") {
        Err(Error::Codesign(m)) => assert_eq!(m, "codesign failed: bad \u{fffd} byte"),
        _ => panic!(),
    }
}

#[test]
fn default_command_is_patch() {
    let cli = Cli { command: None, app: "/Applications/WeChat.app".to_string(), config: None };
    assert_eq!(cli.command_to_run(), Commands::Patch);
    let cli = Cli { command: Some(Commands::Versions), app: String::new(), config: None };
    assert_eq!(cli.command_to_run(), Commands::Versions);
}
