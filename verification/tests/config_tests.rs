use multi_wechat_rs::macos::config::{
    find_for_version, hex_to_bytes, Entry, PatchConfig, Target, DEFAULT_CONFIG_JSON,
};

fn parse_configs(json: &str) -> Vec<PatchConfig> {
    let value: serde_json::Value = serde_json::from_str(json).unwrap();
    let mut configs = Vec::new();
    for c in value.as_array().unwrap() {
        let mut targets = Vec::new();
        for t in c["targets"].as_array().unwrap() {
            let mut entries = Vec::new();
            for e in t["entries"].as_array().unwrap() {
                entries.push(Entry {
                    arch: e["arch"].as_str().unwrap().to_string(),
                    addr: e["addr"].as_str().unwrap().to_string(),
                    asm_hex: e["asm"].as_str().unwrap().to_string(),
                });
            }
            targets.push(Target {
                identifier: t["identifier"].as_str().unwrap().to_string(),
                entries,
            });
        }
        configs.push(PatchConfig { version: c["version"].as_str().unwrap().to_string(), targets });
    }
    configs
}

fn entry(arch: &str, addr: &str, asm_hex: &str) -> Entry {
    Entry { arch: arch.to_string(), addr: addr.to_string(), asm_hex: asm_hex.to_string() }
}

#[test]
fn test_load_embedded() {
    let configs = parse_configs(DEFAULT_CONFIG_JSON);
    assert!(!configs.is_empty());
    // Should have the known version 31927
    assert!(configs.iter().any(|c| c.version == "31927"));
}

#[test]
fn test_hex_to_bytes() {
    assert_eq!(
        hex_to_bytes("00008052C0035FD6"),
        Some(vec![0x00, 0x00, 0x80, 0x52, 0xC0, 0x03, 0x5F, 0xD6])
    );
    assert_eq!(hex_to_bytes(""), Some(vec![]));
    assert_eq!(hex_to_bytes("0"), None); // odd length
}

#[test]
fn test_entry_parsing() {
    let configs = parse_configs(DEFAULT_CONFIG_JSON);
    let config = configs.iter().find(|c| c.version == "31927").unwrap();
    let revoke = config.targets.iter().find(|t| t.identifier == "revoke").unwrap();
    let entry = &revoke.entries[0];
    assert_eq!(entry.arch, "arm64");
    assert_eq!(entry.addr_u64().unwrap(), 0x103dba3d0);
    assert_eq!(entry.asm_bytes().unwrap(), vec![0x00, 0x00, 0x80, 0x52, 0xC0, 0x03, 0x5F, 0xD6]);
}

#[test]
fn hex_to_bytes_mixed_case_and_sign() {
    assert_eq!(hex_to_bytes("aBcD"), Some(vec![0xAB, 0xCD]));
    // a chunk parsed as a radix-16 u8 may carry a plus sign
    assert_eq!(hex_to_bytes("+f10"), Some(vec![0x0F, 0x10]));
    assert_eq!(hex_to_bytes("-f"), None);
    assert_eq!(hex_to_bytes("0g"), None);
    assert_eq!(hex_to_bytes("00 1"), None);
    // a two-byte character that fills a whole chunk is not a hex byte
    assert_eq!(hex_to_bytes("\u{e9}"), None);
}

#[test]
fn addr_u64_parses_radix_16() {
    assert_eq!(entry("arm64", "ff", "").addr_u64().unwrap(), 255);
    assert_eq!(entry("arm64", "+10", "").addr_u64().unwrap(), 16);
    assert_eq!(entry("arm64", "FFFFFFFFFFFFFFFF", "").addr_u64().unwrap(), u64::MAX);
    assert!(entry("arm64", "10000000000000000", "").addr_u64().is_err());
    assert!(entry("arm64", "", "").addr_u64().is_err());
    assert!(entry("arm64", "0x10", "").addr_u64().is_err());
    assert!(entry("arm64", "-1", "").addr_u64().is_err());
}

#[test]
fn asm_bytes_decodes_machine_code() {
    assert_eq!(entry("arm64", "0", "20008052C0035FD6").asm_bytes(), Some(vec![0x20, 0x00, 0x80, 0x52, 0xC0, 0x03, 0x5F, 0xD6]));
    assert_eq!(entry("arm64", "0", "2000805").asm_bytes(), None);
}

#[test]
fn find_for_version_picks_first_match() {
    let mut configs = parse_configs(DEFAULT_CONFIG_JSON);
    configs.push(PatchConfig { version: "31927".to_string(), targets: vec![] });
    let found = find_for_version(&configs, "31927").unwrap();
    assert_eq!(found.version, "31927");
    assert_eq!(found.targets.len(), 1);
    assert_eq!(found.targets[0].entries[0].addr, "103dba3d0");
    assert!(find_for_version(&configs, "99999").is_none());
    assert!(find_for_version(&[], "31927").is_none());
}

#[test]
fn duplicate_copies_every_field() {
    let configs = parse_configs(DEFAULT_CONFIG_JSON);
    let copy = configs[1].duplicate();
    assert_eq!(copy.version, "34371");
    assert_eq!(copy.targets.len(), 2);
    assert_eq!(copy.targets[0].identifier, "multiInstance");
    assert_eq!(copy.targets[0].entries[0].asm_hex, "20008052C0035FD6");
    assert_eq!(copy.targets[1].entries[0].addr, "103e7cd2c");
}

#[test]
fn hex_text_of_bytes_decodes_back() {
    let v: Vec<u8> = (0u8..=255).collect();
    let upper: String = v.iter().map(|b| format!("{:02X}", b)).collect();
    let lower: String = v.iter().map(|b| format!("{:02x}", b)).collect();
    assert_eq!(hex_to_bytes(&upper), Some(v.clone()));
    assert_eq!(hex_to_bytes(&lower), Some(v));
}
