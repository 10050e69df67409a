use multi_wechat_rs::process::{contains, name_matches, newest_first, Process};
use multi_wechat_rs::system::{next_query_step, Handle, QueryStep, STATUS_INFO_LENGTH_MISMATCH};
use multi_wechat_rs::utils::{char_to_string, decode_utf16, registry_string, wchar_to_string, wide_string};

#[test]
fn check_status() {
    // check status
    assert_eq!(STATUS_INFO_LENGTH_MISMATCH as u32, 0xC0000004 as u32);

    // test box grow
    let mut buf: Box<[u8]>;
    for n in 1..=10 {
        buf = vec![0; n].into_boxed_slice();
        println!("===> n: {}", buf.len());
    }

    // test array
    let arr = [1u8; 10];
    for i in 0..10 {
        let item = arr[i];
        println!("===> item: {}", item);
    }
}

#[test]
fn query_step_grows_on_length_mismatch() {
    match next_query_step(STATUS_INFO_LENGTH_MISMATCH, 512 * 1024) {
        QueryStep::Grow(n) => assert_eq!(n, 1024 * 1024),
        _ => panic!(),
    }
    assert!(matches!(next_query_step(0, 16), QueryStep::Done));
    assert!(matches!(next_query_step(0x103, 16), QueryStep::Done));
    match next_query_step(0xC0000022u32 as i32, 16) {
        QueryStep::Fail(m) => assert_eq!(m, "[0xc0000022] oh no!"),
        _ => panic!(),
    }
}

#[test]
fn ansi_buffer_to_string() {
    assert_eq!(char_to_string(&[72, 105]), "Hi");
    assert_eq!(char_to_string(&[-23]), "\u{e9}");
    assert_eq!(char_to_string(&[]), "");
}

#[test]
fn wide_string_is_nul_terminated_utf16() {
    assert_eq!(wide_string("a\u{20ac}\u{1f600}"), vec![0x61, 0x20AC, 0xD83D, 0xDE00, 0]);
    assert_eq!(wide_string(""), vec![0]);
}

#[test]
fn wide_buffer_stops_at_nul() {
    assert_eq!(wchar_to_string(&[0x48, 0x69, 0, 0x41]), "Hi");
    assert_eq!(wchar_to_string(&[0x57, 0x65]), "We");
    assert_eq!(wchar_to_string(&[0xD800, 0x41, 0]), "\u{fffd}A");
}

#[test]
fn process_name_filter() {
    assert!(name_matches("", "anything.exe"));
    assert!(name_matches("WeChat", "WeChat.exe"));
    assert!(name_matches("Chat.e", "WeChat.exe"));
    assert!(!name_matches("wechat", "WeChat.exe"));
    assert!(!name_matches("WeChat.exe.", "WeChat.exe"));
}

#[test]
fn process_and_handle_keep_their_fields() {
    let p = Process::new(0x44, 1234, "WeChat.exe");
    assert_eq!(p.pid(), 1234);
    assert_eq!(p.handle(), 0x44);
    assert_eq!(p.name(), "WeChat.exe");
    let h = Handle::new(0x10, 1234, 7, "Mutant".to_string(), "\\Sessions\\1\\x".to_string());
    assert_eq!(h.pid, 1234);
    assert_eq!(h.handle, 0x10);
    assert_eq!(h.type_index, 7);
    assert_eq!(h.type_label, "Mutant");
    assert_eq!(h.name, "\\Sessions\\1\\x");
}

#[test]
fn wide_string_round_trips() {
    for s in ["", "WeChat.exe", "\u{5fae}\u{4fe1}", "a\u{1f600}b"] {
        assert_eq!(wchar_to_string(&wide_string(s)), s);
    }
}

#[test]
fn newest_process_comes_first() {
    let found = vec![Process::new(1, 10, "a.exe"), Process::new(2, 20, "b.exe"), Process::new(3, 30, "c.exe")];
    let ordered = newest_first(found);
    let pids: Vec<u32> = ordered.iter().map(|p| p.pid()).collect();
    assert_eq!(pids, vec![30, 20, 10]);
    assert!(newest_first(Vec::new()).is_empty());
}

#[test]
fn substring_search() {
    assert!(contains("abc", ""));
    assert!(contains("", ""));
    assert!(contains("abcabd", "abd"));
    assert!(!contains("abcab", "abd"));
    assert!(!contains("ab", "abc"));
    assert!(contains("\u{5fae}\u{4fe1}.exe", "\u{4fe1}."));
}

#[test]
fn instance_mutex_is_recognised() {
    let m = Handle::new(1, 2, 3, "Mutant".to_string(), "\\Sessions\\1\\BaseNamedObjects\\_WeChat_App_Instance_Identity_Mutex_Name".to_string());
    assert!(m.is_instance_mutex());
    let other = Handle::new(1, 2, 3, "Mutant".to_string(), "\\BaseNamedObjects\\SomethingElse".to_string());
    assert!(!other.is_instance_mutex());
    let event = Handle::new(1, 2, 3, "Event".to_string(), "_WeChat_App_Instance_Identity_Mutex_Name".to_string());
    assert!(!event.is_instance_mutex());
}

#[test]
fn registry_value_drops_terminating_nul() {
    assert_eq!(registry_string(&[67, 58, 92, 87, 0, 0, 0], 5), "C:\\W");
    assert_eq!(registry_string(&[0], 1), "");
    assert_eq!(registry_string(&[], 1), "");
}

#[test]
fn strict_utf16_decoding() {
    assert_eq!(decode_utf16(&[0x48, 0x69]), Some("Hi".to_string()));
    assert_eq!(decode_utf16(&[0xD83D, 0xDE00]), Some("\u{1f600}".to_string()));
    assert_eq!(decode_utf16(&[]), Some(String::new()));
    assert_eq!(decode_utf16(&[0xD800, 0x41]), None);
    assert_eq!(decode_utf16(&[0xDC00]), None);
}
