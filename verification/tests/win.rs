use looppanel::win::{registry_buffer, registry_string, system_dll, wide, RegistryError};

fn units(text: &str) -> Vec<u16> {
    text.encode_utf16().collect()
}

#[test]
fn text_is_terminated() {
    assert_eq!(wide(""), [0]);
    assert_eq!(wide("a\u{1f600}"), [97, 0xd83d, 0xde00, 0]);
    assert_eq!(wide("温度"), [0x6e29, 0x5ea6, 0]);
}

#[test]
fn registry_text_ends_at_its_nul() {
    assert_eq!(registry_buffer(0, 9), Ok(4));
    assert_eq!(registry_buffer(2, 9), Err(RegistryError::System(2)));
    assert_eq!(registry_string(0, &units("ab\0cd")).unwrap(), "ab");
    assert_eq!(registry_string(0, &units("a\u{1f600}")).unwrap(), "a\u{1f600}");
    assert_eq!(registry_string(0, &[]).unwrap(), "");
    assert_eq!(registry_string(5, &units("ab")), Err(RegistryError::System(5)));
    assert_eq!(registry_string(0, &[0xd83d, 0]), Err(RegistryError::InvalidText));
}

#[test]
fn libraries_lie_in_the_directory_of_the_system() {
    let buffer = units("C:\\Windows\\System32\0\0");
    assert_eq!(
        system_dll(&buffer, 19, "hid.dll"),
        Some(units("C:\\Windows\\System32\\hid.dll"))
    );
    assert_eq!(system_dll(&units("C:\\\0"), 3, "pdh.dll"), Some(units("C:\\pdh.dll")));
    assert_eq!(system_dll(&units("C:\0"), 2, "hid.dll"), Some(units("C:hid.dll")));
    assert_eq!(system_dll(&units("z:\0"), 2, "hid.dll"), Some(units("z:hid.dll")));
    assert_eq!(system_dll(&units("1:\0"), 2, "hid.dll"), Some(units("1:\\hid.dll")));
    assert_eq!(system_dll(&units("D:x\0"), 3, "hid.dll"), Some(units("D:x\\hid.dll")));
    assert_eq!(system_dll(&buffer, 0, "hid.dll"), None);
    assert_eq!(system_dll(&buffer, 21, "hid.dll"), None);
}
