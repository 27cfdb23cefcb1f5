use replication::ids::EntityId;
use replication::naming::{ambient_executable_name, install_source_args, install_suffix};

#[test]
fn null_and_resources_are_distinct_reserved_ids() {
    let null = EntityId::null();
    assert!(null.is_null());
    assert!(!null.is_resources());
    let res = EntityId::resources();
    assert!(res.is_resources());
    assert!(!res.is_null());
    assert_ne!(null, res);
    assert_eq!(EntityId::default(), null);
}

#[test]
fn from_base64_decodes_single_byte() {
    // "AQ" decodes to the byte 0x01; zero-padded it is id0 = 1, id1 = 0.
    let id = EntityId::from_base64("AQ").unwrap();
    assert_eq!(id, EntityId { id0: 1, id1: 0 });
}

#[test]
fn from_base64_decodes_high_byte() {
    // "_w" decodes to the byte 0xFF.
    let id = EntityId::from_base64("_w").unwrap();
    assert_eq!(id, EntityId { id0: 255, id1: 0 });
}

#[test]
fn from_base64_decodes_multi_word() {
    // Twelve characters decode to nine bytes: eight zero bytes then 0x01,
    // which lands in the low byte of the second word.
    let id = EntityId::from_base64("AAAAAAAAAAAB").unwrap();
    assert_eq!(id, EntityId { id0: 0, id1: 1 });
}

#[test]
fn from_base64_rejects_invalid_symbols() {
    assert!(EntityId::from_base64("!!!!").is_none());
}

#[test]
fn from_base64_rejects_invalid_length() {
    // length 1 modulo 4 is never a valid unpadded base64 length
    assert!(EntityId::from_base64("AAAAA").is_none());
}

#[test]
fn from_base64_rejects_sixteen_bytes_or_more() {
    // 22 characters decode to 16 bytes: too long for a 128-bit id here
    assert!(EntityId::from_base64("AAAAAAAAAAAAAAAAAAAAAA").is_none());
    // 20 characters decode to 15 bytes: accepted
    assert!(EntityId::from_base64("AAAAAAAAAAAAAAAAAAAA").is_some());
}

#[test]
fn from_base64_of_empty_is_null() {
    let id = EntityId::from_base64("").unwrap();
    assert!(id.is_null());
}

#[test]
fn executable_name_with_and_without_suffix() {
    assert_eq!(ambient_executable_name(""), "ambient");
    assert_eq!(ambient_executable_name("dev"), "ambient-dev");
    assert_eq!(ambient_executable_name("v1.2"), "ambient-v1.2");
}

#[test]
fn install_suffix_precedence() {
    assert_eq!(install_suffix(Some("abc"), Some("v1"), Some("forced")), "forced");
    assert_eq!(install_suffix(Some("abc"), Some("v1"), None), "abc");
    assert_eq!(install_suffix(None, Some("v1"), None), "v1");
    assert_eq!(install_suffix(None, None, None), "dev");
}

#[test]
fn install_source_args_forms() {
    let args = install_source_args(Some("abc"), Some("v1"));
    assert_eq!(args.len(), 5);
    assert_eq!(args[0], "--git");
    assert_eq!(args[3], "--rev");
    assert_eq!(args[4], "abc");

    let args = install_source_args(None, Some("v1"));
    assert_eq!(args[3], "--tag");
    assert_eq!(args[4], "v1");

    let args = install_source_args(None, None);
    assert_eq!(args, vec!["--path".to_string(), "app".to_string()]);
}

#[test]
fn from_le_bytes_pads_and_rejects_overlong() {
    assert_eq!(
        EntityId::from_le_bytes(vec![1, 0, 0, 0, 0, 0, 0, 0, 2]).unwrap(),
        EntityId { id0: 1, id1: 2 }
    );
    assert_eq!(
        EntityId::from_le_bytes(vec![0, 1]).unwrap(),
        EntityId { id0: 256, id1: 0 }
    );
    assert!(EntityId::from_le_bytes(vec![0; 16]).is_none());
}

#[test]
fn to_u128_packs_words_high_and_low() {
    let id = EntityId { id0: 2, id1: 3 };
    assert_eq!(id.to_u128(), (2u128 << 64) + 3);
    assert_eq!(EntityId::null().to_u128(), 0);
    assert_eq!(EntityId::resources().to_u128(), 1);
}
