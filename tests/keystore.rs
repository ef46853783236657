use bswitch::bks::errors::{BksError, ShortRead};
use bswitch::bks::keystore::{BksEntryValue, BksKeyStore};

fn hex(s: &str) -> Vec<u8> {
    (0..s.len() / 2)
        .map(|i| u8::from_str_radix(&s[2 * i..2 * i + 2], 16).unwrap())
        .collect()
}

const FOUR: &str = "0000000200000014000102030405060708090a0b0c0d0e0f10111213000003e8020006636c69656e7400000174876e8000000000010005582e3530390000000430820102000006504b43532338000352534100000007308204a36b6579010002636100000174876e8001000000000005582e353039000000053003020105030006736563726574000000000000000500000000000000037365630400067365616c65640000000000000006000000000000000c7365616c65642d627974657300cc43e04f1a2434dd19107587243740dbda691b16";
const EMPTY: &str = "000000010000000201020000000300aaeac3445a7cacce1b744d99728bacb5329145e8";
const DUP: &str = "00000002000000010900000001030003647570000000000000000100000000000000056669727374030003647570000000000000000200000000000000067365636f6e6400ef614014488987d3e30b289903bcf7f5e34257de";
const BAD_TAG: &str = "000000020000000109000000010300067365637265740000000000000005000000000000000373656305000362616400000000000000010000000000000001780021c1459955bf10fca1d22662e653617f126fa0fd";
const PASSWORD: &str = "SwitchBeePrivate";

fn load(data: &[u8], password: &str) -> Result<BksKeyStore, BksError> {
    BksKeyStore::load(data, password.to_string())
}

#[test]
fn loads_fixture_with_four_entries() {
    let ks = load(&hex(FOUR), PASSWORD).unwrap();
    assert_eq!(ks.len(), 4);
    assert_eq!(ks.entries().len(), 4);
    assert_eq!(ks.version(), 2);
    assert_eq!(ks.store_type(), "bks");

    let client = ks.get("client").unwrap();
    assert_eq!(client.timestamp, 1600000000000);
    assert_eq!(client.cert_chain().len(), 1);
    assert_eq!(client.cert_chain()[0].cert_type, "X.509");
    assert_eq!(client.cert_chain()[0].data(), &vec![0x30, 0x82, 0x01, 0x02]);
    match client.value() {
        BksEntryValue::KeyEntry(k) => {
            assert_eq!(k.key_type, 0);
            assert_eq!(k.key_format, "PKCS#8");
            assert_eq!(k.key_algorithm, "RSA");
            assert_eq!(k.data(), &b"\x30\x82\x04\xa3key".to_vec());
        }
        other => panic!("expected a key entry, got {:?}", other),
    }

    match ks.get("ca").unwrap().value() {
        BksEntryValue::CertEntry(c) => {
            assert_eq!(c.cert_type, "X.509");
            assert_eq!(c.cert_data, vec![0x30, 0x03, 0x02, 0x01, 0x05]);
        }
        other => panic!("expected a certificate entry, got {:?}", other),
    }
    match ks.get("secret").unwrap().value() {
        BksEntryValue::SecretEntry(s) => assert_eq!(s.secret_data, b"sec".to_vec()),
        other => panic!("expected a secret entry, got {:?}", other),
    }
    match ks.get("sealed").unwrap().value() {
        BksEntryValue::SealedEntry(s) => assert_eq!(s.sealed_data, b"sealed-bytes".to_vec()),
        other => panic!("expected a sealed entry, got {:?}", other),
    }
    assert!(ks.get("missing").is_none());
}

#[test]
fn wrong_password_is_a_signature_error() {
    let data = hex(FOUR);
    for pw in ["", "switchbeeprivate", "SwitchBeePrivate ", "x"] {
        match load(&data, pw) {
            Err(BksError::SignatureError(e)) => {
                assert_eq!(e.expected, data[data.len() - 20..].to_vec());
                assert_eq!(e.signature.len(), 20);
                assert_ne!(e.signature, e.expected);
            }
            other => panic!("expected a signature error, got {:?}", other),
        }
    }
}

#[test]
fn every_truncation_is_a_short_read() {
    for name in [FOUR, EMPTY, DUP] {
        let data = hex(name);
        let pw = if name == FOUR { PASSWORD } else { "pw" };
        assert!(load(&data, pw).is_ok());
        for k in 0..data.len() {
            match load(&data[..k], pw) {
                Err(BksError::IoError(_)) => {}
                other => panic!("truncated to {} bytes: {:?}", k, other),
            }
        }
    }
}

#[test]
fn short_read_reports_what_was_missing() {
    let data = hex(EMPTY);
    match load(&data[..data.len() - 5], "pw") {
        Err(BksError::IoError(s)) => assert_eq!(s, ShortRead { needed: 20, available: 15 }),
        other => panic!("expected a short read, got {:?}", other),
    }
    match load(&[0, 0], "pw") {
        Err(BksError::IoError(s)) => assert_eq!(s, ShortRead { needed: 4, available: 2 }),
        other => panic!("expected a short read, got {:?}", other),
    }
}

#[test]
fn unsupported_versions_are_format_errors() {
    let data = hex(FOUR);
    for version in [0u32, 3, 4, 0x100, 0x0100_0001, u32::MAX] {
        for rest in [&data[4..], &data[4..5], &[][..]] {
            let mut bytes = version.to_be_bytes().to_vec();
            bytes.extend_from_slice(rest);
            match load(&bytes, PASSWORD) {
                Err(BksError::FormatError(e)) => {
                    assert_eq!(e.cause, "only keystore versions 1 and 2 are supported")
                }
                other => panic!("version {}: {:?}", version, other),
            }
        }
    }
}

#[test]
fn undefined_entry_tag_is_a_format_error() {
    match load(&hex(BAD_TAG), "pw") {
        Err(BksError::FormatError(e)) => assert_eq!(e.cause, "unknown entry type"),
        other => panic!("expected a format error, got {:?}", other),
    }
    let mut data = hex(EMPTY);
    data[14] = 5;
    match load(&data, "pw") {
        Err(BksError::FormatError(e)) => assert_eq!(e.cause, "unknown entry type"),
        other => panic!("expected a format error, got {:?}", other),
    }
}

#[test]
fn empty_entry_table_loads() {
    let ks = load(&hex(EMPTY), "pw").unwrap();
    assert_eq!(ks.len(), 0);
    assert!(ks.entries().is_empty());
    assert_eq!(ks.version(), 1);
}

#[test]
fn later_entry_with_same_alias_wins() {
    let ks = load(&hex(DUP), "pw").unwrap();
    assert_eq!(ks.len(), 1);
    let e = ks.get("dup").unwrap();
    assert_eq!(e.timestamp, 2);
    match e.value() {
        BksEntryValue::SecretEntry(s) => assert_eq!(s.secret_data, b"second".to_vec()),
        other => panic!("expected a secret entry, got {:?}", other),
    }
}

#[test]
fn tampered_table_is_a_signature_error() {
    let mut data = hex(DUP);
    data[36] ^= 1;
    assert!(matches!(load(&data, "pw"), Err(BksError::SignatureError(_))));
}

#[test]
fn bytes_after_the_digest_are_ignored() {
    let mut data = hex(EMPTY);
    data.extend_from_slice(b"trailing");
    assert_eq!(load(&data, "pw").unwrap().len(), 0);
}

#[test]
fn invalid_utf8_alias_is_a_format_error() {
    let mut data = hex(DUP);
    data[17] = 0xff;
    match load(&data, "pw") {
        Err(BksError::FormatError(e)) => assert_eq!(e.cause, "invalid UTF-8 in a text field"),
        other => panic!("expected a format error, got {:?}", other),
    }
}

#[test]
fn huge_declared_length_is_a_short_read() {
    let data = [0, 0, 0, 2, 0xff, 0xff, 0xff, 0xff, 1, 2, 3];
    match load(&data, "pw") {
        Err(BksError::IoError(s)) => {
            assert_eq!(s, ShortRead { needed: 0xffff_ffff, available: 3 })
        }
        other => panic!("expected a short read, got {:?}", other),
    }
}
