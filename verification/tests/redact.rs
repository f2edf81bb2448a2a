use fixbolt_engine::redact::{carries_secret, mask, masked, Kind, Scope, MASK};

#[test]
fn a_password_is_masked_to_its_length_and_nothing_else_moves() {
    let mut b = b"8=FIX.4.4\x019=30\x0135=A\x01553=alice\x01554=hunter2\x0110=000\x01".to_vec();
    let before = b.clone();
    let n = mask(&mut b);
    assert_eq!(n, 1);
    let want = b"8=FIX.4.4\x019=30\x0135=A\x01553=alice\x01554=*******\x0110=000\x01".to_vec();
    assert_eq!(b, want);
    assert_eq!(b.len(), before.len());
    assert_eq!(MASK, b'*');
}

#[test]
fn a_message_without_secrets_is_untouched() {
    let mut b = b"8=FIX.4.4\x019=5\x0135=0\x0110=163\x01".to_vec();
    let before = b.clone();
    assert_eq!(mask(&mut b), 0);
    assert_eq!(b, before);
    assert!(!carries_secret(&before));
}

#[test]
fn raw_data_is_secret_only_in_a_sign_on() {
    let logon = b"35=A\x0195=3\x0196=a\x01b\x0110=000\x01".to_vec();
    assert!(carries_secret(&logon));
    let mut masked_logon = logon.clone();
    assert_eq!(mask(&mut masked_logon), 1);
    assert_eq!(masked_logon, b"35=A\x0195=3\x0196=***\x0110=000\x01".to_vec());

    let order = b"35=D\x0195=3\x0196=a\x01b\x0110=000\x01".to_vec();
    assert!(!carries_secret(&order));
}

#[test]
fn a_tag_that_merely_contains_a_secret_tag_is_not_one() {
    let b = b"35=D\x015540=x\x01155=y\x0110=000\x01".to_vec();
    assert!(!carries_secret(&b));
}

#[test]
fn the_list_names_five_fields() {
    let l = masked();
    assert_eq!(l[0].tag, 554);
    assert_eq!(l[1].tag, 925);
    assert_eq!(l[2].kind, Kind::Data { length: 1401 });
    assert_eq!(l[3].tag, 1404);
    assert_eq!(l[4].scope, Scope::SignOn);
}

#[test]
fn a_buffer_carries_a_secret_exactly_when_masking_finds_one() {
    for b in [
        &b"925=x\x01"[..],
        &b"35=D\x0158=554=x\x01"[..],
        &b"35=A\x01554=pw\x01925=new\x01"[..],
        &b""[..],
    ] {
        let mut m = b.to_vec();
        let found = mask(&mut m);
        assert_eq!(carries_secret(b), found > 0, "{b:?}");
        if found == 0 {
            assert_eq!(m, b.to_vec(), "nothing found, nothing changed");
        }
    }
    assert!(carries_secret(b"925=x\x01"));
    assert!(!carries_secret(b"35=D\x0158=554=x\x01"), "a tag inside a value is not a field");
}

#[test]
fn a_tag_inside_another_data_value_does_not_hide_the_real_length() {
    // 91 holds six bytes, `x<SOH>96=Q`; the real 95/96 pair follows it.
    let mut b = b"35=A\x0195=3\x0196=abc\x0190=6\x0191=x\x0196=Q\x0195=9\x0196=abcd\x01efgh\x01".to_vec();
    let n = mask(&mut b);
    assert_eq!(n, 3);
    let tail = b"96=*********\x01";
    assert_eq!(&b[b.len() - tail.len()..], &tail[..], "efgh is masked too");
    assert_eq!(&b[..17], &b"35=A\x0195=3\x0196=***\x01"[..]);
}

#[test]
fn a_declared_length_past_the_end_is_clamped() {
    let mut b = b"35=A\x0195=50\x0196=ab\x01".to_vec();
    assert_eq!(mask(&mut b), 1);
    assert_eq!(b, b"35=A\x0195=50\x0196=***".to_vec());
}

#[test]
fn an_encrypted_password_is_masked_in_any_message() {
    let mut b = b"35=D\x011401=4\x011402=a\x01bc\x0158=x\x01".to_vec();
    assert_eq!(mask(&mut b), 1);
    assert_eq!(b, b"35=D\x011401=4\x011402=****\x0158=x\x01".to_vec());
}
