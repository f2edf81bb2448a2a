use fixbolt_engine::affinity::{
    cores_of, mask_of, pin_refused, processor_of_stat, reads_back_as, AffinityError, CoreId,
};

#[test]
fn a_mask_of_one_core_reads_back_as_that_core() {
    for c in [0usize, 1, 63, 64, 65, 500, 1023] {
        let m = mask_of(CoreId(c)).unwrap();
        assert_eq!(cores_of(&m), vec![CoreId(c)], "core {c}");
        assert!(reads_back_as(&cores_of(&m), CoreId(c)));
    }
    assert_eq!(mask_of(CoreId(1024)), Err(AffinityError::NoSuchCore(CoreId(1024))));
}

#[test]
fn a_mask_names_its_cores_in_ascending_order() {
    let mut m = [0u64; 16];
    m[0] = 0b1010;
    m[2] = 1 << 63;
    assert_eq!(cores_of(&m), vec![CoreId(1), CoreId(3), CoreId(191)]);
    assert!(!reads_back_as(&cores_of(&m), CoreId(1)));
    assert!(cores_of(&[0u64; 16]).is_empty());
}

#[test]
fn a_refused_pin_says_why() {
    assert_eq!(pin_refused(CoreId(3), 22), AffinityError::NoSuchCore(CoreId(3)));
    assert_eq!(pin_refused(CoreId(3), 1), AffinityError::Denied(CoreId(3)));
    assert_eq!(pin_refused(CoreId(3), 5), AffinityError::Failed(5));
}

fn stat_with_processor(name: &str, cpu: &str) -> Vec<u8> {
    let mut s = format!("1234 ({name}) S");
    for i in 0..35 {
        s.push_str(&format!(" {i}"));
    }
    s.push_str(&format!(" {cpu} 0 0\n"));
    s.into_bytes()
}

#[test]
fn the_processor_is_the_thirty_seventh_field_after_the_name() {
    assert_eq!(processor_of_stat(&stat_with_processor("cat", "3")), Some(CoreId(3)));
    assert_eq!(
        processor_of_stat(&stat_with_processor("a) b (c", "12")),
        Some(CoreId(12)),
        "a name holding parentheses and spaces of its own is skipped whole"
    );
    assert_eq!(processor_of_stat(&stat_with_processor("cat", "+7")), Some(CoreId(7)));
    assert_eq!(processor_of_stat(&stat_with_processor("cat", "x")), None);
    assert_eq!(processor_of_stat(b"1234 no paren here"), None);
    assert_eq!(processor_of_stat(b"1 (x) S 1 2"), None, "too few fields");
}
