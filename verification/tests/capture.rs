use astra::capture::{CaptureFlags, CaptureId, SCHEMA_VERSION};

#[test]
fn flags_combine_and_report() {
    let mut flags = CaptureFlags::sequence_gap();
    flags.insert(CaptureFlags::stale());
    assert!(flags.contains(CaptureFlags::sequence_gap()));
    assert!(flags.contains(CaptureFlags::stale()));
    assert!(!flags.contains(CaptureFlags::duplicate()));
    assert_eq!(flags.bits(), 0b1001);
}

#[test]
fn every_flag_has_its_own_bit() {
    let all = [
        CaptureFlags::sequence_gap(),
        CaptureFlags::duplicate(),
        CaptureFlags::resync(),
        CaptureFlags::stale(),
        CaptureFlags::unreliable(),
        CaptureFlags::truncated(),
        CaptureFlags::synthetic(),
    ];
    let mut union = CaptureFlags::none();
    for flag in all {
        assert_eq!(flag.bits().count_ones(), 1);
        assert!(!union.contains(flag));
        union = union.union(flag);
        assert!(union.contains(flag));
    }
    assert_eq!(union.bits(), 0b111_1111);
    assert!(union.contains(CaptureFlags::none()));
}

#[test]
fn capture_ids_keep_their_text() {
    let id = CaptureId::new("01HQ7Z0K9V8S4T2M".to_owned());
    assert_eq!(id.as_str(), "01HQ7Z0K9V8S4T2M");
    assert_eq!(SCHEMA_VERSION, 1);
}
