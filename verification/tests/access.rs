use classfile::{parse_access_flags, CFAccessFlags};
use std::collections::HashSet;

fn set_of(input: u16) -> HashSet<CFAccessFlags> {
    let flags = parse_access_flags(input);
    let set: HashSet<CFAccessFlags> = flags.iter().copied().collect();
    assert_eq!(set.len(), flags.len(), "a flag is reported twice for {input:#06x}");
    set
}

#[test]
fn no_bit_reports_no_flag() {
    assert!(parse_access_flags(0).is_empty());
}

#[test]
fn each_bit_reports_its_flag() {
    assert_eq!(parse_access_flags(0x0001), vec![CFAccessFlags::Public]);
    assert_eq!(parse_access_flags(0x0010), vec![CFAccessFlags::Final]);
    assert_eq!(parse_access_flags(0x0200), vec![CFAccessFlags::Interface]);
    assert_eq!(parse_access_flags(0x0400), vec![CFAccessFlags::Abstract]);
    assert_eq!(parse_access_flags(0x1000), vec![CFAccessFlags::Synthetic]);
    assert_eq!(parse_access_flags(0x2000), vec![CFAccessFlags::Annotation]);
    assert_eq!(parse_access_flags(0x4000), vec![CFAccessFlags::Enum]);
}

#[test]
fn super_bit_reports_nothing() {
    assert!(parse_access_flags(0x0020).is_empty());
    assert_eq!(set_of(0x0021), HashSet::from([CFAccessFlags::Public]));
    assert_eq!(set_of(0x0030), HashSet::from([CFAccessFlags::Final]));
    for input in 0..=u16::MAX {
        assert!(!parse_access_flags(input).contains(&CFAccessFlags::Super));
    }
}

#[test]
fn mask_is_the_bit_of_the_flag() {
    assert_eq!(CFAccessFlags::Public.mask(), 0x0001);
    assert_eq!(CFAccessFlags::Final.mask(), 0x0010);
    assert_eq!(CFAccessFlags::Super.mask(), 0x0020);
    assert_eq!(CFAccessFlags::Interface.mask(), 0x0200);
    assert_eq!(CFAccessFlags::Abstract.mask(), 0x0400);
    assert_eq!(CFAccessFlags::Synthetic.mask(), 0x1000);
    assert_eq!(CFAccessFlags::Annotation.mask(), 0x2000);
    assert_eq!(CFAccessFlags::Enum.mask(), 0x4000);
}

#[test]
fn pattern_is_the_mask_but_for_super() {
    for flag in [
        CFAccessFlags::Public,
        CFAccessFlags::Final,
        CFAccessFlags::Interface,
        CFAccessFlags::Abstract,
        CFAccessFlags::Synthetic,
        CFAccessFlags::Annotation,
        CFAccessFlags::Enum,
    ] {
        assert_eq!(flag.pattern(), flag.mask());
    }
    assert_eq!(CFAccessFlags::Super.pattern(), 0x0010);
}

#[test]
fn a_public_final_class() {
    assert_eq!(set_of(0x0031), HashSet::from([CFAccessFlags::Public, CFAccessFlags::Final]));
}

#[test]
fn an_abstract_interface() {
    assert_eq!(
        set_of(0x0601),
        HashSet::from([CFAccessFlags::Public, CFAccessFlags::Interface, CFAccessFlags::Abstract])
    );
}

#[test]
fn all_bits_report_every_flag_but_super() {
    let all = HashSet::from([
        CFAccessFlags::Public,
        CFAccessFlags::Final,
        CFAccessFlags::Interface,
        CFAccessFlags::Abstract,
        CFAccessFlags::Synthetic,
        CFAccessFlags::Annotation,
        CFAccessFlags::Enum,
    ]);
    assert_eq!(set_of(0x7631), all);
    assert_eq!(set_of(0xFFFF), all);
}

#[test]
fn bits_without_a_flag_are_passed_over() {
    assert!(parse_access_flags(0x8000).is_empty());
    assert!(parse_access_flags(0x0002).is_empty());
    assert_eq!(set_of(0x800F), HashSet::from([CFAccessFlags::Public]));
}

#[test]
fn a_flag_is_reported_exactly_where_its_pattern_shows() {
    for input in (0..=u16::MAX).step_by(7) {
        let set = set_of(input);
        for flag in [
            CFAccessFlags::Public,
            CFAccessFlags::Final,
            CFAccessFlags::Super,
            CFAccessFlags::Interface,
            CFAccessFlags::Abstract,
            CFAccessFlags::Synthetic,
            CFAccessFlags::Annotation,
            CFAccessFlags::Enum,
        ] {
            assert_eq!(set.contains(&flag), input & flag.mask() == flag.pattern());
        }
    }
}
