use flynnel::cat::{
    contiguous_mask, count_l3_domains, count_ways, parse_cbm_mask_hex, rewrite_l3_schemata,
    CatCapability, CatError, L3Reservation, ResctrlFiles,
};

#[test]
fn contiguous_mask_places_the_right_ways() {
    assert_eq!(contiguous_mask(0, 4), 0x0f);
    assert_eq!(contiguous_mask(4, 4), 0xf0);
    assert_eq!(contiguous_mask(0, 1), 0x1);
    assert_eq!(contiguous_mask(0, 0), 0x0);
    assert_eq!(count_ways(contiguous_mask(2, 6)), 6);
}

#[test]
fn a_mask_may_cover_every_way() {
    assert_eq!(contiguous_mask(0, 64), u64::MAX);
    assert_eq!(contiguous_mask(60, 100), 0xf000_0000_0000_0000);
    assert_eq!(contiguous_mask(200, 0), 0);
}

#[test]
fn cbm_mask_hex_parses() {
    assert_eq!(parse_cbm_mask_hex("7fff"), Some(0x7fff));
    assert_eq!(parse_cbm_mask_hex("0xff"), Some(0xff));
    assert_eq!(count_ways(0x7fff), 15);
    assert_eq!(parse_cbm_mask_hex(""), None);
}

#[test]
fn cbm_mask_edge_cases() {
    assert_eq!(parse_cbm_mask_hex("  0xFF\n"), Some(0xff));
    assert_eq!(parse_cbm_mask_hex("0x"), None);
    assert_eq!(parse_cbm_mask_hex("+f"), Some(15));
    assert_eq!(parse_cbm_mask_hex("-f"), None);
    assert_eq!(parse_cbm_mask_hex("ffffffffffffffff"), Some(u64::MAX));
    assert_eq!(parse_cbm_mask_hex("10000000000000000"), None);
    assert_eq!(parse_cbm_mask_hex("zz"), None);
}

#[test]
fn domain_counting() {
    assert_eq!(count_l3_domains("L3:0=7fff;1=7fff\nMB:0=100;1=100\n"), 2);
    assert_eq!(count_l3_domains("L3:0=ffff\n"), 1);
    assert_eq!(count_l3_domains("MB:0=100\n"), 0);
}

#[test]
fn schemata_rewrite_preserves_domains() {
    let before = "L3:0=7fff;1=7fff\nMB:0=100;1=100\n";
    let after = rewrite_l3_schemata(before, 0x00f0);
    assert!(after.contains("L3:0=f0;1=f0"), "got: {after}");
    assert!(after.contains("MB:0=100;1=100"));
}

#[test]
fn schemata_rewrite_is_exact() {
    let before = "  L3: 0 =7fff;1=7fff\r\n\n  MB:0=100\nlast";
    assert_eq!(rewrite_l3_schemata(before, 0xabc), "L3:0=abc;1=abc\n\n  MB:0=100\nlast\n");
    assert_eq!(rewrite_l3_schemata("", 1), "");
    assert_eq!(rewrite_l3_schemata("L3:", 0), "L3:=0\n");
    assert_eq!(rewrite_l3_schemata("L3:0=7fff;1=7fff;\n", 3), "L3:0=3;1=3;=3\n");
}

fn files(present: bool) -> ResctrlFiles {
    ResctrlFiles {
        present,
        cbm_mask: Some("7fff\n".to_string()),
        num_closids: Some("16\n".to_string()),
        min_cbm_bits: Some("2\n".to_string()),
        schemata: Some("    L3:0=7fff;1=7fff\n".to_string()),
    }
}

#[test]
fn detect_is_unsupported_off_linux_or_unmounted() {
    let cap = CatCapability::detect(&files(false));
    assert!(!cap.supported, "resctrl cannot exist off Linux");
    assert_eq!(cap.cbm_bits, 0);
}

#[test]
fn detect_reads_what_the_files_say() {
    let cap = CatCapability::detect(&files(true));
    assert_eq!(
        cap,
        CatCapability {
            supported: true,
            num_closids: 16,
            cbm_bits: 15,
            min_cbm_bits: 2,
            num_domains: 2
        }
    );
    let bare = ResctrlFiles {
        present: true,
        cbm_mask: None,
        num_closids: None,
        min_cbm_bits: Some("x".to_string()),
        schemata: None,
    };
    assert_eq!(
        CatCapability::detect(&bare),
        CatCapability {
            supported: false,
            num_closids: 0,
            cbm_bits: 0,
            min_cbm_bits: 1,
            num_domains: 1
        }
    );
}

#[test]
fn reserve_is_unsupported_when_capability_absent() {
    let cap = CatCapability::detect(&files(false));
    assert!(matches!(
        L3Reservation::reserve_ways(&cap, "flynnel_test", 0, 4),
        Err(CatError::Unsupported)
    ));
}

#[test]
fn reserve_checks_the_range() {
    let cap = CatCapability::detect(&files(true));
    assert!(matches!(
        L3Reservation::reserve_ways(&cap, "g", 12, 4),
        Err(CatError::InvalidRange { first_way: 12, num_ways: 4, total_ways: 15 })
    ));
    assert!(matches!(
        L3Reservation::reserve_ways(&cap, "g", 0, 0),
        Err(CatError::InvalidRange { .. })
    ));
    let r = L3Reservation::reserve_ways(&cap, "g", 11, 4).unwrap();
    assert_eq!(r.dir, "/sys/fs/resctrl/g");
    assert_eq!(r.mask, 0x7800);
}

#[test]
fn errors_in_words() {
    assert_eq!(CatError::Unsupported.message(), "resctrl / L3 CAT unavailable on this host");
    let e = CatError::InvalidRange { first_way: 12, num_ways: 4, total_ways: 15 };
    assert_eq!(e.message(), "way range [12, 16) exceeds 15 L3 ways");
    assert_eq!(CatError::Io("denied".to_string()).message(), "resctrl I/O: denied");
}
