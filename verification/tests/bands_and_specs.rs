use commnet_range::EngineError;
use commnet_range::FRAC_ONE;
use commnet_range::bands::BandTable;
use commnet_range::bands::strength_at;
use commnet_range::specifier::split_antenna_arg;

#[test]
fn strength_edges() {
    for dd in [1u64, 100, 200, 1_000_000_000] {
        assert_eq!(strength_at(0, dd), Some(FRAC_ONE));
        assert_eq!(strength_at(dd, dd), Some(0));
    }
}

#[test]
fn strength_not_applicable_without_link() {
    assert_eq!(strength_at(0, 0), None);
    assert_eq!(strength_at(123, 0), None);
}

#[test]
fn strength_beyond_range_is_zero() {
    assert_eq!(strength_at(150, 100), Some(0));
    assert_eq!(strength_at(u64::MAX, 100), Some(0));
}

#[test]
fn strength_monotone_samples() {
    let dd: u64 = 1_000;
    let mut last = FRAC_ONE + 1;
    for d in 0..=dd {
        let s = strength_at(d, dd).unwrap();
        assert!(s <= FRAC_ONE);
        assert!(s <= last);
        last = s;
    }
}

#[test]
fn strength_midpoint_value() {
    // At half range h = 1/2 and the curve gives 3/4 - 1/4 = 1/2.
    assert_eq!(strength_at(50, 100), Some(FRAC_ONE / 2));
}

#[test]
fn bands_partition_exactly() {
    let table = BandTable::new();
    let bands = table.bands();
    assert!(!bands.is_empty());
    assert_eq!(bands[0].near, 0);
    assert_eq!(bands[bands.len() - 1].far, FRAC_ONE);
    for b in bands.iter() {
        assert!(b.near < b.far);
    }
    for w in bands.windows(2) {
        assert_eq!(w[0].far, w[1].near);
    }
}

#[test]
fn evaluate_covers_every_band() {
    let table = BandTable::new();
    let entries = table.evaluate(200);
    assert_eq!(entries.len(), table.bands().len());
    assert_eq!(entries[0].at_near, Some(FRAC_ONE));
    assert_eq!(entries[entries.len() - 1].at_far, Some(0));
    for e in &entries {
        assert!(e.at_near.unwrap() >= e.at_far.unwrap());
    }
}

#[test]
fn evaluate_without_link_marks_all_not_applicable() {
    let table = BandTable::new();
    for e in table.evaluate(0) {
        assert_eq!(e.at_near, None);
        assert_eq!(e.at_far, None);
    }
}

#[test]
fn split_plain_name() {
    assert_eq!(split_antenna_arg("Communotron 16").unwrap(), (1, "Communotron 16".to_owned()));
}

#[test]
fn split_count_and_name() {
    assert_eq!(split_antenna_arg("3:C-16").unwrap(), (3, "C-16".to_owned()));
    assert_eq!(split_antenna_arg("12:DSN Lv.3").unwrap(), (12, "DSN Lv.3".to_owned()));
}

#[test]
fn split_rejects_extra_colons() {
    assert!(matches!(split_antenna_arg("1:2:x"), Err(EngineError::InvalidSpecifier)));
    assert!(matches!(split_antenna_arg("::"), Err(EngineError::InvalidSpecifier)));
}

#[test]
fn split_rejects_bad_counts() {
    assert!(matches!(split_antenna_arg(":x"), Err(EngineError::InvalidSpecifier)));
    assert!(matches!(split_antenna_arg("x:y"), Err(EngineError::InvalidSpecifier)));
    assert!(matches!(split_antenna_arg("1a:y"), Err(EngineError::InvalidSpecifier)));
    assert!(matches!(
        split_antenna_arg("99999999999999999999:y"),
        Err(EngineError::InvalidSpecifier)
    ));
}

#[test]
fn split_zero_count_parses_and_add_rejects_it() {
    // The token itself is well formed; the engine refuses the count later.
    assert_eq!(split_antenna_arg("0:C-16").unwrap(), (0, "C-16".to_owned()));
}

#[test]
fn split_handles_non_ascii_names() {
    assert_eq!(split_antenna_arg("2:Düse Nr. 1").unwrap(), (2, "Düse Nr. 1".to_owned()));
    assert_eq!(split_antenna_arg("Антенна").unwrap(), (1, "Антенна".to_owned()));
}
