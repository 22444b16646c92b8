use commnet_range::EngineError;
use commnet_range::catalog::DeviceCatalog;
use commnet_range::device::DeviceDefinition;
use commnet_range::endpoint::Endpoint;
use commnet_range::range::max_distance;
use commnet_range::runner::build_endpoint;
use commnet_range::runner::run;

fn basic(power: u64, exp_q: u16) -> DeviceDefinition {
    DeviceDefinition::new("Basic".to_owned(), Vec::new(), power, exp_q)
}

#[test]
fn max_distance_symmetry() {
    assert_eq!(max_distance(100, 400), max_distance(400, 100));
    assert_eq!(max_distance(7, 12), max_distance(12, 7));
    assert_eq!(max_distance(5, 0), 0);
    assert_eq!(max_distance(0, 5), 0);
    assert_eq!(max_distance(0, 0), 0);
}

#[test]
fn max_distance_scenario() {
    assert_eq!(max_distance(100, 400), 200);
}

#[test]
fn combined_single_is_own_power() {
    for exp_q in [0u16, 512, 768, 1024] {
        let mut ep = Endpoint::new();
        ep.add(basic(5, exp_q), 1).unwrap();
        assert_eq!(ep.combined_power(), 5);
    }
}

#[test]
fn combined_three_basic_is_fifteen() {
    let mut catalog = DeviceCatalog::empty();
    catalog.load(&vec![basic(5, 1024)]).unwrap();
    let d = catalog.resolve(&"Basic".to_owned()).unwrap();
    let mut ep = Endpoint::new();
    ep.add(d, 3).unwrap();
    assert_eq!(ep.combined_power(), 15);
}

#[test]
fn combined_reorder_invariant() {
    let a = DeviceDefinition::new("A".to_owned(), Vec::new(), 500_000, 1024);
    let b = DeviceDefinition::new("B".to_owned(), Vec::new(), 5_000_000, 768);
    let c = DeviceDefinition::new("C".to_owned(), Vec::new(), 2_000_000_000, 512);
    let mut e1 = Endpoint::new();
    e1.add(a.duplicate(), 2).unwrap();
    e1.add(b.duplicate(), 1).unwrap();
    e1.add(c.duplicate(), 3).unwrap();
    let mut e2 = Endpoint::new();
    e2.add(c, 3).unwrap();
    e2.add(a, 2).unwrap();
    e2.add(b, 1).unwrap();
    assert_eq!(e1.combined_power(), e2.combined_power());
}

#[test]
fn combined_monotone_in_count() {
    let mut last: u64 = 0;
    for count in 1u64..6 {
        let mut ep = Endpoint::new();
        ep.add(basic(500_000, 768), count).unwrap();
        ep.add(
            DeviceDefinition::new("Big".to_owned(), Vec::new(), 5_000_000, 768),
            1,
        )
        .unwrap();
        let p = ep.combined_power();
        assert!(p >= last);
        last = p;
    }
}

#[test]
fn combined_zero_power_or_empty() {
    let ep = Endpoint::new();
    assert_eq!(ep.combined_power(), 0);
    let mut ep = Endpoint::new();
    ep.add(basic(0, 1024), 4).unwrap();
    assert_eq!(ep.combined_power(), 0);
}

#[test]
fn non_combinable_below_maximum_adds_nothing() {
    let mut with_weak = Endpoint::new();
    with_weak.add(basic(5_000_000, 768), 1).unwrap();
    with_weak
        .add(DeviceDefinition::new("Mute".to_owned(), Vec::new(), 500, 0), 7)
        .unwrap();
    let mut alone = Endpoint::new();
    alone.add(basic(5_000_000, 768), 1).unwrap();
    assert_eq!(with_weak.combined_power(), alone.combined_power());
}

#[test]
fn add_rejects_zero_count() {
    let mut ep = Endpoint::new();
    let r = ep.add(basic(5, 1024), 0);
    assert!(matches!(r, Err(EngineError::InvalidCount)));
    assert!(ep.is_empty());
}

#[test]
fn catalog_resolves_name_and_alias() {
    let catalog = DeviceCatalog::new();
    let by_name = catalog.resolve(&"DSN Lv.3".to_owned()).unwrap();
    assert_eq!(by_name.power, 250_000_000_000);
    let by_alias = catalog.resolve(&"DSN".to_owned()).unwrap();
    assert_eq!(by_alias.name, "DSN Lv.3");
}

#[test]
fn catalog_unknown_key_is_none() {
    let catalog = DeviceCatalog::new();
    assert!(catalog.resolve(&"Nope".to_owned()).is_none());
}

#[test]
fn catalog_override_keeps_other_name() {
    let mut catalog = DeviceCatalog::empty();
    let alpha = DeviceDefinition::new(
        "Alpha".to_owned(),
        vec!["x".to_owned()],
        10,
        1024,
    );
    catalog.load(&vec![alpha]).unwrap();
    let usurper = DeviceDefinition::new("x".to_owned(), Vec::new(), 20, 1024);
    catalog.load(&vec![usurper]).unwrap();
    // The alias mapping now lands on the later definition...
    assert_eq!(catalog.resolve(&"x".to_owned()).unwrap().name, "x");
    // ...while the earlier definition still resolves by its own name.
    assert_eq!(catalog.resolve(&"Alpha".to_owned()).unwrap().name, "Alpha");
}

#[test]
fn catalog_last_load_wins_per_key() {
    let mut catalog = DeviceCatalog::new();
    let replacement =
        DeviceDefinition::new("Communotron 16".to_owned(), Vec::new(), 999, 1024);
    catalog.load(&vec![replacement]).unwrap();
    assert_eq!(catalog.resolve(&"Communotron 16".to_owned()).unwrap().power, 999);
    // The replaced definition stands at the end of the enumeration.
    let all = catalog.all();
    assert_eq!(all.last().unwrap().name, "Communotron 16");
    assert_eq!(
        all.iter().filter(|d| d.name == "Communotron 16").count(),
        1
    );
}

#[test]
fn catalog_conflicting_batch_is_refused_whole() {
    let mut catalog = DeviceCatalog::empty();
    let d1 = DeviceDefinition::new("One".to_owned(), vec!["shared".to_owned()], 1, 1024);
    let d2 = DeviceDefinition::new("Two".to_owned(), vec!["shared".to_owned()], 2, 1024);
    let r = catalog.load(&vec![d1, d2]);
    match r {
        Err(EngineError::CatalogConflict { key }) => assert_eq!(key, "shared"),
        _ => panic!("expected a catalog conflict"),
    }
    // Atomic: nothing of the batch was applied.
    assert!(catalog.resolve(&"One".to_owned()).is_none());
    assert!(catalog.resolve(&"Two".to_owned()).is_none());
}

#[test]
fn build_endpoint_unknown_device() {
    let catalog = DeviceCatalog::new();
    let specs = vec![(1u64, "Nope".to_owned())];
    let r = build_endpoint(&catalog, &specs, 1, &"DSN Lv.3".to_owned());
    match r {
        Err(EngineError::UnknownDevice { key }) => assert_eq!(key, "Nope"),
        _ => panic!("expected an unknown-device error"),
    }
}

#[test]
fn build_endpoint_invalid_count() {
    let catalog = DeviceCatalog::new();
    let specs = vec![(0u64, "DSN Lv.3".to_owned())];
    let r = build_endpoint(&catalog, &specs, 1, &"DSN Lv.3".to_owned());
    assert!(matches!(r, Err(EngineError::InvalidCount)));
}

#[test]
fn build_endpoint_empty_specs_use_default() {
    let catalog = DeviceCatalog::new();
    let specs: Vec<(u64, String)> = Vec::new();
    let ep = build_endpoint(&catalog, &specs, 1, &"Command Module".to_owned()).unwrap();
    let devices = ep.devices();
    assert_eq!(devices.len(), 1);
    assert_eq!(devices[0].0.name, "Command Module");
    assert_eq!(devices[0].1, 1);
}

#[test]
fn run_defaults_on_both_sides() {
    let catalog = DeviceCatalog::new();
    let table = commnet_range::bands::BandTable::new();
    let none: Vec<(u64, String)> = Vec::new();
    let outcome = run(
        &catalog,
        &table,
        &none,
        &none,
        &(1u64, "DSN Lv.3".to_owned()),
        &(1u64, "Command Module".to_owned()),
    )
    .unwrap();
    assert_eq!(outcome.from.devices().len(), 1);
    assert_eq!(outcome.from.devices()[0].0.name, "DSN Lv.3");
    assert_eq!(outcome.from.devices()[0].1, 1);
    assert_eq!(outcome.to.devices().len(), 1);
    assert_eq!(outcome.to.devices()[0].0.name, "Command Module");
    assert_eq!(outcome.to.devices()[0].1, 1);
    assert_eq!(outcome.from_power, 250_000_000_000);
    assert_eq!(outcome.to_power, 5_000);
    assert_eq!(outcome.max_distance, max_distance(250_000_000_000, 5_000));
}

#[test]
fn run_unknown_device_fails() {
    let catalog = DeviceCatalog::new();
    let table = commnet_range::bands::BandTable::new();
    let specs = vec![(2u64, "Nope".to_owned())];
    let none: Vec<(u64, String)> = Vec::new();
    let r = run(
        &catalog,
        &table,
        &specs,
        &none,
        &(1u64, "DSN Lv.3".to_owned()),
        &(1u64, "Command Module".to_owned()),
    );
    match r {
        Err(EngineError::UnknownDevice { key }) => assert_eq!(key, "Nope"),
        _ => panic!("expected an unknown-device error"),
    }
}

#[test]
fn run_scenario_hundred_and_four_hundred() {
    let mut catalog = DeviceCatalog::empty();
    catalog
        .load(&vec![
            DeviceDefinition::new("A".to_owned(), Vec::new(), 100, 1024),
            DeviceDefinition::new("B".to_owned(), Vec::new(), 400, 1024),
        ])
        .unwrap();
    let table = commnet_range::bands::BandTable::new();
    let outcome = run(
        &catalog,
        &table,
        &vec![(1u64, "A".to_owned())],
        &vec![(1u64, "B".to_owned())],
        &(1u64, "A".to_owned()),
        &(1u64, "B".to_owned()),
    )
    .unwrap();
    assert_eq!(outcome.from_power, 100);
    assert_eq!(outcome.to_power, 400);
    assert_eq!(outcome.max_distance, 200);
    // Strength at the near edge of the first band is full, at the far
    // edge of the last band zero.
    assert_eq!(outcome.table.first().unwrap().at_near, Some(commnet_range::FRAC_ONE));
    assert_eq!(outcome.table.last().unwrap().at_far, Some(0));
}

#[test]
fn catalog_batch_name_clash_is_a_conflict() {
    let mut catalog = DeviceCatalog::empty();
    let d1 = DeviceDefinition::new("Twin".to_owned(), Vec::new(), 1, 1024);
    let d2 = DeviceDefinition::new("Twin".to_owned(), Vec::new(), 2, 1024);
    match catalog.load(&vec![d1, d2]) {
        Err(EngineError::CatalogConflict { key }) => assert_eq!(key, "Twin"),
        _ => panic!("expected a catalog conflict"),
    }
}

#[test]
fn combined_monotone_in_power_below_maximum() {
    let mut last: u64 = 0;
    for power in [0u64, 100, 1_000, 250_000, 500_000] {
        let mut ep = Endpoint::new();
        ep.add(DeviceDefinition::new("Small".to_owned(), Vec::new(), power, 768), 2)
            .unwrap();
        ep.add(basic(500_000, 768), 1).unwrap();
        let p = ep.combined_power();
        assert!(p >= last);
        last = p;
    }
}

#[test]
fn catalog_new_seeds_the_builtins() {
    let catalog = DeviceCatalog::new();
    let all = catalog.all();
    assert_eq!(all.len(), 11);
    assert_eq!(all[0].name, "Command Module");
    assert_eq!(all[10].name, "DSN Lv.3");
    assert_eq!(all[10].aliases, vec!["DSN".to_owned()]);
    assert_eq!(catalog.resolve(&"Pod".to_owned()).unwrap().name, "Command Module");
}
