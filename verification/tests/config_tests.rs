use sdr_fm::city::{current_city, list_cities, resolve_city, City, CityChoice};
use sdr_fm::stations::{
    bundled_stations, default_station, sorted_stations, stations_from_file, stations_to_save,
    validate_stations, Station,
};

#[test]
fn parses_city_aliases() {
    assert_eq!(City::parse("kyiv"), Some(City::Kyiv));
    assert_eq!(City::parse("Kiev"), Some(City::Kyiv));
    assert_eq!(City::parse("lviv"), Some(City::Lviv));
    assert_eq!(City::parse("lvov"), Some(City::Lviv));
    assert_eq!(City::parse("kharkiv"), Some(City::Kharkiv));
    assert_eq!(City::parse("odessa"), Some(City::Odesa));
    assert_eq!(City::parse("unknown"), None);
}

#[test]
fn parse_ignores_surrounding_space_and_case() {
    assert_eq!(City::parse("  KHARKOV\n"), Some(City::Kharkiv));
    assert_eq!(City::parse("\u{3000}LwOw\t"), Some(City::Lviv));
    assert_eq!(City::parse("od esa"), None);
    assert_eq!(City::parse(""), None);
    assert_eq!(City::parse("Київ"), None);
}

#[test]
fn city_ids_parse_back() {
    for city in City::all() {
        assert_eq!(City::parse(city.id()), Some(city));
        assert_eq!(City::parse(&city.id().to_ascii_uppercase()), Some(city));
    }
}

#[test]
fn city_ids_and_names() {
    assert_eq!(City::Kyiv.id(), "kyiv");
    assert_eq!(City::Odesa.display_name(), "Одеса");
    let cities = list_cities();
    assert_eq!(cities.len(), 4);
    assert_eq!(cities[2].id, "kharkiv");
    assert_eq!(cities[2].name, "Харків");
    assert_eq!(sdr_fm::city::default_city_id(), "kharkiv");
}

#[test]
fn city_resolution_order() {
    assert_eq!(
        resolve_city(Some(City::Lviv), Some(City::Odesa)),
        CityChoice::Known(City::Lviv)
    );
    assert_eq!(resolve_city(None, Some(City::Odesa)), CityChoice::Known(City::Odesa));
    assert_eq!(resolve_city(None, None), CityChoice::DetectAndSave);
    assert_eq!(sdr_fm::city::city_from_detection(None), City::Kharkiv);
    assert_eq!(sdr_fm::city::city_from_detection(Some(City::Kyiv)), City::Kyiv);
    assert_eq!(current_city(None, None), City::Kharkiv);
    assert_eq!(current_city(None, Some(City::Kyiv)), City::Kyiv);
}

#[test]
fn bundled_stations_are_valid() {
    validate_stations(&bundled_stations()).unwrap();
}

#[test]
fn bundled_stations_content() {
    let s = bundled_stations();
    assert_eq!(s.len(), 14);
    assert_eq!(s[0].id, "default-88000");
    assert_eq!(s[0].name, "Радіо Байрактар");
    assert_eq!(s[6].name, "Радіо П'ятниця");
    assert_eq!(s[13].id, "default-107900");
    assert_eq!(s[13].frequency_khz, 107_900);
}

#[test]
fn rejects_duplicate_frequency() {
    let stations = vec![
        default_station("a", "A", 101_500),
        default_station("b", "B", 101_500),
    ];
    assert!(validate_stations(&stations).is_err());
}

#[test]
fn validation_messages() {
    assert_eq!(
        validate_stations(&[]).unwrap_err(),
        "At least one station is required."
    );
    assert_eq!(
        validate_stations(&[default_station(" \t", "X", 101_500)]).unwrap_err(),
        "Station id cannot be empty."
    );
    assert_eq!(
        validate_stations(&[default_station("x", "X", 63_999)]).unwrap_err(),
        "Frequency must be between 64000 and 1080000 kHz (FM band)."
    );
    assert_eq!(
        validate_stations(&[default_station("x", "X", 1_080_001)]).unwrap_err(),
        "Frequency must be between 64000 and 1080000 kHz (FM band)."
    );
    let dup = vec![
        default_station("a", "A", 101_500),
        default_station("b", "B", 101_500),
    ];
    assert_eq!(validate_stations(&dup).unwrap_err(), "Duplicate frequency: 101.5 MHz.");
    // The first offending station decides the message.
    let mixed = vec![
        default_station("a", "A", 90_000),
        default_station("", "B", 95_000),
        default_station("c", "C", 90_000),
    ];
    assert_eq!(validate_stations(&mixed).unwrap_err(), "Station id cannot be empty.");
}

#[test]
fn duplicate_message_rounds_like_f64_formatting() {
    for khz in [64_750u32, 101_550, 88_050, 104_950, 1_080_000, 99_999, 100_049] {
        let dup = vec![default_station("a", "A", khz), default_station("b", "B", khz)];
        let expected = format!("Duplicate frequency: {:.1} MHz.", khz as f64 / 1000.0);
        assert_eq!(validate_stations(&dup).unwrap_err(), expected, "khz {khz}");
    }
}

#[test]
fn duplicate_message_matches_f64_formatting_across_band() {
    let mut khz = 64_000u32;
    while khz <= 1_080_000 {
        let dup = vec![default_station("a", "A", khz), default_station("b", "B", khz)];
        let expected = format!("Duplicate frequency: {:.1} MHz.", khz as f64 / 1000.0);
        assert_eq!(validate_stations(&dup).unwrap_err(), expected, "khz {khz}");
        khz += 50;
    }
}

#[test]
fn sorts_by_frequency() {
    let stations = sorted_stations(vec![
        default_station("high", "High", 101_500),
        default_station("low", "Low", 88_000),
    ]);
    assert_eq!(stations[0].frequency_khz, 88_000);
    assert_eq!(stations[1].frequency_khz, 101_500);
}

#[test]
fn sort_is_stable() {
    let stations = sorted_stations(vec![
        default_station("b1", "B", 95_000),
        default_station("a", "A", 90_000),
        default_station("b2", "B", 95_000),
    ]);
    let ids: Vec<&str> = stations.iter().map(|s| s.id.as_str()).collect();
    assert_eq!(ids, vec!["a", "b1", "b2"]);
}

#[test]
fn load_falls_back_to_bundled() {
    assert_eq!(stations_from_file(None).len(), 14);
    assert_eq!(stations_from_file(Some(Vec::new())).len(), 14);
    let file = vec![
        default_station("x", "X", 99_000),
        default_station("y", "Y", 91_000),
    ];
    let loaded = stations_from_file(Some(file));
    assert_eq!(loaded.len(), 2);
    assert_eq!(loaded[0].id, "y");
}

#[test]
fn save_sorts_then_validates() {
    let ok = stations_to_save(vec![
        default_station("x", "X", 99_000),
        default_station("y", "Y", 91_000),
    ])
    .unwrap();
    assert_eq!(ok[0].frequency_khz, 91_000);
    let err = stations_to_save(vec![
        default_station("x", "X", 99_000),
        default_station("", "Y", 91_000),
    ]);
    assert_eq!(err.unwrap_err(), "Station id cannot be empty.");
    let none: Vec<Station> = Vec::new();
    assert!(stations_to_save(none).is_err());
}
