use range_io::grib::{
    abbrev_to_product, Center, CenterAndTableVersions, MasterTableVersion, MeteorologicalCategory,
    Product, TemperatureParameter,
};
use range_io::primes::is_prime;

fn ncep() -> CenterAndTableVersions {
    CenterAndTableVersions {
        center: Center::NCEP,
        local_table_version: 1,
        master_table_version: MasterTableVersion::V32,
    }
}

fn temperature(p: TemperatureParameter) -> Product {
    Product::Meteorological(MeteorologicalCategory::Temperature(p))
}

#[test]
fn product_from_master_numbers() {
    assert_eq!(
        Product::from_discipline_and_category_and_parameter_numbers(0, 0, 0, ncep()),
        Some(temperature(TemperatureParameter::Temperature))
    );
    assert_eq!(
        Product::from_discipline_and_category_and_parameter_numbers(0, 0, 8, ncep()),
        Some(temperature(TemperatureParameter::LapseRate))
    );
    assert_eq!(Product::from_discipline_and_category_and_parameter_numbers(0, 0, 9, ncep()), None);
    assert_eq!(Product::from_discipline_and_category_and_parameter_numbers(0, 1, 0, ncep()), None);
    assert_eq!(Product::from_discipline_and_category_and_parameter_numbers(1, 0, 0, ncep()), None);
}

#[test]
fn product_from_local_parameter_numbers() {
    assert_eq!(
        Product::from_discipline_and_category_and_parameter_numbers(0, 0, 192, ncep()),
        Some(temperature(TemperatureParameter::NcepSnowPhaseChangeHeatFlux))
    );
    assert_eq!(
        Product::from_discipline_and_category_and_parameter_numbers(0, 0, 193, ncep()),
        Some(temperature(TemperatureParameter::NcepTemperatureTendencyByAllRadiation))
    );
    assert_eq!(Product::from_discipline_and_category_and_parameter_numbers(0, 0, 194, ncep()), None);
}

#[test]
fn product_local_and_missing_disciplines() {
    assert_eq!(Product::from_discipline_and_category_and_parameter_numbers(192, 0, 0, ncep()), None);
    assert_eq!(Product::from_discipline_and_category_and_parameter_numbers(254, 0, 0, ncep()), None);
    assert_eq!(Product::from_discipline_and_category_and_parameter_numbers(255, 0, 0, ncep()), None);
}

#[test]
fn abbreviations_resolve_to_products() {
    assert_eq!(abbrev_to_product("TMP", &ncep()), Some(temperature(TemperatureParameter::Temperature)));
    assert_eq!(abbrev_to_product("DEPR", &ncep()), Some(temperature(TemperatureParameter::DewPointDepression)));
    assert_eq!(
        abbrev_to_product("TTRAD", &ncep()),
        Some(temperature(TemperatureParameter::NcepTemperatureTendencyByAllRadiation))
    );
    assert_eq!(abbrev_to_product("TM", &ncep()), None);
    assert_eq!(abbrev_to_product("TMPX", &ncep()), None);
    assert_eq!(abbrev_to_product("", &ncep()), None);
}

#[test]
fn parameter_descriptions() {
    let p = TemperatureParameter::from_parameter_num(1, ncep()).unwrap();
    assert_eq!(p.abbrev(), "VTMP");
    assert_eq!(p.name(), "Virtual temperature");
    assert_eq!(p.unit(), "K");
    assert_eq!(TemperatureParameter::LapseRate.unit(), "K m-1");
}

#[test]
fn primes_by_trial_division() {
    assert!(!is_prime(0));
    assert!(!is_prime(1));
    assert!(is_prime(2));
    assert!(is_prime(3));
    assert!(!is_prime(4));
    assert!(is_prime(97));
    assert!(!is_prime(91));
    let count = (0..100).filter(|n| is_prime(*n)).count();
    assert_eq!(count, 25);
}
