use conversion_wiz::error::ConversionError;
use conversion_wiz::unit::Unit;

#[test]
fn test_unit_new_valid() {
    let u = Unit::new("Kelvin", vec!["K"], false).expect("Failed to create unit");
    assert_eq!(u.name(), "Kelvin");
    assert_eq!(u.aliases().len(), 2); // Includes the name itself as an alias
}

#[test]
fn test_unit_new_empty_name() {
    assert!(matches!(Unit::new("", vec!["K"], false), Err(ConversionError::EmptyUnitName)));
}

#[test]
fn test_unit_new_empty_alias() {
    assert!(matches!(Unit::new("Kelvin", vec![""], false), Err(ConversionError::EmptyAlias)));
}

#[test]
fn unit_name_already_among_aliases_is_not_repeated() {
    let u = Unit::new("Kelvin", vec!["Kelvin", "K"], true).unwrap();
    assert_eq!(u.aliases(), &["Kelvin".to_string(), "K".to_string()]);
    assert!(u.is_intermediate());
}

#[test]
fn unit_name_is_appended_after_aliases() {
    let u = Unit::new("Kelvin", vec!["K", "kelvins"], false).unwrap();
    assert_eq!(u.aliases(), &["K".to_string(), "kelvins".to_string(), "Kelvin".to_string()]);
    assert!(!u.is_intermediate());
}

#[test]
fn unit_empty_name_is_checked_before_aliases() {
    assert!(matches!(Unit::new("", vec![""], false), Err(ConversionError::EmptyUnitName)));
}

#[test]
fn unit_format_string_lists_aliases() {
    let u = Unit::new("Kilojoule", vec!["kJ", "kJoule"], false).unwrap();
    assert_eq!(u.format_string(), "Kilojoule (kJ, kJoule)");
    let bare = Unit::new("Meter", vec![], false).unwrap();
    assert_eq!(bare.format_string(), "Meter");
    let named = Unit::new("Meter", vec!["Meter"], false).unwrap();
    assert_eq!(named.format_string(), "Meter");
    let middle = Unit::new("Kelvin", vec!["K", "Kelvin", "kelvins"], false).unwrap();
    assert_eq!(middle.format_string(), "Kelvin (K, kelvins)");
}

#[test]
fn error_messages() {
    assert_eq!(ConversionError::EmptyUnitName.message(), "Unit name cannot be empty");
    assert_eq!(ConversionError::EmptyAlias.message(), "Unit alias cannot be empty");
    assert_eq!(
        ConversionError::DuplicateUnit("Kelvin".to_string()).message(),
        "Unit Kelvin already exists"
    );
    assert_eq!(ConversionError::DuplicateAlias("K".to_string()).message(), "Alias K already exists");
    assert_eq!(ConversionError::UnitNotFound("X".to_string()).message(), "Cannot find unit X");
    assert_eq!(ConversionError::ConversionRateZero.message(), "Conversion rate cannot be 0");
    assert_eq!(
        ConversionError::ConversionRateBothValues.message(),
        "One of the conversion rates must be unchaged (1 for scale, 0 for offset)"
    );
    assert_eq!(
        ConversionError::ConversionPathNotFound("A".to_string(), "C".to_string()).message(),
        "No conversion path found from 'A' to 'C'"
    );
    assert_eq!(
        ConversionError::MissingConversionFactor.message(),
        "Conversion factor missing in the graph"
    );
}
