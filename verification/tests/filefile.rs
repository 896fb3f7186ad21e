use filefile::filefile::{get_filefile_name, FilefileNames, FilefileNamesIterator};

#[test]
fn names_and_default() {
    assert_eq!(FilefileNames::YAML.as_str(), "Filefile.yaml");
    assert_eq!(FilefileNames::JSON.as_str(), "Filefile.json");
    assert_eq!(FilefileNames::TOML.as_str(), "Filefile.toml");
    assert_eq!(FilefileNames::default(), FilefileNames::YAML);
    assert_eq!(FilefileNames::default_string(), "Filefile.yaml");
}

#[test]
fn iterator_goes_through_all_names_once() {
    let mut it = FilefileNamesIterator::new();
    assert_eq!(it.next(), Some("Filefile.yaml"));
    assert_eq!(it.next(), Some("Filefile.json"));
    assert_eq!(it.next(), Some("Filefile.toml"));
    assert_eq!(it.next(), None);
    assert_eq!(it.next(), None);
}

#[test]
fn filefile_name_choice() {
    assert_eq!(get_filefile_name(Some("x.yaml".into()), &vec![]), "x.yaml");
    assert_eq!(get_filefile_name(Some("x.yaml".into()), &vec![true, false, false]), "x.yaml");
    assert_eq!(get_filefile_name(None, &vec![false, true, true]), "Filefile.json");
    assert_eq!(get_filefile_name(None, &vec![true, true, true]), "Filefile.yaml");
    assert_eq!(get_filefile_name(None, &vec![false, false, true]), "Filefile.toml");
    assert_eq!(get_filefile_name(None, &vec![false, false, true, true]), "Filefile.toml");
}
