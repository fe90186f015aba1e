use varuna::dataset::{fetch_deepship_stub, fetch_shipsear_stub, DatasetInfo};

#[test]
fn test_shipsear_metadata() {
    let info = DatasetInfo::shipsear();
    assert_eq!(info.name, "ShipsEar");
    assert_eq!(info.classes.len(), 11);
}

#[test]
fn test_deepship_metadata() {
    let info = DatasetInfo::deepship();
    assert_eq!(info.name, "DeepShip");
    assert_eq!(info.classes.len(), 4);
}

#[test]
fn shipsear_record_fields() {
    let info = fetch_shipsear_stub();
    assert_eq!(info.n_samples, 90);
    assert_eq!(info.sample_rate_hz, 52734);
    assert_eq!(info.classes[0], "Background");
    assert_eq!(info.classes[10], "Tugboat");
    assert_eq!(info.url, "https://underwaternoise.atlanttic.uvigo.es/");
}

#[test]
fn deepship_record_fields() {
    let info = fetch_deepship_stub();
    assert_eq!(info.n_samples, 47000);
    assert_eq!(info.sample_rate_hz, 22050);
    assert_eq!(info.classes, vec!["Cargo", "Passengership", "Tanker", "Tug"]);
    assert_eq!(info.url, "https://github.com/irfankamboh/DeepShip");
}
