//! Metadata records of the public underwater-acoustics datasets.
use vstd::prelude::*;

verus! {

/// Metadata describing an acoustic dataset.
#[derive(Debug, Clone)]
pub struct DatasetInfo {
    pub name: String,
    pub description: String,
    pub classes: Vec<String>,
    pub n_samples: usize,
    pub sample_rate_hz: u32,
    pub url: String,
}

/// The class labels of a record, as character sequences.
pub open spec fn class_labels(classes: Seq<String>) -> Seq<Seq<char>> {
    classes.map_values(|s: String| s@)
}

/// The ShipsEar record as the library states it.
pub open spec fn is_shipsear(info: DatasetInfo) -> bool {
    &&& info.name@ == "ShipsEar"@
    &&& info.description@ == "90 underwater noise recordings of 11 vessel categories at sea."@
    &&& class_labels(info.classes@) == seq![
        "Background"@, "Dinghy"@, "Fishboat"@, "Motorboat"@, "Mussel-boat"@, "Natural"@,
        "Oceanliner"@, "Passenger"@, "RORO"@, "Sailboat"@, "Tugboat"@,
    ]
    &&& info.n_samples == 90
    &&& info.sample_rate_hz == 52734
    &&& info.url@ == "https://underwaternoise.atlanttic.uvigo.es/"@
}

/// The DeepShip record as the library states it.
pub open spec fn is_deepship(info: DatasetInfo) -> bool {
    &&& info.name@ == "DeepShip"@
    &&& info.description@ == "47000+ 5-second segments from real vessel recordings, 4 classes."@
    &&& class_labels(info.classes@) == seq!["Cargo"@, "Passengership"@, "Tanker"@, "Tug"@]
    &&& info.n_samples == 47000
    &&& info.sample_rate_hz == 22050
    &&& info.url@ == "https://github.com/irfankamboh/DeepShip"@
}

impl DatasetInfo {
    /// Return the ShipsEar dataset metadata record.
    pub fn shipsear() -> (info: Self)
        ensures
            is_shipsear(info),
            info.classes.len() == 11,
    {
        let classes = vec![
            "Background".to_owned(),
            "Dinghy".to_owned(),
            "Fishboat".to_owned(),
            "Motorboat".to_owned(),
            "Mussel-boat".to_owned(),
            "Natural".to_owned(),
            "Oceanliner".to_owned(),
            "Passenger".to_owned(),
            "RORO".to_owned(),
            "Sailboat".to_owned(),
            "Tugboat".to_owned(),
        ];
        let info = DatasetInfo {
            name: "ShipsEar".to_owned(),
            description: "90 underwater noise recordings of 11 vessel categories at sea.".to_owned(),
            classes,
            n_samples: 90,
            sample_rate_hz: 52734,
            url: "https://underwaternoise.atlanttic.uvigo.es/".to_owned(),
        };
        assert(class_labels(info.classes@) =~= seq![
            "Background"@, "Dinghy"@, "Fishboat"@, "Motorboat"@, "Mussel-boat"@, "Natural"@,
            "Oceanliner"@, "Passenger"@, "RORO"@, "Sailboat"@, "Tugboat"@,
        ]);
        info
    }

    /// Return the DeepShip dataset metadata record.
    pub fn deepship() -> (info: Self)
        ensures
            is_deepship(info),
            info.classes.len() == 4,
    {
        let classes = vec![
            "Cargo".to_owned(),
            "Passengership".to_owned(),
            "Tanker".to_owned(),
            "Tug".to_owned(),
        ];
        let info = DatasetInfo {
            name: "DeepShip".to_owned(),
            description: "47000+ 5-second segments from real vessel recordings, 4 classes.".to_owned(),
            classes,
            n_samples: 47000,
            sample_rate_hz: 22050,
            url: "https://github.com/irfankamboh/DeepShip".to_owned(),
        };
        assert(class_labels(info.classes@) =~= seq!["Cargo"@, "Passengership"@, "Tanker"@, "Tug"@]);
        info
    }
}

/// The ShipsEar record; the data itself must be downloaded by hand.
pub fn fetch_shipsear_stub() -> (info: DatasetInfo)
    ensures
        is_shipsear(info),
{
    DatasetInfo::shipsear()
}

/// The DeepShip record; the data itself must be downloaded by hand.
pub fn fetch_deepship_stub() -> (info: DatasetInfo)
    ensures
        is_deepship(info),
{
    DatasetInfo::deepship()
}

} // verus!
