use access_point_api::ap::AccessPoint;
use access_point_api::ap::AccessPointStatus;
use access_point_api::ap::AccessPointType;
use access_point_api::ap::AccessPoints;
use access_point_api::ap::Location;
use access_point_api::ap::RawAccessPointType;
use access_point_api::user::Users;

#[test]
fn empty_registry_saves_as_empty_object() {
    let aps = AccessPoints::new();
    assert_eq!(aps.save(), "{}");
    assert_eq!(Users::new().save(), "{}");
}

#[test]
fn one_record_saves_in_canonical_shape() {
    let mut aps = AccessPoints::new();
    aps.add_access_point(
        AccessPoint::from_lat_long(51500000, -120000).with_name("Lift".to_string()).with_status(
            AccessPointStatus::Working,
        ),
    );
    assert_eq!(
        aps.save(),
        "{\"0\":{\"name\":\"Lift\",\"kind\":\"\",\"lat\":51500000,\"long\":-120000,\"status\":\"Working\"}}"
    );
}

#[test]
fn access_points_round_trip_through_save_and_load() {
    let mut aps = AccessPoints::new();
    aps.add_access_point(
        AccessPoint::from_lat_long(51500000, -120000)
            .with_name("Main lift".to_string())
            .with_type(AccessPointType::new(RawAccessPointType::Wheelchair))
            .with_status(AccessPointStatus::InRepair),
    );
    aps.add_access_point(
        AccessPoint::from_lat_long(-1500000, 33000033)
            .with_type(AccessPointType::new(RawAccessPointType::Any("Ramp".to_string()))),
    );
    let doc = aps.save();
    let loaded = AccessPoints::load(&doc);
    assert_eq!(loaded.save(), doc);
    let a = loaded.get_ap(0).unwrap();
    assert_eq!(a.name(), "Main lift");
    assert_eq!(a.kind().label(), "Wheelchair");
    assert_eq!(a.status(), AccessPointStatus::InRepair);
    assert_eq!(a.location(), Location { lat_micro: 51500000, long_micro: -120000 });
    let b = loaded.get_ap(1).unwrap();
    assert_eq!(b.kind().label(), "Ramp");
    assert_eq!(b.status(), AccessPointStatus::NotWorking);
}

#[test]
fn names_with_quotes_and_escapes_round_trip() {
    let mut aps = AccessPoints::new();
    aps.add_access_point(
        AccessPoint::from_lat_long(0, 0).with_name("a\"b\\c\nd\te\r".to_string()),
    );
    let doc = aps.save();
    let loaded = AccessPoints::load(&doc);
    assert_eq!(loaded.get_ap(0).unwrap().name(), "a\"b\\c\nd\te\r");
    assert_eq!(loaded.save(), doc);
}

#[test]
fn refused_documents_load_as_empty_registries() {
    assert!(AccessPoints::load("").list().is_empty());
    assert!(AccessPoints::load("not json").list().is_empty());
    assert!(AccessPoints::load("{").list().is_empty());
    assert!(AccessPoints::load("{}garbage").list().is_empty());
    // a well-shaped object whose keys are out of order is refused too
    let disordered = "{\"1\":{\"name\":\"a\",\"kind\":\"\",\"lat\":0,\"long\":0,\"status\":\"Working\"},\"0\":{\"name\":\"b\",\"kind\":\"\",\"lat\":0,\"long\":0,\"status\":\"Working\"}}";
    assert!(AccessPoints::load(disordered).list().is_empty());
}

#[test]
fn loading_a_written_document_by_hand_matches_the_builder() {
    let doc = "{\"0\":{\"name\":\"Desk\",\"kind\":\"Interpreter\",\"lat\":-5,\"long\":1000000,\"status\":\"NotWorking\"}}";
    let loaded = AccessPoints::load(doc);
    let a = loaded.get_ap(0).unwrap();
    assert_eq!(a.name(), "Desk");
    assert_eq!(a.kind().describe(), "Language interpreter");
    assert_eq!(a.location(), Location { lat_micro: -5, long_micro: 1000000 });
    assert_eq!(loaded.save(), doc);
}

#[test]
fn users_round_trip_through_save_and_load() {
    let mut users = Users::new();
    users.create("alice".to_string(), "pw123".to_string()).unwrap();
    users.create("bob \"the builder\"".to_string(), "pw".to_string()).unwrap();
    users.add_access_point(&"alice".to_string(), 2).unwrap();
    users.add_access_point(&"alice".to_string(), 0).unwrap();
    let doc = users.save();
    let loaded = Users::load(&doc);
    assert_eq!(loaded.save(), doc);
    let alice = loaded.get("alice".to_string()).unwrap();
    assert_eq!(alice.access_points(), &vec![0, 2]);
    assert_eq!(
        alice.password_hash(),
        users.get("alice".to_string()).unwrap().password_hash()
    );
    assert!(loaded.get("bob \"the builder\"".to_string()).is_some());
}

#[test]
fn refused_user_documents_load_as_empty_registries() {
    assert!(Users::load("").get_users_with_access_point(0).is_empty());
    assert!(Users::load("{\"a\":{}}").get("a".to_string()).is_none());
    // duplicate usernames are refused
    let dup = "{\"a\":{\"password\":\"x\",\"access_points\":[]},\"a\":{\"password\":\"y\",\"access_points\":[]}}";
    assert!(Users::load(dup).get("a".to_string()).is_none());
    // an unsorted subscription set is refused
    let unsorted = "{\"a\":{\"password\":\"x\",\"access_points\":[3,1]}}";
    assert!(Users::load(unsorted).get("a".to_string()).is_none());
}

#[test]
fn user_document_has_canonical_shape() {
    let mut users = Users::new();
    let u = users.create("alice".to_string(), "pw".to_string()).unwrap();
    users.add_access_point(&"alice".to_string(), 4).unwrap();
    let expected = format!(
        "{{\"alice\":{{\"password\":\"{}\",\"access_points\":[4]}}}}",
        u.password_hash()
    );
    assert_eq!(users.save(), expected);
}

#[test]
fn out_of_range_numbers_are_refused() {
    // an identifier key too large for the machine
    let huge_id = "{\"99999999999999999999\":{\"name\":\"a\",\"kind\":\"\",\"lat\":0,\"long\":0,\"status\":\"Working\"}}";
    assert!(AccessPoints::load(huge_id).list().is_empty());
    // a coordinate outside the signed 64-bit range
    let huge_lat = "{\"0\":{\"name\":\"a\",\"kind\":\"\",\"lat\":99999999999999999999,\"long\":0,\"status\":\"Working\"}}";
    assert!(AccessPoints::load(huge_lat).list().is_empty());
    // an unknown status keyword
    let bad_status = "{\"0\":{\"name\":\"a\",\"kind\":\"\",\"lat\":0,\"long\":0,\"status\":\"Broken\"}}";
    assert!(AccessPoints::load(bad_status).list().is_empty());
}

#[test]
fn extreme_coordinates_round_trip() {
    let mut aps = AccessPoints::new();
    aps.add_access_point(AccessPoint::from_lat_long(i64::MAX, i64::MIN));
    let doc = aps.save();
    let loaded = AccessPoints::load(&doc);
    assert_eq!(
        loaded.get_ap(0).unwrap().location(),
        Location { lat_micro: i64::MAX, long_micro: i64::MIN }
    );
    assert_eq!(loaded.save(), doc);
}
