use access_point_api::ap::AccessPoint;
use access_point_api::ap::AccessPointStatus;
use access_point_api::ap::AccessPointType;
use access_point_api::ap::AccessPoints;
use access_point_api::ap::Location;
use access_point_api::ap::RawAccessPointType;
use access_point_api::errors::ApiError;
use access_point_api::notification::NotificationService;
use access_point_api::report::Report;
use access_point_api::user::Users;

#[test]
fn create_assigns_contiguous_ids_from_zero() {
    let mut aps = AccessPoints::new();
    let a = aps.add_access_point(AccessPoint::from_lat_long(1, 2));
    let b = aps.add_access_point(AccessPoint::from_lat_long(3, 4));
    let c = aps.add_access_point(AccessPoint::from_lat_long(5, 6));
    assert_eq!(a.id(), Some(0));
    assert_eq!(b.id(), Some(1));
    assert_eq!(c.id(), Some(2));
    assert_eq!(aps.list().len(), 3);
}

#[test]
fn get_returns_stored_copy() {
    let mut aps = AccessPoints::new();
    aps.add_access_point(
        AccessPoint::from_lat_long(51500000, -120000).with_name("Lift".to_string()),
    );
    let got = aps.get_ap(0).expect("id 0 must exist");
    assert_eq!(got.name(), "Lift");
    assert_eq!(got.location(), Location { lat_micro: 51500000, long_micro: -120000 });
    assert_eq!(got.status(), AccessPointStatus::NotWorking);
    assert!(aps.get_ap(1).is_none());
}

#[test]
fn set_status_then_get_observes_new_status() {
    let mut aps = AccessPoints::new();
    aps.add_access_point(AccessPoint::from_lat_long(0, 0));
    assert!(aps.set_status(0, AccessPointStatus::Working).is_ok());
    let got = aps.get_ap(0).unwrap();
    assert_eq!(got.status(), AccessPointStatus::Working);
    assert_eq!(got.nice_status, "in working order!");
}

#[test]
fn set_status_on_missing_id_fails_not_found_and_changes_nothing() {
    let mut aps = AccessPoints::new();
    aps.add_access_point(AccessPoint::from_lat_long(7, 8));
    let before = aps.save();
    let r = aps.set_status(5, AccessPointStatus::Working);
    assert_eq!(r, Err(ApiError::NotFound));
    assert_eq!(aps.save(), before);
}

#[test]
fn default_name_renders_coordinates() {
    let ap = AccessPoint::from_lat_long(51500000, -120000);
    assert_eq!(ap.name(), "Access point at 51.5, -0.12");
    let origin = AccessPoint::from_lat_long(0, 0);
    assert_eq!(origin.name(), "Access point at 0, 0");
    let south = AccessPoint::from_lat_long(-1500000, 33000033);
    assert_eq!(south.name(), "Access point at -1.5, 33.000033");
}

#[test]
fn kind_normalization_collapses_known_labels() {
    let k = AccessPointType::new(RawAccessPointType::Any("Wheelchair".to_string()));
    assert_eq!(k.label(), "Wheelchair");
    assert_eq!(k.describe(), "Wheelchair service");
    let open = AccessPointType::new(RawAccessPointType::Any("Ramp".to_string()));
    assert_eq!(open.label(), "Ramp");
    assert_eq!(open.describe(), "Ramp");
    let blank = AccessPointType::new(RawAccessPointType::Any(String::new()));
    assert_eq!(blank.describe(), "Miscellaneous");
    let interp = AccessPointType::new(RawAccessPointType::Any("Interpreter".to_string()));
    assert_eq!(interp.describe(), "Language interpreter");
}

#[test]
fn status_display_phrases() {
    assert_eq!(AccessPointStatus::Working.describe(), "in working order!");
    assert_eq!(AccessPointStatus::InRepair.describe(), "being repaired!");
    assert_eq!(AccessPointStatus::NotWorking.describe(), "not currently operational.");
}

#[test]
fn user_create_hashes_password() {
    let mut users = Users::new();
    let u = users.create("alice".to_string(), "pw123".to_string()).expect("create");
    assert_eq!(u.username(), "alice");
    let hash = u.password_hash().clone();
    assert_eq!(hash.len(), 60);
    assert!(hash.starts_with("$2"));
    assert_ne!(hash, "pw123");
    let stored = users.get("alice".to_string()).unwrap();
    assert_eq!(stored.password_hash(), &hash);
}

#[test]
fn duplicate_username_conflicts_and_keeps_stored_record() {
    let mut users = Users::new();
    let first = users.create("alice".to_string(), "pw123".to_string()).expect("create");
    let first_hash = first.password_hash().clone();
    let second = users.create("alice".to_string(), "other".to_string());
    assert!(matches!(second, Err(ApiError::Conflict)));
    let stored = users.get("alice".to_string()).unwrap();
    assert_eq!(stored.password_hash(), &first_hash);
}

#[test]
fn subscribe_unknown_user_fails_not_found() {
    let mut users = Users::new();
    let r = users.add_access_point(&"ghost".to_string(), 0);
    assert_eq!(r, Err(ApiError::NotFound));
}

#[test]
fn subscribe_is_idempotent_and_kept_sorted() {
    let mut users = Users::new();
    users.create("alice".to_string(), "pw".to_string()).unwrap();
    users.add_access_point(&"alice".to_string(), 3).unwrap();
    users.add_access_point(&"alice".to_string(), 1).unwrap();
    users.add_access_point(&"alice".to_string(), 3).unwrap();
    let u = users.get("alice".to_string()).unwrap();
    assert_eq!(u.access_points(), &vec![1, 3]);
}

#[test]
fn subscribers_of_is_exact_whatever_the_insertion_order() {
    let mut users = Users::new();
    users.create("carol".to_string(), "pw".to_string()).unwrap();
    users.create("alice".to_string(), "pw".to_string()).unwrap();
    users.create("bob".to_string(), "pw".to_string()).unwrap();
    users.add_access_point(&"bob".to_string(), 7).unwrap();
    users.add_access_point(&"alice".to_string(), 7).unwrap();
    users.add_access_point(&"carol".to_string(), 2).unwrap();
    let mut subs = users.get_users_with_access_point(7);
    subs.sort();
    assert_eq!(subs, vec!["alice".to_string(), "bob".to_string()]);
    assert_eq!(users.get_users_with_access_point(2), vec!["carol".to_string()]);
    assert!(users.get_users_with_access_point(9).is_empty());
}

#[test]
fn report_scenario_end_to_end() {
    let mut aps = AccessPoints::new();
    let mut users = Users::new();
    let svc = NotificationService::new();

    let created = aps.add_access_point(AccessPoint::from_lat_long(51500000, -120000));
    assert_eq!(created.id(), Some(0));
    assert_eq!(aps.get_ap(0).unwrap().status(), AccessPointStatus::NotWorking);

    let outcome = Report::new(0)
        .with_status(AccessPointStatus::NotWorking)
        .fulfill(&mut aps, &users, &svc)
        .expect("fulfillment succeeds");
    assert!(outcome.is_empty());
    assert_eq!(aps.get_ap(0).unwrap().status(), AccessPointStatus::NotWorking);

    users.create("alice".to_string(), "pw123".to_string()).expect("create alice");
    let again = users.create("alice".to_string(), "pw123".to_string());
    assert!(matches!(again, Err(ApiError::Conflict)));

    users.add_access_point(&"alice".to_string(), 0).unwrap();
    assert_eq!(users.get_users_with_access_point(0), vec!["alice".to_string()]);

    let attempts = Report::new(0)
        .with_status(AccessPointStatus::NotWorking)
        .fulfill(&mut aps, &users, &svc)
        .expect("fulfillment still succeeds");
    assert_eq!(attempts.len(), 1);
    assert_eq!(attempts[0].username, "alice");
    assert_eq!(attempts[0].outcome, Err(ApiError::NoSubscription));
}

#[test]
fn fulfill_on_missing_point_aborts_with_not_found() {
    let mut aps = AccessPoints::new();
    let users = Users::new();
    let svc = NotificationService::new();
    let r = Report::new(9)
        .with_description("stuck door".to_string())
        .fulfill(&mut aps, &users, &svc);
    assert!(matches!(r, Err(ApiError::NotFound)));
    assert!(aps.list().is_empty());
}

#[test]
fn report_builder_defaults_and_overrides() {
    let r = Report::new(4);
    assert_eq!(r.point(), 4);
    assert_eq!(r.status_change(), AccessPointStatus::NotWorking);
    assert!(r.description().is_none());
    let r = r.with_status(AccessPointStatus::InRepair).with_description("note".to_string());
    assert_eq!(r.status_change(), AccessPointStatus::InRepair);
    assert_eq!(r.description().as_deref(), Some("note"));
}
