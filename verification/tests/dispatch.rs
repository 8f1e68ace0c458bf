use access_point_api::ap::AccessPoint;
use access_point_api::ap::AccessPointStatus;
use access_point_api::ap::AccessPoints;
use access_point_api::errors::ApiError;
use access_point_api::notification::Notification;
use access_point_api::notification::NotificationService;
use access_point_api::notification::PushSubscription;
use access_point_api::report::Report;
use access_point_api::user::Users;

fn sample_subscription(tag: &str) -> PushSubscription {
    PushSubscription {
        endpoint: format!("https://push.example/{tag}"),
        p256dh: format!("p256dh-{tag}"),
        auth: format!("auth-{tag}"),
    }
}

#[test]
fn send_without_registration_reports_no_subscription() {
    let svc = NotificationService::new();
    let r = svc.prepare_send(&"alice".to_string(), &"hello".to_string());
    assert_eq!(r, Err(ApiError::NoSubscription));
}

#[test]
fn send_without_signing_key_reports_delivery_error() {
    let mut svc = NotificationService::new();
    svc.register_subscription("alice".to_string(), sample_subscription("a"));
    let r = svc.prepare_send(&"alice".to_string(), &"hello".to_string());
    assert_eq!(r, Err(ApiError::DeliveryError));
}

#[test]
fn send_prepares_the_full_message() {
    let mut svc = NotificationService::new();
    svc.set_vapid("SECRET-REDACTED".to_string());
    svc.register_subscription("alice".to_string(), sample_subscription("a"));
    let p = svc.prepare_send(&"alice".to_string(), &"hello".to_string()).unwrap();
    assert_eq!(p.endpoint, "https://push.example/a");
    assert_eq!(p.p256dh, "p256dh-a");
    assert_eq!(p.auth, "auth-a");
    assert_eq!(p.vapid, "SECRET-REDACTED");
    assert_eq!(p.payload, "hello");
}

#[test]
fn registration_overwrites_the_previous_target() {
    let mut svc = NotificationService::new();
    svc.set_vapid("SECRET-REDACTED".to_string());
    svc.register_subscription("alice".to_string(), sample_subscription("old"));
    svc.register_subscription("alice".to_string(), sample_subscription("new"));
    let p = svc.prepare_send(&"alice".to_string(), &"hi".to_string()).unwrap();
    assert_eq!(p.endpoint, "https://push.example/new");
}

#[test]
fn notification_text_names_the_point_and_status() {
    let n = Notification { report: Report::new(12).with_status(AccessPointStatus::InRepair) };
    assert_eq!(n.text(), "Access point 12 is being repaired!");
    let n = Notification { report: Report::new(0) };
    assert_eq!(n.text(), "Access point 0 is not currently operational.");
}

#[test]
fn fulfillment_prepares_one_send_per_subscriber() {
    let mut aps = AccessPoints::new();
    let mut users = Users::new();
    let mut svc = NotificationService::new();
    svc.set_vapid("SECRET-REDACTED".to_string());

    aps.add_access_point(AccessPoint::from_lat_long(1, 1));
    users.create("alice".to_string(), "pw".to_string()).unwrap();
    users.create("bob".to_string(), "pw".to_string()).unwrap();
    users.add_access_point(&"alice".to_string(), 0).unwrap();
    users.add_access_point(&"bob".to_string(), 0).unwrap();
    svc.register_subscription("bob".to_string(), sample_subscription("b"));

    let attempts = Report::new(0)
        .with_status(AccessPointStatus::Working)
        .fulfill(&mut aps, &users, &svc)
        .unwrap();
    assert_eq!(aps.get_ap(0).unwrap().status(), AccessPointStatus::Working);
    assert_eq!(attempts.len(), 2);

    let alice = attempts.iter().find(|a| a.username == "alice").unwrap();
    assert_eq!(alice.outcome, Err(ApiError::NoSubscription));

    let bob = attempts.iter().find(|a| a.username == "bob").unwrap();
    let prepared = bob.outcome.as_ref().unwrap();
    assert_eq!(prepared.endpoint, "https://push.example/b");
    assert_eq!(prepared.payload, "Access point 0 is in working order!");
}
