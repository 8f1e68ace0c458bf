//! Status reports and their fulfillment: the pipeline that applies a
//! requested status change to the access-point registry and then works out
//! the notification fan-out for every subscriber.

use crate::ap::find_ap;
use crate::ap::set_status_spec;
use crate::ap::AccessPointStatus;
use crate::ap::AccessPoints;
use crate::ap::APID;
use crate::errors::ApiError;
use crate::notification::attempt_spec;
use crate::notification::attempt_views_of;
use crate::notification::notify_text;
use crate::notification::Notification;
use crate::notification::NotificationService;
use crate::notification::SendAttempt;
use crate::user::strings_of;
use crate::user::subscribers_of;
use crate::user::Users;
use vstd::prelude::*;

verus! {

/// The mathematical value of a report.
pub struct ReportView {
    pub point: APID,
    pub description: Option<Seq<char>>,
    pub status_change: AccessPointStatus,
}

/// A transient intent to change one access point's status, optionally with
/// a free-text description.  Built fluently; the status defaults to
/// `NotWorking`.
pub struct Report {
    pub point: APID,
    description: Option<String>,
    status_change: AccessPointStatus,
}

impl View for Report {
    type V = ReportView;

    closed spec fn view(&self) -> ReportView {
        ReportView {
            point: self.point,
            description: match self.description {
                Some(ref d) => Some(d@),
                None => None,
            },
            status_change: self.status_change,
        }
    }
}

impl Report {
    /// A fresh report against one access point, with no description and
    /// the default status.
    pub fn new(point: APID) -> (r: Self)
        ensures
            r@ == (ReportView {
                point,
                description: None,
                status_change: AccessPointStatus::NotWorking,
            }),
    {
        Report { point, description: None, status_change: AccessPointStatus::default() }
    }

    /// The same report with a description.
    pub fn with_description(self, description: String) -> (r: Self)
        ensures
            r@ == (ReportView { description: Some(description@), ..self@ }),
    {
        Report { description: Some(description), ..self }
    }

    /// The same report with the requested status.
    pub fn with_status(self, status: AccessPointStatus) -> (r: Self)
        ensures
            r@ == (ReportView { status_change: status, ..self@ }),
    {
        Report { status_change: status, ..self }
    }

    /// The targeted access point.
    pub fn point(&self) -> (r: APID)
        ensures
            r == self@.point,
    {
        self.point
    }

    /// The requested status.
    pub fn status_change(&self) -> (r: AccessPointStatus)
        ensures
            r == self@.status_change,
    {
        self.status_change
    }

    /// The free-text description, if any.
    pub fn description(&self) -> (r: &Option<String>)
        ensures
            match r {
                Some(d) => self@.description == Some(d@),
                None => self@.description is None,
            },
    {
        &self.description
    }

    /// An equal copy.
    pub fn duplicate(&self) -> (r: Self)
        ensures
            r@ == self@,
    {
        Report {
            point: self.point,
            description: match &self.description {
                Some(d) => Some(d.clone()),
                None => None,
            },
            status_change: self.status_change,
        }
    }

    /// Fulfill the report.
    ///
    /// First the status change is applied to the registry; if the access
    /// point does not exist the whole fulfillment aborts with `NotFound`
    /// and nothing is notified.  On success, one dispatch is decided for
    /// every subscriber of the point, in registry order: each attempt
    /// carries either the fully prepared message or the reason no delivery
    /// is possible for that subscriber.  Per-subscriber failures never
    /// affect the committed status change or the other subscribers; the
    /// caller performs the actual deliveries.
    pub fn fulfill(&self, group: &mut AccessPoints, users: &Users, service: &NotificationService) -> (r:
        Result<Vec<SendAttempt>, ApiError>)
        requires
            old(group).wf(),
        ensures
            final(group).wf(),
            match r {
                Ok(attempts) => {
                    &&& find_ap(old(group)@, self@.point as nat) is Some
                    &&& final(group)@ == set_status_spec(
                        old(group)@,
                        self@.point as nat,
                        self@.status_change,
                    )
                    &&& attempt_views_of(attempts@).len() == subscribers_of(
                        users@,
                        self@.point,
                    ).len()
                    &&& forall|i: int|
                        0 <= i < attempts@.len() ==> (#[trigger] attempt_views_of(
                            attempts@,
                        )[i]).username == subscribers_of(users@, self@.point)[i]
                            && attempt_views_of(attempts@)[i].outcome == attempt_spec(
                            service@,
                            subscribers_of(users@, self@.point)[i],
                            notify_text(self@.point, self@.status_change),
                        )
                },
                Err(e) => {
                    &&& e == ApiError::NotFound
                    &&& find_ap(old(group)@, self@.point as nat) is None
                    &&& final(group)@ == old(group)@
                },
            },
    {
        match group.set_status(self.point, self.status_change) {
            Err(e) => {
                return Err(e);
            },
            Ok(()) => {},
        }
        let names = users.get_users_with_access_point(self.point);
        let notification = Notification { report: self.duplicate() };
        let message = notification.text();
        let n = names.len();
        let mut attempts: Vec<SendAttempt> = Vec::new();
        let mut i: usize = 0;
        proof {
            assert(strings_of(names@).len() == names@.len());
        }
        while i < n
            invariant
                0 <= i <= n,
                n == names@.len(),
                strings_of(names@) == subscribers_of(users@, self@.point),
                strings_of(names@).len() == names@.len(),
                message@ == notify_text(self@.point, self@.status_change),
                attempt_views_of(attempts@).len() == i,
                forall|k: int|
                    0 <= k < i ==> (#[trigger] attempt_views_of(attempts@)[k]).username
                        == subscribers_of(users@, self@.point)[k] && attempt_views_of(
                        attempts@,
                    )[k].outcome == attempt_spec(
                        service@,
                        subscribers_of(users@, self@.point)[k],
                        notify_text(self@.point, self@.status_change),
                    ),
            decreases n - i,
        {
            proof {
                assert(strings_of(names@)[i as int] == names@[i as int]@);
            }
            let username = names[i].clone();
            let outcome = service.prepare_send(&username, &message);
            let attempt = SendAttempt { username, outcome };
            let ghost av = attempt@;
            let ghost a0 = attempts@;
            attempts.push(attempt);
            proof {
                assert(attempts@ == a0.push(attempt));
                assert(attempt_views_of(a0).len() == a0.len());
                assert forall|k: int| 0 <= k < attempts@.len() implies #[trigger] attempt_views_of(
                    attempts@,
                )[k] == (if k < a0.len() {
                    attempt_views_of(a0)[k]
                } else {
                    av
                }) by {
                    assert(attempt_views_of(attempts@)[k] == attempts@[k]@);
                    if k < a0.len() {
                        assert(a0.push(attempt)[k] == a0[k]);
                        assert(attempt_views_of(a0)[k] == a0[k]@);
                    } else {
                        assert(a0.push(attempt)[k] == attempt);
                    }
                }
            }
            i = i + 1;
        }
        Ok(attempts)
    }
}

} // verus!
