//! Push-notification dispatch: who is notified, with what payload, to which
//! endpoint, under which keys.
//!
//! The service owns the registered delivery targets and the process-wide
//! signing key, and decides every dispatch.  What it hands out is a fully
//! prepared message — endpoint, client keys, signing key and payload; the
//! caller performs the encryption and the network transport, which are
//! best-effort and outside the verified core.

use crate::ap::status_text;
use crate::ap::AccessPointStatus;
use crate::errors::ApiError;
use crate::report::Report;
use crate::text::nat_digits;
use crate::text::push_nat;
use vstd::prelude::*;

verus! {

/// The mathematical value of a registered delivery target.
pub struct PushSubscriptionView {
    pub endpoint: Seq<char>,
    pub p256dh: Seq<char>,
    pub auth: Seq<char>,
}

/// A delivery target as a client's push agent supplies it: the endpoint URL
/// and the client's key material.
#[derive(Debug)]
pub struct PushSubscription {
    pub endpoint: String,
    pub p256dh: String,
    pub auth: String,
}

impl View for PushSubscription {
    type V = PushSubscriptionView;

    open spec fn view(&self) -> PushSubscriptionView {
        PushSubscriptionView {
            endpoint: self.endpoint@,
            p256dh: self.p256dh@,
            auth: self.auth@,
        }
    }
}

impl PushSubscription {
    /// An equal copy.
    pub fn duplicate(&self) -> (r: Self)
        ensures
            r@ == self@,
    {
        PushSubscription {
            endpoint: self.endpoint.clone(),
            p256dh: self.p256dh.clone(),
            auth: self.auth.clone(),
        }
    }
}

/// The mathematical value of one prepared message.
pub struct PreparedSendView {
    pub endpoint: Seq<char>,
    pub p256dh: Seq<char>,
    pub auth: Seq<char>,
    pub vapid: Seq<char>,
    pub payload: Seq<char>,
}

/// Everything one delivery needs: the registered endpoint and client keys,
/// the process signing key, and the message text to encrypt.
#[derive(Debug, PartialEq, Eq)]
pub struct PreparedSend {
    pub endpoint: String,
    pub p256dh: String,
    pub auth: String,
    pub vapid: String,
    pub payload: String,
}

impl View for PreparedSend {
    type V = PreparedSendView;

    open spec fn view(&self) -> PreparedSendView {
        PreparedSendView {
            endpoint: self.endpoint@,
            p256dh: self.p256dh@,
            auth: self.auth@,
            vapid: self.vapid@,
            payload: self.payload@,
        }
    }
}

/// The mathematical value of one registered target entry.
pub struct SubEntryView {
    pub username: Seq<char>,
    pub sub: PushSubscriptionView,
}

/// One registered target: a username and where to reach it.
#[derive(Debug)]
struct SubEntry {
    username: String,
    sub: PushSubscription,
}

impl View for SubEntry {
    type V = SubEntryView;

    closed spec fn view(&self) -> SubEntryView {
        SubEntryView { username: self.username@, sub: self.sub@ }
    }
}

/// The mathematical value of the dispatch service.
pub struct ServiceView {
    pub subs: Seq<SubEntryView>,
    pub vapid: Option<Seq<char>>,
}

/// The views of a sequence of entries.
pub open spec fn entry_views_of(s: Seq<SubEntry>) -> Seq<SubEntryView> {
    s.map(|i: int, e: SubEntry| e@)
}

/// The target registered for `username`, if any.
pub open spec fn find_sub(s: Seq<SubEntryView>, username: Seq<char>) -> Option<
    PushSubscriptionView,
>
    decreases s.len(),
{
    if s.len() == 0 {
        None
    } else if s[0].username == username {
        Some(s[0].sub)
    } else {
        find_sub(s.drop_first(), username)
    }
}

/// Usernames of registered targets are pairwise distinct.
pub open spec fn wf_svc(s: Seq<SubEntryView>) -> bool {
    forall|i: int, j: int|
        0 <= i < j < s.len() ==> (#[trigger] s[i]).username != (#[trigger] s[j]).username
}

/// The state after registering a target: the entry for the username is
/// overwritten when present, appended when not.
pub open spec fn register_spec(
    s: Seq<SubEntryView>,
    username: Seq<char>,
    sub: PushSubscriptionView,
) -> Seq<SubEntryView> {
    if find_sub(s, username) is Some {
        Seq::new(
            s.len(),
            |i: int|
                if s[i].username == username {
                    SubEntryView { username, sub }
                } else {
                    s[i]
                },
        )
    } else {
        s.push(SubEntryView { username, sub })
    }
}

/// What one dispatch decision yields: the prepared message, or why there is
/// nothing to deliver.  Without a registered target the user cannot be
/// reached (`NoSubscription`); without the signing key nothing can be
/// signed, so delivery fails up front (`DeliveryError`).
pub open spec fn attempt_spec(
    svc: ServiceView,
    username: Seq<char>,
    message: Seq<char>,
) -> Result<PreparedSendView, ApiError> {
    match find_sub(svc.subs, username) {
        None => Err(ApiError::NoSubscription),
        Some(sub) => match svc.vapid {
            None => Err(ApiError::DeliveryError),
            Some(key) => Ok(
                PreparedSendView {
                    endpoint: sub.endpoint,
                    p256dh: sub.p256dh,
                    auth: sub.auth,
                    vapid: key,
                    payload: message,
                },
            ),
        },
    }
}

/// The notification dispatcher: the registered delivery targets and the
/// process-wide signing key, loaded once at startup.
#[derive(Debug)]
pub struct NotificationService {
    subs: Vec<SubEntry>,
    vapid: Option<String>,
}

impl View for NotificationService {
    type V = ServiceView;

    closed spec fn view(&self) -> ServiceView {
        ServiceView {
            subs: entry_views_of(self.subs@),
            vapid: match self.vapid {
                Some(ref k) => Some(k@),
                None => None,
            },
        }
    }
}

impl NotificationService {
    /// Well-formedness of the registered targets.
    pub open spec fn wf(&self) -> bool {
        wf_svc(self@.subs)
    }

    /// A fresh service: no registered target, no signing key.
    pub fn new() -> (r: Self)
        ensures
            r@.subs == Seq::<SubEntryView>::empty(),
            r@.vapid is None,
            r.wf(),
    {
        let r = NotificationService { subs: Vec::new(), vapid: None };
        proof {
            assert(r@.subs =~= Seq::<SubEntryView>::empty());
        }
        r
    }

    /// Install the process signing key, read from the secret file at
    /// startup.  Until it is set, every dispatch fails with
    /// `DeliveryError`.
    pub fn set_vapid(&mut self, key: String)
        ensures
            final(self)@.vapid == Some(key@),
            final(self)@.subs == old(self)@.subs,
    {
        self.vapid = Some(key);
    }

    /// Store or overwrite the delivery target for a user.
    pub fn register_subscription(&mut self, username: String, sub: PushSubscription) -> (r:
        ())
        requires
            old(self).wf(),
        ensures
            final(self)@.subs == register_spec(old(self)@.subs, username@, sub@),
            final(self)@.vapid == old(self)@.vapid,
            final(self).wf(),
    {
        let n = self.subs.len();
        let mut i: usize = 0;
        proof {
            assert(self@.subs.skip(0) =~= self@.subs);
        }
        while i < n
            invariant
                0 <= i <= n,
                n == self.subs.len(),
                self == old(self),
                old(self).wf(),
                find_sub(old(self)@.subs, username@) == find_sub(
                    self@.subs.skip(i as int),
                    username@,
                ),
                forall|j: int|
                    0 <= j < i ==> (#[trigger] self@.subs[j]).username != username@,
            decreases n - i,
        {
            proof {
                assert(self@.subs.skip(i as int)[0] == self@.subs[i as int]);
                assert(entry_views_of(self.subs@)[i as int] == self.subs@[i as int]@);
            }
            if self.subs[i].username.eq(&username) {
                let ghost s0 = self@.subs;
                let entry = SubEntry { username, sub };
                let ghost ev = entry@;
                let _ = self.subs.remove(i);
                self.subs.insert(i, entry);
                proof {
                    assert(self.subs@ =~= old(self).subs@.update(i as int, entry));
                    assert forall|q: int|
                        0 <= q < final(self)@.subs.len() implies #[trigger] final(self)@.subs[q]
                        == register_spec(s0, ev.username, ev.sub)[q] by {
                        assert(entry_views_of(self.subs@)[q] == self.subs@[q]@);
                        if q != i {
                            assert(self.subs@[q] == old(self).subs@[q]);
                            assert(entry_views_of(old(self).subs@)[q] == old(
                                self,
                            ).subs@[q]@);
                            if q > i {
                                assert(s0[i as int].username != s0[q].username);
                            }
                        }
                    }
                    assert(final(self)@.subs =~= register_spec(s0, ev.username, ev.sub));
                }
                return ;
            }
            proof {
                assert(self@.subs.skip(i as int).drop_first() =~= self@.subs.skip(
                    i + 1 as int,
                ));
            }
            i = i + 1;
        }
        proof {
            assert(self@.subs.skip(n as int).len() == 0);
        }
        let entry = SubEntry { username, sub };
        let ghost ev = entry@;
        self.subs.push(entry);
        proof {
            assert(final(self)@.subs =~= old(self)@.subs.push(ev));
        }
    }

    /// Decide one dispatch: the fully prepared message for this user and
    /// text, or exactly why nothing can be delivered.
    pub fn prepare_send(&self, username: &String, message: &String) -> (r: Result<
        PreparedSend,
        ApiError,
    >)
        ensures
            match r {
                Ok(p) => attempt_spec(self@, username@, message@) == Ok::<
                    PreparedSendView,
                    ApiError,
                >(p@),
                Err(e) => attempt_spec(self@, username@, message@) == Err::<
                    PreparedSendView,
                    ApiError,
                >(e),
            },
    {
        let n = self.subs.len();
        let mut i: usize = 0;
        proof {
            assert(self@.subs.skip(0) =~= self@.subs);
        }
        while i < n
            invariant
                0 <= i <= n,
                n == self.subs.len(),
                find_sub(self@.subs, username@) == find_sub(
                    self@.subs.skip(i as int),
                    username@,
                ),
            decreases n - i,
        {
            proof {
                assert(self@.subs.skip(i as int)[0] == self@.subs[i as int]);
                assert(entry_views_of(self.subs@)[i as int] == self.subs@[i as int]@);
            }
            if self.subs[i].username.eq(username) {
                match &self.vapid {
                    None => {
                        return Err(ApiError::DeliveryError);
                    },
                    Some(key) => {
                        let target = &self.subs[i].sub;
                        return Ok(
                            PreparedSend {
                                endpoint: target.endpoint.clone(),
                                p256dh: target.p256dh.clone(),
                                auth: target.auth.clone(),
                                vapid: key.clone(),
                                payload: message.clone(),
                            },
                        );
                    },
                }
            }
            proof {
                assert(self@.subs.skip(i as int).drop_first() =~= self@.subs.skip(
                    i + 1 as int,
                ));
            }
            i = i + 1;
        }
        proof {
            assert(self@.subs.skip(n as int).len() == 0);
        }
        Err(ApiError::NoSubscription)
    }
}

// ---------------------------------------------------------------------------
// The notification itself
// ---------------------------------------------------------------------------

/// The message text announcing a report's outcome.
pub open spec fn notify_text(point: crate::ap::APID, status: AccessPointStatus) -> Seq<char> {
    "Access point "@ + nat_digits(point as nat) + " is "@ + status_text(status)
}

/// A status change to announce: the fulfilled report it stems from.
pub struct Notification {
    pub report: Report,
}

impl Notification {
    /// The message text sent to each subscriber.
    pub fn text(&self) -> (r: String)
        ensures
            r@ == notify_text(self.report@.point, self.report@.status_change),
    {
        let mut out = String::new();
        out.append("Access point ");
        push_nat(&mut out, self.report.point() as u64);
        out.append(" is ");
        let phrase = self.report.status_change().describe();
        out.append(phrase.as_str());
        proof {
            assert(out@ =~= notify_text(self.report@.point, self.report@.status_change));
        }
        out
    }
}

/// The record of one dispatch attempt during a fulfillment: to whom, and
/// either the prepared message or why nothing could be delivered.
#[derive(Debug)]
pub struct SendAttempt {
    pub username: String,
    pub outcome: Result<PreparedSend, ApiError>,
}

/// The mathematical value of one dispatch attempt.
pub struct SendAttemptView {
    pub username: Seq<char>,
    pub outcome: Result<PreparedSendView, ApiError>,
}

impl View for SendAttempt {
    type V = SendAttemptView;

    open spec fn view(&self) -> SendAttemptView {
        SendAttemptView {
            username: self.username@,
            outcome: match self.outcome {
                Ok(ref p) => Ok(p@),
                Err(e) => Err(e),
            },
        }
    }
}

/// The views of a sequence of attempts.
pub open spec fn attempt_views_of(s: Seq<SendAttempt>) -> Seq<SendAttemptView> {
    s.map(|i: int, a: SendAttempt| a@)
}

} // verus!
