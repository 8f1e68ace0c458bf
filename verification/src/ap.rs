//! Access points: their status, their category, the record itself and the
//! registry that owns every record.
//!
//! The registry is an owned map with an explicit synchronization boundary:
//! every public operation takes the registry exclusively and stands for one
//! critical section of the original's coarse lock, so no two status
//! mutations of one record can interleave.

use crate::errors::ApiError;
use crate::text::micro_text;
use vstd::prelude::*;

verus! {

/// The identifier of an access point inside the registry.
pub type APID = usize;

/// A geocoded position, held as integral microdegrees of latitude and
/// longitude (one microdegree is a millionth of a degree).
#[derive(Clone, Copy, Debug, PartialEq, Eq, Structural)]
pub struct Location {
    pub lat_micro: i64,
    pub long_micro: i64,
}

/// The operational state of an access point.
#[derive(Clone, Copy, Debug, PartialEq, Eq, Structural)]
pub enum AccessPointStatus {
    Working,
    InRepair,
    NotWorking,
}

impl Default for AccessPointStatus {
    /// A record or report that names no status starts as `NotWorking`.
    fn default() -> (r: Self)
        ensures
            r == AccessPointStatus::NotWorking,
    {
        AccessPointStatus::NotWorking
    }
}

/// The display phrase for a status.
pub open spec fn status_text(s: AccessPointStatus) -> Seq<char> {
    match s {
        AccessPointStatus::Working => "in working order!"@,
        AccessPointStatus::InRepair => "being repaired!"@,
        AccessPointStatus::NotWorking => "not currently operational."@,
    }
}

impl AccessPointStatus {
    /// The keyword under which this status is stored.
    pub fn keyword(&self) -> (r: String)
        ensures
            r@ == status_key(*self),
    {
        match self {
            AccessPointStatus::Working => String::from_str("Working"),
            AccessPointStatus::InRepair => String::from_str("InRepair"),
            AccessPointStatus::NotWorking => String::from_str("NotWorking"),
        }
    }

    /// The status stored under a keyword, if the keyword is known.
    pub fn from_keyword(s: &String) -> (r: Option<AccessPointStatus>)
        ensures
            r == status_of_key(s@),
    {
        if *s == String::from_str("Working") {
            Some(AccessPointStatus::Working)
        } else if *s == String::from_str("InRepair") {
            Some(AccessPointStatus::InRepair)
        } else if *s == String::from_str("NotWorking") {
            Some(AccessPointStatus::NotWorking)
        } else {
            None
        }
    }

    /// The phrase shown to users for this status.
    pub fn describe(&self) -> (r: String)
        ensures
            r@ == status_text(*self),
    {
        match self {
            AccessPointStatus::Working => String::from_str("in working order!"),
            AccessPointStatus::InRepair => String::from_str("being repaired!"),
            AccessPointStatus::NotWorking => String::from_str("not currently operational."),
        }
    }
}

/// The mathematical value of an access-point category.
pub enum KindView {
    Wheelchair,
    Interpreter,
    Other(Seq<char>),
}

/// An access-point category as a client names it: either one of the fixed
/// variants, or free text that may spell a fixed variant out.
#[derive(Debug)]
pub enum RawAccessPointType {
    Wheelchair,
    Interpreter,
    Any(String),
}

impl View for RawAccessPointType {
    type V = KindView;

    open spec fn view(&self) -> KindView {
        match self {
            RawAccessPointType::Wheelchair => KindView::Wheelchair,
            RawAccessPointType::Interpreter => KindView::Interpreter,
            RawAccessPointType::Any(s) => KindView::Other(s@),
        }
    }
}

/// Free text that spells a fixed variant out collapses to that variant.
pub open spec fn simplify_kind(k: KindView) -> KindView {
    match k {
        KindView::Other(s) => {
            if s == "Wheelchair"@ {
                KindView::Wheelchair
            } else if s == "Interpreter"@ {
                KindView::Interpreter
            } else {
                KindView::Other(s)
            }
        },
        other => other,
    }
}

/// A category is normalized when an open label does not shadow a fixed
/// variant.
pub open spec fn kind_normalized(k: KindView) -> bool {
    match k {
        KindView::Other(s) => s != "Wheelchair"@ && s != "Interpreter"@,
        _ => true,
    }
}

impl RawAccessPointType {
    /// Collapse free text that names a fixed variant into that variant.
    pub fn simplify(self) -> (r: Self)
        ensures
            r@ == simplify_kind(self@),
            kind_normalized(r@),
    {
        match self {
            RawAccessPointType::Any(s) => {
                let w = String::from_str("Wheelchair");
                let t = String::from_str("Interpreter");
                if s == w {
                    RawAccessPointType::Wheelchair
                } else if s == t {
                    RawAccessPointType::Interpreter
                } else {
                    RawAccessPointType::Any(s)
                }
            },
            other => other,
        }
    }

    /// An equal copy.
    pub fn duplicate(&self) -> (r: Self)
        ensures
            r@ == self@,
    {
        match self {
            RawAccessPointType::Wheelchair => RawAccessPointType::Wheelchair,
            RawAccessPointType::Interpreter => RawAccessPointType::Interpreter,
            RawAccessPointType::Any(s) => RawAccessPointType::Any(s.clone()),
        }
    }
}

/// The display text for a category.
pub open spec fn kind_text(k: KindView) -> Seq<char> {
    match k {
        KindView::Wheelchair => "Wheelchair service"@,
        KindView::Interpreter => "Language interpreter"@,
        KindView::Other(s) => {
            if s.len() == 0 {
                "Miscellaneous"@
            } else {
                s
            }
        },
    }
}

/// A guaranteed-normalized access-point category: construction applies
/// [`simplify_kind`], so an open label never shadows a fixed variant.
#[derive(Debug)]
pub struct AccessPointType(RawAccessPointType);

impl View for AccessPointType {
    type V = KindView;

    closed spec fn view(&self) -> KindView {
        self.0@
    }
}

impl AccessPointType {
    /// Normalize a raw category at construction.
    pub fn new(raw: RawAccessPointType) -> (r: Self)
        ensures
            r@ == simplify_kind(raw@),
            kind_normalized(r@),
    {
        AccessPointType(raw.simplify())
    }

    /// An equal copy.
    pub fn duplicate(&self) -> (r: Self)
        ensures
            r@ == self@,
    {
        AccessPointType(self.0.duplicate())
    }

    /// The label under which this category is stored.
    pub fn label(&self) -> (r: String)
        ensures
            r@ == kind_label(self@),
    {
        match &self.0 {
            RawAccessPointType::Wheelchair => String::from_str("Wheelchair"),
            RawAccessPointType::Interpreter => String::from_str("Interpreter"),
            RawAccessPointType::Any(s) => s.clone(),
        }
    }

    /// The display text for this category.
    pub fn describe(&self) -> (r: String)
        ensures
            r@ == kind_text(self@),
    {
        match &self.0 {
            RawAccessPointType::Wheelchair => String::from_str("Wheelchair service"),
            RawAccessPointType::Interpreter => String::from_str("Language interpreter"),
            RawAccessPointType::Any(s) => {
                if s.as_str().is_empty() {
                    String::from_str("Miscellaneous")
                } else {
                    s.clone()
                }
            },
        }
    }
}

/// The keyword under which a status is stored.
pub open spec fn status_key(s: AccessPointStatus) -> Seq<char> {
    match s {
        AccessPointStatus::Working => "Working"@,
        AccessPointStatus::InRepair => "InRepair"@,
        AccessPointStatus::NotWorking => "NotWorking"@,
    }
}

/// The status stored under a keyword, if the keyword is known.
pub open spec fn status_of_key(s: Seq<char>) -> Option<AccessPointStatus> {
    if s == "Working"@ {
        Some(AccessPointStatus::Working)
    } else if s == "InRepair"@ {
        Some(AccessPointStatus::InRepair)
    } else if s == "NotWorking"@ {
        Some(AccessPointStatus::NotWorking)
    } else {
        None
    }
}

/// The label under which a category is stored: the fixed variants by name,
/// an open category by its text.
pub open spec fn kind_label(k: KindView) -> Seq<char> {
    match k {
        KindView::Wheelchair => "Wheelchair"@,
        KindView::Interpreter => "Interpreter"@,
        KindView::Other(s) => s,
    }
}

/// The mathematical value of one access-point record.
pub struct ApView {
    pub id: Option<nat>,
    pub name: Seq<char>,
    pub kind: KindView,
    pub nice_kind: Seq<char>,
    pub location: Location,
    pub status: AccessPointStatus,
    pub nice_status: Seq<char>,
}

/// One tracked access point: an identifier once registered, a display name,
/// a category and its display text, a position, and a status and its display
/// text.
#[derive(Debug)]
pub struct AccessPoint {
    id: Option<APID>,
    name: String,
    kind: AccessPointType,
    pub nice_kind: String,
    location: Location,
    pub status: AccessPointStatus,
    pub nice_status: String,
}

impl View for AccessPoint {
    type V = ApView;

    closed spec fn view(&self) -> ApView {
        ApView {
            id: match self.id {
                Some(i) => Some(i as nat),
                None => None,
            },
            name: self.name@,
            kind: self.kind@,
            nice_kind: self.nice_kind@,
            location: self.location,
            status: self.status,
            nice_status: self.nice_status@,
        }
    }
}

/// A record is well formed when its category is normalized and its display
/// strings match its category and status.
pub open spec fn wf_ap(a: ApView) -> bool {
    &&& kind_normalized(a.kind)
    &&& a.nice_kind == kind_text(a.kind)
    &&& a.nice_status == status_text(a.status)
}

/// The default display name of a record created at the given coordinates.
pub open spec fn point_name(lat: int, long: int) -> Seq<char> {
    "Access point at "@ + micro_text(lat) + ", "@ + micro_text(long)
}

impl AccessPoint {
    /// A fresh, unregistered record at the given coordinates, with the
    /// default name, an open category and status `NotWorking`.
    pub fn from_lat_long(lat_micro: i64, long_micro: i64) -> (r: Self)
        ensures
            r@ == (ApView {
                id: None,
                name: point_name(lat_micro as int, long_micro as int),
                kind: KindView::Other(Seq::<char>::empty()),
                nice_kind: kind_text(KindView::Other(Seq::<char>::empty())),
                location: Location { lat_micro, long_micro },
                status: AccessPointStatus::NotWorking,
                nice_status: status_text(AccessPointStatus::NotWorking),
            }),
            wf_ap(r@),
    {
        let mut name = String::new();
        name.append("Access point at ");
        crate::text::push_micro(&mut name, lat_micro);
        name.append(", ");
        crate::text::push_micro(&mut name, long_micro);
        proof {
            assert(name@ =~= point_name(lat_micro as int, long_micro as int));
            reveal_strlit("Wheelchair");
            reveal_strlit("Interpreter");
        }
        let kind = AccessPointType::new(RawAccessPointType::Any(String::new()));
        let status = AccessPointStatus::NotWorking;
        let nice_status = status.describe();
        let nice_kind = kind.describe();
        AccessPoint {
            id: None,
            name,
            kind,
            nice_kind,
            location: Location { lat_micro, long_micro },
            status,
            nice_status,
        }
    }

    /// The same record with the given category (and its display text).
    pub fn with_type(self, kind: AccessPointType) -> (r: Self)
        ensures
            r@ == (ApView { kind: kind@, nice_kind: kind_text(kind@), ..self@ }),
    {
        let nice_kind = kind.describe();
        AccessPoint { kind, nice_kind, ..self }
    }

    /// The same record with the given status (and its display text).
    pub fn with_status(self, status: AccessPointStatus) -> (r: Self)
        ensures
            r@ == (ApView { status, nice_status: status_text(status), ..self@ }),
    {
        let nice_status = status.describe();
        AccessPoint { status, nice_status, ..self }
    }

    /// The same record with the given display name.
    pub fn with_name(self, name: String) -> (r: Self)
        ensures
            r@ == (ApView { name: name@, ..self@ }),
    {
        AccessPoint { name, ..self }
    }

    /// The same record registered under `id`.
    pub fn with_id(self, id: APID) -> (r: Self)
        ensures
            r@ == (ApView { id: Some(id as nat), ..self@ }),
    {
        AccessPoint { id: Some(id), ..self }
    }

    /// The identifier this record is registered under, if any.
    pub fn id(&self) -> (r: Option<APID>)
        ensures
            r matches Some(i) ==> self@.id == Some(i as nat),
            r is None ==> self@.id is None,
    {
        self.id
    }

    /// The display name.
    pub fn name(&self) -> (r: &String)
        ensures
            r@ == self@.name,
    {
        &self.name
    }

    /// The position.
    pub fn location(&self) -> (r: Location)
        ensures
            r == self@.location,
    {
        self.location
    }

    /// The status.
    pub fn status(&self) -> (r: AccessPointStatus)
        ensures
            r == self@.status,
    {
        self.status
    }

    /// The category.
    pub fn kind(&self) -> (r: &AccessPointType)
        ensures
            r@ == self@.kind,
    {
        &self.kind
    }

    /// An equal copy.
    pub fn duplicate(&self) -> (r: Self)
        ensures
            r@ == self@,
    {
        AccessPoint {
            id: self.id,
            name: self.name.clone(),
            kind: self.kind.duplicate(),
            nice_kind: self.nice_kind.clone(),
            location: self.location,
            status: self.status,
            nice_status: self.nice_status.clone(),
        }
    }
}

// ---------------------------------------------------------------------------
// The registry
// ---------------------------------------------------------------------------

/// Every record well formed and registered, and identifiers strictly
/// increasing along the sequence (so the last one is the greatest).
pub open spec fn wf_group(s: Seq<ApView>) -> bool {
    &&& forall|i: int|
        0 <= i < s.len() ==> wf_ap(#[trigger] s[i]) && s[i].id is Some && s[i].id.unwrap()
            <= usize::MAX as nat
    &&& forall|i: int, j: int|
        0 <= i < j < s.len() ==> #[trigger] s[i].id.unwrap() < #[trigger] s[j].id.unwrap()
}

/// The identifier the next created record receives: one past the greatest
/// identifier present, or zero in an empty registry.
pub open spec fn spec_next_id(s: Seq<ApView>) -> nat {
    if s.len() == 0 {
        0
    } else {
        s.last().id.unwrap() + 1
    }
}

/// The record stored under `id`, if any.
pub open spec fn find_ap(s: Seq<ApView>, id: nat) -> Option<ApView>
    decreases s.len(),
{
    if s.len() == 0 {
        None
    } else if s[0].id == Some(id) {
        Some(s[0])
    } else {
        find_ap(s.drop_first(), id)
    }
}

/// A record with its status (and status display text) replaced.
pub open spec fn ap_with_status(a: ApView, st: AccessPointStatus) -> ApView {
    ApView { status: st, nice_status: status_text(st), ..a }
}

/// The registry after a status update on `id`: every record keeps its place,
/// and the one registered under `id` carries the new status.
pub open spec fn set_status_spec(s: Seq<ApView>, id: nat, st: AccessPointStatus) -> Seq<ApView> {
    Seq::new(
        s.len(),
        |i: int|
            if s[i].id == Some(id) {
                ap_with_status(s[i], st)
            } else {
                s[i]
            },
    )
}

/// The registry of access points.  It owns its records exclusively: all
/// access goes through these operations, which hand out copies, and every
/// mutating operation holds the registry for the whole call.
#[derive(Debug)]
pub struct AccessPoints {
    pub(crate) points: Vec<AccessPoint>,
}

/// The views of a sequence of records.
pub open spec fn views_of(s: Seq<AccessPoint>) -> Seq<ApView> {
    s.map(|i: int, p: AccessPoint| p@)
}

impl View for AccessPoints {
    type V = Seq<ApView>;

    closed spec fn view(&self) -> Seq<ApView> {
        views_of(self.points@)
    }
}

/// Bridge between the registry's view and its backing records, for the
/// crate's own modules.
pub(crate) proof fn lemma_points_views(g: &AccessPoints)
    ensures
        g@ == views_of(g.points@),
{
}

/// Freshness of the next identifier: it is greater than every identifier
/// present, so no created record can collide with an existing one.
pub proof fn lemma_next_id_fresh(s: Seq<ApView>)
    requires
        wf_group(s),
    ensures
        forall|i: int| 0 <= i < s.len() ==> (#[trigger] s[i]).id.unwrap() < spec_next_id(s),
{
    assert forall|i: int| 0 <= i < s.len() implies (#[trigger] s[i]).id.unwrap() < spec_next_id(
        s,
    ) by {
        if i < s.len() - 1 {
            assert(s[i].id.unwrap() < s[s.len() - 1].id.unwrap());
        }
    }
}

impl AccessPoints {
    /// Well-formedness of the registry's contents.
    pub open spec fn wf(&self) -> bool {
        wf_group(self@)
    }

    /// An empty registry.
    pub fn new() -> (r: Self)
        ensures
            r@ == Seq::<ApView>::empty(),
            r.wf(),
    {
        let r = AccessPoints { points: Vec::new() };
        proof {
            assert(r@ =~= Seq::<ApView>::empty());
        }
        r
    }

    /// The identifier the next record will receive.
    fn next_id(&self) -> (r: APID)
        requires
            self.wf(),
            spec_next_id(self@) <= usize::MAX as nat,
        ensures
            r as nat == spec_next_id(self@),
    {
        let n = self.points.len();
        if n == 0 {
            0
        } else {
            proof {
                assert(self@[n - 1].id is Some);
            }
            match self.points[n - 1].id {
                Some(i) => i + 1,
                None => {
                    proof {
                        assert(false);
                    }
                    0
                },
            }
        }
    }

    /// Store a record under the next identifier and return the stored copy.
    ///
    /// The identifier assigned is one past the greatest present (zero when
    /// the registry is empty), so concurrent creations, each holding the
    /// registry for its whole call, receive pairwise distinct identifiers.
    pub fn add_access_point(&mut self, access_point: AccessPoint) -> (r: AccessPoint)
        requires
            old(self).wf(),
            wf_ap(access_point@),
            spec_next_id(old(self)@) <= usize::MAX as nat,
        ensures
            r@ == (ApView { id: Some(spec_next_id(old(self)@)), ..access_point@ }),
            final(self)@ == old(self)@.push(r@),
            final(self).wf(),
    {
        let id = self.next_id();
        let ap = access_point.with_id(id);
        let r = ap.duplicate();
        proof {
            lemma_next_id_fresh(self@);
        }
        self.points.push(ap);
        proof {
            assert(final(self)@ =~= old(self)@.push(r@));
        }
        r
    }

    /// A copy of the record registered under `id`, or nothing.
    pub fn get_ap(&self, id: APID) -> (r: Option<AccessPoint>)
        ensures
            match r {
                Some(p) => find_ap(self@, id as nat) == Some(p@),
                None => find_ap(self@, id as nat) is None,
            },
    {
        let n = self.points.len();
        let mut i: usize = 0;
        proof {
            assert(self@.skip(0) =~= self@);
        }
        while i < n
            invariant
                0 <= i <= n,
                n == self.points.len(),
                find_ap(self@, id as nat) == find_ap(self@.skip(i as int), id as nat),
            decreases n - i,
        {
            let matches_here = match self.points[i].id {
                Some(c) => c == id,
                None => false,
            };
            proof {
                assert(self@.skip(i as int)[0] == self@[i as int]);
            }
            if matches_here {
                let copy = self.points[i].duplicate();
                return Some(copy);
            }
            proof {
                assert(self@.skip(i as int).drop_first() =~= self@.skip(i + 1 as int));
            }
            i = i + 1;
        }
        proof {
            assert(self@.skip(n as int).len() == 0);
        }
        None
    }

    /// A snapshot copy of every record.
    pub fn list(&self) -> (r: Vec<AccessPoint>)
        ensures
            views_of(r@) == self@,
    {
        let n = self.points.len();
        let mut out: Vec<AccessPoint> = Vec::new();
        let mut i: usize = 0;
        proof {
            assert(views_of(out@) =~= self@.take(0));
        }
        while i < n
            invariant
                0 <= i <= n,
                n == self.points.len(),
                views_of(out@) == self@.take(i as int),
            decreases n - i,
        {
            let ghost out0 = out@;
            let d = self.points[i].duplicate();
            out.push(d);
            proof {
                assert(out@ == out0.push(d));
                assert(views_of(out0).len() == out0.len());
                assert(views_of(out@).len() == out@.len());
                assert(views_of(self.points@).len() == self.points@.len());
                assert(out0.len() == i);
                assert(views_of(self.points@)[i as int] == self.points@[i as int]@);
                assert forall|k: int| 0 <= k < out@.len() implies #[trigger] views_of(out@)[k]
                    == self@.take(i + 1 as int)[k] by {
                    assert(views_of(out@)[k] == out@[k]@);
                    if k < i {
                        assert(out0.push(d)[k] == out0[k]);
                        assert(views_of(out0)[k] == out0[k]@);
                        assert(views_of(out0)[k] == self@.take(i as int)[k]);
                    } else {
                        assert(out0.push(d)[k] == d);
                    }
                }
                assert(views_of(out@) =~= self@.take(i + 1 as int));
            }
            i = i + 1;
        }
        proof {
            assert(self@.take(n as int) =~= self@);
        }
        out
    }

    /// Overwrite the status of the record registered under `id`.
    ///
    /// Fails with `NotFound`, leaving the registry unchanged, exactly when
    /// no record carries `id`; otherwise the record's status and status
    /// display text are replaced and everything else is untouched.
    pub fn set_status(&mut self, id: APID, status: AccessPointStatus) -> (r: Result<
        (),
        ApiError,
    >)
        requires
            old(self).wf(),
        ensures
            match r {
                Ok(()) => {
                    &&& find_ap(old(self)@, id as nat) is Some
                    &&& final(self)@ == set_status_spec(old(self)@, id as nat, status)
                },
                Err(e) => {
                    &&& e == ApiError::NotFound
                    &&& find_ap(old(self)@, id as nat) is None
                    &&& final(self)@ == old(self)@
                },
            },
            final(self).wf(),
    {
        let n = self.points.len();
        let mut i: usize = 0;
        proof {
            assert(self@.skip(0) =~= self@);
        }
        while i < n
            invariant
                0 <= i <= n,
                n == self.points.len(),
                self == old(self),
                old(self).wf(),
                find_ap(old(self)@, id as nat) == find_ap(self@.skip(i as int), id as nat),
                forall|j: int| 0 <= j < i ==> (#[trigger] self@[j]).id != Some(id as nat),
            decreases n - i,
        {
            let matches_here = match self.points[i].id {
                Some(c) => c == id,
                None => false,
            };
            proof {
                assert(self@.skip(i as int)[0] == self@[i as int]);
            }
            if matches_here {
                let st_text = status.describe();
                self.points[i].status = status;
                self.points[i].nice_status = st_text;
                proof {
                    assert forall|k: int|
                        0 <= k < old(self)@.len() && k != i implies (#[trigger] old(
                        self,
                    )@[k]).id != Some(id as nat) by {
                        if k > i {
                            assert(old(self)@[i as int].id.unwrap() < old(
                                self,
                            )@[k].id.unwrap());
                        }
                    }
                    assert(final(self)@ =~= set_status_spec(old(self)@, id as nat, status));
                }
                return Ok(());
            }
            proof {
                assert(self@.skip(i as int).drop_first() =~= self@.skip(i + 1 as int));
            }
            i = i + 1;
        }
        proof {
            assert(self@.skip(n as int).len() == 0);
        }
        Err(ApiError::NotFound)
    }
}

// ---------------------------------------------------------------------------
// Stated laws of the registry
// ---------------------------------------------------------------------------

/// Identifiers present in a well-formed registry are pairwise distinct.
pub proof fn lemma_ids_distinct(s: Seq<ApView>)
    requires
        wf_group(s),
    ensures
        forall|i: int, j: int|
            0 <= i < s.len() && 0 <= j < s.len() && i != j ==> (#[trigger] s[i]).id != (
            #[trigger] s[j]).id,
{
    assert forall|i: int, j: int|
        0 <= i < s.len() && 0 <= j < s.len() && i != j implies (#[trigger] s[i]).id != (
    #[trigger] s[j]).id by {
        if i < j {
            assert(s[i].id.unwrap() < s[j].id.unwrap());
        } else {
            assert(s[j].id.unwrap() < s[i].id.unwrap());
        }
    }
}

/// A registry grown only by creation holds the identifiers 0, 1, ..., n-1
/// in order.
pub open spec fn ids_contiguous(s: Seq<ApView>) -> bool {
    forall|i: int| 0 <= i < s.len() ==> (#[trigger] s[i]).id == Some(i as nat)
}

/// Creation hands out contiguous identifiers: in a registry built by
/// creation alone, the next identifier equals the record count, and the
/// registry stays contiguous when the created record is appended.  Together
/// with [`lemma_ids_distinct`] this gives the creation law: the sequence of
/// returned identifiers is 0, 1, 2, ... — pairwise distinct, non-decreasing
/// and starting at zero.
pub proof fn lemma_create_ids(s: Seq<ApView>, a: ApView)
    requires
        wf_group(s),
        ids_contiguous(s),
    ensures
        spec_next_id(s) == s.len(),
        ids_contiguous(s.push(ApView { id: Some(spec_next_id(s)), ..a })),
{
    if s.len() > 0 {
        assert(s[s.len() - 1].id == Some((s.len() - 1) as nat));
    }
    let t = s.push(ApView { id: Some(spec_next_id(s)), ..a });
    assert forall|i: int| 0 <= i < t.len() implies (#[trigger] t[i]).id == Some(i as nat) by {
        if i < s.len() {
            assert(t[i] == s[i]);
        }
    }
}

/// Setting a status and reading the same identifier back observes exactly
/// the record with the new status; every other field is unchanged.
pub proof fn lemma_set_then_get(s: Seq<ApView>, id: nat, st: AccessPointStatus)
    requires
        find_ap(s, id) is Some,
    ensures
        find_ap(set_status_spec(s, id, st), id) == Some(ap_with_status(find_ap(s, id).unwrap(), st)),
    decreases s.len(),
{
    let t = set_status_spec(s, id, st);
    if s[0].id == Some(id) {
        assert(t[0] == ap_with_status(s[0], st));
    } else {
        lemma_set_then_get(s.drop_first(), id, st);
        assert(t.drop_first() =~= set_status_spec(s.drop_first(), id, st));
        assert(t[0] == s[0]);
    }
}

} // verus!
