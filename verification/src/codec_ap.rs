//! The stored form of the access-point registry: one document that maps
//! each identifier to its record, written as a JSON object in a fixed
//! canonical shape, and the strict parser that reads it back.
//!
//! The document looks like
//! `{"0":{"name":"...","kind":"...","lat":51500000,"long":-120000,"status":"Working"}}`.
//! Writing and parsing are exact inverses on well-formed registries; a
//! document the parser refuses loads as an empty registry.

use crate::ap::kind_label;
use crate::ap::kind_text;
use crate::ap::simplify_kind;
use crate::ap::status_key;
use crate::ap::status_of_key;
use crate::ap::status_text;
use crate::ap::views_of;
use crate::ap::wf_ap;
use crate::ap::wf_group;
use crate::ap::AccessPoint;
use crate::ap::AccessPointStatus;
use crate::ap::AccessPointType;
use crate::ap::AccessPoints;
use crate::ap::ApView;
use crate::ap::KindView;
use crate::ap::Location;
use crate::ap::RawAccessPointType;
use crate::text::int_digits;
use crate::text::nat_digits;
use crate::text::push_char;
use crate::text::push_i64;
use crate::text::push_nat;
use crate::text::push_quoted;
use crate::text::quoted;
use crate::text::spec_parse_i64;
use crate::text::spec_parse_num;
use crate::text::spec_parse_string;
use crate::text::starts_with;
use crate::text::expect_lit;
use crate::text::parse_i64;
use crate::text::parse_num;
use crate::text::parse_string;
use vstd::prelude::*;

verus! {

// ---------------------------------------------------------------------------
// The stored form
// ---------------------------------------------------------------------------

/// The stored form of one record (without its identifier).
pub open spec fn enc_record(a: ApView) -> Seq<char> {
    "{\"name\":"@ + quoted(a.name) + ",\"kind\":"@ + quoted(kind_label(a.kind)) + ",\"lat\":"@
        + int_digits(a.location.lat_micro as int) + ",\"long\":"@ + int_digits(
        a.location.long_micro as int,
    ) + ",\"status\":"@ + quoted(status_key(a.status)) + "}"@
}

/// The stored form of one entry: the identifier as a quoted key, then the
/// record.
pub open spec fn enc_entry(a: ApView) -> Seq<char> {
    seq!['"'] + nat_digits(a.id.unwrap()) + "\":"@ + enc_record(a)
}

/// The stored entries, comma-separated.
pub open spec fn enc_entries(s: Seq<ApView>) -> Seq<char>
    decreases s.len(),
{
    if s.len() == 0 {
        Seq::empty()
    } else if s.len() == 1 {
        enc_entry(s[0])
    } else {
        enc_entry(s[0]) + seq![','] + enc_entries(s.drop_first())
    }
}

/// The stored document.
pub open spec fn enc_doc(s: Seq<ApView>) -> Seq<char> {
    seq!['{'] + enc_entries(s) + seq!['}']
}

// ---------------------------------------------------------------------------
// The parser, as a specification
// ---------------------------------------------------------------------------

/// Parse one record.  The record carries no identifier; its display strings
/// are rebuilt from the parsed category and status, and the category is
/// normalized, so a parsed record is always well formed.
#[verifier::opaque]
pub open spec fn spec_parse_record(s: Seq<char>) -> Option<(ApView, nat)> {
    if !starts_with(s, "{\"name\":"@) {
        None
    } else {
        let p1 = "{\"name\":"@.len();
        match spec_parse_string(s.skip(p1 as int)) {
            None => None,
            Some((name, n1)) => {
                let p2 = p1 + n1;
                if !starts_with(s.skip(p2 as int), ",\"kind\":"@) {
                    None
                } else {
                    let p3 = p2 + ",\"kind\":"@.len();
                    match spec_parse_string(s.skip(p3 as int)) {
                        None => None,
                        Some((label, n2)) => {
                            let p4 = p3 + n2;
                            if !starts_with(s.skip(p4 as int), ",\"lat\":"@) {
                                None
                            } else {
                                let p5 = p4 + ",\"lat\":"@.len();
                                match spec_parse_i64(s.skip(p5 as int)) {
                                    None => None,
                                    Some((lat, n3)) => {
                                        let p6 = p5 + n3;
                                        if !starts_with(s.skip(p6 as int), ",\"long\":"@) {
                                            None
                                        } else {
                                            let p7 = p6 + ",\"long\":"@.len();
                                            match spec_parse_i64(s.skip(p7 as int)) {
                                                None => None,
                                                Some((long, n4)) => {
                                                    let p8 = p7 + n4;
                                                    if !starts_with(
                                                        s.skip(p8 as int),
                                                        ",\"status\":"@,
                                                    ) {
                                                        None
                                                    } else {
                                                        let p9 = p8 + ",\"status\":"@.len();
                                                        match spec_parse_string(
                                                            s.skip(p9 as int),
                                                        ) {
                                                            None => None,
                                                            Some((stword, n5)) => {
                                                                let p10 = p9 + n5;
                                                                match status_of_key(stword) {
                                                                    None => None,
                                                                    Some(st) => {
                                                                        if !starts_with(
                                                                            s.skip(p10 as int),
                                                                            "}"@,
                                                                        ) {
                                                                            None
                                                                        } else {
                                                                            let kind =
                                                                                simplify_kind(
                                                                                KindView::Other(
                                                                                    label,
                                                                                ),
                                                                            );
                                                                            Some(
                                                                                (
                                                                                    ApView {
                                                                                        id: None,
                                                                                        name,
                                                                                        kind,
                                                                                        nice_kind:
                                                                                            kind_text(
                                                                                            kind,
                                                                                        ),
                                                                                        location:
                                                                                            Location {
                                                                                            lat_micro:
                                                                                                lat
                                                                                                as i64,
                                                                                            long_micro:
                                                                                                long
                                                                                                as i64,
                                                                                        },
                                                                                        status: st,
                                                                                        nice_status:
                                                                                            status_text(
                                                                                            st,
                                                                                        ),
                                                                                    },
                                                                                    (p10
                                                                                        + "}"@.len()) as nat,
                                                                                ),
                                                                            )
                                                                        }
                                                                    },
                                                                }
                                                            },
                                                        }
                                                    }
                                                },
                                            }
                                        }
                                    },
                                }
                            }
                        },
                    }
                }
            },
        }
    }
}

/// Parse one entry: a quoted numeric key, a colon, a record.
pub open spec fn spec_parse_entry(s: Seq<char>) -> Option<(ApView, nat)> {
    if s.len() == 0 || s[0] != '"' {
        None
    } else {
        match spec_parse_num(s.skip(1), usize::MAX as nat) {
            None => None,
            Some((v, k)) => {
                let p = 1 + k;
                if !starts_with(s.skip(p as int), "\":"@) {
                    None
                } else {
                    let p2 = p + "\":"@.len();
                    match spec_parse_record(s.skip(p2 as int)) {
                        None => None,
                        Some((a, m)) => Some((ApView { id: Some(v), ..a }, (p2 + m) as nat)),
                    }
                }
            },
        }
    }
}

/// Parse the entries of a non-empty document, from after the opening brace
/// up to and including the closing brace.
#[verifier::opaque]
pub open spec fn spec_parse_items(s: Seq<char>) -> Option<(Seq<ApView>, nat)>
    decreases s.len(),
{
    match spec_parse_entry(s) {
        None => None,
        Some((a, k)) => {
            if k < s.len() && s[k as int] == ',' {
                if k + 1 < s.len() {
                    match spec_parse_items(s.skip((k + 1) as int)) {
                        None => None,
                        Some((rest, m)) => Some((seq![a] + rest, (k + 1 + m) as nat)),
                    }
                } else {
                    None
                }
            } else if k < s.len() && s[k as int] == '}' {
                Some((seq![a], (k + 1) as nat))
            } else {
                None
            }
        },
    }
}

/// The registry a document denotes, when it is exactly one well-shaped
/// object consumed in full.
pub open spec fn doc_value(s: Seq<char>) -> Option<Seq<ApView>> {
    if s.len() >= 2 && s[0] == '{' {
        if s.len() == 2 && s[1] == '}' {
            Some(Seq::empty())
        } else {
            match spec_parse_items(s.skip(1)) {
                None => None,
                Some((items, k)) => {
                    if 1 + k == s.len() {
                        Some(items)
                    } else {
                        None
                    }
                },
            }
        }
    } else {
        None
    }
}

/// What loading a document yields: its denoted registry when that is well
/// formed, an empty registry on any parse or well-formedness failure.
pub open spec fn load_result(doc: Seq<char>) -> Seq<ApView> {
    match doc_value(doc) {
        Some(items) => {
            if wf_group(items) {
                items
            } else {
                Seq::empty()
            }
        },
        None => Seq::empty(),
    }
}

// ---------------------------------------------------------------------------
// Writing
// ---------------------------------------------------------------------------

fn push_record(out: &mut String, a: &AccessPoint)
    ensures
        final(out)@ == old(out)@ + enc_record(a@),
{
    out.append("{\"name\":");
    push_quoted(out, a.name().as_str());
    out.append(",\"kind\":");
    let label = a.kind().label();
    push_quoted(out, label.as_str());
    out.append(",\"lat\":");
    push_i64(out, a.location().lat_micro);
    out.append(",\"long\":");
    push_i64(out, a.location().long_micro);
    out.append(",\"status\":");
    let kw = a.status().keyword();
    push_quoted(out, kw.as_str());
    out.append("}");
    proof {
        assert(final(out)@ =~= old(out)@ + enc_record(a@));
    }
}

fn push_entry(out: &mut String, a: &AccessPoint)
    requires
        a@.id is Some,
    ensures
        final(out)@ == old(out)@ + enc_entry(a@),
{
    push_char(out, '"');
    let id = match a.id() {
        Some(i) => i,
        None => {
            proof {
                assert(false);
            }
            0
        },
    };
    push_nat(out, id as u64);
    out.append("\":");
    push_record(out, a);
    proof {
        assert(final(out)@ =~= old(out)@ + enc_entry(a@));
    }
}

impl AccessPoints {
    /// The full registry as one stored document.  The caller is expected to
    /// write it to durable storage once, at orderly shutdown.
    pub fn save(&self) -> (r: String)
        requires
            self.wf(),
        ensures
            r@ == enc_doc(self@),
    {
        let mut out = String::new();
        push_char(&mut out, '{');
        let n = self.points.len();
        let mut i: usize = 0;
        while i < n
            invariant
                0 <= i <= n,
                n == self.points.len(),
                seq!['{'] + enc_entries(self@) == out@ + (if i == 0 {
                    enc_entries(self@)
                } else if i < n {
                    seq![','] + enc_entries(self@.skip(i as int))
                } else {
                    Seq::<char>::empty()
                }),
                self.wf(),
            decreases n - i,
        {
            proof {
                crate::ap::lemma_points_views(self);
                assert(views_of(self.points@).len() == self.points@.len());
                assert(views_of(self.points@)[i as int] == self.points@[i as int]@);
            }
            if i > 0 {
                push_char(&mut out, ',');
            }
            push_entry(&mut out, &self.points[i]);
            proof {
                let s = self@;
                let rem = s.skip(i as int);
                assert(rem[0] == s[i as int]);
                assert(rem.drop_first() =~= s.skip(i + 1 as int));
                if i == 0 {
                    assert(rem =~= s);
                    if s.len() == 1 {
                        assert(enc_entries(s) == enc_entry(s[0]));
                    } else {
                        assert(enc_entries(s) == enc_entry(s[0]) + seq![','] + enc_entries(
                            s.drop_first(),
                        ));
                        assert(s.drop_first() =~= s.skip(1));
                    }
                } else {
                    if rem.len() == 1 {
                        assert(enc_entries(rem) == enc_entry(s[i as int]));
                    } else {
                        assert(enc_entries(rem) == enc_entry(s[i as int]) + seq![',']
                            + enc_entries(rem.drop_first()));
                    }
                }
                assert(seq!['{'] + enc_entries(self@) =~= out@ + (if i + 1 == 0 {
                    enc_entries(self@)
                } else if i + 1 < n {
                    seq![','] + enc_entries(self@.skip(i + 1 as int))
                } else {
                    Seq::<char>::empty()
                }));
            }
            i = i + 1;
        }
        push_char(&mut out, '}');
        proof {
            crate::ap::lemma_points_views(self);
            if n == 0 {
                assert(enc_entries(self@) =~= Seq::<char>::empty());
            }
            assert(out@ =~= enc_doc(self@));
        }
        out
    }
}

// ---------------------------------------------------------------------------
// Reading
// ---------------------------------------------------------------------------

#[verifier::rlimit(100)]
fn parse_record(text: &str, p: usize) -> (r: Option<(AccessPoint, usize)>)
    requires
        p <= text@.len(),
    ensures
        match r {
            Some((rec, q)) => {
                &&& spec_parse_record(text@.skip(p as int)) == Some((rec@, (q - p) as nat))
                &&& p < q <= text@.len()
                &&& wf_ap(rec@)
                &&& rec@.id is None
            },
            None => spec_parse_record(text@.skip(p as int)) is None,
        },
{
    proof {
        reveal(spec_parse_record);
    }
    let ghost s = text@.skip(p as int);
    let q1 = match expect_lit(text, p, "{\"name\":") {
        Some(q) => q,
        None => {
            return None;
        },
    };
    proof {
        assert(text@.skip(q1 as int) =~= s.skip(("{\"name\":"@).len() as int));
    }
    let (name, q2) = match parse_string(text, q1) {
        Some(v) => v,
        None => {
            return None;
        },
    };
    let q3 = match expect_lit(text, q2, ",\"kind\":") {
        Some(q) => q,
        None => {
            proof {
                assert(text@.skip(q2 as int) =~= s.skip((q2 - p) as int));
            }
            return None;
        },
    };
    proof {
        assert(text@.skip(q2 as int) =~= s.skip((q2 - p) as int));
        assert(text@.skip(q3 as int) =~= s.skip((q3 - p) as int));
    }
    let (label, q4) = match parse_string(text, q3) {
        Some(v) => v,
        None => {
            return None;
        },
    };
    let q5 = match expect_lit(text, q4, ",\"lat\":") {
        Some(q) => q,
        None => {
            proof {
                assert(text@.skip(q4 as int) =~= s.skip((q4 - p) as int));
            }
            return None;
        },
    };
    proof {
        assert(text@.skip(q4 as int) =~= s.skip((q4 - p) as int));
        assert(text@.skip(q5 as int) =~= s.skip((q5 - p) as int));
    }
    let (lat, q6) = match parse_i64(text, q5) {
        Some(v) => v,
        None => {
            return None;
        },
    };
    let q7 = match expect_lit(text, q6, ",\"long\":") {
        Some(q) => q,
        None => {
            proof {
                assert(text@.skip(q6 as int) =~= s.skip((q6 - p) as int));
            }
            return None;
        },
    };
    proof {
        assert(text@.skip(q6 as int) =~= s.skip((q6 - p) as int));
        assert(text@.skip(q7 as int) =~= s.skip((q7 - p) as int));
    }
    let (long, q8) = match parse_i64(text, q7) {
        Some(v) => v,
        None => {
            return None;
        },
    };
    let q9 = match expect_lit(text, q8, ",\"status\":") {
        Some(q) => q,
        None => {
            proof {
                assert(text@.skip(q8 as int) =~= s.skip((q8 - p) as int));
            }
            return None;
        },
    };
    proof {
        assert(text@.skip(q8 as int) =~= s.skip((q8 - p) as int));
        assert(text@.skip(q9 as int) =~= s.skip((q9 - p) as int));
    }
    let (stword, q10) = match parse_string(text, q9) {
        Some(v) => v,
        None => {
            return None;
        },
    };
    proof {
        assert(text@.skip(q10 as int) =~= s.skip((q10 - p) as int));
    }
    let st = match AccessPointStatus::from_keyword(&stword) {
        Some(st) => st,
        None => {
            return None;
        },
    };
    let qf = match expect_lit(text, q10, "}") {
        Some(q) => q,
        None => {
            return None;
        },
    };
    let kind = AccessPointType::new(RawAccessPointType::Any(label));
    let rec = AccessPoint::from_lat_long(lat, long).with_name(name).with_type(kind).with_status(
        st,
    );
    Some((rec, qf))
}

#[verifier::rlimit(100)]
fn parse_entry(text: &str, p: usize) -> (r: Option<(AccessPoint, usize)>)
    requires
        p <= text@.len(),
    ensures
        match r {
            Some((rec, q)) => {
                &&& spec_parse_entry(text@.skip(p as int)) == Some((rec@, (q - p) as nat))
                &&& p < q <= text@.len()
                &&& rec@.id is Some
                &&& rec@.id.unwrap() <= usize::MAX as nat
                &&& wf_ap(rec@)
            },
            None => spec_parse_entry(text@.skip(p as int)) is None,
        },
{
    let ghost s = text@.skip(p as int);
    let n = text.unicode_len();
    if p >= n || text.get_char(p) != '"' {
        proof {
            if s.len() > 0 {
                assert(s[0] == text@[p as int]);
            }
        }
        return None;
    }
    proof {
        assert(s[0] == text@[p as int]);
        assert(text@.skip(p + 1 as int) =~= s.skip(1));
    }
    let (v, q1) = match parse_num(text, p + 1, usize::MAX as u64) {
        Some(v) => v,
        None => {
            return None;
        },
    };
    let id: usize = v as usize;
    let q2 = match expect_lit(text, q1, "\":") {
        Some(q) => q,
        None => {
            proof {
                assert(text@.skip(q1 as int) =~= s.skip((q1 - p) as int));
            }
            return None;
        },
    };
    proof {
        assert(text@.skip(q1 as int) =~= s.skip((q1 - p) as int));
        assert(text@.skip(q2 as int) =~= s.skip((q2 - p) as int));
    }
    let (rec, q3) = match parse_record(text, q2) {
        Some(v) => v,
        None => {
            return None;
        },
    };
    let out = rec.with_id(id);
    proof {
        assert(wf_ap(out@));
    }
    Some((out, q3))
}

/// Parse a whole document into records; nothing unless the document is
/// exactly one well-shaped object.
#[verifier::rlimit(100)]
fn parse_doc(text: &str) -> (r: Option<Vec<AccessPoint>>)
    ensures
        match r {
            Some(v) => {
                &&& doc_value(text@) == Some(views_of(v@))
                &&& forall|i: int|
                    0 <= i < v@.len() ==> wf_ap(#[trigger] views_of(v@)[i]) && views_of(
                        v@,
                    )[i].id is Some && views_of(v@)[i].id.unwrap() <= usize::MAX as nat
            },
            None => doc_value(text@) is None,
        },
{
    let n = text.unicode_len();
    if n < 2 {
        return None;
    }
    if text.get_char(0) != '{' {
        return None;
    }
    if n == 2 {
        if text.get_char(1) == '}' {
            let empty: Vec<AccessPoint> = Vec::new();
            proof {
                assert(views_of(empty@) =~= Seq::<ApView>::empty());
            }
            return Some(empty);
        }
    }
    let mut cur: usize = 1;
    let mut out: Vec<AccessPoint> = Vec::new();
    proof {
        assert(views_of(out@) =~= Seq::<ApView>::empty());
    }
    loop
        invariant
            1 <= cur <= n,
            n as nat == text@.len(),
            n >= 2,
            !(n == 2 && text@[1] == '}'),
            text@[0] == '{',
            forall|i: int|
                0 <= i < out@.len() ==> wf_ap(#[trigger] views_of(out@)[i]) && views_of(
                    out@,
                )[i].id is Some && views_of(out@)[i].id.unwrap() <= usize::MAX as nat,
            ({
                let rem = spec_parse_items(text@.skip(cur as int));
                let whole = spec_parse_items(text@.skip(1));
                match rem {
                    Some((rest, k)) => whole == Some(
                        (views_of(out@) + rest, ((cur - 1) as nat + k) as nat),
                    ),
                    None => whole is None,
                }
            }),
        decreases n - cur,
    {
        let (rec, q) = match parse_entry(text, cur) {
            Some(v) => v,
            None => {
                proof {
                    reveal(spec_parse_items);
                }
                return None;
            },
        };
        let ghost out0 = out@;
        out.push(rec);
        proof {
            assert(out@ == out0.push(rec));
            assert(views_of(out0).len() == out0.len());
            assert forall|i: int| 0 <= i < out@.len() implies #[trigger] views_of(out@)[i]
                == (if i < out0.len() {
                views_of(out0)[i]
            } else {
                rec@
            }) by {
                assert(views_of(out@)[i] == out@[i]@);
                if i < out0.len() {
                    assert(out0.push(rec)[i] == out0[i]);
                    assert(views_of(out0)[i] == out0[i]@);
                } else {
                    assert(out0.push(rec)[i] == rec);
                }
            }
            assert(views_of(out@) =~= views_of(out0).push(rec@));
        }
        if q < n && text.get_char(q) == ',' {
            if q + 1 >= n {
                proof {
                    reveal(spec_parse_items);
                    assert(text@.skip(cur as int)[(q - cur) as int] == text@[q as int]);
                }
                return None;
            }
            proof {
                reveal(spec_parse_items);
                assert(text@.skip(cur as int)[(q - cur) as int] == text@[q as int]);
                assert(text@.skip(cur as int).skip((q + 1 - cur) as int) =~= text@.skip(
                    (q + 1) as int,
                ));
                match spec_parse_items(text@.skip((q + 1) as int)) {
                    Some((rest, m)) => {
                        assert(spec_parse_items(text@.skip(cur as int)) == Some(
                            (seq![rec@] + rest, ((q - cur) as nat + 1 + m) as nat),
                        ));
                        assert(views_of(out0).push(rec@) + rest =~= views_of(out0) + (
                        seq![rec@] + rest));
                    },
                    None => {
                        assert(spec_parse_items(text@.skip(cur as int)) is None);
                    },
                }
            }
            cur = q + 1;
        } else if q < n && text.get_char(q) == '}' {
            proof {
                reveal(spec_parse_items);
                assert(text@.skip(cur as int)[(q - cur) as int] == text@[q as int]);
                assert(spec_parse_items(text@.skip(cur as int)) == Some(
                    (seq![rec@], ((q - cur) as nat + 1) as nat),
                ));
                assert(views_of(out0).push(rec@) =~= views_of(out0) + seq![rec@]);
            }
            if q + 1 == n {
                return Some(out);
            } else {
                return None;
            }
        } else {
            proof {
                reveal(spec_parse_items);
                if q < n {
                    assert(text@.skip(cur as int)[(q - cur) as int] == text@[q as int]);
                } else {
                    assert(text@.skip(cur as int).len() == n - cur);
                }
            }
            return None;
        }
    }
}

/// Consecutive identifiers strictly increase (stated over pairs of
/// neighbouring indices).
pub open spec fn consec_sorted(w: Seq<ApView>) -> bool {
    forall|i: int, j: int|
        #![trigger w[i], w[j]]
        0 <= i && j == i + 1 && j < w.len() ==> w[i].id.unwrap() < w[j].id.unwrap()
}

/// Whether consecutive identifiers strictly increase.
#[verifier::rlimit(100)]
fn check_sorted(v: &Vec<AccessPoint>) -> (r: bool)
    requires
        forall|i: int| 0 <= i < v@.len() ==> (#[trigger] views_of(v@)[i]).id is Some,
    ensures
        r == consec_sorted(views_of(v@)),
{
    let n = v.len();
    if n == 0 {
        proof {
            assert(views_of(v@).len() == v@.len());
        }
        return true;
    }
    let mut i: usize = 0;
    while i < n - 1
        invariant
            n == v@.len(),
            n >= 1,
            0 <= i <= n - 1,
            forall|i0: int| 0 <= i0 < v@.len() ==> (#[trigger] views_of(v@)[i0]).id is Some,
            forall|j: int, j2: int|
                #![trigger views_of(v@)[j], views_of(v@)[j2]]
                0 <= j < i && j2 == j + 1 ==> views_of(v@)[j].id.unwrap() < views_of(
                    v@,
                )[j2].id.unwrap(),
        decreases n - i,
    {
        proof {
            assert(views_of(v@)[i as int] == v@[i as int]@);
            assert(views_of(v@)[i + 1 as int] == v@[i + 1 as int]@);
        }
        let a = match v[i].id() {
            Some(x) => x,
            None => {
                proof {
                    assert(false);
                }
                0
            },
        };
        let b = match v[i + 1].id() {
            Some(x) => x,
            None => {
                proof {
                    assert(false);
                }
                0
            },
        };
        if a >= b {
            proof {
                assert(views_of(v@).len() == v@.len());
            }
            return false;
        }
        i = i + 1;
    }
    proof {
        assert(views_of(v@).len() == v@.len());
    }
    true
}

/// Strictly increasing consecutive identifiers make the whole sequence
/// strictly increasing.
proof fn lemma_chain(s: Seq<ApView>, i: int, j: int)
    requires
        forall|k: int| 0 <= k < s.len() ==> (#[trigger] s[k]).id is Some,
        consec_sorted(s),
        0 <= i < j < s.len(),
    ensures
        s[i].id.unwrap() < s[j].id.unwrap(),
    decreases j - i,
{
    if j == i + 1 {
    } else {
        lemma_chain(s, i, j - 1);
        assert(s[j - 1].id.unwrap() < s[j].id.unwrap());
    }
}

/// Consecutive order decides well-formedness of parsed records: with every
/// record well formed and carrying a bounded identifier, the group is well
/// formed exactly when consecutive identifiers strictly increase.
proof fn lemma_sorted_wf(w: Seq<ApView>)
    requires
        forall|i: int|
            0 <= i < w.len() ==> wf_ap(#[trigger] w[i]) && w[i].id is Some && w[i].id.unwrap()
                <= usize::MAX as nat,
    ensures
        wf_group(w) <==> consec_sorted(w),
{
    if consec_sorted(w) {
        assert forall|i: int, j: int| 0 <= i < j < w.len() implies (#[trigger] w[i]).id.unwrap()
            < (#[trigger] w[j]).id.unwrap() by {
            lemma_chain(w, i, j);
        }
        assert(wf_group(w));
    }
    if wf_group(w) {
        assert forall|i: int, j: int|
            #![trigger w[i], w[j]]
            0 <= i && j == i + 1 && j < w.len() implies w[i].id.unwrap() < w[j].id.unwrap() by {
            assert(w[i].id.unwrap() < w[j].id.unwrap());
        }
        assert(consec_sorted(w));
    }
}

impl AccessPoints {
    /// Load a registry from a stored document.  A document that the parser
    /// refuses, or whose records are not well formed with strictly
    /// increasing identifiers, yields a freshly empty registry — there is
    /// no partially loaded state.
    #[verifier::rlimit(100)]
    pub fn load(doc: &str) -> (r: Self)
        ensures
            r@ == load_result(doc@),
            r.wf(),
    {
        match parse_doc(doc) {
            None => AccessPoints::new(),
            Some(v) => {
                proof {
                    lemma_sorted_wf(views_of(v@));
                }
                if check_sorted(&v) {
                    let r = AccessPoints { points: v };
                    proof {
                        crate::ap::lemma_points_views(&r);
                    }
                    r
                } else {
                    AccessPoints::new()
                }
            },
        }
    }
}

// ---------------------------------------------------------------------------
// Round trip: parsing undoes writing
// ---------------------------------------------------------------------------

/// Parsing the stored form of a well-formed record gives the record back
/// (with its identifier cleared), whatever text follows.
#[verifier::rlimit(100)]
proof fn lemma_record_round_trip(a: ApView, rest: Seq<char>)
    requires
        wf_ap(a),
    ensures
        spec_parse_record(enc_record(a) + rest) == Some(
            (ApView { id: None, ..a }, enc_record(a).len() as nat),
        ),
{
    reveal(spec_parse_record);
    reveal_strlit(",\"long\":");
    reveal_strlit(",\"status\":");
    reveal_strlit("Working");
    reveal_strlit("InRepair");
    reveal_strlit("NotWorking");
    reveal_strlit("Wheelchair");
    reveal_strlit("Interpreter");
    let l1 = "{\"name\":"@;
    let e1 = quoted(a.name);
    let l2 = ",\"kind\":"@;
    let e2 = quoted(kind_label(a.kind));
    let l3 = ",\"lat\":"@;
    let e3 = int_digits(a.location.lat_micro as int);
    let l4 = ",\"long\":"@;
    let e4 = int_digits(a.location.long_micro as int);
    let l5 = ",\"status\":"@;
    let e5 = quoted(status_key(a.status));
    let l6 = "}"@;
    let s = enc_record(a) + rest;
    assert(s =~= l1 + e1 + l2 + e2 + l3 + e3 + l4 + e4 + l5 + e5 + l6 + rest);

    // the opening literal
    assert(s.take(l1.len() as int) =~= l1);
    let p1 = l1.len();
    assert(s.skip(p1 as int) =~= e1 + (l2 + e2 + l3 + e3 + l4 + e4 + l5 + e5 + l6 + rest));

    // the name
    crate::text::lemma_parse_string_round_trip(
        a.name,
        l2 + e2 + l3 + e3 + l4 + e4 + l5 + e5 + l6 + rest,
    );
    let p2 = p1 + e1.len();
    assert(s.skip(p2 as int) =~= l2 + (e2 + l3 + e3 + l4 + e4 + l5 + e5 + l6 + rest));
    assert(s.skip(p2 as int).take(l2.len() as int) =~= l2);

    // the category label
    let p3 = p2 + l2.len();
    assert(s.skip(p3 as int) =~= e2 + (l3 + e3 + l4 + e4 + l5 + e5 + l6 + rest));
    crate::text::lemma_parse_string_round_trip(
        kind_label(a.kind),
        l3 + e3 + l4 + e4 + l5 + e5 + l6 + rest,
    );
    let p4 = p3 + e2.len();
    assert(s.skip(p4 as int) =~= l3 + (e3 + l4 + e4 + l5 + e5 + l6 + rest));
    assert(s.skip(p4 as int).take(l3.len() as int) =~= l3);

    // the latitude
    let p5 = p4 + l3.len();
    assert(s.skip(p5 as int) =~= e3 + (l4 + e4 + l5 + e5 + l6 + rest));
    assert(!crate::text::is_digit((l4 + e4 + l5 + e5 + l6 + rest)[0]));
    crate::text::lemma_parse_i64_round_trip(
        a.location.lat_micro as int,
        l4 + e4 + l5 + e5 + l6 + rest,
    );
    let p6 = p5 + e3.len();
    assert(s.skip(p6 as int) =~= l4 + (e4 + l5 + e5 + l6 + rest));
    assert(s.skip(p6 as int).take(l4.len() as int) =~= l4);

    // the longitude
    let p7 = p6 + l4.len();
    assert(s.skip(p7 as int) =~= e4 + (l5 + e5 + l6 + rest));
    assert(!crate::text::is_digit((l5 + e5 + l6 + rest)[0]));
    crate::text::lemma_parse_i64_round_trip(a.location.long_micro as int, l5 + e5 + l6 + rest);
    let p8 = p7 + e4.len();
    assert(s.skip(p8 as int) =~= l5 + (e5 + l6 + rest));
    assert(s.skip(p8 as int).take(l5.len() as int) =~= l5);

    // the status keyword
    let p9 = p8 + l5.len();
    assert(s.skip(p9 as int) =~= e5 + (l6 + rest));
    crate::text::lemma_parse_string_round_trip(status_key(a.status), l6 + rest);
    assert(status_of_key(status_key(a.status)) == Some(a.status));
    let p10 = p9 + e5.len();
    assert(s.skip(p10 as int) =~= l6 + rest);
    assert(s.skip(p10 as int).take(l6.len() as int) =~= l6);

    // the category normalizes back to itself
    assert(simplify_kind(KindView::Other(kind_label(a.kind))) == a.kind);

    assert(spec_parse_record(s) == Some((ApView { id: None, ..a }, enc_record(a).len() as nat)));
}

/// Parsing the stored form of a well-formed, registered entry gives the
/// record back, whatever text follows.
#[verifier::rlimit(100)]
proof fn lemma_entry_round_trip(a: ApView, rest: Seq<char>)
    requires
        wf_ap(a),
        a.id is Some,
        a.id.unwrap() <= usize::MAX as nat,
    ensures
        spec_parse_entry(enc_entry(a) + rest) == Some((a, enc_entry(a).len() as nat)),
{
    reveal_strlit("\":");
    let digits = nat_digits(a.id.unwrap());
    let lm = "\":"@;
    let er = enc_record(a);
    let s = enc_entry(a) + rest;
    assert(s =~= seq!['"'] + digits + lm + er + rest);
    assert(s[0] == '"');
    assert(s.skip(1) =~= digits + (lm + er + rest));
    assert((lm + er + rest)[0] == '"');
    assert(!crate::text::is_digit('"'));
    crate::text::lemma_parse_num_round_trip(
        a.id.unwrap(),
        usize::MAX as nat,
        lm + er + rest,
    );
    let p = 1 + digits.len();
    assert(s.skip(p as int) =~= lm + (er + rest));
    assert(s.skip(p as int).take(lm.len() as int) =~= lm);
    let p2 = p + lm.len();
    assert(s.skip(p2 as int) =~= er + rest);
    lemma_record_round_trip(a, rest);
    assert(spec_parse_entry(s) == Some((a, enc_entry(a).len() as nat)));
}

/// Parsing stored entries followed by the closing brace gives the records
/// back, whatever text follows the brace.
#[verifier::rlimit(100)]
proof fn lemma_entries_round_trip(s: Seq<ApView>, rest: Seq<char>)
    requires
        s.len() > 0,
        forall|i: int|
            0 <= i < s.len() ==> wf_ap(#[trigger] s[i]) && s[i].id is Some && s[i].id.unwrap()
                <= usize::MAX as nat,
    ensures
        spec_parse_items(enc_entries(s) + seq!['}'] + rest) == Some(
            (s, (enc_entries(s).len() + 1) as nat),
        ),
    decreases s.len(),
{
    reveal(spec_parse_items);
    let t = enc_entries(s) + seq!['}'] + rest;
    if s.len() == 1 {
        assert(t =~= enc_entry(s[0]) + (seq!['}'] + rest));
        lemma_entry_round_trip(s[0], seq!['}'] + rest);
        let k = enc_entry(s[0]).len();
        assert(t[k as int] == '}');
        assert(seq![s[0]] =~= s);
    } else {
        let d = s.drop_first();
        assert(enc_entries(s) == enc_entry(s[0]) + seq![','] + enc_entries(d));
        assert(t =~= enc_entry(s[0]) + (seq![','] + enc_entries(d) + seq!['}'] + rest));
        lemma_entry_round_trip(s[0], seq![','] + enc_entries(d) + seq!['}'] + rest);
        let k = enc_entry(s[0]).len();
        assert(t[k as int] == (seq![','] + enc_entries(d) + seq!['}'] + rest)[0]);
        assert(t[k as int] == ',');
        assert forall|i: int|
            0 <= i < d.len() implies wf_ap(#[trigger] d[i]) && d[i].id is Some
                && d[i].id.unwrap() <= usize::MAX as nat by {
            assert(d[i] == s[i + 1]);
        }
        lemma_entries_round_trip(d, rest);
        assert(t.skip((k + 1) as int) =~= enc_entries(d) + seq!['}'] + rest);
        assert(enc_entries(d).len() >= 1) by {
            if d.len() == 1 {
                assert(enc_entries(d) == enc_entry(d[0]));
            }
        }
        assert(k + 1 < t.len());
        assert(seq![s[0]] + d =~= s);
        assert(spec_parse_items(t) == Some((s, (enc_entries(s).len() + 1) as nat)));
    }
}

/// A well-formed registry's document denotes exactly the registry.
#[verifier::rlimit(100)]
proof fn lemma_doc_round_trip(s: Seq<ApView>)
    requires
        wf_group(s),
    ensures
        doc_value(enc_doc(s)) == Some(s),
{
    let d = enc_doc(s);
    assert(d[0] == '{');
    if s.len() == 0 {
        assert(enc_entries(s) == Seq::<char>::empty());
        assert(d =~= seq!['{'] + seq!['}']);
        assert(d.len() == 2 && d[1] == '}');
        assert(s =~= Seq::<ApView>::empty());
    } else {
        assert(enc_entries(s).len() >= 1) by {
            if s.len() == 1 {
                assert(enc_entries(s) == enc_entry(s[0]));
            }
        }
        assert(d.len() > 2);
        lemma_entries_round_trip(s, Seq::<char>::empty());
        assert(d.skip(1) =~= enc_entries(s) + seq!['}'] + Seq::<char>::empty());
        assert(spec_parse_items(d.skip(1)) == Some((s, (enc_entries(s).len() + 1) as nat)));
        assert(1 + (enc_entries(s).len() + 1) == d.len());
    }
}

/// The persistence law: saving a well-formed registry and loading the
/// document back reproduces the identical records — the same identifiers,
/// names, kinds, statuses and locations.
pub proof fn lemma_save_load_round_trip(s: Seq<ApView>)
    requires
        wf_group(s),
    ensures
        load_result(enc_doc(s)) == s,
{
    lemma_doc_round_trip(s);
}

} // verus!
