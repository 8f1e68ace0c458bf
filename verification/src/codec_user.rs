//! The stored form of the user registry: one document that maps each
//! username to its account, written as a JSON object in a fixed canonical
//! shape, and the strict parser that reads it back.
//!
//! The document looks like
//! `{"alice":{"password":"$2b$...","access_points":[0,3]}}`.  Writing and
//! parsing are exact inverses on well-formed registries; a document the
//! parser refuses loads as an empty registry.

use crate::ap::APID;
use crate::text::expect_lit;
use crate::text::nat_digits;
use crate::text::parse_num;
use crate::text::parse_string;
use crate::text::push_char;
use crate::text::push_nat;
use crate::text::push_quoted;
use crate::text::quoted;
use crate::text::spec_parse_num;
use crate::text::spec_parse_string;
use crate::text::starts_with;
use crate::user::subs_sorted;
use crate::user::user_views_of;
use crate::user::wf_users;
use crate::user::User;
use crate::user::UserView;
use crate::user::Users;
use vstd::prelude::*;

verus! {

// ---------------------------------------------------------------------------
// The stored form
// ---------------------------------------------------------------------------

/// The stored identifiers of a subscription set, comma-separated.
pub open spec fn enc_id_items(ids: Seq<APID>) -> Seq<char>
    decreases ids.len(),
{
    if ids.len() == 0 {
        Seq::empty()
    } else if ids.len() == 1 {
        nat_digits(ids[0] as nat)
    } else {
        nat_digits(ids[0] as nat) + seq![','] + enc_id_items(ids.drop_first())
    }
}

/// The stored form of a subscription set.
pub open spec fn enc_ids(ids: Seq<APID>) -> Seq<char> {
    seq!['['] + enc_id_items(ids) + seq![']']
}

/// The stored form of one account (without its username).
pub open spec fn enc_user_record(u: UserView) -> Seq<char> {
    "{\"password\":"@ + quoted(u.password) + ",\"access_points\":"@ + enc_ids(u.access_points)
        + "}"@
}

/// The stored form of one entry: the username as a quoted key, then the
/// account.
pub open spec fn enc_user_entry(u: UserView) -> Seq<char> {
    quoted(u.username) + ":"@ + enc_user_record(u)
}

/// The stored entries, comma-separated.
pub open spec fn enc_user_entries(s: Seq<UserView>) -> Seq<char>
    decreases s.len(),
{
    if s.len() == 0 {
        Seq::empty()
    } else if s.len() == 1 {
        enc_user_entry(s[0])
    } else {
        enc_user_entry(s[0]) + seq![','] + enc_user_entries(s.drop_first())
    }
}

/// The stored document.
pub open spec fn enc_user_doc(s: Seq<UserView>) -> Seq<char> {
    seq!['{'] + enc_user_entries(s) + seq!['}']
}

// ---------------------------------------------------------------------------
// The parser, as a specification
// ---------------------------------------------------------------------------

/// Parse the identifiers of a non-empty subscription array, up to and
/// including the closing bracket.
#[verifier::opaque]
pub open spec fn spec_parse_id_items(s: Seq<char>) -> Option<(Seq<APID>, nat)>
    decreases s.len(),
{
    match spec_parse_num(s, usize::MAX as nat) {
        None => None,
        Some((v, k)) => {
            if k < s.len() && s[k as int] == ',' {
                if k + 1 < s.len() {
                    match spec_parse_id_items(s.skip((k + 1) as int)) {
                        None => None,
                        Some((rest, m)) => Some(
                            (seq![v as APID] + rest, (k + 1 + m) as nat),
                        ),
                    }
                } else {
                    None
                }
            } else if k < s.len() && s[k as int] == ']' {
                Some((seq![v as APID], (k + 1) as nat))
            } else {
                None
            }
        },
    }
}

/// Parse a subscription array, brackets included.
pub open spec fn spec_parse_ids(s: Seq<char>) -> Option<(Seq<APID>, nat)> {
    if s.len() >= 2 && s[0] == '[' {
        if s[1] == ']' {
            Some((Seq::empty(), 2))
        } else {
            match spec_parse_id_items(s.skip(1)) {
                None => None,
                Some((ids, k)) => Some((ids, (k + 1) as nat)),
            }
        }
    } else {
        None
    }
}

/// Parse one account record: the stored hash and the subscription array.
#[verifier::opaque]
pub open spec fn spec_parse_user_record(s: Seq<char>) -> Option<((Seq<char>, Seq<APID>), nat)> {
    if !starts_with(s, "{\"password\":"@) {
        None
    } else {
        let p1 = "{\"password\":"@.len();
        match spec_parse_string(s.skip(p1 as int)) {
            None => None,
            Some((password, n1)) => {
                let p2 = p1 + n1;
                if !starts_with(s.skip(p2 as int), ",\"access_points\":"@) {
                    None
                } else {
                    let p3 = p2 + ",\"access_points\":"@.len();
                    match spec_parse_ids(s.skip(p3 as int)) {
                        None => None,
                        Some((ids, n2)) => {
                            let p4 = p3 + n2;
                            if !starts_with(s.skip(p4 as int), "}"@) {
                                None
                            } else {
                                Some(((password, ids), (p4 + "}"@.len()) as nat))
                            }
                        },
                    }
                }
            },
        }
    }
}

/// Parse one entry: a quoted username, a colon, an account record.
pub open spec fn spec_parse_user_entry(s: Seq<char>) -> Option<(UserView, nat)> {
    match spec_parse_string(s) {
        None => None,
        Some((username, n1)) => {
            if !starts_with(s.skip(n1 as int), ":"@) {
                None
            } else {
                let p2 = n1 + ":"@.len();
                match spec_parse_user_record(s.skip(p2 as int)) {
                    None => None,
                    Some(((password, ids), m)) => Some(
                        (UserView { username, password, access_points: ids }, (p2 + m) as nat),
                    ),
                }
            }
        },
    }
}

/// Parse the entries of a non-empty document, from after the opening brace
/// up to and including the closing brace.
#[verifier::opaque]
pub open spec fn spec_parse_user_items(s: Seq<char>) -> Option<(Seq<UserView>, nat)>
    decreases s.len(),
{
    match spec_parse_user_entry(s) {
        None => None,
        Some((u, k)) => {
            if k < s.len() && s[k as int] == ',' {
                if k + 1 < s.len() {
                    match spec_parse_user_items(s.skip((k + 1) as int)) {
                        None => None,
                        Some((rest, m)) => Some((seq![u] + rest, (k + 1 + m) as nat)),
                    }
                } else {
                    None
                }
            } else if k < s.len() && s[k as int] == '}' {
                Some((seq![u], (k + 1) as nat))
            } else {
                None
            }
        },
    }
}

/// The accounts a document denotes, when it is exactly one well-shaped
/// object consumed in full.
pub open spec fn user_doc_value(s: Seq<char>) -> Option<Seq<UserView>> {
    if s.len() >= 2 && s[0] == '{' {
        if s.len() == 2 && s[1] == '}' {
            Some(Seq::empty())
        } else {
            match spec_parse_user_items(s.skip(1)) {
                None => None,
                Some((items, k)) => {
                    if 1 + k == s.len() {
                        Some(items)
                    } else {
                        None
                    }
                },
            }
        }
    } else {
        None
    }
}

/// What loading a document yields: its denoted accounts when they are well
/// formed, an empty registry on any parse or well-formedness failure.
pub open spec fn user_load_result(doc: Seq<char>) -> Seq<UserView> {
    match user_doc_value(doc) {
        Some(items) => {
            if wf_users(items) {
                items
            } else {
                Seq::empty()
            }
        },
        None => Seq::empty(),
    }
}

// ---------------------------------------------------------------------------
// Writing
// ---------------------------------------------------------------------------

fn push_ids(out: &mut String, ids: &Vec<APID>)
    ensures
        final(out)@ == old(out)@ + enc_ids(ids@),
{
    push_char(out, '[');
    let n = ids.len();
    let mut i: usize = 0;
    while i < n
        invariant
            0 <= i <= n,
            n == ids@.len(),
            old(out)@ + seq!['['] + enc_id_items(ids@) == out@ + (if i == 0 {
                enc_id_items(ids@)
            } else if i < n {
                seq![','] + enc_id_items(ids@.skip(i as int))
            } else {
                Seq::<char>::empty()
            }),
        decreases n - i,
    {
        if i > 0 {
            push_char(out, ',');
        }
        push_nat(out, ids[i] as u64);
        proof {
            let s = ids@;
            let rem = s.skip(i as int);
            assert(rem[0] == s[i as int]);
            assert(rem.drop_first() =~= s.skip(i + 1 as int));
            if i == 0 {
                assert(rem =~= s);
                if s.len() > 1 {
                    assert(enc_id_items(s) == nat_digits(s[0] as nat) + seq![',']
                        + enc_id_items(s.drop_first()));
                    assert(s.drop_first() =~= s.skip(1));
                }
            } else {
                if rem.len() > 1 {
                    assert(enc_id_items(rem) == nat_digits(s[i as int] as nat) + seq![',']
                        + enc_id_items(rem.drop_first()));
                }
            }
            assert(old(out)@ + seq!['['] + enc_id_items(ids@) =~= out@ + (if i + 1 < n {
                seq![','] + enc_id_items(ids@.skip(i + 1 as int))
            } else {
                Seq::<char>::empty()
            }));
        }
        i = i + 1;
    }
    push_char(out, ']');
    proof {
        if n == 0 {
            assert(enc_id_items(ids@) =~= Seq::<char>::empty());
        }
        assert(final(out)@ =~= old(out)@ + enc_ids(ids@));
    }
}

fn push_user_record(out: &mut String, u: &User)
    ensures
        final(out)@ == old(out)@ + enc_user_record(u@),
{
    out.append("{\"password\":");
    push_quoted(out, u.password_hash().as_str());
    out.append(",\"access_points\":");
    push_ids(out, u.access_points());
    out.append("}");
    proof {
        assert(final(out)@ =~= old(out)@ + enc_user_record(u@));
    }
}

fn push_user_entry(out: &mut String, u: &User)
    ensures
        final(out)@ == old(out)@ + enc_user_entry(u@),
{
    push_quoted(out, u.username().as_str());
    out.append(":");
    push_user_record(out, u);
    proof {
        assert(final(out)@ =~= old(out)@ + enc_user_entry(u@));
    }
}

impl Users {
    /// The full registry as one stored document.  The caller is expected to
    /// write it to durable storage once, at orderly shutdown.
    pub fn save(&self) -> (r: String)
        ensures
            r@ == enc_user_doc(self@),
    {
        let mut out = String::new();
        push_char(&mut out, '{');
        let n = self.users.len();
        let mut i: usize = 0;
        proof {
            crate::user::lemma_users_views(self);
        }
        while i < n
            invariant
                0 <= i <= n,
                n == self.users.len(),
                self@ == user_views_of(self.users@),
                seq!['{'] + enc_user_entries(self@) == out@ + (if i == 0 {
                    enc_user_entries(self@)
                } else if i < n {
                    seq![','] + enc_user_entries(self@.skip(i as int))
                } else {
                    Seq::<char>::empty()
                }),
            decreases n - i,
        {
            proof {
                assert(user_views_of(self.users@).len() == self.users@.len());
                assert(user_views_of(self.users@)[i as int] == self.users@[i as int]@);
            }
            if i > 0 {
                push_char(&mut out, ',');
            }
            push_user_entry(&mut out, &self.users[i]);
            proof {
                let s = self@;
                let rem = s.skip(i as int);
                assert(rem[0] == s[i as int]);
                assert(rem.drop_first() =~= s.skip(i + 1 as int));
                if i == 0 {
                    assert(rem =~= s);
                    if s.len() > 1 {
                        assert(enc_user_entries(s) == enc_user_entry(s[0]) + seq![',']
                            + enc_user_entries(s.drop_first()));
                        assert(s.drop_first() =~= s.skip(1));
                    }
                } else {
                    if rem.len() > 1 {
                        assert(enc_user_entries(rem) == enc_user_entry(s[i as int]) + seq![',']
                            + enc_user_entries(rem.drop_first()));
                    }
                }
                assert(seq!['{'] + enc_user_entries(self@) =~= out@ + (if i + 1 < n {
                    seq![','] + enc_user_entries(self@.skip(i + 1 as int))
                } else {
                    Seq::<char>::empty()
                }));
            }
            i = i + 1;
        }
        push_char(&mut out, '}');
        proof {
            if n == 0 {
                assert(enc_user_entries(self@) =~= Seq::<char>::empty());
            }
            assert(out@ =~= enc_user_doc(self@));
        }
        out
    }
}

// ---------------------------------------------------------------------------
// Reading
// ---------------------------------------------------------------------------

#[verifier::rlimit(100)]
fn parse_ids(text: &str, p: usize) -> (r: Option<(Vec<APID>, usize)>)
    requires
        p <= text@.len(),
    ensures
        match r {
            Some((ids, q)) => {
                &&& spec_parse_ids(text@.skip(p as int)) == Some((ids@, (q - p) as nat))
                &&& p < q <= text@.len()
            },
            None => spec_parse_ids(text@.skip(p as int)) is None,
        },
{
    let ghost s = text@.skip(p as int);
    let n = text.unicode_len();
    if p >= n || text.get_char(p) != '[' {
        proof {
            if s.len() > 0 {
                assert(s[0] == text@[p as int]);
            }
        }
        return None;
    }
    if p + 1 >= n {
        proof {
            assert(s.len() < 2);
        }
        return None;
    }
    proof {
        assert(s[0] == text@[p as int]);
        assert(s[1] == text@[p + 1 as int]);
    }
    if text.get_char(p + 1) == ']' {
        let empty: Vec<APID> = Vec::new();
        proof {
            assert(empty@ =~= Seq::<APID>::empty());
        }
        return Some((empty, p + 2));
    }
    let mut cur: usize = p + 1;
    let mut out: Vec<APID> = Vec::new();
    proof {
        assert(text@.skip(p + 1 as int) =~= s.skip(1));
        assert(out@ =~= Seq::<APID>::empty());
    }
    loop
        invariant
            p + 1 <= cur <= n,
            n as nat == text@.len(),
            s == text@.skip(p as int),
            s.len() >= 2,
            s[0] == '[',
            s[1] != ']',
            text@.skip(p + 1 as int) == s.skip(1),
            ({
                let rem = spec_parse_id_items(text@.skip(cur as int));
                let whole = spec_parse_id_items(text@.skip(p + 1 as int));
                match rem {
                    Some((rest, k)) => whole == Some(
                        (out@ + rest, ((cur - p - 1) as nat + k) as nat),
                    ),
                    None => whole is None,
                }
            }),
        decreases n - cur,
    {
        let (v, q) = match parse_num(text, cur, usize::MAX as u64) {
            Some(v) => v,
            None => {
                proof {
                    reveal(spec_parse_id_items);
                }
                return None;
            },
        };
        let ghost out0 = out@;
        out.push(v as usize);
        proof {
            assert(out@ =~= out0.push(v as usize));
        }
        if q < n && text.get_char(q) == ',' {
            if q + 1 >= n {
                proof {
                    reveal(spec_parse_id_items);
                    assert(text@.skip(cur as int)[(q - cur) as int] == text@[q as int]);
                }
                return None;
            }
            proof {
                reveal(spec_parse_id_items);
                assert(text@.skip(cur as int)[(q - cur) as int] == text@[q as int]);
                assert(text@.skip(cur as int).skip((q + 1 - cur) as int) =~= text@.skip(
                    (q + 1) as int,
                ));
                match spec_parse_id_items(text@.skip((q + 1) as int)) {
                    Some((rest, m)) => {
                        assert(spec_parse_id_items(text@.skip(cur as int)) == Some(
                            (seq![v as APID] + rest, ((q - cur) as nat + 1 + m) as nat),
                        ));
                        assert(out0.push(v as usize) + rest =~= out0 + (seq![v as APID]
                            + rest));
                    },
                    None => {
                        assert(spec_parse_id_items(text@.skip(cur as int)) is None);
                    },
                }
            }
            cur = q + 1;
        } else if q < n && text.get_char(q) == ']' {
            proof {
                reveal(spec_parse_id_items);
                assert(text@.skip(cur as int)[(q - cur) as int] == text@[q as int]);
                assert(spec_parse_id_items(text@.skip(cur as int)) == Some(
                    (seq![v as APID], ((q - cur) as nat + 1) as nat),
                ));
                assert(out0.push(v as usize) =~= out0 + seq![v as APID]);
            }
            return Some((out, q + 1));
        } else {
            proof {
                reveal(spec_parse_id_items);
                if q < n {
                    assert(text@.skip(cur as int)[(q - cur) as int] == text@[q as int]);
                } else {
                    assert(text@.skip(cur as int).len() == n - cur);
                }
            }
            return None;
        }
    }
}

#[verifier::rlimit(100)]
fn parse_user_record(text: &str, p: usize) -> (r: Option<(String, Vec<APID>, usize)>)
    requires
        p <= text@.len(),
    ensures
        match r {
            Some((pw, ids, q)) => {
                &&& spec_parse_user_record(text@.skip(p as int)) == Some(
                    ((pw@, ids@), (q - p) as nat),
                )
                &&& p < q <= text@.len()
            },
            None => spec_parse_user_record(text@.skip(p as int)) is None,
        },
{
    proof {
        reveal(spec_parse_user_record);
    }
    let ghost s = text@.skip(p as int);
    let q1 = match expect_lit(text, p, "{\"password\":") {
        Some(q) => q,
        None => {
            return None;
        },
    };
    proof {
        assert(text@.skip(q1 as int) =~= s.skip(("{\"password\":"@).len() as int));
    }
    let (pw, q2) = match parse_string(text, q1) {
        Some(v) => v,
        None => {
            return None;
        },
    };
    let q3 = match expect_lit(text, q2, ",\"access_points\":") {
        Some(q) => q,
        None => {
            proof {
                assert(text@.skip(q2 as int) =~= s.skip((q2 - p) as int));
            }
            return None;
        },
    };
    proof {
        assert(text@.skip(q2 as int) =~= s.skip((q2 - p) as int));
        assert(text@.skip(q3 as int) =~= s.skip((q3 - p) as int));
    }
    let (ids, q4) = match parse_ids(text, q3) {
        Some(v) => v,
        None => {
            return None;
        },
    };
    proof {
        assert(text@.skip(q4 as int) =~= s.skip((q4 - p) as int));
    }
    let qf = match expect_lit(text, q4, "}") {
        Some(q) => q,
        None => {
            return None;
        },
    };
    Some((pw, ids, qf))
}

#[verifier::rlimit(100)]
fn parse_user_entry(text: &str, p: usize) -> (r: Option<(User, usize)>)
    requires
        p <= text@.len(),
    ensures
        match r {
            Some((u, q)) => {
                &&& spec_parse_user_entry(text@.skip(p as int)) == Some((u@, (q - p) as nat))
                &&& p < q <= text@.len()
            },
            None => spec_parse_user_entry(text@.skip(p as int)) is None,
        },
{
    let ghost s = text@.skip(p as int);
    let (username, q1) = match parse_string(text, p) {
        Some(v) => v,
        None => {
            return None;
        },
    };
    let q2 = match expect_lit(text, q1, ":") {
        Some(q) => q,
        None => {
            proof {
                assert(text@.skip(q1 as int) =~= s.skip((q1 - p) as int));
            }
            return None;
        },
    };
    proof {
        assert(text@.skip(q1 as int) =~= s.skip((q1 - p) as int));
        assert(text@.skip(q2 as int) =~= s.skip((q2 - p) as int));
    }
    let (pw, ids, q3) = match parse_user_record(text, q2) {
        Some(v) => v,
        None => {
            return None;
        },
    };
    let u = User::assemble(username, pw, ids);
    Some((u, q3))
}

/// Parse a whole document into accounts; nothing unless the document is
/// exactly one well-shaped object.
#[verifier::rlimit(100)]
fn parse_user_doc(text: &str) -> (r: Option<Vec<User>>)
    ensures
        match r {
            Some(v) => user_doc_value(text@) == Some(user_views_of(v@)),
            None => user_doc_value(text@) is None,
        },
{
    let n = text.unicode_len();
    if n < 2 {
        return None;
    }
    if text.get_char(0) != '{' {
        return None;
    }
    if n == 2 {
        if text.get_char(1) == '}' {
            let empty: Vec<User> = Vec::new();
            proof {
                assert(user_views_of(empty@) =~= Seq::<UserView>::empty());
            }
            return Some(empty);
        }
    }
    let mut cur: usize = 1;
    let mut out: Vec<User> = Vec::new();
    proof {
        assert(user_views_of(out@) =~= Seq::<UserView>::empty());
    }
    loop
        invariant
            1 <= cur <= n,
            n as nat == text@.len(),
            n >= 2,
            !(n == 2 && text@[1] == '}'),
            text@[0] == '{',
            ({
                let rem = spec_parse_user_items(text@.skip(cur as int));
                let whole = spec_parse_user_items(text@.skip(1));
                match rem {
                    Some((rest, k)) => whole == Some(
                        (user_views_of(out@) + rest, ((cur - 1) as nat + k) as nat),
                    ),
                    None => whole is None,
                }
            }),
        decreases n - cur,
    {
        let (u, q) = match parse_user_entry(text, cur) {
            Some(v) => v,
            None => {
                proof {
                    reveal(spec_parse_user_items);
                }
                return None;
            },
        };
        let ghost out0 = out@;
        out.push(u);
        proof {
            assert(out@ == out0.push(u));
            assert(user_views_of(out0).len() == out0.len());
            assert forall|i: int| 0 <= i < out@.len() implies #[trigger] user_views_of(out@)[i]
                == (if i < out0.len() {
                user_views_of(out0)[i]
            } else {
                u@
            }) by {
                assert(user_views_of(out@)[i] == out@[i]@);
                if i < out0.len() {
                    assert(out0.push(u)[i] == out0[i]);
                    assert(user_views_of(out0)[i] == out0[i]@);
                } else {
                    assert(out0.push(u)[i] == u);
                }
            }
            assert(user_views_of(out@) =~= user_views_of(out0).push(u@));
        }
        if q < n && text.get_char(q) == ',' {
            if q + 1 >= n {
                proof {
                    reveal(spec_parse_user_items);
                    assert(text@.skip(cur as int)[(q - cur) as int] == text@[q as int]);
                }
                return None;
            }
            proof {
                reveal(spec_parse_user_items);
                assert(text@.skip(cur as int)[(q - cur) as int] == text@[q as int]);
                assert(text@.skip(cur as int).skip((q + 1 - cur) as int) =~= text@.skip(
                    (q + 1) as int,
                ));
                match spec_parse_user_items(text@.skip((q + 1) as int)) {
                    Some((rest, m)) => {
                        assert(spec_parse_user_items(text@.skip(cur as int)) == Some(
                            (seq![u@] + rest, ((q - cur) as nat + 1 + m) as nat),
                        ));
                        assert(user_views_of(out0).push(u@) + rest =~= user_views_of(out0) + (
                        seq![u@] + rest));
                    },
                    None => {
                        assert(spec_parse_user_items(text@.skip(cur as int)) is None);
                    },
                }
            }
            cur = q + 1;
        } else if q < n && text.get_char(q) == '}' {
            proof {
                reveal(spec_parse_user_items);
                assert(text@.skip(cur as int)[(q - cur) as int] == text@[q as int]);
                assert(spec_parse_user_items(text@.skip(cur as int)) == Some(
                    (seq![u@], ((q - cur) as nat + 1) as nat),
                ));
                assert(user_views_of(out0).push(u@) =~= user_views_of(out0) + seq![u@]);
            }
            if q + 1 == n {
                return Some(out);
            } else {
                return None;
            }
        } else {
            proof {
                reveal(spec_parse_user_items);
                if q < n {
                    assert(text@.skip(cur as int)[(q - cur) as int] == text@[q as int]);
                } else {
                    assert(text@.skip(cur as int).len() == n - cur);
                }
            }
            return None;
        }
    }
}

/// Neighbouring subscription entries strictly increase.
pub open spec fn consec_ids(s: Seq<APID>) -> bool {
    forall|i: int, j: int|
        #![trigger s[i], s[j]]
        0 <= i && j == i + 1 && j < s.len() ==> s[i] < s[j]
}

proof fn lemma_ids_chain(s: Seq<APID>, i: int, j: int)
    requires
        consec_ids(s),
        0 <= i < j < s.len(),
    ensures
        s[i] < s[j],
    decreases j - i,
{
    if j == i + 1 {
    } else {
        lemma_ids_chain(s, i, j - 1);
        assert(s[j - 1] < s[j]);
    }
}

/// Whether a subscription set is sorted and duplicate-free.
fn check_subs(v: &Vec<APID>) -> (r: bool)
    ensures
        r == subs_sorted(v@),
{
    let n = v.len();
    if n == 0 {
        return true;
    }
    let mut i: usize = 0;
    while i < n - 1
        invariant
            n == v@.len(),
            n >= 1,
            0 <= i <= n - 1,
            forall|j: int, j2: int|
                #![trigger v@[j], v@[j2]]
                0 <= j < i && j2 == j + 1 ==> v@[j] < v@[j2],
        decreases n - i,
    {
        if v[i] >= v[i + 1] {
            return false;
        }
        i = i + 1;
    }
    proof {
        assert(consec_ids(v@));
        assert forall|a: int, b: int| 0 <= a < b < v@.len() implies v@[a] < v@[b] by {
            lemma_ids_chain(v@, a, b);
        }
    }
    true
}

/// Whether every account is well formed and usernames are pairwise
/// distinct.
#[verifier::rlimit(100)]
fn check_users(v: &Vec<User>) -> (r: bool)
    ensures
        r == wf_users(user_views_of(v@)),
{
    let n = v.len();
    let mut i: usize = 0;
    proof {
        assert(user_views_of(v@).len() == v@.len());
    }
    while i < n
        invariant
            0 <= i <= n,
            n == v@.len(),
            user_views_of(v@).len() == v@.len(),
            forall|a: int|
                0 <= a < i ==> subs_sorted((#[trigger] user_views_of(v@)[a]).access_points),
            forall|a: int, b: int|
                0 <= a < i && a < b < v@.len() ==> (#[trigger] user_views_of(
                    v@,
                )[a]).username != (#[trigger] user_views_of(v@)[b]).username,
        decreases n - i,
    {
        proof {
            assert(user_views_of(v@)[i as int] == v@[i as int]@);
        }
        if !check_subs(v[i].access_points()) {
            return false;
        }
        let mut j: usize = i + 1;
        while j < n
            invariant
                0 <= i < j <= n,
                n == v@.len(),
                user_views_of(v@).len() == v@.len(),
                forall|b: int|
                    i < b < j ==> (#[trigger] user_views_of(v@)[b]).username != user_views_of(
                        v@,
                    )[i as int].username,
            decreases n - j,
        {
            proof {
                assert(user_views_of(v@)[j as int] == v@[j as int]@);
                assert(user_views_of(v@)[i as int] == v@[i as int]@);
            }
            if *v[i].username() == *v[j].username() {
                return false;
            }
            j = j + 1;
        }
        i = i + 1;
    }
    true
}

impl Users {
    /// Load a registry from a stored document.  A document that the parser
    /// refuses, or whose accounts are not well formed with pairwise
    /// distinct usernames, yields a freshly empty registry — there is no
    /// partially loaded state.
    #[verifier::rlimit(100)]
    pub fn load(doc: &str) -> (r: Self)
        ensures
            r@ == user_load_result(doc@),
            r.wf(),
    {
        match parse_user_doc(doc) {
            None => Users::new(),
            Some(v) => {
                if check_users(&v) {
                    let r = Users { users: v };
                    proof {
                        crate::user::lemma_users_views(&r);
                    }
                    r
                } else {
                    Users::new()
                }
            },
        }
    }
}

// ---------------------------------------------------------------------------
// Round trip: parsing undoes writing
// ---------------------------------------------------------------------------

/// Parsing stored identifiers followed by the closing bracket gives the
/// identifiers back, whatever text follows the bracket.
#[verifier::rlimit(100)]
proof fn lemma_ids_items_round_trip(ids: Seq<APID>, rest: Seq<char>)
    requires
        ids.len() > 0,
    ensures
        spec_parse_id_items(enc_id_items(ids) + seq![']'] + rest) == Some(
            (ids, (enc_id_items(ids).len() + 1) as nat),
        ),
    decreases ids.len(),
{
    reveal(spec_parse_id_items);
    let t = enc_id_items(ids) + seq![']'] + rest;
    if ids.len() == 1 {
        assert(t =~= nat_digits(ids[0] as nat) + (seq![']'] + rest));
        assert(!crate::text::is_digit(']'));
        crate::text::lemma_parse_num_round_trip(
            ids[0] as nat,
            usize::MAX as nat,
            seq![']'] + rest,
        );
        let k = nat_digits(ids[0] as nat).len();
        assert(t[k as int] == ']');
        assert(seq![ids[0]] =~= ids);
    } else {
        let d = ids.drop_first();
        assert(enc_id_items(ids) == nat_digits(ids[0] as nat) + seq![','] + enc_id_items(d));
        assert(t =~= nat_digits(ids[0] as nat) + (seq![','] + enc_id_items(d) + seq![']']
            + rest));
        assert(!crate::text::is_digit(','));
        crate::text::lemma_parse_num_round_trip(
            ids[0] as nat,
            usize::MAX as nat,
            seq![','] + enc_id_items(d) + seq![']'] + rest,
        );
        let k = nat_digits(ids[0] as nat).len();
        assert(t[k as int] == (seq![','] + enc_id_items(d) + seq![']'] + rest)[0]);
        assert(t[k as int] == ',');
        lemma_ids_items_round_trip(d, rest);
        assert(t.skip((k + 1) as int) =~= enc_id_items(d) + seq![']'] + rest);
        assert(enc_id_items(d).len() >= 1) by {
            if d.len() == 1 {
                assert(enc_id_items(d) == nat_digits(d[0] as nat));
                assert(spec_parse_num(enc_id_items(d) + seq![']'] + rest, usize::MAX as nat)
                    is Some);
            }
        }
        assert(k + 1 < t.len());
        assert(seq![ids[0]] + d =~= ids);
        assert(spec_parse_id_items(t) == Some((ids, (enc_id_items(ids).len() + 1) as nat)));
    }
}

/// Parsing a stored subscription set gives the set back, whatever follows.
#[verifier::rlimit(100)]
proof fn lemma_ids_round_trip(ids: Seq<APID>, rest: Seq<char>)
    ensures
        spec_parse_ids(enc_ids(ids) + rest) == Some((ids, enc_ids(ids).len() as nat)),
{
    let s = enc_ids(ids) + rest;
    assert(s[0] == '[');
    if ids.len() == 0 {
        assert(enc_id_items(ids) == Seq::<char>::empty());
        assert(s =~= seq!['['] + seq![']'] + rest);
        assert(s[1] == ']');
        assert(ids =~= Seq::<APID>::empty());
    } else {
        lemma_ids_items_round_trip(ids, rest);
        assert(s.skip(1) =~= enc_id_items(ids) + seq![']'] + rest);
        let t = enc_id_items(ids) + seq![']'] + rest;
        assert(spec_parse_num(t, usize::MAX as nat) is Some) by {
            reveal(spec_parse_id_items);
        }
        assert(crate::text::digit_run(t) > 0);
        assert(crate::text::is_digit(t[0]));
        assert(s[1] == t[0]);
        assert(s[1] != ']');
    }
}

/// Parsing the stored form of an account gives the account back, whatever
/// text follows.
#[verifier::rlimit(100)]
proof fn lemma_user_record_round_trip(u: UserView, rest: Seq<char>)
    ensures
        spec_parse_user_record(enc_user_record(u) + rest) == Some(
            ((u.password, u.access_points), enc_user_record(u).len() as nat),
        ),
{
    reveal(spec_parse_user_record);
    let l1 = "{\"password\":"@;
    let e1 = quoted(u.password);
    let l2 = ",\"access_points\":"@;
    let e2 = enc_ids(u.access_points);
    let l3 = "}"@;
    let s = enc_user_record(u) + rest;
    assert(s =~= l1 + e1 + l2 + e2 + l3 + rest);
    assert(s.take(l1.len() as int) =~= l1);
    let p1 = l1.len();
    assert(s.skip(p1 as int) =~= e1 + (l2 + e2 + l3 + rest));
    crate::text::lemma_parse_string_round_trip(u.password, l2 + e2 + l3 + rest);
    let p2 = p1 + e1.len();
    assert(s.skip(p2 as int) =~= l2 + (e2 + l3 + rest));
    assert(s.skip(p2 as int).take(l2.len() as int) =~= l2);
    let p3 = p2 + l2.len();
    assert(s.skip(p3 as int) =~= e2 + (l3 + rest));
    lemma_ids_round_trip(u.access_points, l3 + rest);
    let p4 = p3 + e2.len();
    assert(s.skip(p4 as int) =~= l3 + rest);
    assert(s.skip(p4 as int).take(l3.len() as int) =~= l3);
    assert(spec_parse_user_record(s) == Some(
        ((u.password, u.access_points), enc_user_record(u).len() as nat),
    ));
}

/// Parsing the stored form of an entry gives the account back, whatever
/// text follows.
#[verifier::rlimit(100)]
proof fn lemma_user_entry_round_trip(u: UserView, rest: Seq<char>)
    ensures
        spec_parse_user_entry(enc_user_entry(u) + rest) == Some(
            (u, enc_user_entry(u).len() as nat),
        ),
{
    let e1 = quoted(u.username);
    let lm = ":"@;
    let er = enc_user_record(u);
    let s = enc_user_entry(u) + rest;
    assert(s =~= e1 + (lm + er + rest));
    crate::text::lemma_parse_string_round_trip(u.username, lm + er + rest);
    let p1 = e1.len();
    assert(s.skip(p1 as int) =~= lm + (er + rest));
    assert(s.skip(p1 as int).take(lm.len() as int) =~= lm);
    let p2 = p1 + lm.len();
    assert(s.skip(p2 as int) =~= er + rest);
    lemma_user_record_round_trip(u, rest);
    assert(spec_parse_user_entry(s) == Some((u, enc_user_entry(u).len() as nat)));
}

/// Parsing stored entries followed by the closing brace gives the accounts
/// back, whatever text follows the brace.
#[verifier::rlimit(100)]
proof fn lemma_user_entries_round_trip(s: Seq<UserView>, rest: Seq<char>)
    requires
        s.len() > 0,
    ensures
        spec_parse_user_items(enc_user_entries(s) + seq!['}'] + rest) == Some(
            (s, (enc_user_entries(s).len() + 1) as nat),
        ),
    decreases s.len(),
{
    reveal(spec_parse_user_items);
    let t = enc_user_entries(s) + seq!['}'] + rest;
    if s.len() == 1 {
        assert(t =~= enc_user_entry(s[0]) + (seq!['}'] + rest));
        lemma_user_entry_round_trip(s[0], seq!['}'] + rest);
        let k = enc_user_entry(s[0]).len();
        assert(t[k as int] == '}');
        assert(seq![s[0]] =~= s);
    } else {
        let d = s.drop_first();
        assert(enc_user_entries(s) == enc_user_entry(s[0]) + seq![','] + enc_user_entries(d));
        assert(t =~= enc_user_entry(s[0]) + (seq![','] + enc_user_entries(d) + seq!['}']
            + rest));
        lemma_user_entry_round_trip(s[0], seq![','] + enc_user_entries(d) + seq!['}'] + rest);
        let k = enc_user_entry(s[0]).len();
        assert(t[k as int] == (seq![','] + enc_user_entries(d) + seq!['}'] + rest)[0]);
        assert(t[k as int] == ',');
        lemma_user_entries_round_trip(d, rest);
        assert(t.skip((k + 1) as int) =~= enc_user_entries(d) + seq!['}'] + rest);
        assert(enc_user_entries(d).len() >= 1) by {
            if d.len() == 1 {
                assert(enc_user_entries(d) == enc_user_entry(d[0]));
            }
        }
        assert(k + 1 < t.len());
        assert(seq![s[0]] + d =~= s);
        assert(spec_parse_user_items(t) == Some(
            (s, (enc_user_entries(s).len() + 1) as nat),
        ));
    }
}

/// A registry's document denotes exactly the registry.
#[verifier::rlimit(100)]
proof fn lemma_user_doc_round_trip(s: Seq<UserView>)
    ensures
        user_doc_value(enc_user_doc(s)) == Some(s),
{
    let d = enc_user_doc(s);
    assert(d[0] == '{');
    if s.len() == 0 {
        assert(enc_user_entries(s) == Seq::<char>::empty());
        assert(d =~= seq!['{'] + seq!['}']);
        assert(d.len() == 2 && d[1] == '}');
        assert(s =~= Seq::<UserView>::empty());
    } else {
        assert(enc_user_entries(s).len() >= 1) by {
            if s.len() == 1 {
                assert(enc_user_entries(s) == enc_user_entry(s[0]));
            }
        }
        assert(d.len() > 2);
        lemma_user_entries_round_trip(s, Seq::<char>::empty());
        assert(d.skip(1) =~= enc_user_entries(s) + seq!['}'] + Seq::<char>::empty());
        assert(spec_parse_user_items(d.skip(1)) == Some(
            (s, (enc_user_entries(s).len() + 1) as nat),
        ));
        assert(1 + (enc_user_entries(s).len() + 1) == d.len());
    }
}

/// The persistence law for accounts: saving a well-formed registry and
/// loading the document back reproduces the identical accounts — the same
/// usernames, stored hashes and subscription sets.
pub proof fn lemma_user_save_load_round_trip(s: Seq<UserView>)
    requires
        wf_users(s),
    ensures
        user_load_result(enc_user_doc(s)) == s,
{
    lemma_user_doc_round_trip(s);
}

} // verus!
