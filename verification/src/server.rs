//! The reader server's decisions: who may call it, how phones pair with
//! it, which addresses it offers, and when a library is rescanned.

use crate::error::{bad_request, AppError, ErrorView};
use crate::text::{
    dec_nat, eq_ignore_ascii_case, eq_ignore_case, lower, starts_with, starts_with_chars, string_of,
    to_chars, to_lower, trim, trim_chars, u64_digits,
};
use crate::scanner::opt_view;
use rand::Rng;
use std::collections::HashMap;
use vstd::prelude::*;

verus! {

/// The TCP port the server listens on.
pub const PORT: u16 = 1822;

/// The token that a request carries: the `Authorization` header's value
/// after `Bearer `, else the `token` query parameter.
pub open spec fn spec_bearer(authorization: Option<Seq<char>>, query_token: Option<Seq<char>>) -> Option<Seq<char>> {
    match authorization {
        Some(h) => if starts_with(h, "Bearer "@) {
            Some(h.skip(7))
        } else {
            query_token
        },
        None => query_token,
    }
}

pub open spec fn opt_str(o: Option<&str>) -> Option<Seq<char>> {
    match o {
        Some(s) => Some(s@),
        None => None,
    }
}

/// `bearer`: the token of a request; `authorization` is the header's
/// value when it is visible ASCII.
pub fn bearer(authorization: Option<&str>, query_token: Option<&str>) -> (r: Option<String>)
    ensures
        opt_view(r) == spec_bearer(opt_str(authorization), opt_str(query_token)),
{
    match authorization {
        Some(h) => {
            let v = to_chars(h);
            let prefix = to_chars("Bearer ");
            if starts_with_chars(v.as_slice(), prefix.as_slice()) {
                proof {
                    reveal_strlit("Bearer ");
                }
                let mut out: Vec<char> = Vec::new();
                let mut i: usize = 7;
                while i < v.len()
                    invariant
                        7 <= i <= v@.len(),
                        out@ == v@.subrange(7, i as int),
                    decreases v@.len() - i,
                {
                    out.push(v[i]);
                    i = i + 1;
                    assert(out@ =~= v@.subrange(7, i as int));
                }
                assert(out@ =~= v@.skip(7));
                return Some(string_of(out.as_slice()));
            }
        },
        None => {},
    }
    match query_token {
        Some(t) => Some(t.to_owned()),
        None => None,
    }
}

/// `authorize`'s first decision: a request from this machine passes; any
/// other must carry a token, which the caller then checks against the
/// paired devices (`Ok(Some(token))`).
pub fn authorize_request(local: bool, authorization: Option<&str>, query_token: Option<&str>) -> (r: Result<Option<String>, AppError>)
    ensures
        match r {
            Ok(None) => local,
            Ok(Some(t)) => !local && spec_bearer(opt_str(authorization), opt_str(query_token)) == Some(t@),
            Err(e) => !local && spec_bearer(opt_str(authorization), opt_str(query_token)) is None && e@
                == ErrorView::Unauthorized,
        },
{
    if local {
        return Ok(None);
    }
    match bearer(authorization, query_token) {
        Some(t) => Ok(Some(t)),
        None => Err(AppError::Unauthorized),
    }
}

/// `authorize`'s last decision: the token must belong to a paired device.
pub fn token_verdict(valid: bool) -> (r: Result<(), AppError>)
    ensures
        match r {
            Ok(()) => valid,
            Err(e) => !valid && e@ == ErrorView::Unauthorized,
        },
{
    if valid {
        Ok(())
    } else {
        Err(AppError::Unauthorized)
    }
}

/// `admin`: administration is for requests from this machine only.
pub fn admin(local: bool) -> (r: Result<(), AppError>)
    ensures
        match r {
            Ok(()) => local,
            Err(e) => !local && e@ == ErrorView::Unauthorized,
        },
{
    if local {
        Ok(())
    } else {
        Err(AppError::Unauthorized)
    }
}

/// How long pairing attempts are remembered, in milliseconds.
pub const PAIRING_WINDOW_MS: u64 = 300_000;

/// How many pairing attempts a client may make within the window.
pub const MAX_PAIRING_ATTEMPTS: usize = 8;

/// The attempts made within the window that ends at `now`.
pub open spec fn recent_attempts(attempts: Seq<u64>, now: u64) -> Seq<u64>
    decreases attempts.len(),
{
    if attempts.len() == 0 {
        attempts
    } else {
        let rest = recent_attempts(attempts.drop_last(), now);
        if attempts.last() + PAIRING_WINDOW_MS > now {
            rest.push(attempts.last())
        } else {
            rest
        }
    }
}

pub open spec fn too_many_attempts() -> ErrorView {
    ErrorView::BadRequest("Too many pairing attempts. Wait five minutes and try again."@)
}

/// `rate_limit_pairing`, for one client's attempts (times in
/// milliseconds): attempts older than five minutes are forgotten; with
/// eight left the attempt is refused and not recorded, otherwise it is
/// recorded. So a client that starts within the limit stays within it.
pub fn rate_limit_pairing(attempts: &mut Vec<u64>, now: u64) -> (r: Result<(), AppError>)
    ensures
        match r {
            Ok(()) => recent_attempts(old(attempts)@, now).len() < MAX_PAIRING_ATTEMPTS
                && final(attempts)@ == recent_attempts(old(attempts)@, now).push(now),
            Err(e) => recent_attempts(old(attempts)@, now).len() >= MAX_PAIRING_ATTEMPTS
                && final(attempts)@ == recent_attempts(old(attempts)@, now) && e@ == too_many_attempts(),
        },
        old(attempts)@.len() <= MAX_PAIRING_ATTEMPTS ==> final(attempts)@.len() <= MAX_PAIRING_ATTEMPTS,
{
    let ghost initial = attempts@;
    let mut kept: Vec<u64> = Vec::new();
    let mut i: usize = 0;
    assert(initial.take(0) =~= Seq::<u64>::empty());
    while i < attempts.len()
        invariant
            attempts@ == initial,
            i <= initial.len(),
            kept@ == recent_attempts(initial.take(i as int), now),
            kept@.len() <= i,
        decreases initial.len() - i,
    {
        assert(initial.take(i + 1).drop_last() =~= initial.take(i as int));
        let a = attempts[i];
        let recent = if now < PAIRING_WINDOW_MS { true } else { a > now - PAIRING_WINDOW_MS };
        if recent {
            kept.push(a);
        }
        i = i + 1;
    }
    assert(initial.take(initial.len() as int) =~= initial);
    if kept.len() >= MAX_PAIRING_ATTEMPTS {
        *attempts = kept;
        return Err(bad_request("Too many pairing attempts. Wait five minutes and try again."));
    }
    kept.push(now);
    *attempts = kept;
    Ok(())
}

/// How long a pairing code stays valid, in milliseconds.
pub const PAIRING_CODE_TTL_MS: u64 = 600_000;

/// The expiry of `code` among the issued codes.
pub open spec fn code_expiry(codes: Seq<(Seq<char>, u64)>, code: Seq<char>) -> Option<u64>
    decreases codes.len(),
{
    if codes.len() == 0 {
        None
    } else if codes[0].0 == code {
        Some(codes[0].1)
    } else {
        code_expiry(codes.drop_first(), code)
    }
}

/// The codes that have not expired at `now`.
pub open spec fn live_codes(codes: Seq<(Seq<char>, u64)>, now: u64) -> Seq<(Seq<char>, u64)>
    decreases codes.len(),
{
    if codes.len() == 0 {
        codes
    } else {
        let rest = live_codes(codes.drop_last(), now);
        if codes.last().1 > now {
            rest.push(codes.last())
        } else {
            rest
        }
    }
}

/// The codes without `code`.
pub open spec fn without_code(codes: Seq<(Seq<char>, u64)>, code: Seq<char>) -> Seq<(Seq<char>, u64)>
    decreases codes.len(),
{
    if codes.len() == 0 {
        codes
    } else {
        let rest = without_code(codes.drop_last(), code);
        if codes.last().0 == code {
            rest
        } else {
            rest.push(codes.last())
        }
    }
}

/// The codes with every entry of `code` valid until `expiry`.
pub open spec fn updated_codes(codes: Seq<(Seq<char>, u64)>, code: Seq<char>, expiry: u64) -> Seq<(Seq<char>, u64)> {
    codes.map_values(|p: (Seq<char>, u64)| if p.0 == code { (code, expiry) } else { p })
}

/// The codes with `code` valid until `expiry`: its entry updated when it
/// is there, else added.
pub open spec fn with_code(codes: Seq<(Seq<char>, u64)>, code: Seq<char>, expiry: u64) -> Seq<(Seq<char>, u64)> {
    if code_expiry(codes, code) is Some {
        updated_codes(codes, code, expiry)
    } else {
        codes.push((code, expiry))
    }
}

/// Issuing `code` at `now`: expired codes are forgotten and `code` is
/// valid for ten minutes.
pub open spec fn spec_issue(codes: Seq<(Seq<char>, u64)>, code: Seq<char>, now: u64) -> Seq<(Seq<char>, u64)> {
    with_code(live_codes(codes, now), code, (now + PAIRING_CODE_TTL_MS) as u64)
}

/// Redeeming `code` at `now`: the code is used up, and it pairs when it
/// had not expired.
pub open spec fn spec_redeem(codes: Seq<(Seq<char>, u64)>, code: Seq<char>, now: u64) -> (Seq<(Seq<char>, u64)>, bool) {
    (without_code(codes, code), code_expiry(codes, code) matches Some(e) && e > now)
}

/// A code written with at least six digits, zeros in front, as `{:06}`
/// writes it.
pub open spec fn six_digits(n: nat) -> Seq<char> {
    let d = dec_nat(n);
    if d.len() < 6 {
        Seq::new((6 - d.len()) as nat, |i: int| '0') + d
    } else {
        d
    }
}

/// The text of a pairing code.
pub fn pairing_code_text(n: u32) -> (r: String)
    ensures
        r@ == six_digits(n as nat),
{
    let d = u64_digits(n as u64);
    let mut v: Vec<char> = Vec::new();
    if d.len() < 6 {
        let pad = 6 - d.len();
        let mut i: usize = 0;
        while i < pad
            invariant
                i <= pad,
                v@ == Seq::new(i as nat, |j: int| '0'),
            decreases pad - i,
        {
            v.push('0');
            i = i + 1;
            assert(v@ =~= Seq::new(i as nat, |j: int| '0'));
        }
    }
    v.extend_from_slice(d.as_slice());
    assert(v@ =~= six_digits(n as nat));
    string_of(v.as_slice())
}

/// A random number below one million, from `rand::rng().random_range`.
/// Claims only that it lies in the range, as the crate documents.
#[verifier::external_body]
fn random_code_number() -> (n: u32)
    ensures
        n < 1_000_000,
{
    rand::rng().random_range(0..1_000_000u32)
}

/// The pairing codes issued and not yet used, each with its expiry in
/// milliseconds.
pub struct PairingCodes {
    codes: Vec<(String, u64)>,
}

pub open spec fn code_views(codes: Seq<(String, u64)>) -> Seq<(Seq<char>, u64)> {
    codes.map_values(|p: (String, u64)| (p.0@, p.1))
}

impl View for PairingCodes {
    type V = Seq<(Seq<char>, u64)>;

    closed spec fn view(&self) -> Seq<(Seq<char>, u64)> {
        code_views(self.codes@)
    }
}

impl PairingCodes {
    pub fn new() -> (s: PairingCodes)
        ensures
            s@ == Seq::<(Seq<char>, u64)>::empty(),
    {
        let s = PairingCodes { codes: Vec::new() };
        assert(s@ =~= Seq::<(Seq<char>, u64)>::empty());
        s
    }

    /// Issues `code` at `now`, valid for ten minutes.
    pub fn issue_code(&mut self, code: String, now: u64)
        requires
            now + PAIRING_CODE_TTL_MS <= u64::MAX,
        ensures
            final(self)@ == spec_issue(old(self)@, code@, now),
    {
        let ghost initial = self@;
        let mut live: Vec<(String, u64)> = Vec::new();
        let mut i: usize = 0;
        assert(initial.take(0) =~= Seq::<(Seq<char>, u64)>::empty());
        assert(code_views(live@) =~= Seq::<(Seq<char>, u64)>::empty());
        while i < self.codes.len()
            invariant
                self@ == initial,
                i <= initial.len(),
                code_views(live@) == live_codes(initial.take(i as int), now),
            decreases initial.len() - i,
        {
            assert(initial.take(i + 1).drop_last() =~= initial.take(i as int));
            assert(initial[i as int] == (self.codes@[i as int].0@, self.codes@[i as int].1));
            if self.codes[i].1 > now {
                let ghost before = live@;
                let entry = (self.codes[i].0.clone(), self.codes[i].1);
                live.push(entry);
                assert(code_views(live@) =~= code_views(before).push((entry.0@, entry.1)));
            }
            i = i + 1;
        }
        assert(initial.take(initial.len() as int) =~= initial);
        let ghost lv = code_views(live@);
        let expiry = now + PAIRING_CODE_TTL_MS;
        let cv = to_chars(code.as_str());
        let mut found = false;
        let mut j: usize = 0;
        while j < live.len()
            invariant
                j <= live@.len(),
                lv == code_views(live@),
                cv@ == code@,
                found == (exists|k: int| 0 <= k < j && #[trigger] lv[k].0 == code@),
            decreases live@.len() - j,
        {
            if crate::text::chars_eq(to_chars(live[j].0.as_str()).as_slice(), cv.as_slice()) {
                found = true;
                assert(lv[j as int].0 == code@);
            }
            j = j + 1;
        }
        proof {
            lemma_code_expiry_some(lv, code@);
        }
        if found {
            let mut updated: Vec<(String, u64)> = Vec::new();
            let mut k: usize = 0;
            while k < live.len()
                invariant
                    k <= live@.len(),
                    lv == code_views(live@),
                    cv@ == code@,
                    code_views(updated@) == updated_codes(lv.take(k as int), code@, expiry),
                decreases live@.len() - k,
            {
                let ghost before = updated@;
                let entry = if crate::text::chars_eq(to_chars(live[k].0.as_str()).as_slice(), cv.as_slice()) {
                    (code.clone(), expiry)
                } else {
                    (live[k].0.clone(), live[k].1)
                };
                updated.push(entry);
                assert(code_views(updated@) =~= code_views(before).push((entry.0@, entry.1)));
                k = k + 1;
                assert(updated_codes(lv.take(k as int), code@, expiry) =~= updated_codes(
                    lv.take(k - 1),
                    code@,
                    expiry,
                ).push((entry.0@, entry.1)));
            }
            assert(lv.take(lv.len() as int) =~= lv);
            self.codes = updated;
        } else {
            let ghost before = live@;
            live.push((code, expiry));
            assert(code_views(live@) =~= code_views(before).push((code@, expiry)));
            self.codes = live;
        }
    }

    /// `create_pairing`: issues a fresh six-digit code at `now`.
    pub fn issue(&mut self, now: u64) -> (code: String)
        requires
            now + PAIRING_CODE_TTL_MS <= u64::MAX,
        ensures
            exists|n: nat| n < 1_000_000 && code@ == six_digits(n),
            final(self)@ == spec_issue(old(self)@, code@, now),
    {
        let n = random_code_number();
        let code = pairing_code_text(n);
        let copy = code.clone();
        self.issue_code(copy, now);
        assert(code@ == six_digits(n as nat));
        code
    }

    /// `pair`'s use of a code: it is removed, and it pairs when it had
    /// not expired at `now`.
    pub fn redeem(&mut self, code: &str, now: u64) -> (ok: bool)
        ensures
            (final(self)@, ok) == spec_redeem(old(self)@, code@, now),
    {
        let ghost initial = self@;
        let cv = to_chars(code);
        let mut kept: Vec<(String, u64)> = Vec::new();
        let mut expiry: Option<u64> = None;
        let mut i: usize = 0;
        assert(initial.take(0) =~= Seq::<(Seq<char>, u64)>::empty());
        assert(code_views(kept@) =~= Seq::<(Seq<char>, u64)>::empty());
        while i < self.codes.len()
            invariant
                self@ == initial,
                i <= initial.len(),
                cv@ == code@,
                code_views(kept@) == without_code(initial.take(i as int), code@),
                expiry == code_expiry(initial.take(i as int), code@),
            decreases initial.len() - i,
        {
            assert(initial.take(i + 1).drop_last() =~= initial.take(i as int));
            assert(initial[i as int] == (self.codes@[i as int].0@, self.codes@[i as int].1));
            proof {
                lemma_code_expiry_push(initial.take(i as int), initial[i as int], code@);
                assert(initial.take(i as int).push(initial[i as int]) =~= initial.take(i + 1));
            }
            if crate::text::chars_eq(to_chars(self.codes[i].0.as_str()).as_slice(), cv.as_slice()) {
                if expiry.is_none() {
                    expiry = Some(self.codes[i].1);
                }
            } else {
                let ghost before = kept@;
                let entry = (self.codes[i].0.clone(), self.codes[i].1);
                kept.push(entry);
                assert(code_views(kept@) =~= code_views(before).push((entry.0@, entry.1)));
            }
            i = i + 1;
        }
        assert(initial.take(initial.len() as int) =~= initial);
        self.codes = kept;
        match expiry {
            Some(e) => e > now,
            None => false,
        }
    }
}

proof fn lemma_code_expiry_push(codes: Seq<(Seq<char>, u64)>, p: (Seq<char>, u64), code: Seq<char>)
    ensures
        code_expiry(codes.push(p), code) == match code_expiry(codes, code) {
            Some(e) => Some(e),
            None => if p.0 == code {
                Some(p.1)
            } else {
                None
            },
        },
    decreases codes.len(),
{
    if codes.len() > 0 {
        assert(codes.push(p).drop_first() =~= codes.drop_first().push(p));
        assert(codes.push(p)[0] == codes[0]);
        lemma_code_expiry_push(codes.drop_first(), p, code);
        if codes[0].0 != code {
            assert(code_expiry(codes.push(p), code) == code_expiry(codes.drop_first().push(p), code));
            assert(code_expiry(codes, code) == code_expiry(codes.drop_first(), code));
        }
    } else {
        let e = Seq::<(Seq<char>, u64)>::empty();
        assert(codes.push(p).drop_first() =~= e);
        assert(codes.push(p)[0] == p);
        assert(code_expiry(e, code) is None);
        assert(code_expiry(codes, code) is None);
    }
}

proof fn lemma_code_expiry_some(codes: Seq<(Seq<char>, u64)>, code: Seq<char>)
    ensures
        code_expiry(codes, code) is Some <==> (exists|k: int| 0 <= k < codes.len() && #[trigger] codes[k].0 == code),
    decreases codes.len(),
{
    if codes.len() > 0 {
        lemma_code_expiry_some(codes.drop_first(), code);
        if codes[0].0 != code {
            if exists|k: int| 0 <= k < codes.len() && #[trigger] codes[k].0 == code {
                let k = choose|k: int| 0 <= k < codes.len() && #[trigger] codes[k].0 == code;
                assert(codes.drop_first()[k - 1] == codes[k]);
            }
            assert forall|k: int| 0 <= k < codes.drop_first().len() && #[trigger] codes.drop_first()[k].0 == code implies
                codes[k + 1].0 == code by {}
        }
    }
}

proof fn lemma_without_code_absent(codes: Seq<(Seq<char>, u64)>, code: Seq<char>)
    ensures
        code_expiry(without_code(codes, code), code) is None,
    decreases codes.len(),
{
    if codes.len() > 0 {
        lemma_without_code_absent(codes.drop_last(), code);
        let rest = without_code(codes.drop_last(), code);
        if codes.last().0 != code {
            lemma_code_expiry_push(rest, codes.last(), code);
        }
    }
}

proof fn lemma_with_code_present(codes: Seq<(Seq<char>, u64)>, code: Seq<char>, expiry: u64)
    ensures
        code_expiry(with_code(codes, code, expiry), code) == Some(expiry),
{
    if code_expiry(codes, code) is Some {
        lemma_map_expiry(codes, code, expiry);
    } else {
        lemma_code_expiry_push(codes, (code, expiry), code);
    }
}

proof fn lemma_map_expiry(codes: Seq<(Seq<char>, u64)>, code: Seq<char>, expiry: u64)
    requires
        code_expiry(codes, code) is Some,
    ensures
        code_expiry(updated_codes(codes, code, expiry), code) == Some(expiry),
    decreases codes.len(),
{
    let m = updated_codes(codes, code, expiry);
    assert(m[0] == (if codes[0].0 == code { (code, expiry) } else { codes[0] }));
    if codes[0].0 != code {
        lemma_map_expiry(codes.drop_first(), code, expiry);
        assert(m.drop_first() =~= updated_codes(codes.drop_first(), code, expiry));
    }
}

/// A pairing code works at most once: after it has been redeemed,
/// redeeming it again never pairs.
pub proof fn lemma_pairing_code_single_use(codes: Seq<(Seq<char>, u64)>, code: Seq<char>, first: u64, second: u64)
    ensures
        !spec_redeem(spec_redeem(codes, code, first).0, code, second).1,
{
    lemma_without_code_absent(codes, code);
}

/// A code just issued pairs exactly until it expires, ten minutes later.
pub proof fn lemma_issued_code_pairs_until_expiry(codes: Seq<(Seq<char>, u64)>, code: Seq<char>, now: u64, at: u64)
    requires
        now + PAIRING_CODE_TTL_MS <= u64::MAX,
    ensures
        spec_redeem(spec_issue(codes, code, now), code, at).1 == (at < now + PAIRING_CODE_TTL_MS),
{
    lemma_with_code_present(live_codes(codes, now), code, (now + PAIRING_CODE_TTL_MS) as u64);
}

/// The name a paired device is listed under: the requested name, trimmed,
/// or `iPhone / Safari`, cut to 80 characters.
pub open spec fn spec_device_name(requested: Option<Seq<char>>) -> Seq<char> {
    let t = match requested {
        Some(r) => trim(r),
        None => "iPhone / Safari"@,
    };
    let name = if t.len() == 0 { "iPhone / Safari"@ } else { t };
    if name.len() <= 80 {
        name
    } else {
        name.take(80)
    }
}

pub fn device_name(requested: Option<&str>) -> (r: String)
    ensures
        r@ == spec_device_name(opt_str(requested)),
{
    let t = match requested {
        Some(r) => trim_chars(to_chars(r).as_slice()),
        None => {
            let d = to_chars("iPhone / Safari");
            proof {
                reveal_strlit("iPhone / Safari");
            }
            assert(trim(d@) == d@) by {
                crate::text::lemma_trim_start_skip(d@, 0);
                crate::text::lemma_trim_end_take(d@.skip(0), d@.len() as int);
                assert(d@.skip(0) =~= d@);
                assert(d@.take(d@.len() as int) =~= d@);
            }
            trim_chars(d.as_slice())
        },
    };
    let name = if t.len() == 0 { to_chars("iPhone / Safari") } else { t };
    let n: usize = if name.len() <= 80 { name.len() } else { 80 };
    let mut out: Vec<char> = Vec::new();
    let mut i: usize = 0;
    while i < n
        invariant
            n <= name@.len(),
            i <= n,
            out@ == name@.take(i as int),
        decreases n - i,
    {
        out.push(name[i]);
        i = i + 1;
        assert(out@ =~= name@.take(i as int));
    }
    assert(name@.len() <= 80 ==> name@.take(n as int) =~= name@);
    string_of(out.as_slice())
}

/// An address that the server offers to phones.
#[derive(Debug)]
pub struct UrlInfo {
    pub url: String,
    pub label: String,
    pub recommended: bool,
}

pub struct UrlView {
    pub url: Seq<char>,
    pub label: Seq<char>,
    pub recommended: bool,
}

pub open spec fn url_view(u: UrlInfo) -> UrlView {
    UrlView { url: u.url@, label: u.label@, recommended: u.recommended }
}

/// `Ipv4Addr::is_private`: 10/8, 172.16/12 and 192.168/16.
pub open spec fn is_private_v4(a: [u8; 4]) -> bool {
    a[0] == 10 || (a[0] == 172 && 16 <= a[1] && a[1] < 32) || (a[0] == 192 && a[1] == 168)
}

/// `Ipv4Addr::is_loopback`: 127/8.
pub open spec fn is_loopback_v4(a: [u8; 4]) -> bool {
    a[0] == 127
}

/// The subnet of the Windows mobile hotspot.
pub open spec fn is_hotspot(a: [u8; 4]) -> bool {
    a[0] == 192 && a[1] == 168 && a[2] == 137
}

pub open spec fn address_url(a: [u8; 4]) -> Seq<char> {
    "http://"@ + dec_nat(a[0] as nat) + seq!['.'] + dec_nat(a[1] as nat) + seq!['.'] + dec_nat(
        a[2] as nat,
    ) + seq!['.'] + dec_nat(a[3] as nat) + seq![':'] + dec_nat(PORT as nat)
}

/// The row offered for an interface's address.
pub open spec fn interface_row(name: Seq<char>, a: [u8; 4]) -> UrlView {
    UrlView {
        url: address_url(a),
        label: if is_hotspot(a) { "Windows Hotspot / Recommended"@ } else { name },
        recommended: is_hotspot(a),
    }
}

/// The rows offered before ordering: this machine, then each private,
/// non-loopback IPv4 address in the order the interfaces were listed.
pub open spec fn candidate_rows(interfaces: Seq<(Seq<char>, [u8; 4])>) -> Seq<UrlView>
    decreases interfaces.len(),
{
    if interfaces.len() == 0 {
        seq![UrlView { url: "http://127.0.0.1:1822"@, label: "This PC"@, recommended: false }]
    } else {
        let rest = candidate_rows(interfaces.drop_last());
        let (name, a) = interfaces.last();
        if is_private_v4(a) && !is_loopback_v4(a) {
            rest.push(interface_row(name, a))
        } else {
            rest
        }
    }
}

/// The rows with the given recommendation, in order.
pub open spec fn rows_with(rows: Seq<UrlView>, recommended: bool) -> Seq<UrlView>
    decreases rows.len(),
{
    if rows.len() == 0 {
        rows
    } else {
        let rest = rows_with(rows.drop_last(), recommended);
        if rows.last().recommended == recommended {
            rest.push(rows.last())
        } else {
            rest
        }
    }
}

/// `urls`: the recommended rows first, each group in its order, as the
/// stable sort on "not recommended" leaves them.
pub open spec fn spec_urls(interfaces: Seq<(Seq<char>, [u8; 4])>) -> Seq<UrlView> {
    rows_with(candidate_rows(interfaces), true) + rows_with(candidate_rows(interfaces), false)
}

pub open spec fn interface_views(interfaces: Seq<(String, [u8; 4])>) -> Seq<(Seq<char>, [u8; 4])> {
    interfaces.map_values(|p: (String, [u8; 4])| (p.0@, p.1))
}

pub open spec fn url_views(rows: Seq<UrlInfo>) -> Seq<UrlView> {
    rows.map_values(|u: UrlInfo| url_view(u))
}

fn push_number(v: &mut Vec<char>, n: u8)
    ensures
        final(v)@ == old(v)@ + dec_nat(n as nat),
{
    v.extend_from_slice(u64_digits(n as u64).as_slice());
}

fn interface_row_exec(name: &String, a: [u8; 4]) -> (r: UrlInfo)
    ensures
        url_view(r) == interface_row(name@, a),
{
    let mut v = to_chars("http://");
    push_number(&mut v, a[0]);
    v.push('.');
    push_number(&mut v, a[1]);
    v.push('.');
    push_number(&mut v, a[2]);
    v.push('.');
    push_number(&mut v, a[3]);
    v.push(':');
    v.extend_from_slice(u64_digits(PORT as u64).as_slice());
    assert(v@ =~= address_url(a));
    let hotspot = a[0] == 192 && a[1] == 168 && a[2] == 137;
    let label = if hotspot { "Windows Hotspot / Recommended".to_owned() } else { name.clone() };
    UrlInfo { url: string_of(v.as_slice()), label, recommended: hotspot }
}

fn clone_row(u: &UrlInfo) -> (r: UrlInfo)
    ensures
        url_view(r) == url_view(*u),
{
    UrlInfo { url: u.url.clone(), label: u.label.clone(), recommended: u.recommended }
}

fn select_rows(rows: &Vec<UrlInfo>, recommended: bool, out: &mut Vec<UrlInfo>)
    ensures
        url_views(final(out)@) == url_views(old(out)@) + rows_with(url_views(rows@), recommended),
{
    let ghost start = url_views(out@);
    let ghost all = url_views(rows@);
    let mut i: usize = 0;
    assert(all.take(0) =~= Seq::<UrlView>::empty());
    assert(rows_with(all.take(0), recommended) =~= Seq::<UrlView>::empty());
    while i < rows.len()
        invariant
            i <= rows@.len(),
            all == url_views(rows@),
            url_views(out@) == start + rows_with(all.take(i as int), recommended),
        decreases rows@.len() - i,
    {
        assert(all.take(i + 1).drop_last() =~= all.take(i as int));
        assert(all.take(i + 1).last() == url_view(rows@[i as int]));
        if rows[i].recommended == recommended {
            let ghost before = out@;
            out.push(clone_row(&rows[i]));
            assert(url_views(out@) =~= url_views(before).push(url_view(rows@[i as int])));
        }
        i = i + 1;
    }
    assert(all.take(rows@.len() as int) =~= all);
}

/// `urls`: the addresses offered to phones, from the machine's network
/// interfaces and their IPv4 addresses.
pub fn urls(interfaces: &Vec<(String, [u8; 4])>) -> (r: Vec<UrlInfo>)
    ensures
        url_views(r@) == spec_urls(interface_views(interfaces@)),
{
    let ghost ifs = interface_views(interfaces@);
    let mut rows: Vec<UrlInfo> = Vec::new();
    rows.push(UrlInfo { url: "http://127.0.0.1:1822".to_owned(), label: "This PC".to_owned(), recommended: false });
    assert(ifs.take(0) =~= Seq::<(Seq<char>, [u8; 4])>::empty());
    assert(url_views(rows@) =~= candidate_rows(ifs.take(0)));
    let mut i: usize = 0;
    while i < interfaces.len()
        invariant
            i <= interfaces@.len(),
            ifs == interface_views(interfaces@),
            url_views(rows@) == candidate_rows(ifs.take(i as int)),
        decreases interfaces@.len() - i,
    {
        assert(ifs.take(i + 1).drop_last() =~= ifs.take(i as int));
        assert(ifs.take(i + 1).last() == (interfaces@[i as int].0@, interfaces@[i as int].1));
        let a = interfaces[i].1;
        let private = a[0] == 10 || (a[0] == 172 && 16 <= a[1] && a[1] < 32) || (a[0] == 192 && a[1] == 168);
        if private && a[0] != 127 {
            let ghost before = rows@;
            let row = interface_row_exec(&interfaces[i].0, a);
            rows.push(row);
            assert(url_views(rows@) =~= url_views(before).push(url_view(row)));
        }
        i = i + 1;
    }
    assert(ifs.take(interfaces@.len() as int) =~= ifs);
    let mut out: Vec<UrlInfo> = Vec::new();
    assert(url_views(out@) =~= Seq::<UrlView>::empty());
    select_rows(&rows, true, &mut out);
    select_rows(&rows, false, &mut out);
    assert(url_views(out@) =~= spec_urls(ifs));
    out
}

/// The extensions whose files make up a library's fingerprint.
pub open spec fn is_watched_extension(e: Seq<char>) -> bool {
    e == "epub"@ || e == "pdf"@ || e == "opf"@ || e == "jpg"@ || e == "jpeg"@ || e == "png"@
}

/// Whether a file counts in the fingerprint: its extension, lower-cased
/// (ASCII), is watched.
pub open spec fn counts(file: (Option<Seq<char>>, Option<u64>)) -> bool {
    file.0 matches Some(e) && is_watched_extension(lower(e))
}

/// The fingerprint of a library's files: how many count, and the newest
/// modification time among them, in seconds.
pub open spec fn spec_fingerprint(files: Seq<(Option<Seq<char>>, Option<u64>)>) -> (nat, u64)
    decreases files.len(),
{
    if files.len() == 0 {
        (0, 0)
    } else {
        let (count, newest) = spec_fingerprint(files.drop_last());
        let f = files.last();
        if counts(f) {
            (count + 1, match f.1 {
                Some(m) => if m > newest { m } else { newest },
                None => newest,
            })
        } else {
            (count, newest)
        }
    }
}

/// The second part of a fingerprint is the newest modification time among
/// the counted files that have one: no such file is newer, and unless it is
/// 0 some such file has exactly that time. The first part never exceeds the
/// number of files.
pub proof fn lemma_fingerprint_is_newest(files: Seq<(Option<Seq<char>>, Option<u64>)>)
    ensures
        forall|i: int|
            0 <= i < files.len() && counts(#[trigger] files[i]) && files[i].1 is Some ==> files[i].1->0
                <= spec_fingerprint(files).1,
        spec_fingerprint(files).1 == 0 || exists|i: int|
            0 <= i < files.len() && counts(#[trigger] files[i]) && files[i].1 == Some(spec_fingerprint(files).1),
        spec_fingerprint(files).0 <= files.len(),
    decreases files.len(),
{
    if files.len() > 0 {
        let rest = files.drop_last();
        lemma_fingerprint_is_newest(rest);
        assert forall|i: int| 0 <= i < rest.len() implies #[trigger] files[i] == rest[i] by {}
        let (_, before) = spec_fingerprint(rest);
        if before != 0 {
            let i = choose|i: int| 0 <= i < rest.len() && counts(#[trigger] rest[i]) && rest[i].1 == Some(before);
            assert(files[i] == rest[i]);
        }
        assert forall|i: int|
            0 <= i < files.len() && counts(#[trigger] files[i]) && files[i].1 is Some implies files[i].1->0
                <= spec_fingerprint(files).1 by {
            if i < rest.len() {
                assert(files[i] == rest[i]);
            }
        }
        let last = files.len() - 1;
        assert(files[last] == files.last());
    }
}

pub open spec fn file_views(files: Seq<(Option<String>, Option<u64>)>) -> Seq<(Option<Seq<char>>, Option<u64>)> {
    files.map_values(|f: (Option<String>, Option<u64>)| (opt_view(f.0), f.1))
}

fn watched(e: &String) -> (r: bool)
    ensures
        r == is_watched_extension(lower(e@)),
{
    let l = to_lower(to_chars(e.as_str()).as_slice());
    let s = l.as_slice();
    crate::text::chars_eq(s, to_chars("epub").as_slice()) || crate::text::chars_eq(s, to_chars("pdf").as_slice())
        || crate::text::chars_eq(s, to_chars("opf").as_slice()) || crate::text::chars_eq(s, to_chars("jpg").as_slice())
        || crate::text::chars_eq(s, to_chars("jpeg").as_slice()) || crate::text::chars_eq(s, to_chars("png").as_slice())
}

/// `library_fingerprint`, over the files found under the library's root:
/// each file's extension (when it is text) and modification time in
/// seconds (when known).
pub fn library_fingerprint(files: &Vec<(Option<String>, Option<u64>)>) -> (r: (u64, u64))
    ensures
        r.0 == spec_fingerprint(file_views(files@)).0,
        r.1 == spec_fingerprint(file_views(files@)).1,
{
    let ghost fs = file_views(files@);
    let mut count: u64 = 0;
    let mut newest: u64 = 0;
    let mut i: usize = 0;
    while i < files.len()
        invariant
            i <= files@.len(),
            fs == file_views(files@),
            count <= i,
            (count as nat, newest) == spec_fingerprint(fs.take(i as int)),
        decreases files@.len() - i,
    {
        assert(fs.take(i + 1).drop_last() =~= fs.take(i as int));
        assert(fs.take(i + 1).last() == (opt_view(files@[i as int].0), files@[i as int].1));
        let counted = match &files[i].0 {
            Some(e) => watched(e),
            None => false,
        };
        if counted {
            count = count + 1;
            match files[i].1 {
                Some(m) => {
                    if m > newest {
                        newest = m;
                    }
                },
                None => {},
            }
        }
        i = i + 1;
    }
    assert(fs.take(files@.len() as int) =~= fs);
    (count, newest)
}

/// The fingerprints that the library monitor remembers between rounds,
/// one per library.
pub struct LibraryMonitor {
    seen: HashMap<i64, (u64, u64)>,
}

impl View for LibraryMonitor {
    type V = Map<i64, (u64, u64)>;

    closed spec fn view(&self) -> Map<i64, (u64, u64)> {
        self.seen@
    }
}

impl LibraryMonitor {
    pub fn new() -> (m: LibraryMonitor)
        ensures
            m@ == Map::<i64, (u64, u64)>::empty(),
    {
        LibraryMonitor { seen: HashMap::new() }
    }

    /// `spawn_library_monitor`'s decision for one library: it is rescanned
    /// when its fingerprint differs from the one seen in the previous
    /// round; the first fingerprint seen triggers nothing. The new
    /// fingerprint replaces the library's old one either way.
    pub fn observe(&mut self, id: i64, fingerprint: (u64, u64)) -> (changed: bool)
        ensures
            changed == spec_changed(old(self)@, id, fingerprint),
            final(self)@ == old(self)@.insert(id, fingerprint),
    {
        broadcast use vstd::std_specs::hash::group_hash_axioms;
        let previous = self.seen.insert(id, fingerprint);
        match previous {
            Some(p) => p.0 != fingerprint.0 || p.1 != fingerprint.1,
            None => false,
        }
    }
}

/// Whether observing `fingerprint` for `id` reports a change: a
/// fingerprint was seen for `id` before, and it was another one.
pub open spec fn spec_changed(seen: Map<i64, (u64, u64)>, id: i64, fingerprint: (u64, u64)) -> bool {
    seen.contains_key(id) && seen[id] != fingerprint
}

/// A library that did not change between two rounds is not rescanned,
/// the first round of any library rescans nothing, and observing a
/// library leaves what is remembered of every other one as it was.
pub proof fn lemma_unchanged_library_not_rescanned(
    seen: Map<i64, (u64, u64)>,
    id: i64,
    fingerprint: (u64, u64),
    other: i64,
    other_fingerprint: (u64, u64),
)
    requires
        other != id,
    ensures
        !spec_changed(seen.insert(id, fingerprint), id, fingerprint),
        !seen.contains_key(id) ==> !spec_changed(seen, id, fingerprint),
        spec_changed(seen.insert(id, fingerprint), other, other_fingerprint) == spec_changed(
            seen,
            other,
            other_fingerprint,
        ),
{
}

/// A hyphenated UUID as `Uuid`'s `Display` writes it: 36 characters,
/// `-` at positions 8, 13, 18 and 23, lower-case hex digits elsewhere.
pub open spec fn is_uuid_text(s: Seq<char>) -> bool {
    s.len() == 36 && forall|i: int|
        0 <= i < 36 ==> if i == 8 || i == 13 || i == 18 || i == 23 {
            #[trigger] s[i] == '-'
        } else {
            ('0' <= s[i] && s[i] <= '9') || ('a' <= s[i] && s[i] <= 'f')
        }
}

/// `uuid::Uuid::new_v4().to_string()`: a random UUID. Claims only its
/// text form, which the crate's formatter fixes.
#[verifier::external_body]
fn new_uuid() -> (r: String)
    ensures
        is_uuid_text(r@),
{
    uuid::Uuid::new_v4().to_string()
}

pub open spec fn invalid_pairing_code() -> ErrorView {
    ErrorView::BadRequest("Pairing code is invalid or expired"@)
}

/// `pair`'s decisions for a client at `now`: the attempt is rate-limited,
/// then the code is used up; when it was valid, the device gets a fresh
/// token and its display name. The caller stores the device.
pub fn pair_device(
    attempts: &mut Vec<u64>,
    codes: &mut PairingCodes,
    code: &str,
    now: u64,
    requested_name: Option<&str>,
) -> (r: Result<(String, String), AppError>)
    ensures
        recent_attempts(old(attempts)@, now).len() >= MAX_PAIRING_ATTEMPTS ==> (final(attempts)@
            == recent_attempts(old(attempts)@, now) && final(codes)@ == old(codes)@ && (r matches Err(e)
            && e@ == too_many_attempts())),
        recent_attempts(old(attempts)@, now).len() < MAX_PAIRING_ATTEMPTS ==> (final(attempts)@
            == recent_attempts(old(attempts)@, now).push(now) && final(codes)@ == spec_redeem(
            old(codes)@,
            code@,
            now,
        ).0 && match r {
            Ok((token, name)) => spec_redeem(old(codes)@, code@, now).1 && is_uuid_text(token@)
                && name@ == spec_device_name(opt_str(requested_name)),
            Err(e) => !spec_redeem(old(codes)@, code@, now).1 && e@ == invalid_pairing_code(),
        }),
        old(attempts)@.len() <= MAX_PAIRING_ATTEMPTS ==> final(attempts)@.len() <= MAX_PAIRING_ATTEMPTS,
{
    match rate_limit_pairing(attempts, now) {
        Ok(()) => {},
        Err(e) => return Err(e),
    }
    if !codes.redeem(code, now) {
        return Err(bad_request("Pairing code is invalid or expired"));
    }
    let token = new_uuid();
    let name = device_name(requested_name);
    Ok((token, name))
}

} // verus!
