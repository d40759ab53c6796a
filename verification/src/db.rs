//! The decisions that the library database makes around its SQL: schema
//! migrations and their backups, the checks on names and kinds that it
//! stores, which rows a scan prunes, and when a reader token is touched.

use crate::error::{bad_request, AppError, ErrorView};
use crate::scanner::{opt_view, strs};
use crate::text::{
    chars_eq, contains_chars, contains_seq, dec_int, ends_with, ends_with_chars, i64_to_string,
    lower, starts_with, starts_with_chars, string_of, to_chars, to_lower, trim, trim_chars,
};
use vstd::prelude::*;

verus! {

/// The schema version that this build writes.
pub const LATEST_SCHEMA_VERSION: i64 = 5;

/// What opening a database at schema `version` does: whether it first
/// copies the file aside, and which schema steps it applies, in order.
#[derive(Debug)]
pub struct MigrationPlan {
    pub backup: bool,
    pub steps: Vec<i64>,
}

/// The schema steps from `version` up to the latest: every step above
/// the current version, starting no lower than 1.
pub open spec fn spec_steps(version: i64) -> Seq<i64> {
    let from: int = if version < 0 { 0 } else { version as int };
    Seq::new((LATEST_SCHEMA_VERSION - from) as nat, |i: int| (from + 1 + i) as i64)
}

pub open spec fn newer_schema(version: i64) -> ErrorView {
    ErrorView::Internal(
        "This database belongs to a newer sTori version (schema "@ + dec_int(version as int) + ")"@,
    )
}

/// `migrate`'s decisions: a database from a newer version is refused; an
/// existing file below the latest schema is backed up first; then each
/// missing step is applied.
pub fn migration_plan(version: i64, existed: bool) -> (r: Result<MigrationPlan, AppError>)
    ensures
        match r {
            Ok(p) => version <= LATEST_SCHEMA_VERSION && p.backup == (existed && version
                < LATEST_SCHEMA_VERSION) && p.steps@ == spec_steps(version),
            Err(e) => version > LATEST_SCHEMA_VERSION && e@ == newer_schema(version),
        },
{
    if version > LATEST_SCHEMA_VERSION {
        let mut v = to_chars("This database belongs to a newer sTori version (schema ");
        v.extend_from_slice(to_chars(i64_to_string(version).as_str()).as_slice());
        v.extend_from_slice(to_chars(")").as_slice());
        assert(v@ == "This database belongs to a newer sTori version (schema "@ + dec_int(
            version as int,
        ) + ")"@);
        return Err(AppError::Internal(string_of(v.as_slice())));
    }
    let from: i64 = if version < 0 { 0 } else { version };
    let mut steps: Vec<i64> = Vec::new();
    let mut k: i64 = from + 1;
    while k <= LATEST_SCHEMA_VERSION
        invariant
            0 <= from <= LATEST_SCHEMA_VERSION,
            from + 1 <= k <= LATEST_SCHEMA_VERSION + 1,
            from == (if version < 0 { 0 } else { version }),
            steps@ == Seq::new((k - from - 1) as nat, |i: int| (from + 1 + i) as i64),
        decreases LATEST_SCHEMA_VERSION + 1 - k,
    {
        steps.push(k);
        k = k + 1;
        assert(steps@ =~= Seq::new((k - from - 1) as nat, |i: int| (from + 1 + i) as i64));
    }
    Ok(MigrationPlan { backup: existed && version < LATEST_SCHEMA_VERSION, steps })
}

/// Whatever the version it starts from, an accepted migration ends at the
/// latest schema, one step at a time.
pub proof fn lemma_migration_reaches_latest(version: i64)
    requires
        version <= LATEST_SCHEMA_VERSION,
    ensures
        spec_steps(version).len() == 0 ==> version == LATEST_SCHEMA_VERSION,
        spec_steps(version).len() > 0 ==> spec_steps(version).last() == LATEST_SCHEMA_VERSION,
        forall|i: int|
            0 < i < spec_steps(version).len() ==> #[trigger] spec_steps(version)[i] == spec_steps(
                version,
            )[i - 1] + 1,
        forall|i: int| 0 <= i < spec_steps(version).len() ==> #[trigger] spec_steps(version)[i] > version,
{
}

pub open spec fn integrity_failed(result: Seq<char>) -> ErrorView {
    ErrorView::Internal("Database integrity check failed: "@ + result)
}

/// `verify_integrity`'s decision on the answer of `PRAGMA quick_check`.
pub fn integrity_check(result: &str) -> (r: Result<(), AppError>)
    ensures
        match r {
            Ok(()) => result@ == "ok"@,
            Err(e) => result@ != "ok"@ && e@ == integrity_failed(result@),
        },
{
    if chars_eq(to_chars(result).as_slice(), to_chars("ok").as_slice()) {
        Ok(())
    } else {
        let mut v = to_chars("Database integrity check failed: ");
        v.extend_from_slice(to_chars(result).as_slice());
        assert(v@ == "Database integrity check failed: "@ + result@);
        Err(AppError::Internal(string_of(v.as_slice())))
    }
}

/// The stem that names a database's backups: the file's stem, or `stori`.
pub fn database_stem(stem: Option<&str>) -> (r: String)
    ensures
        r@ == match stem {
            Some(s) => s@,
            None => "stori"@,
        },
{
    match stem {
        Some(s) => s.to_owned(),
        None => "stori".to_owned(),
    }
}

/// The file of the backup taken before a migration:
/// `{stem}-schema-{version}-{stamp}.db`.
pub fn migration_backup_name(stem: &str, from_version: i64, stamp: &str) -> (r: String)
    ensures
        r@ == stem@ + "-schema-"@ + dec_int(from_version as int) + seq!['-'] + stamp@ + ".db"@,
{
    let mut v = to_chars(stem);
    v.extend_from_slice(to_chars("-schema-").as_slice());
    v.extend_from_slice(to_chars(i64_to_string(from_version).as_str()).as_slice());
    v.push('-');
    v.extend_from_slice(to_chars(stamp).as_slice());
    v.extend_from_slice(to_chars(".db").as_slice());
    string_of(v.as_slice())
}

/// The prefix of manual backups.
pub const MANUAL_BACKUP_PREFIX: &'static str = "stori-manual-";

/// How many manual backups are kept.
pub const MANUAL_BACKUPS_KEPT: usize = 10;

/// How many backups taken before migrations are kept.
pub const MIGRATION_BACKUPS_KEPT: usize = 5;

/// The file of a manual backup: `stori-manual-{stamp}.db`.
pub fn manual_backup_name(stamp: &str) -> (r: String)
    ensures
        r@ == "stori-manual-"@ + stamp@ + ".db"@,
{
    let mut v = to_chars("stori-manual-");
    v.extend_from_slice(to_chars(stamp).as_slice());
    v.extend_from_slice(to_chars(".db").as_slice());
    string_of(v.as_slice())
}

/// Whether a file is listed as a backup: its extension is `db`.
pub fn is_backup_file(extension: Option<&str>) -> (r: bool)
    ensures
        r == (extension matches Some(e) && e@ == "db"@),
{
    match extension {
        None => false,
        Some(e) => chars_eq(to_chars(e).as_slice(), to_chars("db").as_slice()),
    }
}

/// Text order, character by character, as `str`'s `<` orders.
pub open spec fn text_less_from(a: Seq<char>, b: Seq<char>, i: int) -> bool
    decreases a.len() - i,
{
    if i < 0 || i >= a.len() {
        0 <= i < b.len()
    } else if i >= b.len() {
        false
    } else if a[i] != b[i] {
        a[i] < b[i]
    } else {
        text_less_from(a, b, i + 1)
    }
}

pub open spec fn text_less(a: Seq<char>, b: Seq<char>) -> bool {
    text_less_from(a, b, 0)
}

/// `a < b` on texts.
pub fn text_less_exec(a: &[char], b: &[char]) -> (r: bool)
    ensures
        r == text_less(a@, b@),
{
    let mut i: usize = 0;
    while i < a.len() && i < b.len() && a[i] == b[i]
        invariant
            i <= a@.len(),
            i <= b@.len(),
            text_less(a@, b@) == text_less_from(a@, b@, i as int),
        decreases a@.len() - i,
    {
        i = i + 1;
    }
    if i >= a.len() {
        i < b.len()
    } else if i >= b.len() {
        false
    } else {
        a[i] < b[i]
    }
}

/// A file that belongs to the backups named by `prefix`.
pub open spec fn is_backup_of(name: Seq<char>, prefix: Seq<char>) -> bool {
    starts_with(name, prefix) && ends_with(name, ".db"@)
}

/// How many of the backups in `names` sort after `x`.
pub open spec fn newer_count(names: Seq<Seq<char>>, prefix: Seq<char>, x: Seq<char>) -> nat
    decreases names.len(),
{
    if names.len() == 0 {
        0
    } else {
        newer_count(names.drop_last(), prefix, x) + if is_backup_of(names.last(), prefix)
            && text_less(x, names.last()) {
            1nat
        } else {
            0nat
        }
    }
}

/// The backups of `names` that pruning removes, in the order given: those
/// with at least `keep` backups after them in name order, which for
/// timestamped names are all but the newest `keep`.
pub open spec fn spec_pruned(names: Seq<Seq<char>>, all: Seq<Seq<char>>, prefix: Seq<char>, keep: nat) -> Seq<Seq<char>>
    decreases names.len(),
{
    if names.len() == 0 {
        Seq::empty()
    } else {
        let rest = spec_pruned(names.drop_last(), all, prefix, keep);
        let x = names.last();
        if is_backup_of(x, prefix) && newer_count(all, prefix, x) >= keep {
            rest.push(x)
        } else {
            rest
        }
    }
}

/// The backups of `names` that pruning keeps: those with fewer than
/// `keep` backups after them in name order.
pub open spec fn spec_remaining(names: Seq<Seq<char>>, all: Seq<Seq<char>>, prefix: Seq<char>, keep: nat) -> Seq<Seq<char>>
    decreases names.len(),
{
    if names.len() == 0 {
        Seq::empty()
    } else {
        let rest = spec_remaining(names.drop_last(), all, prefix, keep);
        let x = names.last();
        if is_backup_of(x, prefix) && newer_count(all, prefix, x) < keep {
            rest.push(x)
        } else {
            rest
        }
    }
}

proof fn lemma_remaining_members(names: Seq<Seq<char>>, all: Seq<Seq<char>>, prefix: Seq<char>, keep: nat)
    requires
        names.no_duplicates(),
    ensures
        spec_remaining(names, all, prefix, keep).no_duplicates(),
        forall|i: int|
            0 <= i < spec_remaining(names, all, prefix, keep).len() ==> {
                let y = #[trigger] spec_remaining(names, all, prefix, keep)[i];
                names.contains(y) && is_backup_of(y, prefix) && newer_count(all, prefix, y) < keep
            },
    decreases names.len(),
{
    if names.len() > 0 {
        let d = names.drop_last();
        assert forall|i: int, j: int| 0 <= i < d.len() && 0 <= j < d.len() && i != j implies d[i] != d[j] by {
            assert(d[i] == names[i] && d[j] == names[j]);
        }
        lemma_remaining_members(d, all, prefix, keep);
        let rest = spec_remaining(d, all, prefix, keep);
        let x = names.last();
        assert forall|i: int| 0 <= i < rest.len() implies names.contains(#[trigger] rest[i]) by {
            let k = choose|k: int| 0 <= k < d.len() && d[k] == rest[i];
            assert(names[k] == rest[i]);
        }
        if is_backup_of(x, prefix) && newer_count(all, prefix, x) < keep {
            let r = rest.push(x);
            assert forall|i: int| 0 <= i < rest.len() implies #[trigger] rest[i] != x by {
                let k = choose|k: int| 0 <= k < d.len() && d[k] == rest[i];
                assert(names[k] == rest[i]);
                assert(names[names.len() - 1] == x);
            }
            assert forall|i: int, j: int| 0 <= i < r.len() && 0 <= j < r.len() && i != j implies r[i] != r[j] by {
                if i < rest.len() && j < rest.len() {
                    assert(r[i] == rest[i] && r[j] == rest[j]);
                } else if i < rest.len() {
                    assert(r[i] == rest[i] && r[j] == x);
                } else {
                    assert(r[j] == rest[j] && r[i] == x);
                }
            }
            assert forall|i: int| 0 <= i < r.len() implies {
                let y = #[trigger] r[i];
                names.contains(y) && is_backup_of(y, prefix) && newer_count(all, prefix, y) < keep
            } by {
                if i < rest.len() {
                    assert(r[i] == rest[i]);
                } else {
                    assert(names[names.len() - 1] == x);
                }
            }
        }
    }
}

proof fn lemma_newer_count_at_least(t: Seq<Seq<char>>, s: Seq<Seq<char>>, prefix: Seq<char>, x: Seq<char>)
    requires
        s.no_duplicates(),
        forall|i: int| 0 <= i < s.len() ==> t.contains(#[trigger] s[i]) && is_backup_of(s[i], prefix) && text_less(x, s[i]),
    ensures
        s.len() <= newer_count(t, prefix, x),
    decreases t.len(),
{
    if t.len() == 0 {
        if s.len() > 0 {
            assert(t.contains(s[0]));
        }
    } else {
        let d = t.drop_last();
        let last = t.last();
        if s.contains(last) {
            let k = choose|k: int| 0 <= k < s.len() && s[k] == last;
            let s2 = s.remove(k);
            assert forall|i: int, j: int| 0 <= i < s2.len() && 0 <= j < s2.len() && i != j implies s2[i] != s2[j] by {
                let a = if i < k { i } else { i + 1 };
                let b = if j < k { j } else { j + 1 };
                assert(s2[i] == s[a] && s2[j] == s[b]);
            }
            assert forall|i: int| 0 <= i < s2.len() implies d.contains(#[trigger] s2[i]) && is_backup_of(s2[i], prefix) && text_less(x, s2[i]) by {
                let a = if i < k { i } else { i + 1 };
                assert(s2[i] == s[a]);
                assert(a != k);
                assert(s[a] != last);
                assert(t.contains(s[a]));
                let q = choose|q: int| 0 <= q < t.len() && t[q] == s[a];
                assert(q != t.len() - 1);
                assert(d[q] == s[a]);
            }
            lemma_newer_count_at_least(d, s2, prefix, x);
        } else {
            assert forall|i: int| 0 <= i < s.len() implies d.contains(#[trigger] s[i]) && is_backup_of(s[i], prefix) && text_less(x, s[i]) by {
                assert(t.contains(s[i]));
                let q = choose|q: int| 0 <= q < t.len() && t[q] == s[i];
                if q == t.len() - 1 {
                    assert(s.contains(last));
                }
                assert(d[q] == s[i]);
            }
            lemma_newer_count_at_least(d, s, prefix, x);
        }
    }
}

proof fn lemma_least_name(r: Seq<Seq<char>>) -> (m: int)
    requires
        r.len() > 0,
    ensures
        0 <= m < r.len(),
        forall|j: int| 0 <= j < r.len() ==> !text_less(#[trigger] r[j], r[m]),
    decreases r.len(),
{
    if r.len() == 1 {
        lemma_text_less_irreflexive(r[0], 0);
        0
    } else {
        let d = r.drop_last();
        let m0 = lemma_least_name(d);
        assert(d[m0] == r[m0]);
        if text_less(r.last(), r[m0]) {
            let m = r.len() - 1;
            assert forall|j: int| 0 <= j < r.len() implies !text_less(#[trigger] r[j], r[m]) by {
                if j == m {
                    lemma_text_less_irreflexive(r[m], 0);
                } else {
                    assert(r[j] == d[j]);
                    if text_less(r[j], r[m]) {
                        lemma_text_less_transitive(r[j], r[m], r[m0], 0);
                    }
                }
            }
            m
        } else {
            assert forall|j: int| 0 <= j < r.len() implies !text_less(#[trigger] r[j], r[m0]) by {
                if j < r.len() - 1 {
                    assert(r[j] == d[j]);
                }
            }
            m0
        }
    }
}

/// Pruning leaves at most `keep` of the backups under `prefix`, when the
/// names are those of a folder's files, each listed once.
pub proof fn lemma_pruning_keeps_at_most(names: Seq<Seq<char>>, prefix: Seq<char>, keep: nat)
    requires
        names.no_duplicates(),
    ensures
        spec_remaining(names, names, prefix, keep).len() <= keep,
{
    let r = spec_remaining(names, names, prefix, keep);
    lemma_remaining_members(names, names, prefix, keep);
    if r.len() > keep {
        let m = lemma_least_name(r);
        let s = r.remove(m);
        assert forall|i: int, j: int| 0 <= i < s.len() && 0 <= j < s.len() && i != j implies s[i] != s[j] by {
            let a = if i < m { i } else { i + 1 };
            let b = if j < m { j } else { j + 1 };
            assert(s[i] == r[a] && s[j] == r[b]);
        }
        assert forall|i: int| 0 <= i < s.len() implies names.contains(#[trigger] s[i]) && is_backup_of(s[i], prefix) && text_less(r[m], s[i]) by {
            let a = if i < m { i } else { i + 1 };
            assert(s[i] == r[a]);
            assert(r[a] != r[m]);
            assert(!text_less(r[a], r[m]));
            lemma_text_less_total(r[a], r[m], 0);
        }
        lemma_newer_count_at_least(names, s, prefix, r[m]);
        assert(r[m] == r[m]);
    }
}

fn is_backup_of_exec(name: &[char], prefix: &[char]) -> (r: bool)
    ensures
        r == is_backup_of(name@, prefix@),
{
    starts_with_chars(name, prefix) && ends_with_chars(name, to_chars(".db").as_slice())
}

fn count_newer(names: &Vec<Vec<char>>, prefix: &[char], x: &[char]) -> (r: usize)
    ensures
        r == newer_count(crate::text::views(names@), prefix@, x@),
{
    let ghost all = crate::text::views(names@);
    let mut count: usize = 0;
    let mut i: usize = 0;
    assert(all.take(0) =~= Seq::<Seq<char>>::empty());
    while i < names.len()
        invariant
            i <= names@.len(),
            all == crate::text::views(names@),
            count <= i,
            count == newer_count(all.take(i as int), prefix@, x@),
        decreases names@.len() - i,
    {
        assert(all.take(i + 1).drop_last() =~= all.take(i as int));
        assert(all.take(i + 1).last() == names@[i as int]@);
        if is_backup_of_exec(names[i].as_slice(), prefix) && text_less_exec(x, names[i].as_slice()) {
            count = count + 1;
        }
        i = i + 1;
    }
    assert(all.take(names@.len() as int) =~= all);
    count
}

/// `prune_backups`' choice: of the files named `names` (the contents of a
/// backup folder), the backups under `prefix` to delete so that `keep`
/// remain, the oldest by name first to go.
pub fn backups_to_prune(names: &Vec<String>, prefix: &str, keep: usize) -> (r: Vec<String>)
    ensures
        strs(r@) == spec_pruned(strs(names@), strs(names@), prefix@, keep as nat),
{
    let mut chars: Vec<Vec<char>> = Vec::new();
    let mut j: usize = 0;
    while j < names.len()
        invariant
            j <= names@.len(),
            chars@.len() == j,
            crate::text::views(chars@) == strs(names@).take(j as int),
        decreases names@.len() - j,
    {
        let ghost before = chars@;
        chars.push(to_chars(names[j].as_str()));
        j = j + 1;
        assert forall|k: int| 0 <= k < j implies #[trigger] crate::text::views(chars@)[k] == strs(
            names@,
        ).take(j as int)[k] by {
            if k < j - 1 {
                assert(chars@[k] == before[k]);
                assert(crate::text::views(before)[k] == strs(names@).take(j - 1)[k]);
            }
        }
        assert(crate::text::views(chars@) =~= strs(names@).take(j as int));
    }
    assert(strs(names@).take(names@.len() as int) =~= strs(names@));
    let p = to_chars(prefix);
    let ghost all = strs(names@);
    let mut r: Vec<String> = Vec::new();
    let mut i: usize = 0;
    assert(all.take(0) =~= Seq::<Seq<char>>::empty());
    assert(strs(r@) =~= Seq::<Seq<char>>::empty());
    while i < names.len()
        invariant
            i <= names@.len(),
            all == strs(names@),
            crate::text::views(chars@) == all,
            p@ == prefix@,
            strs(r@) == spec_pruned(all.take(i as int), all, prefix@, keep as nat),
        decreases names@.len() - i,
    {
        assert(all.take(i + 1).drop_last() =~= all.take(i as int));
        assert(all.take(i + 1).last() == names@[i as int]@);
        assert(chars@[i as int]@ == names@[i as int]@);
        if is_backup_of_exec(chars[i].as_slice(), p.as_slice()) {
            let n = count_newer(&chars, p.as_slice(), chars[i].as_slice());
            if n >= keep {
                let ghost before = r@;
                r.push(names[i].clone());
                proof {
                    crate::scanner::lemma_strs_push(before, r@.last());
                    assert(r@ == before.push(r@.last()));
                }
            }
        }
        i = i + 1;
    }
    assert(all.take(names@.len() as int) =~= all);
    r
}

/// `display_path`: on Windows, a path without its `\\?\` verbatim prefix.
pub open spec fn spec_display_path(path: Seq<char>, windows: bool) -> Seq<char> {
    if windows && starts_with(path, "\\\\?\\"@) {
        path.skip(4)
    } else {
        path
    }
}

pub fn display_path(path: &str, windows: bool) -> (r: String)
    ensures
        r@ == spec_display_path(path@, windows),
{
    let v = to_chars(path);
    let prefix = to_chars("\\\\?\\");
    if windows && starts_with_chars(v.as_slice(), prefix.as_slice()) {
        proof {
            reveal_strlit("\\\\?\\");
        }
        let mut out: Vec<char> = Vec::new();
        let mut i: usize = 4;
        while i < v.len()
            invariant
                4 <= i <= v@.len(),
                out@ == v@.subrange(4, i as int),
            decreases v@.len() - i,
        {
            out.push(v[i]);
            i = i + 1;
            assert(out@ =~= v@.subrange(4, i as int));
        }
        assert(out@ =~= v@.skip(4));
        string_of(out.as_slice())
    } else {
        path.to_owned()
    }
}

/// `firewall_rule_detected`: whether the firewall rules that `netsh`
/// listed mention the server's executable, compared without ASCII case.
/// Nothing is known when the executable's path or the listing is missing,
/// or when `netsh` failed.
pub fn firewall_rule_detected(executable: Option<&str>, netsh: Option<(bool, &str)>) -> (r: Option<bool>)
    ensures
        match r {
            Some(found) => executable is Some && (netsh matches Some((ok, rules)) && ok && found
                == contains_seq(lower(rules@), lower(executable->0@))),
            None => executable is None || !(netsh matches Some((ok, _)) && ok),
        },
{
    let exe = match executable {
        None => return None,
        Some(e) => e,
    };
    let (ok, rules) = match netsh {
        None => return None,
        Some(pair) => pair,
    };
    if !ok {
        return None;
    }
    let r = to_lower(to_chars(rules).as_slice());
    let x = to_lower(to_chars(exe).as_slice());
    Some(contains_chars(r.as_slice(), x.as_slice()))
}

pub open spec fn spec_firewall_guidance(windows: bool) -> Seq<char> {
    if windows {
        "For iPhone access, allow sTori through Windows Defender Firewall when prompted. Private networks are preferred; Windows Mobile Hotspot may require the Public profile on some PCs."@
    } else {
        "Allow incoming connections to sTori on TCP port 1822 in your system firewall."@
    }
}

/// `firewall_guidance`: how to let phones reach the server, for Windows
/// or for other systems.
pub fn firewall_guidance(windows: bool) -> (r: String)
    ensures
        r@ == spec_firewall_guidance(windows),
{
    if windows {
        "For iPhone access, allow sTori through Windows Defender Firewall when prompted. Private networks are preferred; Windows Mobile Hotspot may require the Public profile on some PCs.".to_owned()
    } else {
        "Allow incoming connections to sTori on TCP port 1822 in your system firewall.".to_owned()
    }
}

pub open spec fn folder_missing(path: Seq<char>) -> ErrorView {
    ErrorView::BadRequest("Library folder does not exist: "@ + path)
}

pub open spec fn not_a_directory() -> ErrorView {
    ErrorView::BadRequest("A library must be a directory"@)
}

/// `add_library`'s check of the folder at `path`: `found` is `None` when
/// the path does not resolve, else whether it is a directory.
pub fn check_library_folder(path: &str, found: Option<bool>) -> (r: Result<(), AppError>)
    ensures
        match r {
            Ok(()) => found == Some(true),
            Err(e) => match found {
                None => e@ == folder_missing(path@),
                Some(is_dir) => !is_dir && e@ == not_a_directory(),
            },
        },
{
    match found {
        None => {
            let mut v = to_chars("Library folder does not exist: ");
            v.extend_from_slice(to_chars(path).as_slice());
            assert(v@ == "Library folder does not exist: "@ + path@);
            Err(AppError::BadRequest(string_of(v.as_slice())))
        },
        Some(true) => Ok(()),
        Some(false) => Err(bad_request("A library must be a directory")),
    }
}

/// A name, trimmed, that must not be empty; `message` is the error.
fn required_name(name: &str, message: &str) -> (r: Result<String, AppError>)
    ensures
        match r {
            Ok(n) => trim(name@).len() > 0 && n@ == trim(name@),
            Err(e) => trim(name@).len() == 0 && e@ == ErrorView::BadRequest(message@),
        },
{
    let t = trim_chars(to_chars(name).as_slice());
    if t.len() == 0 {
        Err(bad_request(message))
    } else {
        Ok(string_of(t.as_slice()))
    }
}

/// The name a library is renamed to: trimmed, and not empty.
pub fn library_name(name: &str) -> (r: Result<String, AppError>)
    ensures
        match r {
            Ok(n) => trim(name@).len() > 0 && n@ == trim(name@),
            Err(e) => trim(name@).len() == 0 && e@ == ErrorView::BadRequest("A library needs a name"@),
        },
{
    required_name(name, "A library needs a name")
}

/// The name a collection is saved under: trimmed, and not empty.
pub fn collection_name(name: &str) -> (r: Result<String, AppError>)
    ensures
        match r {
            Ok(n) => trim(name@).len() > 0 && n@ == trim(name@),
            Err(e) => trim(name@).len() == 0 && e@ == ErrorView::BadRequest(
                "Collection name is required"@,
            ),
        },
{
    required_name(name, "Collection name is required")
}

/// Where a bookmark points: its locator, trimmed, and not empty.
pub fn bookmark_locator(locator: &str) -> (r: Result<String, AppError>)
    ensures
        match r {
            Ok(n) => trim(locator@).len() > 0 && n@ == trim(locator@),
            Err(e) => trim(locator@).len() == 0 && e@ == ErrorView::BadRequest(
                "A bookmark location is required"@,
            ),
        },
{
    required_name(locator, "A bookmark location is required")
}

pub open spec fn managed_not_removable() -> ErrorView {
    ErrorView::BadRequest("The managed sTori Books library cannot be removed."@)
}

/// `remove_library`'s refusal: the library whose id the
/// `managed_download_library_id` setting holds cannot be removed.
pub fn check_removable(id: i64, managed_setting: Option<&str>) -> (r: Result<(), AppError>)
    ensures
        match r {
            Ok(()) => !(managed_setting matches Some(s) && s@ == dec_int(id as int)),
            Err(e) => managed_setting matches Some(s) && s@ == dec_int(id as int) && e@
                == managed_not_removable(),
        },
{
    match managed_setting {
        None => Ok(()),
        Some(s) => {
            let own = i64_to_string(id);
            if chars_eq(to_chars(s).as_slice(), to_chars(own.as_str()).as_slice()) {
                Err(bad_request("The managed sTori Books library cannot be removed."))
            } else {
                Ok(())
            }
        },
    }
}

/// The kinds of annotation that can be stored.
pub open spec fn is_annotation_kind(kind: Seq<char>) -> bool {
    kind == "bookmark"@ || kind == "highlight"@ || kind == "note"@
}

/// `add_annotation`'s check of the kind: refused unless it is known; a
/// bookmark (`Ok(true)`) goes through the bookmark path.
pub fn annotation_kind(kind: &str) -> (r: Result<bool, AppError>)
    ensures
        match r {
            Ok(b) => is_annotation_kind(kind@) && b == (kind@ == "bookmark"@),
            Err(e) => !is_annotation_kind(kind@) && e@ == ErrorView::BadRequest(
                "Invalid annotation kind"@,
            ),
        },
{
    let k = to_chars(kind);
    if chars_eq(k.as_slice(), to_chars("bookmark").as_slice()) {
        Ok(true)
    } else if chars_eq(k.as_slice(), to_chars("highlight").as_slice()) || chars_eq(
        k.as_slice(),
        to_chars("note").as_slice(),
    ) {
        Ok(false)
    } else {
        Err(bad_request("Invalid annotation kind"))
    }
}

/// The rows of a saved collection: each book with its position.
pub fn collection_positions(book_ids: &Vec<i64>) -> (r: Vec<(i64, i64)>)
    requires
        book_ids@.len() <= i64::MAX,
    ensures
        r@.len() == book_ids@.len(),
        forall|i: int| 0 <= i < r@.len() ==> #[trigger] r@[i] == (book_ids@[i], i as i64),
{
    let mut r: Vec<(i64, i64)> = Vec::new();
    let mut i: usize = 0;
    while i < book_ids.len()
        invariant
            i <= book_ids@.len() <= i64::MAX,
            r@.len() == i,
            forall|j: int| 0 <= j < i ==> #[trigger] r@[j] == (book_ids@[j], j as i64),
        decreases book_ids@.len() - i,
    {
        r.push((book_ids[i], i as i64));
        i = i + 1;
    }
    r
}

/// How the book list is queried: by full-text match, or by reading
/// status; and the value bound to the query.
#[derive(Debug)]
pub struct BookQuery {
    pub full_text: bool,
    pub value: String,
}

/// `query` without double quotes.
pub open spec fn without_quotes(s: Seq<char>) -> Seq<char>
    decreases s.len(),
{
    if s.len() == 0 {
        s
    } else if s.last() == '"' {
        without_quotes(s.drop_last())
    } else {
        without_quotes(s.drop_last()).push(s.last())
    }
}

/// `books`' query: a blank search lists by status (empty for all); any
/// other is a prefix match on the trimmed words, quotes removed.
pub fn book_query(query: &str, status: Option<&str>) -> (r: BookQuery)
    ensures
        r.full_text == (trim(query@).len() > 0),
        r.full_text ==> r.value@ == without_quotes(trim(query@)) + seq!['*'],
        !r.full_text ==> r.value@ == match status {
            Some(s) => s@,
            None => Seq::empty(),
        },
{
    let t = trim_chars(to_chars(query).as_slice());
    if t.len() == 0 {
        let value = match status {
            Some(s) => s.to_owned(),
            None => String::new(),
        };
        return BookQuery { full_text: false, value };
    }
    let mut out: Vec<char> = Vec::new();
    let mut i: usize = 0;
    while i < t.len()
        invariant
            i <= t@.len(),
            out@ == without_quotes(t@.take(i as int)),
        decreases t@.len() - i,
    {
        assert(t@.take(i + 1).drop_last() =~= t@.take(i as int));
        if t[i] != '"' {
            out.push(t[i]);
        }
        i = i + 1;
    }
    assert(t@.take(t@.len() as int) =~= t@);
    out.push('*');
    BookQuery { full_text: true, value: string_of(out.as_slice()) }
}

/// The books that a full scan removes: those stored whose folder the scan
/// did not see; an incremental scan removes none.
pub open spec fn spec_books_to_prune(existing: Seq<(i64, Seq<char>)>, seen: Seq<Seq<char>>, prune: bool) -> Seq<i64>
    decreases existing.len(),
{
    if !prune || existing.len() == 0 {
        Seq::empty()
    } else {
        let rest = spec_books_to_prune(existing.drop_last(), seen, prune);
        if seen.contains(existing.last().1) {
            rest
        } else {
            rest.push(existing.last().0)
        }
    }
}

pub open spec fn row_views(rows: Seq<(i64, String)>) -> Seq<(i64, Seq<char>)> {
    rows.map_values(|r: (i64, String)| (r.0, r.1@))
}

fn contains_text(v: &Vec<String>, x: &[char]) -> (r: bool)
    ensures
        r == strs(v@).contains(x@),
{
    let mut i: usize = 0;
    while i < v.len()
        invariant
            i <= v@.len(),
            forall|j: int| 0 <= j < i ==> strs(v@)[j] != x@,
        decreases v@.len() - i,
    {
        if chars_eq(to_chars(v[i].as_str()).as_slice(), x) {
            assert(strs(v@)[i as int] == x@);
            return true;
        }
        i = i + 1;
    }
    false
}

/// `store_scan_mode`'s pruning: the ids of the stored books to delete.
pub fn books_to_prune(existing: &Vec<(i64, String)>, seen: &Vec<String>, prune_missing: bool) -> (r: Vec<i64>)
    ensures
        r@ == spec_books_to_prune(row_views(existing@), strs(seen@), prune_missing),
{
    let mut r: Vec<i64> = Vec::new();
    if !prune_missing {
        return r;
    }
    let ghost rows = row_views(existing@);
    let mut i: usize = 0;
    assert(rows.take(0) =~= Seq::<(i64, Seq<char>)>::empty());
    while i < existing.len()
        invariant
            prune_missing,
            i <= existing@.len(),
            rows == row_views(existing@),
            r@ == spec_books_to_prune(rows.take(i as int), strs(seen@), prune_missing),
        decreases existing@.len() - i,
    {
        assert(rows.take(i + 1).drop_last() =~= rows.take(i as int));
        assert(rows.take(i + 1).last() == (existing@[i as int].0, existing@[i as int].1@));
        let (id, path) = (existing[i].0, &existing[i].1);
        if !contains_text(seen, to_chars(path.as_str()).as_slice()) {
            r.push(id);
        }
        i = i + 1;
    }
    assert(rows.take(existing@.len() as int) =~= rows);
    r
}

/// `create_download_job`'s refusal of an edition already queued.
pub fn check_not_queued(duplicate: bool) -> (r: Result<(), AppError>)
    ensures
        match r {
            Ok(()) => !duplicate,
            Err(e) => duplicate && e@ == ErrorView::BadRequest(
                "This edition is already in the download queue"@,
            ),
        },
{
    if duplicate {
        Err(bad_request("This edition is already in the download queue"))
    } else {
        Ok(())
    }
}

/// The instant that an RFC 3339 timestamp denotes, as whole seconds since
/// the Unix epoch and the nanoseconds within that second, or `None` when
/// `text` is not such a timestamp.
pub uninterp spec fn rfc3339_instant(text: Seq<char>) -> Option<(i64, u32)>;

/// `chrono::DateTime::parse_from_rfc3339`, read with `timestamp` and
/// `timestamp_subsec_nanos`. Claims that the result is the one that
/// `rfc3339_instant` names for `text`.
#[verifier::external_body]
fn parse_rfc3339(text: &str) -> (r: Option<(i64, u32)>)
    ensures
        r == rfc3339_instant(text@),
{
    match chrono::DateTime::parse_from_rfc3339(text) {
        Ok(t) => Some((t.timestamp(), t.timestamp_subsec_nanos())),
        Err(_) => None,
    }
}

/// A reader token's last use is refreshed when it is unknown or at least
/// five minutes old at `now` (seconds and nanoseconds since the epoch).
pub open spec fn spec_stale(last_seen: Option<(i64, u32)>, now_secs: i64, now_nanos: u32) -> bool {
    match last_seen {
        None => true,
        Some((secs, nanos)) => (now_secs - secs) * 1_000_000_000 + (now_nanos - nanos) >= 300_000_000_000,
    }
}

/// Whether a token last seen at `last_seen` is due a refresh at `now`.
pub fn stale_since(last_seen: Option<(i64, u32)>, now_secs: i64, now_nanos: u32) -> (r: bool)
    ensures
        r == spec_stale(last_seen, now_secs, now_nanos),
{
    match last_seen {
        None => true,
        Some((secs, nanos)) => {
            let elapsed: i128 = (now_secs as i128 - secs as i128) * 1_000_000_000i128 + (now_nanos as i128
                - nanos as i128);
            elapsed >= 300_000_000_000i128
        },
    }
}

/// `validate_and_touch_reader_token`'s decision: the stored `last_seen_at`
/// text of a valid token is refreshed when it does not parse or is at
/// least five minutes old at `now` (leap seconds aside).
pub fn token_needs_touch(last_seen: &str, now_secs: i64, now_nanos: u32) -> (r: bool)
    ensures
        r == spec_stale(rfc3339_instant(last_seen@), now_secs, now_nanos),
{
    let parsed = parse_rfc3339(last_seen);
    stale_since(parsed, now_secs, now_nanos)
}

proof fn lemma_text_less_irreflexive(a: Seq<char>, i: int)
    requires
        0 <= i,
    ensures
        !text_less_from(a, a, i),
    decreases a.len() - i,
{
    if i < a.len() {
        lemma_text_less_irreflexive(a, i + 1);
    }
}

proof fn lemma_text_less_total(a: Seq<char>, b: Seq<char>, i: int)
    requires
        0 <= i <= a.len(),
        i <= b.len(),
        forall|j: int| 0 <= j < i ==> a[j] == b[j],
    ensures
        a == b || text_less_from(a, b, i) || text_less_from(b, a, i),
    decreases a.len() + b.len() - 2 * i,
{
    if i == a.len() && i == b.len() {
        assert(a =~= b);
    } else if i < a.len() && i < b.len() && a[i] == b[i] {
        lemma_text_less_total(a, b, i + 1);
    }
}

proof fn lemma_text_less_transitive(a: Seq<char>, b: Seq<char>, c: Seq<char>, i: int)
    requires
        0 <= i,
        text_less_from(a, b, i),
        text_less_from(b, c, i),
    ensures
        text_less_from(a, c, i),
    decreases a.len() - i,
{
    if i < a.len() && i < b.len() && i < c.len() && a[i] == b[i] && b[i] == c[i] {
        lemma_text_less_transitive(a, b, c, i + 1);
    }
}

/// Whether backup `i` is listed before backup `j`: it was created later,
/// or at the same time and listed earlier.
pub open spec fn listed_before(created: Seq<Seq<char>>, i: int, j: int) -> bool {
    text_less(created[j], created[i]) || (created[i] == created[j] && i < j)
}

/// An order of the positions `0..n` of `created`, newest first.
pub open spec fn newest_first_order(created: Seq<Seq<char>>, r: Seq<usize>) -> bool {
    &&& r.len() == created.len()
    &&& forall|a: int| 0 <= a < r.len() ==> #[trigger] r[a] < created.len()
    &&& forall|a: int, b: int| 0 <= a < b < r.len() ==> listed_before(created, #[trigger] r[a] as int, #[trigger] r[b] as int)
}

/// `backups`' order: the positions of the backups sorted by creation time,
/// newest first, ties in their listed order, as the stable sort on the
/// reversed comparison leaves them.
pub fn newest_first(created: &Vec<String>) -> (r: Vec<usize>)
    ensures
        newest_first_order(strs(created@), r@),
{
    let ghost keys = strs(created@);
    let mut chars: Vec<Vec<char>> = Vec::new();
    let mut j: usize = 0;
    while j < created.len()
        invariant
            j <= created@.len(),
            keys == strs(created@),
            chars@.len() == j,
            forall|k: int| 0 <= k < j ==> (#[trigger] chars@[k])@ == keys[k],
        decreases created@.len() - j,
    {
        chars.push(to_chars(created[j].as_str()));
        j = j + 1;
    }
    let mut out: Vec<usize> = Vec::new();
    let mut i: usize = 0;
    while i < chars.len()
        invariant
            i <= chars@.len(),
            chars@.len() == keys.len(),
            forall|k: int| 0 <= k < chars@.len() ==> (#[trigger] chars@[k])@ == keys[k],
            out@.len() == i,
            forall|a: int| 0 <= a < out@.len() ==> #[trigger] out@[a] < i,
            forall|a: int, b: int| 0 <= a < b < out@.len() ==> listed_before(keys, #[trigger] out@[a] as int, #[trigger] out@[b] as int),
        decreases chars@.len() - i,
    {
        let mut p: usize = 0;
        while p < out.len() && !text_less_exec(chars[out[p]].as_slice(), chars[i].as_slice())
            invariant
                i < chars@.len(),
                chars@.len() == keys.len(),
                forall|k: int| 0 <= k < chars@.len() ==> (#[trigger] chars@[k])@ == keys[k],
                out@.len() == i,
                forall|a: int| 0 <= a < out@.len() ==> #[trigger] out@[a] < i,
                p <= out@.len(),
                forall|a: int| 0 <= a < p ==> !text_less(keys[#[trigger] out@[a] as int], keys[i as int]),
            decreases out@.len() - p,
        {
            p = p + 1;
        }
        let ghost before = out@;
        proof {
            assert forall|a: int| 0 <= a < p implies listed_before(keys, #[trigger] before[a] as int, i as int) by {
                lemma_text_less_total(keys[before[a] as int], keys[i as int], 0);
            }
            assert forall|b: int| p <= b < before.len() implies listed_before(keys, i as int, #[trigger] before[b] as int) by {
                assert(text_less(keys[before[p as int] as int], keys[i as int]));
                if b > p {
                    assert(listed_before(keys, before[p as int] as int, before[b] as int));
                    if text_less(keys[before[b] as int], keys[before[p as int] as int]) {
                        lemma_text_less_transitive(keys[before[b] as int], keys[before[p as int] as int], keys[i as int], 0);
                    }
                }
            }
        }
        out.insert(p, i);
        proof {
            assert forall|a: int, b: int| 0 <= a < b < out@.len() implies listed_before(keys, #[trigger] out@[a] as int, #[trigger] out@[b] as int) by {
                if a < p && b < p {
                    assert(out@[a] == before[a] && out@[b] == before[b]);
                } else if a < p && b == p {
                    assert(out@[a] == before[a] && out@[b] == i);
                } else if a < p {
                    assert(out@[a] == before[a] && out@[b] == before[b - 1]);
                } else if a == p {
                    assert(out@[a] == i && out@[b] == before[b - 1]);
                } else {
                    assert(out@[a] == before[a - 1] && out@[b] == before[b - 1]);
                }
            }
            assert forall|a: int| 0 <= a < out@.len() implies #[trigger] out@[a] < i + 1 by {
                if a < p {
                    assert(out@[a] == before[a]);
                } else if a > p {
                    assert(out@[a] == before[a - 1]);
                }
            }
        }
        i = i + 1;
    }
    out
}

} // verus!
