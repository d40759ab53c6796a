//! Paths inside EPUB archives: the checks that keep an archive's names
//! from escaping its root, and how relative references are resolved.

use crate::error::{bad_request, AppError, ErrorView};
use crate::text::{
    contains_chars, join, join_chars, replace_char, replace_chars, split, split_chars,
    starts_with, string_of, contains_seq,
};
use vstd::prelude::*;

verus! {

pub open spec fn unsafe_path_error() -> ErrorView {
    ErrorView::BadRequest("The EPUB contains unsafe archive paths."@)
}

/// Whether an archive name is rejected before it is looked at piece by
/// piece: empty, rooted at `/` or `\`, or with a drive letter (`X:`),
/// recognised by a `:` in the name's second byte.
pub open spec fn unsafe_start(v: Seq<char>) -> bool {
    ||| v.len() == 0
    ||| v[0] == '/'
    ||| v[0] == '\\'
    ||| (v.len() >= 2 && v[0] <= '\u{7f}' && v[1] == ':')
}

/// The pieces that the path iterator yields as normal components: those
/// that are neither empty nor `.`.
pub open spec fn normal_parts(pieces: Seq<Seq<char>>) -> Seq<Seq<char>>
    decreases pieces.len(),
{
    if pieces.len() == 0 {
        pieces
    } else {
        let rest = normal_parts(pieces.drop_last());
        let p = pieces.last();
        if p.len() == 0 || p == seq!['.'] {
            rest
        } else {
            rest.push(p)
        }
    }
}

/// The pieces of an archive name, with backslashes read as slashes.
pub open spec fn name_pieces(v: Seq<char>) -> Seq<Seq<char>> {
    split(replace_char(v, '\\', '/'), '/')
}

/// The normalized form of an archive name: its normal components joined by
/// `/`; an error when the name is unsafe, climbs with `..`, or names nothing.
pub open spec fn spec_normalize(v: Seq<char>) -> Result<Seq<char>, ErrorView> {
    if unsafe_start(v) {
        Err(unsafe_path_error())
    } else if name_pieces(v).contains(seq!['.', '.']) {
        Err(unsafe_path_error())
    } else if normal_parts(name_pieces(v)).len() == 0 {
        Err(unsafe_path_error())
    } else {
        Ok(join(normal_parts(name_pieces(v)), seq!['/']))
    }
}

/// Everything before the last `/`, or nothing when there is none.
pub open spec fn dir_part(s: Seq<char>) -> Seq<char>
    decreases s.len(),
{
    if s.len() == 0 {
        s
    } else if s.last() == '/' {
        s.drop_last()
    } else {
        dir_part(s.drop_last())
    }
}

/// A manifest reference resolved against the package document's path:
/// absolute URLs are kept; anything else is joined to the package's
/// directory and normalized, or normalized alone when the package document
/// stands at the archive's root.
pub open spec fn spec_resolve(opf: Seq<char>, href: Seq<char>) -> Result<Seq<char>, ErrorView> {
    if contains_seq(href, "://"@) || starts_with(href, "//"@) {
        Ok(href)
    } else if dir_part(opf).len() == 0 {
        spec_normalize(href)
    } else {
        spec_normalize(dir_part(opf) + seq!['/'] + href)
    }
}

/// The error for an archive name that could escape the archive.
pub fn unsafe_path() -> (e: AppError)
    ensures
        e@ == unsafe_path_error(),
{
    bad_request("The EPUB contains unsafe archive paths.")
}

fn is_dot(p: &Vec<char>) -> (r: bool)
    ensures
        r == (p@ == seq!['.']),
{
    if p.len() == 1 && p[0] == '.' {
        assert(p@ =~= seq!['.']);
        true
    } else {
        false
    }
}

fn is_dot_dot(p: &Vec<char>) -> (r: bool)
    ensures
        r == (p@ == seq!['.', '.']),
{
    if p.len() == 2 && p[0] == '.' && p[1] == '.' {
        assert(p@ =~= seq!['.', '.']);
        true
    } else {
        false
    }
}

/// Normalizes an archive name given as characters.
pub fn normalize_chars(v: &[char]) -> (r: Result<Vec<char>, AppError>)
    ensures
        match r {
            Ok(n) => spec_normalize(v@) == Ok::<Seq<char>, ErrorView>(n@),
            Err(e) => spec_normalize(v@) == Err::<Seq<char>, ErrorView>(e@),
        },
{
    if v.len() == 0 || v[0] == '/' || v[0] == '\\' || (v.len() >= 2 && v[0] <= '\u{7f}'
        && v[1] == ':') {
        return Err(unsafe_path());
    }
    let replaced = replace_chars(v, '\\', '/');
    let pieces = split_chars(replaced.as_slice(), '/');
    let ghost ps = name_pieces(v@);
    assert(pieces@.map_values(|p: Vec<char>| p@) =~= ps);
    let mut parts: Vec<Vec<char>> = Vec::new();
    let mut i: usize = 0;
    while i < pieces.len()
        invariant
            i <= pieces@.len(),
            ps == pieces@.map_values(|p: Vec<char>| p@),
            ps == name_pieces(v@),
            !unsafe_start(v@),
            parts@.map_values(|p: Vec<char>| p@) == normal_parts(ps.take(i as int)),
            !ps.take(i as int).contains(seq!['.', '.']),
        decreases pieces@.len() - i,
    {
        let piece = &pieces[i];
        assert(ps.take(i + 1).drop_last() =~= ps.take(i as int));
        assert(ps.take(i + 1).last() == piece@);
        if is_dot_dot(piece) {
            assert(ps[i as int] == seq!['.', '.']);
            assert(ps.contains(seq!['.', '.']));
            return Err(unsafe_path());
        }
        if piece.len() > 0 && !is_dot(piece) {
            parts.push(piece.clone());
            assert(parts@.map_values(|p: Vec<char>| p@) =~= normal_parts(ps.take(i + 1)));
        } else {
            assert(parts@.map_values(|p: Vec<char>| p@) =~= normal_parts(ps.take(i + 1)));
        }
        assert forall|k: int| 0 <= k < i + 1 implies #[trigger] ps.take(i + 1)[k] != seq!['.', '.'] by {
            if k < i {
                assert(ps.take(i + 1)[k] == ps.take(i as int)[k]);
            }
        }
        i = i + 1;
    }
    assert(ps.take(pieces@.len() as int) =~= ps);
    if parts.len() == 0 {
        return Err(unsafe_path());
    }
    let slash = ['/'];
    let joined = join_chars(&parts, &slash);
    assert(slash@ =~= seq!['/']);
    Ok(joined)
}

/// `normalize_archive_path`: the safe, normalized form of an archive name.
pub fn normalize_archive_path(value: &str) -> (r: Result<String, AppError>)
    ensures
        match r {
            Ok(n) => spec_normalize(value@) == Ok::<Seq<char>, ErrorView>(n@),
            Err(e) => spec_normalize(value@) == Err::<Seq<char>, ErrorView>(e@),
        },
{
    let v = crate::text::to_chars(value);
    match normalize_chars(v.as_slice()) {
        Ok(n) => Ok(string_of(n.as_slice())),
        Err(e) => Err(e),
    }
}

/// The characters before the last `/`.
pub fn dir_part_chars(s: &[char]) -> (r: Vec<char>)
    ensures
        r@ == dir_part(s@),
{
    let mut k: usize = s.len();
    assert(s@.take(s@.len() as int) =~= s@);
    while k > 0 && s[k - 1] != '/'
        invariant
            k <= s@.len(),
            dir_part(s@) == dir_part(s@.take(k as int)),
        decreases k,
    {
        assert(s@.take(k as int).drop_last() =~= s@.take(k - 1));
        k = k - 1;
    }
    assert(s@.take(s@.len() as int) =~= s@);
    let mut r: Vec<char> = Vec::new();
    if k > 0 {
        assert(s@.take(k as int).drop_last() =~= s@.take(k - 1));
        let mut i: usize = 0;
        while i < k - 1
            invariant
                0 < k <= s@.len(),
                i <= k - 1,
                r@ == s@.take(i as int),
            decreases k - 1 - i,
        {
            r.push(s[i]);
            i = i + 1;
            assert(r@ =~= s@.take(i as int));
        }
    } else {
        assert(s@.take(0).len() == 0);
    }
    r
}

/// `resolve_epub_path` of the validator: resolves a manifest reference.
pub fn resolve_chars(opf: &[char], href: &[char]) -> (r: Result<Vec<char>, AppError>)
    ensures
        match r {
            Ok(n) => spec_resolve(opf@, href@) == Ok::<Seq<char>, ErrorView>(n@),
            Err(e) => spec_resolve(opf@, href@) == Err::<Seq<char>, ErrorView>(e@),
        },
{
    let sep = [':', '/', '/'];
    let two = ['/', '/'];
    assert(sep@ =~= "://"@) by {
        reveal_strlit("://");
    }
    assert(two@ =~= "//"@) by {
        reveal_strlit("//");
    }
    if contains_chars(href, &sep) || crate::text::starts_with_chars(href, &two) {
        let mut out: Vec<char> = Vec::new();
        out.extend_from_slice(href);
        assert(out@ =~= href@);
        return Ok(out);
    }
    let mut joined = dir_part_chars(opf);
    if joined.len() == 0 {
        return normalize_chars(href);
    }
    joined.push('/');
    joined.extend_from_slice(href);
    assert(joined@ =~= dir_part(opf@) + seq!['/'] + href@);
    assert(!(contains_seq(href@, "://"@) || starts_with(href@, "//"@)));
    normalize_chars(joined.as_slice())
}


/// The non-empty pieces.
pub open spec fn nonempty_parts(pieces: Seq<Seq<char>>) -> Seq<Seq<char>>
    decreases pieces.len(),
{
    if pieces.len() == 0 {
        pieces
    } else {
        let rest = nonempty_parts(pieces.drop_last());
        if pieces.last().len() == 0 {
            rest
        } else {
            rest.push(pieces.last())
        }
    }
}

/// Walking relative pieces from a stack of directories: empty and `.`
/// pieces stay, `..` leaves the last directory (if any), others enter.
pub open spec fn walk(base: Seq<Seq<char>>, pieces: Seq<Seq<char>>) -> Seq<Seq<char>>
    decreases pieces.len(),
{
    if pieces.len() == 0 {
        base
    } else {
        let s = walk(base, pieces.drop_last());
        let p = pieces.last();
        if p.len() == 0 || p == seq!['.'] {
            s
        } else if p == seq!['.', '.'] {
            if s.len() > 0 {
                s.drop_last()
            } else {
                s
            }
        } else {
            s.push(p)
        }
    }
}

/// `href` resolved against the directory of `opf` by walking its pieces.
pub open spec fn spec_walk_join(opf: Seq<char>, href: Seq<char>) -> Seq<char> {
    join(walk(nonempty_parts(split(dir_part(opf), '/')), split(href, '/')), seq!['/'])
}

/// Resolves `href` against the directory of `opf`, piece by piece.
pub fn walk_join(opf: &[char], href: &[char]) -> (r: Vec<char>)
    ensures
        r@ == spec_walk_join(opf@, href@),
{
    let dir = dir_part_chars(opf);
    let dir_pieces = split_chars(dir.as_slice(), '/');
    let ghost dp = split(dir@, '/');
    let mut stack: Vec<Vec<char>> = Vec::new();
    let mut i: usize = 0;
    assert(dp.take(0) =~= Seq::<Seq<char>>::empty());
    assert(crate::text::views(stack@) =~= Seq::<Seq<char>>::empty());
    while i < dir_pieces.len()
        invariant
            i <= dir_pieces@.len(),
            dir_pieces@.len() == dp.len(),
            dp == split(dir_part(opf@), '/'),
            forall|q: int| 0 <= q < dp.len() ==> (#[trigger] dir_pieces@[q])@ == dp[q],
            crate::text::views(stack@) == nonempty_parts(dp.take(i as int)),
        decreases dir_pieces@.len() - i,
    {
        assert(dp.take(i + 1).drop_last() =~= dp.take(i as int));
        assert(dp.take(i + 1).last() == dp[i as int]);
        if dir_pieces[i].len() > 0 {
            let ghost before = crate::text::views(stack@);
            stack.push(dir_pieces[i].clone());
            assert(crate::text::views(stack@) =~= before.push(dp[i as int]));
        }
        i = i + 1;
    }
    assert(dp.take(dp.len() as int) =~= dp);
    let ghost base = crate::text::views(stack@);
    let pieces = split_chars(href, '/');
    let ghost hp = split(href@, '/');
    let mut j: usize = 0;
    assert(hp.take(0) =~= Seq::<Seq<char>>::empty());
    while j < pieces.len()
        invariant
            j <= pieces@.len(),
            pieces@.len() == hp.len(),
            hp == split(href@, '/'),
            forall|q: int| 0 <= q < hp.len() ==> (#[trigger] pieces@[q])@ == hp[q],
            base == nonempty_parts(split(dir_part(opf@), '/')),
            crate::text::views(stack@) == walk(base, hp.take(j as int)),
        decreases pieces@.len() - j,
    {
        assert(hp.take(j + 1).drop_last() =~= hp.take(j as int));
        assert(hp.take(j + 1).last() == hp[j as int]);
        let p = &pieces[j];
        assert(p@ == hp[j as int]);
        let ghost before = crate::text::views(stack@);
        if p.len() == 0 || is_dot(p) {
        } else if is_dot_dot(p) {
            if stack.len() > 0 {
                stack.pop();
                assert(crate::text::views(stack@) =~= before.drop_last());
            }
        } else {
            stack.push(p.clone());
            assert(crate::text::views(stack@) =~= before.push(p@));
        }
        j = j + 1;
    }
    assert(hp.take(hp.len() as int) =~= hp);
    let slash = ['/'];
    assert(slash@ =~= seq!['/']);
    assert(stack@.map_values(|p: Vec<char>| p@) == crate::text::views(stack@));
    join_chars(&stack, &slash)
}

/// No piece that `split` yields holds the separator.
proof fn lemma_split_pieces_lack_sep(s: Seq<char>, sep: char)
    ensures
        forall|k: int| 0 <= k < split(s, sep).len() ==> !(#[trigger] split(s, sep)[k]).contains(sep),
    decreases s.len(),
{
    if s.len() > 0 {
        let rest = split(s.drop_last(), sep);
        lemma_split_pieces_lack_sep(s.drop_last(), sep);
        crate::text::lemma_split_nonempty(s.drop_last(), sep);
        if s.last() != sep {
            let r = split(s, sep);
            assert forall|k: int| 0 <= k < r.len() implies !(#[trigger] r[k]).contains(sep) by {
                if k < rest.len() - 1 {
                    assert(r[k] == rest[k]);
                } else {
                    assert(r[k] == rest.last().push(s.last()));
                    assert(!rest[rest.len() - 1].contains(sep));
                    if r[k].contains(sep) {
                        let q = choose|q: int| 0 <= q < r[k].len() && r[k][q] == sep;
                        assert(q < rest.last().len());
                        assert(rest.last()[q] == sep);
                    }
                }
            }
        } else {
            let r = split(s, sep);
            assert forall|k: int| 0 <= k < r.len() implies !(#[trigger] r[k]).contains(sep) by {
                if k < rest.len() {
                    assert(r[k] == rest[k]);
                }
            }
        }
    }
}

/// Splitting text with no separator, after a separator, adds it as the last piece.
proof fn lemma_split_after_sep(a: Seq<char>, b: Seq<char>, sep: char)
    requires
        !b.contains(sep),
    ensures
        split(a + seq![sep] + b, sep) == split(a, sep).push(b),
    decreases b.len(),
{
    if b.len() == 0 {
        let t = a + seq![sep] + b;
        assert(t =~= a.push(sep));
        assert(t.drop_last() =~= a);
        assert(t.last() == sep);
        assert(b =~= Seq::<char>::empty());
        assert(split(t, sep) == split(a, sep).push(Seq::<char>::empty()));
    } else {
        let b0 = b.drop_last();
        assert(!b0.contains(sep)) by {
            if b0.contains(sep) {
                let q = choose|q: int| 0 <= q < b0.len() && b0[q] == sep;
                assert(b[q] == sep);
            }
        }
        lemma_split_after_sep(a, b0, sep);
        let t = a + seq![sep] + b;
        assert(t.drop_last() =~= a + seq![sep] + b0);
        assert(t.last() == b.last());
        assert(b.last() != sep) by {
            assert(b[b.len() - 1] == b.last());
        }
        assert(b0.push(b.last()) =~= b);
        assert(split(t, sep) =~= split(a, sep).push(b));
    }
}

/// Text with no separator splits into itself.
proof fn lemma_split_without_sep(b: Seq<char>, sep: char)
    requires
        !b.contains(sep),
    ensures
        split(b, sep) == seq![b],
    decreases b.len(),
{
    if b.len() > 0 {
        let b0 = b.drop_last();
        assert(!b0.contains(sep)) by {
            if b0.contains(sep) {
                let q = choose|q: int| 0 <= q < b0.len() && b0[q] == sep;
                assert(b[q] == sep);
            }
        }
        lemma_split_without_sep(b0, sep);
        assert(b.last() != sep) by {
            assert(b[b.len() - 1] == b.last());
        }
        assert(b0.push(b.last()) =~= b);
        assert(split(b, sep) =~= seq![b]);
    } else {
        assert(b =~= Seq::<char>::empty());
    }
}

/// Joining pieces that hold no separator, then splitting, gives them back.
proof fn lemma_split_join(parts: Seq<Seq<char>>, sep: char)
    requires
        parts.len() >= 1,
        forall|k: int| 0 <= k < parts.len() ==> !(#[trigger] parts[k]).contains(sep),
    ensures
        split(join(parts, seq![sep]), sep) == parts,
    decreases parts.len(),
{
    if parts.len() == 1 {
        lemma_split_without_sep(parts[0], sep);
        assert(seq![parts[0]] =~= parts);
    } else {
        let d = parts.drop_last();
        assert forall|k: int| 0 <= k < d.len() implies !(#[trigger] d[k]).contains(sep) by {
            assert(d[k] == parts[k]);
        }
        lemma_split_join(d, sep);
        assert(!parts.last().contains(sep)) by {
            assert(parts[parts.len() - 1] == parts.last());
        }
        lemma_split_after_sep(join(d, seq![sep]), parts.last(), sep);
        assert(d.push(parts.last()) =~= parts);
    }
}

/// The normal components of some pieces are pieces themselves, and are
/// neither empty nor `.`.
proof fn lemma_normal_parts_members(pieces: Seq<Seq<char>>)
    ensures
        forall|k: int|
            0 <= k < normal_parts(pieces).len() ==> pieces.contains(#[trigger] normal_parts(pieces)[k])
                && normal_parts(pieces)[k].len() > 0 && normal_parts(pieces)[k] != seq!['.'],
    decreases pieces.len(),
{
    if pieces.len() > 0 {
        let d = pieces.drop_last();
        lemma_normal_parts_members(d);
        let rest = normal_parts(d);
        let r = normal_parts(pieces);
        assert forall|k: int| 0 <= k < r.len() implies pieces.contains(#[trigger] r[k]) && r[k].len() > 0 && r[k] != seq!['.'] by {
            if k < rest.len() {
                assert(r[k] == rest[k]);
                let q = choose|q: int| 0 <= q < d.len() && d[q] == rest[k];
                assert(pieces[q] == rest[k]);
            } else {
                assert(r[k] == pieces.last());
                assert(pieces[pieces.len() - 1] == pieces.last());
            }
        }
    }
}

/// An archive name that normalization accepts cannot leave the archive:
/// it does not start with `/`, and none of its `/`-separated pieces is
/// empty, `.` or `..`.
pub proof fn lemma_normalized_names_stay_inside(v: Seq<char>)
    requires
        spec_normalize(v) is Ok,
    ensures
        ({
            let n = spec_normalize(v)->Ok_0;
            &&& n.len() > 0 && n[0] != '/'
            &&& forall|k: int|
                0 <= k < split(n, '/').len() ==> {
                    let p = #[trigger] split(n, '/')[k];
                    p.len() > 0 && p != seq!['.'] && p != seq!['.', '.']
                }
        }),
{
    let pieces = name_pieces(v);
    let parts = normal_parts(pieces);
    let n = join(parts, seq!['/']);
    lemma_normal_parts_members(pieces);
    lemma_split_pieces_lack_sep(replace_char(v, '\\', '/'), '/');
    assert forall|k: int| 0 <= k < parts.len() implies !(#[trigger] parts[k]).contains('/') by {
        let q = choose|q: int| 0 <= q < pieces.len() && pieces[q] == parts[k];
        assert(!pieces[q].contains('/'));
    }
    lemma_split_join(parts, '/');
    assert forall|k: int| 0 <= k < split(n, '/').len() implies {
        let p = #[trigger] split(n, '/')[k];
        p.len() > 0 && p != seq!['.'] && p != seq!['.', '.']
    } by {
        assert(split(n, '/')[k] == parts[k]);
        if parts[k] == seq!['.', '.'] {
            assert(pieces.contains(seq!['.', '.']));
        }
    }
    lemma_join_starts_with_first(parts, seq!['/']);
    assert(parts[0].len() > 0);
    assert(!parts[0].contains('/'));
    assert(n[0] == parts[0][0]);
    if parts[0][0] == '/' {
        assert(parts[0].contains('/'));
    }
}

/// A join of pieces begins with the first piece.
proof fn lemma_join_starts_with_first(parts: Seq<Seq<char>>, sep: Seq<char>)
    requires
        parts.len() >= 1,
    ensures
        join(parts, sep).len() >= parts[0].len(),
        forall|i: int| 0 <= i < parts[0].len() ==> join(parts, sep)[i] == parts[0][i],
    decreases parts.len(),
{
    if parts.len() > 1 {
        let d = parts.drop_last();
        lemma_join_starts_with_first(d, sep);
        assert(d[0] == parts[0]);
    }
}

} // verus!
