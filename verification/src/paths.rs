//! Names of files: which components of a stored path are used, and what a restored file is called.

use vstd::prelude::*;

use crate::bytes::copy_of;
use crate::dict::strings;

verus! {

/// A slash in either direction.
pub open spec fn is_separator(b: u8) -> bool {
    b == 0x2f || b == 0x5c
}

/// A component that leads somewhere: neither empty nor one or two dots.
pub open spec fn is_plain(c: Seq<u8>) -> bool {
    c.len() > 0 && c != seq![0x2eu8] && c != seq![0x2eu8, 0x2eu8]
}

pub open spec fn keep_plain(c: Seq<u8>) -> Seq<Seq<u8>> {
    if is_plain(c) {
        seq![c]
    } else {
        seq![]
    }
}

/// The plain components of `path` from `start` on, if the first `i` bytes behind it hold no
/// separator.
pub open spec fn components_from(path: Seq<u8>, start: int, i: int) -> Seq<Seq<u8>>
    decreases path.len() - i,
{
    if i >= path.len() {
        keep_plain(path.subrange(start, path.len() as int))
    } else if is_separator(path[i]) {
        keep_plain(path.subrange(start, i)) + components_from(path, i + 1, i + 1)
    } else {
        components_from(path, start, i + 1)
    }
}

/// The components of a stored path that are used: those between slashes of either direction,
/// without empty ones and without dots.
pub open spec fn safe_path(path: Seq<u8>) -> Seq<Seq<u8>> {
    components_from(path, 0, 0)
}

fn is_plain_component(c: &[u8]) -> (r: bool)
    ensures
        r == is_plain(c@),
{
    if c.len() == 0 {
        return false;
    }
    let dot = c.len() == 1 && c[0] == 0x2e;
    let dots = c.len() == 2 && c[0] == 0x2e && c[1] == 0x2e;
    proof {
        if dot {
            assert(c@ =~= seq![0x2eu8]);
        }
        if dots {
            assert(c@ =~= seq![0x2eu8, 0x2eu8]);
        }
    }
    !dot && !dots
}

/// The components of a stored path that are used.
pub fn safe_components(path: &[u8]) -> (out: Vec<Vec<u8>>)
    ensures
        strings(out@) == safe_path(path@),
{
    let mut out: Vec<Vec<u8>> = Vec::new();
    let mut start: usize = 0;
    let mut i: usize = 0;
    assert(strings(out@) + safe_path(path@) =~= safe_path(path@));
    while i < path.len()
        invariant
            start <= i <= path@.len(),
            strings(out@) + components_from(path@, start as int, i as int) == safe_path(path@),
        decreases path@.len() - i,
    {
        if path[i] == 0x2f || path[i] == 0x5c {
            let part = &path[start..i];
            let ghost before = strings(out@);
            if is_plain_component(part) {
                let c = copy_of(part);
                out.push(c);
            }
            proof {
                assert(strings(out@) =~= before + keep_plain(part@));
                let rest = components_from(path@, i + 1, i + 1);
                assert(strings(out@) + rest =~= before + (keep_plain(part@) + rest));
            }
            start = i + 1;
        }
        i += 1;
    }
    let part = &path[start..path.len()];
    let ghost before = strings(out@);
    if is_plain_component(part) {
        let c = copy_of(part);
        out.push(c);
    }
    assert(strings(out@) =~= before + keep_plain(part@));
    out
}

/// A plain component without separators.
pub open spec fn is_safe(c: Seq<u8>) -> bool {
    is_plain(c) && forall|k: int| 0 <= k < c.len() ==> !is_separator(#[trigger] c[k])
}

proof fn lemma_components(path: Seq<u8>, start: int, i: int)
    requires
        0 <= start <= i <= path.len(),
        forall|k: int| start <= k < i ==> !is_separator(#[trigger] path[k]),
    ensures
        forall|c: int|
            0 <= c < components_from(path, start, i).len() ==> is_safe(
                #[trigger] components_from(path, start, i)[c],
            ),
    decreases path.len() - i,
{
    let all = components_from(path, start, i);
    if i >= path.len() {
        let last = path.subrange(start, path.len() as int);
        assert forall|k: int| 0 <= k < last.len() implies !is_separator(#[trigger] last[k]) by {
            assert(!is_separator(path[start + k]));
        }
        assert forall|c: int| 0 <= c < all.len() implies is_safe(#[trigger] all[c]) by {
            assert(all[c] == last);
        }
    } else if is_separator(path[i]) {
        let here = path.subrange(start, i);
        let rest = components_from(path, i + 1, i + 1);
        lemma_components(path, i + 1, i + 1);
        assert forall|k: int| 0 <= k < here.len() implies !is_separator(#[trigger] here[k]) by {
            assert(!is_separator(path[start + k]));
        }
        let n = keep_plain(here).len();
        assert forall|c: int| 0 <= c < all.len() implies is_safe(#[trigger] all[c]) by {
            if c < n {
                assert(all[c] == here);
            } else {
                assert(all[c] == rest[c - n]);
            }
        }
    } else {
        lemma_components(path, start, i + 1);
        assert(all == components_from(path, start, i + 1));
    }
}

/// No stored path leads out of the folder it is restored to: each component that is used has a
/// name, is not made of dots, and holds no separator.
pub proof fn lemma_safe_path(path: Seq<u8>)
    ensures
        forall|c: int|
            0 <= c < safe_path(path).len() ==> is_safe(#[trigger] safe_path(path)[c]),
{
    lemma_components(path, 0, 0);
}

/// The components with a slash between them.
pub open spec fn join_path(components: Seq<Seq<u8>>) -> Seq<u8>
    decreases components.len(),
{
    if components.len() == 0 {
        seq![]
    } else if components.len() == 1 {
        components[0]
    } else {
        components[0] + seq![0x2fu8] + join_path(components.skip(1))
    }
}

proof fn lemma_components_joined(path: Seq<u8>, start: int, i: int, components: Seq<Seq<u8>>)
    requires
        components.len() > 0,
        forall|c: int| 0 <= c < components.len() ==> is_safe(#[trigger] components[c]),
        0 <= start <= i <= start + components[0].len(),
        start <= path.len(),
        path.skip(start) == join_path(components),
    ensures
        components_from(path, start, i) == components,
    decreases path.len() - i,
{
    let first = components[0];
    let tail = path.skip(start);
    assert(is_safe(first));
    if components.len() == 1 {
        assert(path.subrange(start, path.len() as int) =~= tail);
        if i < path.len() {
            assert(path[i] == tail[i - start]);
            assert(!is_separator(first[i - start]));
            lemma_components_joined(path, start, i + 1, components);
        } else {
            assert(keep_plain(first) =~= components);
        }
    } else {
        let rest = components.skip(1);
        let end = start + first.len();
        assert(tail == first + seq![0x2fu8] + join_path(rest));
        assert(tail.len() > first.len());
        assert(path[i] == tail[i - start]);
        if i < end {
            assert(tail[i - start] == first[i - start]);
            assert(!is_separator(first[i - start]));
            lemma_components_joined(path, start, i + 1, components);
        } else {
            assert(tail[i - start] == 0x2f);
            assert(path.subrange(start, i) =~= first);
            assert forall|c: int| 0 <= c < rest.len() implies is_safe(#[trigger] rest[c]) by {
                assert(rest[c] == components[c + 1]);
            }
            assert(path.skip(i + 1) =~= tail.skip(first.len() as int + 1));
            assert(tail.skip(first.len() as int + 1) =~= join_path(rest));
            lemma_components_joined(path, i + 1, i + 1, rest);
            assert(keep_plain(first) + rest =~= components);
        }
    }
}

/// The path of a file below a folder, stored with slashes between its components, is restored to
/// the same components.
pub proof fn lemma_path_restored(components: Seq<Seq<u8>>)
    requires
        forall|c: int| 0 <= c < components.len() ==> is_safe(#[trigger] components[c]),
    ensures
        safe_path(join_path(components)) == components,
{
    let path = join_path(components);
    if components.len() == 0 {
        assert(components_from(path, 0, 0) =~= components);
    } else {
        assert(path.skip(0) =~= path);
        lemma_components_joined(path, 0, 0, components);
    }
}

/// The ending of archives.
pub open spec fn archive_suffix() -> Seq<u8> {
    seq![0x2eu8, 0x64u8, 0x75u8, 0x63u8, 0x6bu8, 0x6fu8, 0x6du8, 0x70u8]
}

/// An ASCII letter in lower case.
pub open spec fn lower(b: u8) -> u8 {
    if 0x41 <= b <= 0x5a {
        (b + 0x20) as u8
    } else {
        b
    }
}

/// The ending of archives with a Kelvin sign, which is an upper-case `k`: outside of ASCII, no other
/// character has a letter of the ending for its lower case.
pub open spec fn kelvin_suffix() -> Seq<u8> {
    seq![0x2eu8, 0x64u8, 0x75u8, 0x63u8, 0xe2u8, 0x84u8, 0xaau8, 0x6fu8, 0x6du8, 0x70u8]
}

/// Whether a name has the ending, its ASCII letters in either case.
pub open spec fn ends_like(name: Seq<u8>, ending: Seq<u8>) -> bool {
    name.len() >= ending.len() && forall|i: int|
        0 <= i < ending.len() ==> lower(#[trigger] name[name.len() - ending.len() + i])
            == ending[i]
}

/// Whether a name in lower case ends like an archive.
pub open spec fn is_archive_name(name: Seq<u8>) -> bool {
    ends_like(name, archive_suffix()) || ends_like(name, kelvin_suffix())
}

/// The name of the file that an archive is restored to: without its last eight bytes where it ends
/// like an archive, or else with one more ending.
pub open spec fn restored_path(name: Seq<u8>) -> Seq<u8> {
    if is_archive_name(name) {
        name.take(name.len() - 8)
    } else {
        name + seq![
            0x2eu8,
            0x64u8,
            0x65u8,
            0x63u8,
            0x6fu8,
            0x6du8,
            0x70u8,
            0x72u8,
            0x65u8,
            0x73u8,
            0x73u8,
            0x65u8,
            0x64u8,
        ]
    }
}

fn has_ending(name: &[u8], ending: &[u8]) -> (r: bool)
    ensures
        r == ends_like(name@, ending@),
{
    let n = name.len();
    let m = ending.len();
    if n < m {
        return false;
    }
    let mut i: usize = 0;
    while i < m
        invariant
            n == name@.len(),
            m == ending@.len(),
            m <= n,
            i <= m,
            forall|k: int| 0 <= k < i ==> lower(#[trigger] name@[n - m + k]) == ending@[k],
        decreases m - i,
    {
        let b = name[n - m + i];
        let low = if 0x41 <= b && b <= 0x5a {
            b + 0x20
        } else {
            b
        };
        if low != ending[i] {
            assert(lower(name@[n - m + i]) != ending@[i as int]);
            return false;
        }
        i += 1;
    }
    true
}

/// The name of the file that the archive `name` is restored to: without the ending `.duckomp`, or
/// else with `.decompressed` behind it.
pub fn restored_name(name: &[u8]) -> (out: Vec<u8>)
    ensures
        out@ == restored_path(name@),
{
    let suffix: [u8; 8] = [0x2e, 0x64, 0x75, 0x63, 0x6b, 0x6f, 0x6d, 0x70];
    let kelvin: [u8; 10] = [0x2e, 0x64, 0x75, 0x63, 0xe2, 0x84, 0xaa, 0x6f, 0x6d, 0x70];
    let n = name.len();
    assert(suffix@ =~= archive_suffix());
    assert(kelvin@ =~= kelvin_suffix());
    let archive = has_ending(name, &suffix) || has_ending(name, &kelvin);
    if archive {
        let front = &name[0..n - 8];
        assert(front@ =~= name@.take(n - 8));
        copy_of(front)
    } else {
        let mut out = copy_of(name);
        let ending: [u8; 13] = [
            0x2e,
            0x64,
            0x65,
            0x63,
            0x6f,
            0x6d,
            0x70,
            0x72,
            0x65,
            0x73,
            0x73,
            0x65,
            0x64,
        ];
        let mut k: usize = 0;
        while k < 13
            invariant
                k <= 13,
                out@ =~= name@ + ending@.take(k as int),
            decreases 13 - k,
        {
            out.push(ending[k]);
            k += 1;
        }
        assert(out@ =~= restored_path(name@));
        out
    }
}

/// A name with the archive ending is restored to the name without it.
pub proof fn lemma_restored_path(name: Seq<u8>)
    ensures
        restored_path(name + archive_suffix()) == name,
{
    let full = name + archive_suffix();
    assert(full.take(full.len() - 8) =~= name);
}

proof fn lemma_components_split(path: Seq<u8>, rest: Seq<u8>, start: int, i: int)
    requires
        0 <= start <= i <= path.len(),
    ensures
        components_from(path + seq![0x2fu8] + rest, start, i) == components_from(path, start, i)
            + safe_path(rest),
    decreases path.len() - i,
{
    let all = path + seq![0x2fu8] + rest;
    let n = path.len() as int;
    if i >= n {
        assert(all.subrange(start, n) =~= path.subrange(start, n));
        assert(all[n] == 0x2f);
        assert(rest =~= all.skip(n + 1));
        lemma_components_shift(rest, all, n + 1, 0, 0);
    } else {
        assert(all[i] == path[i]);
        if is_separator(path[i]) {
            assert(all.subrange(start, i) =~= path.subrange(start, i));
            lemma_components_split(path, rest, i + 1, i + 1);
            assert(keep_plain(path.subrange(start, i)) + (components_from(path, i + 1, i + 1)
                + safe_path(rest)) =~= keep_plain(path.subrange(start, i)) + components_from(
                path,
                i + 1,
                i + 1,
            ) + safe_path(rest));
        } else {
            lemma_components_split(path, rest, start, i + 1);
        }
    }
}

proof fn lemma_components_shift(rest: Seq<u8>, all: Seq<u8>, by: int, start: int, i: int)
    requires
        0 <= by <= all.len(),
        rest == all.skip(by),
        0 <= start <= i <= rest.len(),
    ensures
        components_from(all, by + start, by + i) == components_from(rest, start, i),
    decreases rest.len() - i,
{
    if i >= rest.len() {
        assert(all.subrange(by + start, all.len() as int) =~= rest.subrange(
            start,
            rest.len() as int,
        ));
    } else {
        assert(all[by + i] == rest[i]);
        if is_separator(rest[i]) {
            assert(all.subrange(by + start, by + i) =~= rest.subrange(start, i));
            lemma_components_shift(rest, all, by, i + 1, i + 1);
        } else {
            lemma_components_shift(rest, all, by, start, i + 1);
        }
    }
}

/// A slash divides a path: the components of the whole are those in front of it and those behind it.
pub proof fn lemma_slash_divides(a: Seq<u8>, b: Seq<u8>)
    ensures
        safe_path(a + seq![0x2fu8] + b) == safe_path(a) + safe_path(b),
{
    lemma_components_split(a, b, 0, 0);
}

proof fn lemma_one_component(c: Seq<u8>, i: int)
    requires
        forall|k: int| 0 <= k < c.len() ==> #[trigger] c[k] != 0x2f && c[k] != 0x5c,
        0 <= i <= c.len(),
    ensures
        components_from(c, 0, i) == keep_plain(c),
    decreases c.len() - i,
{
    if i >= c.len() {
        assert(c.subrange(0, c.len() as int) =~= c);
    } else {
        assert(c[i] != 0x2f && c[i] != 0x5c);
        lemma_one_component(c, i + 1);
    }
}

/// A path without slashes of either direction is one component, unless it is empty, one dot or two.
pub proof fn lemma_component(c: Seq<u8>)
    requires
        forall|k: int| 0 <= k < c.len() ==> #[trigger] c[k] != 0x2f && c[k] != 0x5c,
    ensures
        c.len() > 0 && !(c.len() == 1 && c[0] == 0x2e) && !(c.len() == 2 && c[0] == 0x2e && c[1]
            == 0x2e) ==> safe_path(c) == seq![c],
        c.len() == 0 || (c.len() == 1 && c[0] == 0x2e) || (c.len() == 2 && c[0] == 0x2e && c[1]
            == 0x2e) ==> safe_path(c) == Seq::<Seq<u8>>::empty(),
{
    lemma_one_component(c, 0);
    if c.len() == 1 && c[0] == 0x2e {
        assert(c =~= seq![0x2eu8]);
    }
    if c.len() == 2 && c[0] == 0x2e && c[1] == 0x2e {
        assert(c =~= seq![0x2eu8, 0x2eu8]);
    }
}

} // verus!
