//! The files of a folder: in which order they go into an archive, and how they come out of it.

use vstd::prelude::*;

use crate::bytes::copy_of;
use crate::container::{
    entries, file_start, lists, parse_archive, unpack, Entry, FileEntry, UnpackError,
};
use crate::dict::strings;
use crate::segments::joined;
use crate::sort::{
    bytes_leq, lemma_bytes_leq_reflexive, lemma_holds_all, lemma_ordered, lemma_rank_order_total,
    order_ranked, rank_leq, rank_order, ranked_entries, sort_ranked, Ranked,
};

verus! {

/// A file of a folder: its path below the folder and what it holds.
#[derive(Debug, PartialEq, Eq)]
pub struct FolderFile {
    pub path: Vec<u8>,
    pub contents: Vec<u8>,
}

/// What a `FolderFile` says.
pub struct NamedFile {
    pub path: Seq<u8>,
    pub contents: Seq<u8>,
}

impl View for FolderFile {
    type V = NamedFile;

    open spec fn view(&self) -> NamedFile {
        NamedFile { path: self.path@, contents: self.contents@ }
    }
}

/// What the files say.
pub open spec fn file_views(files: Seq<FolderFile>) -> Seq<NamedFile> {
    Seq::new(files.len(), |i: int| files[i]@)
}

/// The paths of the files.
pub open spec fn paths_of(files: Seq<NamedFile>) -> Seq<Seq<u8>> {
    Seq::new(files.len(), |i: int| files[i].path)
}

/// The contents of the files.
pub open spec fn contents_of(files: Seq<NamedFile>) -> Seq<Seq<u8>> {
    Seq::new(files.len(), |i: int| files[i].contents)
}

/// The directory of the files.
pub open spec fn entries_of(files: Seq<NamedFile>) -> Seq<Entry> {
    Seq::new(
        files.len(),
        |i: int| Entry { path: files[i].path, size: files[i].contents.len() as u64 },
    )
}

/// Paths, to be ranked by nothing else.
pub open spec fn path_ranks(paths: Seq<Seq<u8>>) -> Seq<Ranked> {
    Seq::new(paths.len(), |i: int| Ranked { first: 0, second: 0, bytes: paths[i] })
}

/// The order of the files in an archive: by their paths.
pub open spec fn file_order(paths: Seq<Seq<u8>>) -> Seq<usize> {
    order_ranked(path_ranks(paths))
}

/// The files in the order of an archive.
pub open spec fn sorted_files(files: Seq<NamedFile>) -> Seq<NamedFile> {
    Seq::new(files.len(), |i: int| files[file_order(paths_of(files))[i] as int])
}

/// `order` lists each index below `n` once.
pub open spec fn is_permutation(order: Seq<usize>, n: nat) -> bool {
    &&& order.len() == n
    &&& forall|i: int| 0 <= i < n ==> (#[trigger] order[i]) < n
    &&& forall|i: int, j: int| 0 <= i < j < n ==> (#[trigger] order[i]) != (#[trigger] order[j])
}

/// The order of the files lists each once, and their paths never decrease along it.
pub proof fn lemma_file_order(paths: Seq<Seq<u8>>)
    requires
        paths.len() <= usize::MAX,
    ensures
        is_permutation(file_order(paths), paths.len()),
        forall|i: int, j: int|
            0 <= i < j < paths.len() ==> bytes_leq(
                paths[#[trigger] file_order(paths)[i] as int],
                paths[#[trigger] file_order(paths)[j] as int],
            ),
{
    let items = path_ranks(paths);
    let order = file_order(paths);
    lemma_rank_order_total(items);
    lemma_ordered(items.len(), rank_order(items));
    assert forall|i: int, j: int| 0 <= i < j < paths.len() implies bytes_leq(
        paths[#[trigger] order[i] as int],
        paths[#[trigger] order[j] as int],
    ) by {
        assert(rank_leq(items, order[i], order[j]));
        lemma_bytes_leq_reflexive(paths[order[i] as int]);
    }
}

/// The order in which the files with these paths go into an archive: by their paths, byte by byte.
pub fn order_files(paths: &[Vec<u8>]) -> (order: Vec<usize>)
    ensures
        order@ == file_order(strings(paths@)),
        is_permutation(order@, paths@.len()),
        forall|i: int, j: int|
            0 <= i < j < order@.len() ==> bytes_leq(
                paths@[#[trigger] order@[i] as int]@,
                paths@[#[trigger] order@[j] as int]@,
            ),
{
    let mut first: Vec<u128> = Vec::with_capacity(paths.len());
    let mut second: Vec<usize> = Vec::with_capacity(paths.len());
    let mut k: usize = 0;
    while k < paths.len()
        invariant
            k <= paths@.len(),
            first@.len() == k,
            second@.len() == k,
            forall|i: int| 0 <= i < k ==> first@[i] == 0 && second@[i] == 0,
        decreases paths@.len() - k,
    {
        first.push(0);
        second.push(0);
        k += 1;
    }
    let order = sort_ranked(&first, &second, paths);
    proof {
        let p = strings(paths@);
        assert(ranked_entries(first@, second@, paths@) =~= path_ranks(p));
        lemma_file_order(p);
        assert forall|i: int, j: int| 0 <= i < j < order@.len() implies bytes_leq(
            paths@[#[trigger] order@[i] as int]@,
            paths@[#[trigger] order@[j] as int]@,
        ) by {
            assert(p[order@[i] as int] == paths@[order@[i] as int]@);
            assert(p[order@[j] as int] == paths@[order@[j] as int]@);
        }
    }
    order
}

/// The directory of files with these paths and sizes.
pub open spec fn listed(paths: Seq<Seq<u8>>, sizes: Seq<u64>) -> Seq<Entry> {
    Seq::new(
        paths.len(),
        |i: int|
            Entry {
                path: paths[file_order(paths)[i] as int],
                size: sizes[file_order(paths)[i] as int],
            },
    )
}

/// The order in which files go into an archive, and their directory.
pub fn list_files(paths: &[Vec<u8>], sizes: &[u64]) -> (r: (Vec<usize>, Vec<FileEntry>))
    requires
        paths@.len() == sizes@.len(),
    ensures
        r.0@ == file_order(strings(paths@)),
        is_permutation(r.0@, paths@.len()),
        entries(r.1@) == listed(strings(paths@), sizes@),
{
    let order = order_files(paths);
    let mut files: Vec<FileEntry> = Vec::with_capacity(paths.len());
    let ghost p = strings(paths@);
    let mut k: usize = 0;
    while k < order.len()
        invariant
            k <= order@.len(),
            p == strings(paths@),
            order@ == file_order(p),
            is_permutation(order@, paths@.len()),
            paths@.len() == sizes@.len(),
            entries(files@) =~= listed(p, sizes@).take(k as int),
        decreases order@.len() - k,
    {
        let i = order[k];
        let file = FileEntry { relative_path: copy_of(&paths[i]), file_size: sizes[i] };
        let ghost before = files@;
        files.push(file);
        assert(entries(files@) =~= entries(before).push(file@));
        assert(p[i as int] == paths@[i as int]@);
        k += 1;
    }
    assert(listed(p, sizes@).take(k as int) =~= listed(p, sizes@));
    (order, files)
}

/// The lengths together.
pub open spec fn total(sizes: Seq<nat>) -> nat
    decreases sizes.len(),
{
    if sizes.len() == 0 {
        0
    } else {
        total(sizes.drop_last()) + sizes.last()
    }
}

/// The lengths of the contents.
pub open spec fn lengths(files: Seq<NamedFile>) -> Seq<nat> {
    Seq::new(files.len(), |i: int| files[i].contents.len())
}

proof fn lemma_total_remove(s: Seq<nat>, p: int)
    requires
        0 <= p < s.len(),
    ensures
        total(s) == total(s.remove(p)) + s[p],
    decreases s.len(),
{
    if p == s.len() - 1 {
        assert(s.remove(p) =~= s.drop_last());
    } else {
        lemma_total_remove(s.drop_last(), p);
        assert(s.remove(p).drop_last() =~= s.drop_last().remove(p));
        assert(s.remove(p).last() == s.last());
    }
}

proof fn lemma_total_permuted(s: Seq<nat>, order: Seq<usize>)
    requires
        is_permutation(order, s.len()),
    ensures
        total(Seq::new(s.len(), |i: int| s[order[i] as int])) == total(s),
    decreases s.len(),
{
    let n = s.len();
    let permuted = Seq::new(n, |i: int| s[order[i] as int]);
    if n == 0 {
        assert(permuted =~= s);
    } else {
        lemma_holds_all(order, n, n - 1);
        let p = choose|m: int| 0 <= m < n && #[trigger] order[m] == n - 1;
        let rest = order.remove(p);
        let front = s.drop_last();
        assert(is_permutation(rest, front.len())) by {
            assert forall|i: int| 0 <= i < n - 1 implies (#[trigger] rest[i]) < n - 1 by {
                let k = if i < p {
                    i
                } else {
                    i + 1
                };
                assert(rest[i] == order[k]);
                assert(order[k] != order[p]);
            }
            assert forall|i: int, j: int| 0 <= i < j < n - 1 implies (#[trigger] rest[i]) != (
            #[trigger] rest[j]) by {
                let k = if i < p {
                    i
                } else {
                    i + 1
                };
                let l = if j < p {
                    j
                } else {
                    j + 1
                };
                assert(rest[i] == order[k] && rest[j] == order[l]);
            }
        }
        lemma_total_permuted(front, rest);
        lemma_total_remove(permuted, p);
        assert(permuted.remove(p) =~= Seq::new(front.len(), |i: int| front[rest[i] as int]));
    }
}

proof fn lemma_joined_len(files: Seq<NamedFile>)
    ensures
        joined(contents_of(files)).len() == total(lengths(files)),
    decreases files.len(),
{
    if files.len() > 0 {
        let front = files.drop_last();
        lemma_joined_len(front);
        assert(contents_of(files).drop_last() =~= contents_of(front));
        assert(lengths(files).drop_last() =~= lengths(front));
    }
}

/// The files in order hold as many bytes as the files.
pub proof fn lemma_sorted_size(files: Seq<NamedFile>)
    requires
        files.len() <= usize::MAX,
    ensures
        joined(contents_of(sorted_files(files))).len() == total(lengths(files)),
{
    let sorted = sorted_files(files);
    let order = file_order(paths_of(files));
    lemma_file_order(paths_of(files));
    lemma_joined_len(sorted);
    lemma_total_permuted(lengths(files), order);
    assert(lengths(sorted) =~= Seq::new(files.len(), |i: int| lengths(files)[order[i] as int]));
}

/// Sorting neither loses nor adds a file, and puts them in the order of their paths.
pub proof fn lemma_sorted_files(files: Seq<NamedFile>)
    requires
        files.len() <= usize::MAX,
    ensures
        sorted_files(files).len() == files.len(),
        forall|j: int| 0 <= j < files.len() ==> sorted_files(files).contains(#[trigger] files[j]),
        forall|i: int|
            0 <= i < files.len() ==> files.contains(#[trigger] sorted_files(files)[i]),
        forall|i: int, j: int|
            0 <= i < j < files.len() ==> bytes_leq(
                (#[trigger] sorted_files(files)[i]).path,
                (#[trigger] sorted_files(files)[j]).path,
            ),
{
    let sorted = sorted_files(files);
    let paths = paths_of(files);
    let order = file_order(paths);
    lemma_file_order(paths);
    assert forall|j: int| 0 <= j < files.len() implies sorted.contains(#[trigger] files[j]) by {
        lemma_holds_all(order, files.len(), j);
        let m = choose|m: int| 0 <= m < files.len() && #[trigger] order[m] == j;
        assert(sorted[m] == files[j]);
    }
    assert forall|i: int| 0 <= i < files.len() implies files.contains(#[trigger] sorted[i]) by {
        assert(order[i] < files.len());
        assert(files[order[i] as int] == sorted[i]);
    }
    assert forall|i: int, j: int| 0 <= i < j < files.len() implies bytes_leq(
        (#[trigger] sorted[i]).path,
        (#[trigger] sorted[j]).path,
    ) by {
        assert(order[i] < files.len() && order[j] < files.len());
        assert(bytes_leq(paths[order[i] as int], paths[order[j] as int]));
    }
}

/// The files of a directory, cut out of the contents of an archive.
pub open spec fn files_in(files: Seq<Entry>, data: Seq<u8>) -> Seq<NamedFile> {
    Seq::new(
        files.len(),
        |i: int|
            NamedFile {
                path: files[i].path,
                contents: data.subrange(
                    file_start(files, i as nat) as int,
                    file_start(files, (i + 1) as nat) as int,
                ),
            },
    )
}

/// The files that an archive of a folder gives back.
pub open spec fn restored_files(archive: Seq<u8>) -> Result<Seq<NamedFile>, UnpackError> {
    match parse_archive(archive) {
        Err(e) => Err(e),
        Ok((info, _)) => match unpack(archive) {
            Err(e) => Err(e),
            Ok(data) => Ok(files_in(info.files, data)),
        },
    }
}

proof fn lemma_file_start(files: Seq<NamedFile>, i: nat)
    requires
        i <= files.len(),
        forall|k: int| 0 <= k < files.len() ==> (#[trigger] files[k]).contents.len() <= u64::MAX,
    ensures
        file_start(entries_of(files), i) == joined(contents_of(files).take(i as int)).len(),
    decreases i,
{
    let contents = contents_of(files);
    if i > 0 {
        let j = (i - 1) as nat;
        lemma_file_start(files, j);
        assert(contents.take(i as int).drop_last() =~= contents.take(j as int));
        assert(contents.take(i as int).last() == files[j as int].contents);
        assert(entries_of(files)[i - 1].size == files[j as int].contents.len());
    }
}

proof fn lemma_joined_prefix(parts: Seq<Seq<u8>>, i: nat)
    requires
        i <= parts.len(),
    ensures
        joined(parts.take(i as int)).len() <= joined(parts).len(),
        joined(parts).take(joined(parts.take(i as int)).len() as int) == joined(
            parts.take(i as int),
        ),
    decreases parts.len(),
{
    if i == parts.len() {
        assert(parts.take(i as int) =~= parts);
        assert(joined(parts).take(joined(parts).len() as int) =~= joined(parts));
    } else {
        let front = parts.drop_last();
        lemma_joined_prefix(front, i);
        assert(front.take(i as int) =~= parts.take(i as int));
        let n = joined(parts.take(i as int)).len() as int;
        assert(joined(parts).take(n) =~= joined(front).take(n));
    }
}

/// Contents that are cut where the directory says are the files' own.
pub proof fn lemma_files_in(files: Seq<NamedFile>)
    requires
        forall|k: int| 0 <= k < files.len() ==> (#[trigger] files[k]).contents.len() <= u64::MAX,
    ensures
        files_in(entries_of(files), joined(contents_of(files))) == files,
        file_start(entries_of(files), files.len()) == joined(contents_of(files)).len(),
{
    let list = entries_of(files);
    let contents = contents_of(files);
    let data = joined(contents);
    let got = files_in(list, data);
    assert forall|i: int| 0 <= i < files.len() implies #[trigger] got[i] == files[i] by {
        lemma_file_start(files, i as nat);
        lemma_file_start(files, (i + 1) as nat);
        lemma_joined_prefix(contents, (i + 1) as nat);
        let a = joined(contents.take(i));
        let b = joined(contents.take(i + 1));
        assert(contents.take(i + 1).drop_last() =~= contents.take(i));
        assert(b == a + files[i].contents);
        assert(data.take(b.len() as int) == b);
        assert forall|k: int| 0 <= k < files[i].contents.len() implies data[a.len() + k]
            == files[i].contents[k] by {
            assert(data.take(b.len() as int)[a.len() + k] == b[a.len() + k]);
        }
        assert(data.subrange(a.len() as int, b.len() as int) =~= files[i].contents);
    }
    assert(got =~= files);
    lemma_file_start(files, files.len());
    assert(contents.take(files.len() as int) =~= contents);
}

/// An archive that lists files and holds their contents in that order gives each of them back
/// under its path.
pub proof fn lemma_files_restored(files: Seq<NamedFile>, archive: Seq<u8>)
    requires
        lists(archive, entries_of(files)),
        unpack(archive) == Ok::<Seq<u8>, UnpackError>(joined(contents_of(files))),
        joined(contents_of(files)).len() <= u64::MAX,
    ensures
        restored_files(archive) == Ok::<Seq<NamedFile>, UnpackError>(files),
        file_start(entries_of(files), files.len()) == joined(contents_of(files)).len(),
{
    assert forall|k: int| 0 <= k < files.len() implies (#[trigger] files[k]).contents.len()
        <= u64::MAX by {
        let contents = contents_of(files);
        lemma_joined_prefix(contents, (k + 1) as nat);
        assert(contents.take(k + 1).last() == files[k].contents);
    }
    lemma_files_in(files);
}

} // verus!
