//! The archive format: what stands in front of the coded chunks, how it is read back, and what
//! an archive holds.

use std::collections::HashMap;
use vstd::arithmetic::power::pow;
use vstd::prelude::*;

use crate::bytes::{
    copy_of, le_bytes, le_value, lemma_le_bytes_len, lemma_le_digits, lemma_le_roundtrip,
    lemma_le_value_bound, lemma_pow256_values, push_le, read_le,
};
use crate::chunk::{chunk_decode, decode_adaptive_chunk, ChunkError, Coded};
use crate::dict::{decode_dict_stage, dict_decode, table, DictError};
use crate::lz77::lz77_decompress_stream;
use crate::lz77_model::{decode_stream, LzError};

verus! {

broadcast use vstd::std_specs::hash::group_hash_axioms;

pub const FORMAT_FLAG_FOLDER: u8 = 0x01;
pub const FORMAT_FLAG_LZ77: u8 = 0x02;

/// A file of a folder: its path, components separated by slashes, and its size.
#[derive(Debug, PartialEq, Eq)]
pub struct FileEntry {
    pub relative_path: Vec<u8>,
    pub file_size: u64,
}

/// What a `FileEntry` says.
pub struct Entry {
    pub path: Seq<u8>,
    pub size: u64,
}

impl View for FileEntry {
    type V = Entry;

    open spec fn view(&self) -> Entry {
        Entry { path: self.relative_path@, size: self.file_size }
    }
}

pub open spec fn entries(files: Seq<FileEntry>) -> Seq<Entry> {
    Seq::new(files.len(), |i: int| files[i]@)
}

/// A dictionary stage: escape byte and dictionary.
pub type Stage = (u8, HashMap<u8, Vec<u8>>);

pub open spec fn stage_view(s: Stage) -> (u8, Map<u8, Seq<u8>>) {
    (s.0, table(s.1@))
}

pub open spec fn stage_views(stages: Seq<Stage>) -> Seq<(u8, Map<u8, Seq<u8>>)> {
    Seq::new(stages.len(), |i: int| stage_view(stages[i]))
}

/// Why an archive cannot be written.
#[derive(Clone, Copy, Debug, PartialEq, Eq, Structural)]
pub enum PackError {
    TooManyFiles,
    PathTooLong,
    TooManyStages,
    TooManyCodes,
}

/// How many codes below `n` a dictionary has.
pub open spec fn code_count(t: Map<u8, Seq<u8>>, n: nat) -> nat
    decreases n,
{
    if n == 0 {
        0
    } else {
        code_count(t, (n - 1) as nat) + if t.contains_key((n - 1) as u8) {
            1nat
        } else {
            0
        }
    }
}

/// A dictionary entry: code, length in two bytes, string.
pub open spec fn code_entry(t: Map<u8, Seq<u8>>, c: u8) -> Seq<u8> {
    seq![c] + le_bytes(t[c].len(), 2) + t[c]
}

/// The dictionary entries for the codes below `n`, in order.
pub open spec fn code_entries(t: Map<u8, Seq<u8>>, n: nat) -> Seq<u8>
    decreases n,
{
    if n == 0 {
        seq![]
    } else {
        code_entries(t, (n - 1) as nat) + if t.contains_key((n - 1) as u8) {
            code_entry(t, (n - 1) as u8)
        } else {
            seq![]
        }
    }
}

pub open spec fn stage_bytes(s: (u8, Map<u8, Seq<u8>>)) -> Seq<u8> {
    seq![s.0, code_count(s.1, 256) as u8] + code_entries(s.1, 256)
}

pub open spec fn stages_bytes(stages: Seq<(u8, Map<u8, Seq<u8>>)>) -> Seq<u8>
    decreases stages.len(),
{
    if stages.len() == 0 {
        seq![]
    } else {
        stages_bytes(stages.drop_last()) + stage_bytes(stages.last())
    }
}

/// Some stage has a code for every byte value.
pub open spec fn has_full_stage(stages: Seq<(u8, Map<u8, Seq<u8>>)>) -> bool {
    exists|i: int| 0 <= i < stages.len() && code_count((#[trigger] stages[i]).1, 256) > 255
}

/// The number of stages and the stages; there is room for 255 stages of 255 codes.
pub open spec fn stage_header(stages: Seq<(u8, Map<u8, Seq<u8>>)>) -> Result<Seq<u8>, PackError> {
    if stages.len() > 255 {
        Err(PackError::TooManyStages)
    } else if has_full_stage(stages) {
        Err(PackError::TooManyCodes)
    } else {
        Ok(seq![stages.len() as u8] + stages_bytes(stages))
    }
}

proof fn lemma_code_count(t: Map<u8, Seq<u8>>, n: nat)
    ensures
        code_count(t, n) <= n,
    decreases n,
{
    if n > 0 {
        lemma_code_count(t, (n - 1) as nat);
    }
}

/// Appends the entries of a dictionary and returns how many there are.
fn push_code_entries(buf: &mut Vec<u8>, code_map: &HashMap<u8, Vec<u8>>) -> (count: usize)
    ensures
        count as nat == code_count(table(code_map@), 256),
        final(buf)@ == old(buf)@ + code_entries(table(code_map@), 256),
{
    let ghost t = table(code_map@);
    let ghost before = buf@;
    let mut count: usize = 0;
    let mut c: usize = 0;
    assert(before + code_entries(t, 0) =~= before);
    while c < 256
        invariant
            c <= 256,
            count <= c,
            t == table(code_map@),
            count as nat == code_count(t, c as nat),
            buf@ == before + code_entries(t, c as nat),
        decreases 256 - c,
    {
        let code = c as u8;
        let ghost now = buf@;
        match code_map.get(&code) {
            Some(chunk) => {
                assert(t.contains_key(code) && t[code] == chunk@);
                buf.push(code);
                push_le(buf, chunk.len() as u64, 2);
                buf.extend_from_slice(chunk);
                count += 1;
                assert(buf@ =~= now + code_entry(t, code));
            },
            None => {
                assert(!t.contains_key(code));
                assert(now + seq![] =~= now);
            },
        }
        c += 1;
        assert(buf@ =~= before + code_entries(t, c as nat));
    }
    count
}

/// The stages as they stand in an archive.
pub fn build_stage_header(stage_entries: &[Stage]) -> (r: Result<Vec<u8>, PackError>)
    ensures
        match r {
            Ok(buf) => stage_header(stage_views(stage_entries@)) == Ok::<Seq<u8>, PackError>(buf@),
            Err(e) => stage_header(stage_views(stage_entries@)) == Err::<Seq<u8>, PackError>(e),
        },
{
    let ghost views = stage_views(stage_entries@);
    if stage_entries.len() > 255 {
        return Err(PackError::TooManyStages);
    }
    let mut buf: Vec<u8> = Vec::new();
    buf.push(stage_entries.len() as u8);
    let ghost front = buf@;
    let mut i: usize = 0;
    proof {
        assert(views.take(0) =~= seq![]);
        assert(front + stages_bytes(views.take(0)) =~= front);
    }
    while i < stage_entries.len()
        invariant
            i <= stage_entries@.len() <= 255,
            views == stage_views(stage_entries@),
            front == seq![stage_entries@.len() as u8],
            buf@ == front + stages_bytes(views.take(i as int)),
            forall|j: int| 0 <= j < i ==> code_count((#[trigger] views[j]).1, 256) <= 255,
        decreases stage_entries@.len() - i,
    {
        let stage = &stage_entries[i];
        assert(views[i as int] == stage_view(*stage));
        let ghost now = buf@;
        let mut body: Vec<u8> = Vec::new();
        let count = push_code_entries(&mut body, &stage.1);
        if count > 255 {
            assert(code_count(views[i as int].1, 256) > 255);
            return Err(PackError::TooManyCodes);
        }
        buf.push(stage.0);
        buf.push(count as u8);
        buf.extend_from_slice(&body);
        proof {
            assert(views.take(i + 1).drop_last() =~= views.take(i as int));
            assert(buf@ =~= now + stage_bytes(views[i as int]));
            assert(buf@ =~= front + stages_bytes(views.take(i + 1)));
        }
        i += 1;
    }
    proof {
        assert(views.take(i as int) =~= views);
        assert(!has_full_stage(views));
    }
    Ok(buf)
}

/// A directory entry: length of the path in two bytes, path, size in eight bytes.
pub open spec fn entry_bytes(e: Entry) -> Seq<u8> {
    le_bytes(e.path.len(), 2) + e.path + le_bytes(e.size as nat, 8)
}

pub open spec fn directory_bytes(files: Seq<Entry>) -> Seq<u8>
    decreases files.len(),
{
    if files.len() == 0 {
        seq![]
    } else {
        directory_bytes(files.drop_last()) + entry_bytes(files.last())
    }
}

pub open spec fn has_long_path(files: Seq<Entry>) -> bool {
    exists|i: int| 0 <= i < files.len() && (#[trigger] files[i]).path.len() > 65535
}

/// The number of files in four bytes and their entries.
pub open spec fn directory_header(files: Seq<Entry>) -> Result<Seq<u8>, PackError> {
    if files.len() > u32::MAX {
        Err(PackError::TooManyFiles)
    } else if has_long_path(files) {
        Err(PackError::PathTooLong)
    } else {
        Ok(le_bytes(files.len(), 4) + directory_bytes(files))
    }
}

/// The directory of a folder as it stands in an archive.
pub fn build_directory(files: &[FileEntry]) -> (r: Result<Vec<u8>, PackError>)
    ensures
        match r {
            Ok(buf) => directory_header(entries(files@)) == Ok::<Seq<u8>, PackError>(buf@),
            Err(e) => directory_header(entries(files@)) == Err::<Seq<u8>, PackError>(e),
        },
{
    let ghost views = entries(files@);
    if files.len() as u64 > u32::MAX as u64 {
        return Err(PackError::TooManyFiles);
    }
    let mut buf: Vec<u8> = Vec::new();
    push_le(&mut buf, files.len() as u64, 4);
    let ghost front = buf@;
    assert(front =~= le_bytes(views.len(), 4));
    let mut i: usize = 0;
    proof {
        assert(views.take(0) =~= seq![]);
        assert(front + directory_bytes(views.take(0)) =~= front);
    }
    while i < files.len()
        invariant
            i <= files@.len() <= u32::MAX,
            views == entries(files@),
            buf@ == front + directory_bytes(views.take(i as int)),
            forall|j: int| 0 <= j < i ==> (#[trigger] views[j]).path.len() <= 65535,
        decreases files@.len() - i,
    {
        let entry = &files[i];
        assert(views[i as int] == entry@);
        if entry.relative_path.len() > 65535 {
            assert(views[i as int].path.len() > 65535);
            return Err(PackError::PathTooLong);
        }
        let ghost now = buf@;
        push_le(&mut buf, entry.relative_path.len() as u64, 2);
        buf.extend_from_slice(&entry.relative_path);
        push_le(&mut buf, entry.file_size, 8);
        proof {
            assert(views.take(i + 1).drop_last() =~= views.take(i as int));
            assert(buf@ =~= now + entry_bytes(entry@));
            assert(buf@ =~= front + directory_bytes(views.take(i + 1)));
        }
        i += 1;
    }
    proof {
        assert(views.take(i as int) =~= views);
        assert(!has_long_path(views));
    }
    Ok(buf)
}

/// What each chunk has in front of the payload: its flags, and its size in eight bytes.
pub open spec fn chunk_meta_bytes(chunks: Seq<(u8, u64)>) -> Seq<u8>
    decreases chunks.len(),
{
    if chunks.len() == 0 {
        seq![]
    } else {
        chunk_meta_bytes(chunks.drop_last()) + seq![chunks.last().0] + le_bytes(
            chunks.last().1 as nat,
            8,
        )
    }
}

/// The eight bytes that every archive begins with.
pub open spec fn archive_magic() -> Seq<u8> {
    seq![0x44u8, 0x55u8, 0x43u8, 0x4bu8, 0x4fu8, 0x4du8, 0x50u8, 0x31u8]
}

/// Magic, format flags, size of the contents, number of chunks, and chunk size.
pub open spec fn fixed_header(flags: u8, size: nat, chunks: nat, chunk_size: nat) -> Seq<u8> {
    archive_magic() + seq![flags] + le_bytes(size, 8) + le_bytes(chunks, 4) + le_bytes(
        chunk_size,
        4,
    )
}

/// All that stands in front of the payload. An archive of a folder has a directory.
pub open spec fn archive_header(
    directory: Option<Seq<Entry>>,
    size: nat,
    chunk_size: nat,
    stages: Seq<(u8, Map<u8, Seq<u8>>)>,
    chunks: Seq<(u8, u64)>,
) -> Result<Seq<u8>, PackError> {
    let dir = match directory {
        Some(files) => directory_header(files),
        None => Ok(seq![]),
    };
    let flags = if directory is Some {
        FORMAT_FLAG_FOLDER
    } else {
        0u8
    };
    match dir {
        Err(e) => Err(e),
        Ok(d) => match stage_header(stages) {
            Err(e) => Err(e),
            Ok(s) => Ok(
                fixed_header(flags, size, chunks.len(), chunk_size) + d + s + chunk_meta_bytes(
                    chunks,
                ),
            ),
        },
    }
}

pub open spec fn directory_view(directory: Option<Vec<FileEntry>>) -> Option<Seq<Entry>> {
    match directory {
        Some(files) => Some(entries(files@)),
        None => None,
    }
}

/// All that stands in front of the payload: for each chunk its flags and coded size go into
/// `chunks`.
pub fn build_archive_header(
    directory: &Option<Vec<FileEntry>>,
    original_size: u64,
    chunk_size: usize,
    stage_entries: &[Stage],
    chunks: &[(u8, u64)],
) -> (r: Result<Vec<u8>, PackError>)
    ensures
        match r {
            Ok(buf) => archive_header(
                directory_view(*directory),
                original_size as nat,
                chunk_size as nat,
                stage_views(stage_entries@),
                chunks@,
            ) == Ok::<Seq<u8>, PackError>(buf@),
            Err(e) => archive_header(
                directory_view(*directory),
                original_size as nat,
                chunk_size as nat,
                stage_views(stage_entries@),
                chunks@,
            ) == Err::<Seq<u8>, PackError>(e),
        },
{
    let mut header: Vec<u8> = Vec::new();
    header.push(0x44);
    header.push(0x55);
    header.push(0x43);
    header.push(0x4b);
    header.push(0x4f);
    header.push(0x4d);
    header.push(0x50);
    header.push(0x31);
    let flags: u8 = match directory {
        Some(_) => FORMAT_FLAG_FOLDER,
        None => 0,
    };
    header.push(flags);
    push_le(&mut header, original_size, 8);
    push_le(&mut header, chunks.len() as u64, 4);
    push_le(&mut header, chunk_size as u64, 4);
    let ghost fixed = fixed_header(
        flags,
        original_size as nat,
        chunks@.len(),
        chunk_size as nat,
    );
    assert(header@ =~= fixed);
    let ghost mut dir = Seq::<u8>::empty();
    if let Some(files) = directory {
        match build_directory(files) {
            Ok(d) => {
                header.extend_from_slice(&d);
                proof {
                    dir = d@;
                }
            },
            Err(e) => {
                return Err(e);
            },
        }
    }
    assert(header@ =~= fixed + dir);
    let ghost stages;
    match build_stage_header(stage_entries) {
        Ok(s) => {
            header.extend_from_slice(&s);
            proof {
                stages = s@;
            }
        },
        Err(e) => {
            return Err(e);
        },
    }
    let ghost front = header@;
    assert(front =~= fixed + dir + stages);
    let mut i: usize = 0;
    proof {
        assert(chunks@.take(0) =~= seq![]);
        assert(front + chunk_meta_bytes(chunks@.take(0)) =~= front);
    }
    while i < chunks.len()
        invariant
            i <= chunks@.len(),
            header@ == front + chunk_meta_bytes(chunks@.take(i as int)),
        decreases chunks@.len() - i,
    {
        let (flag, size) = chunks[i];
        let ghost now = header@;
        header.push(flag);
        push_le(&mut header, size, 8);
        proof {
            assert(chunks@.take(i + 1).drop_last() =~= chunks@.take(i as int));
            assert(header@ =~= front + chunk_meta_bytes(chunks@.take(i + 1)));
        }
        i += 1;
    }
    assert(chunks@.take(i as int) =~= chunks@);
    Ok(header)
}

/// Why an archive cannot be read.
#[derive(Clone, Copy, Debug, PartialEq, Eq, Structural)]
pub enum UnpackError {
    TooShort,
    NotAnArchive,
    TruncatedFileCount,
    TruncatedDirectory,
    TruncatedPath,
    TruncatedFileSize,
    TruncatedStageCount,
    TruncatedStageHeader,
    TruncatedCodeEntry,
    TruncatedChunkData,
    TruncatedChunkMetadata,
    Lz77(LzError),
    ChunkTruncated { index: usize, need: u64, offset: usize, have: usize },
    Chunk(ChunkError),
    Dict(DictError),
    SizeMismatch { found: usize, expected: u64 },
}

/// The `n` directory entries at `at`, behind those in `acc`, and where they end.
pub open spec fn parse_directory(data: Seq<u8>, at: nat, n: nat, acc: Seq<Entry>) -> Result<
    (Seq<Entry>, nat),
    UnpackError,
>
    decreases n,
{
    if n == 0 {
        Ok((acc, at))
    } else if at + 2 > data.len() {
        Err(UnpackError::TruncatedDirectory)
    } else {
        let len = le_value(data.subrange(at as int, (at + 2) as int));
        if at + 2 + len > data.len() {
            Err(UnpackError::TruncatedPath)
        } else if at + 2 + len + 8 > data.len() {
            Err(UnpackError::TruncatedFileSize)
        } else {
            let mid = at + 2 + len;
            let entry = Entry {
                path: data.subrange((at + 2) as int, mid as int),
                size: le_value(data.subrange(mid as int, (mid + 8) as int)) as u64,
            };
            parse_directory(data, mid + 8, (n - 1) as nat, acc.push(entry))
        }
    }
}

/// The `n` dictionary entries at `at`, entered into `acc`, and where they end.
pub open spec fn parse_codes(data: Seq<u8>, at: nat, n: nat, acc: Map<u8, Seq<u8>>) -> Result<
    (Map<u8, Seq<u8>>, nat),
    UnpackError,
>
    decreases n,
{
    if n == 0 {
        Ok((acc, at))
    } else if at + 3 > data.len() {
        Err(UnpackError::TruncatedCodeEntry)
    } else {
        let len = le_value(data.subrange((at + 1) as int, (at + 3) as int));
        let end = at + 3 + len;
        if end > data.len() {
            Err(UnpackError::TruncatedChunkData)
        } else {
            parse_codes(
                data,
                end,
                (n - 1) as nat,
                acc.insert(data[at as int], data.subrange((at + 3) as int, end as int)),
            )
        }
    }
}

/// The `n` stages at `at`, behind those in `acc`, and where they end.
pub open spec fn parse_stages(
    data: Seq<u8>,
    at: nat,
    n: nat,
    acc: Seq<(u8, Map<u8, Seq<u8>>)>,
) -> Result<(Seq<(u8, Map<u8, Seq<u8>>)>, nat), UnpackError>
    decreases n,
{
    if n == 0 {
        Ok((acc, at))
    } else if at + 2 > data.len() {
        Err(UnpackError::TruncatedStageHeader)
    } else {
        match parse_codes(data, at + 2, data[(at + 1) as int] as nat, Map::empty()) {
            Err(e) => Err(e),
            Ok((t, end)) => parse_stages(
                data,
                end,
                (n - 1) as nat,
                acc.push((data[at as int], t)),
            ),
        }
    }
}

/// Flags and sizes of the `n` chunks at `at`.
pub open spec fn chunk_meta_at(data: Seq<u8>, at: nat, n: nat) -> Seq<(u8, u64)> {
    Seq::new(
        n,
        |i: int|
            (
                data[at + 9 * i],
                le_value(data.subrange(at + 9 * i + 1, at + 9 * i + 9)) as u64,
            ),
    )
}

/// What stands in front of the payload.
pub struct ArchiveInfo {
    pub flags: u8,
    pub size: u64,
    pub chunk_size: u32,
    pub files: Seq<Entry>,
    pub stages: Seq<(u8, Map<u8, Seq<u8>>)>,
    pub chunks: Seq<(u8, u64)>,
}

/// The directory, if the flags say that there is one, and where it ends.
pub open spec fn parse_folder(data: Seq<u8>) -> Result<(Seq<Entry>, nat), UnpackError> {
    if data[8] & FORMAT_FLAG_FOLDER != 0 {
        if data.len() < 29 {
            Err(UnpackError::TruncatedFileCount)
        } else {
            parse_directory(data, 29, le_value(data.subrange(25, 29)), seq![])
        }
    } else {
        Ok((seq![], 25))
    }
}

/// What stands in front of the payload, and where the payload begins.
pub open spec fn parse_archive(data: Seq<u8>) -> Result<(ArchiveInfo, nat), UnpackError> {
    if data.len() < 25 {
        Err(UnpackError::TooShort)
    } else if data.take(8) != archive_magic() {
        Err(UnpackError::NotAnArchive)
    } else {
        match parse_folder(data) {
            Err(e) => Err(e),
            Ok((files, at)) => if at >= data.len() {
                Err(UnpackError::TruncatedStageCount)
            } else {
                match parse_stages(data, at + 1, data[at as int] as nat, seq![]) {
                    Err(e) => Err(e),
                    Ok((stages, end)) => {
                        let n = le_value(data.subrange(17, 21));
                        if end + 9 * n > data.len() {
                            Err(UnpackError::TruncatedChunkMetadata)
                        } else {
                            Ok(
                                (
                                    ArchiveInfo {
                                        flags: data[8],
                                        size: le_value(data.subrange(9, 17)) as u64,
                                        chunk_size: le_value(data.subrange(21, 25)) as u32,
                                        files,
                                        stages,
                                        chunks: chunk_meta_at(data, end, n),
                                    },
                                    end + 9 * n,
                                ),
                            )
                        }
                    },
                }
            },
        }
    }
}

/// What stands in front of the payload of an archive.
pub struct ArchiveHeader {
    pub format_flags: u8,
    pub original_size: u64,
    pub chunk_size: u32,
    pub files: Vec<FileEntry>,
    pub stages: Vec<Stage>,
    pub chunks: Vec<(u8, u64)>,
    pub payload_start: usize,
}

impl View for ArchiveHeader {
    type V = ArchiveInfo;

    open spec fn view(&self) -> ArchiveInfo {
        ArchiveInfo {
            flags: self.format_flags,
            size: self.original_size,
            chunk_size: self.chunk_size,
            files: entries(self.files@),
            stages: stage_views(self.stages@),
            chunks: self.chunks@,
        }
    }
}

fn read_directory(data: &[u8], at: usize, n: usize) -> (r: Result<
    (Vec<FileEntry>, usize),
    UnpackError,
>)
    requires
        at <= data@.len(),
    ensures
        match r {
            Ok((files, end)) => parse_directory(data@, at as nat, n as nat, seq![]) == Ok::<
                (Seq<Entry>, nat),
                UnpackError,
            >((entries(files@), end as nat)) && end <= data@.len(),
            Err(e) => parse_directory(data@, at as nat, n as nat, seq![]) == Err::<
                (Seq<Entry>, nat),
                UnpackError,
            >(e),
        },
{
    let mut files: Vec<FileEntry> = Vec::new();
    let mut offset: usize = at;
    let mut i: usize = 0;
    assert(entries(files@) =~= seq![]);
    while i < n
        invariant
            i <= n,
            offset <= data@.len(),
            parse_directory(data@, at as nat, n as nat, seq![]) == parse_directory(
                data@,
                offset as nat,
                (n - i) as nat,
                entries(files@),
            ),
        decreases n - i,
    {
        if data.len() - offset < 2 {
            return Err(UnpackError::TruncatedDirectory);
        }
        proof {
            lemma_le_value_bound(data@.subrange(offset as int, offset + 2));
            lemma_pow256_values();
        }
        let path_len = read_le(data, offset, 2) as usize;
        let start = offset + 2;
        if data.len() - start < path_len {
            return Err(UnpackError::TruncatedPath);
        }
        let mid = start + path_len;
        if data.len() - mid < 8 {
            return Err(UnpackError::TruncatedFileSize);
        }
        let relative_path = copy_of(&data[start..mid]);
        let file_size = read_le(data, mid, 8);
        let entry = FileEntry { relative_path, file_size };
        let ghost before = entries(files@);
        let ghost view = entry@;
        files.push(entry);
        assert(entries(files@) =~= before.push(view));
        offset = mid + 8;
        i += 1;
    }
    Ok((files, offset))
}

proof fn lemma_table_insert(m: Map<u8, Vec<u8>>, c: u8, v: Vec<u8>)
    ensures
        table(m.insert(c, v)) == table(m).insert(c, v@),
{
    assert(table(m.insert(c, v)) =~= table(m).insert(c, v@));
}

fn read_codes(data: &[u8], at: usize, n: usize) -> (r: Result<
    (HashMap<u8, Vec<u8>>, usize),
    UnpackError,
>)
    requires
        at <= data@.len(),
    ensures
        match r {
            Ok((m, end)) => parse_codes(data@, at as nat, n as nat, Map::empty()) == Ok::<
                (Map<u8, Seq<u8>>, nat),
                UnpackError,
            >((table(m@), end as nat)) && end <= data@.len(),
            Err(e) => parse_codes(data@, at as nat, n as nat, Map::empty()) == Err::<
                (Map<u8, Seq<u8>>, nat),
                UnpackError,
            >(e),
        },
{
    let mut map: HashMap<u8, Vec<u8>> = HashMap::new();
    let mut offset: usize = at;
    let mut i: usize = 0;
    assert(table(map@) =~= Map::empty());
    while i < n
        invariant
            i <= n,
            offset <= data@.len(),
            parse_codes(data@, at as nat, n as nat, Map::empty()) == parse_codes(
                data@,
                offset as nat,
                (n - i) as nat,
                table(map@),
            ),
        decreases n - i,
    {
        if data.len() - offset < 3 {
            return Err(UnpackError::TruncatedCodeEntry);
        }
        proof {
            lemma_le_value_bound(data@.subrange(offset + 1, offset + 3));
            lemma_pow256_values();
        }
        let code = data[offset];
        let len = read_le(data, offset + 1, 2) as usize;
        let start = offset + 3;
        if data.len() - start < len {
            return Err(UnpackError::TruncatedChunkData);
        }
        let chunk = copy_of(&data[start..start + len]);
        proof {
            lemma_table_insert(map@, code, chunk);
        }
        map.insert(code, chunk);
        offset = start + len;
        i += 1;
    }
    Ok((map, offset))
}

fn read_stages(data: &[u8], at: usize, n: usize) -> (r: Result<(Vec<Stage>, usize), UnpackError>)
    requires
        at <= data@.len(),
    ensures
        match r {
            Ok((stages, end)) => parse_stages(data@, at as nat, n as nat, seq![]) == Ok::<
                (Seq<(u8, Map<u8, Seq<u8>>)>, nat),
                UnpackError,
            >((stage_views(stages@), end as nat)) && end <= data@.len(),
            Err(e) => parse_stages(data@, at as nat, n as nat, seq![]) == Err::<
                (Seq<(u8, Map<u8, Seq<u8>>)>, nat),
                UnpackError,
            >(e),
        },
{
    let mut stages: Vec<Stage> = Vec::new();
    let mut offset: usize = at;
    let mut i: usize = 0;
    assert(stage_views(stages@) =~= seq![]);
    while i < n
        invariant
            i <= n,
            offset <= data@.len(),
            parse_stages(data@, at as nat, n as nat, seq![]) == parse_stages(
                data@,
                offset as nat,
                (n - i) as nat,
                stage_views(stages@),
            ),
        decreases n - i,
    {
        if data.len() - offset < 2 {
            return Err(UnpackError::TruncatedStageHeader);
        }
        let escape = data[offset];
        let count = data[offset + 1] as usize;
        match read_codes(data, offset + 2, count) {
            Err(e) => {
                return Err(e);
            },
            Ok((map, end)) => {
                let ghost before = stage_views(stages@);
                let ghost t = table(map@);
                stages.push((escape, map));
                assert(stage_views(stages@) =~= before.push((escape, t)));
                offset = end;
            },
        }
        i += 1;
    }
    Ok((stages, offset))
}

/// Reads what stands in front of the payload of an archive.
pub fn read_archive_header(data: &[u8]) -> (r: Result<ArchiveHeader, UnpackError>)
    ensures
        match r {
            Ok(h) => parse_archive(data@) == Ok::<(ArchiveInfo, nat), UnpackError>(
                (h@, h.payload_start as nat),
            ) && h.payload_start <= data@.len(),
            Err(e) => parse_archive(data@) == Err::<(ArchiveInfo, nat), UnpackError>(e),
        },
{
    if data.len() < 25 {
        return Err(UnpackError::TooShort);
    }
    if data[0] != 0x44 || data[1] != 0x55 || data[2] != 0x43 || data[3] != 0x4b || data[4] != 0x4f
        || data[5] != 0x4d || data[6] != 0x50 || data[7] != 0x31 {
        proof {
            let m = data@.take(8);
            assert(m[0] == data@[0] && m[1] == data@[1] && m[2] == data@[2] && m[3] == data@[3]
                && m[4] == data@[4] && m[5] == data@[5] && m[6] == data@[6] && m[7] == data@[7]);
        }
        return Err(UnpackError::NotAnArchive);
    }
    assert(data@.take(8) =~= archive_magic());
    proof {
        lemma_pow256_values();
        lemma_le_value_bound(data@.subrange(9, 17));
        lemma_le_value_bound(data@.subrange(17, 21));
        lemma_le_value_bound(data@.subrange(21, 25));
    }
    let format_flags = data[8];
    let original_size = read_le(data, 9, 8);
    let num_chunks = read_le(data, 17, 4) as usize;
    let chunk_size = read_le(data, 21, 4) as u32;
    let mut files: Vec<FileEntry> = Vec::new();
    let mut offset: usize = 25;
    assert(entries(files@) =~= seq![]);
    if format_flags & FORMAT_FLAG_FOLDER != 0 {
        if data.len() < 29 {
            return Err(UnpackError::TruncatedFileCount);
        }
        proof {
            lemma_le_value_bound(data@.subrange(25, 29));
        }
        let num_files = read_le(data, 25, 4) as usize;
        match read_directory(data, 29, num_files) {
            Err(e) => {
                return Err(e);
            },
            Ok((f, end)) => {
                files = f;
                offset = end;
            },
        }
    }
    if offset >= data.len() {
        return Err(UnpackError::TruncatedStageCount);
    }
    let num_stages = data[offset] as usize;
    match read_stages(data, offset + 1, num_stages) {
        Err(e) => Err(e),
        Ok((stages, end)) => {
            if (data.len() - end) as u64 / 9 < num_chunks as u64 {
                return Err(UnpackError::TruncatedChunkMetadata);
            }
            let mut chunks: Vec<(u8, u64)> = Vec::new();
            let mut i: usize = 0;
            while i < num_chunks
                invariant
                    i <= num_chunks,
                    end + 9 * num_chunks <= data.len(),
                    chunks@ =~= chunk_meta_at(data@, end as nat, i as nat),
                decreases num_chunks - i,
            {
                let at = end + 9 * i;
                proof {
                    lemma_pow256_values();
                    lemma_le_value_bound(data@.subrange(at + 1, at + 9));
                }
                let size = read_le(data, at + 1, 8);
                chunks.push((data[at], size));
                i += 1;
            }
            let payload_start = end + 9 * num_chunks;
            Ok(
                ArchiveHeader {
                    format_flags,
                    original_size,
                    chunk_size,
                    files,
                    stages,
                    chunks,
                    payload_start,
                },
            )
        },
    }
}

/// What the chunks from the `i`-th on, which begins at `at`, stand for together.
pub open spec fn join_chunks(payload: Seq<u8>, chunks: Seq<(u8, u64)>, i: nat, at: nat) -> Result<
    Seq<u8>,
    UnpackError,
>
    decreases chunks.len() - i,
{
    if i >= chunks.len() {
        Ok(seq![])
    } else {
        let size = chunks[i as int].1 as nat;
        if at + size > payload.len() {
            Err(
                UnpackError::ChunkTruncated {
                    index: i as usize,
                    need: chunks[i as int].1,
                    offset: at as usize,
                    have: (payload.len() - at) as usize,
                },
            )
        } else {
            match chunk_decode(
                payload.subrange(at as int, (at + size) as int),
                chunks[i as int].0,
            ) {
                Err(e) => Err(UnpackError::Chunk(e)),
                Ok(out) => match join_chunks(payload, chunks, i + 1, at + size) {
                    Err(e) => Err(e),
                    Ok(rest) => Ok(out + rest),
                },
            }
        }
    }
}

/// What the first `n` stages made `data` of; the last stage is undone first.
pub open spec fn undo_stages(data: Seq<u8>, stages: Seq<(u8, Map<u8, Seq<u8>>)>, n: nat) -> Result<
    Seq<u8>,
    UnpackError,
>
    decreases n,
{
    if n == 0 {
        Ok(data)
    } else {
        match dict_decode(data, stages[n - 1].0, stages[n - 1].1) {
            Err(e) => Err(UnpackError::Dict(e)),
            Ok(d) => undo_stages(d, stages, (n - 1) as nat),
        }
    }
}

/// The payload, decompressed as a whole if the flags say so.
pub open spec fn open_payload(payload: Seq<u8>, flags: u8) -> Result<Seq<u8>, UnpackError> {
    if flags & FORMAT_FLAG_LZ77 != 0 {
        match decode_stream(payload) {
            Ok(d) => Ok(d),
            Err(e) => Err(UnpackError::Lz77(e)),
        }
    } else {
        Ok(payload)
    }
}

/// The contents of an archive with this header and this payload.
pub open spec fn contents(info: ArchiveInfo, payload: Seq<u8>) -> Result<Seq<u8>, UnpackError> {
    match open_payload(payload, info.flags) {
        Err(e) => Err(e),
        Ok(opened) => match join_chunks(opened, info.chunks, 0, 0) {
            Err(e) => Err(e),
            Ok(joined) => match undo_stages(joined, info.stages, info.stages.len()) {
                Err(e) => Err(e),
                Ok(out) => if out.len() != info.size {
                    Err(
                        UnpackError::SizeMismatch {
                            found: out.len() as usize,
                            expected: info.size,
                        },
                    )
                } else {
                    Ok(out)
                },
            },
        },
    }
}

/// The contents of an archive.
pub open spec fn unpack(data: Seq<u8>) -> Result<Seq<u8>, UnpackError> {
    match parse_archive(data) {
        Err(e) => Err(e),
        Ok((info, at)) => contents(info, data.skip(at as int)),
    }
}

fn decode_chunks(payload: &[u8], chunks: &[(u8, u64)]) -> (r: Result<Vec<u8>, UnpackError>)
    ensures
        match r {
            Ok(out) => join_chunks(payload@, chunks@, 0, 0) == Ok::<Seq<u8>, UnpackError>(out@),
            Err(e) => join_chunks(payload@, chunks@, 0, 0) == Err::<Seq<u8>, UnpackError>(e),
        },
{
    let mut out: Vec<u8> = Vec::new();
    let mut at: usize = 0;
    let mut i: usize = 0;
    proof {
        match join_chunks(payload@, chunks@, 0, 0) {
            Ok(rest) => {
                assert(out@ + rest =~= rest);
            },
            Err(e) => {},
        }
    }
    while i < chunks.len()
        invariant
            i <= chunks@.len(),
            at <= payload@.len(),
            join_chunks(payload@, chunks@, 0, 0) == match join_chunks(
                payload@,
                chunks@,
                i as nat,
                at as nat,
            ) {
                Ok(rest) => Ok(out@ + rest),
                Err(e) => Err::<Seq<u8>, UnpackError>(e),
            },
        decreases chunks@.len() - i,
    {
        let (flags, size) = chunks[i];
        let have = payload.len() - at;
        if size > have as u64 {
            return Err(UnpackError::ChunkTruncated { index: i, need: size, offset: at, have });
        }
        let len = size as usize;
        let ghost before = out@;
        match decode_adaptive_chunk(&payload[at..at + len], flags) {
            Ok(decoded) => {
                out.extend_from_slice(&decoded);
                proof {
                    match join_chunks(payload@, chunks@, (i + 1) as nat, (at + len) as nat) {
                        Ok(rest) => {
                            assert(before + (decoded@ + rest) =~= out@ + rest);
                        },
                        Err(e) => {},
                    }
                }
                at = at + len;
            },
            Err(e) => {
                return Err(UnpackError::Chunk(e));
            },
        }
        i += 1;
    }
    assert(out@ + seq![] =~= out@);
    Ok(out)
}

/// Undoes dictionary stages, the last one first.
pub fn undo_dict_stages(data: Vec<u8>, stages: &[Stage]) -> (r: Result<Vec<u8>, UnpackError>)
    ensures
        match r {
            Ok(out) => undo_stages(data@, stage_views(stages@), stages@.len()) == Ok::<
                Seq<u8>,
                UnpackError,
            >(out@),
            Err(e) => undo_stages(data@, stage_views(stages@), stages@.len()) == Err::<
                Seq<u8>,
                UnpackError,
            >(e),
        },
{
    let ghost source = data@;
    let ghost views = stage_views(stages@);
    let mut current = data;
    let mut n: usize = stages.len();
    while n > 0
        invariant
            n <= stages@.len(),
            source == data@,
            views == stage_views(stages@),
            undo_stages(source, views, stages@.len()) == undo_stages(current@, views, n as nat),
        decreases n,
    {
        let stage = &stages[n - 1];
        assert(views[n - 1] == stage_view(*stage));
        match decode_dict_stage(&current, stage.0, &stage.1) {
            Ok(d) => {
                current = d;
            },
            Err(e) => {
                return Err(UnpackError::Dict(e));
            },
        }
        n = n - 1;
    }
    Ok(current)
}

/// The contents behind a header that has been read: `payload` is what follows it.
pub fn unpack_payload(header: &ArchiveHeader, payload: &[u8]) -> (r: Result<Vec<u8>, UnpackError>)
    ensures
        match r {
            Ok(out) => contents(header@, payload@) == Ok::<Seq<u8>, UnpackError>(out@),
            Err(e) => contents(header@, payload@) == Err::<Seq<u8>, UnpackError>(e),
        },
{
    let opened = if header.format_flags & FORMAT_FLAG_LZ77 != 0 {
        match lz77_decompress_stream(payload) {
            Ok(d) => d,
            Err(e) => {
                return Err(UnpackError::Lz77(e));
            },
        }
    } else {
        copy_of(payload)
    };
    let joined = match decode_chunks(&opened, &header.chunks) {
        Ok(d) => d,
        Err(e) => {
            return Err(e);
        },
    };
    assert(header@.stages.len() == header.stages@.len());
    match undo_dict_stages(joined, &header.stages) {
        Ok(out) => {
            if out.len() as u64 != header.original_size {
                return Err(
                    UnpackError::SizeMismatch {
                        found: out.len(),
                        expected: header.original_size,
                    },
                );
            }
            Ok(out)
        },
        Err(e) => Err(e),
    }
}

/// The contents of an archive.
pub fn unpack_archive(data: &[u8]) -> (r: Result<Vec<u8>, UnpackError>)
    ensures
        match r {
            Ok(out) => unpack(data@) == Ok::<Seq<u8>, UnpackError>(out@),
            Err(e) => unpack(data@) == Err::<Seq<u8>, UnpackError>(e),
        },
{
    match read_archive_header(data) {
        Err(e) => Err(e),
        Ok(header) => {
            let payload = &data[header.payload_start..data.len()];
            assert(payload@ =~= data@.skip(header.payload_start as int));
            unpack_payload(&header, payload)
        },
    }
}

/// The archive has the directory `files`.
pub open spec fn lists(archive: Seq<u8>, files: Seq<Entry>) -> bool {
    match parse_archive(archive) {
        Ok((info, _)) => info.files == files,
        Err(_) => false,
    }
}

/// Where the `i`-th file of a folder begins in the archive's contents.
pub open spec fn file_start(files: Seq<Entry>, i: nat) -> nat
    decreases i,
{
    if i == 0 {
        0
    } else {
        file_start(files, (i - 1) as nat) + files[i - 1].size as nat
    }
}

/// Where the files lie in contents of `len` bytes, up to the first that does not fit.
pub fn file_ranges(files: &[FileEntry], len: usize) -> (r: Vec<(usize, usize)>)
    ensures
        r@.len() <= files@.len(),
        forall|i: int|
            0 <= i < r@.len() ==> (#[trigger] r@[i]).0 as nat == file_start(
                entries(files@),
                i as nat,
            ) && r@[i].1 as nat == file_start(entries(files@), (i + 1) as nat) && r@[i].0
                <= r@[i].1 <= len,
        r@.len() < files@.len() ==> file_start(entries(files@), r@.len() + 1) > len,
{
    let ghost views = entries(files@);
    let mut r: Vec<(usize, usize)> = Vec::new();
    let mut cursor: usize = 0;
    let mut i: usize = 0;
    while i < files.len()
        invariant
            i <= files@.len(),
            i == r@.len(),
            views == entries(files@),
            cursor <= len,
            cursor as nat == file_start(views, i as nat),
            forall|j: int|
                0 <= j < i ==> (#[trigger] r@[j]).0 as nat == file_start(views, j as nat)
                    && r@[j].1 as nat == file_start(views, (j + 1) as nat) && r@[j].0 <= r@[j].1
                    <= len,
        decreases files@.len() - i,
    {
        assert(views[i as int] == files@[i as int]@);
        let size = files[i].file_size;
        if size > (len - cursor) as u64 {
            return r;
        }
        let end = cursor + size as usize;
        r.push((cursor, end));
        cursor = end;
        i += 1;
    }
    r
}

proof fn lemma_parse_directory(
    before: Seq<u8>,
    files: Seq<Entry>,
    after: Seq<u8>,
    m: nat,
    acc: Seq<Entry>,
)
    requires
        !has_long_path(files),
    ensures
        ({
            let data = before + directory_bytes(files) + after;
            parse_directory(data, before.len(), files.len() + m, acc) == parse_directory(
                data,
                before.len() + directory_bytes(files).len(),
                m,
                acc + files,
            )
        }),
    decreases files.len(),
{
    if files.len() == 0 {
        assert(acc + files =~= acc);
    } else {
        let shorter = files.drop_last();
        let e = files.last();
        let data = before + directory_bytes(files) + after;
        assert(data =~= before + directory_bytes(shorter) + (entry_bytes(e) + after));
        assert(!has_long_path(shorter)) by {
            assert forall|i: int| 0 <= i < shorter.len() implies (#[trigger] shorter[i]).path.len()
                <= 65535 by {
                assert(files[i] == shorter[i]);
            }
        }
        assert(files[files.len() - 1].path.len() <= 65535);
        lemma_parse_directory(before, shorter, entry_bytes(e) + after, m + 1, acc);
        let at = before.len() + directory_bytes(shorter).len();
        let len = e.path.len();
        lemma_le_bytes_len(len, 2);
        lemma_le_bytes_len(e.size as nat, 8);
        lemma_pow256_values();
        lemma_le_roundtrip(len, 2);
        lemma_le_roundtrip(e.size as nat, 8);
        assert(data.subrange(at as int, (at + 2) as int) =~= le_bytes(len, 2));
        assert(data.subrange((at + 2) as int, (at + 2 + len) as int) =~= e.path);
        assert(data.subrange((at + 2 + len) as int, (at + 2 + len + 8) as int) =~= le_bytes(
            e.size as nat,
            8,
        ));
        assert((acc + shorter).push(e) =~= acc + files);
    }
}

/// The part of a dictionary with codes below `k`.
spec fn below(t: Map<u8, Seq<u8>>, k: nat) -> Map<u8, Seq<u8>> {
    Map::new(|c: u8| c < k && t.contains_key(c), |c: u8| t[c])
}

/// The strings of a dictionary fit the length fields of an archive.
pub open spec fn short_strings(t: Map<u8, Seq<u8>>) -> bool {
    forall|c: u8| #[trigger] t.contains_key(c) ==> t[c].len() <= 65535
}

proof fn lemma_parse_codes(
    before: Seq<u8>,
    t: Map<u8, Seq<u8>>,
    k: nat,
    after: Seq<u8>,
    m: nat,
)
    requires
        k <= 256,
        short_strings(t),
    ensures
        ({
            let data = before + code_entries(t, k) + after;
            parse_codes(data, before.len(), code_count(t, k) + m, Map::empty()) == parse_codes(
                data,
                before.len() + code_entries(t, k).len(),
                m,
                below(t, k),
            )
        }),
    decreases k,
{
    if k == 0 {
        assert(below(t, 0) =~= Map::empty());
    } else {
        let c = (k - 1) as u8;
        let data = before + code_entries(t, k) + after;
        if t.contains_key(c) {
            let entry = code_entry(t, c);
            assert(data =~= before + code_entries(t, (k - 1) as nat) + (entry + after));
            lemma_parse_codes(before, t, (k - 1) as nat, entry + after, m + 1);
            let at = before.len() + code_entries(t, (k - 1) as nat).len();
            let len = t[c].len();
            lemma_le_bytes_len(len, 2);
            lemma_pow256_values();
            lemma_le_roundtrip(len, 2);
            assert(data[at as int] == c);
            assert(data.subrange((at + 1) as int, (at + 3) as int) =~= le_bytes(len, 2));
            assert(data.subrange((at + 3) as int, (at + 3 + len) as int) =~= t[c]);
            assert(below(t, (k - 1) as nat).insert(c, t[c]) =~= below(t, k));
        } else {
            assert(code_entries(t, k) =~= code_entries(t, (k - 1) as nat));
            lemma_parse_codes(before, t, (k - 1) as nat, after, m);
            assert(below(t, k) =~= below(t, (k - 1) as nat));
        }
    }
}

/// All stages fit the fields of an archive.
pub open spec fn stages_fit(stages: Seq<(u8, Map<u8, Seq<u8>>)>) -> bool {
    forall|i: int| 0 <= i < stages.len() ==> short_strings((#[trigger] stages[i]).1)
}

proof fn lemma_parse_stages(
    before: Seq<u8>,
    stages: Seq<(u8, Map<u8, Seq<u8>>)>,
    after: Seq<u8>,
    m: nat,
    acc: Seq<(u8, Map<u8, Seq<u8>>)>,
)
    requires
        !has_full_stage(stages),
        stages_fit(stages),
    ensures
        ({
            let data = before + stages_bytes(stages) + after;
            parse_stages(data, before.len(), stages.len() + m, acc) == parse_stages(
                data,
                before.len() + stages_bytes(stages).len(),
                m,
                acc + stages,
            )
        }),
    decreases stages.len(),
{
    if stages.len() == 0 {
        assert(acc + stages =~= acc);
    } else {
        let shorter = stages.drop_last();
        let (escape, t) = stages.last();
        let last = stage_bytes(stages.last());
        let data = before + stages_bytes(stages) + after;
        assert(data =~= before + stages_bytes(shorter) + (last + after));
        assert(code_count(stages[stages.len() - 1].1, 256) <= 255);
        assert(short_strings(stages[stages.len() - 1].1));
        assert(!has_full_stage(shorter)) by {
            assert forall|i: int| 0 <= i < shorter.len() implies code_count(
                (#[trigger] shorter[i]).1,
                256,
            ) <= 255 by {
                assert(stages[i] == shorter[i]);
            }
        }
        assert(stages_fit(shorter)) by {
            assert forall|i: int| 0 <= i < shorter.len() implies short_strings(
                (#[trigger] shorter[i]).1,
            ) by {
                assert(stages[i] == shorter[i]);
            }
        }
        lemma_parse_stages(before, shorter, last + after, m + 1, acc);
        let front = before + stages_bytes(shorter) + seq![escape, code_count(t, 256) as u8];
        let at = before.len() + stages_bytes(shorter).len();
        assert(data =~= front + code_entries(t, 256) + after);
        lemma_parse_codes(front, t, 256, after, 0);
        assert(below(t, 256) =~= t);
        assert(data[at as int] == escape);
        assert(data[(at + 1) as int] == code_count(t, 256) as u8);
        assert((acc + shorter).push((escape, t)) =~= acc + stages);
    }
}

proof fn lemma_chunk_meta(chunks: Seq<(u8, u64)>)
    ensures
        chunk_meta_bytes(chunks).len() == 9 * chunks.len(),
        chunk_meta_at(chunk_meta_bytes(chunks), 0, chunks.len()) == chunks,
    decreases chunks.len(),
{
    let bytes = chunk_meta_bytes(chunks);
    if chunks.len() > 0 {
        let shorter = chunks.drop_last();
        lemma_chunk_meta(shorter);
        let last = chunks.last();
        lemma_le_bytes_len(last.1 as nat, 8);
        lemma_pow256_values();
        lemma_le_roundtrip(last.1 as nat, 8);
        let old = chunk_meta_bytes(shorter);
        let got = chunk_meta_at(bytes, 0, chunks.len());
        assert forall|i: int| 0 <= i < chunks.len() implies #[trigger] got[i] == chunks[i] by {
            if i < shorter.len() {
                assert(chunk_meta_at(old, 0, shorter.len())[i] == shorter[i]);
                assert(bytes.subrange(9 * i + 1, 9 * i + 9) =~= old.subrange(9 * i + 1, 9 * i + 9));
            } else {
                assert(bytes.subrange(9 * i + 1, 9 * i + 9) =~= le_bytes(last.1 as nat, 8));
            }
        }
        assert(got =~= chunks);
    } else {
        assert(chunk_meta_at(bytes, 0, 0) =~= chunks);
    }
}

/// A header is read back as what it was made of, whatever payload follows, if its numbers fit
/// their fields.
pub proof fn lemma_header_roundtrip(
    directory: Option<Seq<Entry>>,
    size: nat,
    chunk_size: nat,
    stages: Seq<(u8, Map<u8, Seq<u8>>)>,
    chunks: Seq<(u8, u64)>,
    payload: Seq<u8>,
)
    requires
        archive_header(directory, size, chunk_size, stages, chunks) is Ok,
        size <= u64::MAX,
        chunk_size <= u32::MAX,
        chunks.len() <= u32::MAX,
        stages_fit(stages),
    ensures
        ({
            let header = archive_header(directory, size, chunk_size, stages, chunks)->Ok_0;
            parse_archive(header + payload) == Ok::<(ArchiveInfo, nat), UnpackError>(
                (
                    ArchiveInfo {
                        flags: if directory is Some {
                            FORMAT_FLAG_FOLDER
                        } else {
                            0
                        },
                        size: size as u64,
                        chunk_size: chunk_size as u32,
                        files: match directory {
                            Some(files) => files,
                            None => seq![],
                        },
                        stages,
                        chunks,
                    },
                    header.len(),
                ),
            )
        }),
{
    let header = archive_header(directory, size, chunk_size, stages, chunks)->Ok_0;
    let data = header + payload;
    let flags: u8 = if directory is Some {
        FORMAT_FLAG_FOLDER
    } else {
        0
    };
    let fixed = fixed_header(flags, size, chunks.len(), chunk_size);
    let meta = chunk_meta_bytes(chunks);
    let st = stages_bytes(stages);
    let dir: Seq<u8> = match directory {
        Some(files) => le_bytes(files.len(), 4) + directory_bytes(files),
        None => seq![],
    };
    let count = seq![stages.len() as u8];
    let front = fixed + dir + count;
    let rest = count + st + meta + payload;
    lemma_regroup(fixed, dir, count, st, meta, payload);
    assert(header == fixed + dir + (count + st) + meta);
    lemma_fixed_header(flags, size, chunks.len(), chunk_size, dir + rest);
    lemma_folder_part(directory, size, chunks.len(), chunk_size, dir, rest);
    let no_stages = Seq::<(u8, Map<u8, Seq<u8>>)>::empty();
    lemma_parse_stages(front, stages, meta + payload, 0, no_stages);
    assert(no_stages + stages =~= stages);
    lemma_chunk_meta(chunks);
    lemma_chunk_meta_inside(front + st, chunks, payload);
    lemma_parse_parts(data, (25 + dir.len()) as nat, (front + st).len(), chunks, stages);
}

proof fn lemma_regroup(
    fixed: Seq<u8>,
    dir: Seq<u8>,
    count: Seq<u8>,
    st: Seq<u8>,
    meta: Seq<u8>,
    payload: Seq<u8>,
)
    requires
        count.len() == 1,
    ensures
        ({
            let data = fixed + dir + (count + st) + meta + payload;
            &&& data == fixed + (dir + (count + st + meta + payload))
            &&& data == fixed + dir + count + st + (meta + payload)
            &&& data == fixed + dir + count + st + meta + payload
            &&& data[(fixed.len() + dir.len()) as int] == count[0]
        }),
{
    let data = fixed + dir + (count + st) + meta + payload;
    assert(data =~= fixed + (dir + (count + st + meta + payload)));
    assert(data =~= fixed + dir + count + st + (meta + payload));
    assert(data =~= fixed + dir + count + st + meta + payload);
}

/// Where the parts of a header have been read, the header has been.
proof fn lemma_parse_parts(
    data: Seq<u8>,
    at: nat,
    end: nat,
    chunks: Seq<(u8, u64)>,
    stages: Seq<(u8, Map<u8, Seq<u8>>)>,
)
    requires
        data.len() >= 25,
        data.take(8) == archive_magic(),
        parse_folder(data) is Ok,
        (parse_folder(data)->Ok_0).1 == at,
        at < data.len(),
        parse_stages(data, at + 1, data[at as int] as nat, seq![]) == Ok::<
            (Seq<(u8, Map<u8, Seq<u8>>)>, nat),
            UnpackError,
        >((stages, end)),
        le_value(data.subrange(17, 21)) == chunks.len(),
        end + 9 * chunks.len() <= data.len(),
        chunk_meta_at(data, end, chunks.len()) == chunks,
    ensures
        parse_archive(data) == Ok::<(ArchiveInfo, nat), UnpackError>(
            (
                ArchiveInfo {
                    flags: data[8],
                    size: le_value(data.subrange(9, 17)) as u64,
                    chunk_size: le_value(data.subrange(21, 25)) as u32,
                    files: (parse_folder(data)->Ok_0).0,
                    stages,
                    chunks,
                },
                end + 9 * chunks.len(),
            ),
        ),
{
}

proof fn lemma_fixed_header(flags: u8, size: nat, chunks: nat, chunk_size: nat, rest: Seq<u8>)
    requires
        size <= u64::MAX,
        chunk_size <= u32::MAX,
        chunks <= u32::MAX,
    ensures
        ({
            let data = fixed_header(flags, size, chunks, chunk_size) + rest;
            &&& fixed_header(flags, size, chunks, chunk_size).len() == 25
            &&& data.take(8) == archive_magic()
            &&& data[8] == flags
            &&& le_value(data.subrange(9, 17)) == size
            &&& le_value(data.subrange(17, 21)) == chunks
            &&& le_value(data.subrange(21, 25)) == chunk_size
        }),
{
    let data = fixed_header(flags, size, chunks, chunk_size) + rest;
    lemma_le_bytes_len(size, 8);
    lemma_le_bytes_len(chunks, 4);
    lemma_le_bytes_len(chunk_size, 4);
    lemma_pow256_values();
    lemma_le_roundtrip(size, 8);
    lemma_le_roundtrip(chunks, 4);
    lemma_le_roundtrip(chunk_size, 4);
    assert(data.take(8) =~= archive_magic());
    assert(data.subrange(9, 17) =~= le_bytes(size, 8));
    assert(data.subrange(17, 21) =~= le_bytes(chunks, 4));
    assert(data.subrange(21, 25) =~= le_bytes(chunk_size, 4));
}

proof fn lemma_folder_part(
    directory: Option<Seq<Entry>>,
    size: nat,
    chunks: nat,
    chunk_size: nat,
    dir: Seq<u8>,
    rest: Seq<u8>,
)
    requires
        match directory {
            Some(files) => directory_header(files) == Ok::<Seq<u8>, PackError>(dir),
            None => dir.len() == 0,
        },
        size <= u64::MAX,
        chunk_size <= u32::MAX,
        chunks <= u32::MAX,
    ensures
        ({
            let flags: u8 = if directory is Some {
                FORMAT_FLAG_FOLDER
            } else {
                0
            };
            parse_folder(fixed_header(flags, size, chunks, chunk_size) + (dir + rest)) == Ok::<
                (Seq<Entry>, nat),
                UnpackError,
            >(
                (
                    match directory {
                        Some(files) => files,
                        None => seq![],
                    },
                    25 + dir.len(),
                ),
            )
        }),
{
    let flags: u8 = if directory is Some {
        FORMAT_FLAG_FOLDER
    } else {
        0
    };
    let fixed = fixed_header(flags, size, chunks, chunk_size);
    let data = fixed + (dir + rest);
    lemma_fixed_header(flags, size, chunks, chunk_size, dir + rest);
    assert(1u8 & 1u8 != 0 && 0u8 & 1u8 == 0) by (bit_vector);
    if let Some(files) = directory {
        let none = Seq::<Entry>::empty();
        lemma_le_bytes_len(files.len(), 4);
        lemma_pow256_values();
        lemma_le_roundtrip(files.len(), 4);
        assert(data.subrange(25, 29) =~= le_bytes(files.len(), 4));
        let front = fixed + le_bytes(files.len(), 4);
        assert(data =~= front + directory_bytes(files) + rest);
        lemma_parse_directory(front, files, rest, 0, none);
        assert(none + files =~= files);
    }
}

proof fn lemma_chunk_meta_inside(before: Seq<u8>, chunks: Seq<(u8, u64)>, after: Seq<u8>)
    ensures
        chunk_meta_at(before + chunk_meta_bytes(chunks) + after, before.len(), chunks.len())
            == chunks,
{
    let meta = chunk_meta_bytes(chunks);
    let data = before + meta + after;
    let end = before.len();
    lemma_chunk_meta(chunks);
    let got = chunk_meta_at(data, end, chunks.len());
    assert forall|i: int| 0 <= i < chunks.len() implies #[trigger] got[i] == chunks[i] by {
        assert(chunk_meta_at(meta, 0, chunks.len())[i] == chunks[i]);
        assert(data.subrange(end + 9 * i + 1, end + 9 * i + 9) =~= meta.subrange(
            9 * i + 1,
            9 * i + 9,
        ));
        assert(data[end + 9 * i] == meta[9 * i]);
    }
    assert(got =~= chunks);
}

/// Flags and lengths of coded chunks.
pub open spec fn chunk_list(chunks: Seq<Coded>) -> Seq<(u8, u64)> {
    Seq::new(chunks.len(), |i: int| (chunks[i].flags, chunks[i].data.len() as u64))
}

/// The coded chunks from the `i`-th on, one behind the other.
pub open spec fn chunk_payload(chunks: Seq<Coded>, i: nat) -> Seq<u8>
    decreases chunks.len() - i,
{
    if i >= chunks.len() {
        seq![]
    } else {
        chunks[i as int].data + chunk_payload(chunks, i + 1)
    }
}

/// The chunks from the `i`-th on stand for `parts`.
pub open spec fn chunks_hold(chunks: Seq<Coded>, parts: Seq<Seq<u8>>) -> bool {
    &&& chunks.len() == parts.len()
    &&& forall|i: int|
        0 <= i < chunks.len() ==> chunk_decode(
            (#[trigger] chunks[i]).data,
            chunks[i].flags,
        ) == Ok::<Seq<u8>, ChunkError>(parts[i]) && chunks[i].data.len() <= u64::MAX
}

/// The parts from the `i`-th on, one behind the other.
pub open spec fn join_parts(parts: Seq<Seq<u8>>, i: nat) -> Seq<u8>
    decreases parts.len() - i,
{
    if i >= parts.len() {
        seq![]
    } else {
        parts[i as int] + join_parts(parts, i + 1)
    }
}

proof fn lemma_join_chunks(chunks: Seq<Coded>, parts: Seq<Seq<u8>>, before: Seq<u8>, i: nat)
    requires
        chunks_hold(chunks, parts),
        i <= chunks.len(),
    ensures
        join_chunks(
            before + chunk_payload(chunks, i),
            chunk_list(chunks),
            i,
            before.len(),
        ) == Ok::<Seq<u8>, UnpackError>(join_parts(parts, i)),
    decreases chunks.len() - i,
{
    if i < chunks.len() {
        let c = chunks[i as int];
        let payload = before + chunk_payload(chunks, i);
        let next = before + c.data;
        assert(payload =~= next + chunk_payload(chunks, i + 1));
        lemma_join_chunks(chunks, parts, next, i + 1);
        assert(payload.subrange(before.len() as int, next.len() as int) =~= c.data);
        assert(chunk_list(chunks)[i as int] == (c.flags, c.data.len() as u64));
    }
}

/// An archive holds what it was made of: if the stages, undone, turn the joined parts back into
/// `source`, and each chunk is decoded to its part, then the header followed by the chunks unpacks
/// to `source`.
pub proof fn lemma_archive_roundtrip(
    source: Seq<u8>,
    directory: Option<Seq<Entry>>,
    chunk_size: nat,
    stages: Seq<(u8, Map<u8, Seq<u8>>)>,
    chunks: Seq<Coded>,
    parts: Seq<Seq<u8>>,
)
    requires
        archive_header(directory, source.len(), chunk_size, stages, chunk_list(chunks)) is Ok,
        source.len() <= u64::MAX,
        chunk_size <= u32::MAX,
        chunks.len() <= u32::MAX,
        stages_fit(stages),
        chunks_hold(chunks, parts),
        undo_stages(join_parts(parts, 0), stages, stages.len()) == Ok::<Seq<u8>, UnpackError>(
            source,
        ),
    ensures
        unpack(
            archive_header(directory, source.len(), chunk_size, stages, chunk_list(chunks))->Ok_0
                + chunk_payload(chunks, 0),
        ) == Ok::<Seq<u8>, UnpackError>(source),
        directory matches Some(files) ==> lists(
            archive_header(directory, source.len(), chunk_size, stages, chunk_list(chunks))->Ok_0
                + chunk_payload(chunks, 0),
            files,
        ),
{
    let list = chunk_list(chunks);
    let header = archive_header(directory, source.len(), chunk_size, stages, list)->Ok_0;
    let payload = chunk_payload(chunks, 0);
    lemma_header_roundtrip(directory, source.len(), chunk_size, stages, list, payload);
    assert((header + payload).skip(header.len() as int) =~= payload);
    let info = (parse_archive(header + payload)->Ok_0).0;
    lemma_contents(info, source, chunks, parts);
}

proof fn lemma_contents(
    info: ArchiveInfo,
    source: Seq<u8>,
    chunks: Seq<Coded>,
    parts: Seq<Seq<u8>>,
)
    requires
        info.flags == 0 || info.flags == FORMAT_FLAG_FOLDER,
        info.size == source.len(),
        info.chunks == chunk_list(chunks),
        chunks_hold(chunks, parts),
        undo_stages(join_parts(parts, 0), info.stages, info.stages.len()) == Ok::<
            Seq<u8>,
            UnpackError,
        >(source),
    ensures
        contents(info, chunk_payload(chunks, 0)) == Ok::<Seq<u8>, UnpackError>(source),
{
    let payload = chunk_payload(chunks, 0);
    let none = Seq::<u8>::empty();
    lemma_join_chunks(chunks, parts, none, 0);
    assert(none + payload =~= payload);
    assert(1u8 & 2u8 == 0 && 0u8 & 2u8 == 0) by (bit_vector);
}

/// An archive begins with `DUCKOMP1`, a byte that tells a folder from a file, the size in eight bytes,
/// the number of chunks in four, the size of a chunk in four; each with its lowest byte first.
pub proof fn lemma_header_layout(
    directory: Option<Seq<Entry>>,
    size: nat,
    chunk_size: nat,
    stages: Seq<(u8, Map<u8, Seq<u8>>)>,
    chunks: Seq<(u8, u64)>,
    i: nat,
)
    requires
        archive_header(directory, size, chunk_size, stages, chunks) is Ok,
    ensures
        ({
            let h = archive_header(directory, size, chunk_size, stages, chunks)->Ok_0;
            &&& h.len() >= 26
            &&& h[0] == 0x44 && h[1] == 0x55 && h[2] == 0x43 && h[3] == 0x4b && h[4] == 0x4f && h[5]
                == 0x4d && h[6] == 0x50 && h[7] == 0x31
            &&& directory is None ==> h[8] == 0 && h[25] == stages.len()
            &&& directory is Some ==> h[8] == 1
            &&& i < 8 ==> h[9 + i as int] == (size / pow(256, i) as nat) % 256
            &&& i < 4 ==> h[17 + i as int] == (chunks.len() / pow(256, i) as nat) % 256
            &&& i < 4 ==> h[21 + i as int] == (chunk_size / pow(256, i) as nat) % 256
        }),
{
    let h = archive_header(directory, size, chunk_size, stages, chunks)->Ok_0;
    lemma_le_bytes_len(size, 8);
    lemma_le_bytes_len(chunks.len(), 4);
    lemma_le_bytes_len(chunk_size, 4);
    if i < 8 {
        lemma_le_digits(size, 8, i);
        assert(h[9 + i as int] == le_bytes(size, 8)[i as int]);
    }
    if i < 4 {
        lemma_le_digits(chunks.len(), 4, i);
        lemma_le_digits(chunk_size, 4, i);
        assert(h[17 + i as int] == le_bytes(chunks.len(), 4)[i as int]);
        assert(h[21 + i as int] == le_bytes(chunk_size, 4)[i as int]);
    }
}

/// What there is no room for is refused: more than 255 stages, a dictionary with a code for every byte
/// value, more files than 32 bits can count, or a path that is longer than 16 bits can say.
pub proof fn lemma_header_refuses(
    directory: Option<Seq<Entry>>,
    size: nat,
    chunk_size: nat,
    stages: Seq<(u8, Map<u8, Seq<u8>>)>,
    chunks: Seq<(u8, u64)>,
)
    ensures
        archive_header(directory, size, chunk_size, stages, chunks) is Ok <==> {
            &&& stages.len() <= 255
            &&& forall|i: int|
                0 <= i < stages.len() ==> code_count((#[trigger] stages[i]).1, 256) <= 255
            &&& directory matches Some(files) ==> files.len() <= u32::MAX && forall|i: int|
                0 <= i < files.len() ==> (#[trigger] files[i]).path.len() <= 65535
        },
{
    if has_full_stage(stages) {
        let i = choose|i: int|
            0 <= i < stages.len() && code_count((#[trigger] stages[i]).1, 256) > 255;
        assert(code_count(stages[i].1, 256) > 255);
    }
}

/// The bytes that are no archive: fewer than 25, or with anything but `DUCKOMP1` in front.
pub proof fn lemma_no_archive(data: Seq<u8>)
    ensures
        data.len() < 25 ==> parse_archive(data) is Err,
        data.len() >= 25 && !(data[0] == 0x44 && data[1] == 0x55 && data[2] == 0x43 && data[3]
            == 0x4b && data[4] == 0x4f && data[5] == 0x4d && data[6] == 0x50 && data[7] == 0x31)
            ==> parse_archive(data) is Err,
{
    if data.len() >= 25 && data.take(8) == archive_magic() {
        let m = archive_magic();
        assert(data.take(8)[0] == m[0] && data.take(8)[1] == m[1] && data.take(8)[2] == m[2]
            && data.take(8)[3] == m[3] && data.take(8)[4] == m[4] && data.take(8)[5] == m[5]
            && data.take(8)[6] == m[6] && data.take(8)[7] == m[7]);
    }
}

} // verus!
