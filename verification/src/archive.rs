//! From contents to an archive.

use vstd::prelude::*;

use crate::bytes::copy_of;
use crate::chunk::{
    adaptive_code, bands_seen, chunk_decode, compress_adaptive, lemma_adaptive_roundtrip,
    ChunkError, Coded, CodedChunk, DictGain, EgapGain, EntropyBand,
};
use crate::chunked::{
    coded_levels, count_of, is_run, lemma_chunked_roundtrip, lemma_pieces_joined,
    lemma_run_roundtrip, run_of, Event,
};
use crate::container::{
    archive_header, build_archive_header, chunk_list, chunk_payload, chunks_hold, directory_header,
    directory_view, join_parts, lemma_archive_roundtrip, lists, stage_views, stages_fit, unpack,
    Entry, FileEntry, PackError, Stage, UnpackError,
};
use crate::dict::strings;
use crate::folder::{
    contents_of, entries_of, file_order, file_views, is_permutation, lemma_file_order,
    lemma_files_restored, lemma_sorted_files, lemma_sorted_size, lengths, list_files, listed,
    paths_of, restored_files, sorted_files, total, FolderFile, NamedFile,
};
use crate::paths::{archive_suffix, lemma_restored_path, restored_path};
use crate::sampling::MAX_DATA_LEN;
use crate::segments::joined;
use crate::stages::{lemma_stages_roundtrip, run_compression_stages, run_stages, MAX_STAGES};

verus! {

/// Why contents cannot be made an archive.
#[derive(Clone, Copy, Debug, PartialEq, Eq, Structural)]
pub enum CompressError {
    EmptyFile,
    NoFiles,
    Pack(PackError),
}

/// What is measured on the way: the bands that decide which coders run.
pub struct Bands {
    pub dict: DictGain,
    pub entropy: EntropyBand,
    pub gain: EgapGain,
    pub mid: EntropyBand,
}

/// The dictionary stages' output as one coded chunk.
pub open spec fn single_chunk(source: Seq<u8>, b: Bands) -> Coded {
    adaptive_code(
        run_stages(source, None, MAX_STAGES as nat).1,
        b.dict,
        b.entropy,
        b.gain,
        b.mid,
    )
}

/// An archive: a header, and behind it the coded chunks.
pub open spec fn chunked_archive(
    directory: Option<Seq<Entry>>,
    size: nat,
    chunk_size: nat,
    stages: Seq<(u8, Map<u8, Seq<u8>>)>,
    chunks: Seq<Coded>,
) -> Result<Seq<u8>, PackError> {
    match archive_header(directory, size, chunk_size, stages, chunk_list(chunks)) {
        Ok(header) => Ok(header + chunk_payload(chunks, 0)),
        Err(e) => Err(e),
    }
}

/// What the chunks hold.
pub open spec fn coded_views(chunks: Seq<CodedChunk>) -> Seq<Coded> {
    Seq::new(chunks.len(), |i: int| chunks[i]@)
}

/// Makes an archive of chunks that the dictionary stages and the coders have dealt with.
pub fn pack_chunks(
    directory: &Option<Vec<FileEntry>>,
    original_size: u64,
    chunk_size: usize,
    stages: &[Stage],
    chunks: &[CodedChunk],
) -> (r: Result<Vec<u8>, PackError>)
    ensures
        chunked_archive(
            directory_view(*directory),
            original_size as nat,
            chunk_size as nat,
            stage_views(stages@),
            coded_views(chunks@),
        ) == match r {
            Ok(out) => Ok::<Seq<u8>, PackError>(out@),
            Err(e) => Err(e),
        },
{
    let ghost coded = coded_views(chunks@);
    let mut metas: Vec<(u8, u64)> = Vec::with_capacity(chunks.len());
    let mut i: usize = 0;
    while i < chunks.len()
        invariant
            i <= chunks@.len(),
            coded == coded_views(chunks@),
            metas@ == chunk_list(coded).take(i as int),
        decreases chunks@.len() - i,
    {
        metas.push((chunks[i].flags, chunks[i].data.len() as u64));
        assert(metas@ =~= chunk_list(coded).take(i + 1));
        i = i + 1;
    }
    assert(chunk_list(coded).take(i as int) =~= chunk_list(coded));
    match build_archive_header(directory, original_size, chunk_size, stages, &metas) {
        Err(e) => Err(e),
        Ok(header) => {
            let ghost front = header@;
            let mut out = header;
            let mut k: usize = 0;
            assert(out@ + chunk_payload(coded, 0) =~= front + chunk_payload(coded, 0));
            while k < chunks.len()
                invariant
                    k <= chunks@.len(),
                    coded == coded_views(chunks@),
                    out@ + chunk_payload(coded, k as nat) == front + chunk_payload(coded, 0),
                decreases chunks@.len() - k,
            {
                let ghost now = out@;
                out.extend_from_slice(&chunks[k].data);
                proof {
                    assert(out@ =~= now + coded[k as int].data);
                    assert(out@ + chunk_payload(coded, (k + 1) as nat) =~= now + chunk_payload(
                        coded,
                        k as nat,
                    ));
                }
                k = k + 1;
            }
            assert(out@ + chunk_payload(coded, k as nat) =~= out@);
            Ok(out)
        },
    }
}

proof fn lemma_join_parts(parts: Seq<Seq<u8>>, i: nat)
    requires
        i <= parts.len(),
    ensures
        joined(parts.take(i as int)) + join_parts(parts, i) == joined(parts),
    decreases parts.len() - i,
{
    if i < parts.len() {
        let next = parts.take((i + 1) as int);
        assert(next.drop_last() =~= parts.take(i as int));
        assert(next.last() == parts[i as int]);
        lemma_join_parts(parts, i + 1);
        assert(joined(parts.take(i as int)) + join_parts(parts, i) =~= joined(next) + join_parts(
            parts,
            i + 1,
        ));
    } else {
        assert(parts.take(i as int) =~= parts);
        assert(joined(parts) + join_parts(parts, i) =~= joined(parts));
    }
}

/// An archive of a source in chunks holds that source, however many stages have coded its chunks
/// and whatever was measured on the way: the first level is the source, the last is what the coders
/// were given.
pub proof fn lemma_chunked_archive_roundtrip(
    directory: Option<Seq<Entry>>,
    chunk_size: nat,
    levels: Seq<Seq<Seq<u8>>>,
    stages: Seq<(u8, Map<u8, Seq<u8>>)>,
    chunks: Seq<Coded>,
    bands: Seq<Bands>,
)
    requires
        coded_levels(levels, stages),
        stages_fit(stages),
        are_coded(levels.last(), chunks, bands),
        joined(levels[0]).len() <= u64::MAX,
        chunk_size <= u32::MAX,
        chunks.len() <= u32::MAX,
        chunked_archive(directory, joined(levels[0]).len(), chunk_size, stages, chunks) is Ok,
    ensures
        unpack(
            chunked_archive(
                directory,
                joined(levels[0]).len(),
                chunk_size,
                stages,
                chunks,
            )->Ok_0,
        ) == Ok::<Seq<u8>, UnpackError>(joined(levels[0])),
        directory matches Some(files) ==> lists(
            chunked_archive(
                directory,
                joined(levels[0]).len(),
                chunk_size,
                stages,
                chunks,
            )->Ok_0,
            files,
        ),
{
    let parts = levels.last();
    assert forall|i: int| 0 <= i < chunks.len() implies chunk_decode(
        (#[trigger] chunks[i]).data,
        chunks[i].flags,
    ) == Ok::<Seq<u8>, ChunkError>(parts[i]) && chunks[i].data.len() <= u64::MAX by {
        let b = bands[i];
        lemma_adaptive_roundtrip(parts[i], b.dict, b.entropy, b.gain, b.mid);
        lemma_adaptive_len(parts[i], b);
    }
    assert(chunks_hold(chunks, parts));
    lemma_join_parts(parts, 0);
    assert(parts.take(0) =~= Seq::<Seq<u8>>::empty());
    assert(join_parts(parts, 0) =~= joined(parts));
    lemma_chunked_roundtrip(levels, stages, stages.len());
    lemma_archive_roundtrip(joined(levels[0]), directory, chunk_size, stages, chunks, parts);
}

/// An archive with one chunk.
pub open spec fn archive_of(directory: Option<Seq<Entry>>, source: Seq<u8>, b: Bands) -> Result<
    Seq<u8>,
    PackError,
> {
    let (stages, coded) = run_stages(source, None, MAX_STAGES as nat);
    chunked_archive(directory, source.len(), coded.len(), stages, seq![single_chunk(source, b)])
}

/// The bands are what the measurements can give.
pub open spec fn bands_measured<
    D: Fn(usize, usize) -> DictGain,
    M: Fn(&[u8]) -> EntropyBand,
    G: Fn(usize, usize) -> EgapGain,
>(dict_gain: D, measure: M, gain: G, source: Seq<u8>, b: Bands) -> bool {
    let coded = run_stages(source, None, MAX_STAGES as nat).1;
    &&& call_ensures(dict_gain, (coded.len() as usize, source.len() as usize), b.dict)
    &&& bands_seen(measure, gain, coded, b.dict, b.entropy, b.gain, b.mid)
}

/// An archive holds what it was made of, whatever was measured on the way.
pub proof fn lemma_archive_of_roundtrip(
    directory: Option<Seq<Entry>>,
    source: Seq<u8>,
    b: Bands,
)
    requires
        archive_of(directory, source, b) is Ok,
        source.len() <= u32::MAX,
    ensures
        unpack(archive_of(directory, source, b)->Ok_0) == Ok::<Seq<u8>, UnpackError>(source),
        directory matches Some(files) ==> lists(archive_of(directory, source, b)->Ok_0, files),
{
    let (stages, coded) = run_stages(source, None, MAX_STAGES as nat);
    let chunk = single_chunk(source, b);
    let chunks = seq![chunk];
    let parts = seq![coded];
    lemma_stages_roundtrip(source, None, MAX_STAGES as nat);
    lemma_adaptive_roundtrip(coded, b.dict, b.entropy, b.gain, b.mid);
    lemma_adaptive_len(coded, b);
    reveal_with_fuel(join_parts, 2);
    reveal_with_fuel(chunk_payload, 2);
    assert(join_parts(parts, 0) =~= coded);
    assert(chunk_payload(chunks, 0) =~= chunk.data);
    assert(chunks_hold(chunks, parts));
    lemma_archive_roundtrip(source, directory, coded.len(), stages, chunks, parts);
}

proof fn lemma_adaptive_len(data: Seq<u8>, b: Bands)
    ensures
        adaptive_code(data, b.dict, b.entropy, b.gain, b.mid).data.len() <= data.len(),
{
}

/// Makes an archive of `source`; with a directory it is that of a folder. The dictionary stages
/// run first, then the coders that the measurements ask for.
fn pack_contents<
    D: Fn(usize, usize) -> DictGain,
    M: Fn(&[u8]) -> EntropyBand,
    G: Fn(usize, usize) -> EgapGain,
>(
    directory: &Option<Vec<FileEntry>>,
    source: &[u8],
    dict_gain: D,
    measure: M,
    gain: G,
) -> (r: Result<Vec<u8>, CompressError>)
    requires
        source@.len() <= MAX_DATA_LEN,
        forall|a: usize, b: usize| call_requires(dict_gain, (a, b)),
        forall|s: &[u8]| call_requires(measure, (s,)),
        forall|a: usize, b: usize| call_requires(gain, (a, b)),
    ensures
        exists|b: Bands| #[trigger]
            bands_measured(dict_gain, measure, gain, source@, b) && match r {
                Ok(out) => archive_of(directory_view(*directory), source@, b) == Ok::<
                    Seq<u8>,
                    PackError,
                >(out@),
                Err(e) => match archive_of(directory_view(*directory), source@, b) {
                    Ok(_) => false,
                    Err(p) => e == CompressError::Pack(p),
                },
            },
{
    let (stages, coded) = run_compression_stages(source);
    let coded_len = coded.len();
    let ghost middle = coded@;
    let dict = dict_gain(coded_len, source.len());
    let chunk = compress_adaptive(coded, dict, measure, gain);
    let ghost (entropy, g, mid) = choose|entropy: EntropyBand, g: EgapGain, mid: EntropyBand|
        #[trigger]
        bands_seen(measure, gain, middle, dict, entropy, g, mid) && chunk@ == adaptive_code(
            middle,
            dict,
            entropy,
            g,
            mid,
        );
    let ghost b = Bands { dict, entropy, gain: g, mid };
    assert(bands_measured(dict_gain, measure, gain, source@, b));
    assert(chunk@ == single_chunk(source@, b));
    let mut chunks: Vec<CodedChunk> = Vec::with_capacity(1);
    chunks.push(chunk);
    assert(coded_views(chunks@) =~= seq![single_chunk(source@, b)]);
    match pack_chunks(directory, source.len() as u64, coded_len, &stages, &chunks) {
        Err(e) => Err(CompressError::Pack(e)),
        Ok(out) => Ok(out),
    }
}

/// Makes an archive of the contents of a file. `dict_gain` gives the band of what the dictionary
/// stages gained from a new length and an old one, `measure` the entropy band of some bytes, and
/// `gain` the band of what entropy coding gained.
pub fn compress_file<
    D: Fn(usize, usize) -> DictGain,
    M: Fn(&[u8]) -> EntropyBand,
    G: Fn(usize, usize) -> EgapGain,
>(source: &[u8], dict_gain: D, measure: M, gain: G) -> (r: Result<Vec<u8>, CompressError>)
    requires
        source@.len() <= MAX_DATA_LEN,
        forall|a: usize, b: usize| call_requires(dict_gain, (a, b)),
        forall|s: &[u8]| call_requires(measure, (s,)),
        forall|a: usize, b: usize| call_requires(gain, (a, b)),
    ensures
        source@.len() == 0 <==> r == Err::<Vec<u8>, CompressError>(CompressError::EmptyFile),
        source@.len() > 0 ==> r is Ok,
        r matches Ok(out) ==> exists|b: Bands| #[trigger]
            bands_measured(dict_gain, measure, gain, source@, b) && archive_of(None, source@, b)
                == Ok::<Seq<u8>, PackError>(out@),
        r matches Err(CompressError::Pack(e)) ==> exists|b: Bands| #[trigger]
            bands_measured(dict_gain, measure, gain, source@, b) && archive_of(None, source@, b)
                == Err::<Seq<u8>, PackError>(e),
        r matches Ok(out) ==> source@.len() <= u32::MAX ==> unpack(out@) == Ok::<
            Seq<u8>,
            UnpackError,
        >(source@),
{
    if source.len() == 0 {
        return Err(CompressError::EmptyFile);
    }
    let directory: Option<Vec<FileEntry>> = None;
    let r = pack_contents(&directory, source, dict_gain, measure, gain);
    proof {
        let b = choose|b: Bands| #[trigger]
            bands_measured(dict_gain, measure, gain, source@, b) && match r {
                Ok(out) => archive_of(None, source@, b) == Ok::<Seq<u8>, PackError>(out@),
                Err(e) => match archive_of(None, source@, b) {
                    Ok(_) => false,
                    Err(p) => e == CompressError::Pack(p),
                },
            };
        assert(source@.len() == source.len());
        lemma_stages_roundtrip(source@, None, MAX_STAGES as nat);
        if source@.len() <= u32::MAX {
            lemma_archive_of_roundtrip(None, source@, b);
        }
    }
    r
}

/// The chunks are what the coders make of the parts, whatever was measured on the way. No part is
/// longer than a length of 32 bits can say.
pub open spec fn are_coded(parts: Seq<Seq<u8>>, chunks: Seq<Coded>, bands: Seq<Bands>) -> bool {
    &&& chunks.len() == parts.len()
    &&& bands.len() == parts.len()
    &&& forall|i: int|
        0 <= i < chunks.len() ==> (#[trigger] chunks[i]) == adaptive_code(
            parts[i],
            bands[i].dict,
            bands[i].entropy,
            bands[i].gain,
            bands[i].mid,
        ) && parts[i].len() <= u32::MAX
}

/// An archive that was made chunk by chunk, behind a run of the dictionary stages.
pub open spec fn made_in_chunks(
    directory: Option<Seq<Entry>>,
    source: Seq<u8>,
    chunk_size: nat,
    events: Seq<Event>,
    chunks: Seq<Coded>,
    bands: Seq<Bands>,
    archive: Seq<u8>,
) -> bool {
    let run = run_of(source, chunk_size, events);
    &&& is_run(source, chunk_size, events)
    &&& are_coded(run.levels.last(), chunks, bands)
    &&& chunked_archive(directory, source.len(), chunk_size, run.stages, chunks) == Ok::<
        Seq<u8>,
        PackError,
    >(archive)
}

/// An archive of `source`, made in memory where it is no longer than a chunk may be, else chunk by
/// chunk.
pub open spec fn is_archive(
    directory: Option<Seq<Entry>>,
    source: Seq<u8>,
    chunk_size: nat,
    archive: Seq<u8>,
) -> bool {
    if source.len() <= chunk_size {
        exists|b: Bands| #[trigger]
            archive_of(directory, source, b) == Ok::<Seq<u8>, PackError>(archive)
    } else {
        exists|events: Seq<Event>, chunks: Seq<Coded>, bands: Seq<Bands>| #[trigger]
            made_in_chunks(directory, source, chunk_size, events, chunks, bands, archive)
    }
}

/// However an archive was made, it holds its source and its directory.
pub proof fn lemma_archive_holds(
    directory: Option<Seq<Entry>>,
    source: Seq<u8>,
    chunk_size: nat,
    archive: Seq<u8>,
)
    requires
        is_archive(directory, source, chunk_size, archive),
        0 < chunk_size <= u32::MAX,
        source.len() <= u64::MAX,
        count_of(source.len(), chunk_size) <= u32::MAX,
    ensures
        unpack(archive) == Ok::<Seq<u8>, UnpackError>(source),
        directory matches Some(files) ==> lists(archive, files),
{
    if source.len() <= chunk_size {
        let b = choose|b: Bands| #[trigger]
            archive_of(directory, source, b) == Ok::<Seq<u8>, PackError>(archive);
        lemma_archive_of_roundtrip(directory, source, b);
    } else {
        let (events, chunks, bands) = choose|
            events: Seq<Event>,
            chunks: Seq<Coded>,
            bands: Seq<Bands>,
        | #[trigger]
            made_in_chunks(directory, source, chunk_size, events, chunks, bands, archive);
        let run = run_of(source, chunk_size, events);
        lemma_run_roundtrip(source, chunk_size, events);
        lemma_pieces_joined(source, chunk_size);
        lemma_chunked_archive_roundtrip(
            directory,
            chunk_size,
            run.levels,
            run.stages,
            chunks,
            bands,
        );
    }
}

/// An archive of a file holds its contents, and its name with the archive ending is restored to
/// the file's own.
pub proof fn lemma_file_restored(
    name: Seq<u8>,
    source: Seq<u8>,
    chunk_size: nat,
    archive: Seq<u8>,
)
    requires
        is_archive(None, source, chunk_size, archive),
        0 < chunk_size <= u32::MAX,
        source.len() <= u64::MAX,
        count_of(source.len(), chunk_size) <= u32::MAX,
    ensures
        unpack(archive) == Ok::<Seq<u8>, UnpackError>(source),
        restored_path(name + archive_suffix()) == name,
{
    lemma_archive_holds(None, source, chunk_size, archive);
    lemma_restored_path(name);
}

/// Behind a run of the stages, chunks that were coded can be packed: for a file always, for a folder
/// where its directory can be written.
pub proof fn lemma_chunks_pack(
    directory: Option<Seq<Entry>>,
    source: Seq<u8>,
    chunk_size: nat,
    events: Seq<Event>,
    chunks: Seq<Coded>,
)
    requires
        chunk_size > 0,
        is_run(source, chunk_size, events),
    ensures
        chunked_archive(
            directory,
            source.len(),
            chunk_size,
            run_of(source, chunk_size, events).stages,
            chunks,
        ) is Ok <==> (directory matches Some(files) ==> directory_header(files) is Ok),
{
    lemma_run_roundtrip(source, chunk_size, events);
}

/// The archive of a folder's files: they are listed by their paths in order, and their contents
/// stand one behind the other in the same order.
pub open spec fn folder_archive(files: Seq<NamedFile>, b: Bands) -> Result<Seq<u8>, PackError> {
    let sorted = sorted_files(files);
    archive_of(Some(entries_of(sorted)), joined(contents_of(sorted)), b)
}

/// An archive of a folder gives every file back under its path, whatever was measured on the way.
pub proof fn lemma_folder_roundtrip(files: Seq<NamedFile>, b: Bands)
    requires
        files.len() <= usize::MAX,
        folder_archive(files, b) is Ok,
        total(lengths(files)) <= u32::MAX,
    ensures
        restored_files(folder_archive(files, b)->Ok_0) == Ok::<Seq<NamedFile>, UnpackError>(
            sorted_files(files),
        ),
        forall|j: int| 0 <= j < files.len() ==> sorted_files(files).contains(#[trigger] files[j]),
        forall|i: int|
            0 <= i < files.len() ==> files.contains(#[trigger] sorted_files(files)[i]),
        sorted_files(files).len() == files.len(),
{
    let sorted = sorted_files(files);
    lemma_sorted_size(files);
    lemma_sorted_files(files);
    lemma_archive_of_roundtrip(Some(entries_of(sorted)), joined(contents_of(sorted)), b);
    lemma_files_restored(sorted, folder_archive(files, b)->Ok_0);
}

/// An archive of a folder, made in memory or chunk by chunk, gives every file back under its path,
/// and nothing else.
pub proof fn lemma_folder_restored(files: Seq<NamedFile>, chunk_size: nat, archive: Seq<u8>)
    requires
        files.len() <= usize::MAX,
        is_archive(
            Some(entries_of(sorted_files(files))),
            joined(contents_of(sorted_files(files))),
            chunk_size,
            archive,
        ),
        0 < chunk_size <= u32::MAX,
        total(lengths(files)) <= u64::MAX,
        count_of(total(lengths(files)), chunk_size) <= u32::MAX,
    ensures
        restored_files(archive) == Ok::<Seq<NamedFile>, UnpackError>(sorted_files(files)),
        forall|j: int| 0 <= j < files.len() ==> sorted_files(files).contains(#[trigger] files[j]),
        forall|i: int|
            0 <= i < files.len() ==> files.contains(#[trigger] sorted_files(files)[i]),
        sorted_files(files).len() == files.len(),
{
    let sorted = sorted_files(files);
    lemma_sorted_size(files);
    lemma_sorted_files(files);
    lemma_archive_holds(
        Some(entries_of(sorted)),
        joined(contents_of(sorted)),
        chunk_size,
        archive,
    );
    lemma_files_restored(sorted, archive);
}

/// The contents of the files in the order of `order`, one behind the other.
fn join_contents(files: &[FolderFile], order: &[usize]) -> (out: Vec<u8>)
    requires
        order@ == file_order(paths_of(file_views(files@))),
    ensures
        out@ == joined(contents_of(sorted_files(file_views(files@)))),
{
    let ghost views = file_views(files@);
    let ghost parts = contents_of(sorted_files(views));
    let mut out: Vec<u8> = Vec::new();
    let mut k: usize = 0;
    proof {
        assert(paths_of(views).len() == files.len());
        lemma_file_order(paths_of(views));
        assert(parts.take(0) =~= Seq::<Seq<u8>>::empty());
    }
    while k < order.len()
        invariant
            k <= order@.len(),
            views == file_views(files@),
            order@ == file_order(paths_of(views)),
            is_permutation(order@, files@.len()),
            parts == contents_of(sorted_files(views)),
            out@ == joined(parts.take(k as int)),
        decreases order@.len() - k,
    {
        let i = order[k];
        out.extend_from_slice(&files[i].contents);
        proof {
            let next = parts.take(k + 1);
            assert(next.drop_last() =~= parts.take(k as int));
            assert(next.last() == files@[i as int].contents@);
        }
        k += 1;
    }
    assert(parts.take(k as int) =~= parts);
    out
}

/// Makes an archive of the files of a folder: a directory of them by their paths in order, and
/// their contents, one behind the other in the same order.
pub fn compress_folder<
    D: Fn(usize, usize) -> DictGain,
    M: Fn(&[u8]) -> EntropyBand,
    G: Fn(usize, usize) -> EgapGain,
>(files: &[FolderFile], dict_gain: D, measure: M, gain: G) -> (r: Result<Vec<u8>, CompressError>)
    requires
        total(lengths(file_views(files@))) <= MAX_DATA_LEN,
        forall|a: usize, b: usize| call_requires(dict_gain, (a, b)),
        forall|s: &[u8]| call_requires(measure, (s,)),
        forall|a: usize, b: usize| call_requires(gain, (a, b)),
    ensures
        files@.len() == 0 <==> r == Err::<Vec<u8>, CompressError>(CompressError::NoFiles),
        files@.len() > 0 ==> match directory_header(entries_of(sorted_files(file_views(files@)))) {
            Ok(_) => r is Ok,
            Err(e) => r == Err::<Vec<u8>, CompressError>(CompressError::Pack(e)),
        },
        r matches Ok(out) ==> exists|b: Bands| #[trigger]
            bands_measured(
                dict_gain,
                measure,
                gain,
                joined(contents_of(sorted_files(file_views(files@)))),
                b,
            ) && folder_archive(file_views(files@), b) == Ok::<Seq<u8>, PackError>(out@),
        r matches Err(CompressError::Pack(e)) ==> exists|b: Bands| #[trigger]
            bands_measured(
                dict_gain,
                measure,
                gain,
                joined(contents_of(sorted_files(file_views(files@)))),
                b,
            ) && folder_archive(file_views(files@), b) == Err::<Seq<u8>, PackError>(e),
        r matches Ok(out) ==> total(lengths(file_views(files@))) <= u32::MAX ==> restored_files(
            out@,
        ) == Ok::<Seq<NamedFile>, UnpackError>(sorted_files(file_views(files@))),
{
    if files.len() == 0 {
        return Err(CompressError::NoFiles);
    }
    let ghost views = file_views(files@);
    let ghost sorted = sorted_files(views);
    let mut paths: Vec<Vec<u8>> = Vec::with_capacity(files.len());
    let mut sizes: Vec<u64> = Vec::with_capacity(files.len());
    let mut k: usize = 0;
    while k < files.len()
        invariant
            k <= files@.len(),
            views == file_views(files@),
            strings(paths@) =~= paths_of(views).take(k as int),
            sizes@.len() == k,
            forall|i: int| 0 <= i < k ==> sizes@[i] == files@[i].contents@.len(),
        decreases files@.len() - k,
    {
        let ghost before = paths@;
        let path = copy_of(&files[k].path);
        let ghost p = path@;
        paths.push(path);
        sizes.push(files[k].contents.len() as u64);
        assert(strings(paths@) =~= strings(before).push(p));
        k += 1;
    }
    assert(paths_of(views).take(k as int) =~= paths_of(views));
    assert(strings(paths@).len() == paths@.len());
    let (order, list) = list_files(&paths, &sizes);
    let source = join_contents(files, &order);
    proof {
        lemma_file_order(paths_of(views));
        lemma_sorted_size(views);
        let entered = listed(paths_of(views), sizes@);
        assert forall|i: int| 0 <= i < files@.len() implies entered[i] == #[trigger] entries_of(
            sorted,
        )[i] by {
            assert(order@[i] < files@.len());
        }
        assert(entered =~= entries_of(sorted));
    }
    let directory = Some(list);
    let r = pack_contents(&directory, &source, dict_gain, measure, gain);
    proof {
        let b = choose|b: Bands| #[trigger]
            bands_measured(dict_gain, measure, gain, source@, b) && match r {
                Ok(out) => folder_archive(views, b) == Ok::<Seq<u8>, PackError>(out@),
                Err(e) => match folder_archive(views, b) {
                    Ok(_) => false,
                    Err(p) => e == CompressError::Pack(p),
                },
            };
        assert(source@.len() == source.len());
        lemma_stages_roundtrip(source@, None, MAX_STAGES as nat);
        if source@.len() <= u32::MAX && r is Ok {
            lemma_folder_roundtrip(views, b);
        }
    }
    r
}

} // verus!
