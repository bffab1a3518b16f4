//! What happens to a chunk behind the dictionary stages: which coders run, in which order, and how
//! the flags of the chunk undo them.

use vstd::prelude::*;
use vstd::string::*;

use crate::bytes::{copy_of, reversed};
use crate::deentropy::{
    chosen_transform, deentropy_transform, inverse_deentropy_transform, lemma_meta_roundtrip,
    lemma_transform_roundtrip, measured, measures, meta_bytes, no_transform, parse_meta, restored,
    transformed, DeentropyMeta, DeentropyMode, MetaError, Transform,
};
use crate::egap::{
    egap_block, egap_decode, entropy_decode, entropy_encode, lemma_egap_roundtrip, EgapError,
};
use crate::lz77::{
    distinct_bytes, lemma_block_roundtrip, lz77_compress, lz77_decompress, uses_all_bytes,
};
use crate::lz77_model::{compressed_block, decode_single, LzError};

verus! {

pub const CHUNK_FLAG_EGAP: u8 = 0x01;
pub const CHUNK_FLAG_LZ77: u8 = 0x02;
pub const CHUNK_FLAG_REVERSED: u8 = 0x04;
pub const CHUNK_FLAG_DEENTROPY: u8 = 0x08;
pub const CHUNK_FLAG_POST_ENTROPY: u8 = 0x10;

/// So many bytes are tried in both directions.
pub const REVERSE_SAMPLE_SIZE: usize = 131072;

/// Where a chunk's order-0 entropy lies, in bits per byte.
#[derive(Clone, Copy, Debug, PartialEq, Eq, Structural)]
pub enum EntropyBand {
    /// At most 6.5.
    Low,
    /// Above 6.5 and below 7.0.
    Medium,
    /// At least 7.0 and below 7.5.
    High,
    /// At least 7.5 and at most 7.9.
    Random,
    /// Above 7.9.
    Saturated,
}

impl EntropyBand {
    /// At least 7.0.
    pub open spec fn is_high(self) -> bool {
        self == EntropyBand::High || self.is_random()
    }

    /// At least 7.5.
    pub open spec fn is_random(self) -> bool {
        self == EntropyBand::Random || self == EntropyBand::Saturated
    }
}

/// By how much the dictionary stages have made a chunk smaller, in percent.
#[derive(Clone, Copy, Debug, PartialEq, Eq, Structural)]
pub enum DictGain {
    /// At least 50.
    Half,
    /// At least 20 and below 50.
    High,
    /// At least 5 and below 20.
    Medium,
    /// Below 5.
    Small,
}

/// By how much entropy coding has made a chunk smaller, in percent.
#[derive(Clone, Copy, Debug, PartialEq, Eq, Structural)]
pub enum EgapGain {
    /// Below 1.
    Flat,
    /// At least 1 and below 5.
    Fair,
    /// At least 5.
    Good,
}

/// Which coders are to run on a chunk.
#[derive(Clone, Copy, Debug, PartialEq, Eq, Structural)]
pub struct StagePlan {
    pub run_egap: bool,
    pub run_lz77: bool,
}

/// Nothing more where the dictionary halved the chunk or the chunk looks random; where it hardly
/// helped, only back-references; else entropy coding, with back-references below 7 bits per byte.
pub open spec fn stage_plan(dict: DictGain, entropy: EntropyBand) -> StagePlan {
    if dict == DictGain::Half || entropy.is_random() {
        StagePlan { run_egap: false, run_lz77: false }
    } else if dict == DictGain::Small {
        StagePlan { run_egap: false, run_lz77: true }
    } else {
        StagePlan { run_egap: true, run_lz77: !entropy.is_high() }
    }
}

/// Decides which coders are to run.
pub fn plan_stages(dict: DictGain, entropy: EntropyBand) -> (plan: StagePlan)
    ensures
        plan == stage_plan(dict, entropy),
{
    let random = match entropy {
        EntropyBand::Random => true,
        EntropyBand::Saturated => true,
        _ => false,
    };
    if dict == DictGain::Half || random {
        StagePlan { run_egap: false, run_lz77: false }
    } else if dict == DictGain::Small {
        StagePlan { run_egap: false, run_lz77: true }
    } else {
        StagePlan { run_egap: true, run_lz77: entropy != EntropyBand::High }
    }
}

/// A coded chunk and the flags that say how it was coded.
pub struct CodedChunk {
    pub data: Vec<u8>,
    pub flags: u8,
}

/// What a `CodedChunk` holds.
pub struct Coded {
    pub data: Seq<u8>,
    pub flags: u8,
}

impl View for CodedChunk {
    type V = Coded;

    open spec fn view(&self) -> Coded {
        Coded { data: self.data@, flags: self.flags }
    }
}

/// Entropy codes what is there if asked to and if that makes it shorter, and sets `flag`.
pub open spec fn egap_step(c: Coded, run: bool, flag: u8) -> Coded {
    if run && egap_block(c.data).len() < c.data.len() {
        Coded { data: egap_block(c.data), flags: c.flags | flag }
    } else {
        c
    }
}

/// Compresses with back-references if asked to and if that makes it shorter.
pub open spec fn lz77_step(c: Coded, run: bool) -> Coded {
    if run && compressed_block(c.data).len() < c.data.len() {
        Coded { data: compressed_block(c.data), flags: c.flags | CHUNK_FLAG_LZ77 }
    } else {
        c
    }
}

/// The chunk behind the first entropy coding.
pub open spec fn after_egap(data: Seq<u8>, plan: StagePlan) -> Coded {
    egap_step(Coded { data, flags: 0 }, plan.run_egap, CHUNK_FLAG_EGAP)
}

/// Whether back-references are still wanted behind the first entropy coding: not where it ran
/// with hardly a gain.
pub open spec fn still_lz77(plan: StagePlan, coded: bool, gain: EgapGain) -> bool {
    plan.run_lz77 && !(coded && gain == EgapGain::Flat)
}

/// The coded chunk, given the bands of the chunk, of the gain of the first coding, and of the
/// data behind it.
pub open spec fn adaptive_code(
    data: Seq<u8>,
    dict: DictGain,
    entropy: EntropyBand,
    gain: EgapGain,
    mid_entropy: EntropyBand,
) -> Coded {
    let plan = stage_plan(dict, entropy);
    let first = after_egap(data, plan);
    let coded = first.flags != 0;
    let second = lz77_step(first, still_lz77(plan, coded, gain) && !mid_entropy.is_random());
    egap_step(second, true, CHUNK_FLAG_POST_ENTROPY)
}

fn egap_stage(c: CodedChunk, run: bool, flag: u8) -> (r: CodedChunk)
    ensures
        r@ == egap_step(c@, run, flag),
{
    if run {
        let coded = entropy_encode(&c.data);
        if coded.len() < c.data.len() {
            return CodedChunk { data: coded, flags: c.flags | flag };
        }
    }
    c
}

fn lz77_stage(c: CodedChunk, run: bool) -> (r: CodedChunk)
    ensures
        r@ == lz77_step(c@, run),
{
    if run {
        let coded = lz77_compress(&c.data);
        if coded.len() < c.data.len() {
            return CodedChunk { data: coded, flags: c.flags | CHUNK_FLAG_LZ77 };
        }
    }
    c
}

/// `band` is one that `measure` can give for the bytes `s`.
pub open spec fn measures_band<M: Fn(&[u8]) -> EntropyBand>(
    measure: M,
    s: Seq<u8>,
    band: EntropyBand,
) -> bool {
    exists|slice: &[u8]| slice@ == s && #[trigger] call_ensures(measure, (slice,), band)
}

/// The bands are what the measurements can give: of the chunk, of what the first coding gained
/// where it ran and back-references are planned, and of the data behind it where they still are.
pub open spec fn bands_seen<M: Fn(&[u8]) -> EntropyBand, G: Fn(usize, usize) -> EgapGain>(
    measure: M,
    gain: G,
    data: Seq<u8>,
    dict: DictGain,
    entropy: EntropyBand,
    g: EgapGain,
    mid: EntropyBand,
) -> bool {
    let plan = stage_plan(dict, entropy);
    let first = after_egap(data, plan);
    let coded = first.flags != 0;
    &&& measures_band(measure, data, entropy)
    &&& coded && plan.run_lz77 ==> call_ensures(
        gain,
        (first.data.len() as usize, data.len() as usize),
        g,
    )
    &&& still_lz77(plan, coded, g) ==> measures_band(measure, first.data, mid)
}

/// Codes a chunk behind the dictionary stages. `dict` says what those gained, `measure` gives the
/// entropy band of some bytes, and `gain` that of a new length and an old one.
pub fn compress_adaptive<M: Fn(&[u8]) -> EntropyBand, G: Fn(usize, usize) -> EgapGain>(
    data: Vec<u8>,
    dict: DictGain,
    measure: M,
    gain: G,
) -> (r: CodedChunk)
    requires
        forall|s: &[u8]| call_requires(measure, (s,)),
        forall|a: usize, b: usize| call_requires(gain, (a, b)),
    ensures
        exists|entropy: EntropyBand, g: EgapGain, mid: EntropyBand| #[trigger]
            bands_seen(measure, gain, data@, dict, entropy, g, mid) && r@ == adaptive_code(
                data@,
                dict,
                entropy,
                g,
                mid,
            ),
{
    let entropy = measure(data.as_slice());
    let plan = plan_stages(dict, entropy);
    let before = data.len();
    let ghost source = data@;
    let first = egap_stage(CodedChunk { data, flags: 0 }, plan.run_egap, CHUNK_FLAG_EGAP);
    proof {
        lemma_flag_nonzero();
    }
    let coded = first.flags != 0;
    let mut run_lz77 = plan.run_lz77;
    let mut g = EgapGain::Fair;
    let mut mid = EntropyBand::Low;
    if run_lz77 && coded {
        g = gain(first.data.len(), before);
        if g == EgapGain::Flat {
            run_lz77 = false;
        }
    }
    if run_lz77 {
        mid = measure(first.data.as_slice());
        run_lz77 = match mid {
            EntropyBand::Random => false,
            EntropyBand::Saturated => false,
            _ => true,
        };
    }
    assert(first@ == after_egap(source, plan));
    let second = lz77_stage(first, run_lz77);
    let last = egap_stage(second, true, CHUNK_FLAG_POST_ENTROPY);
    proof {
        assert(bands_seen(measure, gain, source, dict, entropy, g, mid));
        assert(last@ == adaptive_code(source, dict, entropy, g, mid));
    }
    last
}

proof fn lemma_flag_nonzero()
    ensures
        0u8 | CHUNK_FLAG_EGAP != 0,
{
    assert(0u8 | 1u8 != 0) by (bit_vector);
}

/// The first entropy coding of a chunk: it is asked for where the dictionary saved from 5 to 50
/// percent and the chunk has less than 7.5 bits per byte, kept wherever it is shorter by any
/// amount, and told by its flag.
pub proof fn lemma_first_coding_kept(
    data: Seq<u8>,
    dict: DictGain,
    entropy: EntropyBand,
    gain: EgapGain,
    mid: EntropyBand,
)
    ensures
        ({
            let r = adaptive_code(data, dict, entropy, gain, mid);
            let wanted = (dict == DictGain::High || dict == DictGain::Medium) && (entropy
                == EntropyBand::Low || entropy == EntropyBand::Medium || entropy
                == EntropyBand::High);
            &&& r.flags & 0x01 != 0 <==> wanted && egap_block(data).len() < data.len()
            &&& wanted ==> r.data.len() <= egap_block(data).len()
        }),
{
    lemma_flags();
}

/// The back-references of a chunk: where they are asked for and make what there is shorter by any
/// amount, they are kept, the flag says so, and the coded chunk is no longer than they are.
pub proof fn lemma_back_references_kept(
    data: Seq<u8>,
    dict: DictGain,
    entropy: EntropyBand,
    gain: EgapGain,
    mid: EntropyBand,
    x: Seq<u8>,
)
    requires
        x == if (dict == DictGain::High || dict == DictGain::Medium) && entropy
            != EntropyBand::Random && entropy != EntropyBand::Saturated && egap_block(data).len()
            < data.len() {
            egap_block(data)
        } else {
            data
        },
    ensures
        ({
            let r = adaptive_code(data, dict, entropy, gain, mid);
            let planned = (dict == DictGain::Small && (entropy == EntropyBand::Low || entropy
                == EntropyBand::Medium || entropy == EntropyBand::High)) || ((dict
                == DictGain::High || dict == DictGain::Medium) && (entropy == EntropyBand::Low
                || entropy == EntropyBand::Medium));
            let idle = x.len() < data.len() && gain == EgapGain::Flat;
            let random = mid == EntropyBand::Random || mid == EntropyBand::Saturated;
            let tried = planned && !idle && !random;
            &&& r.flags & 0x02 != 0 <==> tried && compressed_block(x).len() < x.len()
            &&& tried ==> r.data.len() <= compressed_block(x).len()
            &&& r.data.len() <= x.len()
        }),
{
    lemma_flags();
    lemma_flag_nonzero();
}

/// A coded chunk is never longer than the chunk, nor than the entropy coding of what it was made of,
/// nor than any coding that was tried; without a flag it is the chunk itself, and no coder but the
/// three leaves a flag.
pub proof fn lemma_coded_is_shortest(
    data: Seq<u8>,
    dict: DictGain,
    entropy: EntropyBand,
    gain: EgapGain,
    mid: EntropyBand,
)
    ensures
        ({
            let r = adaptive_code(data, dict, entropy, gain, mid);
            let first = if r.flags & 0x01 != 0 {
                egap_block(data)
            } else {
                data
            };
            let second = if r.flags & 0x02 != 0 {
                compressed_block(first)
            } else {
                first
            };
            &&& r.data.len() <= data.len()
            &&& r.data.len() <= second.len() <= first.len() <= data.len()
            &&& r.data.len() <= egap_block(second).len()
            &&& r.flags & 0x10 != 0 <==> egap_block(second).len() < second.len()
            &&& r.data == if r.flags & 0x10 != 0 {
                egap_block(second)
            } else {
                second
            }
            &&& r.flags == 0 ==> r.data == data
            &&& r.flags & 0xec == 0
        }),
{
    lemma_flags();
    lemma_flag_nonzero();
    lemma_other_flags();
}

proof fn lemma_other_flags()
    ensures
        0u8 & 0xec == 0,
        forall|f: u8| #![trigger f | CHUNK_FLAG_EGAP] (f | CHUNK_FLAG_EGAP) & 0xec == f & 0xec,
        forall|f: u8| #![trigger f | CHUNK_FLAG_LZ77] (f | CHUNK_FLAG_LZ77) & 0xec == f & 0xec,
        forall|f: u8| #![trigger f | CHUNK_FLAG_POST_ENTROPY]
            (f | CHUNK_FLAG_POST_ENTROPY) & 0xec == f & 0xec,
{
    assert(0u8 & 0xec == 0) by (bit_vector);
    assert forall|f: u8| #![trigger f | 0x01u8] (f | 0x01u8) & 0xec == f & 0xec by {
        assert((f | 0x01u8) & 0xec == f & 0xec) by (bit_vector);
    }
    assert forall|f: u8| #![trigger f | 0x02u8] (f | 0x02u8) & 0xec == f & 0xec by {
        assert((f | 0x02u8) & 0xec == f & 0xec) by (bit_vector);
    }
    assert forall|f: u8| #![trigger f | 0x10u8] (f | 0x10u8) & 0xec == f & 0xec by {
        assert((f | 0x10u8) & 0xec == f & 0xec) by (bit_vector);
    }
}

/// What is measured of a chunk: the entropy of the chunk itself; where its first coding is shorter,
/// and back-references are planned, the gain from its length to that of the chunk; and, where the
/// gain is one percent or more, the entropy of what the back-references are given.
pub proof fn lemma_bands_measured<M: Fn(&[u8]) -> EntropyBand, G: Fn(usize, usize) -> EgapGain>(
    measure: M,
    gain: G,
    data: Seq<u8>,
    dict: DictGain,
    entropy: EntropyBand,
    g: EgapGain,
    mid: EntropyBand,
)
    requires
        bands_seen(measure, gain, data, dict, entropy, g, mid),
    ensures
        exists|s: &[u8]| s@ == data && #[trigger] call_ensures(measure, (s,), entropy),
        (dict == DictGain::High || dict == DictGain::Medium) && (entropy == EntropyBand::Low
            || entropy == EntropyBand::Medium) && egap_block(data).len() < data.len() ==> {
            &&& call_ensures(gain, (egap_block(data).len() as usize, data.len() as usize), g)
            &&& g != EgapGain::Flat ==> exists|s: &[u8]|
                s@ == egap_block(data) && #[trigger] call_ensures(measure, (s,), mid)
        },
        (dict == DictGain::Small && (entropy == EntropyBand::Low || entropy == EntropyBand::Medium
            || entropy == EntropyBand::High)) || ((dict == DictGain::High || dict
            == DictGain::Medium) && (entropy == EntropyBand::Low || entropy == EntropyBand::Medium)
            && egap_block(data).len() >= data.len()) ==> exists|s: &[u8]|
            s@ == data && #[trigger] call_ensures(measure, (s,), mid),
{
    lemma_flag_nonzero();
}

/// Whether the transform in front of the entropy coder is tried, and with it the coder itself:
/// not on chunks above 7.9 bits per byte, nor where all byte values occur.
pub open spec fn early_exit(data: Seq<u8>, entropy: EntropyBand) -> bool {
    entropy == EntropyBand::Saturated || uses_all_bytes(data)
}

/// A chunk coded with the transform `t` in front of the entropy coder; the transform's
/// description comes first.
pub open spec fn transformed_code(data: Seq<u8>, t: Transform) -> Coded {
    let used = t.mode != DeentropyMode::Identity;
    let input = if used {
        transformed(data, t)
    } else {
        data
    };
    let flags: u8 = if used {
        CHUNK_FLAG_DEENTROPY
    } else {
        0
    };
    let c = egap_step(Coded { data: input, flags }, true, CHUNK_FLAG_EGAP);
    if used {
        Coded { data: meta_bytes(t) + c.data, flags: c.flags }
    } else {
        c
    }
}

/// Codes a chunk with the transform that pays most by the estimate `cost` and the entropy coder
/// behind it. `entropy` is the chunk's entropy band.
pub fn compress_adaptive_chunk_data<F: Fn(&[u8]) -> usize>(
    dict_data: &[u8],
    entropy: EntropyBand,
    cost: F,
) -> (r: CodedChunk)
    requires
        forall|s: &[u8]| call_requires(cost, (s,)),
    ensures
        early_exit(dict_data@, entropy) ==> r@ == (Coded { data: dict_data@, flags: 0 }),
        !early_exit(dict_data@, entropy) && (entropy != EntropyBand::Low || dict_data@.len() < 64)
            ==> r@ == transformed_code(dict_data@, no_transform()),
        !early_exit(dict_data@, entropy) && entropy == EntropyBand::Low && dict_data@.len() >= 64
            ==> exists|baseline: usize, costs: Seq<usize>|
            #![trigger chosen_transform(dict_data@, baseline, costs)]
            measures(cost, dict_data@, baseline) && measured(cost, dict_data@, costs) && r@
                == transformed_code(dict_data@, chosen_transform(dict_data@, baseline, costs)),
{
    let distinct = distinct_bytes(dict_data);
    if entropy == EntropyBand::Saturated || distinct == 256 {
        return CodedChunk { data: copy_of(dict_data), flags: 0 };
    }
    let (input, meta) = if entropy == EntropyBand::Low {
        deentropy_transform(dict_data, cost)
    } else {
        (copy_of(dict_data), DeentropyMeta::none())
    };
    let used = meta.mode != DeentropyMode::Identity;
    let flags: u8 = if used {
        CHUNK_FLAG_DEENTROPY
    } else {
        0
    };
    let ghost t = meta@;
    assert(input@ == transformed(dict_data@, t));
    let c = egap_stage(CodedChunk { data: input, flags }, true, CHUNK_FLAG_EGAP);
    if used {
        let mut combined = meta.serialize();
        combined.extend_from_slice(&c.data);
        assert(combined@ =~= meta_bytes(t) + c.data@);
        let r = CodedChunk { data: combined, flags: c.flags };
        assert(r@ == transformed_code(dict_data@, t));
        r
    } else {
        assert(c@ == transformed_code(dict_data@, t));
        assert(transformed_code(dict_data@, t) == transformed_code(dict_data@, no_transform()));
        c
    }
}

/// Why a chunk cannot be decoded.
#[derive(Clone, Copy, Debug, PartialEq, Eq, Structural)]
pub enum ChunkError {
    Egap(EgapError),
    Lz77(LzError),
    Meta(MetaError),
}

/// The chunk in front of the second entropy coding.
pub open spec fn undo_post(data: Seq<u8>, flags: u8) -> Result<Seq<u8>, ChunkError> {
    if flags & CHUNK_FLAG_POST_ENTROPY != 0 {
        match egap_decode(data) {
            Ok(d) => Ok(d),
            Err(e) => Err(ChunkError::Egap(e)),
        }
    } else {
        Ok(data)
    }
}

/// The chunk in front of the back-references.
pub open spec fn undo_lz77(data: Seq<u8>, flags: u8) -> Result<Seq<u8>, ChunkError> {
    if flags & CHUNK_FLAG_LZ77 != 0 {
        match decode_single(data) {
            Ok(d) => Ok(d),
            Err(e) => Err(ChunkError::Lz77(e)),
        }
    } else {
        Ok(data)
    }
}

/// The chunk in front of the first entropy coding.
pub open spec fn undo_egap(data: Seq<u8>, flags: u8) -> Result<Seq<u8>, ChunkError> {
    if flags & CHUNK_FLAG_EGAP != 0 {
        match egap_decode(data) {
            Ok(d) => Ok(d),
            Err(e) => Err(ChunkError::Egap(e)),
        }
    } else {
        Ok(data)
    }
}

/// The chunk in front of the first entropy coding and the transform.
pub open spec fn undo_front(data: Seq<u8>, flags: u8) -> Result<Seq<u8>, ChunkError> {
    if flags & CHUNK_FLAG_DEENTROPY != 0 {
        match parse_meta(data) {
            Err(e) => Err(ChunkError::Meta(e)),
            Ok((t, n)) => match undo_egap(data.skip(n as int), flags) {
                Err(e) => Err(e),
                Ok(d) => Ok(restored(d, t)),
            },
        }
    } else {
        undo_egap(data, flags)
    }
}

/// What a coded chunk stands for: its coders undone, the last one first.
pub open spec fn chunk_decode(data: Seq<u8>, flags: u8) -> Result<Seq<u8>, ChunkError> {
    match undo_post(data, flags) {
        Err(e) => Err(e),
        Ok(a) => match undo_lz77(a, flags) {
            Err(e) => Err(e),
            Ok(b) => undo_front(b, flags),
        },
    }
}

fn undo_entropy(data: &[u8], coded: bool) -> (r: Result<Vec<u8>, ChunkError>)
    ensures
        match r {
            Ok(out) => if coded {
                egap_decode(data@) == Ok::<Seq<u8>, EgapError>(out@)
            } else {
                out@ == data@
            },
            Err(e) => coded && match egap_decode(data@) {
                Ok(_) => false,
                Err(x) => e == ChunkError::Egap(x),
            },
        },
{
    if coded {
        match entropy_decode(data) {
            Ok(d) => Ok(d),
            Err(e) => Err(ChunkError::Egap(e)),
        }
    } else {
        Ok(copy_of(data))
    }
}

/// Decodes a chunk by its flags.
pub fn decode_adaptive_chunk(data: &[u8], flags: u8) -> (r: Result<Vec<u8>, ChunkError>)
    ensures
        match r {
            Ok(out) => chunk_decode(data@, flags) == Ok::<Seq<u8>, ChunkError>(out@),
            Err(e) => chunk_decode(data@, flags) == Err::<Seq<u8>, ChunkError>(e),
        },
{
    let mut current = match undo_entropy(data, flags & CHUNK_FLAG_POST_ENTROPY != 0) {
        Ok(d) => d,
        Err(e) => {
            return Err(e);
        },
    };
    if flags & CHUNK_FLAG_LZ77 != 0 {
        match lz77_decompress(&current) {
            Ok(d) => {
                current = d;
            },
            Err(e) => {
                return Err(ChunkError::Lz77(e));
            },
        }
    }
    if flags & CHUNK_FLAG_DEENTROPY != 0 {
        match DeentropyMeta::deserialize(&current) {
            Err(e) => Err(ChunkError::Meta(e)),
            Ok((meta, consumed)) => {
                let rest = &current[consumed..current.len()];
                assert(rest@ =~= current@.skip(consumed as int));
                match undo_entropy(rest, flags & CHUNK_FLAG_EGAP != 0) {
                    Ok(d) => Ok(inverse_deentropy_transform(&d, &meta)),
                    Err(e) => Err(e),
                }
            },
        }
    } else {
        undo_entropy(&current, flags & CHUNK_FLAG_EGAP != 0)
    }
}

proof fn lemma_flags()
    ensures
        forall|f: u8| #![trigger f | CHUNK_FLAG_EGAP] {
            &&& (f | CHUNK_FLAG_EGAP) & CHUNK_FLAG_EGAP != 0
            &&& (f | CHUNK_FLAG_EGAP) & CHUNK_FLAG_LZ77 == f & CHUNK_FLAG_LZ77
            &&& (f | CHUNK_FLAG_EGAP) & CHUNK_FLAG_DEENTROPY == f & CHUNK_FLAG_DEENTROPY
            &&& (f | CHUNK_FLAG_EGAP) & CHUNK_FLAG_POST_ENTROPY == f & CHUNK_FLAG_POST_ENTROPY
        },
        forall|f: u8| #![trigger f | CHUNK_FLAG_LZ77] {
            &&& (f | CHUNK_FLAG_LZ77) & CHUNK_FLAG_LZ77 != 0
            &&& (f | CHUNK_FLAG_LZ77) & CHUNK_FLAG_EGAP == f & CHUNK_FLAG_EGAP
            &&& (f | CHUNK_FLAG_LZ77) & CHUNK_FLAG_DEENTROPY == f & CHUNK_FLAG_DEENTROPY
            &&& (f | CHUNK_FLAG_LZ77) & CHUNK_FLAG_POST_ENTROPY == f & CHUNK_FLAG_POST_ENTROPY
        },
        forall|f: u8| #![trigger f | CHUNK_FLAG_POST_ENTROPY] {
            &&& (f | CHUNK_FLAG_POST_ENTROPY) & CHUNK_FLAG_POST_ENTROPY != 0
            &&& (f | CHUNK_FLAG_POST_ENTROPY) & CHUNK_FLAG_EGAP == f & CHUNK_FLAG_EGAP
            &&& (f | CHUNK_FLAG_POST_ENTROPY) & CHUNK_FLAG_LZ77 == f & CHUNK_FLAG_LZ77
            &&& (f | CHUNK_FLAG_POST_ENTROPY) & CHUNK_FLAG_DEENTROPY == f & CHUNK_FLAG_DEENTROPY
        },
        forall|b: u8| #[trigger] (0u8 & b) == 0,
        CHUNK_FLAG_DEENTROPY & CHUNK_FLAG_DEENTROPY != 0,
        CHUNK_FLAG_DEENTROPY & CHUNK_FLAG_EGAP == 0,
        CHUNK_FLAG_DEENTROPY & CHUNK_FLAG_LZ77 == 0,
        CHUNK_FLAG_DEENTROPY & CHUNK_FLAG_POST_ENTROPY == 0,
{
    assert forall|f: u8| #![trigger f | 0x01u8] {
        &&& (f | 0x01u8) & 0x01u8 != 0
        &&& (f | 0x01u8) & 0x02u8 == f & 0x02u8
        &&& (f | 0x01u8) & 0x08u8 == f & 0x08u8
        &&& (f | 0x01u8) & 0x10u8 == f & 0x10u8
    } by {
        assert((f | 0x01u8) & 0x01u8 != 0 && (f | 0x01u8) & 0x02u8 == f & 0x02u8 && (f | 0x01u8)
            & 0x08u8 == f & 0x08u8 && (f | 0x01u8) & 0x10u8 == f & 0x10u8) by (bit_vector);
    }
    assert forall|f: u8| #![trigger f | 0x02u8] {
        &&& (f | 0x02u8) & 0x02u8 != 0
        &&& (f | 0x02u8) & 0x01u8 == f & 0x01u8
        &&& (f | 0x02u8) & 0x08u8 == f & 0x08u8
        &&& (f | 0x02u8) & 0x10u8 == f & 0x10u8
    } by {
        assert((f | 0x02u8) & 0x02u8 != 0 && (f | 0x02u8) & 0x01u8 == f & 0x01u8 && (f | 0x02u8)
            & 0x08u8 == f & 0x08u8 && (f | 0x02u8) & 0x10u8 == f & 0x10u8) by (bit_vector);
    }
    assert forall|f: u8| #![trigger f | 0x10u8] {
        &&& (f | 0x10u8) & 0x10u8 != 0
        &&& (f | 0x10u8) & 0x01u8 == f & 0x01u8
        &&& (f | 0x10u8) & 0x02u8 == f & 0x02u8
        &&& (f | 0x10u8) & 0x08u8 == f & 0x08u8
    } by {
        assert((f | 0x10u8) & 0x10u8 != 0 && (f | 0x10u8) & 0x01u8 == f & 0x01u8 && (f | 0x10u8)
            & 0x02u8 == f & 0x02u8 && (f | 0x10u8) & 0x08u8 == f & 0x08u8) by (bit_vector);
    }
    assert forall|b: u8| #[trigger] (0u8 & b) == 0 by {
        assert(0u8 & b == 0) by (bit_vector);
    }
    assert(0x08u8 & 0x08u8 != 0 && 0x08u8 & 0x01u8 == 0 && 0x08u8 & 0x02u8 == 0 && 0x08u8 & 0x10u8
        == 0) by (bit_vector);
}

/// A chunk that `compress_adaptive` has coded is decoded by its flags to what it was, whatever
/// the bands were.
pub proof fn lemma_adaptive_roundtrip(
    data: Seq<u8>,
    dict: DictGain,
    entropy: EntropyBand,
    gain: EgapGain,
    mid: EntropyBand,
)
    requires
        data.len() <= u32::MAX,
    ensures
        ({
            let c = adaptive_code(data, dict, entropy, gain, mid);
            chunk_decode(c.data, c.flags) == Ok::<Seq<u8>, ChunkError>(data)
        }),
{
    lemma_flags();
    let plan = stage_plan(dict, entropy);
    let first = after_egap(data, plan);
    let second = lz77_step(
        first,
        still_lz77(plan, first.flags != 0, gain) && !mid.is_random(),
    );
    lemma_egap_roundtrip(data);
    lemma_block_roundtrip(first.data);
    lemma_egap_roundtrip(second.data);
}

proof fn lemma_untransformed_roundtrip(data: Seq<u8>, t: Transform)
    requires
        data.len() <= u32::MAX,
        t.mode == DeentropyMode::Identity,
    ensures
        ({
            let c = transformed_code(data, t);
            chunk_decode(c.data, c.flags) == Ok::<Seq<u8>, ChunkError>(data)
        }),
{
    lemma_flags();
    lemma_egap_roundtrip(data);
}

/// What the flags of a transformed chunk say.
proof fn lemma_transformed_flags(flags: u8)
    requires
        flags == CHUNK_FLAG_DEENTROPY || flags == CHUNK_FLAG_DEENTROPY | CHUNK_FLAG_EGAP,
    ensures
        flags & CHUNK_FLAG_POST_ENTROPY == 0,
        flags & CHUNK_FLAG_LZ77 == 0,
        flags & CHUNK_FLAG_DEENTROPY != 0,
        flags & CHUNK_FLAG_EGAP != 0 <==> flags != CHUNK_FLAG_DEENTROPY,
{
    lemma_flags();
}

proof fn lemma_used_transform_roundtrip(data: Seq<u8>, t: Transform)
    requires
        data.len() <= u32::MAX,
        t.shifts.len() <= 3,
        t.mode != DeentropyMode::Identity,
    ensures
        ({
            let c = transformed_code(data, t);
            chunk_decode(c.data, c.flags) == Ok::<Seq<u8>, ChunkError>(data)
        }),
{
    let input = transformed(data, t);
    lemma_transform_roundtrip(data, t);
    let c = egap_step(Coded { data: input, flags: CHUNK_FLAG_DEENTROPY }, true, CHUNK_FLAG_EGAP);
    lemma_flags();
    lemma_transformed_flags(c.flags);
    lemma_meta_roundtrip(t, c.data);
    let all = meta_bytes(t) + c.data;
    assert(all.skip(meta_bytes(t).len() as int) =~= c.data);
    assert(transformed_code(data, t) == (Coded { data: all, flags: c.flags }));
    lemma_egap_roundtrip(input);
}

/// So is a chunk coded with any transform of up to three shifts.
pub proof fn lemma_transformed_roundtrip(data: Seq<u8>, t: Transform)
    requires
        data.len() <= u32::MAX,
        t.shifts.len() <= 3,
    ensures
        ({
            let c = transformed_code(data, t);
            chunk_decode(c.data, c.flags) == Ok::<Seq<u8>, ChunkError>(data)
        }),
{
    if t.mode == DeentropyMode::Identity {
        lemma_untransformed_roundtrip(data, t);
    } else {
        lemma_used_transform_roundtrip(data, t);
    }
}

/// Whether a chunk is expected to compress better back to front.
pub open spec fn reversal_helps(data: Seq<u8>) -> bool {
    let sample = data.take(
        if data.len() < REVERSE_SAMPLE_SIZE {
            data.len() as int
        } else {
            REVERSE_SAMPLE_SIZE as int
        },
    );
    data.len() >= 1024 && compressed_block(sample.reverse()).len() < compressed_block(sample).len()
}

/// Compresses the first bytes of a chunk in both directions and tells whether backwards is
/// shorter.
pub fn should_reverse_chunk(data: &[u8]) -> (r: bool)
    ensures
        r == reversal_helps(data@),
{
    if data.len() < 1024 {
        return false;
    }
    let n = if data.len() < REVERSE_SAMPLE_SIZE {
        data.len()
    } else {
        REVERSE_SAMPLE_SIZE
    };
    let sample = &data[0..n];
    assert(sample@ =~= data@.take(n as int));
    let backwards = reversed(sample);
    lz77_compress(&backwards).len() < lz77_compress(sample).len()
}

/// The name of a coder, where its flag is set.
pub open spec fn label_part(flags: u8, flag: u8, name: Seq<char>) -> Seq<char> {
    if flags & flag != 0 {
        name
    } else {
        seq![]
    }
}

/// The names of the coders that `flags` stand for.
pub open spec fn stage_names(flags: u8) -> Seq<char> {
    "dict"@ + label_part(flags, CHUNK_FLAG_DEENTROPY, "+deent"@) + label_part(
        flags,
        CHUNK_FLAG_EGAP,
        "+egap"@,
    ) + label_part(flags, CHUNK_FLAG_LZ77, "+lz77"@) + label_part(
        flags,
        CHUNK_FLAG_POST_ENTROPY,
        "+post-ent"@,
    )
}

/// Only the dictionary stages have touched the chunk.
pub open spec fn dict_only(flags: u8) -> bool {
    flags & CHUNK_FLAG_DEENTROPY == 0 && flags & CHUNK_FLAG_EGAP == 0 && flags & CHUNK_FLAG_LZ77
        == 0 && flags & CHUNK_FLAG_POST_ENTROPY == 0
}

/// What is shown for a chunk with these flags.
pub open spec fn stage_label(flags: u8) -> Seq<char> {
    if flags & CHUNK_FLAG_REVERSED != 0 {
        stage_names(flags) + " (rev)"@
    } else if dict_only(flags) {
        "dict only"@
    } else {
        stage_names(flags)
    }
}

/// What is shown for a chunk with these flags.
pub fn adaptive_stage_label(flags: u8) -> (label: String)
    ensures
        label@ == stage_label(flags),
{
    let mut label = String::from_str("dict");
    if flags & CHUNK_FLAG_DEENTROPY != 0 {
        label.append("+deent");
    }
    if flags & CHUNK_FLAG_EGAP != 0 {
        label.append("+egap");
    }
    if flags & CHUNK_FLAG_LZ77 != 0 {
        label.append("+lz77");
    }
    if flags & CHUNK_FLAG_POST_ENTROPY != 0 {
        label.append("+post-ent");
    }
    assert(label@ =~= stage_names(flags));
    if flags & CHUNK_FLAG_REVERSED != 0 {
        label.append(" (rev)");
        label
    } else if flags & CHUNK_FLAG_DEENTROPY == 0 && flags & CHUNK_FLAG_EGAP == 0 && flags
        & CHUNK_FLAG_LZ77 == 0 && flags & CHUNK_FLAG_POST_ENTROPY == 0 {
        String::from_str("dict only")
    } else {
        label
    }
}

/// How many chunks each coder was used on.
#[derive(Clone, Copy, Debug, PartialEq, Eq, Structural)]
pub struct AdaptiveSummary {
    pub dict_only: usize,
    pub egap: usize,
    pub lz77: usize,
    pub post_entropy: usize,
    pub deentropy: usize,
    pub reversed: usize,
}

/// How many of `flags` have `flag`.
pub open spec fn flag_count(flags: Seq<u8>, flag: u8) -> nat
    decreases flags.len(),
{
    if flags.len() == 0 {
        0
    } else {
        flag_count(flags.drop_last(), flag) + if flags.last() & flag != 0 {
            1nat
        } else {
            0
        }
    }
}

pub open spec fn dict_only_count(flags: Seq<u8>) -> nat
    decreases flags.len(),
{
    if flags.len() == 0 {
        0
    } else {
        dict_only_count(flags.drop_last()) + if dict_only(flags.last()) {
            1nat
        } else {
            0
        }
    }
}

/// Counts on how many chunks each coder was used.
pub fn adaptive_summary(chunk_flags: &[u8]) -> (s: AdaptiveSummary)
    ensures
        s.dict_only as nat == dict_only_count(chunk_flags@),
        s.egap as nat == flag_count(chunk_flags@, CHUNK_FLAG_EGAP),
        s.lz77 as nat == flag_count(chunk_flags@, CHUNK_FLAG_LZ77),
        s.post_entropy as nat == flag_count(chunk_flags@, CHUNK_FLAG_POST_ENTROPY),
        s.deentropy as nat == flag_count(chunk_flags@, CHUNK_FLAG_DEENTROPY),
        s.reversed as nat == flag_count(chunk_flags@, CHUNK_FLAG_REVERSED),
{
    let mut s = AdaptiveSummary {
        dict_only: 0,
        egap: 0,
        lz77: 0,
        post_entropy: 0,
        deentropy: 0,
        reversed: 0,
    };
    let mut i: usize = 0;
    assert(chunk_flags@.take(0) =~= seq![]);
    while i < chunk_flags.len()
        invariant
            i <= chunk_flags@.len(),
            s.dict_only <= i,
            s.egap <= i,
            s.lz77 <= i,
            s.post_entropy <= i,
            s.deentropy <= i,
            s.reversed <= i,
            s.dict_only as nat == dict_only_count(chunk_flags@.take(i as int)),
            s.egap as nat == flag_count(chunk_flags@.take(i as int), CHUNK_FLAG_EGAP),
            s.lz77 as nat == flag_count(chunk_flags@.take(i as int), CHUNK_FLAG_LZ77),
            s.post_entropy as nat == flag_count(
                chunk_flags@.take(i as int),
                CHUNK_FLAG_POST_ENTROPY,
            ),
            s.deentropy as nat == flag_count(chunk_flags@.take(i as int), CHUNK_FLAG_DEENTROPY),
            s.reversed as nat == flag_count(chunk_flags@.take(i as int), CHUNK_FLAG_REVERSED),
        decreases chunk_flags@.len() - i,
    {
        let f = chunk_flags[i];
        proof {
            assert(chunk_flags@.take(i + 1).drop_last() =~= chunk_flags@.take(i as int));
        }
        let egap = f & CHUNK_FLAG_EGAP != 0;
        let lz77 = f & CHUNK_FLAG_LZ77 != 0;
        let post = f & CHUNK_FLAG_POST_ENTROPY != 0;
        let deentropy = f & CHUNK_FLAG_DEENTROPY != 0;
        if egap {
            s.egap = s.egap + 1;
        }
        if lz77 {
            s.lz77 = s.lz77 + 1;
        }
        if post {
            s.post_entropy = s.post_entropy + 1;
        }
        if f & CHUNK_FLAG_REVERSED != 0 {
            s.reversed = s.reversed + 1;
        }
        if deentropy {
            s.deentropy = s.deentropy + 1;
        }
        if !egap && !lz77 && !post && !deentropy {
            s.dict_only = s.dict_only + 1;
        }
        i += 1;
    }
    assert(chunk_flags@.take(i as int) =~= chunk_flags@);
    s
}

/// Behind a transform the entropy coding is kept exactly where it is shorter than what it was made of.
/// What is left is never longer, and a transform is described in front of it and has its flag.
pub proof fn lemma_transformed_kept(data: Seq<u8>, t: Transform, x: Seq<u8>)
    requires
        x == if t.mode == DeentropyMode::Identity {
            data
        } else {
            transformed(data, t)
        },
    ensures
        ({
            let r = transformed_code(data, t);
            let head = if t.mode == DeentropyMode::Identity {
                seq![]
            } else {
                meta_bytes(t)
            };
            &&& r.flags & 0x01 != 0 <==> egap_block(x).len() < x.len()
            &&& r.flags & 0x08 != 0 <==> t.mode != DeentropyMode::Identity
            &&& r.data == head + if egap_block(x).len() < x.len() {
                egap_block(x)
            } else {
                x
            }
            &&& r.data.len() <= head.len() + x.len()
            &&& r.data.len() <= head.len() + egap_block(x).len()
        }),
{
    lemma_flags();
    lemma_flag_nonzero();
    assert((0x08u8 | 0x01u8) & 0x01u8 != 0 && (0x08u8 | 0x01u8) & 0x08u8 != 0 && 0x08u8 & 0x01u8 == 0
        && 0x08u8 & 0x08u8 != 0 && 0u8 & 0x01u8 == 0 && 0u8 & 0x08u8 == 0 && (0u8 | 0x01u8) & 0x01u8
        != 0 && (0u8 | 0x01u8) & 0x08u8 == 0) by (bit_vector);
    let r = transformed_code(data, t);
    if t.mode == DeentropyMode::Identity {
        assert(seq![] + r.data =~= r.data);
    }
}

/// Whether a chunk is turned round depends on its first 131072 bytes alone, and short chunks never
/// are. A chunk that is turned round is shorter when it is, and is not turned round again.
pub proof fn lemma_reversal(a: Seq<u8>, b: Seq<u8>)
    ensures
        a.len() < 1024 ==> !reversal_helps(a),
        a.len() >= 131072 && b.len() >= 131072 && a.take(131072) == b.take(131072)
            ==> reversal_helps(a) == reversal_helps(b),
        1024 <= a.len() <= 131072 ==> (reversal_helps(a) <==> compressed_block(a.reverse()).len()
            < compressed_block(a).len()),
        a.len() <= 131072 && reversal_helps(a) ==> !reversal_helps(a.reverse()),
{
    if a.len() <= 131072 {
        assert(a.take(a.len() as int) =~= a);
        let r = a.reverse();
        assert(r.take(r.len() as int) =~= r);
        assert(r.reverse() =~= a);
    }
}

/// The counts of a summary add up over the chunks, and each chunk counts where it has the flag; one
/// without any of the four coders' flags counts as coded by the dictionary only.
pub proof fn lemma_summary_adds_up(a: Seq<u8>, b: Seq<u8>, flag: u8)
    ensures
        flag_count(a + b, flag) == flag_count(a, flag) + flag_count(b, flag),
        dict_only_count(a + b) == dict_only_count(a) + dict_only_count(b),
        a.len() == 1 ==> flag_count(a, flag) == if a[0] & flag != 0 {
            1nat
        } else {
            0
        },
        a.len() == 1 ==> dict_only_count(a) == if a[0] & 0x1b == 0 {
            1nat
        } else {
            0
        },
    decreases b.len(),
{
    if b.len() == 0 {
        assert(a + b =~= a);
    } else {
        lemma_summary_adds_up(a, b.drop_last(), flag);
        assert((a + b).drop_last() =~= a + b.drop_last());
        assert((a + b).last() == b.last());
    }
    if a.len() == 1 {
        reveal_with_fuel(flag_count, 2);
        reveal_with_fuel(dict_only_count, 2);
        let f = a[0];
        assert(f & 0x1b == 0 <==> f & 0x08 == 0 && f & 0x01 == 0 && f & 0x02 == 0 && f & 0x10 == 0)
            by (bit_vector);
    }
}

/// No transform is tried where every byte value occurs or the chunk is close to random.
pub proof fn lemma_transform_tried(data: Seq<u8>, entropy: EntropyBand)
    ensures
        early_exit(data, entropy) <==> entropy == EntropyBand::Saturated || forall|b: u8|
            #[trigger] data.contains(b),
{
}

/// A label names the coders of a chunk in the order in which they ran, and no others; one that was
/// turned round is marked, and one without a coder is called `dict only`.
pub proof fn lemma_label_names(f: u8)
    ensures
        ({
            let deent = if f & 0x08 != 0 {
                "+deent"@
            } else {
                seq![]
            };
            let egap = if f & 0x01 != 0 {
                "+egap"@
            } else {
                seq![]
            };
            let lz77 = if f & 0x02 != 0 {
                "+lz77"@
            } else {
                seq![]
            };
            let post = if f & 0x10 != 0 {
                "+post-ent"@
            } else {
                seq![]
            };
            let names = "dict"@ + deent + egap + lz77 + post;
            &&& f & 0x04 != 0 ==> stage_label(f) == names + " (rev)"@
            &&& f & 0x04 == 0 && f & 0x1b == 0 ==> stage_label(f) == "dict only"@
            &&& f & 0x04 == 0 && f & 0x1b != 0 ==> stage_label(f) == names
        }),
{
    assert(f & 0x1b == 0 <==> f & 0x08 == 0 && f & 0x01 == 0 && f & 0x02 == 0 && f & 0x10 == 0)
        by (bit_vector);
}

} // verus!
