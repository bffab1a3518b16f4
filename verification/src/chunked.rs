//! The dictionary stages over data that is kept in chunks outside of memory: which sample is
//! wanted next, when a dictionary is ready, and what becomes of a stage.

use vstd::prelude::*;

use crate::candidates::{best_chunks, SAMPLE_REGION_SIZE};
use crate::container::{
    code_count, has_full_stage, short_strings, stages_fit, undo_stages, UnpackError,
};
use crate::dict::{codes_text, lemma_decode_coding, lemma_joined_coding, strings};
use crate::sampling::{
    lemma_spread_sample, probe_scores, sample_spread_parallel, spread_sample, uniform, MAX_DATA_LEN,
};
use crate::segments::joined;
use crate::stages::{
    analyse, analyse_again, analysed, chunks_ok, copy_sizes, cross_ref_regions, is_stage_table,
    judge_stage, lemma_analysed_ok, lemma_best_chunks, lemma_corpus_ok, lemma_numbered,
    lemma_probed_ok, numbered, probe_sample, probe_sample_size, probe_target, probed_sizes,
    region_count, retried, retry_sample_size, retry_target, sizes_ok, sizes_view, verdict, Verdict,
    MAX_CODES, MAX_STAGES,
};

verus! {

/// What is being waited for.
#[derive(Debug)]
pub enum ChunkedPhase {
    /// The first sample of a stage.
    Probe,
    /// A sample of repetitive blocks, since the first showed nothing.
    Hotspots { flat: bool },
    /// The data to analyse.
    Analyse { sizes: Vec<usize>, flat: bool },
    /// A larger sample, since the analysis found nothing.
    Retry { sizes: Vec<usize> },
    /// The size of the coded chunks.
    Encode { sizes: Vec<usize>, second_attempt: bool },
    /// Nothing any more.
    Done,
}

/// The stages over chunked data.
#[derive(Debug)]
pub struct ChunkedStages {
    pub iteration: usize,
    pub total: usize,
    pub last_good: Option<Vec<usize>>,
    pub phase: ChunkedPhase,
}

/// How a sample is drawn.
#[derive(Debug, Clone, Copy, PartialEq, Eq, Structural)]
pub enum SampleKind {
    /// Regions spread over the input.
    Spread,
    /// The most repetitive blocks of the input.
    Hotspots,
    /// The whole input.
    Whole,
    /// A part of each chunk file.
    Chunks,
}

/// What a `ChunkedPhase` says.
pub enum Phase {
    Probe,
    Hotspots { flat: bool },
    Analyse { sizes: Seq<usize>, flat: bool },
    Retry { sizes: Seq<usize> },
    Encode { sizes: Seq<usize>, second_attempt: bool },
    Done,
}

/// What a `ChunkedStages` says.
pub struct Progress {
    pub iteration: nat,
    pub total: nat,
    pub last_good: Option<Seq<usize>>,
    pub phase: Phase,
}

impl View for ChunkedPhase {
    type V = Phase;

    open spec fn view(&self) -> Phase {
        match *self {
            ChunkedPhase::Probe => Phase::Probe,
            ChunkedPhase::Hotspots { flat } => Phase::Hotspots { flat },
            ChunkedPhase::Analyse { sizes, flat } => Phase::Analyse { sizes: sizes@, flat },
            ChunkedPhase::Retry { sizes } => Phase::Retry { sizes: sizes@ },
            ChunkedPhase::Encode { sizes, second_attempt } => Phase::Encode {
                sizes: sizes@,
                second_attempt,
            },
            ChunkedPhase::Done => Phase::Done,
        }
    }
}

impl View for ChunkedStages {
    type V = Progress;

    open spec fn view(&self) -> Progress {
        Progress {
            iteration: self.iteration as nat,
            total: self.total as nat,
            last_good: sizes_view(self.last_good),
            phase: self.phase@,
        }
    }
}

impl Progress {
    /// The lengths it holds can be analysed.
    pub open spec fn wf(self) -> bool {
        &&& self.iteration <= MAX_STAGES
        &&& self.last_good matches Some(s) ==> sizes_ok(s)
        &&& match self.phase {
            Phase::Analyse { sizes, flat } => sizes_ok(sizes),
            Phase::Retry { sizes } => sizes_ok(sizes),
            Phase::Encode { sizes, second_attempt } => sizes_ok(sizes),
            _ => true,
        }
    }

    pub open spec fn with_phase(self, phase: Phase) -> Progress {
        Progress { phase, ..self }
    }

    /// The sample that is wanted: how many bytes.
    pub open spec fn wanted(self) -> Option<nat> {
        match self.phase {
            Phase::Probe => Some(probe_target(self.total)),
            Phase::Hotspots { flat } => Some(2 * probe_target(self.total)),
            Phase::Analyse { sizes, flat } => {
                let n = SAMPLE_REGION_SIZE as nat * region_count(self.total, flat) * 2;
                Some(
                    if n < self.total {
                        n
                    } else {
                        self.total
                    },
                )
            },
            Phase::Retry { sizes } => Some(retry_target(self.total)),
            Phase::Encode { sizes, second_attempt } => None,
            Phase::Done => None,
        }
    }

    /// How the sample that is wanted is drawn: from the chunk files where a stage has left some,
    /// else from the input.
    pub open spec fn sample_kind(self, in_files: bool) -> SampleKind {
        if in_files {
            SampleKind::Chunks
        } else {
            match self.phase {
                Phase::Hotspots { flat } => SampleKind::Hotspots,
                Phase::Analyse { sizes, flat } => SampleKind::Whole,
                _ => SampleKind::Spread,
            }
        }
    }

    /// Behind a sample: the next state, and the strings for a dictionary once they are found.
    pub open spec fn after_sample(self, sample: Seq<u8>) -> (Progress, Option<Seq<Seq<u8>>>) {
        match self.phase {
            Phase::Probe => {
                let sizes = probed_sizes(sample);
                let flat = uniform(probe_scores(sample), 90);
                if sizes.len() > 0 {
                    (self.with_phase(Phase::Analyse { sizes, flat }), None)
                } else {
                    (self.with_phase(Phase::Hotspots { flat }), None)
                }
            },
            Phase::Hotspots { flat } => {
                let sizes = probed_sizes(sample);
                if sizes.len() > 0 {
                    (self.with_phase(Phase::Analyse { sizes, flat }), None)
                } else {
                    match self.last_good {
                        Some(sizes) => (self.with_phase(Phase::Analyse { sizes, flat }), None),
                        None => (self.with_phase(Phase::Done), None),
                    }
                }
            },
            Phase::Analyse { sizes, flat } => {
                let best = best_chunks(
                    analysed(sample, self.total, flat, sizes),
                    MAX_CODES as nat,
                );
                if best.len() > 0 {
                    (
                        self.with_phase(Phase::Encode { sizes, second_attempt: false }),
                        Some(best),
                    )
                } else {
                    (self.with_phase(Phase::Retry { sizes }), None)
                }
            },
            Phase::Retry { sizes } => {
                let best = best_chunks(retried(sample, sample.len() / 2, sizes), MAX_CODES as nat);
                if best.len() > 0 {
                    (
                        self.with_phase(Phase::Encode { sizes, second_attempt: true }),
                        Some(best),
                    )
                } else {
                    (self.with_phase(Phase::Done), None)
                }
            },
            _ => (self, None),
        }
    }

    /// Behind the coding of all chunks: the next state, and what becomes of the stage.
    pub open spec fn after_encoding(self, encoded: nat) -> (Progress, Verdict) {
        match self.phase {
            Phase::Encode { sizes, second_attempt } => {
                let v = verdict(self.total, encoded, second_attempt);
                if v == Verdict::Commit && self.iteration < MAX_STAGES {
                    (
                        Progress {
                            iteration: self.iteration + 1,
                            total: encoded,
                            last_good: Some(sizes),
                            phase: Phase::Probe,
                        },
                        v,
                    )
                } else {
                    (self.with_phase(Phase::Done), v)
                }
            },
            _ => (self, Verdict::Discard),
        }
    }
}

impl ChunkedStages {
    /// The start: `total` bytes, no stage yet.
    pub fn begin(total: usize) -> (s: Self)
        ensures
            s@ == (Progress {
                iteration: 1,
                total: total as nat,
                last_good: None,
                phase: Phase::Probe,
            }),
            s@.wf(),
    {
        ChunkedStages { iteration: 1, total, last_good: None, phase: ChunkedPhase::Probe }
    }

    /// How many bytes the sample that is wanted should have; nothing where none is wanted.
    pub fn wanted_sample(&self) -> (n: Option<usize>)
        ensures
            match n {
                Some(n) => self@.wanted() == Some(n as nat),
                None => self@.wanted() is None,
            },
    {
        match &self.phase {
            ChunkedPhase::Probe => Some(probe_sample_size(self.total)),
            ChunkedPhase::Hotspots { .. } => {
                let n = probe_sample_size(self.total);
                Some(2 * n)
            },
            ChunkedPhase::Analyse { flat, .. } => {
                let n = SAMPLE_REGION_SIZE * cross_ref_regions(self.total, *flat) * 2;
                Some(
                    if n < self.total {
                        n
                    } else {
                        self.total
                    },
                )
            },
            ChunkedPhase::Retry { .. } => Some(retry_sample_size(self.total)),
            _ => None,
        }
    }

    /// How the sample that is wanted is drawn, where the chunks are kept in files or not.
    pub fn sample_kind(&self, in_files: bool) -> (kind: SampleKind)
        ensures
            kind == self@.sample_kind(in_files),
    {
        if in_files {
            SampleKind::Chunks
        } else {
            match &self.phase {
                ChunkedPhase::Hotspots { .. } => SampleKind::Hotspots,
                ChunkedPhase::Analyse { .. } => SampleKind::Whole,
                _ => SampleKind::Spread,
            }
        }
    }

    /// Takes the sample that was wanted. Returns the strings for a dictionary once they are found.
    pub fn take_sample(self, sample: &[u8]) -> (r: (Self, Option<Vec<Vec<u8>>>))
        requires
            self@.wf(),
            sample@.len() <= MAX_DATA_LEN,
        ensures
            r.0@ == self@.after_sample(sample@).0,
            match r.1 {
                Some(chunks) => self@.after_sample(sample@).1 == Some(strings(chunks@))
                    && chunks_ok(strings(chunks@)) && chunks@.len() > 0,
                None => self@.after_sample(sample@).1 is None,
            },
            r.0@.wf(),
    {
        let ghost before = self@;
        let ChunkedStages { iteration, total, last_good, phase } = self;
        match phase {
            ChunkedPhase::Probe => {
                let (sizes, flat) = probe_sample(sample);
                let phase = if sizes.len() > 0 {
                    ChunkedPhase::Analyse { sizes, flat }
                } else {
                    ChunkedPhase::Hotspots { flat }
                };
                (ChunkedStages { iteration, total, last_good, phase }, None)
            },
            ChunkedPhase::Hotspots { flat } => {
                let (sizes, _) = probe_sample(sample);
                let phase = if sizes.len() > 0 {
                    ChunkedPhase::Analyse { sizes, flat }
                } else {
                    match &last_good {
                        Some(known) => ChunkedPhase::Analyse { sizes: copy_sizes(known), flat },
                        None => ChunkedPhase::Done,
                    }
                };
                (ChunkedStages { iteration, total, last_good, phase }, None)
            },
            ChunkedPhase::Analyse { sizes, flat } => {
                let best = analyse(sample, total, flat, &sizes);
                assert(strings(best@).len() == best@.len());
                if best.len() > 0 {
                    let phase = ChunkedPhase::Encode { sizes, second_attempt: false };
                    (ChunkedStages { iteration, total, last_good, phase }, Some(best))
                } else {
                    let phase = ChunkedPhase::Retry { sizes };
                    (ChunkedStages { iteration, total, last_good, phase }, None)
                }
            },
            ChunkedPhase::Retry { sizes } => {
                let best = analyse_again(sample, sample.len() / 2, &sizes);
                assert(strings(best@).len() == best@.len());
                if best.len() > 0 {
                    let phase = ChunkedPhase::Encode { sizes, second_attempt: true };
                    (ChunkedStages { iteration, total, last_good, phase }, Some(best))
                } else {
                    let phase = ChunkedPhase::Done;
                    (ChunkedStages { iteration, total, last_good, phase }, None)
                }
            },
            other => (ChunkedStages { iteration, total, last_good, phase: other }, None),
        }
    }

    /// Takes the size of the coded chunks together. Returns what becomes of the stage.
    pub fn take_encoded(self, encoded_total: usize) -> (r: (Self, Verdict))
        requires
            self@.wf(),
        ensures
            (r.0@, r.1) == self@.after_encoding(encoded_total as nat),
            r.0@.wf(),
    {
        let ChunkedStages { iteration, total, last_good, phase } = self;
        match phase {
            ChunkedPhase::Encode { sizes, second_attempt } => {
                let v = judge_stage(total, encoded_total, second_attempt);
                if v == Verdict::Commit && iteration < MAX_STAGES {
                    (
                        ChunkedStages {
                            iteration: iteration + 1,
                            total: encoded_total,
                            last_good: Some(sizes),
                            phase: ChunkedPhase::Probe,
                        },
                        v,
                    )
                } else {
                    (
                        ChunkedStages { iteration, total, last_good, phase: ChunkedPhase::Done },
                        v,
                    )
                }
            },
            other => (
                ChunkedStages { iteration, total, last_good, phase: other },
                Verdict::Discard,
            ),
        }
    }
}

/// How far the stages are from their end: each step takes at least one off.
pub open spec fn steps_left(p: Progress) -> nat {
    let rank: nat = match p.phase {
        Phase::Probe => 5,
        Phase::Hotspots { flat } => 4,
        Phase::Analyse { sizes, flat } => 3,
        Phase::Retry { sizes } => 2,
        Phase::Encode { sizes, second_attempt } => 1,
        Phase::Done => 0,
    };
    if p.phase is Done || p.iteration > MAX_STAGES {
        0
    } else {
        (6 * (MAX_STAGES - p.iteration) + rank) as nat
    }
}

/// The stages come to an end: every sample that is wanted and every coding takes them nearer to
/// it.
pub proof fn lemma_stages_end(p: Progress, sample: Seq<u8>, encoded: nat)
    requires
        p.wf(),
    ensures
        p.wanted() is Some ==> steps_left(p.after_sample(sample).0) < steps_left(p),
        p.phase is Encode ==> steps_left(p.after_encoding(encoded).0) < steps_left(p),
{
}

/// Stages that stay never make the data larger.
pub proof fn lemma_total_shrinks(p: Progress, encoded: nat)
    requires
        p.wf(),
    ensures
        p.after_encoding(encoded).1 != Verdict::Discard ==> encoded < p.total,
        p.after_encoding(encoded).0.total <= p.total,
{
}

/// Collects a sample of about `target` bytes from chunks, which are shown one after the other.
#[derive(Debug)]
pub struct ChunkSampler {
    pub out: Vec<u8>,
    pub target: usize,
    /// How many bytes a chunk may give; nothing where all chunks are taken whole.
    pub per_chunk: Option<usize>,
}

/// What a `ChunkSampler` holds.
pub struct Sampling {
    pub out: Seq<u8>,
    pub target: nat,
    pub per_chunk: Option<nat>,
}

impl View for ChunkSampler {
    type V = Sampling;

    open spec fn view(&self) -> Sampling {
        Sampling {
            out: self.out@,
            target: self.target as nat,
            per_chunk: match self.per_chunk {
                Some(n) => Some(n as nat),
                None => None,
            },
        }
    }
}

impl Sampling {
    /// No further chunk is needed.
    pub open spec fn full(self) -> bool {
        self.per_chunk is Some && self.out.len() >= self.target
    }

    /// What a chunk adds: itself, or where it is too long a spread sample of it.
    pub open spec fn piece(self, chunk: Seq<u8>) -> Seq<u8> {
        match self.per_chunk {
            None => chunk,
            Some(n) => if chunk.len() <= n {
                chunk
            } else {
                spread_sample(chunk, n, 4)
            },
        }
    }

    /// Behind a chunk.
    pub open spec fn after(self, chunk: Seq<u8>) -> Sampling {
        if self.full() {
            self
        } else {
            Sampling { out: self.out + self.piece(chunk), ..self }
        }
    }

    /// The sample that has been collected.
    pub open spec fn sample(self) -> Seq<u8> {
        if self.per_chunk is Some && self.out.len() > self.target {
            self.out.take(self.target as int)
        } else {
            self.out
        }
    }
}

impl ChunkSampler {
    /// For `count` chunks of `total` bytes together.
    pub fn new(total: usize, target: usize, count: usize) -> (s: Self)
        requires
            count > 0,
        ensures
            s@ == (Sampling {
                out: seq![],
                target: target as nat,
                per_chunk: if total <= target {
                    None
                } else {
                    Some(target as nat / count as nat)
                },
            }),
    {
        let per_chunk = if total <= target {
            None
        } else {
            Some(target / count)
        };
        let s = ChunkSampler { out: Vec::new(), target, per_chunk };
        assert(s@.out =~= seq![]);
        s
    }

    /// Whether no further chunk is needed.
    pub fn is_full(&self) -> (r: bool)
        ensures
            r == self@.full(),
    {
        self.per_chunk.is_some() && self.out.len() >= self.target
    }

    /// Takes what is wanted of the next chunk.
    pub fn add_chunk(&mut self, chunk: &[u8])
        ensures
            final(self)@ == old(self)@.after(chunk@),
    {
        if self.is_full() {
            return;
        }
        let ghost before = self@;
        match self.per_chunk {
            None => {
                self.out.extend_from_slice(chunk);
            },
            Some(n) => {
                if chunk.len() <= n {
                    self.out.extend_from_slice(chunk);
                } else {
                    let piece = sample_spread_parallel(chunk, n, 4);
                    self.out.extend_from_slice(&piece);
                }
            },
        }
        assert(self@.out =~= before.out + before.piece(chunk@));
    }

    /// The sample that has been collected.
    pub fn finish(self) -> (out: Vec<u8>)
        ensures
            out@ == self@.sample(),
    {
        let mut out = self.out;
        if self.per_chunk.is_some() {
            out.truncate(self.target);
        }
        out
    }
}

/// How many chunks of `chunk_size` bytes hold `total` bytes.
pub fn chunk_count(total: usize, chunk_size: usize) -> (n: usize)
    requires
        chunk_size > 0,
    ensures
        n as nat == count_of(total as nat, chunk_size as nat),
        total > 0 ==> (n - 1) * chunk_size < total <= n * chunk_size,
{
    let whole = total / chunk_size;
    let rest = total % chunk_size;
    proof {
        let t = total as int;
        let c = chunk_size as int;
        vstd::arithmetic::div_mod::lemma_fundamental_div_mod(t, c);
        let q = t / c;
        let r = t % c;
        assert(q <= t) by (nonlinear_arith)
            requires
                t == c * q + r,
                r >= 0,
                c >= 1,
                t >= 0,
        ;
        assert(r > 0 ==> (t + c - 1) / c == q + 1) by (nonlinear_arith)
            requires
                t == c * q + r,
                0 <= r < c,
        ;
        assert(r == 0 ==> (t + c - 1) / c == q) by (nonlinear_arith)
            requires
                t == c * q + r,
                0 <= r < c,
        ;
        assert(c * q == q * c) by (nonlinear_arith);
        assert((q + 1) * c == q * c + c) by (nonlinear_arith);
        assert((q - 1) * c == q * c - c) by (nonlinear_arith);
        assert(r > 0 ==> q < t) by (nonlinear_arith)
            requires
                t == c * q + r,
                r >= 0,
                c >= 1,
                q >= 0,
        ;
    }
    if rest > 0 {
        whole + 1
    } else {
        whole
    }
}

/// Where chunk `i` begins and ends.
pub fn chunk_bounds(i: usize, chunk_size: usize, total: usize) -> (r: (usize, usize))
    requires
        i * chunk_size <= total,
    ensures
        r.0 == i * chunk_size,
        r.1 == if r.0 + chunk_size < total {
            r.0 + chunk_size
        } else {
            total as int
        },
{
    let start = i * chunk_size;
    if total - start > chunk_size {
        (start, start + chunk_size)
    } else {
        (start, total)
    }
}

/// How much memory a chunk may take: an equal share of the budget for input and output on each
/// thread, between 64 and 512 MiB.
pub fn calculate_chunk_size(budget: usize, num_threads: usize) -> (n: usize)
    requires
        num_threads <= usize::MAX / 2,
    ensures
        ({
            let share = budget as nat / (if num_threads == 0 {
                1
            } else {
                2 * num_threads as nat
            });
            n as nat == if share < 67108864 {
                67108864
            } else if share > 536870912 {
                536870912
            } else {
                share
            }
        }),
{
    let parts = if num_threads == 0 {
        1
    } else {
        2 * num_threads
    };
    let share = budget / parts;
    if share < 67108864 {
        67108864
    } else if share > 536870912 {
        536870912
    } else {
        share
    }
}

/// Each stage has coded every chunk of the level before it with its own dictionary.
pub open spec fn coded_levels(
    levels: Seq<Seq<Seq<u8>>>,
    stages: Seq<(u8, Map<u8, Seq<u8>>)>,
) -> bool {
    &&& levels.len() == stages.len() + 1
    &&& forall|k: int|
        0 <= k < stages.len() ==> level_coded(levels[k], levels[k + 1], #[trigger] stages[k])
}

/// `after` holds codings of the chunks in `before`.
pub open spec fn level_coded(
    before: Seq<Seq<u8>>,
    after: Seq<Seq<u8>>,
    stage: (u8, Map<u8, Seq<u8>>),
) -> bool {
    &&& before.len() == after.len()
    &&& !stage.1.contains_key(0)
    &&& forall|i: int|
        0 <= i < after.len() ==> codes_text(#[trigger] after[i], before[i], stage.0, stage.1)
}

/// However many stages have coded the chunks, undoing them on the chunks of the last level, one
/// behind the other, gives the chunks of the first level, one behind the other.
pub proof fn lemma_chunked_roundtrip(
    levels: Seq<Seq<Seq<u8>>>,
    stages: Seq<(u8, Map<u8, Seq<u8>>)>,
    n: nat,
)
    requires
        coded_levels(levels, stages),
        n <= stages.len(),
    ensures
        undo_stages(joined(levels[n as int]), stages, n) == Ok::<Seq<u8>, UnpackError>(
            joined(levels[0]),
        ),
    decreases n,
{
    if n > 0 {
        let stage = stages[n - 1];
        assert(level_coded(levels[n - 1], levels[n - 1 + 1], stage));
        lemma_joined_coding(levels[n as int], levels[n - 1], stage.0, stage.1);
        lemma_decode_coding(
            joined(levels[n as int]),
            joined(levels[n - 1]),
            stage.0,
            stage.1,
        );
        lemma_chunked_roundtrip(levels, stages, (n - 1) as nat);
    }
}

/// Each chunk of the last level comes back to its own chunk of the first level.
pub proof fn lemma_chunk_roundtrip(
    levels: Seq<Seq<Seq<u8>>>,
    stages: Seq<(u8, Map<u8, Seq<u8>>)>,
    n: nat,
    i: int,
)
    requires
        coded_levels(levels, stages),
        n <= stages.len(),
        0 <= i < levels[0].len(),
    ensures
        levels[n as int].len() == levels[0].len(),
        undo_stages(levels[n as int][i], stages, n) == Ok::<Seq<u8>, UnpackError>(levels[0][i]),
    decreases n,
{
    if n > 0 {
        let stage = stages[n - 1];
        assert(level_coded(levels[n - 1], levels[n - 1 + 1], stage));
        lemma_chunk_roundtrip(levels, stages, (n - 1) as nat, i);
        let after = levels[n as int];
        assert(codes_text(after[i], levels[n - 1][i], stage.0, stage.1));
        lemma_decode_coding(after[i], levels[n - 1][i], stage.0, stage.1);
    }
}

/// How many chunks of `chunk_size` bytes hold `total` bytes.
pub open spec fn count_of(total: nat, chunk_size: nat) -> nat {
    (total + chunk_size - 1) as nat / chunk_size
}

/// The chunk that begins at `start`.
pub open spec fn chunk_at(data: Seq<u8>, start: nat, chunk_size: nat) -> Seq<u8> {
    data.subrange(
        start as int,
        if start + chunk_size < data.len() {
            (start + chunk_size) as int
        } else {
            data.len() as int
        },
    )
}

/// `data` in chunks of `chunk_size` bytes; the last may be shorter.
pub open spec fn pieces(data: Seq<u8>, chunk_size: nat) -> Seq<Seq<u8>> {
    Seq::new(
        count_of(data.len(), chunk_size),
        |i: int| chunk_at(data, (i * chunk_size) as nat, chunk_size),
    )
}

/// The first `k` chunks end where they should.
spec fn chunks_end(data: Seq<u8>, chunk_size: nat, k: nat) -> int {
    if k * chunk_size < data.len() {
        (k * chunk_size) as int
    } else {
        data.len() as int
    }
}

/// A chunk begins inside the data.
proof fn lemma_chunk_inside(len: nat, chunk_size: nat, j: nat)
    requires
        chunk_size > 0,
        j < count_of(len, chunk_size),
    ensures
        0 <= j * chunk_size < len,
        (j + 1) * chunk_size == j * chunk_size + chunk_size,
{
    let t = len as int;
    let c = chunk_size as int;
    let q = count_of(len, chunk_size) as int;
    assert((q - 1) * c < t) by (nonlinear_arith)
        requires
            q == (t + c - 1) / c,
            c > 0,
    ;
    assert(0 <= j * c <= (q - 1) * c) by (nonlinear_arith)
        requires
            0 <= j <= q - 1,
            c > 0,
    ;
    assert((j + 1) * c == j * c + c) by (nonlinear_arith);
}

#[verifier::spinoff_prover]
proof fn lemma_pieces_front(data: Seq<u8>, chunk_size: nat, k: nat)
    requires
        chunk_size > 0,
        k <= count_of(data.len(), chunk_size),
    ensures
        joined(pieces(data, chunk_size).take(k as int)) == data.take(
            chunks_end(data, chunk_size, k),
        ),
    decreases k,
{
    let all = pieces(data, chunk_size);
    let front = all.take(k as int);
    if k == 0 {
        assert(0 * chunk_size == 0) by (nonlinear_arith);
        assert(chunks_end(data, chunk_size, 0) == 0);
        assert(front =~= Seq::<Seq<u8>>::empty());
        assert(joined(front) =~= Seq::<u8>::empty());
        assert(data.take(0) =~= Seq::<u8>::empty());
    } else {
        let j = (k - 1) as nat;
        lemma_pieces_front(data, chunk_size, j);
        lemma_chunk_inside(data.len(), chunk_size, j);
        let start = j * chunk_size;
        let end = chunks_end(data, chunk_size, k);
        assert(chunks_end(data, chunk_size, j) == start);
        assert(front.drop_last() =~= all.take(j as int));
        let last = chunk_at(data, start, chunk_size);
        assert(front.last() == last);
        assert(last == data.subrange(start as int, end));
        assert(joined(front) == data.take(start as int) + last);
        assert(data.take(start as int) + last =~= data.take(end));
    }
}

/// The chunks of the data, one behind the other, are the data.
pub proof fn lemma_pieces_joined(data: Seq<u8>, chunk_size: nat)
    requires
        chunk_size > 0,
    ensures
        joined(pieces(data, chunk_size)) == data,
{
    let q = count_of(data.len(), chunk_size);
    lemma_pieces_front(data, chunk_size, q);
    let t = data.len() as int;
    let c = chunk_size as int;
    assert(q * c >= t) by (nonlinear_arith)
        requires
            q == (t + c - 1) / c,
            c > 0,
    ;
    assert(chunks_end(data, chunk_size, q) == t);
    assert(pieces(data, chunk_size).take(q as int) =~= pieces(data, chunk_size));
    assert(data.take(t) =~= data);
}

/// Where stages have coded the chunks of the data, there are as many chunks at the end as chunks
/// of `chunk_size` bytes hold the data, each comes back to its own part of the data, and one
/// behind the other they come back to the data.
pub proof fn lemma_chunked_stages_roundtrip(
    data: Seq<u8>,
    chunk_size: nat,
    levels: Seq<Seq<Seq<u8>>>,
    stages: Seq<(u8, Map<u8, Seq<u8>>)>,
)
    requires
        chunk_size > 0,
        coded_levels(levels, stages),
        levels[0] == pieces(data, chunk_size),
    ensures
        levels.last().len() == count_of(data.len(), chunk_size),
        forall|i: int|
            0 <= i < levels.last().len() ==> undo_stages(
                #[trigger] levels.last()[i],
                stages,
                stages.len(),
            ) == Ok::<Seq<u8>, UnpackError>(pieces(data, chunk_size)[i]),
        undo_stages(joined(levels.last()), stages, stages.len()) == Ok::<Seq<u8>, UnpackError>(
            data,
        ),
{
    let n = stages.len();
    lemma_chunked_roundtrip(levels, stages, n);
    lemma_pieces_joined(data, chunk_size);
    lemma_level_lengths(levels, stages, n);
    assert forall|i: int| 0 <= i < levels.last().len() implies undo_stages(
        #[trigger] levels.last()[i],
        stages,
        stages.len(),
    ) == Ok::<Seq<u8>, UnpackError>(pieces(data, chunk_size)[i]) by {
        lemma_chunk_roundtrip(levels, stages, n, i);
    }
}

proof fn lemma_level_lengths(
    levels: Seq<Seq<Seq<u8>>>,
    stages: Seq<(u8, Map<u8, Seq<u8>>)>,
    n: nat,
)
    requires
        coded_levels(levels, stages),
        n <= stages.len(),
    ensures
        levels[n as int].len() == levels[0].len(),
    decreases n,
{
    if n > 0 {
        let stage = stages[n - 1];
        assert(level_coded(levels[n - 1], levels[n - 1 + 1], stage));
        lemma_level_lengths(levels, stages, (n - 1) as nat);
    }
}

/// What happens to the stages: a sample is drawn, or all chunks are coded.
pub enum Event {
    Sample(Seq<u8>),
    Coded { escape: u8, chunks: Seq<Seq<u8>> },
}

/// How far a run of the stages has come: the state, the strings that the last sample gave, the
/// stages that have stayed, and the chunks at the start and behind each of these stages.
pub struct Run {
    pub progress: Progress,
    pub found: Option<Seq<Seq<u8>>>,
    pub stages: Seq<(u8, Map<u8, Seq<u8>>)>,
    pub levels: Seq<Seq<Seq<u8>>>,
}

impl Run {
    /// What can happen next: a sample that is wanted is drawn, one that is taken after a first
    /// failure being no longer than wanted; or all chunks are coded with the strings that were found.
    pub open spec fn allows(self, event: Event) -> bool {
        match event {
            Event::Sample(sample) => {
                &&& self.progress.wanted() is Some
                &&& sample.len() <= usize::MAX
                &&& self.progress.phase is Retry ==> sample.len() <= self.progress.wanted()->0
            },
            Event::Coded { escape, chunks } => {
                &&& self.progress.phase is Encode
                &&& self.found matches Some(best) && level_coded(
                    self.levels.last(),
                    chunks,
                    (escape, numbered(best)),
                )
            },
        }
    }

    /// What comes of it.
    pub open spec fn after(self, event: Event) -> Run {
        match event {
            Event::Sample(sample) => {
                let (progress, found) = self.progress.after_sample(sample);
                Run { progress, found, ..self }
            },
            Event::Coded { escape, chunks } => {
                let (progress, v) = self.progress.after_encoding(joined(chunks).len());
                if v == Verdict::Discard {
                    Run { progress, ..self }
                } else {
                    Run {
                        progress,
                        stages: self.stages.push((escape, numbered(self.found->0))),
                        levels: self.levels.push(chunks),
                        ..self
                    }
                }
            },
        }
    }
}

/// The run over `data` in chunks of `chunk_size` bytes, behind the events.
pub open spec fn run_of(data: Seq<u8>, chunk_size: nat, events: Seq<Event>) -> Run
    decreases events.len(),
{
    if events.len() == 0 {
        Run {
            progress: Progress {
                iteration: 1,
                total: data.len(),
                last_good: None,
                phase: Phase::Probe,
            },
            found: None,
            stages: seq![],
            levels: seq![pieces(data, chunk_size)],
        }
    } else {
        run_of(data, chunk_size, events.drop_last()).after(events.last())
    }
}

/// Each event can happen where it does.
pub open spec fn is_run(data: Seq<u8>, chunk_size: nat, events: Seq<Event>) -> bool
    decreases events.len(),
{
    events.len() > 0 ==> is_run(data, chunk_size, events.drop_last()) && run_of(
        data,
        chunk_size,
        events.drop_last(),
    ).allows(events.last())
}

/// The state stays well-formed, and strings that are found make a proper dictionary.
proof fn lemma_after_sample(p: Progress, sample: Seq<u8>)
    requires
        p.wf(),
        sample.len() <= usize::MAX,
        p.phase is Retry ==> sample.len() <= retry_target(p.total),
    ensures
        p.after_sample(sample).0.wf(),
        p.after_sample(sample).1 matches Some(best) ==> chunks_ok(best) && best.len() > 0,
{
    lemma_probed_ok(sample);
    match p.phase {
        Phase::Analyse { sizes, flat } => {
            lemma_analysed_ok(sample, p.total, flat, sizes);
            lemma_best_chunks(analysed(sample, p.total, flat, sizes));
        },
        Phase::Retry { sizes } => {
            lemma_corpus_ok(sample, sample.len() / 2, sizes);
            lemma_best_chunks(retried(sample, sample.len() / 2, sizes));
        },
        _ => {},
    }
}

/// What holds all along a run.
spec fn run_ok(run: Run, data: Seq<u8>, chunk_size: nat) -> bool {
    &&& run.progress.wf()
    &&& 1 <= run.progress.iteration
    &&& run.stages.len() <= run.progress.iteration
    &&& !(run.progress.phase is Done) ==> run.stages.len() < run.progress.iteration
    &&& coded_levels(run.levels, run.stages)
    &&& run.levels[0] == pieces(data, chunk_size)
    &&& joined(run.levels.last()).len() <= run.progress.total
    &&& !(run.progress.phase is Done) ==> joined(run.levels.last()).len() == run.progress.total
    &&& run.stages.len() > 0 ==> joined(run.levels.last()).len() < data.len()
    &&& run.found matches Some(best) ==> chunks_ok(best) && best.len() > 0
    &&& forall|i: int|
        0 <= i < run.stages.len() ==> is_stage_table((#[trigger] run.stages[i]).1)
    &&& stages_fit(run.stages)
    &&& !has_full_stage(run.stages)
    &&& run.progress.total <= data.len()
}

proof fn lemma_run_coded(run: Run, data: Seq<u8>, chunk_size: nat, escape: u8, chunks: Seq<Seq<u8>>)
    requires
        run_ok(run, data, chunk_size),
        run.allows(Event::Coded { escape, chunks }),
    ensures
        run_ok(run.after(Event::Coded { escape, chunks }), data, chunk_size),
{
    let best = run.found->0;
    let stage = (escape, numbered(best));
    lemma_numbered(best);
    let next = run.after(Event::Coded { escape, chunks });
    if next.stages.len() > run.stages.len() {
        let n = run.stages.len() as int;
        assert(next.levels.last() == chunks);
        assert forall|k: int| 0 <= k < next.stages.len() implies level_coded(
            next.levels[k],
            next.levels[k + 1],
            #[trigger] next.stages[k],
        ) by {
            if k < n {
                assert(level_coded(run.levels[k], run.levels[k + 1], run.stages[k]));
            } else {
                assert(run.levels.last() == run.levels[n]);
            }
        }
        assert forall|i: int| 0 <= i < next.stages.len() implies is_stage_table(
            (#[trigger] next.stages[i]).1,
        ) && short_strings(next.stages[i].1) && code_count(next.stages[i].1, 256) <= 255 by {
            if i < n {
                assert(next.stages[i] == run.stages[i]);
            }
        }
    }
}

proof fn lemma_run_ok(data: Seq<u8>, chunk_size: nat, events: Seq<Event>)
    requires
        chunk_size > 0,
        is_run(data, chunk_size, events),
    ensures
        run_ok(run_of(data, chunk_size, events), data, chunk_size),
    decreases events.len(),
{
    if events.len() == 0 {
        lemma_pieces_joined(data, chunk_size);
        let run = run_of(data, chunk_size, events);
        assert(run.levels.last() == pieces(data, chunk_size));
    } else {
        let before = run_of(data, chunk_size, events.drop_last());
        lemma_run_ok(data, chunk_size, events.drop_last());
        match events.last() {
            Event::Sample(sample) => {
                lemma_after_sample(before.progress, sample);
            },
            Event::Coded { escape, chunks } => {
                lemma_run_coded(before, data, chunk_size, escape, chunks);
            },
        }
    }
}

/// A run of the stages over `data`, however it is told of samples and codings: no more than
/// `MAX_STAGES` stages stay, each with a proper dictionary; there are as many chunks at its end as
/// chunks of `chunk_size` bytes hold the data; each comes back to its own part of the data, and one
/// behind the other they come back to the data. Where a stage has stayed, they are shorter than the
/// data, else they are its parts.
pub proof fn lemma_run_roundtrip(data: Seq<u8>, chunk_size: nat, events: Seq<Event>)
    requires
        chunk_size > 0,
        is_run(data, chunk_size, events),
    ensures
        ({
            let run = run_of(data, chunk_size, events);
            let last = run.levels.last();
            &&& run.stages.len() <= MAX_STAGES
            &&& coded_levels(run.levels, run.stages)
            &&& run.levels[0] == pieces(data, chunk_size)
            &&& last.len() == count_of(data.len(), chunk_size)
            &&& forall|i: int|
                0 <= i < last.len() ==> undo_stages(
                    #[trigger] last[i],
                    run.stages,
                    run.stages.len(),
                ) == Ok::<Seq<u8>, UnpackError>(pieces(data, chunk_size)[i])
            &&& undo_stages(joined(last), run.stages, run.stages.len()) == Ok::<
                Seq<u8>,
                UnpackError,
            >(data)
            &&& run.stages.len() == 0 ==> last == pieces(data, chunk_size)
            &&& run.stages.len() > 0 ==> joined(last).len() < data.len()
            &&& forall|i: int|
                0 <= i < run.stages.len() ==> is_stage_table((#[trigger] run.stages[i]).1)
            &&& stages_fit(run.stages)
            &&& !has_full_stage(run.stages)
        }),
{
    lemma_run_ok(data, chunk_size, events);
    let run = run_of(data, chunk_size, events);
    lemma_chunked_stages_roundtrip(data, chunk_size, run.levels, run.stages);
}

/// Samples change nothing but what is waited for. A probe leads to the analysis, or to the repetitive
/// blocks first; an analysis to the coding, or to a larger sample first. Strings come exactly with the
/// step to the coding, and the attempt is the second exactly behind the larger sample.
pub proof fn lemma_sample_leads(p: Progress, sample: Seq<u8>)
    ensures
        ({
            let (q, strings) = p.after_sample(sample);
            &&& q.iteration == p.iteration
            &&& q.total == p.total
            &&& q.last_good == p.last_good
            &&& p.phase is Probe ==> q.phase is Analyse || q.phase is Hotspots
            &&& p.phase is Hotspots ==> q.phase is Analyse || q.phase is Done
            &&& p.phase is Analyse ==> q.phase is Encode || q.phase is Retry
            &&& p.phase is Retry ==> q.phase is Encode || q.phase is Done
            &&& p.phase is Encode || p.phase is Done ==> q == p && strings is None
            &&& p.phase is Analyse || p.phase is Retry ==> (strings is Some <==> q.phase is Encode)
            &&& strings matches Some(s) ==> s.len() > 0
            &&& p.phase is Analyse && q.phase is Encode ==> !q.phase->second_attempt
            &&& p.phase is Retry && q.phase is Encode ==> q.phase->second_attempt
            &&& p.phase is Hotspots && p.last_good is Some ==> q.phase is Analyse
        }),
{
}

/// The lengths that an analysis was done with are those that its stage passes on, and the next stage
/// starts with what the coding left. No stage is begun behind the last allowed one, or where the coding
/// saved less than a thousandth.
pub proof fn lemma_coding_leads(p: Progress, encoded: nat)
    requires
        p.phase is Encode,
    ensures
        ({
            let q = p.after_encoding(encoded).0;
            &&& q.phase is Probe || q.phase is Done
            &&& q.phase is Probe <==> p.iteration < 16 && encoded < p.total
                && !p.phase->second_attempt && p.total <= 1000 * (p.total - encoded)
            &&& q.phase is Probe ==> q.iteration == p.iteration + 1 && q.total == encoded
                && q.last_good == Some(p.phase->Encode_sizes)
            &&& p.after_encoding(encoded).1 == Verdict::Discard <==> p.total <= encoded
        }),
{
}

/// The sample of repetitive blocks is twice the first one. The one for the analysis holds twice the
/// regions that are cross-referenced, of 262144 bytes each, or all there is.
pub proof fn lemma_samples_wanted(p: Progress, flat: bool, sizes: Seq<usize>)
    ensures
        p.with_phase(Phase::Hotspots { flat }).wanted()->0 == 2 * p.with_phase(
            Phase::Probe,
        ).wanted()->0,
        p.with_phase(Phase::Probe).wanted()->0 <= p.total,
        p.with_phase(Phase::Retry { sizes }).wanted()->0 <= p.total,
        ({
            let n = p.with_phase(Phase::Analyse { sizes, flat }).wanted()->0;
            let all = 524288 * region_count(p.total, flat);
            &&& n <= p.total
            &&& n <= all
            &&& n == p.total || n == all
        }),
        p.with_phase(Phase::Done).wanted() is None,
{
}

/// What a sampler has collected stays: a chunk only adds to it, and nothing once it is full. What is
/// taken of a chunk is no more than its share, and a chunk within its share is taken whole.
pub proof fn lemma_sampler_collects(s: Sampling, chunk: Seq<u8>)
    requires
        chunk.len() <= usize::MAX,
    ensures
        ({
            let t = s.after(chunk);
            &&& t.target == s.target
            &&& t.per_chunk == s.per_chunk
            &&& t.out.len() >= s.out.len()
            &&& t.out.take(s.out.len() as int) == s.out
            &&& s.per_chunk is None ==> t.out == s.out + chunk && t.sample() == t.out
            &&& s.per_chunk matches Some(n) ==> {
                &&& s.out.len() >= s.target ==> t.out == s.out
                &&& s.out.len() < s.target && chunk.len() <= n ==> t.out == s.out + chunk
                &&& t.out.len() <= s.out.len() + n
                &&& s.out.len() < s.target && chunk.len() > n ==> s.out.len() + n < t.out.len() + 4
                &&& t.sample().len() <= t.target
                &&& t.out.len() <= t.target ==> t.sample() == t.out
                &&& t.out.len() > t.target ==> t.sample() == t.out.take(t.target as int)
            }
        }),
{
    let t = s.after(chunk);
    if s.per_chunk is Some {
        lemma_spread_sample(chunk, s.per_chunk->0, 4, 0);
    }
    assert(t.out.take(s.out.len() as int) =~= s.out);
}

} // verus!
