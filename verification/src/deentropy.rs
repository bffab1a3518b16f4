//! A reversible transform in front of the entropy coder: byte order and small shifts of the most
//! frequent byte values.

use vstd::prelude::*;

use crate::bytes::{copy_of, count_of, lemma_count_of_bound, reversed};
use crate::egap_codes::{lemma_ranked, lemma_ranked_by_frequency, rank_symbols, ranked};

verus! {

/// No more byte values than this are shifted.
pub const DEENTROPY_MAX_SHIFTS: usize = 3;

/// A transform must save at least this many bytes.
pub const DEENTROPY_MIN_GAIN: usize = 16;

#[derive(Clone, Copy, Debug, PartialEq, Eq, Structural)]
pub enum DeentropyMode {
    Identity,
    Shift,
    Reverse,
    ReverseShift,
}

/// A byte value and the distance it is moved.
#[derive(Clone, Copy, Debug, PartialEq, Eq, Structural)]
pub struct ShiftEntry {
    pub symbol: u8,
    pub offset: i8,
}

/// Which transform was applied.
#[derive(Debug)]
pub struct DeentropyMeta {
    pub mode: DeentropyMode,
    pub shifts: Vec<ShiftEntry>,
}

/// What a `DeentropyMeta` says.
pub struct Transform {
    pub mode: DeentropyMode,
    pub shifts: Seq<ShiftEntry>,
}

impl View for DeentropyMeta {
    type V = Transform;

    open spec fn view(&self) -> Transform {
        Transform { mode: self.mode, shifts: self.shifts@ }
    }
}

/// Why a transform's description cannot be read.
#[derive(Clone, Copy, Debug, PartialEq, Eq, Structural)]
pub enum MetaError {
    Truncated,
    InvalidMode(u8),
    TooManyShifts,
    TruncatedShifts,
}

pub open spec fn mode_byte(mode: DeentropyMode) -> u8 {
    match mode {
        DeentropyMode::Identity => 0,
        DeentropyMode::Shift => 1,
        DeentropyMode::Reverse => 2,
        DeentropyMode::ReverseShift => 3,
    }
}

/// The offset as a byte, in two's complement.
pub open spec fn offset_byte(offset: i8) -> u8 {
    if offset < 0 {
        (offset + 256) as u8
    } else {
        offset as u8
    }
}

pub open spec fn byte_offset(b: u8) -> i8 {
    if b >= 128 {
        (b - 256) as i8
    } else {
        b as i8
    }
}

pub open spec fn shift_bytes(shifts: Seq<ShiftEntry>) -> Seq<u8>
    decreases shifts.len(),
{
    if shifts.len() == 0 {
        seq![]
    } else {
        shift_bytes(shifts.drop_last()) + seq![
            shifts.last().symbol,
            offset_byte(shifts.last().offset),
        ]
    }
}

/// Mode, number of shifts, and two bytes for each shift.
pub open spec fn meta_bytes(t: Transform) -> Seq<u8> {
    seq![mode_byte(t.mode), (t.shifts.len() % 256) as u8] + shift_bytes(t.shifts)
}

/// The description at the start of `data`, and its length.
pub open spec fn parse_meta(data: Seq<u8>) -> Result<(Transform, nat), MetaError> {
    if data.len() < 2 {
        Err(MetaError::Truncated)
    } else if data[0] > 3 {
        Err(MetaError::InvalidMode(data[0]))
    } else if data[1] > DEENTROPY_MAX_SHIFTS {
        Err(MetaError::TooManyShifts)
    } else if data.len() < 2 + 2 * data[1] {
        Err(MetaError::TruncatedShifts)
    } else {
        let mode = if data[0] == 0 {
            DeentropyMode::Identity
        } else if data[0] == 1 {
            DeentropyMode::Shift
        } else if data[0] == 2 {
            DeentropyMode::Reverse
        } else {
            DeentropyMode::ReverseShift
        };
        let shifts = Seq::new(
            data[1] as nat,
            |i: int|
                ShiftEntry { symbol: data[2 + 2 * i], offset: byte_offset(data[2 + 2 * i + 1]) },
        );
        Ok((Transform { mode, shifts }, (2 + 2 * data[1]) as nat))
    }
}

impl DeentropyMeta {
    /// No transform.
    pub fn none() -> (m: Self)
        ensures
            m@ == no_transform(),
    {
        let m = DeentropyMeta { mode: DeentropyMode::Identity, shifts: Vec::new() };
        assert(m.shifts@ =~= seq![]);
        m
    }

    /// The length of the serialized description.
    pub fn meta_size(&self) -> (n: usize)
        requires
            2 + 2 * self.shifts@.len() <= usize::MAX,
        ensures
            n == 2 + 2 * self.shifts@.len(),
    {
        2 + 2 * self.shifts.len()
    }

    /// The description as bytes.
    pub fn serialize(&self) -> (out: Vec<u8>)
        ensures
            out@ == meta_bytes(self@),
    {
        let mut out: Vec<u8> = Vec::new();
        let mode: u8 = match self.mode {
            DeentropyMode::Identity => 0,
            DeentropyMode::Shift => 1,
            DeentropyMode::Reverse => 2,
            DeentropyMode::ReverseShift => 3,
        };
        out.push(mode);
        out.push((self.shifts.len() % 256) as u8);
        let ghost front = out@;
        let mut i: usize = 0;
        assert(front + shift_bytes(self.shifts@.take(0)) =~= front);
        while i < self.shifts.len()
            invariant
                i <= self.shifts@.len(),
                out@ == front + shift_bytes(self.shifts@.take(i as int)),
            decreases self.shifts@.len() - i,
        {
            let s = self.shifts[i];
            let ghost before = out@;
            out.push(s.symbol);
            if s.offset < 0 {
                out.push((s.offset as i16 + 256) as u8);
            } else {
                out.push(s.offset as u8);
            }
            proof {
                assert(self.shifts@.take(i + 1).drop_last() =~= self.shifts@.take(i as int));
                assert(out@ =~= before + seq![s.symbol, offset_byte(s.offset)]);
                assert(out@ =~= front + shift_bytes(self.shifts@.take(i + 1)));
            }
            i += 1;
        }
        proof {
            assert(self.shifts@.take(i as int) =~= self.shifts@);
            assert(out@ =~= meta_bytes(self@));
        }
        out
    }

    /// The description at the start of `data`, and its length.
    pub fn deserialize(data: &[u8]) -> (r: Result<(DeentropyMeta, usize), MetaError>)
        ensures
            match r {
                Ok((m, n)) => parse_meta(data@) == Ok::<(Transform, nat), MetaError>(
                    (m@, n as nat),
                ) && n <= data.len(),
                Err(e) => parse_meta(data@) == Err::<(Transform, nat), MetaError>(e),
            },
    {
        if data.len() < 2 {
            return Err(MetaError::Truncated);
        }
        let mode = match data[0] {
            0 => DeentropyMode::Identity,
            1 => DeentropyMode::Shift,
            2 => DeentropyMode::Reverse,
            3 => DeentropyMode::ReverseShift,
            x => {
                return Err(MetaError::InvalidMode(x));
            },
        };
        let num_shifts = data[1] as usize;
        if num_shifts > DEENTROPY_MAX_SHIFTS {
            return Err(MetaError::TooManyShifts);
        }
        let needed = 2 + 2 * num_shifts;
        if data.len() < needed {
            return Err(MetaError::TruncatedShifts);
        }
        let mut shifts: Vec<ShiftEntry> = Vec::with_capacity(num_shifts);
        let mut i: usize = 0;
        while i < num_shifts
            invariant
                i <= num_shifts <= 3,
                2 + 2 * num_shifts <= data@.len(),
                shifts@ =~= Seq::new(
                    i as nat,
                    |j: int|
                        ShiftEntry {
                            symbol: data@[2 + 2 * j],
                            offset: byte_offset(data@[2 + 2 * j + 1]),
                        },
                ),
            decreases num_shifts - i,
        {
            let b = data[2 + 2 * i + 1];
            let offset: i8 = if b >= 128 {
                (b as i16 - 256) as i8
            } else {
                b as i8
            };
            shifts.push(ShiftEntry { symbol: data[2 + 2 * i], offset });
            i += 1;
        }
        let meta = DeentropyMeta { mode, shifts };
        proof {
            let t = parse_meta(data@)->Ok_0.0;
            assert(meta@.shifts =~= t.shifts);
        }
        Ok((meta, needed))
    }
}

pub open spec fn no_transform() -> Transform {
    Transform { mode: DeentropyMode::Identity, shifts: seq![] }
}

proof fn lemma_shift_bytes(shifts: Seq<ShiftEntry>)
    ensures
        shift_bytes(shifts).len() == 2 * shifts.len(),
        forall|i: int|
            0 <= i < shifts.len() ==> shift_bytes(shifts)[2 * i] == (#[trigger] shifts[i]).symbol
                && shift_bytes(shifts)[2 * i + 1] == offset_byte(shifts[i].offset),
    decreases shifts.len(),
{
    if shifts.len() > 0 {
        let shorter = shifts.drop_last();
        lemma_shift_bytes(shorter);
        assert forall|i: int| 0 <= i < shifts.len() implies shift_bytes(shifts)[2 * i] == (
        #[trigger] shifts[i]).symbol && shift_bytes(shifts)[2 * i + 1] == offset_byte(
            shifts[i].offset,
        ) by {
            if i < shorter.len() {
                assert(shorter[i] == shifts[i]);
            }
        }
    }
}

/// A description is read back as what was written, whatever stands behind it.
pub proof fn lemma_meta_roundtrip(t: Transform, rest: Seq<u8>)
    requires
        t.shifts.len() <= DEENTROPY_MAX_SHIFTS,
    ensures
        parse_meta(meta_bytes(t) + rest) == Ok::<(Transform, nat), MetaError>(
            (t, meta_bytes(t).len()),
        ),
        meta_bytes(t).len() == 2 + 2 * t.shifts.len(),
{
    let all = meta_bytes(t) + rest;
    lemma_shift_bytes(t.shifts);
    let s = shift_bytes(t.shifts);
    let parsed = parse_meta(all)->Ok_0.0;
    assert forall|i: int| 0 <= i < t.shifts.len() implies #[trigger] parsed.shifts[i]
        == t.shifts[i] by {
        assert(t.shifts[i].symbol == s[2 * i]);
        assert(all[2 + 2 * i] == s[2 * i]);
        assert(all[2 + 2 * i + 1] == s[2 * i + 1]);
    }
    assert(parsed.shifts =~= t.shifts);
}

/// Where a shift sends its byte value.
pub open spec fn shift_target(entry: ShiftEntry) -> u8 {
    ((entry.symbol + entry.offset) % 256) as u8
}

/// The mapping that leaves each byte value in place.
pub open spec fn identity_map() -> Seq<u8> {
    Seq::new(256, |i: int| i as u8)
}

/// The byte value that `map` sends to `b`.
pub open spec fn source_of(map: Seq<u8>, b: u8) -> u8 {
    choose|s: u8| map[s as int] == b
}

/// Sends the entry's byte value to its target; the value that went there takes the place that
/// becomes free.
pub open spec fn shift_step(map: Seq<u8>, entry: ShiftEntry) -> Seq<u8> {
    let dst = shift_target(entry);
    let old_dst = map[entry.symbol as int];
    if entry.offset == 0 || old_dst == dst {
        map
    } else {
        map.update(entry.symbol as int, dst).update(source_of(map, dst) as int, old_dst)
    }
}

/// The mapping after all shifts.
pub open spec fn shift_map(shifts: Seq<ShiftEntry>) -> Seq<u8>
    decreases shifts.len(),
{
    if shifts.len() == 0 {
        identity_map()
    } else {
        shift_step(shift_map(shifts.drop_last()), shifts.last())
    }
}

/// `inv` undoes `map`, and `map` undoes `inv`.
pub open spec fn mutual_inverse(map: Seq<u8>, inv: Seq<u8>) -> bool {
    &&& map.len() == 256
    &&& inv.len() == 256
    &&& forall|b: u8| inv[(#[trigger] map[b as int]) as int] == b
    &&& forall|b: u8| map[(#[trigger] inv[b as int]) as int] == b
}

/// The mapping that the shifts ask for, made a bijection by swaps.
pub fn build_shift_permutation(shifts: &[ShiftEntry]) -> (fwd: [u8; 256])
    ensures
        fwd@ == shift_map(shifts@),
        exists|inv: Seq<u8>| #[trigger] mutual_inverse(fwd@, inv),
        no_conflicts(shifts@) ==> forall|i: int|
            0 <= i < shifts@.len() && (#[trigger] shifts@[i]).offset != 0
                ==> fwd@[shifts@[i].symbol as int] == shift_target(shifts@[i]),
{
    let mut fwd: [u8; 256] = [0u8; 256];
    let mut rev: [u8; 256] = [0u8; 256];
    let mut i: usize = 0;
    while i < 256
        invariant
            i <= 256,
            forall|j: int| 0 <= j < i ==> fwd@[j] == j && rev@[j] == j,
        decreases 256 - i,
    {
        fwd[i] = i as u8;
        rev[i] = i as u8;
        i += 1;
    }
    assert(fwd@ =~= identity_map());
    assert(shifts@.take(0) =~= seq![]);
    let mut k: usize = 0;
    while k < shifts.len()
        invariant
            k <= shifts@.len(),
            mutual_inverse(fwd@, rev@),
            fwd@ == shift_map(shifts@.take(k as int)),
        decreases shifts@.len() - k,
    {
        let entry = shifts[k];
        assert(shifts@.take(k + 1).drop_last() =~= shifts@.take(k as int));
        let dst = (entry.symbol as i16 + entry.offset as i16 + 256) as u16 % 256;
        let src = entry.symbol as usize;
        let old_dst = fwd[src];
        assert(dst == shift_target(entry));
        if entry.offset != 0 && old_dst as u16 != dst {
            let displaced = rev[dst as usize];
            let ghost map = fwd@;
            let ghost inv = rev@;
            proof {
                assert(map[inv[dst as int] as int] == dst);
                let s = source_of(map, dst as u8);
                assert(map[displaced as int] == dst as u8);
                assert(map[s as int] == dst as u8);
                assert(inv[map[s as int] as int] == s);
                assert(s == displaced);
                assert(inv[map[src as int] as int] == src);
            }
            fwd[src] = dst as u8;
            fwd[displaced as usize] = old_dst;
            rev[dst as usize] = entry.symbol;
            rev[old_dst as usize] = displaced;
            proof {
                assert forall|b: u8| rev@[(#[trigger] fwd@[b as int]) as int] == b by {
                    assert(inv[map[b as int] as int] == b);
                }
                assert forall|b: u8| fwd@[(#[trigger] rev@[b as int]) as int] == b by {
                    assert(map[inv[b as int] as int] == b);
                }
            }
        }
        k += 1;
    }
    assert(shifts@.take(k as int) =~= shifts@);
    proof {
        if no_conflicts(shifts@) {
            lemma_shifts_land(shifts@);
        }
    }
    fwd
}

proof fn lemma_shift_step_inverse(map: Seq<u8>, inv: Seq<u8>, entry: ShiftEntry) -> (new: Seq<u8>)
    requires
        mutual_inverse(map, inv),
    ensures
        mutual_inverse(shift_step(map, entry), new),
{
    let dst = shift_target(entry);
    let src = entry.symbol;
    let old_dst = map[src as int];
    if entry.offset == 0 || old_dst == dst {
        inv
    } else {
        let s = source_of(map, dst);
        assert(map[inv[dst as int] as int] == dst);
        assert(inv[map[s as int] as int] == s);
        assert(inv[map[src as int] as int] == src);
        let new = inv.update(dst as int, src).update(old_dst as int, s);
        let fwd = shift_step(map, entry);
        assert forall|b: u8| new[(#[trigger] fwd[b as int]) as int] == b by {
            assert(inv[map[b as int] as int] == b);
        }
        assert forall|b: u8| fwd[(#[trigger] new[b as int]) as int] == b by {
            assert(map[inv[b as int] as int] == b);
        }
        new
    }
}

/// The mapping of any shifts is a bijection.
pub proof fn lemma_shift_map_bijective(shifts: Seq<ShiftEntry>)
    ensures
        exists|inv: Seq<u8>| #[trigger] mutual_inverse(shift_map(shifts), inv),
    decreases shifts.len(),
{
    if shifts.len() == 0 {
        assert(shift_map(shifts) == identity_map());
        assert(mutual_inverse(shift_map(shifts), identity_map()));
    } else {
        lemma_shift_map_bijective(shifts.drop_last());
        let map = shift_map(shifts.drop_last());
        let inv = choose|inv: Seq<u8>| #[trigger] mutual_inverse(map, inv);
        let new = lemma_shift_step_inverse(map, inv, shifts.last());
        assert(mutual_inverse(shift_map(shifts), new));
    }
}

/// No two of the entries that move a byte value move the same one, or to the same place.
pub open spec fn no_conflicts(shifts: Seq<ShiftEntry>) -> bool {
    forall|i: int, j: int|
        #![trigger shifts[i], shifts[j]]
        0 <= i < j < shifts.len() && shifts[i].offset != 0 && shifts[j].offset != 0
            ==> shifts[i].symbol != shifts[j].symbol && shift_target(shifts[i]) != shift_target(
            shifts[j],
        )
}

/// Without conflicts, each byte value that is moved lands where its entry asks.
pub proof fn lemma_shifts_land(shifts: Seq<ShiftEntry>)
    requires
        no_conflicts(shifts),
    ensures
        forall|i: int|
            0 <= i < shifts.len() && (#[trigger] shifts[i]).offset != 0 ==> shift_map(
                shifts,
            )[shifts[i].symbol as int] == shift_target(shifts[i]),
    decreases shifts.len(),
{
    if shifts.len() > 0 {
        let front = shifts.drop_last();
        let last = shifts[shifts.len() - 1];
        assert forall|i: int, j: int|
            #![trigger front[i], front[j]]
            0 <= i < j < front.len() && front[i].offset != 0 && front[j].offset
                != 0 implies front[i].symbol != front[j].symbol && shift_target(front[i])
            != shift_target(front[j]) by {
            assert(front[i] == shifts[i] && front[j] == shifts[j]);
        }
        lemma_shifts_land(front);
        lemma_shift_map_bijective(front);
        let map = shift_map(front);
        let inv = choose|inv: Seq<u8>| #[trigger] mutual_inverse(map, inv);
        let dst = shift_target(last);
        assert(map[inv[dst as int] as int] == dst);
        let s = source_of(map, dst);
        assert(map[s as int] == dst);
        assert(inv[map[last.symbol as int] as int] == last.symbol);
        assert forall|i: int| 0 <= i < shifts.len() && (#[trigger] shifts[i]).offset
            != 0 implies shift_map(shifts)[shifts[i].symbol as int] == shift_target(shifts[i]) by {
            if i < front.len() {
                assert(front[i] == shifts[i]);
                assert(map[front[i].symbol as int] == shift_target(front[i]));
            }
        }
    }
}

/// An entry with offset zero changes nothing.
pub proof fn lemma_zero_shift(shifts: Seq<ShiftEntry>, i: int)
    requires
        0 <= i < shifts.len(),
        shifts[i].offset == 0,
    ensures
        shift_map(shifts) == shift_map(shifts.remove(i)),
    decreases shifts.len(),
{
    let rest = shifts.remove(i);
    if i == shifts.len() - 1 {
        assert(rest =~= shifts.drop_last());
    } else {
        lemma_zero_shift(shifts.drop_last(), i);
        assert(rest.drop_last() =~= shifts.drop_last().remove(i));
        assert(rest.last() == shifts.last());
    }
}

/// The inverse table of the first `k` entries of `perm`: behind each image the last value that
/// has it.
pub open spec fn inverted(perm: Seq<u8>, k: nat) -> Seq<u8>
    decreases k,
{
    if k == 0 {
        Seq::new(256, |i: int| 0u8)
    } else {
        inverted(perm, (k - 1) as nat).update(perm[k - 1] as int, (k - 1) as u8)
    }
}

/// The table that undoes `perm`.
pub fn invert_permutation(perm: &[u8; 256]) -> (inv: [u8; 256])
    ensures
        inv@ == inverted(perm@, 256),
{
    let mut inv: [u8; 256] = [0u8; 256];
    let mut i: usize = 0;
    assert(inv@ =~= inverted(perm@, 0));
    while i < 256
        invariant
            i <= 256,
            inv@ == inverted(perm@, i as nat),
        decreases 256 - i,
    {
        inv[perm[i] as usize] = i as u8;
        i += 1;
    }
    inv
}

proof fn lemma_inverted(perm: Seq<u8>, inv: Seq<u8>, k: nat)
    requires
        mutual_inverse(perm, inv),
        k <= 256,
    ensures
        inverted(perm, k).len() == 256,
        forall|b: u8|
            b < k ==> inverted(perm, k)[(#[trigger] perm[b as int]) as int] == b,
    decreases k,
{
    if k > 0 {
        lemma_inverted(perm, inv, (k - 1) as nat);
        assert forall|b: u8| b < k implies inverted(perm, k)[(#[trigger] perm[b as int]) as int]
            == b by {
            let last = (k - 1) as u8;
            assert(inv[perm[last as int] as int] == last);
            assert(inv[perm[b as int] as int] == b);
        }
    }
}

/// Each byte of `data` through the table.
pub open spec fn mapped(data: Seq<u8>, map: Seq<u8>) -> Seq<u8> {
    Seq::new(data.len(), |i: int| map[data[i] as int])
}

/// Each byte of `data` through the table.
pub fn apply_byte_permutation(data: &[u8], perm: &[u8; 256]) -> (out: Vec<u8>)
    ensures
        out@ == mapped(data@, perm@),
{
    let mut out: Vec<u8> = Vec::with_capacity(data.len());
    let mut i: usize = 0;
    while i < data.len()
        invariant
            i <= data@.len(),
            out@ =~= mapped(data@, perm@).take(i as int),
        decreases data@.len() - i,
    {
        out.push(perm[data[i] as usize]);
        i += 1;
    }
    assert(out@ =~= mapped(data@, perm@));
    out
}

pub open spec fn reverses(mode: DeentropyMode) -> bool {
    mode == DeentropyMode::Reverse || mode == DeentropyMode::ReverseShift
}

pub open spec fn moves(mode: DeentropyMode) -> bool {
    mode == DeentropyMode::Shift || mode == DeentropyMode::ReverseShift
}

/// What the transform makes of `data`: turned round first, shifted second.
pub open spec fn transformed(data: Seq<u8>, t: Transform) -> Seq<u8> {
    let turned = if reverses(t.mode) {
        data.reverse()
    } else {
        data
    };
    if moves(t.mode) {
        mapped(turned, shift_map(t.shifts))
    } else {
        turned
    }
}

/// What the inverse transform makes of `data`.
pub open spec fn restored(data: Seq<u8>, t: Transform) -> Seq<u8> {
    let unshifted = if moves(t.mode) && t.shifts.len() > 0 {
        mapped(data, inverted(shift_map(t.shifts), 256))
    } else {
        data
    };
    if reverses(t.mode) {
        unshifted.reverse()
    } else {
        unshifted
    }
}

/// Applies a transform.
pub fn apply_deentropy(data: &[u8], meta: &DeentropyMeta) -> (out: Vec<u8>)
    ensures
        out@ == transformed(data@, meta@),
{
    let turned = match meta.mode {
        DeentropyMode::Reverse => reversed(data),
        DeentropyMode::ReverseShift => reversed(data),
        _ => copy_of(data),
    };
    match meta.mode {
        DeentropyMode::Identity => turned,
        DeentropyMode::Reverse => turned,
        _ => {
            let perm = build_shift_permutation(&meta.shifts);
            apply_byte_permutation(&turned, &perm)
        },
    }
}

/// Undoes a transform: shifts first, then the order.
pub fn inverse_deentropy_transform(data: &[u8], meta: &DeentropyMeta) -> (out: Vec<u8>)
    ensures
        out@ == restored(data@, meta@),
{
    let shifted = match meta.mode {
        DeentropyMode::Shift => true,
        DeentropyMode::ReverseShift => true,
        _ => false,
    };
    let result = if shifted && meta.shifts.len() > 0 {
        let perm = build_shift_permutation(&meta.shifts);
        let inv = invert_permutation(&perm);
        apply_byte_permutation(data, &inv)
    } else {
        copy_of(data)
    };
    match meta.mode {
        DeentropyMode::Reverse => reversed(&result),
        DeentropyMode::ReverseShift => reversed(&result),
        _ => result,
    }
}

/// Every transform is undone by its inverse.
pub proof fn lemma_transform_roundtrip(data: Seq<u8>, t: Transform)
    ensures
        restored(transformed(data, t), t) == data,
{
    let turned = if reverses(t.mode) {
        data.reverse()
    } else {
        data
    };
    let map = shift_map(t.shifts);
    if moves(t.mode) {
        if t.shifts.len() == 0 {
            assert(mapped(turned, map) =~= turned);
        } else {
            lemma_shift_map_bijective(t.shifts);
            let inv = choose|inv: Seq<u8>| #[trigger] mutual_inverse(map, inv);
            lemma_inverted(map, inv, 256);
            let back = mapped(mapped(turned, map), inverted(map, 256));
            assert forall|i: int| 0 <= i < turned.len() implies back[i] == turned[i] by {
                let b = turned[i];
                assert(inverted(map, 256)[map[b as int] as int] == b);
            }
            assert(back =~= turned);
        }
    }
    assert(restored(transformed(data, t), t) =~= data);
}

/// The shifts of combination `combo` over `top` that move something: the base-three digits of
/// `combo` less one, least significant first, are the offsets.
pub open spec fn active_shifts(top: Seq<u8>, combo: nat) -> Seq<ShiftEntry>
    decreases top.len(),
{
    if top.len() == 0 {
        seq![]
    } else {
        let rest = active_shifts(top.skip(1), combo / 3);
        if combo % 3 == 1 {
            rest
        } else {
            seq![ShiftEntry { symbol: top[0], offset: (combo % 3 - 1) as i8 }] + rest
        }
    }
}

pub open spec fn pow3(n: nat) -> nat
    decreases n,
{
    if n == 0 {
        1
    } else {
        3 * pow3((n - 1) as nat)
    }
}

/// The transforms that the combinations below `n` stand for, each in both byte orders.
pub open spec fn shift_plans(top: Seq<u8>, n: nat) -> Seq<Transform>
    decreases n,
{
    if n == 0 {
        seq![]
    } else {
        let before = shift_plans(top, (n - 1) as nat);
        let shifts = active_shifts(top, (n - 1) as nat);
        if shifts.len() == 0 {
            before
        } else {
            before + seq![
                Transform { mode: DeentropyMode::Shift, shifts },
                Transform { mode: DeentropyMode::ReverseShift, shifts },
            ]
        }
    }
}

/// The most frequent byte values of `data`, three at most.
pub open spec fn top_symbols(data: Seq<u8>) -> Seq<u8> {
    let all = ranked(data);
    if all.len() < DEENTROPY_MAX_SHIFTS {
        all
    } else {
        all.take(DEENTROPY_MAX_SHIFTS as int)
    }
}

/// All transforms that are tried on `data`: reversal alone, then the shifts.
pub open spec fn plans(data: Seq<u8>) -> Seq<Transform> {
    let top = top_symbols(data);
    seq![Transform { mode: DeentropyMode::Reverse, shifts: seq![] }] + shift_plans(
        top,
        pow3(top.len()),
    )
}

fn shifts_of_combo(top: &[u8], combo: usize) -> (shifts: Vec<ShiftEntry>)
    ensures
        shifts@ == active_shifts(top@, combo as nat),
{
    let mut shifts: Vec<ShiftEntry> = Vec::new();
    let mut c: usize = combo;
    let mut i: usize = 0;
    proof {
        assert(top@.skip(0) =~= top@);
        assert(shifts@ + active_shifts(top@, combo as nat) =~= active_shifts(top@, combo as nat));
    }
    while i < top.len()
        invariant
            i <= top@.len(),
            shifts@ + active_shifts(top@.skip(i as int), c as nat) == active_shifts(
                top@,
                combo as nat,
            ),
        decreases top@.len() - i,
    {
        let offset: i8 = (c % 3) as i8 - 1;
        let ghost before = shifts@;
        let ghost tail = top@.skip(i as int);
        if offset != 0 {
            shifts.push(ShiftEntry { symbol: top[i], offset });
        }
        proof {
            assert(tail.skip(1) =~= top@.skip(i + 1));
            assert(shifts@ + active_shifts(top@.skip(i + 1), c as nat / 3) =~= before
                + active_shifts(tail, c as nat));
        }
        c = c / 3;
        i += 1;
    }
    assert(shifts@ =~= active_shifts(top@, combo as nat));
    shifts
}

/// The views of a list of descriptions.
pub open spec fn views(plans: Seq<DeentropyMeta>) -> Seq<Transform> {
    Seq::new(plans.len(), |i: int| plans[i]@)
}

/// All transforms that are tried on `data`.
pub fn deentropy_plans(data: &[u8]) -> (out: Vec<DeentropyMeta>)
    ensures
        views(out@) == plans(data@),
        forall|i: int| 0 <= i < out@.len() ==> (#[trigger] out@[i]).shifts@.len() <= 3,
{
    let all = rank_symbols(data);
    let top_n: usize = if all.len() < DEENTROPY_MAX_SHIFTS {
        all.len()
    } else {
        DEENTROPY_MAX_SHIFTS
    };
    let top = &all[0..top_n];
    proof {
        assert(top@ =~= top_symbols(data@));
        reveal_with_fuel(pow3, 4);
    }
    let mut combos: usize = 1;
    let mut k: usize = 0;
    while k < top_n
        invariant
            k <= top_n <= 3,
            combos as nat == pow3(k as nat),
            combos <= 9 || k == 3,
            combos <= 27,
        decreases top_n - k,
    {
        proof {
            reveal_with_fuel(pow3, 4);
        }
        combos = combos * 3;
        k += 1;
    }
    let mut out: Vec<DeentropyMeta> = Vec::new();
    let first = DeentropyMeta { mode: DeentropyMode::Reverse, shifts: Vec::new() };
    assert(first.shifts@ =~= seq![]);
    out.push(first);
    let ghost head = seq![Transform { mode: DeentropyMode::Reverse, shifts: seq![] }];
    assert(views(out@) =~= head + shift_plans(top@, 0));
    let mut combo: usize = 0;
    while combo < combos
        invariant
            combo <= combos <= 27,
            top@.len() <= 3,
            views(out@) == head + shift_plans(top@, combo as nat),
            forall|i: int| 0 <= i < out@.len() ==> (#[trigger] out@[i]).shifts@.len() <= 3,
        decreases combos - combo,
    {
        let shifts = shifts_of_combo(top, combo);
        proof {
            lemma_active_shifts_len(top@, combo as nat);
        }
        if shifts.len() > 0 {
            let again = shifts_of_combo(top, combo);
            let ghost before = views(out@);
            let a = DeentropyMeta { mode: DeentropyMode::Shift, shifts };
            let b = DeentropyMeta { mode: DeentropyMode::ReverseShift, shifts: again };
            let ghost va = a@;
            let ghost vb = b@;
            out.push(a);
            out.push(b);
            assert(views(out@) =~= before + seq![va, vb]);
        }
        assert(views(out@) =~= head + shift_plans(top@, (combo + 1) as nat));
        combo += 1;
    }
    out
}

proof fn lemma_active_shifts_len(top: Seq<u8>, combo: nat)
    ensures
        active_shifts(top, combo).len() <= top.len(),
    decreases top.len(),
{
    if top.len() > 0 {
        lemma_active_shifts_len(top.skip(1), combo / 3);
    }
}

/// The best plan among the first `k` and its cost: `costs` are the costs of the transformed data,
/// to which the description is added. A plan wins if it is cheaper than all before it, and than
/// doing nothing, by the least gain.
pub open spec fn best_plan(
    baseline: nat,
    plans: Seq<Transform>,
    costs: Seq<usize>,
    k: nat,
) -> (nat, Option<nat>)
    decreases k,
{
    if k == 0 {
        (baseline, None)
    } else {
        let best = best_plan(baseline, plans, costs, (k - 1) as nat);
        let cost = (costs[k - 1] + 2 + 2 * plans[k - 1].shifts.len()) as nat;
        if cost + DEENTROPY_MIN_GAIN <= best.0 {
            (cost, Some((k - 1) as nat))
        } else {
            best
        }
    }
}

/// The transform that is chosen for `data`, given the cost of the data as it is and after each of
/// its plans.
pub open spec fn chosen_transform(data: Seq<u8>, baseline: usize, costs: Seq<usize>) -> Transform {
    if data.len() < 64 {
        no_transform()
    } else {
        match best_plan(baseline as nat, plans(data), costs, plans(data).len()).1 {
            Some(i) => plans(data)[i as int],
            None => no_transform(),
        }
    }
}

/// What `cost` can say of each plan for `data`.
pub open spec fn measured<F: Fn(&[u8]) -> usize>(
    cost: F,
    data: Seq<u8>,
    costs: Seq<usize>,
) -> bool {
    &&& costs.len() == plans(data).len()
    &&& forall|i: int|
        0 <= i < costs.len() ==> measures(cost, transformed(data, plans(data)[i]), #[trigger] costs[i])
}

/// `c` is a cost that `cost` can give for the bytes `s`.
pub open spec fn measures<F: Fn(&[u8]) -> usize>(cost: F, s: Seq<u8>, c: usize) -> bool {
    exists|slice: &[u8]| slice@ == s && #[trigger] call_ensures(cost, (slice,), c)
}

/// Searches the transforms of `data` for the one that pays most by the estimate `cost`, and
/// applies it.
pub fn deentropy_transform<F: Fn(&[u8]) -> usize>(data: &[u8], cost: F) -> (r: (
    Vec<u8>,
    DeentropyMeta,
))
    requires
        forall|s: &[u8]| call_requires(cost, (s,)),
    ensures
        data@.len() < 64 ==> r.1@ == no_transform(),
        data@.len() >= 64 ==> exists|baseline: usize, costs: Seq<usize>|
            #![trigger chosen_transform(data@, baseline, costs)]
            measures(cost, data@, baseline) && measured(cost, data@, costs) && r.1@
                == chosen_transform(data@, baseline, costs),
        r.0@ == transformed(data@, r.1@),
        r.1.shifts@.len() <= 3,
{
    if data.len() < 64 {
        return (copy_of(data), DeentropyMeta::none());
    }
    let baseline = cost(data);
    let candidates = deentropy_plans(data);
    let ghost all = plans(data@);
    assert(candidates@.len() == views(candidates@).len());
    let mut costs: Vec<usize> = Vec::with_capacity(candidates.len());
    let mut k: usize = 0;
    while k < candidates.len()
        invariant
            k <= candidates@.len(),
            costs@.len() == k,
            all == plans(data@),
            views(candidates@) == all,
            candidates@.len() == all.len(),
            forall|s: &[u8]| call_requires(cost, (s,)),
            forall|i: int| 0 <= i < k ==> measures(cost, transformed(data@, all[i]), #[trigger] costs@[i]),
        decreases candidates@.len() - k,
    {
        assert(views(candidates@)[k as int] == candidates@[k as int]@);
        let candidate = apply_deentropy(data, &candidates[k]);
        let slice = candidate.as_slice();
        let c = cost(slice);
        assert(measures(cost, transformed(data@, all[k as int]), c));
        costs.push(c);
        k += 1;
    }
    assert(measures(cost, data@, baseline));
    assert(measured(cost, data@, costs@));
    select_deentropy(data, baseline, &costs)
}

/// Chooses and applies the transform that pays most. `baseline_cost` is the estimated cost of
/// `data`, and `costs` are those of `data` after each of its plans; data of fewer than 64 bytes
/// needs none.
pub fn select_deentropy(data: &[u8], baseline_cost: usize, costs: &[usize]) -> (r: (
    Vec<u8>,
    DeentropyMeta,
))
    requires
        data.len() >= 64 ==> costs@.len() == plans(data@).len(),
    ensures
        r.1@ == chosen_transform(data@, baseline_cost, costs@),
        r.0@ == transformed(data@, r.1@),
        r.1.shifts@.len() <= 3,
{
    if data.len() < 64 {
        return (copy_of(data), DeentropyMeta::none());
    }
    let mut candidates = deentropy_plans(data);
    let ghost all = plans(data@);
    assert(candidates@.len() == views(candidates@).len());
    let mut best_cost: u128 = baseline_cost as u128;
    let mut best: Option<usize> = None;
    let mut k: usize = 0;
    while k < candidates.len()
        invariant
            k <= candidates@.len(),
            candidates@.len() == all.len(),
            costs@.len() == all.len(),
            views(candidates@) == all,
            forall|i: int|
                0 <= i < candidates@.len() ==> (#[trigger] candidates@[i]).shifts@.len() <= 3,
            best_plan(baseline_cost as nat, all, costs@, k as nat) == (
                best_cost as nat,
                match best {
                    Some(i) => Some(i as nat),
                    None => None::<nat>,
                },
            ),
            best matches Some(i) ==> i < k,
        decreases candidates@.len() - k,
    {
        assert(views(candidates@)[k as int] == candidates@[k as int]@);
        let cost: u128 = costs[k] as u128 + 2 + 2 * candidates[k].shifts.len() as u128;
        if cost + DEENTROPY_MIN_GAIN as u128 <= best_cost {
            best_cost = cost;
            best = Some(k);
        }
        k += 1;
    }
    match best {
        Some(i) => {
            assert(views(candidates@)[i as int] == candidates@[i as int]@);
            let meta = candidates.swap_remove(i);
            let out = apply_deentropy(data, &meta);
            (out, meta)
        },
        None => (copy_of(data), DeentropyMeta::none()),
    }
}

/// How many different pairs of neighbours the first `n` bytes of `data` hold.
pub open spec fn distinct_pairs(data: Seq<u8>, n: nat) -> nat
    decreases n,
{
    if n < 2 {
        0
    } else {
        distinct_pairs(data, (n - 1) as nat) + if exists|q: int|
            0 <= q < n - 2 && #[trigger] data[q] == data[n - 2] && data[q + 1] == data[n - 1] {
            0nat
        } else {
            1
        }
    }
}

/// How many different pairs of neighbours `data` holds.
pub fn unique_transitions(data: &[u8]) -> (count: usize)
    ensures
        count as nat == distinct_pairs(data@, data@.len()),
{
    let mut seen: Vec<bool> = vec![false; 65536];
    let mut count: usize = 0;
    let mut i: usize = 1;
    while i < data.len()
        invariant
            1 <= i,
            i <= data@.len() || data@.len() == 0,
            seen@.len() == 65536,
            count < i,
            count as nat == distinct_pairs(data@, i as nat),
            forall|a: u8, b: u8|
                #![trigger seen@[256 * a + b]]
                seen@[256 * a + b] == exists|q: int|
                    0 <= q < i - 1 && #[trigger] data@[q] == a && data@[q + 1] == b,
        decreases data@.len() - i,
    {
        let a = data[i - 1];
        let b = data[i];
        let at = 256 * a as usize + b as usize;
        let ghost seen0 = seen@;
        assert(seen0[256 * a + b] == seen0[at as int]);
        if !seen[at] {
            count += 1;
            seen.set(at, true);
        }
        proof {
            assert forall|c: u8, d: u8|
                #![trigger seen@[256 * c + d]]
                seen@[256 * c + d] == exists|q: int|
                    0 <= q < i && #[trigger] data@[q] == c && data@[q + 1] == d by {
                assert(seen0[256 * c + d] == exists|q: int|
                    0 <= q < i - 1 && #[trigger] data@[q] == c && data@[q + 1] == d);
                if c == a && d == b {
                    assert(data@[i - 1] == c && data@[i - 1 + 1] == d);
                }
            }
        }
        i += 1;
    }
    if data.len() == 0 {
        return 0;
    }
    count
}

/// What a plan costs: what is left of the data, two bytes, and two for each shift.
pub open spec fn plan_cost(plans: Seq<Transform>, costs: Seq<usize>, j: int) -> int {
    costs[j] + 2 + 2 * plans[j].shifts.len()
}

proof fn lemma_best_plan(baseline: nat, plans: Seq<Transform>, costs: Seq<usize>, k: nat)
    ensures
        ({
            let best = best_plan(baseline, plans, costs, k);
            &&& forall|j: int|
                0 <= j < k ==> best.0 < #[trigger] plan_cost(plans, costs, j) + 16
            &&& match best.1 {
                Some(i) => i < k && best.0 == plan_cost(plans, costs, i as int) && best.0 + 16
                    <= baseline,
                None => best.0 == baseline,
            }
        }),
    decreases k,
{
    if k > 0 {
        lemma_best_plan(baseline, plans, costs, (k - 1) as nat);
        let before = best_plan(baseline, plans, costs, (k - 1) as nat);
        let cost = plan_cost(plans, costs, k - 1);
        if cost + 16 <= before.0 {
            match before.1 {
                Some(i) => {
                    assert(plan_cost(plans, costs, i as int) == before.0);
                },
                None => {},
            }
        }
    }
}

/// The transform that is chosen saves 16 bytes or more, with its description counted, and no other one
/// that was tried would save 16 bytes more. None is chosen exactly where none saves that much.
pub proof fn lemma_chosen_pays(data: Seq<u8>, baseline: usize, costs: Seq<usize>)
    requires
        data.len() >= 64,
    ensures
        ({
            let t = chosen_transform(data, baseline, costs);
            let all = plans(data);
            &&& t == no_transform() || exists|i: int|
                0 <= i < all.len() && all[i] == t && (#[trigger] plan_cost(all, costs, i)) + 16
                    <= baseline && forall|j: int|
                    0 <= j < all.len() ==> plan_cost(all, costs, i) < #[trigger] plan_cost(
                        all,
                        costs,
                        j,
                    ) + 16
            &&& (exists|j: int|
                0 <= j < all.len() && #[trigger] plan_cost(all, costs, j) + 16 <= baseline)
                ==> exists|i: int|
                0 <= i < all.len() && all[i] == t && #[trigger] plan_cost(all, costs, i) + 16
                    <= baseline
        }),
{
    let all = plans(data);
    lemma_best_plan(baseline as nat, all, costs, all.len());
    let best = best_plan(baseline as nat, all, costs, all.len());
    if exists|j: int|
        0 <= j < all.len() && #[trigger] plan_cost(all, costs, j) + 16 <= baseline {
        let j = choose|j: int|
            0 <= j < all.len() && #[trigger] plan_cost(all, costs, j) + 16 <= baseline;
        assert(best.0 < plan_cost(all, costs, j) + 16);
    }
    if let Some(i) = best.1 {
        assert(plan_cost(all, costs, i as int) == best.0);
    }
}

/// The byte values of `top` that are moved, each by its offset.
pub open spec fn moved(top: Seq<u8>, offsets: Seq<int>) -> Seq<ShiftEntry>
    decreases top.len(),
{
    if top.len() == 0 {
        seq![]
    } else if offsets[0] == 0 {
        moved(top.skip(1), offsets.skip(1))
    } else {
        seq![ShiftEntry { symbol: top[0], offset: offsets[0] as i8 }] + moved(
            top.skip(1),
            offsets.skip(1),
        )
    }
}

proof fn lemma_combo_of(top: Seq<u8>, offsets: Seq<int>) -> (combo: nat)
    requires
        offsets.len() == top.len(),
        forall|i: int| 0 <= i < offsets.len() ==> -1 <= (#[trigger] offsets[i]) <= 1,
    ensures
        combo < pow3(top.len()),
        active_shifts(top, combo) == moved(top, offsets),
    decreases top.len(),
{
    if top.len() == 0 {
        0
    } else {
        let rest = offsets.skip(1);
        assert forall|i: int| 0 <= i < rest.len() implies -1 <= (#[trigger] rest[i]) <= 1 by {
            assert(rest[i] == offsets[i + 1]);
        }
        let c = lemma_combo_of(top.skip(1), rest);
        let combo = (3 * c + (offsets[0] + 1)) as nat;
        assert(combo / 3 == c && combo % 3 == offsets[0] + 1);
        combo
    }
}

proof fn lemma_plans_have(top: Seq<u8>, n: nat, combo: nat)
    requires
        combo < n,
        active_shifts(top, combo).len() > 0,
    ensures
        shift_plans(top, n).contains(
            (Transform { mode: DeentropyMode::Shift, shifts: active_shifts(top, combo) }),
        ),
        shift_plans(top, n).contains(
            (Transform { mode: DeentropyMode::ReverseShift, shifts: active_shifts(top, combo) }),
        ),
    decreases n,
{
    let all = shift_plans(top, n);
    let before = shift_plans(top, (n - 1) as nat);
    let shifts = active_shifts(top, combo);
    let a = Transform { mode: DeentropyMode::Shift, shifts };
    let b = Transform { mode: DeentropyMode::ReverseShift, shifts };
    if combo == n - 1 {
        assert(all[before.len() as int] == a);
        assert(all[before.len() as int + 1] == b);
    } else {
        lemma_plans_have(top, (n - 1) as nat, combo);
        let i = choose|i: int| 0 <= i < before.len() && before[i] == a;
        let j = choose|j: int| 0 <= j < before.len() && before[j] == b;
        assert(all[i] == a);
        assert(all[j] == b);
    }
}

/// Every way to move the most frequent byte values, each up by one, down by one or not at all, is
/// tried, forwards and backwards; and so is turning the data round alone.
pub proof fn lemma_plans_complete(data: Seq<u8>, offsets: Seq<int>)
    requires
        offsets.len() == top_symbols(data).len(),
        forall|i: int| 0 <= i < offsets.len() ==> -1 <= (#[trigger] offsets[i]) <= 1,
    ensures
        plans(data).contains((Transform { mode: DeentropyMode::Reverse, shifts: seq![] })),
        moved(top_symbols(data), offsets).len() > 0 ==> plans(data).contains(
            (Transform {
                mode: DeentropyMode::Shift,
                shifts: moved(top_symbols(data), offsets),
            }),
        ),
        moved(top_symbols(data), offsets).len() > 0 ==> plans(data).contains(
            (Transform {
                mode: DeentropyMode::ReverseShift,
                shifts: moved(top_symbols(data), offsets),
            }),
        ),
{
    let top = top_symbols(data);
    let all = plans(data);
    assert(all[0] == (Transform { mode: DeentropyMode::Reverse, shifts: seq![] }));
    let combo = lemma_combo_of(top, offsets);
    let shifts = moved(top, offsets);
    if shifts.len() > 0 {
        lemma_plans_have(top, pow3(top.len()), combo);
        let some = shift_plans(top, pow3(top.len()));
        let a = Transform { mode: DeentropyMode::Shift, shifts };
        let b = Transform { mode: DeentropyMode::ReverseShift, shifts };
        let i = choose|i: int| 0 <= i < some.len() && some[i] == a;
        let j = choose|j: int| 0 <= j < some.len() && some[j] == b;
        assert(all[i + 1] == a);
        assert(all[j + 1] == b);
    }
}

/// A transform turns the bytes round or leaves them in place, and sends equal bytes to equal bytes; one
/// that moves nothing changes no byte.
pub proof fn lemma_transformed_bytes(data: Seq<u8>, t: Transform, i: int)
    requires
        0 <= i < data.len(),
    ensures
        transformed(data, t).len() == data.len(),
        t.mode == DeentropyMode::Identity ==> transformed(data, t)[i] == data[i],
        t.mode == DeentropyMode::Reverse ==> transformed(data, t)[i] == data[data.len() - 1 - i],
        t.mode == DeentropyMode::Shift ==> transformed(data, t)[i] == shift_map(
            t.shifts,
        )[data[i] as int],
        t.mode == DeentropyMode::ReverseShift ==> transformed(data, t)[i] == shift_map(
            t.shifts,
        )[data[data.len() - 1 - i] as int],
        t.shifts.len() == 0 ==> shift_map(t.shifts)[data[i] as int] == data[i],
{
}

/// The pairs of neighbours among the first `n` bytes.
pub open spec fn pairs_of(data: Seq<u8>, n: nat) -> Set<(u8, u8)> {
    Set::new(|p: (u8, u8)| exists|q: int| 0 <= q < n - 1 && #[trigger] data[q] == p.0 && data[q + 1] == p.1)
}

/// The number of different pairs is the size of the set of pairs.
pub proof fn lemma_pairs_counted(data: Seq<u8>, n: nat)
    requires
        n <= data.len(),
    ensures
        pairs_of(data, n).finite(),
        pairs_of(data, n).len() == distinct_pairs(data, n),
    decreases n,
{
    if n < 2 {
        assert(pairs_of(data, n) =~= Set::empty());
    } else {
        let b = (n - 1) as nat;
        lemma_pairs_counted(data, b);
        let p = (data[n - 2], data[n - 1]);
        assert(pairs_of(data, n) =~= pairs_of(data, b).insert(p)) by {
            assert forall|r: (u8, u8)| #[trigger] pairs_of(data, n).contains(r) <==> pairs_of(
                data,
                b,
            ).insert(p).contains(r) by {
                if pairs_of(data, n).contains(r) {
                    let q = choose|q: int|
                        0 <= q < n - 1 && #[trigger] data[q] == r.0 && data[q + 1] == r.1;
                    if q < n - 2 {
                        assert(0 <= q < b - 1 && data[q] == r.0 && data[q + 1] == r.1);
                    }
                }
                if pairs_of(data, b).contains(r) {
                    let q = choose|q: int|
                        0 <= q < b - 1 && #[trigger] data[q] == r.0 && data[q + 1] == r.1;
                    assert(0 <= q < n - 1 && data[q] == r.0 && data[q + 1] == r.1);
                }
                if r == p {
                    assert(data[n - 2] == r.0 && data[n - 2 + 1] == r.1);
                }
            }
        }
        assert(pairs_of(data, b).contains(p) <==> exists|q: int|
            0 <= q < n - 2 && #[trigger] data[q] == data[n - 2] && data[q + 1] == data[n - 1]);
    }
}

/// The byte values that are moved are the three that occur most often, or all where there are fewer:
/// no other occurs more often.
pub proof fn lemma_top_symbols(data: Seq<u8>, i: int, b: u8)
    requires
        data.len() <= u128::MAX,
        0 <= i < top_symbols(data).len(),
        !top_symbols(data).contains(b),
    ensures
        top_symbols(data).len() <= 3,
        data.contains(top_symbols(data)[i]),
        data.contains(b) ==> top_symbols(data).len() == 3,
        count_of(data, top_symbols(data)[i]) >= count_of(data, b),
{
    let all = ranked(data);
    let top = top_symbols(data);
    lemma_ranked(data);
    assert(all[i] == top[i]);
    assert(all.contains(all[i]));
    if data.contains(b) {
        assert(all.contains(b));
        let j = choose|j: int| 0 <= j < all.len() && all[j] == b;
        if j < top.len() {
            assert(top[j] == b);
        }
        lemma_ranked_by_frequency(data, i, j);
    } else {
        lemma_count_of_bound(data, b);
    }
}

/// A description is two bytes, the mode and the number of shifts, and two for each shift: the byte value
/// and by how much it moves, in two's complement.
pub proof fn lemma_meta_layout(t: Transform, i: int)
    requires
        0 <= i < t.shifts.len() <= 255,
    ensures
        ({
            let m = meta_bytes(t);
            &&& m.len() == 2 + 2 * t.shifts.len()
            &&& m[0] == 0 <==> t.mode == DeentropyMode::Identity
            &&& m[0] == 1 <==> t.mode == DeentropyMode::Shift
            &&& m[0] == 2 <==> t.mode == DeentropyMode::Reverse
            &&& m[0] == 3 <==> t.mode == DeentropyMode::ReverseShift
            &&& m[1] == t.shifts.len()
            &&& m[2 + 2 * i] == t.shifts[i].symbol
            &&& t.shifts[i].offset >= 0 ==> m[3 + 2 * i] == t.shifts[i].offset
            &&& t.shifts[i].offset < 0 ==> m[3 + 2 * i] == 256 + t.shifts[i].offset
        }),
{
    lemma_shift_layout(t.shifts, i);
    let m = meta_bytes(t);
    assert(m[2 + 2 * i] == shift_bytes(t.shifts)[2 * i]);
    assert(m[3 + 2 * i] == shift_bytes(t.shifts)[2 * i + 1]);
}

proof fn lemma_shift_layout(shifts: Seq<ShiftEntry>, i: int)
    requires
        0 <= i < shifts.len(),
    ensures
        shift_bytes(shifts).len() == 2 * shifts.len(),
        shift_bytes(shifts)[2 * i] == shifts[i].symbol,
        shift_bytes(shifts)[2 * i + 1] == offset_byte(shifts[i].offset),
    decreases shifts.len(),
{
    let front = shifts.drop_last();
    if front.len() > 0 {
        lemma_shift_layout(
            front,
            if i < front.len() {
                i
            } else {
                0
            },
        );
    } else {
        assert(shift_bytes(front).len() == 0);
    }
    if i < front.len() {
        assert(shift_bytes(shifts)[2 * i] == shift_bytes(front)[2 * i]);
        assert(shift_bytes(shifts)[2 * i + 1] == shift_bytes(front)[2 * i + 1]);
    }
}

} // verus!
