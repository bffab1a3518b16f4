//! Symbols for the parts that the coefficients of many equations have in common, and the equations
//! written with them.

use vstd::prelude::*;
use vstd::string::*;

use crate::bytes::{copy_of, same_bytes};
use crate::display::ascii_text;
use crate::natural::decimal;
use crate::shorthand::{
    apply_dec_shorthand, lemma_shrinking_ends, rules_of, shorthand, shrinks, Rule,
};
use crate::sort::{
    lemma_holds_all, lemma_larger_first, lemma_order_desc, lemma_order_has, lemma_ordered,
    lemma_rank_decides, lemma_rank_order_total, order_desc, order_ranked, rank_order,
    ranked_entries, sort_desc, sort_ranked, Ranked,
};
use crate::tally::{tallied, Tally};
use crate::text::push_decimal;
use crate::windows::{counted_views, Counted, WindowCount};

verus! {

/// The shortest part of a number that gets a symbol.
pub const COEFF_SUBSTR_MIN_LEN: usize = 2;

/// The longest part before the point that gets a symbol.
pub const COEFF_SUBSTR_MAX_LEN: usize = 6;

/// From about how many equations the parts are taken.
pub const COEFF_SAMPLE_COUNT: usize = 20000;

/// Every how many equations one is looked at.
pub open spec fn sample_step_of(n: nat) -> nat {
    if n > COEFF_SAMPLE_COUNT {
        n / COEFF_SAMPLE_COUNT as nat
    } else {
        1
    }
}

/// Every how many of `n` equations one is looked at.
pub fn sample_step(n: usize) -> (step: usize)
    ensures
        step as nat == sample_step_of(n as nat),
        step > 0,
{
    if n > COEFF_SAMPLE_COUNT {
        n / COEFF_SAMPLE_COUNT
    } else {
        1
    }
}

/// The place of the first point.
pub open spec fn point_at(s: Seq<u8>) -> Option<nat>
    decreases s.len(),
{
    if s.len() == 0 {
        None
    } else if s[0] == 0x2e {
        Some(0)
    } else {
        match point_at(s.skip(1)) {
            Some(k) => Some(k + 1),
            None => None,
        }
    }
}

/// The parts of `full` that start at `start`, with up to `n` bytes.
pub open spec fn parts_from(full: Seq<u8>, start: int, n: int) -> Seq<Seq<u8>> {
    Seq::new(
        if n < COEFF_SUBSTR_MIN_LEN {
            0
        } else {
            (n - COEFF_SUBSTR_MIN_LEN + 1) as nat
        },
        |l: int| full.subrange(start, start + COEFF_SUBSTR_MIN_LEN + l),
    )
}

/// How long the longest part at `start` is.
pub open spec fn longest_part(full: Seq<u8>, start: int) -> int {
    if full.len() - start < COEFF_SUBSTR_MAX_LEN {
        full.len() - start
    } else {
        COEFF_SUBSTR_MAX_LEN as int
    }
}

/// The parts of `full` that start before place `k`.
pub open spec fn inner_parts(full: Seq<u8>, k: nat) -> Seq<Seq<u8>>
    decreases k,
{
    if k == 0 {
        Seq::empty()
    } else {
        inner_parts(full, (k - 1) as nat) + parts_from(full, k - 1, longest_part(full, k - 1))
    }
}

/// What is counted of a number: what follows the point, if that has two digits or more, and the
/// parts of what comes before the point.
pub open spec fn number_parts(s: Seq<u8>) -> Seq<Seq<u8>> {
    match point_at(s) {
        Some(p) => {
            let full = s.take(p as int);
            let frac = s.skip((p + 1) as int);
            (if frac.len() >= 2 {
                seq![frac]
            } else {
                Seq::empty()
            }) + inner_parts(full, full.len())
        },
        None => inner_parts(s, s.len()),
    }
}

/// The numbers behind a list of vectors.
pub open spec fn numbers(v: Seq<Vec<u8>>) -> Seq<Seq<u8>> {
    Seq::new(v.len(), |i: int| v[i]@)
}

/// What is counted of the first `n` numbers.
pub open spec fn list_parts(list: Seq<Seq<u8>>, n: nat) -> Seq<Seq<u8>>
    decreases n,
{
    if n == 0 {
        Seq::empty()
    } else {
        list_parts(list, (n - 1) as nat) + number_parts(list[n - 1])
    }
}

/// The numbers of every `step`-th equation of the first `k` that are looked at.
pub open spec fn sampled(segs: Seq<Vec<Vec<u8>>>, step: nat, k: nat) -> Seq<Seq<u8>>
    decreases k,
{
    if k == 0 {
        Seq::empty()
    } else {
        sampled(segs, step, (k - 1) as nat) + numbers(segs[(k - 1) * step]@)
    }
}

/// How many equations are looked at.
pub open spec fn sample_total(n: nat, step: nat) -> nat {
    if n == 0 {
        0
    } else {
        ((n - 1) / step as int + 1) as nat
    }
}

/// The numbers that are looked at.
pub open spec fn sampled_numbers(segs: Seq<Vec<Vec<u8>>>, step: nat) -> Seq<Seq<u8>> {
    sampled(segs, step, sample_total(segs.len(), step))
}

fn find_point(s: &[u8]) -> (r: Option<usize>)
    ensures
        match r {
            Some(p) => point_at(s@) == Some(p as nat) && p < s@.len(),
            None => point_at(s@) is None,
        },
{
    let mut i: usize = 0;
    assert(s@.skip(0) =~= s@);
    while i < s.len()
        invariant
            i <= s@.len(),
            match point_at(s@.skip(i as int)) {
                Some(k) => point_at(s@) == Some((i + k) as nat),
                None => point_at(s@) is None,
            },
        decreases s@.len() - i,
    {
        if s[i] == 0x2e {
            return Some(i);
        }
        assert(s@.skip(i as int).skip(1) =~= s@.skip(i + 1));
        i = i + 1;
    }
    None
}

/// How many parts numbers of this many bytes can have.
pub open spec fn parts_bound(len: nat) -> nat {
    5 * len + 1
}

proof fn lemma_inner_parts(full: Seq<u8>, k: nat)
    requires
        k <= full.len(),
    ensures
        inner_parts(full, k).len() <= 5 * k,
    decreases k,
{
    if k > 0 {
        lemma_inner_parts(full, (k - 1) as nat);
    }
}

pub(crate) proof fn lemma_point(s: Seq<u8>)
    ensures
        point_at(s) matches Some(p) ==> p < s.len(),
    decreases s.len(),
{
    if s.len() > 0 && s[0] != 0x2e {
        lemma_point(s.skip(1));
    }
}

proof fn lemma_number_parts(s: Seq<u8>)
    ensures
        number_parts(s).len() <= parts_bound(s.len()),
{
    lemma_point(s);
    match point_at(s) {
        Some(p) => {
            lemma_inner_parts(s.take(p as int), p);
        },
        None => {
            lemma_inner_parts(s, s.len());
        },
    }
}

fn count_parts(s: &[u8], tally: &mut Tally)
    requires
        old(tally).wf(),
        old(tally)@.len() + parts_bound(s@.len()) <= usize::MAX,
    ensures
        final(tally).wf(),
        final(tally)@ == old(tally)@ + number_parts(s@),
{
    let ghost before = tally@;
    proof {
        lemma_number_parts(s@);
    }
    let n: usize = match find_point(s) {
        Some(p) => {
            let frac = &s[p + 1..s.len()];
            assert(frac@ =~= s@.skip(p + 1));
            if frac.len() >= 2 {
                tally.add(frac);
            }
            p
        },
        None => s.len(),
    };
    let full = &s[0..n];
    assert(full@ =~= s@.take(n as int));
    let ghost head = tally@;
    assert(head + inner_parts(full@, 0) =~= head);
    let mut start: usize = 0;
    while start < full.len()
        invariant
            tally.wf(),
            start <= full@.len(),
            head.len() + 5 * full@.len() <= usize::MAX,
            tally@ == head + inner_parts(full@, start as nat),
        decreases full@.len() - start,
    {
        let longest: usize = if full.len() - start < COEFF_SUBSTR_MAX_LEN {
            full.len() - start
        } else {
            COEFF_SUBSTR_MAX_LEN
        };
        proof {
            lemma_inner_parts(full@, start as nat);
        }
        let ghost here = parts_from(full@, start as int, longest as int);
        let ghost sofar = tally@;
        let mut len: usize = COEFF_SUBSTR_MIN_LEN;
        assert(sofar + here.take(0) =~= sofar);
        while len <= longest
            invariant
                tally.wf(),
                COEFF_SUBSTR_MIN_LEN <= len,
                len <= longest + 1 || len == COEFF_SUBSTR_MIN_LEN,
                start + longest <= full@.len() <= usize::MAX,
                longest <= COEFF_SUBSTR_MAX_LEN,
                here == parts_from(full@, start as int, longest as int),
                sofar.len() + 5 <= usize::MAX,
                tally@ == sofar + here.take(len - COEFF_SUBSTR_MIN_LEN),
            decreases longest + 1 - len,
        {
            let part = &full[start..start + len];
            proof {
                assert(here[len - COEFF_SUBSTR_MIN_LEN] =~= part@);
                assert(sofar + here.take(len + 1 - COEFF_SUBSTR_MIN_LEN) =~= (sofar + here.take(
                    len - COEFF_SUBSTR_MIN_LEN,
                )).push(part@));
            }
            tally.add(part);
            len = len + 1;
        }
        proof {
            assert(here.take(len - COEFF_SUBSTR_MIN_LEN) =~= here);
            assert(sofar + here =~= head + inner_parts(full@, (start + 1) as nat));
        }
        start = start + 1;
    }
    assert(tally@ =~= before + number_parts(s@)) by {
        assert(s@.take(s@.len() as int) =~= s@);
    }
}

/// How many parts the first `n` numbers can have.
pub open spec fn total_bound(list: Seq<Seq<u8>>, n: nat) -> nat
    decreases n,
{
    if n == 0 {
        0
    } else {
        total_bound(list, (n - 1) as nat) + parts_bound(list[n - 1].len())
    }
}

pub(crate) proof fn lemma_total_bound(list: Seq<Seq<u8>>, k: nat, n: nat)
    requires
        k <= n,
    ensures
        k <= total_bound(list, k),
        total_bound(list, k) <= total_bound(list, n),
        list_parts(list, k).len() <= total_bound(list, k),
    decreases n,
{
    if k < n {
        lemma_total_bound(list, k, (n - 1) as nat);
    } else if n > 0 {
        lemma_total_bound(list, (n - 1) as nat, (n - 1) as nat);
        lemma_number_parts(list[n - 1]);
    }
}

fn gather(segs: &Vec<Vec<Vec<u8>>>, step: usize) -> (flat: Vec<Vec<u8>>)
    requires
        step > 0,
    ensures
        numbers(flat@) == sampled_numbers(segs@, step as nat),
{
    let mut flat: Vec<Vec<u8>> = Vec::new();
    assert(numbers(flat@) =~= Seq::empty());
    if segs.len() == 0 {
        return flat;
    }
    let total = (segs.len() - 1) / step + 1;
    let mut k: usize = 0;
    while k < total
        invariant
            k <= total,
            step > 0,
            segs@.len() > 0,
            total == (segs@.len() - 1) / step as int + 1,
            numbers(flat@) == sampled(segs@, step as nat, k as nat),
        decreases total - k,
    {
        assert(k * step <= segs@.len() - 1) by (nonlinear_arith)
            requires
                k <= (segs@.len() - 1) / step as int,
                step > 0,
                segs@.len() > 0,
        ;
        assert(segs@.len() == segs.len());
        let at = k * step;
        let seg = &segs[at];
        let ghost before = numbers(flat@);
        let mut j: usize = 0;
        assert(before + numbers(seg@).take(0) =~= before);
        while j < seg.len()
            invariant
                j <= seg.len(),
                numbers(flat@) == before + numbers(seg@).take(j as int),
            decreases seg.len() - j,
        {
            let ghost was = numbers(flat@);
            flat.push(copy_of(seg[j].as_slice()));
            proof {
                assert(numbers(flat@) =~= was.push(seg@[j as int]@));
                assert(numbers(flat@) =~= before + numbers(seg@).take(j + 1));
            }
            j = j + 1;
        }
        proof {
            assert(numbers(seg@).take(j as int) =~= numbers(seg@));
            assert(segs@[k * step]@ == seg@);
        }
        k = k + 1;
    }
    flat
}

/// Counts the parts of the coefficients, and the whole coefficients, over every `step`-th equation.
/// An equation is the list of its coefficients' notations.
pub fn build_coeff_freqs(segs: &Vec<Vec<Vec<u8>>>, step: usize) -> (r: (
    Vec<WindowCount>,
    Vec<WindowCount>,
))
    requires
        step > 0,
        total_bound(
            sampled_numbers(segs@, step as nat),
            sampled_numbers(segs@, step as nat).len(),
        ) <= usize::MAX,
    ensures
        counted_views(r.0@) == tallied(
            list_parts(
                sampled_numbers(segs@, step as nat),
                sampled_numbers(segs@, step as nat).len(),
            ),
        ),
        counted_views(r.1@) == tallied(sampled_numbers(segs@, step as nat)),
{
    let flat = gather(segs, step);
    let ghost list = numbers(flat@);
    let mut parts = Tally::new();
    let mut wholes = Tally::new();
    let mut i: usize = 0;
    assert(list.take(0) =~= Seq::empty());
    while i < flat.len()
        invariant
            i <= flat.len(),
            list == numbers(flat@),
            total_bound(list, list.len()) <= usize::MAX,
            parts.wf(),
            wholes.wf(),
            parts@ == list_parts(list, i as nat),
            wholes@ == list.take(i as int),
        decreases flat.len() - i,
    {
        let s = flat[i].as_slice();
        proof {
            assert(list[i as int] == s@);
            lemma_total_bound(list, i as nat, i as nat);
            lemma_total_bound(list, (i + 1) as nat, list.len());
            assert(list.take(i + 1) =~= list.take(i as int).push(s@));
        }
        count_parts(s, &mut parts);
        wholes.add(s);
        i = i + 1;
    }
    assert(list.take(i as int) =~= list);
    (parts.entries(), wholes.entries())
}

/// A part of numbers, or a whole number, and its symbol.
#[derive(Debug)]
pub struct Pair {
    pub part: Vec<u8>,
    pub symbol: char,
}

/// What a `Pair` says.
pub struct PairValue {
    pub part: Seq<u8>,
    pub symbol: char,
}

impl View for Pair {
    type V = PairValue;

    open spec fn view(&self) -> PairValue {
        PairValue { part: self.part@, symbol: self.symbol }
    }
}

/// The views of a list of pairs.
pub open spec fn pair_values(v: Seq<Pair>) -> Seq<PairValue> {
    Seq::new(v.len(), |i: int| v[i]@)
}

/// The symbols for the best parts, in the order in which they are used.
pub open spec fn letters() -> Seq<char> {
    "dfhkmpqrtvwyzbcgjlao"@
}

/// The symbols for whole numbers and for further parts, in the order in which they are used.
pub open spec fn signs() -> Seq<char> {
    "#$%&*()[]{}:;'\"<>?/!ABCDEFGHIJKLMNOPQRSTUVWXYZ"@
}

/// A part that comes often enough to get a symbol.
pub open spec fn part_counts(c: Counted) -> bool {
    c.chunk.len() >= 2 && c.count >= (if c.chunk.len() == 2 {
        3nat
    } else {
        2
    })
}

/// A whole number that comes often enough to get a symbol.
pub open spec fn whole_counts(c: Counted) -> bool {
    c.chunk.len() >= 2 && c.count >= 3
}

/// Those of the first `n` counted byte strings that come often enough.
pub open spec fn frequent_ones(list: Seq<Counted>, whole: bool, n: nat) -> Seq<Counted>
    decreases n,
{
    if n == 0 {
        Seq::empty()
    } else {
        let before = frequent_ones(list, whole, (n - 1) as nat);
        let c = list[n - 1];
        if (whole && whole_counts(c)) || (!whole && part_counts(c)) {
            before.push(c)
        } else {
            before
        }
    }
}

/// Parts by the bytes that they cover; whole numbers by the bytes that symbols save, and by their
/// length.
pub open spec fn saving_ranks(list: Seq<Counted>, whole: bool) -> Seq<Ranked> {
    Seq::new(
        list.len(),
        |i: int|
            Ranked {
                first: (if whole {
                    list[i].count * (list[i].chunk.len() - 1)
                } else {
                    (list[i].count * list[i].chunk.len()) as int
                }) as u128,
                second: if whole {
                    list[i].chunk.len() as usize
                } else {
                    0
                },
                bytes: list[i].chunk,
            },
    )
}

/// The byte strings that come often enough, the most useful first.
pub open spec fn scored(list: Seq<Counted>, whole: bool) -> Seq<Seq<u8>> {
    let kept = frequent_ones(list, whole, list.len());
    let order = order_ranked(saving_ranks(kept, whole));
    Seq::new(kept.len(), |i: int| kept[order[i] as int].chunk)
}

/// The pairs by the length of their parts, the longest first; of those with the same length, the
/// earlier one first.
pub open spec fn by_length(list: Seq<PairValue>) -> Seq<PairValue> {
    let order = order_desc(Seq::new(list.len(), |i: int| list[i].part.len() as u128));
    Seq::new(list.len(), |i: int| list[order[i] as int])
}

/// The part has a pair.
pub open spec fn has_part(list: Seq<PairValue>, part: Seq<u8>) -> bool {
    exists|i: int| 0 <= i < list.len() && (#[trigger] list[i]).part == part
}

/// The symbol has a pair.
pub open spec fn has_symbol(list: Seq<PairValue>, symbol: char) -> bool {
    exists|i: int| 0 <= i < list.len() && (#[trigger] list[i]).symbol == symbol
}

/// The first `n` byte strings with one symbol after the other, as far as the symbols go, without
/// those that have a pair in one of the lists.
pub open spec fn assigned(
    list: Seq<Seq<u8>>,
    symbols: Seq<char>,
    taken: Seq<PairValue>,
    also: Seq<PairValue>,
    n: nat,
) -> Seq<PairValue>
    decreases n,
{
    if n == 0 {
        Seq::empty()
    } else {
        let before = assigned(list, symbols, taken, also, (n - 1) as nat);
        let part = list[n - 1];
        if before.len() < symbols.len() && !has_part(taken, part) && !has_part(also, part) {
            before.push(PairValue { part, symbol: symbols[before.len() as int] })
        } else {
            before
        }
    }
}

pub(crate) proof fn lemma_assigned_step(
    list: Seq<Seq<u8>>,
    symbols: Seq<char>,
    taken: Seq<PairValue>,
    also: Seq<PairValue>,
    n: nat,
)
    requires
        n > 0,
        forall|k: int| 0 <= k < symbols.len() ==> 0 <= ((#[trigger] symbols[k]) as int) < 128,
    ensures
        ({
            let before = assigned(list, symbols, taken, also, (n - 1) as nat);
            let a = assigned(list, symbols, taken, also, n);
            &&& before.len() <= a.len() <= before.len() + 1
            &&& forall|j: int| 0 <= j < before.len() ==> (#[trigger] a[j]) == before[j]
            &&& a.len() > before.len() ==> before.len() < symbols.len() && a.last().part == list[n
                - 1] && a.last().symbol == symbols[before.len() as int]
        }),
{
    let before = assigned(list, symbols, taken, also, (n - 1) as nat);
    let part = list[n - 1];
    if before.len() < symbols.len() && !has_part(taken, part) && !has_part(also, part) {
        let p = PairValue { part, symbol: symbols[before.len() as int] };
        assert(0 <= (symbols[before.len() as int] as int) < 128);
        assert(before.push(p).last() == p);
    }
}

/// Those of the first `n` pairs whose symbols are not used in `taken`.
pub open spec fn unused(list: Seq<PairValue>, taken: Seq<PairValue>, n: nat) -> Seq<PairValue>
    decreases n,
{
    if n == 0 {
        Seq::empty()
    } else {
        let before = unused(list, taken, (n - 1) as nat);
        if has_symbol(taken, list[n - 1].symbol) {
            before
        } else {
            before.push(list[n - 1])
        }
    }
}

/// Every byte string has at least two bytes.
pub open spec fn at_least_two(list: Seq<Seq<u8>>) -> bool {
    forall|i: int| 0 <= i < list.len() ==> (#[trigger] list[i]).len() >= 2
}

/// Every part has at least two bytes.
pub open spec fn long_parts(list: Seq<PairValue>) -> bool {
    forall|i: int| 0 <= i < list.len() ==> (#[trigger] list[i]).part.len() >= 2
}

fn keep_frequent(entries: &Vec<WindowCount>, whole: bool) -> (kept: Vec<WindowCount>)
    ensures
        counted_views(kept@) == frequent_ones(counted_views(entries@), whole, entries@.len()),
        forall|i: int|
            0 <= i < kept@.len() ==> (#[trigger] kept@[i]).chunk@.len() >= 2,
{
    let ghost list = counted_views(entries@);
    let mut kept: Vec<WindowCount> = Vec::new();
    assert(counted_views(kept@) =~= Seq::empty());
    let mut i: usize = 0;
    while i < entries.len()
        invariant
            i <= entries.len(),
            list == counted_views(entries@),
            counted_views(kept@) == frequent_ones(list, whole, i as nat),
            forall|j: int| 0 <= j < kept@.len() ==> (#[trigger] kept@[j]).chunk@.len() >= 2,
        decreases entries.len() - i,
    {
        let e = &entries[i];
        let n = e.chunk.len();
        let least: usize = if whole || n == 2 {
            3
        } else {
            2
        };
        assert(list[i as int] == e@);
        if n >= 2 && e.count >= least {
            let ghost before = counted_views(kept@);
            kept.push(WindowCount { chunk: copy_of(e.chunk.as_slice()), count: e.count });
            assert(counted_views(kept@) =~= before.push(e@));
        }
        i = i + 1;
    }
    kept
}

/// Ranks the counted byte strings that come often enough.
fn score_entries(entries: &Vec<WindowCount>, whole: bool) -> (out: Vec<Vec<u8>>)
    ensures
        numbers(out@) == scored(counted_views(entries@), whole),
        at_least_two(numbers(out@)),
{
    let kept = keep_frequent(entries, whole);
    let ghost list = counted_views(kept@);
    let mut first: Vec<u128> = Vec::with_capacity(kept.len());
    let mut second: Vec<usize> = Vec::with_capacity(kept.len());
    let mut bytes: Vec<Vec<u8>> = Vec::with_capacity(kept.len());
    let mut i: usize = 0;
    while i < kept.len()
        invariant
            i <= kept.len(),
            list == counted_views(kept@),
            forall|j: int| 0 <= j < kept@.len() ==> (#[trigger] kept@[j]).chunk@.len() >= 2,
            first.len() == i,
            second.len() == i,
            bytes.len() == i,
            forall|j: int|
                0 <= j < i ==> (#[trigger] first@[j]) == saving_ranks(list, whole)[j].first,
            forall|j: int|
                0 <= j < i ==> (#[trigger] second@[j]) == saving_ranks(list, whole)[j].second,
            forall|j: int|
                0 <= j < i ==> (#[trigger] bytes@[j])@ == saving_ranks(list, whole)[j].bytes,
        decreases kept.len() - i,
    {
        let e = &kept[i];
        assert(kept@[i as int].chunk@.len() >= 2);
        assert(list[i as int] == e@);
        let n = if whole {
            e.chunk.len() - 1
        } else {
            e.chunk.len()
        };
        assert(e.count * n <= 0xffff_ffff_ffff_ffff * 0xffff_ffff_ffff_ffff) by (nonlinear_arith)
            requires
                e.count <= 0xffff_ffff_ffff_ffff,
                n <= 0xffff_ffff_ffff_ffff,
        ;
        first.push(e.count as u128 * n as u128);
        second.push(
            if whole {
                e.chunk.len()
            } else {
                0
            },
        );
        bytes.push(copy_of(e.chunk.as_slice()));
        i = i + 1;
    }
    let order = sort_ranked(first.as_slice(), second.as_slice(), bytes.as_slice());
    proof {
        assert(ranked_entries(first@, second@, bytes@) =~= saving_ranks(list, whole));
        lemma_rank_order_total(saving_ranks(list, whole));
        lemma_ordered(list.len(), rank_order(saving_ranks(list, whole)));
    }
    let mut out: Vec<Vec<u8>> = Vec::with_capacity(order.len());
    let mut k: usize = 0;
    while k < order.len()
        invariant
            k <= order.len(),
            order.len() == kept.len(),
            list == counted_views(kept@),
            forall|j: int| 0 <= j < kept@.len() ==> (#[trigger] kept@[j]).chunk@.len() >= 2,
            forall|j: int| 0 <= j < order.len() ==> (#[trigger] order@[j]) < kept.len(),
            out.len() == k,
            forall|j: int|
                0 <= j < k ==> (#[trigger] out@[j])@ == list[order@[j] as int].chunk && out@[j]@.len()
                    >= 2,
        decreases order.len() - k,
    {
        let at = order[k];
        assert(order@[k as int] < kept.len());
        assert(kept@[at as int].chunk@.len() >= 2);
        assert(list[at as int] == kept@[at as int]@);
        out.push(copy_of(kept[at].chunk.as_slice()));
        k = k + 1;
    }
    proof {
        assert(numbers(out@) =~= scored(counted_views(entries@), whole));
        assert forall|j: int| 0 <= j < numbers(out@).len() implies (
        #[trigger] numbers(out@)[j]).len() >= 2 by {
            assert(numbers(out@)[j] == out@[j]@);
        }
    }
    out
}

fn part_known(list: &Vec<Pair>, part: &[u8]) -> (r: bool)
    ensures
        r == has_part(pair_values(list@), part@),
{
    let ghost values = pair_values(list@);
    let mut i: usize = 0;
    while i < list.len()
        invariant
            i <= list.len(),
            values == pair_values(list@),
            forall|j: int| 0 <= j < i ==> (#[trigger] values[j]).part != part@,
        decreases list.len() - i,
    {
        assert(values[i as int] == list@[i as int]@);
        if same_bytes(list[i].part.as_slice(), part) {
            return true;
        }
        i = i + 1;
    }
    false
}

fn symbol_known(list: &Vec<Pair>, symbol: char) -> (r: bool)
    ensures
        r == has_symbol(pair_values(list@), symbol),
{
    let ghost values = pair_values(list@);
    let mut i: usize = 0;
    while i < list.len()
        invariant
            i <= list.len(),
            values == pair_values(list@),
            forall|j: int| 0 <= j < i ==> (#[trigger] values[j]).symbol != symbol,
        decreases list.len() - i,
    {
        assert(values[i as int] == list@[i as int]@);
        if list[i].symbol == symbol {
            return true;
        }
        i = i + 1;
    }
    false
}

fn assign(list: &Vec<Vec<u8>>, symbols: &str, taken: &Vec<Pair>, also: &Vec<Pair>) -> (out: Vec<Pair>)
    requires
        at_least_two(numbers(list@)),
    ensures
        pair_values(out@) == assigned(
            numbers(list@),
            symbols@,
            pair_values(taken@),
            pair_values(also@),
            list@.len(),
        ),
        long_parts(pair_values(out@)),
{
    let ghost words = numbers(list@);
    let ghost t = pair_values(taken@);
    let ghost a = pair_values(also@);
    let count = symbols.unicode_len();
    let mut out: Vec<Pair> = Vec::new();
    assert(pair_values(out@) =~= Seq::empty());
    let mut i: usize = 0;
    while i < list.len()
        invariant
            i <= list.len(),
            words == numbers(list@),
            at_least_two(words),
            t == pair_values(taken@),
            a == pair_values(also@),
            count == symbols@.len(),
            pair_values(out@) == assigned(words, symbols@, t, a, i as nat),
            long_parts(pair_values(out@)),
        decreases list.len() - i,
    {
        let part = list[i].as_slice();
        assert(words[i as int] == part@);
        if out.len() < count && !part_known(taken, part) && !part_known(also, part) {
            let ghost before = pair_values(out@);
            let symbol = symbols.get_char(out.len());
            out.push(Pair { part: copy_of(part), symbol });
            proof {
                let now = pair_values(out@);
                assert(now =~= before.push(PairValue { part: part@, symbol }));
                assert forall|j: int| 0 <= j < now.len() implies (#[trigger] now[j]).part.len()
                    >= 2 by {
                    if j < before.len() {
                        assert(now[j] == before[j]);
                    }
                }
            }
        }
        i = i + 1;
    }
    out
}

fn sort_by_length(list: &Vec<Pair>) -> (out: Vec<Pair>)
    requires
        long_parts(pair_values(list@)),
    ensures
        pair_values(out@) == by_length(pair_values(list@)),
        long_parts(pair_values(out@)),
{
    let ghost values = pair_values(list@);
    let ghost lens = Seq::new(values.len(), |i: int| values[i].part.len() as u128);
    let mut keys: Vec<u128> = Vec::with_capacity(list.len());
    let mut i: usize = 0;
    while i < list.len()
        invariant
            i <= list.len(),
            values == pair_values(list@),
            lens == Seq::new(values.len(), |i: int| values[i].part.len() as u128),
            keys@ =~= lens.take(i as int),
        decreases list.len() - i,
    {
        assert(values[i as int] == list@[i as int]@);
        keys.push(list[i].part.len() as u128);
        i = i + 1;
    }
    assert(keys@ =~= lens);
    let order = sort_desc(keys.as_slice());
    proof {
        lemma_order_desc(lens);
    }
    let mut out: Vec<Pair> = Vec::with_capacity(order.len());
    let mut k: usize = 0;
    while k < order.len()
        invariant
            k <= order.len(),
            order.len() == list.len(),
            values == pair_values(list@),
            long_parts(values),
            forall|j: int| 0 <= j < order.len() ==> (#[trigger] order@[j]) < list.len(),
            out.len() == k,
            forall|j: int|
                0 <= j < k ==> (#[trigger] out@[j])@ == values[order@[j] as int]
                    && out@[j].part@.len() >= 2,
        decreases order.len() - k,
    {
        let at = order[k];
        assert(order@[k as int] < list.len());
        assert(values[at as int] == list@[at as int]@);
        assert(values[at as int].part.len() >= 2);
        out.push(Pair { part: copy_of(list[at].part.as_slice()), symbol: list[at].symbol });
        k = k + 1;
    }
    proof {
        assert(pair_values(out@) =~= by_length(values));
        assert forall|j: int| 0 <= j < pair_values(out@).len() implies (
        #[trigger] pair_values(out@)[j]).part.len() >= 2 by {
            assert(pair_values(out@)[j] == out@[j]@);
        }
    }
    out
}

fn drop_used(list: &Vec<Pair>, taken: &Vec<Pair>) -> (out: Vec<Pair>)
    requires
        long_parts(pair_values(list@)),
    ensures
        pair_values(out@) == unused(pair_values(list@), pair_values(taken@), list@.len()),
        long_parts(pair_values(out@)),
{
    let ghost values = pair_values(list@);
    let ghost t = pair_values(taken@);
    let mut out: Vec<Pair> = Vec::new();
    assert(pair_values(out@) =~= Seq::empty());
    let mut i: usize = 0;
    while i < list.len()
        invariant
            i <= list.len(),
            values == pair_values(list@),
            t == pair_values(taken@),
            long_parts(values),
            pair_values(out@) == unused(values, t, i as nat),
            long_parts(pair_values(out@)),
        decreases list.len() - i,
    {
        assert(values[i as int] == list@[i as int]@);
        if !symbol_known(taken, list[i].symbol) {
            let ghost before = pair_values(out@);
            out.push(Pair { part: copy_of(list[i].part.as_slice()), symbol: list[i].symbol });
            assert(values[i as int].part.len() >= 2);
            assert(pair_values(out@) =~= before.push(values[i as int]));
        }
        i = i + 1;
    }
    out
}

/// The symbols for the coefficients: letters for the best parts, signs for whole numbers and for
/// further parts. `rules` are the pairs that shorten a number, the longest parts first.
pub struct Symbols {
    pub letters: Vec<Pair>,
    pub further: Vec<Pair>,
    pub wholes: Vec<Pair>,
    pub rules: Vec<(String, String)>,
}

/// The pairs with letters.
pub open spec fn letter_pairs(parts: Seq<Counted>) -> Seq<PairValue> {
    let list = scored(parts, false);
    by_length(assigned(list, letters(), Seq::empty(), Seq::empty(), list.len()))
}

/// The pairs of whole numbers. A number that has a letter gets no other symbol.
pub open spec fn whole_pairs(parts: Seq<Counted>, wholes: Seq<Counted>) -> Seq<PairValue> {
    let list = scored(wholes, true);
    by_length(assigned(list, signs(), letter_pairs(parts), Seq::empty(), list.len()))
}

/// The pairs of further parts.
pub open spec fn further_pairs(parts: Seq<Counted>, wholes: Seq<Counted>) -> Seq<PairValue> {
    let list = scored(parts, false);
    by_length(
        assigned(list, signs(), letter_pairs(parts), whole_pairs(parts, wholes), list.len()),
    )
}

/// The pairs of further parts that are listed: those whose symbols stand for no whole number.
pub open spec fn listed_pairs(parts: Seq<Counted>, wholes: Seq<Counted>) -> Seq<PairValue> {
    let list = further_pairs(parts, wholes);
    unused(list, whole_pairs(parts, wholes), list.len())
}

/// The rule that a pair stands for.
pub open spec fn pair_rules(list: Seq<PairValue>) -> Seq<Rule> {
    Seq::new(
        list.len(),
        |i: int| Rule { part: ascii_text(list[i].part), symbol: seq![list[i].symbol] },
    )
}

/// The rules that shorten a number.
pub open spec fn symbol_rules(parts: Seq<Counted>, wholes: Seq<Counted>) -> Seq<Rule> {
    pair_rules(by_length(letter_pairs(parts) + listed_pairs(parts, wholes)))
}

impl Symbols {
    /// The symbols are those for these counts.
    pub open spec fn is_for(&self, parts: Seq<Counted>, wholes: Seq<Counted>) -> bool {
        &&& pair_values(self.letters@) == letter_pairs(parts)
        &&& pair_values(self.wholes@) == whole_pairs(parts, wholes)
        &&& pair_values(self.further@) == listed_pairs(parts, wholes)
        &&& rules_of(self.rules@) == symbol_rules(parts, wholes)
    }

    /// Symbols are shorter than what they stand for.
    pub open spec fn wf(&self) -> bool {
        shrinks(rules_of(self.rules@))
    }
}

fn ascii_string(bytes: &[u8]) -> (out: String)
    ensures
        out@ == ascii_text(bytes@),
{
    let mut out = String::new();
    push_ascii(&mut out, bytes);
    assert(out@ =~= ascii_text(bytes@));
    out
}

fn push_ascii(out: &mut String, bytes: &[u8])
    ensures
        final(out)@ == old(out)@ + ascii_text(bytes@),
{
    let ghost before = out@;
    let mut i: usize = 0;
    while i < bytes.len()
        invariant
            i <= bytes@.len(),
            out@ =~= before + ascii_text(bytes@).take(i as int),
        decreases bytes@.len() - i,
    {
        out.push(bytes[i] as char);
        i = i + 1;
    }
    assert(ascii_text(bytes@).take(i as int) =~= ascii_text(bytes@));
}

fn make_rules(list: &Vec<Pair>) -> (rules: Vec<(String, String)>)
    requires
        long_parts(pair_values(list@)),
    ensures
        rules_of(rules@) == pair_rules(pair_values(list@)),
        shrinks(rules_of(rules@)),
{
    let ghost values = pair_values(list@);
    let mut rules: Vec<(String, String)> = Vec::with_capacity(list.len());
    let mut i: usize = 0;
    while i < list.len()
        invariant
            i <= list.len(),
            values == pair_values(list@),
            rules.len() == i,
            forall|j: int|
                0 <= j < i ==> (#[trigger] rules@[j]).0@ == ascii_text(values[j].part)
                    && rules@[j].1@ == seq![values[j].symbol],
        decreases list.len() - i,
    {
        assert(values[i as int] == list@[i as int]@);
        let part = ascii_string(list[i].part.as_slice());
        let mut symbol = String::new();
        symbol.push(list[i].symbol);
        assert(symbol@ =~= seq![list@[i as int].symbol]);
        rules.push((part, symbol));
        i = i + 1;
    }
    proof {
        let made = rules_of(rules@);
        assert(made =~= pair_rules(values));
        assert forall|j: int| 0 <= j < made.len() implies (#[trigger] made[j]).symbol.len()
            < made[j].part.len() by {
            assert(values[j].part.len() >= 2);
        }
    }
    rules
}

/// Gives symbols to the parts and numbers that come most often.
pub fn build_symbols(parts: &Vec<WindowCount>, wholes: &Vec<WindowCount>) -> (r: Symbols)
    ensures
        r.is_for(counted_views(parts@), counted_views(wholes@)),
        r.wf(),
{
    let ghost p = counted_views(parts@);
    let ghost w = counted_views(wholes@);
    let part_list = score_entries(parts, false);
    let whole_list = score_entries(wholes, true);
    let none: Vec<Pair> = Vec::new();
    assert(pair_values(none@) =~= Seq::empty());
    let letter_names = "dfhkmpqrtvwyzbcgjlao";
    let sign_names = "#$%&*()[]{}:;'\"<>?/!ABCDEFGHIJKLMNOPQRSTUVWXYZ";
    let letters = sort_by_length(&assign(&part_list, letter_names, &none, &none));
    assert(pair_values(letters@) == letter_pairs(p));
    let whole_pairs = sort_by_length(&assign(&whole_list, sign_names, &letters, &none));
    let further = sort_by_length(&assign(&part_list, sign_names, &letters, &whole_pairs));
    let listed = drop_used(&further, &whole_pairs);
    let mut both: Vec<Pair> = copy_pairs(&letters);
    append_pairs(&mut both, &listed);
    proof {
        let all = pair_values(both@);
        let a = pair_values(letters@);
        let b = pair_values(listed@);
        assert(all =~= a + b);
        assert forall|j: int| 0 <= j < all.len() implies (#[trigger] all[j]).part.len() >= 2 by {
            if j < a.len() {
                assert(all[j] == a[j]);
            } else {
                assert(all[j] == b[j - a.len()]);
            }
        }
    }
    let combined = sort_by_length(&both);
    let rules = make_rules(&combined);
    Symbols { letters, further: listed, wholes: whole_pairs, rules }
}

fn copy_pairs(list: &Vec<Pair>) -> (out: Vec<Pair>)
    ensures
        pair_values(out@) == pair_values(list@),
{
    let mut out: Vec<Pair> = Vec::with_capacity(list.len());
    append_pairs(&mut out, list);
    assert(pair_values(out@) =~= pair_values(list@));
    out
}

fn append_pairs(out: &mut Vec<Pair>, list: &Vec<Pair>)
    ensures
        pair_values(final(out)@) == pair_values(old(out)@) + pair_values(list@),
{
    let ghost before = pair_values(out@);
    let ghost values = pair_values(list@);
    assert(before + values.take(0) =~= before);
    let mut i: usize = 0;
    while i < list.len()
        invariant
            i <= list.len(),
            values == pair_values(list@),
            pair_values(out@) == before + values.take(i as int),
        decreases list.len() - i,
    {
        let ghost was = pair_values(out@);
        out.push(Pair { part: copy_of(list[i].part.as_slice()), symbol: list[i].symbol });
        proof {
            assert(pair_values(out@) =~= was.push(values[i as int]));
            assert(was.push(values[i as int]) =~= before + values.take(i + 1));
        }
        i = i + 1;
    }
    assert(values.take(i as int) =~= values);
}

/// The lines that list the first `n` pairs.
pub open spec fn pairs_text(list: Seq<PairValue>, n: nat) -> Seq<char>
    decreases n,
{
    if n == 0 {
        Seq::empty()
    } else {
        pairs_text(list, (n - 1) as nat).push(list[n - 1].symbol) + "="@ + ascii_text(
            list[n - 1].part,
        ) + "\n"@
    }
}

/// The list of symbols. The powers' symbols are always there; an empty line follows where there
/// are others.
pub open spec fn symbols_text(
    letters: Seq<PairValue>,
    further: Seq<PairValue>,
    wholes: Seq<PairValue>,
) -> Seq<char> {
    let lists = pairs_text(letters, letters.len()) + pairs_text(further, further.len())
        + pairs_text(wholes, wholes.len()) + "@=u3\n`=u2\n"@;
    if letters.len() == 0 && further.len() == 0 && wholes.len() == 0 {
        lists
    } else {
        lists + "\n"@
    }
}

fn push_pairs(out: &mut String, list: &Vec<Pair>)
    ensures
        final(out)@ == old(out)@ + pairs_text(pair_values(list@), list@.len()),
{
    let ghost before = out@;
    let ghost values = pair_values(list@);
    let mut i: usize = 0;
    while i < list.len()
        invariant
            i <= list.len(),
            values == pair_values(list@),
            out@ =~= before + pairs_text(values, i as nat),
        decreases list.len() - i,
    {
        assert(values[i as int] == list@[i as int]@);
        out.push(list[i].symbol);
        out.append("=");
        push_ascii(out, list[i].part.as_slice());
        out.append("\n");
        i = i + 1;
    }
}

/// An equation's term: its sign, the notation of its coefficient without it, its degree, and
/// whether the coefficient is one.
#[derive(Debug)]
pub struct EquationTerm {
    pub negative: bool,
    pub text: Vec<u8>,
    pub degree: usize,
    pub unit: bool,
}

/// What an `EquationTerm` says.
pub struct EquationTermValue {
    pub negative: bool,
    pub text: Seq<u8>,
    pub degree: usize,
    pub unit: bool,
}

impl View for EquationTerm {
    type V = EquationTermValue;

    open spec fn view(&self) -> EquationTermValue {
        EquationTermValue {
            negative: self.negative,
            text: self.text@,
            degree: self.degree,
            unit: self.unit,
        }
    }
}

/// The views of a list of terms.
pub open spec fn equation_terms(v: Seq<EquationTerm>) -> Seq<EquationTermValue> {
    Seq::new(v.len(), |i: int| v[i]@)
}

/// The first pair with this part.
pub open spec fn pair_for(list: Seq<PairValue>, part: Seq<u8>) -> Option<char>
    decreases list.len(),
{
    if list.len() == 0 {
        None
    } else if list[0].part == part {
        Some(list[0].symbol)
    } else {
        pair_for(list.skip(1), part)
    }
}

/// A coefficient with symbols: its own one where it has one, and else those of its parts.
pub open spec fn coefficient_text(
    text: Seq<u8>,
    wholes: Seq<PairValue>,
    rules: Seq<Rule>,
) -> Seq<char> {
    match pair_for(wholes, text) {
        Some(c) => shorthand(seq![c], rules),
        None => shorthand(ascii_text(text), rules),
    }
}

/// A power of the variable.
pub open spec fn power_text(degree: nat) -> Seq<char> {
    if degree == 0 {
        Seq::empty()
    } else if degree == 1 {
        "u"@
    } else if degree == 2 {
        "`"@
    } else if degree == 3 {
        "@"@
    } else {
        "u"@ + decimal(degree)
    }
}

/// A term's sign: a plus is left out in front.
pub open spec fn sign_text(negative: bool, first: bool) -> Seq<char> {
    if negative {
        "-"@
    } else if first {
        Seq::empty()
    } else {
        "+"@
    }
}

/// The first `n` terms of an equation. A coefficient of one is left out before a power.
pub open spec fn terms_text(
    terms: Seq<EquationTermValue>,
    wholes: Seq<PairValue>,
    rules: Seq<Rule>,
    n: nat,
) -> Seq<char>
    decreases n,
{
    if n == 0 {
        Seq::empty()
    } else {
        let t = terms[n - 1];
        let value = if t.degree > 0 && t.unit {
            Seq::empty()
        } else {
            coefficient_text(t.text, wholes, rules)
        };
        terms_text(terms, wholes, rules, (n - 1) as nat) + sign_text(t.negative, n == 1) + value
            + power_text(t.degree as nat)
    }
}

/// The line for an equation.
pub open spec fn equation_text(
    terms: Seq<EquationTermValue>,
    wholes: Seq<PairValue>,
    rules: Seq<Rule>,
) -> Seq<char> {
    if terms.len() == 0 {
        "0\n"@
    } else {
        terms_text(terms, wholes, rules, terms.len()) + "\n"@
    }
}

impl Symbols {
    /// The list of symbols.
    pub fn table(&self) -> (out: String)
        ensures
            out@ == symbols_text(
                pair_values(self.letters@),
                pair_values(self.further@),
                pair_values(self.wholes@),
            ),
    {
        let mut out = String::new();
        push_pairs(&mut out, &self.letters);
        push_pairs(&mut out, &self.further);
        push_pairs(&mut out, &self.wholes);
        out.append("@=u3\n`=u2\n");
        proof {
            let a = pair_values(self.letters@);
            let b = pair_values(self.further@);
            let c = pair_values(self.wholes@);
            assert(out@ =~= pairs_text(a, a.len()) + pairs_text(b, b.len()) + pairs_text(c, c.len())
                + "@=u3\n`=u2\n"@);
        }
        if self.letters.len() > 0 || self.further.len() > 0 || self.wholes.len() > 0 {
            out.append("\n");
        }
        out
    }

    fn whole_symbol(&self, text: &[u8]) -> (r: Option<char>)
        ensures
            r == pair_for(pair_values(self.wholes@), text@),
    {
        let ghost values = pair_values(self.wholes@);
        assert(values.skip(0) =~= values);
        let mut i: usize = 0;
        while i < self.wholes.len()
            invariant
                i <= self.wholes.len(),
                values == pair_values(self.wholes@),
                pair_for(values, text@) == pair_for(values.skip(i as int), text@),
            decreases self.wholes.len() - i,
        {
            assert(values.skip(i as int)[0] == self.wholes@[i as int]@);
            if same_bytes(self.wholes[i].part.as_slice(), text) {
                return Some(self.wholes[i].symbol);
            }
            assert(values.skip(i as int).skip(1) =~= values.skip(i + 1));
            i = i + 1;
        }
        None
    }

    /// A coefficient with symbols.
    pub fn shorten(&self, text: &[u8]) -> (out: String)
        requires
            self.wf(),
        ensures
            out@ == coefficient_text(text@, pair_values(self.wholes@), rules_of(self.rules@)),
    {
        let plain = match self.whole_symbol(text) {
            Some(c) => {
                let mut s = String::new();
                s.push(c);
                assert(s@ =~= seq![c]);
                s
            },
            None => ascii_string(text),
        };
        proof {
            lemma_shrinking_ends(plain@, rules_of(self.rules@));
        }
        apply_dec_shorthand(plain.as_str(), self.rules.as_slice())
    }

    /// The line for an equation.
    pub fn equation_line(&self, terms: &Vec<EquationTerm>) -> (out: String)
        requires
            self.wf(),
        ensures
            out@ == equation_text(
                equation_terms(terms@),
                pair_values(self.wholes@),
                rules_of(self.rules@),
            ),
    {
        if terms.len() == 0 {
            return String::from_str("0\n");
        }
        let ghost values = equation_terms(terms@);
        let ghost wholes = pair_values(self.wholes@);
        let ghost rules = rules_of(self.rules@);
        let mut out = String::new();
        assert(out@ =~= Seq::empty());
        let mut i: usize = 0;
        while i < terms.len()
            invariant
                i <= terms.len(),
                self.wf(),
                values == equation_terms(terms@),
                wholes == pair_values(self.wholes@),
                rules == rules_of(self.rules@),
                out@ == terms_text(values, wholes, rules, i as nat),
            decreases terms.len() - i,
        {
            let t = &terms[i];
            let ghost before = out@;
            assert(values[i as int] == t@);
            if t.negative {
                out.append("-");
            } else if i > 0 {
                out.append("+");
            }
            assert(out@ =~= before + sign_text(t.negative, i == 0));
            let ghost signed = out@;
            if !(t.degree > 0 && t.unit) {
                let value = self.shorten(t.text.as_slice());
                out.append(value.as_str());
            }
            let ghost valued = out@;
            if t.degree == 1 {
                out.append("u");
            } else if t.degree == 2 {
                out.append("`");
            } else if t.degree == 3 {
                out.append("@");
            } else if t.degree > 3 {
                out.append("u");
                push_decimal(&mut out, t.degree as u128);
            }
            proof {
                let value = if t.degree > 0 && t.unit {
                    Seq::empty()
                } else {
                    coefficient_text(t.text@, wholes, rules)
                };
                assert(valued =~= signed + value);
                assert(out@ =~= valued + power_text(t.degree as nat));
            }
            i = i + 1;
        }
        out.append("\n");
        out
    }
}

/// Up to 20000 equations are all looked at; of more, every so many that between 20000 and twice as many
/// are.
pub proof fn lemma_sample_step(n: nat)
    ensures
        n <= 20000 ==> sample_step_of(n) == 1,
        n > 20000 ==> 20000 * sample_step_of(n) <= n < 20000 * (sample_step_of(n) + 1),
{
}

/// The parts of a number before its point are exactly its runs of two to six digits, wherever they
/// stand.
pub proof fn lemma_inner_parts_all(full: Seq<u8>, k: nat, start: int, len: int)
    requires
        k <= full.len(),
        0 <= start < k,
        2 <= len <= 6,
        start + len <= full.len(),
    ensures
        inner_parts(full, k).contains(full.subrange(start, start + len)),
    decreases k,
{
    let before = inner_parts(full, (k - 1) as nat);
    let all = inner_parts(full, k);
    let new = parts_from(full, k - 1, longest_part(full, k - 1));
    let x = full.subrange(start, start + len);
    if start == k - 1 {
        assert(new[len - 2] == x);
        assert(all[before.len() + len - 2] == x);
    } else {
        lemma_inner_parts_all(full, (k - 1) as nat, start, len);
        let i = choose|i: int| 0 <= i < before.len() && before[i] == x;
        assert(all[i] == x);
    }
}

/// A run of the digits in front of place `k`, of two to six digits.
pub open spec fn is_run(full: Seq<u8>, k: nat, x: Seq<u8>) -> bool {
    exists|start: int|
        0 <= start < k && 2 <= x.len() <= 6 && start + x.len() <= full.len()
            && #[trigger] full.subrange(start, start + x.len()) == x
}

/// No other parts of the number before its point are counted.
pub proof fn lemma_inner_parts_only(full: Seq<u8>, k: nat)
    requires
        k <= full.len(),
    ensures
        forall|i: int|
            0 <= i < inner_parts(full, k).len() ==> is_run(full, k, #[trigger] inner_parts(full, k)[i]),
    decreases k,
{
    if k > 0 {
        let b = (k - 1) as nat;
        lemma_inner_parts_only(full, b);
        let before = inner_parts(full, b);
        let all = inner_parts(full, k);
        let new = parts_from(full, k - 1, longest_part(full, k - 1));
        assert forall|i: int| 0 <= i < all.len() implies is_run(full, k, #[trigger] all[i]) by {
            if i < before.len() {
                assert(all[i] == before[i]);
                assert(is_run(full, b, before[i]));
                let start = choose|start: int|
                    0 <= start < b && 2 <= before[i].len() <= 6 && start + before[i].len()
                        <= full.len() && #[trigger] full.subrange(start, start + before[i].len())
                        == before[i];
                assert(full.subrange(start, start + all[i].len()) == all[i]);
            } else {
                let l = i - before.len();
                assert(all[i] == new[l]);
                assert(all[i].len() == 2 + l);
                assert(full.subrange(k - 1, k - 1 + all[i].len()) == all[i]);
            }
        }
    }
}

/// Of a number with a point, what follows the first point is counted where it has two digits or more,
/// and besides it what stands before the point.
pub proof fn lemma_fraction_counted(before: Seq<u8>, frac: Seq<u8>)
    requires
        forall|i: int| 0 <= i < before.len() ==> #[trigger] before[i] != 0x2e,
    ensures
        frac.len() >= 2 ==> number_parts(before + seq![0x2eu8] + frac) == seq![frac] + inner_parts(
            before,
            before.len(),
        ),
        frac.len() < 2 ==> number_parts(before + seq![0x2eu8] + frac) == inner_parts(
            before,
            before.len(),
        ),
        number_parts(before) == inner_parts(before, before.len()),
{
    let s = before + seq![0x2eu8] + frac;
    lemma_point_found(before, frac);
    lemma_point_missing(before);
    assert(s.take(before.len() as int) =~= before);
    assert(s.skip(before.len() as int + 1) =~= frac);
    if frac.len() < 2 {
        assert(Seq::<Seq<u8>>::empty() + inner_parts(before, before.len()) =~= inner_parts(
            before,
            before.len(),
        ));
    }
}

proof fn lemma_point_found(before: Seq<u8>, frac: Seq<u8>)
    requires
        forall|i: int| 0 <= i < before.len() ==> #[trigger] before[i] != 0x2e,
    ensures
        point_at(before + seq![0x2eu8] + frac) == Some(before.len()),
    decreases before.len(),
{
    let s = before + seq![0x2eu8] + frac;
    if before.len() > 0 {
        assert(s[0] == before[0]);
        assert(s.skip(1) =~= before.skip(1) + seq![0x2eu8] + frac);
        assert forall|i: int| 0 <= i < before.skip(1).len() implies #[trigger] before.skip(1)[i]
            != 0x2e by {
            assert(before.skip(1)[i] == before[i + 1]);
        }
        lemma_point_found(before.skip(1), frac);
    } else {
        assert(s[0] == 0x2e);
    }
}

proof fn lemma_point_missing(s: Seq<u8>)
    requires
        forall|i: int| 0 <= i < s.len() ==> #[trigger] s[i] != 0x2e,
    ensures
        point_at(s) is None,
    decreases s.len(),
{
    if s.len() > 0 {
        assert(s[0] != 0x2e);
        assert forall|i: int| 0 <= i < s.skip(1).len() implies #[trigger] s.skip(1)[i] != 0x2e by {
            assert(s.skip(1)[i] == s[i + 1]);
        }
        lemma_point_missing(s.skip(1));
    }
}

/// It has two bytes or more and comes often enough: three times, or twice where it is a part of more
/// than two bytes.
pub open spec fn earns_symbol(c: Counted, whole: bool) -> bool {
    &&& c.chunk.len() >= 2
    &&& c.count >= 2
    &&& whole || c.chunk.len() == 2 ==> c.count >= 3
}

proof fn lemma_frequent_ones(list: Seq<Counted>, whole: bool, n: nat)
    requires
        n <= list.len(),
    ensures
        frequent_ones(list, whole, n).len() <= n,
        forall|i: int|
            0 <= i < frequent_ones(list, whole, n).len() ==> earns_symbol(
                #[trigger] frequent_ones(list, whole, n)[i],
                whole,
            ) && list.contains(frequent_ones(list, whole, n)[i]),
        forall|j: int|
            0 <= j < n && earns_symbol(#[trigger] list[j], whole) ==> frequent_ones(
                list,
                whole,
                n,
            ).contains(list[j]),
    decreases n,
{
    if n > 0 {
        let b = (n - 1) as nat;
        lemma_frequent_ones(list, whole, b);
        let before = frequent_ones(list, whole, b);
        let all = frequent_ones(list, whole, n);
        assert forall|i: int| 0 <= i < all.len() implies earns_symbol(#[trigger] all[i], whole)
            && list.contains(all[i]) by {
            if i < before.len() {
                assert(all[i] == before[i]);
            } else {
                assert(all[i] == list[n - 1]);
            }
        }
        assert forall|j: int| 0 <= j < n && earns_symbol(#[trigger] list[j], whole) implies
            all.contains(list[j]) by {
            if j < b {
                assert(before.contains(list[j]));
                let i = choose|i: int| 0 <= i < before.len() && before[i] == list[j];
                assert(all[i] == list[j]);
            } else {
                assert(all[before.len() as int] == list[j]);
            }
        }
    }
}

/// What a byte string is worth: the bytes that it covers; of a whole number those that symbols save.
pub open spec fn worth(c: Counted, whole: bool) -> int {
    if whole {
        c.count * c.chunk.len() - c.count
    } else {
        (c.count * c.chunk.len()) as int
    }
}

/// Exactly the byte strings that come often enough are listed, and the more one is worth the earlier it
/// is.
pub proof fn lemma_scored(list: Seq<Counted>, whole: bool, i: int, j: int)
    requires
        list.len() <= usize::MAX,
        forall|k: int|
            0 <= k < list.len() ==> (#[trigger] list[k]).count <= usize::MAX && list[k].chunk.len()
                <= usize::MAX,
        0 <= i < j < scored(list, whole).len(),
    ensures
        exists|a: int, b: int|
            #![trigger list[a], list[b]]
            0 <= a < list.len() && 0 <= b < list.len() && scored(list, whole)[i] == list[a].chunk
                && scored(list, whole)[j] == list[b].chunk && earns_symbol(list[a], whole)
                && earns_symbol(list[b], whole) && worth(list[a], whole) >= worth(list[b], whole),
{
    let kept = frequent_ones(list, whole, list.len());
    lemma_frequent_ones(list, whole, list.len());
    let ranks = saving_ranks(kept, whole);
    let order = order_ranked(ranks);
    lemma_rank_decides(ranks, i, j);
    lemma_rank_order_total(ranks);
    lemma_ordered(kept.len(), rank_order(ranks));
    let x = kept[order[i] as int];
    let y = kept[order[j] as int];
    assert(list.contains(x) && list.contains(y));
    let a = choose|a: int| 0 <= a < list.len() && list[a] == x;
    let b = choose|b: int| 0 <= b < list.len() && list[b] == y;
    lemma_worth(list[a], whole);
    lemma_worth(list[b], whole);
}

proof fn lemma_worth(c: Counted, whole: bool)
    requires
        c.count <= usize::MAX,
        c.chunk.len() <= usize::MAX,
        c.chunk.len() >= 1,
    ensures
        0 <= worth(c, whole) <= u128::MAX,
        c.count * (c.chunk.len() - 1) == c.count * c.chunk.len() - c.count,
{
    let n = c.count;
    let l = c.chunk.len();
    assert(0 <= n * l <= 0xffff_ffff_ffff_ffff * 0xffff_ffff_ffff_ffff) by (nonlinear_arith)
        requires
            n <= 0xffff_ffff_ffff_ffff,
            l <= 0xffff_ffff_ffff_ffff,
    ;
    assert(n * l >= n) by (nonlinear_arith)
        requires
            l >= 1,
    ;
    assert(n * (l - 1) == n * l - n) by (nonlinear_arith);
}

/// A byte string that comes often enough is listed.
pub proof fn lemma_scored_complete(list: Seq<Counted>, whole: bool, j: int)
    requires
        list.len() <= usize::MAX,
        0 <= j < list.len(),
        earns_symbol(list[j], whole),
    ensures
        scored(list, whole).contains(list[j].chunk),
{
    let kept = frequent_ones(list, whole, list.len());
    lemma_frequent_ones(list, whole, list.len());
    let k = choose|k: int| 0 <= k < kept.len() && kept[k] == list[j];
    let ranks = saving_ranks(kept, whole);
    let order = order_ranked(ranks);
    lemma_rank_order_total(ranks);
    lemma_ordered(kept.len(), rank_order(ranks));
    lemma_holds_all(order, kept.len(), k);
    let m = choose|m: int| 0 <= m < kept.len() && #[trigger] order[m] == k;
    assert(scored(list, whole)[m] == list[j].chunk);
}

/// The longer parts come first, and no pair is lost.
pub proof fn lemma_by_length(list: Seq<PairValue>, i: int, j: int)
    requires
        list.len() <= usize::MAX,
        forall|k: int| 0 <= k < list.len() ==> (#[trigger] list[k]).part.len() <= u128::MAX,
        0 <= i < j < list.len(),
    ensures
        by_length(list).len() == list.len(),
        by_length(list)[i].part.len() >= by_length(list)[j].part.len(),
        by_length(list).contains(list[i]),
        by_length(list).contains(list[j]),
        list.contains(by_length(list)[i]),
{
    let keys = Seq::new(list.len(), |k: int| list[k].part.len() as u128);
    let order = order_desc(keys);
    lemma_order_desc(keys);
    lemma_larger_first(keys, i, j);
    lemma_order_has(keys, i);
    lemma_order_has(keys, j);
    let a = choose|a: int| 0 <= a < keys.len() && #[trigger] order[a] == i;
    let b = choose|b: int| 0 <= b < keys.len() && #[trigger] order[b] == j;
    assert(by_length(list)[a] == list[i]);
    assert(by_length(list)[b] == list[j]);
    assert(by_length(list)[i] == list[order[i] as int]);
    assert(by_length(list)[j] == list[order[j] as int]);
}

/// Symbols are given out in their order, one for each byte string that has none yet, until they run
/// out: the one at `i` goes to one of the list, and a byte string without a symbol is only left without
/// one where all are used.
pub proof fn lemma_symbols_given(
    list: Seq<Seq<u8>>,
    symbols: Seq<char>,
    taken: Seq<PairValue>,
    also: Seq<PairValue>,
    n: nat,
    j: int,
)
    requires
        0 <= j < n <= list.len(),
        forall|k: int| 0 <= k < symbols.len() ==> 0 <= ((#[trigger] symbols[k]) as int) < 128,
    ensures
        ({
            let all = assigned(list, symbols, taken, also, n);
            &&& all.len() <= symbols.len()
            &&& forall|i: int| 0 <= i < all.len() ==> (#[trigger] all[i]).symbol == symbols[i]
            &&& forall|i: int| 0 <= i < all.len() ==> list.contains((#[trigger] all[i]).part)
            &&& forall|i: int|
                0 <= i < all.len() ==> !has_part(taken, (#[trigger] all[i]).part) && !has_part(
                    also,
                    all[i].part,
                )
            &&& !has_part(taken, list[j]) && !has_part(also, list[j]) ==> has_part(all, list[j])
                || all.len() == symbols.len()
        }),
    decreases n,
{
    let before = assigned(list, symbols, taken, also, (n - 1) as nat);
    let all = assigned(list, symbols, taken, also, n);
    lemma_assigned_step(list, symbols, taken, also, n);
    if n > 1 {
        lemma_symbols_given(
            list,
            symbols,
            taken,
            also,
            (n - 1) as nat,
            if j < n - 1 {
                j
            } else {
                0
            },
        );
    } else {
        assert(before =~= Seq::empty());
    }
    assert forall|i: int| 0 <= i < all.len() implies (#[trigger] all[i]).symbol == symbols[i]
        && list.contains(all[i].part) && !has_part(taken, all[i].part) && !has_part(
        also,
        all[i].part,
    ) by {
        if i < before.len() {
            assert(all[i] == before[i]);
        } else {
            assert(all[i] == all.last());
        }
    }
    if has_part(before, list[j]) {
        let i = choose|i: int| 0 <= i < before.len() && (#[trigger] before[i]).part == list[j];
        assert(all[i].part == list[j]);
    } else if j == n - 1 && before.len() < symbols.len() && !has_part(taken, list[j]) && !has_part(
        also,
        list[j],
    ) {
        assert(all[before.len() as int].part == list[j]);
    }
}

/// Where the line of pair `i` starts.
pub open spec fn line_start(list: Seq<PairValue>, i: nat) -> nat
    decreases i,
{
    if i == 0 {
        0
    } else {
        line_start(list, (i - 1) as nat) + list[i - 1].part.len() + 3
    }
}

/// The list of pairs can be read back: the line of each is its symbol, an equals sign and the
/// characters of its own part.
pub proof fn lemma_pairs_read_back(list: Seq<PairValue>, n: nat, i: int)
    requires
        0 <= i < n <= list.len(),
    ensures
        ({
            let text = pairs_text(list, n);
            let at = line_start(list, i as nat) as int;
            let len = list[i].part.len() as int;
            &&& text.len() == line_start(list, n)
            &&& at + len + 3 == line_start(list, (i + 1) as nat)
            &&& at + len + 3 <= text.len()
            &&& text[at] == seq![list[i].symbol][0]
            &&& text[at + 1] == '='
            &&& text.subrange(at + 2, at + 2 + len) == ascii_text(list[i].part)
            &&& text[at + 2 + len] == '\n'
        }),
    decreases n,
{
    reveal_strlit("=");
    reveal_strlit("\n");
    let front = pairs_text(list, (n - 1) as nat);
    let text = pairs_text(list, n);
    let at = line_start(list, i as nat) as int;
    let len = list[i].part.len() as int;
    if n > 1 {
        lemma_pairs_read_back(
            list,
            (n - 1) as nat,
            if i < n - 1 {
                i
            } else {
                0
            },
        );
    } else {
        assert(front.len() == 0);
        assert(line_start(list, 0) == 0);
    }
    assert(front.len() == line_start(list, (n - 1) as nat));
    if i < n - 1 {
        assert(text.subrange(at + 2, at + 2 + len) =~= front.subrange(at + 2, at + 2 + len));
        assert(text[at] == front[at]);
    } else {
        assert(text.subrange(at + 2, at + 2 + len) =~= ascii_text(list[i].part));
        assert(text[at] == front.push(list[i].symbol)[at]);
    }
}

/// Every so many equations one is looked at, from the first on: as many as there are.
pub proof fn lemma_sample_total(n: nat, step: nat, k: nat)
    requires
        step > 0,
    ensures
        k < sample_total(n, step) <==> k * step < n,
{
    if n > 0 {
        let q = (n - 1) / step as int;
        vstd::arithmetic::div_mod::lemma_fundamental_div_mod(n - 1, step as int);
        if k <= q {
            assert(k * step <= step * q) by (nonlinear_arith)
                requires
                    k <= q,
                    step > 0,
            ;
        } else {
            assert(k * step >= step * q + step) by (nonlinear_arith)
                requires
                    k >= q + 1,
                    step > 0,
            ;
        }
    } else {
        assert(k * step >= 0) by (nonlinear_arith);
    }
}

/// All numbers of an equation that is looked at are counted.
pub proof fn lemma_sampled_whole(segs: Seq<Vec<Vec<u8>>>, step: nat, k: nat, i: int, j: int)
    requires
        0 <= i < k,
        0 <= j < segs[i * step]@.len(),
    ensures
        sampled(segs, step, k).contains(segs[i * step]@[j]@),
    decreases k,
{
    let before = sampled(segs, step, (k - 1) as nat);
    let all = sampled(segs, step, k);
    let x = segs[i * step]@[j]@;
    if i == k - 1 {
        assert(numbers(segs[(k - 1) * step]@)[j] == x);
        assert(all[before.len() + j] == x);
    } else {
        lemma_sampled_whole(segs, step, (k - 1) as nat, i, j);
        let m = choose|m: int| 0 <= m < before.len() && before[m] == x;
        assert(all[m] == x);
    }
}

} // verus!
