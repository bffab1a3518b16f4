//! The list of all lists of offsets, one for each seed.

use vstd::arithmetic::div_mod::{lemma_div_denominator, lemma_fundamental_div_mod};
use vstd::prelude::*;
use vstd::string::*;

use crate::fitting::{lemma_raised, raised};
use crate::natural::decimal;
use crate::offsets::{all_digits, is_digit, lemma_pack_unpacked, unpacked, Offsets};
use crate::reading::{
    lacks, last_of, lemma_lacks, lemma_last_behind, lemma_read_decimal, read_number,
};
use crate::text::push_decimal;

verus! {

/// The lists of `count` offsets, each one of the `base` numbers from `low` on: `total` in all.
#[derive(Clone, Copy, Debug, PartialEq, Eq)]
pub struct Pond {
    pub low: u128,
    pub base: u128,
    pub count: usize,
    pub total: u128,
}

impl Pond {
    pub open spec fn wf(&self) -> bool {
        &&& self.base > 0
        &&& self.count > 0
        &&& self.low + self.base <= u128::MAX + 1
        &&& self.total == raised(self.base as nat, self.count as nat)
    }
}

/// Why there is no pond.
#[derive(Clone, Copy, Debug, PartialEq, Eq)]
pub enum PondError {
    /// There are no numbers.
    Empty,
    /// There are more lists than can be counted.
    TooLarge,
}

proof fn lemma_power_grows(base: nat, j: nat, k: nat)
    requires
        base > 0,
        j <= k,
    ensures
        raised(base, j) <= raised(base, k),
    decreases k - j,
{
    if j < k {
        lemma_power_grows(base, j, (k - 1) as nat);
        lemma_raised(base, (k - 1) as nat);
        let p = raised(base, (k - 1) as nat);
        assert(p * base >= p) by (nonlinear_arith)
            requires
                base >= 1,
        ;
    }
}

/// `base` to the power of `exponent`, where it is not too large.
pub fn power_checked(base: u128, exponent: u128) -> (r: Option<u128>)
    requires
        base > 0,
    ensures
        match r {
            Some(p) => p == raised(base as nat, exponent as nat),
            None => raised(base as nat, exponent as nat) > u128::MAX,
        },
{
    proof {
        lemma_raised(base as nat, 0);
    }
    if base == 1 {
        proof {
            vstd::arithmetic::power::lemma1_pow(exponent as nat);
        }
        return Some(1);
    }
    let mut p: u128 = 1;
    let mut i: u128 = 0;
    while i < exponent
        invariant
            base > 1,
            i <= exponent,
            p == raised(base as nat, i as nat),
        decreases exponent - i,
    {
        proof {
            lemma_raised(base as nat, i as nat);
            lemma_power_grows(base as nat, (i + 1) as nat, exponent as nat);
        }
        match p.checked_mul(base) {
            Some(next) => {
                p = next;
            },
            None => {
                return None;
            },
        }
        i = i + 1;
    }
    Some(p)
}

/// The pond for the offsets. There must be a range of offsets that does not cover every number,
/// unless there are no numbers at all.
pub fn plan_pond(offsets: &Offsets) -> (r: Result<Pond, PondError>)
    requires
        offsets.count <= usize::MAX,
        offsets.count > 0 ==> offsets.low <= offsets.high && offsets.high - offsets.low < u128::MAX,
    ensures
        match r {
            Ok(p) => p.wf() && offsets.count > 0 && p.low == offsets.low && p.base == offsets.high
                - offsets.low + 1 && p.count == offsets.count,
            Err(PondError::Empty) => offsets.count == 0,
            Err(PondError::TooLarge) => offsets.count > 0 && raised(
                (offsets.high - offsets.low + 1) as nat,
                offsets.count as nat,
            ) > u128::MAX,
        },
{
    if offsets.count == 0 {
        return Err(PondError::Empty);
    }
    let base = offsets.high - offsets.low + 1;
    match power_checked(base, offsets.count) {
        Some(total) => {
            Ok(Pond { low: offsets.low, base, count: offsets.count as usize, total })
        },
        None => Err(PondError::TooLarge),
    }
}

/// The numbers with commas between them.
pub open spec fn joined_text(s: Seq<u128>) -> Seq<char>
    decreases s.len(),
{
    if s.len() == 0 {
        Seq::empty()
    } else if s.len() == 1 {
        decimal(s[0] as nat)
    } else {
        joined_text(s.drop_last()) + ","@ + decimal(s.last() as nat)
    }
}

/// The line for a list: its seed and its offsets.
pub open spec fn line_text(seed: u128, combo: Seq<u128>) -> Seq<char> {
    decimal(seed as nat) + ": ["@ + joined_text(combo) + "]\n"@
}

/// The file for the lists that start with `first`.
pub open spec fn file_text(first: u128) -> Seq<char> {
    "output/offsets_"@ + decimal(first as nat) + ".txt"@
}

/// One list of the pond: its first offset, the name of the file to start for it where it does not
/// belong to the one that is open, and its line.
#[derive(Debug)]
pub struct PondEntry {
    pub first: u128,
    pub new_file: Option<String>,
    pub line: String,
}

impl Pond {
    /// The list of offsets with this seed.
    pub open spec fn combo(&self, seed: u128) -> Seq<u128> {
        unpacked(seed as nat, self.low as nat, self.base as nat, self.count as nat)
    }

    /// The list of offsets with this seed.
    pub fn offsets_at(&self, seed: u128) -> (r: Vec<u128>)
        requires
            self.wf(),
            seed < self.total,
        ensures
            r@ == self.combo(seed),
            r.len() == self.count,
    {
        let mut r: Vec<u128> = Vec::with_capacity(self.count);
        let mut fill: usize = 0;
        while fill < self.count
            invariant
                fill <= self.count,
                r.len() == fill,
            decreases self.count - fill,
        {
            r.push(0);
            fill = fill + 1;
        }
        let mut n: u128 = seed;
        let mut i: usize = self.count;
        while i > 0
            invariant
                i <= self.count,
                r.len() == self.count,
                self.base > 0,
                self.low + self.base <= u128::MAX + 1,
                unpacked(n as nat, self.low as nat, self.base as nat, i as nat) + r@.skip(i as int)
                    =~= self.combo(seed),
            decreases i,
        {
            let digit = (n % self.base) + self.low;
            let ghost before = r@;
            i = i - 1;
            r.set(i, digit);
            proof {
                let tail = before.skip(i + 1);
                assert(r@.skip(i as int) =~= seq![digit] + tail);
                let front = unpacked(
                    (n / self.base) as nat,
                    self.low as nat,
                    self.base as nat,
                    i as nat,
                );
                assert(front.push(digit) + tail =~= front + r@.skip(i as int));
            }
            n = n / self.base;
        }
        assert(r@.skip(0) =~= r@);
        r
    }

    /// The entry for a seed. `current` is the first offset of the file that is open.
    pub fn entry(&self, seed: u128, current: Option<u128>) -> (r: PondEntry)
        requires
            self.wf(),
            seed < self.total,
        ensures
            r.first == self.combo(seed)[0],
            r.line@ == line_text(seed, self.combo(seed)),
            match r.new_file {
                Some(name) => current != Some(r.first) && name@ == file_text(r.first),
                None => current == Some(r.first),
            },
    {
        let combo = self.offsets_at(seed);
        let first = combo[0];
        let same = match current {
            Some(c) => c == first,
            None => false,
        };
        let new_file = if same {
            None
        } else {
            let mut name = String::from_str("output/offsets_");
            push_decimal(&mut name, first);
            name.append(".txt");
            Some(name)
        };
        let line = format_line(seed, &combo);
        PondEntry { first, new_file, line }
    }
}

/// The line for a list.
fn format_line(seed: u128, combo: &Vec<u128>) -> (out: String)
    requires
        combo.len() > 0,
    ensures
        out@ == line_text(seed, combo@),
{
    let mut out = String::new();
    push_decimal(&mut out, seed);
    out.append(": [");
    let ghost before = out@;
    push_decimal(&mut out, combo[0]);
    let mut i: usize = 1;
    while i < combo.len()
        invariant
            1 <= i <= combo.len(),
            out@ =~= before + joined_text(combo@.take(i as int)),
        decreases combo.len() - i,
    {
        proof {
            let now = combo@.take(i + 1);
            assert(now.drop_last() =~= combo@.take(i as int));
            assert(now.last() == combo@[i as int]);
        }
        out.append(",");
        push_decimal(&mut out, combo[i]);
        i = i + 1;
    }
    assert(combo@.take(i as int) =~= combo@);
    out.append("]\n");
    assert(out@ =~= line_text(seed, combo@));
    out
}

proof fn lemma_first_of(seed: nat, low: nat, base: nat, count: nat)
    requires
        base > 0,
        count > 0,
        seed < raised(base, count),
    ensures
        unpacked(seed, low, base, count).len() == count,
        unpacked(seed, low, base, count)[0] == (low + seed / raised(base, (count - 1) as nat))
            as u128,
    decreases count,
{
    let n = (count - 1) as nat;
    lemma_raised(base, n);
    lemma_raised(base, 0);
    lemma_fundamental_div_mod(seed as int, base as int);
    if count == 1 {
        assert(raised(base, 1) == base) by {
            lemma_raised(base, 0);
            assert(1 * base == base);
        }
        reveal_with_fuel(unpacked, 2);
        vstd::arithmetic::div_mod::lemma_small_mod(seed, base);
        assert(seed / 1 == seed);
    } else {
        let q = seed / base;
        let p = raised(base, n);
        assert(q < p) by (nonlinear_arith)
            requires
                base * q <= seed,
                seed < p * base,
                base > 0,
        ;
        lemma_first_of(q, low, base, n);
        let m = (n - 1) as nat;
        lemma_raised(base, m);
        let d = raised(base, m);
        lemma_div_denominator(seed as int, base as int, d as int);
        assert(base * d == d * base) by (nonlinear_arith);
    }
}

/// The lists of a pond start with ever larger offsets, so that those of one file are next to each
/// other: the first offset is the least one and the highest digit of the seed.
pub proof fn lemma_first_offset(pond: Pond, seed: u128)
    requires
        pond.wf(),
        seed < pond.total,
    ensures
        pond.combo(seed)[0] == pond.low + seed as nat / raised(
            pond.base as nat,
            (pond.count - 1) as nat,
        ),
{
    let base = pond.base as nat;
    let low = pond.low as nat;
    lemma_first_of(seed as nat, low, base, pond.count as nat);
    let n = (pond.count - 1) as nat;
    let p = raised(base, n);
    lemma_raised(base, n);
    lemma_fundamental_div_mod(seed as int, p as int);
    let q = seed as nat / p;
    assert(q < base) by (nonlinear_arith)
        requires
            p * q <= seed,
            seed < p * base,
            p > 0,
    ;
}

/// No two seeds of a pond stand for the same list.
pub proof fn lemma_distinct(pond: Pond, a: u128, b: u128)
    requires
        pond.wf(),
        a < pond.total,
        b < pond.total,
        pond.combo(a) == pond.combo(b),
    ensures
        a == b,
{
    let base = pond.base as nat;
    let low = pond.low as nat;
    lemma_pack_unpacked(a as nat, low, base, pond.count as nat);
    lemma_pack_unpacked(b as nat, low, base, pond.count as nat);
}

/// Every list of offsets in the range is in the pond.
pub proof fn lemma_complete(pond: Pond, s: Seq<u128>)
    requires
        pond.wf(),
        s.len() == pond.count,
        crate::offsets::in_base(s, pond.low as nat, pond.base as nat),
    ensures
        ({
            let seed = crate::offsets::packed(s, pond.low as nat, pond.base as nat);
            seed < pond.total && pond.combo(seed as u128) == s
        }),
{
    crate::offsets::lemma_unpack_packed(s, pond.low as nat, pond.base as nat);
}

/// The numbers of a list whose parts are separated by commas.
pub open spec fn read_list(s: Seq<char>) -> Option<Seq<nat>>
    decreases s.len(),
{
    let comma = last_of(s, ',');
    if !(0 <= comma < s.len()) {
        match read_number(s) {
            Some(n) => Some(seq![n]),
            None => None,
        }
    } else {
        match (read_list(s.take(comma)), read_number(s.skip(comma + 1))) {
            (Some(before), Some(n)) => Some(before.push(n)),
            _ => None,
        }
    }
}

/// The seed and the list of a line: a number, a colon and a space, and a list in brackets.
pub open spec fn read_line(s: Seq<char>) -> Option<(nat, Seq<nat>)> {
    let n = s.len() as int;
    let colon = last_of(s, ':');
    if 0 <= colon && colon + 5 <= n && s[colon + 1] == ' ' && s[colon + 2] == '[' && s[n - 2] == ']'
        && s[n - 1] == '\n' {
        match (read_number(s.take(colon)), read_list(s.subrange(colon + 3, n - 2))) {
            (Some(seed), Some(list)) => Some((seed, list)),
            _ => None,
        }
    } else {
        None
    }
}

/// The numbers of a list.
pub open spec fn numbers(s: Seq<u128>) -> Seq<nat> {
    Seq::new(s.len(), |i: int| s[i] as nat)
}

proof fn lemma_digits_only(s: Seq<char>, c: char)
    requires
        all_digits(s),
        !is_digit(c),
    ensures
        lacks(s, c),
{
    assert forall|i: int| 0 <= i < s.len() implies #[trigger] s[i] != c by {
        assert(is_digit(s[i]));
    }
}

proof fn lemma_read_joined(s: Seq<u128>)
    requires
        s.len() > 0,
    ensures
        read_list(joined_text(s)) == Some(numbers(s)),
        lacks(joined_text(s), ':'),
    decreases s.len(),
{
    reveal_strlit(",");
    let n = s.last() as nat;
    let text = joined_text(s);
    let last = decimal(n);
    lemma_read_decimal(n);
    lemma_digits_only(last, ',');
    lemma_digits_only(last, ':');
    if s.len() == 1 {
        lemma_lacks(last, ',');
        assert(numbers(s) =~= seq![n]);
    } else {
        let before = s.drop_last();
        lemma_read_joined(before);
        let front = joined_text(before) + ","@;
        lemma_last_behind(front, last, ',');
        assert(front.last() == ',');
        assert(last_of(text, ',') == joined_text(before).len());
        assert(text.take(last_of(text, ',')) =~= joined_text(before));
        assert(text.skip(last_of(text, ',') + 1) =~= last);
        assert(numbers(s) =~= numbers(before).push(n));
        assert forall|i: int| 0 <= i < text.len() implies #[trigger] text[i] != ':' by {
            if i < joined_text(before).len() {
                assert(text[i] == joined_text(before)[i]);
            } else if i > joined_text(before).len() {
                assert(text[i] == last[i - front.len()]);
            }
        }
    }
}

/// A line can be read back: what stands in front of the colon is the seed, and the parts between the
/// brackets and the commas are the offsets, every one of them and in their order.
pub proof fn lemma_line_reads_back(seed: u128, combo: Seq<u128>)
    requires
        combo.len() > 0,
    ensures
        read_line(line_text(seed, combo)) == Some((seed as nat, numbers(combo))),
{
    reveal_strlit(": [");
    reveal_strlit("]\n");
    let head = decimal(seed as nat);
    let list = joined_text(combo);
    let line = line_text(seed, combo);
    let n = line.len() as int;
    lemma_read_decimal(seed as nat);
    lemma_read_joined(combo);
    let front = head + seq![':'];
    let rest = seq![' ', '['] + list + "]\n"@;
    assert(line =~= front + rest);
    assert forall|i: int| 0 <= i < rest.len() implies #[trigger] rest[i] != ':' by {
        if 2 <= i < 2 + list.len() {
            assert(rest[i] == list[i - 2]);
        }
    }
    lemma_last_behind(front, rest, ':');
    assert(front.last() == ':');
    assert(last_of(line, ':') == head.len());
    assert(line.take(head.len() as int) =~= head);
    assert(line.subrange(head.len() as int + 3, n - 2) =~= list);
    assert(line[n - 2] == ']');
    assert(line[n - 1] == '\n');
    if list.len() == 0 {
        assert(read_list(list) is None) by {
            lemma_lacks(list, ',');
        }
    }
}

/// Two lists that differ, or two seeds, have lines that differ.
pub proof fn lemma_lines_differ(seed_a: u128, a: Seq<u128>, seed_b: u128, b: Seq<u128>)
    requires
        a.len() > 0,
        b.len() > 0,
        line_text(seed_a, a) == line_text(seed_b, b),
    ensures
        seed_a == seed_b,
        a == b,
{
    lemma_line_reads_back(seed_a, a);
    lemma_line_reads_back(seed_b, b);
    assert(numbers(a) == numbers(b));
    assert(a.len() == numbers(a).len());
    assert forall|i: int| 0 <= i < a.len() implies #[trigger] a[i] == b[i] by {
        assert(numbers(a)[i] == numbers(b)[i]);
    }
    assert(a =~= b);
}

/// Lists that start with different offsets belong to different files, and the number in a file's name
/// is the offset that its lists start with.
pub proof fn lemma_files_differ(a: u128, b: u128)
    ensures
        file_text(a).len() > 19,
        read_number(file_text(a).subrange(15, file_text(a).len() - 4)) == Some(a as nat),
        a != b ==> file_text(a) != file_text(b),
{
    reveal_strlit("output/offsets_");
    reveal_strlit(".txt");
    lemma_read_decimal(a as nat);
    lemma_read_decimal(b as nat);
    assert(file_text(a).subrange(15, file_text(a).len() - 4) =~= decimal(a as nat));
    assert(file_text(b).subrange(15, file_text(b).len() - 4) =~= decimal(b as nat));
}

/// No two entries of a pond have the same line, and each line says which seed and which offsets it is
/// for.
pub proof fn lemma_entries_read_back(pond: Pond, seed: u128)
    requires
        pond.wf(),
        seed < pond.total,
    ensures
        read_line(line_text(seed, pond.combo(seed))) == Some(
            (seed as nat, numbers(pond.combo(seed))),
        ),
        forall|other: u128|
            other != seed && other < pond.total ==> #[trigger] line_text(other, pond.combo(other))
                != line_text(seed, pond.combo(seed)),
{
    let base = pond.base as nat;
    let low = pond.low as nat;
    lemma_pack_unpacked(seed as nat, low, base, pond.count as nat);
    lemma_line_reads_back(seed, pond.combo(seed));
    assert forall|other: u128| other != seed && other < pond.total implies #[trigger] line_text(
        other,
        pond.combo(other),
    ) != line_text(seed, pond.combo(seed)) by {
        lemma_pack_unpacked(other as nat, low, base, pond.count as nat);
        lemma_line_reads_back(other, pond.combo(other));
    }
}

} // verus!
