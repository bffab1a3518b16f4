//! How much memory there is, and progress through work.

use vstd::prelude::*;
use vstd::string::*;

use crate::natural::decimal;
use crate::offsets::{is_blank, is_digit, line_number, parse_number};
use crate::reading::{lemma_line_number_read, lemma_read_decimal};

verus! {

/// The place of the first character from `from` on that is white space, or is not.
pub open spec fn next_place(line: Seq<char>, from: nat, blank: bool) -> nat
    decreases line.len() - from,
{
    if from < line.len() && is_blank(line[from as int]) != blank {
        next_place(line, from + 1, blank)
    } else {
        from
    }
}

/// The second word of a line; empty where there is none.
pub open spec fn second_word(line: Seq<char>) -> Seq<char> {
    let a = next_place(line, 0, false);
    let b = next_place(line, a, true);
    let c = next_place(line, b, false);
    let d = next_place(line, c, true);
    if c < d <= line.len() {
        line.subrange(c as int, d as int)
    } else {
        Seq::empty()
    }
}

/// The memory that a line speaks of, in bytes: the second word of a line that starts with
/// `MemAvailable:` is a number of kilobytes.
pub open spec fn line_memory(line: Seq<char>) -> Option<usize> {
    if line.len() >= 13 && line.take(13) == "MemAvailable:"@ {
        match line_number(second_word(line)) {
            Some(kb) => if kb <= u64::MAX && kb * 1024 <= usize::MAX {
                Some((kb * 1024) as usize)
            } else {
                None
            },
            None => None,
        }
    } else {
        None
    }
}

fn find_place(line: &[char], from: usize, blank: bool) -> (r: usize)
    requires
        from <= line@.len(),
    ensures
        r as nat == next_place(line@, from as nat, blank),
        from <= r <= line@.len(),
{
    let mut i: usize = from;
    while i < line.len() && crate::offsets::blank(line[i]) != blank
        invariant
            from <= i <= line@.len(),
            next_place(line@, from as nat, blank) == next_place(line@, i as nat, blank),
        decreases line@.len() - i,
    {
        i = i + 1;
    }
    i
}

/// Reads the memory that a line speaks of.
pub fn parse_memory(line: &[char]) -> (r: Option<usize>)
    ensures
        r == line_memory(line@),
{
    let label = "MemAvailable:";
    proof {
        reveal_strlit("MemAvailable:");
    }
    if line.len() < 13 {
        return None;
    }
    let mut i: usize = 0;
    while i < 13
        invariant
            i <= 13 <= line@.len(),
            label@.len() == 13,
            label@ == "MemAvailable:"@,
            forall|j: int| 0 <= j < i ==> line@[j] == label@[j],
        decreases 13 - i,
    {
        if line[i] != label.get_char(i) {
            assert(line@.take(13)[i as int] != label@[i as int]);
            return None;
        }
        i = i + 1;
    }
    assert(line@.take(13) =~= label@);
    let a = find_place(line, 0, false);
    let b = find_place(line, a, true);
    let c = find_place(line, b, false);
    let d = find_place(line, c, true);
    let word = &line[c..d];
    assert(word@ =~= second_word(line@));
    match parse_number(word) {
        Some(kb) => {
            if kb <= u64::MAX as u128 && kb <= usize::MAX as u128 / 1024 {
                Some((kb * 1024) as usize)
            } else {
                None
            }
        },
        None => None,
    }
}

/// Progress is shown about a hundred times, and at the end.
pub open spec fn progress_due(done: nat, total: nat) -> bool {
    let interval = if total / 100 == 0 {
        1
    } else {
        total / 100
    };
    done % interval == 0 || done == total
}

/// Whether progress is to be shown.
pub fn shows_progress(done: usize, total: usize) -> (r: bool)
    ensures
        r == progress_due(done as nat, total as nat),
{
    let hundredth = total / 100;
    let interval: usize = if hundredth == 0 {
        1
    } else {
        hundredth
    };
    done % interval == 0 || done == total
}

proof fn lemma_next_place(line: Seq<char>, from: nat, blank: bool, to: nat)
    requires
        from <= to <= line.len(),
        forall|i: int| from <= i < to ==> is_blank(#[trigger] line[i]) != blank,
        to < line.len() ==> is_blank(line[to as int]) == blank,
    ensures
        next_place(line, from, blank) == to,
    decreases to - from,
{
    if from < to {
        lemma_next_place(line, from + 1, blank, to);
    }
}

/// The second word is what stands between the first white space behind a word and the next one: words
/// in front of it, white space around it and what comes behind play no part.
pub proof fn lemma_second_word(first: Seq<char>, gap: Seq<char>, word: Seq<char>, rest: Seq<char>)
    requires
        first.len() > 0,
        gap.len() > 0,
        word.len() > 0,
        forall|i: int| 0 <= i < first.len() ==> !is_blank(#[trigger] first[i]),
        forall|i: int| 0 <= i < gap.len() ==> is_blank(#[trigger] gap[i]),
        forall|i: int| 0 <= i < word.len() ==> !is_blank(#[trigger] word[i]),
        rest.len() > 0 ==> is_blank(rest[0]),
    ensures
        second_word(first + gap + word + rest) == word,
{
    let line = first + gap + word + rest;
    let b = first.len();
    let c = b + gap.len();
    let d = c + word.len();
    assert(!is_blank(first[0]));
    lemma_next_place(line, 0, false, 0);
    assert forall|i: int| 0 <= i < b implies is_blank(#[trigger] line[i]) != true by {
        assert(line[i] == first[i]);
    }
    assert(line[b as int] == gap[0]);
    lemma_next_place(line, 0, true, b);
    assert forall|i: int| b <= i < c implies is_blank(#[trigger] line[i]) != false by {
        assert(line[i] == gap[i - b]);
    }
    assert(line[c as int] == word[0]);
    lemma_next_place(line, b, false, c);
    assert forall|i: int| c <= i < d implies is_blank(#[trigger] line[i]) != true by {
        assert(line[i] == word[i - c]);
    }
    if d < line.len() {
        assert(line[d as int] == rest[0]);
    }
    lemma_next_place(line, c, true, d);
    assert(line.subrange(c as int, d as int) =~= word);
}

/// A line `MemAvailable:` with a number of kilobytes is read as that many times 1024 bytes, where that
/// can be held.
pub proof fn lemma_memory_read(gap: Seq<char>, kb: nat, rest: Seq<char>)
    requires
        gap.len() > 0,
        forall|i: int| 0 <= i < gap.len() ==> is_blank(#[trigger] gap[i]),
        rest.len() > 0 ==> is_blank(rest[0]),
        kb <= u64::MAX,
    ensures
        ({
            let line = "MemAvailable:"@ + gap + decimal(kb) + rest;
            &&& 1024 * kb <= usize::MAX ==> line_memory(line) == Some((1024 * kb) as usize)
            &&& 1024 * kb > usize::MAX ==> line_memory(line) is None
        }),
{
    let label = "MemAvailable:"@;
    let line = label + gap + decimal(kb) + rest;
    lemma_label_word();
    lemma_decimal_word(kb);
    lemma_second_word(label, gap, decimal(kb), rest);
    lemma_label_first(gap, decimal(kb), rest);
    lemma_decimal_line(kb);
    lemma_memory_of(line, kb);
}

proof fn lemma_memory_of(line: Seq<char>, kb: nat)
    requires
        line.len() >= 13,
        line.take(13) == "MemAvailable:"@,
        line_number(second_word(line)) == Some(kb as u128),
        kb <= u64::MAX,
    ensures
        1024 * kb <= usize::MAX ==> line_memory(line) == Some((1024 * kb) as usize),
        1024 * kb > usize::MAX ==> line_memory(line) is None,
{
    let word = second_word(line);
    assert(line_number(word) == Some(kb as u128));
}

proof fn lemma_label_first(gap: Seq<char>, word: Seq<char>, rest: Seq<char>)
    ensures
        ("MemAvailable:"@ + gap + word + rest).len() >= 13,
        ("MemAvailable:"@ + gap + word + rest).take(13) == "MemAvailable:"@,
{
    reveal_strlit("MemAvailable:");
    let label = "MemAvailable:"@;
    assert((label + gap + word + rest).take(13) =~= label);
}

proof fn lemma_decimal_word(n: nat)
    ensures
        decimal(n).len() > 0,
        forall|i: int| 0 <= i < decimal(n).len() ==> !is_blank(#[trigger] decimal(n)[i]),
{
    lemma_read_decimal(n);
    let word = decimal(n);
    assert forall|i: int| 0 <= i < word.len() implies !is_blank(#[trigger] word[i]) by {
        assert(is_digit(word[i]));
    }
}

proof fn lemma_decimal_line(n: nat)
    requires
        n <= u128::MAX,
    ensures
        line_number(decimal(n)) == Some(n as u128),
{
    let none = Seq::<char>::empty();
    let word = decimal(n);
    lemma_line_number_read(none, false, n, none);
    assert(none + (none + word) + none =~= word);
}

proof fn lemma_label_word()
    ensures
        "MemAvailable:"@.len() == 13,
        forall|i: int| 0 <= i < 13 ==> !is_blank(#[trigger] "MemAvailable:"@[i]),
{
    reveal_strlit("MemAvailable:");
    let label = "MemAvailable:"@;
    assert forall|i: int| 0 <= i < 13 implies label[i] as u32 == 58 || 65 <= (#[trigger] label[i])
        as u32 <= 122 by {
    }
    assert forall|i: int| 0 <= i < 13 implies !is_blank(#[trigger] label[i]) by {
        assert(label[i] as u32 == 58 || 65 <= label[i] as u32 <= 122);
    }
}

/// Progress is shown at the end, and whenever a hundredth of the work, rounded down, has been done once
/// more; at every step where there is not that much.
pub proof fn lemma_progress(total: nat, n: nat, k: nat)
    requires
        n > 0,
        100 * n <= total < 100 * (n + 1) || (n == 1 && total < 100),
    ensures
        progress_due(total, total),
        progress_due(k * n, total),
        forall|r: nat| 0 < r < n && k * n + r != total ==> !#[trigger] progress_due(k * n + r, total),
{
    assert(total / 100 == 0 || total / 100 == n);
    vstd::arithmetic::div_mod::lemma_mod_multiples_basic(k as int, n as int);
    assert forall|r: nat| 0 < r < n && k * n + r != total implies !#[trigger] progress_due(
        k * n + r,
        total,
    ) by {
        assert(k * n == n * k) by (nonlinear_arith);
        vstd::arithmetic::div_mod::lemma_fundamental_div_mod_converse(
            (k * n + r) as int,
            n as int,
            k as int,
            r as int,
        );
    }
}

} // verus!
