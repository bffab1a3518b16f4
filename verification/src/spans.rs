//! Dividing points into spans, each of which a polynomial passes through.

use vstd::prelude::*;

verus! {

/// The points from `start` up to `end`, and the degree of the polynomial for them.
#[derive(Clone, Copy, Debug, PartialEq, Eq)]
pub struct Span {
    pub start: usize,
    pub end: usize,
    pub degree: usize,
}

/// The end of a window of `w` points from `pos` on.
pub open spec fn window_end(n: nat, pos: nat, w: nat) -> nat {
    if pos + w < n {
        pos + w
    } else {
        n
    }
}

/// The degree for so many points: at most three, and one less than there are points.
pub open spec fn degree_for(points: nat) -> nat {
    if points > 3 {
        3
    } else if points > 0 {
        (points - 1) as nat
    } else {
        0
    }
}

/// The polynomial for the points from `pos` up to `end` was found to pass through all of them.
pub open spec fn passes<F: Fn(usize, usize, usize) -> usize>(hits: F, pos: nat, end: nat) -> bool {
    call_ensures(
        hits,
        (pos as usize, end as usize, degree_for((end - pos) as nat) as usize),
        (end - pos) as usize,
    )
}

/// The polynomial for the points from `pos` up to `end` was found to miss some of them.
pub open spec fn misses<F: Fn(usize, usize, usize) -> usize>(hits: F, pos: nat, end: nat) -> bool {
    exists|h: usize|
        h != end - pos && #[trigger] call_ensures(
            hits,
            (pos as usize, end as usize, degree_for((end - pos) as nat) as usize),
            h,
        )
}

/// `end` is the end of the longest window of up to `most` points that a polynomial passes through.
pub open spec fn is_longest<F: Fn(usize, usize, usize) -> usize>(
    hits: F,
    n: nat,
    pos: nat,
    most: nat,
    end: nat,
) -> bool {
    exists|w: nat|
        4 <= w <= most && end == #[trigger] window_end(n, pos, w) && passes(hits, pos, end)
            && forall|v: nat|
            w < v <= most && (#[trigger] window_end(n, pos, v)) > end ==> misses(
                hits,
                pos,
                window_end(n, pos, v),
            )
}

/// Polynomials miss points in all windows of up to `most` points.
pub open spec fn all_miss<F: Fn(usize, usize, usize) -> usize>(
    hits: F,
    n: nat,
    pos: nat,
    most: nat,
) -> bool {
    forall|v: nat| 4 <= v <= most ==> misses(hits, pos, #[trigger] window_end(n, pos, v))
}

/// The span from `pos` on ends at `end`: with the longest window of up to 15 points that a
/// polynomial passes through, or with four points if there is none.
pub open spec fn is_span_end<F: Fn(usize, usize, usize) -> usize>(
    hits: F,
    n: nat,
    pos: nat,
    end: nat,
) -> bool {
    is_longest(hits, n, pos, 15, end) || (all_miss(hits, n, pos, 15) && end == window_end(n, pos, 4))
}

/// The spans follow each other from the first of `n` points to the last. Each but one that starts
/// at one of the last two points ends where `is_span_end` says.
pub open spec fn are_spans<F: Fn(usize, usize, usize) -> usize>(
    hits: F,
    n: nat,
    spans: Seq<Span>,
) -> bool {
    forall|i: int|
        0 <= i < spans.len() ==> {
            &&& (#[trigger] spans[i]).start == (if i == 0 {
                0
            } else {
                spans[i - 1].end
            })
            &&& spans[i].start < spans[i].end <= n
            &&& spans[i].degree == degree_for((spans[i].end - spans[i].start) as nat)
            &&& spans[i].start + 2 < n ==> is_span_end(
                hits,
                n,
                spans[i].start as nat,
                spans[i].end as nat,
            )
            &&& spans[i].start + 2 >= n ==> spans[i].end == n
        }
}

fn degree_of(points: usize) -> (d: usize)
    ensures
        d as nat == degree_for(points as nat),
{
    if points > 3 {
        3
    } else if points > 0 {
        points - 1
    } else {
        0
    }
}

fn end_of(n: usize, pos: usize, w: usize) -> (e: usize)
    requires
        pos <= n,
    ensures
        e as nat == window_end(n as nat, pos as nat, w as nat),
{
    if w < n - pos {
        pos + w
    } else {
        n
    }
}

fn span_end<F: Fn(usize, usize, usize) -> usize>(n: usize, pos: usize, hits: &F) -> (end: usize)
    requires
        pos + 2 < n,
        forall|a: usize, b: usize, d: usize| call_requires(*hits, (a, b, d)),
    ensures
        is_span_end(*hits, n as nat, pos as nat, end as nat),
        pos + 3 <= end <= n,
{
    let mut found = false;
    let mut end: usize = end_of(n, pos, 4);
    let mut w: usize = 4;
    while w <= 15
        invariant
            4 <= w <= 16,
            pos + 2 < n,
            pos + 3 <= end <= n,
            forall|a: usize, b: usize, d: usize| call_requires(*hits, (a, b, d)),
            found ==> w > 4 && is_longest(*hits, n as nat, pos as nat, (w - 1) as nat, end as nat),
            !found ==> end as nat == window_end(n as nat, pos as nat, 4),
            !found && w > 4 ==> all_miss(*hits, n as nat, pos as nat, (w - 1) as nat),
        decreases 16 - w,
    {
        let e = end_of(n, pos, w);
        let points = e - pos;
        let h = hits(pos, e, degree_of(points));
        proof {
            let ghost_n = n as nat;
            let p = pos as nat;
            let e_nat = window_end(ghost_n, p, w as nat);
            assert(e as nat == e_nat);
            assert(p as usize == pos && e_nat as usize == e);
            assert(degree_for((e_nat - p) as nat) as usize == degree_for(points as nat));
            assert(call_ensures(
                *hits,
                (p as usize, e_nat as usize, degree_for((e_nat - p) as nat) as usize),
                h,
            ));
            if h == points {
                assert(passes(*hits, p, e_nat));
                assert(is_longest(*hits, ghost_n, p, w as nat, e_nat));
            } else {
                assert(misses(*hits, p, e_nat));
                if found {
                    let x = choose|x: nat|
                        4 <= x <= w - 1 && end as nat == #[trigger] window_end(ghost_n, p, x)
                            && passes(*hits, p, end as nat) && forall|v: nat|
                            x < v <= w - 1 && (#[trigger] window_end(ghost_n, p, v)) > end
                                ==> misses(*hits, p, window_end(ghost_n, p, v));
                    assert forall|v: nat|
                        x < v <= w && (#[trigger] window_end(ghost_n, p, v))
                            > end implies misses(*hits, p, window_end(ghost_n, p, v)) by {
                        if v < w {
                            assert(x < v <= w - 1);
                        }
                    }
                    assert(end as nat == window_end(ghost_n, p, x));
                    assert(is_longest(*hits, ghost_n, p, w as nat, end as nat));
                } else {
                    assert forall|v: nat| 4 <= v <= w implies misses(
                        *hits,
                        p,
                        #[trigger] window_end(ghost_n, p, v),
                    ) by {
                        if v < w {
                            assert(4 <= v <= w - 1);
                        }
                    }
                }
            }
        }
        if h == points {
            found = true;
            end = e;
        }
        w = w + 1;
    }
    end
}

/// Divides `n` points into spans. `hits` says how many of the points from one up to another the
/// polynomial of a degree passes through. Fewer than three points have no spans.
pub fn segment_data<F: Fn(usize, usize, usize) -> usize>(n: usize, hits: &F) -> (spans: Vec<Span>)
    requires
        forall|a: usize, b: usize, d: usize| call_requires(*hits, (a, b, d)),
    ensures
        are_spans(*hits, n as nat, spans@),
        n < 3 ==> spans@.len() == 0,
        n >= 3 ==> spans@.len() > 0 && spans@.last().end == n,
{
    let mut spans: Vec<Span> = Vec::new();
    if n < 3 {
        return spans;
    }
    let mut pos: usize = 0;
    while pos < n
        invariant
            n >= 3,
            pos <= n,
            forall|a: usize, b: usize, d: usize| call_requires(*hits, (a, b, d)),
            are_spans(*hits, n as nat, spans@),
            pos == (if spans@.len() == 0 {
                0
            } else {
                spans@.last().end
            }),
        decreases n - pos,
    {
        let end = if n - pos > 2 {
            span_end(n, pos, hits)
        } else {
            n
        };
        let degree = degree_of(end - pos);
        let ghost before = spans@;
        spans.push(Span { start: pos, end, degree });
        proof {
            assert forall|i: int| 0 <= i < spans@.len() implies {
                &&& (#[trigger] spans@[i]).start == (if i == 0 {
                    0
                } else {
                    spans@[i - 1].end
                })
                &&& spans@[i].start < spans@[i].end <= n
                &&& spans@[i].degree == degree_for((spans@[i].end - spans@[i].start) as nat)
                &&& spans@[i].start + 2 < n ==> is_span_end(
                    *hits,
                    n as nat,
                    spans@[i].start as nat,
                    spans@[i].end as nat,
                )
                &&& spans@[i].start + 2 >= n ==> spans@[i].end == n
            } by {
                if i < before.len() {
                    assert(spans@[i] == before[i]);
                }
            }
        }
        pos = end;
    }
    spans
}

/// The spans lie one behind the other, from the first point to the last, and each has a polynomial of
/// degree three, or of one less than its points where it has three or fewer.
pub proof fn lemma_spans_cover<F: Fn(usize, usize, usize) -> usize>(
    hits: F,
    n: nat,
    spans: Seq<Span>,
)
    requires
        are_spans(hits, n, spans),
        spans.len() > 0,
        spans.last().end == n,
    ensures
        spans[0].start == 0,
        spans[spans.len() - 1].end == n,
        forall|i: int| 0 < i < spans.len() ==> (#[trigger] spans[i]).start == spans[i - 1].end,
        forall|i: int|
            0 <= i < spans.len() ==> {
                let s = #[trigger] spans[i];
                &&& s.start < s.end
                &&& s.end - s.start >= 4 ==> s.degree == 3
                &&& s.end - s.start < 4 ==> s.degree + 1 == s.end - s.start
                &&& s.end - s.start <= 15
                &&& s.end - s.start < 3 ==> s.end == n
            },
{
    assert forall|i: int| 0 <= i < spans.len() implies {
        let s = #[trigger] spans[i];
        &&& s.start < s.end
        &&& s.end - s.start >= 4 ==> s.degree == 3
        &&& s.end - s.start < 4 ==> s.degree + 1 == s.end - s.start
        &&& s.end - s.start <= 15
        &&& s.end - s.start < 3 ==> s.end == n
    } by {
        let s = spans[i];
        if s.start + 2 < n && is_longest(hits, n, s.start as nat, 15, s.end as nat) {
            let w = choose|w: nat|
                4 <= w <= 15 && s.end as nat == #[trigger] window_end(n, s.start as nat, w)
                    && passes(hits, s.start as nat, s.end as nat) && forall|v: nat|
                    w < v <= 15 && (#[trigger] window_end(n, s.start as nat, v)) > s.end as nat
                        ==> misses(hits, s.start as nat, window_end(n, s.start as nat, v));
            assert(s.end as nat == window_end(n, s.start as nat, w));
        }
    }
}

/// A span of more than four points has a cubic that was found to pass through every one of them;
/// one of three or four points has, unless the polynomials for all windows from its first point on,
/// of 4 to 15 points, were found to miss one.
pub proof fn lemma_spans_hit<F: Fn(usize, usize, usize) -> usize>(
    hits: F,
    n: nat,
    spans: Seq<Span>,
)
    requires
        are_spans(hits, n, spans),
        n <= usize::MAX,
    ensures
        forall|i: int|
            0 <= i < spans.len() && (#[trigger] spans[i]).end - spans[i].start > 4 ==> call_ensures(
                hits,
                (spans[i].start, spans[i].end, 3usize),
                (spans[i].end - spans[i].start) as usize,
            ),
        forall|i: int|
            0 <= i < spans.len() && 3 <= (#[trigger] spans[i]).end - spans[i].start <= 4
                ==> call_ensures(
                hits,
                (spans[i].start, spans[i].end, spans[i].degree),
                (spans[i].end - spans[i].start) as usize,
            ) || exists|h: usize|
                h != spans[i].end - spans[i].start && #[trigger] call_ensures(
                    hits,
                    (spans[i].start, spans[i].end, spans[i].degree),
                    h,
                ),
{
    assert forall|i: int|
        0 <= i < spans.len() && (#[trigger] spans[i]).end - spans[i].start > 4 implies call_ensures(
        hits,
        (spans[i].start, spans[i].end, 3usize),
        (spans[i].end - spans[i].start) as usize,
    ) by {
        let s = spans[i];
        assert(passes(hits, s.start as nat, s.end as nat));
    }
    assert forall|i: int|
        0 <= i < spans.len() && 3 <= (#[trigger] spans[i]).end - spans[i].start
            <= 4 implies call_ensures(
        hits,
        (spans[i].start, spans[i].end, spans[i].degree),
        (spans[i].end - spans[i].start) as usize,
    ) || exists|h: usize|
        h != spans[i].end - spans[i].start && #[trigger] call_ensures(
            hits,
            (spans[i].start, spans[i].end, spans[i].degree),
            h,
        ) by {
        let s = spans[i];
        let p = s.start as nat;
        if !passes(hits, p, s.end as nat) {
            assert(misses(hits, p, window_end(n, p, 4)));
            assert(window_end(n, p, 4) == s.end);
        }
    }
}

/// No longer window was found to have a polynomial through all its points: of each that starts where
/// a span does and ends behind it, within 15 points, one was found that misses a point.
pub proof fn lemma_spans_longest<F: Fn(usize, usize, usize) -> usize>(
    hits: F,
    n: nat,
    spans: Seq<Span>,
    i: int,
    end: usize,
)
    requires
        are_spans(hits, n, spans),
        n <= usize::MAX,
        0 <= i < spans.len(),
        spans[i].start + 2 < n,
        spans[i].end < end <= n,
        end - spans[i].start <= 15,
    ensures
        exists|h: usize|
            h != end - spans[i].start && #[trigger] call_ensures(
                hits,
                (spans[i].start, end, 3usize),
                h,
            ),
{
    let s = spans[i];
    let p = s.start as nat;
    let v = (end - s.start) as nat;
    assert(window_end(n, p, v) == end);
    assert(is_span_end(hits, n, p, s.end as nat));
    if is_longest(hits, n, p, 15, s.end as nat) {
        let w = choose|w: nat|
            4 <= w <= 15 && s.end as nat == #[trigger] window_end(n, p, w) && passes(
                hits,
                p,
                s.end as nat,
            ) && forall|v: nat|
                w < v <= 15 && (#[trigger] window_end(n, p, v)) > s.end as nat ==> misses(
                    hits,
                    p,
                    window_end(n, p, v),
                );
        assert(window_end(n, p, w) == s.end);
        assert(misses(hits, p, window_end(n, p, v)));
    } else {
        assert(misses(hits, p, window_end(n, p, v)));
    }
}

} // verus!
