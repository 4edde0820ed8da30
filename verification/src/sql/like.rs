//! Patterns with wild cards.

use vstd::prelude::*;

verus! {

/// The byte that stands for any bytes.
pub const PERCENT: u8 = 37;

/// The byte that stands for any one byte.
pub const UNDERSCORE: u8 = 95;

/// Only percent signs are left of the pattern from place `pi` on.
pub open spec fn only_percents(p: Seq<u8>, pi: int) -> bool
    decreases p.len() - pi,
{
    if pi >= p.len() {
        true
    } else {
        p[pi] == PERCENT && only_percents(p, pi + 1)
    }
}

/// Scans a text against a pattern from given places. `star` is the place of the
/// text and of the pattern at which the last percent sign was met: on a mismatch
/// the scan goes back there and lets it take one more byte. A byte of the text
/// that equals the byte of the pattern is taken before the pattern's byte is
/// looked at as a wild card.
pub open spec fn scan(s: Seq<u8>, p: Seq<u8>, si: int, pi: int, star: Option<(int, int)>) -> bool
    decreases
        (match star {
            Some((ss, _)) => s.len() - ss,
            None => (s.len() + 1) as int,
        }),
        s.len() - si + p.len() - pi,
{
    if si >= s.len() {
        only_percents(p, pi)
    } else if pi > p.len() {
        false
    } else if pi < p.len() && (p[pi] == UNDERSCORE || p[pi] == s[si]) {
        scan(s, p, si + 1, pi + 1, star)
    } else if pi < p.len() && p[pi] == PERCENT && !(star matches Some((ss, _)) && ss > si) && si >= 0 {
        scan(s, p, si, pi + 1, Some((si, pi)))
    } else {
        match star {
            Some((ss, sp)) => if ss < s.len() {
                scan(s, p, ss + 1, sp + 1, Some((ss + 1, sp)))
            } else {
                false
            },
            None => false,
        }
    }
}

/// What a text against a pattern gives.
pub open spec fn like_bytes(s: Seq<u8>, p: Seq<u8>) -> bool {
    scan(s, p, 0, 0, None)
}

/// The text from place `si` on fits the pattern from place `pi` on: a percent
/// sign stands for any bytes, an underscore for any one, and every other byte
/// for itself.
pub open spec fn fits(s: Seq<u8>, p: Seq<u8>, si: int, pi: int) -> bool
    decreases p.len() - pi, s.len() - si,
{
    if pi >= p.len() {
        si >= s.len()
    } else if p[pi] == PERCENT {
        fits(s, p, si, pi + 1) || (si < s.len() && fits(s, p, si + 1, pi))
    } else {
        si < s.len() && (p[pi] == UNDERSCORE || p[pi] == s[si]) && fits(s, p, si + 1, pi + 1)
    }
}

/// Whether a text, as bytes, fits a pattern.
pub fn like(s: &[u8], p: &[u8]) -> (r: bool)
    ensures
        r == like_bytes(s@, p@),
{
    let mut si: usize = 0;
    let mut pi: usize = 0;
    let mut star: Option<(usize, usize)> = None;
    while si < s.len()
        invariant
            si <= s@.len(),
            pi <= p@.len(),
            star matches Some((ss, sp)) ==> ss <= si && sp < p@.len(),
            scan(
                s@,
                p@,
                si as int,
                pi as int,
                match star {
                    Some((ss, sp)) => Some((ss as int, sp as int)),
                    None => None,
                },
            ) == like_bytes(s@, p@),
        decreases
            (match star {
                Some((ss, _)) => s@.len() - ss,
                None => (s@.len() + 1) as int,
            }),
            s@.len() - si + p@.len() - pi,
    {
        if pi < p.len() && (p[pi] == UNDERSCORE || p[pi] == s[si]) {
            si = si + 1;
            pi = pi + 1;
        } else if pi < p.len() && p[pi] == PERCENT {
            star = Some((si, pi));
            pi = pi + 1;
        } else {
            match star {
                Some((ss, sp)) => {
                    star = Some((ss + 1, sp));
                    si = ss + 1;
                    pi = sp + 1;
                },
                None => {
                    return false;
                },
            }
        }
    }
    while pi < p.len() && p[pi] == PERCENT
        invariant
            pi <= p@.len(),
            only_percents(p@, pi as int) == like_bytes(s@, p@),
        decreases p@.len() - pi,
    {
        pi = pi + 1;
    }
    pi == p.len()
}

/// Stretches of a pattern without percent signs take as many bytes as they have.
proof fn lemma_fits_segment(s: Seq<u8>, p: Seq<u8>, k: int, from: int, to: int)
    requires
        0 <= from <= to <= p.len(),
        forall|i: int| from <= i < to ==> p[i] != PERCENT,
        fits(s, p, k, from),
    ensures
        fits(s, p, k + (to - from), to),
        to > from ==> k + (to - from) <= s.len(),
    decreases to - from,
{
    if from < to {
        lemma_fits_segment(s, p, k + 1, from + 1, to);
    }
}

/// A percent sign that can begin to take bytes at a later place can do so at an
/// earlier one.
proof fn lemma_percent_reaches_back(s: Seq<u8>, p: Seq<u8>, i: int, k: int, pi: int)
    requires
        0 <= i <= k <= s.len(),
        0 <= pi < p.len(),
        p[pi] == PERCENT,
        fits(s, p, k, pi),
    ensures
        fits(s, p, i, pi),
    decreases k - i,
{
    if i < k {
        lemma_percent_reaches_back(s, p, i + 1, k, pi);
    }
}

/// What a percent sign can be made to take.
proof fn lemma_percent_takes(s: Seq<u8>, p: Seq<u8>, i: int, pi: int)
    requires
        0 <= i <= s.len(),
        0 <= pi < p.len(),
        p[pi] == PERCENT,
    ensures
        fits(s, p, i, pi) <==> exists|k: int| i <= k <= s.len() && #[trigger] fits(s, p, k, pi + 1),
    decreases s.len() - i,
{
    if i < s.len() {
        lemma_percent_takes(s, p, i + 1, pi);
    }
    if fits(s, p, i, pi) {
        if fits(s, p, i, pi + 1) {
            assert(fits(s, p, i, pi + 1));
        } else {
            let k = choose|k: int| i + 1 <= k <= s.len() && #[trigger] fits(s, p, k, pi + 1);
            assert(fits(s, p, k, pi + 1));
        }
    }
    if exists|k: int| i <= k <= s.len() && #[trigger] fits(s, p, k, pi + 1) {
        let k = choose|k: int| i <= k <= s.len() && #[trigger] fits(s, p, k, pi + 1);
        if k > i {
            assert(fits(s, p, i + 1, pi));
        }
    }
}

proof fn lemma_only_percents(s: Seq<u8>, p: Seq<u8>, pi: int)
    requires
        0 <= pi <= p.len(),
    ensures
        only_percents(p, pi) == fits(s, p, s.len() as int, pi),
    decreases p.len() - pi,
{
    if pi < p.len() {
        lemma_only_percents(s, p, pi + 1);
    }
}

/// The pattern's last percent sign can be made to take more.
spec fn later_fit(s: Seq<u8>, p: Seq<u8>, star: Option<(int, int)>) -> bool {
    star matches Some((ss, sp)) && exists|k: int| ss < k <= s.len() && #[trigger] fits(s, p, k, sp + 1)
}

proof fn lemma_scan_fits(s: Seq<u8>, p: Seq<u8>, si: int, pi: int, star: Option<(int, int)>)
    requires
        forall|i: int| 0 <= i < s.len() ==> s[i] != PERCENT,
        0 <= si <= s.len(),
        0 <= pi <= p.len(),
        star matches Some((ss, sp)) ==> 0 <= ss <= si && 0 <= sp < pi && p[sp] == PERCENT && si - ss == pi - sp - 1
            && forall|i: int| sp < i < pi ==> p[i] != PERCENT,
    ensures
        scan(s, p, si, pi, star) == (fits(s, p, si, pi) || later_fit(s, p, star)),
    decreases
        (match star {
            Some((ss, _)) => s.len() - ss,
            None => (s.len() + 1) as int,
        }),
        s.len() - si + p.len() - pi,
{
    if si >= s.len() {
        lemma_only_percents(s, p, pi);
        if later_fit(s, p, star) {
            let (ss, sp) = star->0;
            let k = choose|k: int| ss < k <= s.len() && #[trigger] fits(s, p, k, sp + 1);
            lemma_fits_segment(s, p, k, sp + 1, pi);
        }
    } else if pi < p.len() && (p[pi] == UNDERSCORE || p[pi] == s[si]) {
        lemma_scan_fits(s, p, si + 1, pi + 1, star);
    } else if pi < p.len() && p[pi] == PERCENT {
        lemma_scan_fits(s, p, si, pi + 1, Some((si, pi)));
        lemma_percent_takes(s, p, si, pi);
        if later_fit(s, p, star) {
            let (ss, sp) = star->0;
            let k = choose|k: int| ss < k <= s.len() && #[trigger] fits(s, p, k, sp + 1);
            lemma_fits_segment(s, p, k, sp + 1, pi);
            let at = k + (pi - sp - 1);
            assert(at >= si);
            lemma_percent_reaches_back(s, p, si, at, pi);
        }
        if fits(s, p, si, pi) {
            let k = choose|k: int| si <= k <= s.len() && #[trigger] fits(s, p, k, pi + 1);
            if k > si {
                assert(later_fit(s, p, Some((si, pi))));
            }
        }
    } else {
        match star {
            Some((ss, sp)) => {
                lemma_scan_fits(s, p, ss + 1, sp + 1, Some((ss + 1, sp)));
                if later_fit(s, p, star) {
                    let k = choose|k: int| ss < k <= s.len() && #[trigger] fits(s, p, k, sp + 1);
                    if k > ss + 1 {
                        assert(later_fit(s, p, Some((ss + 1, sp))));
                    }
                }
            },
            None => {},
        }
    }
}

/// On texts without percent signs, the scan finds exactly the texts that fit.
pub proof fn like_means_fits(s: Seq<u8>, p: Seq<u8>)
    requires
        forall|i: int| 0 <= i < s.len() ==> s[i] != PERCENT,
    ensures
        like_bytes(s, p) == fits(s, p, 0, 0),
{
    lemma_scan_fits(s, p, 0, 0, None);
}

/// A pattern without wild cards fits itself only.
pub proof fn plain_pattern_fits_itself(s: Seq<u8>, p: Seq<u8>, si: int, pi: int)
    requires
        forall|i: int| 0 <= i < p.len() ==> p[i] != PERCENT && p[i] != UNDERSCORE,
        0 <= si <= s.len(),
        0 <= pi <= p.len(),
    ensures
        fits(s, p, si, pi) <==> s.skip(si) == p.skip(pi),
    decreases p.len() - pi,
{
    if pi >= p.len() {
        assert(p.skip(pi) =~= Seq::<u8>::empty());
        if si >= s.len() {
            assert(s.skip(si) =~= Seq::<u8>::empty());
        } else {
            assert(s.skip(si).len() > 0);
        }
    } else {
        assert(p.skip(pi).len() > 0);
        assert(p.skip(pi)[0] == p[pi]);
        if si < s.len() {
            plain_pattern_fits_itself(s, p, si + 1, pi + 1);
            assert(s.skip(si)[0] == s[si]);
            assert(s.skip(si).skip(1) =~= s.skip(si + 1));
            assert(p.skip(pi).skip(1) =~= p.skip(pi + 1));
            if s[si] == p[pi] && s.skip(si + 1) == p.skip(pi + 1) {
                assert(s.skip(si) =~= seq![s[si]] + s.skip(si + 1));
                assert(p.skip(pi) =~= seq![p[pi]] + p.skip(pi + 1));
            }
        } else {
            assert(s.skip(si) =~= Seq::<u8>::empty());
        }
    }
}

} // verus!
