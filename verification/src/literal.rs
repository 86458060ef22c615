//! Cheap substring presence and counting queries over a fixed list of literal
//! patterns; no pattern-language semantics are involved.

use vstd::prelude::*;
use vstd::string::StrSliceExecFns;

verus! {

/// The pattern at offset `i` of `text`, character for character.
pub open spec fn match_at(text: Seq<char>, pat: Seq<char>, i: int) -> bool {
    0 <= i && i + pat.len() <= text.len() && text.subrange(i, i + pat.len()) == pat
}

/// The pattern occurs somewhere in `text` as a literal substring.
pub open spec fn contains_pattern(text: Seq<char>, pat: Seq<char>) -> bool {
    exists|i: int| match_at(text, pat, i)
}

/// Left-to-right non-overlapping occurrences of a non-empty pattern, counted
/// from offset `i`: a match consumes its span before the scan resumes.
pub open spec fn count_from(text: Seq<char>, pat: Seq<char>, i: int) -> nat
    decreases text.len() - i,
    when 0 <= i && pat.len() > 0
{
    if i + pat.len() > text.len() {
        0
    } else if text.subrange(i, i + pat.len()) == pat {
        1 + count_from(text, pat, i + pat.len())
    } else {
        count_from(text, pat, i + 1)
    }
}

/// Non-overlapping occurrences of `pat` in `text`; the empty pattern matches
/// once at every position boundary.
pub open spec fn count_occurrences(text: Seq<char>, pat: Seq<char>) -> nat {
    if pat.len() == 0 {
        text.len() + 1
    } else {
        count_from(text, pat, 0)
    }
}

/// A stateless collection of literal substrings, kept verbatim in the order
/// given: duplicates and ordering key later output.
pub struct FastMatcher {
    patterns: Vec<String>,
}

impl View for FastMatcher {
    type V = Seq<Seq<char>>;

    closed spec fn view(&self) -> Seq<Seq<char>> {
        self.patterns.deep_view()
    }
}

impl FastMatcher {
    /// Stores the pattern list as given, neither deduplicated nor sorted.
    pub fn new(patterns: Vec<String>) -> (m: FastMatcher)
        ensures
            m@ == patterns.deep_view(),
    {
        FastMatcher { patterns }
    }

    /// True iff at least one stored pattern occurs in `text`.
    pub fn contains_any(&self, text: &str) -> (r: bool)
        ensures
            r == exists|j: int| 0 <= j < self@.len() && contains_pattern(text@, self@[j]),
    {
        let mut j: usize = 0;
        while j < self.patterns.len()
            invariant
                j <= self.patterns@.len(),
                self@ == self.patterns.deep_view(),
                forall|k: int| 0 <= k < j ==> !contains_pattern(text@, self@[k]),
            decreases self.patterns@.len() - j,
        {
            if contains_sub(text, self.patterns[j].as_str()) {
                proof {
                    assert(self@[j as int] == self.patterns@[j as int]@);
                }
                return true;
            }
            j = j + 1;
        }
        false
    }

    /// The subsequence of stored patterns, in original order with duplicates
    /// kept, that occur in `text`.
    pub fn find_matches(&self, text: &str) -> (r: Vec<String>)
        ensures
            r.deep_view() == self@.filter(|p: Seq<char>| contains_pattern(text@, p)),
    {
        let mut out: Vec<String> = Vec::new();
        let mut j: usize = 0;
        proof {
            assert(out.deep_view() =~= Seq::<Seq<char>>::empty());
            assert(self@.take(0) =~= Seq::<Seq<char>>::empty());
            reveal_with_fuel(Seq::<Seq<char>>::filter, 1);
        }
        while j < self.patterns.len()
            invariant
                j <= self.patterns@.len(),
                self@ == self.patterns.deep_view(),
                out.deep_view() == self@.take(j as int).filter(
                    |p: Seq<char>| contains_pattern(text@, p),
                ),
            decreases self.patterns@.len() - j,
        {
            let ghost prev = out.deep_view();
            if contains_sub(text, self.patterns[j].as_str()) {
                out.push(self.patterns[j].clone());
                proof {
                    assert(out.deep_view() =~= prev.push(self@[j as int]));
                }
            }
            proof {
                assert(self@.take(j + 1).drop_last() =~= self@.take(j as int));
                assert(self@.take(j + 1).last() == self@[j as int]);
                reveal_with_fuel(Seq::<Seq<char>>::filter, 2);
            }
            j = j + 1;
        }
        proof {
            assert(self@.take(self.patterns@.len() as int) =~= self@);
        }
        out
    }

    /// For each stored pattern, in order, the number of its non-overlapping
    /// occurrences in `text`; a pattern stored twice yields two equal entries,
    /// so a map built from the pairs keeps one (the last write wins).
    pub fn count_matches(&self, text: &str) -> (r: Vec<(String, usize)>)
        requires
            text@.len() < usize::MAX,
        ensures
            r@.len() == self@.len(),
            forall|j: int|
                0 <= j < r@.len() ==> r@[j].0@ == self@[j] && r@[j].1 == count_occurrences(
                    text@,
                    self@[j],
                ),
    {
        let mut out: Vec<(String, usize)> = Vec::new();
        let mut j: usize = 0;
        while j < self.patterns.len()
            invariant
                j <= self.patterns@.len(),
                self@ == self.patterns.deep_view(),
                out@.len() == j,
                text@.len() < usize::MAX,
                forall|k: int|
                    0 <= k < j ==> out@[k].0@ == self@[k] && out@[k].1 == count_occurrences(
                        text@,
                        self@[k],
                    ),
            decreases self.patterns@.len() - j,
        {
            let c = count_sub(text, self.patterns[j].as_str());
            out.push((self.patterns[j].clone(), c));
            j = j + 1;
        }
        out
    }
}

/// Compares `pat` with the characters of `text` starting at offset `i`.
fn match_at_exec(text: &str, tlen: usize, pat: &str, plen: usize, i: usize) -> (r: bool)
    requires
        tlen == text@.len(),
        plen == pat@.len(),
        i + plen <= tlen,
    ensures
        r == match_at(text@, pat@, i as int),
{
    let mut k: usize = 0;
    while k < plen
        invariant
            tlen == text@.len(),
            plen == pat@.len(),
            i + plen <= tlen,
            k <= plen,
            forall|m: int| 0 <= m < k ==> text@[i + m] == pat@[m],
        decreases plen - k,
    {
        if text.get_char(i + k) != pat.get_char(k) {
            proof {
                assert(text@.subrange(i as int, i + plen) != pat@) by {
                    if text@.subrange(i as int, i + plen) == pat@ {
                        assert(text@.subrange(i as int, i + plen)[k as int] == text@[i + k]);
                    }
                }
            }
            return false;
        }
        k = k + 1;
    }
    proof {
        assert(text@.subrange(i as int, i + plen) =~= pat@);
    }
    true
}

/// Whether `pat` is a literal substring of `text`.
fn contains_sub(text: &str, pat: &str) -> (r: bool)
    ensures
        r == contains_pattern(text@, pat@),
{
    let tlen = text.unicode_len();
    let plen = pat.unicode_len();
    if plen > tlen {
        proof {
            assert(!contains_pattern(text@, pat@)) by {
                if contains_pattern(text@, pat@) {
                    let i = choose|i: int| match_at(text@, pat@, i);
                }
            }
        }
        return false;
    }
    if plen == 0 {
        proof {
            assert(text@.subrange(0, 0) =~= pat@);
            assert(match_at(text@, pat@, 0));
        }
        return true;
    }
    let lim = tlen - plen;
    let mut i: usize = 0;
    while i <= lim
        invariant
            tlen == text@.len(),
            plen == pat@.len(),
            0 < plen <= tlen,
            lim == tlen - plen,
            i <= lim + 1,
            forall|k: int| 0 <= k < i ==> !match_at(text@, pat@, k),
        decreases lim + 1 - i,
    {
        if match_at_exec(text, tlen, pat, plen, i) {
            return true;
        }
        i = i + 1;
    }
    proof {
        assert(!contains_pattern(text@, pat@)) by {
            if contains_pattern(text@, pat@) {
                let k = choose|k: int| match_at(text@, pat@, k);
                assert(k < i || k + plen > tlen);
            }
        }
    }
    false
}

/// The number of non-overlapping occurrences of `pat` in `text`.
fn count_sub(text: &str, pat: &str) -> (r: usize)
    requires
        text@.len() < usize::MAX,
    ensures
        r == count_occurrences(text@, pat@),
{
    let tlen = text.unicode_len();
    let plen = pat.unicode_len();
    if plen == 0 {
        proof {
            assert(pat@.len() == 0);
        }
        return tlen + 1;
    }
    if plen > tlen {
        proof {
            assert(count_from(text@, pat@, 0) == 0);
        }
        return 0;
    }
    let lim = tlen - plen;
    let mut i: usize = 0;
    let mut cnt: usize = 0;
    while i <= lim
        invariant
            tlen == text@.len(),
            plen == pat@.len(),
            plen > 0,
            plen <= tlen,
            lim == tlen - plen,
            cnt <= i,
            i <= tlen,
            count_from(text@, pat@, 0) == cnt + count_from(text@, pat@, i as int),
        decreases tlen + 1 - i,
    {
        if match_at_exec(text, tlen, pat, plen, i) {
            cnt = cnt + 1;
            i = i + plen;
        } else {
            i = i + 1;
        }
    }
    proof {
        assert(count_from(text@, pat@, i as int) == 0);
    }
    cnt
}

} // verus!
