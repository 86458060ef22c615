//! The rule engine: compiled pattern rules bound to a type tag and a priority,
//! an ordered rule container kept sorted by descending priority with a stable
//! sort, and the per-line greedy overlap-resolution algorithm.

use crate::pattern::compile_check;
use crate::pattern::found_views;
use crate::pattern::groups_views;
use crate::pattern::is_valid_pattern;
use crate::pattern::pattern_captures;
use crate::pattern::pattern_find_all;
use crate::pattern::pattern_is_match;
use crate::pattern::regex_found;
use crate::pattern::regex_groups;
use vstd::prelude::*;

verus! {

/// The mathematical content of a rule: its pattern text, its type tag and its
/// priority.
pub struct RuleModel {
    pub pattern: Seq<char>,
    pub rule_type: Seq<char>,
    pub priority: int,
}

/// The single fallible condition of the engine: a pattern that does not
/// compile, carrying the engine's diagnostic.
#[derive(Debug)]
pub struct InvalidPatternError {
    pub message: String,
}

/// One compiled pattern bound to a type tag and a signed priority.
pub struct RegexRule {
    pattern: String,
    rule_type: String,
    priority: i32,
}

impl RegexRule {
    #[verifier::type_invariant]
    spec fn wf(self) -> bool {
        is_valid_pattern(self.pattern@)
    }
}

impl View for RegexRule {
    type V = RuleModel;

    closed spec fn view(&self) -> RuleModel {
        RuleModel {
            pattern: self.pattern@,
            rule_type: self.rule_type@,
            priority: self.priority as int,
        }
    }
}

impl DeepView for RegexRule {
    type V = RuleModel;

    open spec fn deep_view(&self) -> RuleModel {
        self.view()
    }
}

impl RegexRule {
    /// Compiles `pattern`; on malformed syntax no rule is produced and the
    /// error carries the engine's diagnostic.
    pub fn new(pattern: String, rule_type: String, priority: i32) -> (r: Result<
        RegexRule,
        InvalidPatternError,
    >)
        ensures
            r is Ok <==> is_valid_pattern(pattern@),
            r matches Ok(rule) ==> rule@ == (RuleModel {
                pattern: pattern@,
                rule_type: rule_type@,
                priority: priority as int,
            }),
    {
        match compile_check(pattern.as_str()) {
            Ok(()) => Ok(RegexRule { pattern, rule_type, priority }),
            Err(message) => Err(InvalidPatternError { message }),
        }
    }

    /// The rule's type tag.
    pub fn rule_type(&self) -> (r: &String)
        ensures
            r@ == self@.rule_type,
    {
        &self.rule_type
    }

    /// The rule's priority.
    pub fn priority(&self) -> (r: i32)
        ensures
            r as int == self@.priority,
    {
        self.priority
    }

    /// The rule's pattern text.
    pub fn pattern_text(&self) -> (r: &String)
        ensures
            r@ == self@.pattern,
    {
        &self.pattern
    }

    /// True iff the pattern finds at least one match anywhere in `text`.
    pub fn matches(&self, text: &str) -> (r: bool)
        ensures
            r == (regex_found(self@.pattern, text@).len() > 0),
    {
        proof {
            use_type_invariant(&*self);
        }
        pattern_is_match(self.pattern.as_str(), text)
    }

    /// Runs the pattern once against `text`: if it matches, the capture-group
    /// values in group order, the whole-match group excluded and groups that
    /// did not participate omitted; absent if there is no match at all.
    pub fn extract(&self, text: &str) -> (r: Option<Vec<String>>)
        ensures
            groups_views(r) == regex_groups(self@.pattern, text@),
            r is Some <==> (regex_found(self@.pattern, text@).len() > 0),
    {
        proof {
            use_type_invariant(&*self);
        }
        pattern_captures(self.pattern.as_str(), text)
    }

    /// Every non-overlapping match found scanning left to right, each as
    /// (byte start, byte end, matched text), in scan order.
    pub fn find_all(&self, text: &str) -> (r: Vec<(usize, usize, String)>)
        ensures
            found_views(r@) == regex_found(self@.pattern, text@),
    {
        proof {
            use_type_invariant(&*self);
        }
        pattern_find_all(self.pattern.as_str(), text)
    }
}

/// Where a rule lands in a priority-descending list: after every element of
/// equal or higher priority, so that the sort below is stable.
pub open spec fn insert_rule_desc(s: Seq<RuleModel>, r: RuleModel) -> Seq<RuleModel>
    decreases s.len(),
{
    if s.len() == 0 {
        seq![r]
    } else if s.last().priority >= r.priority {
        s.push(r)
    } else {
        insert_rule_desc(s.drop_last(), r).push(s.last())
    }
}

/// Stable sort by priority descending: rules of equal priority keep their
/// relative order.
pub open spec fn sort_rules_desc(s: Seq<RuleModel>) -> Seq<RuleModel>
    decreases s.len(),
{
    if s.len() == 0 {
        s
    } else {
        insert_rule_desc(sort_rules_desc(s.drop_last()), s.last())
    }
}

/// `insert_rule_desc` places the new rule exactly at the position found by
/// scanning from the end past every strictly lower priority.
proof fn lemma_insert_rule_position(s: Seq<RuleModel>, r: RuleModel, pos: int)
    requires
        0 <= pos <= s.len(),
        forall|k: int| pos <= k < s.len() ==> s[k].priority < r.priority,
        pos > 0 ==> s[pos - 1].priority >= r.priority,
    ensures
        insert_rule_desc(s, r) == s.take(pos) + seq![r] + s.skip(pos),
    decreases s.len(),
{
    if pos == s.len() {
        if s.len() == 0 {
            assert(insert_rule_desc(s, r) =~= s.take(pos) + seq![r] + s.skip(pos));
        } else {
            assert(s.last().priority >= r.priority);
            assert(s.push(r) =~= s.take(pos) + seq![r] + s.skip(pos));
        }
    } else {
        assert(s.last().priority < r.priority);
        assert forall|k: int| pos <= k < s.drop_last().len() implies s.drop_last()[k].priority
            < r.priority by {
            assert(s.drop_last()[k] == s[k]);
        }
        if pos > 0 {
            assert(s.drop_last()[pos - 1] == s[pos - 1]);
        }
        lemma_insert_rule_position(s.drop_last(), r, pos);
        assert((s.drop_last().take(pos) + seq![r] + s.drop_last().skip(pos)).push(s.last()) =~= s
            .take(pos) + seq![r] + s.skip(pos));
    }
}

/// Rules are non-increasing in priority.
pub open spec fn rules_sorted_desc(s: Seq<RuleModel>) -> bool {
    forall|i: int, j: int| 0 <= i < j < s.len() ==> s[i].priority >= s[j].priority
}

/// Every rule's priority is at least `b`.
pub open spec fn rules_priority_ge(s: Seq<RuleModel>, b: int) -> bool {
    forall|k: int| 0 <= k < s.len() ==> s[k].priority >= b
}

/// Inserting a rule whose priority is at least `b` into a list bounded below
/// by `b` keeps the bound.
proof fn lemma_insert_rule_ge(s: Seq<RuleModel>, r: RuleModel, b: int)
    requires
        rules_priority_ge(s, b),
        r.priority >= b,
    ensures
        rules_priority_ge(insert_rule_desc(s, r), b),
    decreases s.len(),
{
    if s.len() == 0 {
    } else if s.last().priority >= r.priority {
    } else {
        assert forall|k: int| 0 <= k < s.drop_last().len() implies s.drop_last()[k].priority >= b by {
            assert(s.drop_last()[k] == s[k]);
        }
        lemma_insert_rule_ge(s.drop_last(), r, b);
    }
}

/// Insertion keeps the rule list sorted by priority descending.
proof fn lemma_insert_rule_sorted(s: Seq<RuleModel>, r: RuleModel)
    requires
        rules_sorted_desc(s),
    ensures
        rules_sorted_desc(insert_rule_desc(s, r)),
    decreases s.len(),
{
    if s.len() == 0 {
    } else if s.last().priority >= r.priority {
        assert forall|i: int, j: int| 0 <= i < j < s.push(r).len() implies s.push(r)[i].priority
            >= s.push(r)[j].priority by {
            if j < s.len() {
                assert(s.push(r)[i] == s[i]);
                assert(s.push(r)[j] == s[j]);
            } else {
                assert(s.push(r)[i] == s[i]);
                assert(s.push(r)[j] == r);
                assert(s[i].priority >= s.last().priority) by {
                    assert(s.last() == s[s.len() - 1]);
                }
            }
        }
    } else {
        let dl = s.drop_last();
        assert forall|i: int, j: int| 0 <= i < j < dl.len() implies dl[i].priority >= dl[j].priority
            by {
            assert(dl[i] == s[i]);
            assert(dl[j] == s[j]);
        }
        lemma_insert_rule_sorted(dl, r);
        assert(rules_priority_ge(dl, s.last().priority)) by {
            assert forall|k: int| 0 <= k < dl.len() implies dl[k].priority >= s.last().priority by {
                assert(dl[k] == s[k]);
                assert(s.last() == s[s.len() - 1]);
            }
        }
        lemma_insert_rule_ge(dl, r, s.last().priority);
        let ins = insert_rule_desc(dl, r);
        assert forall|i: int, j: int| 0 <= i < j < ins.push(s.last()).len() implies ins.push(
            s.last(),
        )[i].priority >= ins.push(s.last())[j].priority by {
            if j < ins.len() {
                assert(ins.push(s.last())[i] == ins[i]);
                assert(ins.push(s.last())[j] == ins[j]);
            } else {
                assert(ins.push(s.last())[i] == ins[i]);
                assert(ins.push(s.last())[j] == s.last());
            }
        }
    }
}

/// The rule container's ordering law: whatever rules were added in whatever
/// order, the stable sort leaves the collection non-increasing in priority.
pub proof fn lemma_sort_rules_sorted(s: Seq<RuleModel>)
    ensures
        rules_sorted_desc(sort_rules_desc(s)),
    decreases s.len(),
{
    if s.len() > 0 {
        lemma_sort_rules_sorted(s.drop_last());
        lemma_insert_rule_sorted(sort_rules_desc(s.drop_last()), s.last());
    }
}

/// An ordered collection of rules, kept sorted by priority descending (stable
/// on ties), running the overlap-resolution algorithm over lines of text.
pub struct TextParser {
    rules: Vec<RegexRule>,
}

impl View for TextParser {
    type V = Seq<RuleModel>;

    closed spec fn view(&self) -> Seq<RuleModel> {
        self.rules.deep_view()
    }
}

impl TextParser {
    /// A parser with no rules.
    pub fn new() -> (p: TextParser)
        ensures
            p@ == Seq::<RuleModel>::empty(),
    {
        let p = TextParser { rules: Vec::new() };
        proof {
            assert(p@ =~= Seq::<RuleModel>::empty());
        }
        p
    }

    /// Compiles a new rule, appends it, then re-sorts the whole collection by
    /// priority descending with a stable sort. A malformed pattern fails with
    /// `InvalidPatternError` and leaves the collection unchanged.
    pub fn add_rule(&mut self, pattern: String, rule_type: String, priority: i32) -> (r: Result<
        (),
        InvalidPatternError,
    >)
        ensures
            r is Ok <==> is_valid_pattern(pattern@),
            r is Ok ==> final(self)@ == sort_rules_desc(
                old(self)@.push(
                    RuleModel {
                        pattern: pattern@,
                        rule_type: rule_type@,
                        priority: priority as int,
                    },
                ),
            ),
            r is Ok ==> rules_sorted_desc(final(self)@),
            r is Err ==> final(self)@ == old(self)@,
    {
        match compile_check(pattern.as_str()) {
            Ok(()) => {
                let ghost rv = RuleModel {
                    pattern: pattern@,
                    rule_type: rule_type@,
                    priority: priority as int,
                };
                let rule = RegexRule { pattern, rule_type, priority };
                self.rules.push(rule);
                proof {
                    assert(self.rules.deep_view() =~= old(self)@.push(rv));
                }
                self.sort_rules();
                proof {
                    lemma_sort_rules_sorted(old(self)@.push(rv));
                }
                Ok(())
            },
            Err(message) => Err(InvalidPatternError { message }),
        }
    }

    /// Replaces the rule list with its stable sort by priority descending.
    fn sort_rules(&mut self)
        ensures
            final(self)@ == sort_rules_desc(old(self)@),
    {
        let ghost orig = self.rules.deep_view();
        let mut pending: Vec<RegexRule> = Vec::new();
        std::mem::swap(&mut pending, &mut self.rules);
        proof {
            assert(self.rules.deep_view() =~= sort_rules_desc(orig.take(0)));
            assert(pending.deep_view() =~= orig.skip(0));
        }
        while pending.len() > 0
            invariant
                pending.deep_view().len() <= orig.len(),
                self.rules.deep_view() == sort_rules_desc(
                    orig.take(orig.len() - pending.deep_view().len()),
                ),
                pending.deep_view() == orig.skip(orig.len() - pending.deep_view().len()),
            decreases pending.len(),
        {
            let ghost n = orig.len() - pending.deep_view().len();
            let ghost pvs = pending@;
            let ghost pdv = pending.deep_view();
            let x = pending.remove(0);
            proof {
                assert(x@ == pdv[0]);
                assert(x@ == orig[n]);
                assert forall|i: int| 0 <= i < pending.deep_view().len() implies pending.deep_view()[i]
                    == orig.skip(n + 1)[i] by {
                    assert(pending@[i] == pvs[i + 1]);
                    assert(pdv[i + 1] == pvs[i + 1].deep_view());
                }
                assert(pending.deep_view() =~= orig.skip(n + 1));
            }
            let mut pos: usize = self.rules.len();
            while pos > 0 && self.rules[pos - 1].priority < x.priority
                invariant
                    pos <= self.rules.deep_view().len(),
                    self.rules.deep_view().len() == self.rules@.len(),
                    forall|k: int|
                        pos <= k < self.rules.deep_view().len() ==> self.rules.deep_view()[k].priority
                            < x@.priority,
                decreases pos,
            {
                pos = pos - 1;
            }
            let ghost before = self.rules.deep_view();
            proof {
                lemma_insert_rule_position(before, x@, pos as int);
            }
            self.rules.insert(pos, x);
            proof {
                assert(self.rules.deep_view() =~= before.take(pos as int) + seq![x@] + before.skip(
                    pos as int,
                ));
                assert(orig.take(n + 1).drop_last() =~= orig.take(n));
                assert(orig.take(n + 1).last() == orig[n]);
            }
        }
        proof {
            assert(orig.take(orig.len() - pending.deep_view().len()) =~= orig);
        }
    }

    /// Computes the prioritized non-overlapping tokenization of one line.
    /// Rules are taken in the collection's current order; each candidate match
    /// is discarded entirely if its span overlaps any already-claimed span,
    /// and accepted otherwise; the accepted entries are finally stable-sorted
    /// ascending by start offset.
    pub fn parse_line(&self, text: &str) -> (r: Vec<(String, String, usize, usize)>)
        ensures
            entry_views(r@) == parse_line_model(self@, text@),
            forall|i: int, j: int|
                0 <= i < j < r@.len() ==> !span_overlap(
                    (r@[i].2 as nat, r@[i].3 as nat),
                    (r@[j].2 as nat, r@[j].3 as nat),
                ),
            forall|i: int, j: int| 0 <= i < j < r@.len() ==> r@[i].2 <= r@[j].2,
            self@.len() == 0 ==> r@.len() == 0,
    {
        let ghost rules_v = self@;
        let mut results: Vec<(String, String, usize, usize)> = Vec::new();
        let mut claimed: Vec<(usize, usize)> = Vec::new();
        proof {
            assert(rules_v.take(0) =~= Seq::<RuleModel>::empty());
            assert(entry_views(results@) =~= Seq::<(Seq<char>, Seq<char>, nat, nat)>::empty());
            assert(span_views(claimed@) =~= Seq::<(nat, nat)>::empty());
        }
        let mut i: usize = 0;
        while i < self.rules.len()
            invariant
                rules_v == self@,
                self@.len() == self.rules@.len(),
                i <= self.rules@.len(),
                entry_views(results@) == claim_spans(
                    all_candidates(rules_v.take(i as int), text@),
                    Seq::empty(),
                ).0,
                span_views(claimed@) == claim_spans(
                    all_candidates(rules_v.take(i as int), text@),
                    Seq::empty(),
                ).1,
            decreases self.rules@.len() - i,
        {
            let rule = &self.rules[i];
            proof {
                use_type_invariant(rule);
                assert(rule@ == rules_v[i as int]);
            }
            let ms = pattern_find_all(rule.pattern.as_str(), text);
            let ghost cands = rule_candidates(rules_v[i as int], text@);
            proof {
                assert(cands.len() == ms@.len());
                assert forall|k: int| 0 <= k < ms@.len() implies cands[k] == (
                    rules_v[i as int].rule_type,
                    ms@[k].0 as nat,
                    ms@[k].1 as nat,
                    ms@[k].2@,
                ) by {
                    assert(found_views(ms@)[k] == (ms@[k].0 as nat, ms@[k].1 as nat, ms@[k].2@));
                }
            }
            let ghost done = all_candidates(rules_v.take(i as int), text@);
            let mut j: usize = 0;
            proof {
                assert(done + cands.take(0) =~= done);
            }
            while j < ms.len()
                invariant
                    rules_v == self@,
                    i < rules_v.len(),
                    rule@ == rules_v[i as int],
                    j <= ms@.len(),
                    cands == rule_candidates(rules_v[i as int], text@),
                    cands.len() == ms@.len(),
                    forall|k: int|
                        0 <= k < ms@.len() ==> cands[k] == (
                            rules_v[i as int].rule_type,
                            ms@[k].0 as nat,
                            ms@[k].1 as nat,
                            ms@[k].2@,
                        ),
                    done == all_candidates(rules_v.take(i as int), text@),
                    entry_views(results@) == claim_spans(
                        done + cands.take(j as int),
                        Seq::empty(),
                    ).0,
                    span_views(claimed@) == claim_spans(
                        done + cands.take(j as int),
                        Seq::empty(),
                    ).1,
                decreases ms@.len() - j,
            {
                let start = ms[j].0;
                let end = ms[j].1;
                let ghost st = claim_spans(done + cands.take(j as int), Seq::empty());
                let mut overl = false;
                let mut k: usize = 0;
                while k < claimed.len()
                    invariant
                        k <= claimed@.len(),
                        span_views(claimed@) == st.1,
                        overl == exists|m: int|
                            0 <= m < k && span_overlap(
                                (claimed@[m].0 as nat, claimed@[m].1 as nat),
                                (start as nat, end as nat),
                            ),
                    decreases claimed@.len() - k,
                {
                    let c = claimed[k];
                    if start < c.1 && c.0 < end {
                        proof {
                            assert(span_overlap(
                                (claimed@[k as int].0 as nat, claimed@[k as int].1 as nat),
                                (start as nat, end as nat),
                            ));
                        }
                        overl = true;
                    }
                    k = k + 1;
                }
                proof {
                    assert(st.1.len() == claimed@.len());
                    assert forall|m: int| 0 <= m < claimed@.len() implies st.1[m] == (
                        claimed@[m].0 as nat,
                        claimed@[m].1 as nat,
                    ) by {
                        assert(span_views(claimed@)[m] == (claimed@[m].0 as nat, claimed@[m].1 as nat));
                    }
                    if overl {
                        let m = choose|m: int|
                            0 <= m < claimed@.len() && span_overlap(
                                (claimed@[m].0 as nat, claimed@[m].1 as nat),
                                (start as nat, end as nat),
                            );
                        assert(span_overlap(st.1[m], (start as nat, end as nat)));
                        assert(overlaps_claimed(st.1, (start as nat, end as nat)));
                    } else if overlaps_claimed(st.1, (start as nat, end as nat)) {
                        let m = choose|m: int|
                            0 <= m < st.1.len() && span_overlap(st.1[m], (start as nat, end as nat));
                        assert(span_overlap(
                            (claimed@[m].0 as nat, claimed@[m].1 as nat),
                            (start as nat, end as nat),
                        ));
                        assert(false);
                    }
                    assert(overl == overlaps_claimed(st.1, (start as nat, end as nat)));
                    assert(done + cands.take(j + 1) =~= (done + cands.take(j as int)).push(
                        cands[j as int],
                    ));
                    lemma_claim_spans_step(done + cands.take(j as int), cands[j as int], Seq::empty());
                }
                if !overl {
                    let ghost old_results = results@;
                    let ghost old_claimed = claimed@;
                    results.push((rule.rule_type.clone(), ms[j].2.clone(), start, end));
                    claimed.push((start, end));
                    proof {
                        assert(entry_views(results@) =~= entry_views(old_results).push(
                            (rule@.rule_type, ms@[j as int].2@, start as nat, end as nat),
                        ));
                        assert(span_views(claimed@) =~= span_views(old_claimed).push(
                            (start as nat, end as nat),
                        ));
                    }
                }
                j = j + 1;
            }
            proof {
                assert(cands.take(cands.len() as int) =~= cands);
                lemma_all_candidates_snoc(rules_v, text@, i as int);
            }
            i = i + 1;
        }
        proof {
            assert(rules_v.take(rules_v.len() as int) =~= rules_v);
        }
        let ghost selected = claim_spans(all_candidates(rules_v, text@), Seq::empty());
        let sorted = sort_entries(results);
        proof {
            assert(spans_nonoverlap(Seq::<(nat, nat)>::empty()));
            lemma_claim_spans_props(all_candidates(rules_v, text@), Seq::empty());
            assert(Seq::<(nat, nat)>::empty() + entry_spans(selected.0) =~= entry_spans(
                selected.0,
            ));
            assert(spans_nonoverlap(entry_spans(selected.0)));
            assert forall|a: int, b: int| 0 <= a < b < selected.0.len() implies !span_overlap(
                (selected.0[a].2, selected.0[a].3),
                (selected.0[b].2, selected.0[b].3),
            ) by {
                assert(entry_spans(selected.0)[a] == (selected.0[a].2, selected.0[a].3));
                assert(entry_spans(selected.0)[b] == (selected.0[b].2, selected.0[b].3));
            }
            assert(entries_nonoverlap(selected.0));
            lemma_sort_entries_nonoverlap(selected.0);
            lemma_sort_entries_sorted(selected.0);
            assert(entry_views(sorted@) == sort_entries_by_start(selected.0));
            assert(entries_nonoverlap(entry_views(sorted@)));
            assert(entries_sorted_by_start(entry_views(sorted@)));
            assert forall|a: int, b: int| 0 <= a < b < sorted@.len() implies !span_overlap(
                (sorted@[a].2 as nat, sorted@[a].3 as nat),
                (sorted@[b].2 as nat, sorted@[b].3 as nat),
            ) by {
                assert(entry_views(sorted@)[a] == (
                    sorted@[a].0@,
                    sorted@[a].1@,
                    sorted@[a].2 as nat,
                    sorted@[a].3 as nat,
                ));
                assert(entry_views(sorted@)[b] == (
                    sorted@[b].0@,
                    sorted@[b].1@,
                    sorted@[b].2 as nat,
                    sorted@[b].3 as nat,
                ));
                assert(!span_overlap(
                    (entry_views(sorted@)[a].2, entry_views(sorted@)[a].3),
                    (entry_views(sorted@)[b].2, entry_views(sorted@)[b].3),
                ));
            }
            assert forall|a: int, b: int| 0 <= a < b < sorted@.len() implies sorted@[a].2
                <= sorted@[b].2 by {
                assert(entry_views(sorted@)[a].2 <= entry_views(sorted@)[b].2);
                assert(entry_views(sorted@)[a] == (
                    sorted@[a].0@,
                    sorted@[a].1@,
                    sorted@[a].2 as nat,
                    sorted@[a].3 as nat,
                ));
                assert(entry_views(sorted@)[b] == (
                    sorted@[b].0@,
                    sorted@[b].1@,
                    sorted@[b].2 as nat,
                    sorted@[b].3 as nat,
                ));
            }
        }
        sorted
    }

    /// Applies `parse_line` independently to each line, preserving line order;
    /// no state crosses lines.
    pub fn parse_lines(&self, lines: Vec<String>) -> (r: Vec<Vec<(String, String, usize, usize)>>)
        ensures
            r@.len() == lines@.len(),
            forall|i: int|
                0 <= i < r@.len() ==> entry_views(r@[i]@) == parse_line_model(self@, lines@[i]@),
    {
        let mut out: Vec<Vec<(String, String, usize, usize)>> = Vec::new();
        let mut i: usize = 0;
        while i < lines.len()
            invariant
                i <= lines@.len(),
                out@.len() == i,
                forall|k: int|
                    0 <= k < i ==> entry_views(out@[k]@) == parse_line_model(self@, lines@[k]@),
            decreases lines@.len() - i,
        {
            let parsed = self.parse_line(lines[i].as_str());
            out.push(parsed);
            i = i + 1;
        }
        out
    }

    /// Removes all rules; until rules are re-added, parsing yields nothing.
    pub fn clear_rules(&mut self)
        ensures
            final(self)@ == Seq::<RuleModel>::empty(),
    {
        self.rules.clear();
        proof {
            assert(self.rules.deep_view() =~= Seq::<RuleModel>::empty());
        }
    }

    /// The current number of rules.
    pub fn rule_count(&self) -> (r: usize)
        ensures
            r == self@.len(),
    {
        proof {
            assert(self.rules.deep_view().len() == self.rules@.len());
        }
        self.rules.len()
    }
}

/// Two half-open spans overlap iff their open intervals intersect: touching
/// endpoints do not overlap.
pub open spec fn span_overlap(a: (nat, nat), b: (nat, nat)) -> bool {
    a.0 < b.1 && b.0 < a.1
}

/// The span overlaps at least one already-claimed span.
pub open spec fn overlaps_claimed(claimed: Seq<(nat, nat)>, sp: (nat, nat)) -> bool {
    exists|k: int| 0 <= k < claimed.len() && span_overlap(claimed[k], sp)
}

/// The candidates one rule contributes to a line: its matches in scan order,
/// each tagged with the rule's type: (type, start, end, matched text).
pub open spec fn rule_candidates(r: RuleModel, text: Seq<char>) -> Seq<(Seq<char>, nat, nat, Seq<char>)> {
    regex_found(r.pattern, text).map_values(
        |m: (nat, nat, Seq<char>)| (r.rule_type, m.0, m.1, m.2),
    )
}

/// All candidates of a line, rule by rule in collection order.
pub open spec fn all_candidates(rules: Seq<RuleModel>, text: Seq<char>) -> Seq<(Seq<char>, nat, nat, Seq<char>)>
    decreases rules.len(),
{
    if rules.len() == 0 {
        Seq::empty()
    } else {
        rule_candidates(rules[0], text) + all_candidates(rules.drop_first(), text)
    }
}

/// Greedy span claiming: each candidate in order is discarded when its span
/// overlaps any claimed span and accepted otherwise; yields the accepted
/// entries (type, content, start, end) and the claimed spans afterwards.
pub open spec fn claim_spans(
    cands: Seq<(Seq<char>, nat, nat, Seq<char>)>,
    claimed: Seq<(nat, nat)>,
) -> (Seq<(Seq<char>, Seq<char>, nat, nat)>, Seq<(nat, nat)>)
    decreases cands.len(),
{
    if cands.len() == 0 {
        (Seq::empty(), claimed)
    } else {
        let c = cands[0];
        let sp = (c.1, c.2);
        if overlaps_claimed(claimed, sp) {
            claim_spans(cands.drop_first(), claimed)
        } else {
            let rest = claim_spans(cands.drop_first(), claimed.push(sp));
            (seq![(c.0, c.3, c.1, c.2)] + rest.0, rest.1)
        }
    }
}

/// Where an entry lands when sorted ascending by start: after every entry with
/// an equal or smaller start, so that the sort below is stable.
pub open spec fn insert_entry_by_start(
    s: Seq<(Seq<char>, Seq<char>, nat, nat)>,
    e: (Seq<char>, Seq<char>, nat, nat),
) -> Seq<(Seq<char>, Seq<char>, nat, nat)>
    decreases s.len(),
{
    if s.len() == 0 {
        seq![e]
    } else if s.last().2 <= e.2 {
        s.push(e)
    } else {
        insert_entry_by_start(s.drop_last(), e).push(s.last())
    }
}

/// Stable sort ascending by start offset.
pub open spec fn sort_entries_by_start(s: Seq<(Seq<char>, Seq<char>, nat, nat)>) -> Seq<(Seq<char>, Seq<char>, nat, nat)>
    decreases s.len(),
{
    if s.len() == 0 {
        s
    } else {
        insert_entry_by_start(sort_entries_by_start(s.drop_last()), s.last())
    }
}

/// What `parse_line` returns, over the models of the rules and the line.
pub open spec fn parse_line_model(rules: Seq<RuleModel>, text: Seq<char>) -> Seq<(Seq<char>, Seq<char>, nat, nat)> {
    sort_entries_by_start(claim_spans(all_candidates(rules, text), Seq::empty()).0)
}

/// The mathematical content of a list of result entries.
pub open spec fn entry_views(s: Seq<(String, String, usize, usize)>) -> Seq<(Seq<char>, Seq<char>, nat, nat)> {
    s.map_values(|e: (String, String, usize, usize)| (e.0@, e.1@, e.2 as nat, e.3 as nat))
}

/// The mathematical content of a list of claimed spans.
pub open spec fn span_views(s: Seq<(usize, usize)>) -> Seq<(nat, nat)> {
    s.map_values(|c: (usize, usize)| (c.0 as nat, c.1 as nat))
}

/// The spans of a list of entries.
pub open spec fn entry_spans(s: Seq<(Seq<char>, Seq<char>, nat, nat)>) -> Seq<(nat, nat)> {
    s.map_values(|e: (Seq<char>, Seq<char>, nat, nat)| (e.2, e.3))
}

/// No two spans of the list overlap.
pub open spec fn spans_nonoverlap(s: Seq<(nat, nat)>) -> bool {
    forall|i: int, j: int| 0 <= i < j < s.len() ==> !span_overlap(s[i], s[j])
}

/// No entry's span overlaps `sp`.
pub open spec fn entries_avoid(s: Seq<(Seq<char>, Seq<char>, nat, nat)>, sp: (nat, nat)) -> bool {
    forall|k: int| 0 <= k < s.len() ==> !span_overlap((s[k].2, s[k].3), sp)
}

/// No two entries' spans overlap.
pub open spec fn entries_nonoverlap(s: Seq<(Seq<char>, Seq<char>, nat, nat)>) -> bool {
    forall|i: int, j: int|
        0 <= i < j < s.len() ==> !span_overlap((s[i].2, s[i].3), (s[j].2, s[j].3))
}

/// Entries are non-decreasing in start offset.
pub open spec fn entries_sorted_by_start(s: Seq<(Seq<char>, Seq<char>, nat, nat)>) -> bool {
    forall|i: int, j: int| 0 <= i < j < s.len() ==> s[i].2 <= s[j].2
}

/// Every entry starts at or before `b`.
pub open spec fn entries_start_le(s: Seq<(Seq<char>, Seq<char>, nat, nat)>, b: nat) -> bool {
    forall|k: int| 0 <= k < s.len() ==> s[k].2 <= b
}

/// Candidate lists concatenate: claiming `a + b` claims `a` first and then `b`
/// against the spans claimed so far.
proof fn lemma_claim_spans_append(
    a: Seq<(Seq<char>, nat, nat, Seq<char>)>,
    b: Seq<(Seq<char>, nat, nat, Seq<char>)>,
    claimed: Seq<(nat, nat)>,
)
    ensures
        claim_spans(a + b, claimed).0 == claim_spans(a, claimed).0 + claim_spans(
            b,
            claim_spans(a, claimed).1,
        ).0,
        claim_spans(a + b, claimed).1 == claim_spans(b, claim_spans(a, claimed).1).1,
    decreases a.len(),
{
    if a.len() == 0 {
        assert(a + b =~= b);
        assert(claim_spans(a, claimed).0 + claim_spans(b, claimed).0 =~= claim_spans(b, claimed).0);
    } else {
        let ab = a + b;
        assert(ab[0] == a[0]);
        assert(ab.drop_first() =~= a.drop_first() + b);
        let c = a[0];
        let sp = (c.1, c.2);
        if overlaps_claimed(claimed, sp) {
            lemma_claim_spans_append(a.drop_first(), b, claimed);
        } else {
            lemma_claim_spans_append(a.drop_first(), b, claimed.push(sp));
            let e = (c.0, c.3, c.1, c.2);
            assert(seq![e] + (claim_spans(a.drop_first(), claimed.push(sp)).0 + claim_spans(
                b,
                claim_spans(a.drop_first(), claimed.push(sp)).1,
            ).0) =~= (seq![e] + claim_spans(a.drop_first(), claimed.push(sp)).0) + claim_spans(
                b,
                claim_spans(a.drop_first(), claimed.push(sp)).1,
            ).0);
        }
    }
}

/// One claiming step: the candidate appended at the end is tested against the
/// spans claimed by everything before it.
proof fn lemma_claim_spans_step(
    p: Seq<(Seq<char>, nat, nat, Seq<char>)>,
    c: (Seq<char>, nat, nat, Seq<char>),
    claimed: Seq<(nat, nat)>,
)
    ensures
        overlaps_claimed(claim_spans(p, claimed).1, (c.1, c.2)) ==> claim_spans(p.push(c), claimed)
            == claim_spans(p, claimed),
        !overlaps_claimed(claim_spans(p, claimed).1, (c.1, c.2)) ==> claim_spans(
            p.push(c),
            claimed,
        ) == (
            claim_spans(p, claimed).0.push((c.0, c.3, c.1, c.2)),
            claim_spans(p, claimed).1.push((c.1, c.2)),
        ),
{
    assert(p.push(c) =~= p + seq![c]);
    lemma_claim_spans_append(p, seq![c], claimed);
    let st = claim_spans(p, claimed);
    let single = seq![c];
    assert(single[0] == c);
    let none_left = single.drop_first();
    assert(none_left.len() == 0);
    assert(claim_spans(none_left, st.1) == (
        Seq::<(Seq<char>, Seq<char>, nat, nat)>::empty(),
        st.1,
    ));
    assert(claim_spans(none_left, st.1.push((c.1, c.2))) == (
        Seq::<(Seq<char>, Seq<char>, nat, nat)>::empty(),
        st.1.push((c.1, c.2)),
    ));
    if overlaps_claimed(st.1, (c.1, c.2)) {
        assert(claim_spans(single, st.1) == claim_spans(none_left, st.1));
        assert(st.0 + Seq::<(Seq<char>, Seq<char>, nat, nat)>::empty() =~= st.0);
        assert(claim_spans(p.push(c), claimed).0 =~= st.0);
    } else {
        assert(claim_spans(single, st.1).0 == seq![(c.0, c.3, c.1, c.2)] + claim_spans(
            none_left,
            st.1.push((c.1, c.2)),
        ).0);
        assert(claim_spans(single, st.1).0 =~= seq![(c.0, c.3, c.1, c.2)]);
        assert(claim_spans(single, st.1).1 == st.1.push((c.1, c.2)));
        assert(st.0 + seq![(c.0, c.3, c.1, c.2)] =~= st.0.push((c.0, c.3, c.1, c.2)));
    }
}

/// Taking one more rule appends exactly that rule's candidates.
proof fn lemma_all_candidates_snoc(rules: Seq<RuleModel>, text: Seq<char>, i: int)
    requires
        0 <= i < rules.len(),
    ensures
        all_candidates(rules.take(i + 1), text) == all_candidates(rules.take(i), text)
            + rule_candidates(rules[i], text),
    decreases i,
{
    if i == 0 {
        assert(rules.take(1)[0] == rules[0]);
        assert(rules.take(1).drop_first() =~= Seq::<RuleModel>::empty());
        assert(rules.take(0) =~= Seq::<RuleModel>::empty());
        assert(rule_candidates(rules[0], text) + Seq::<(Seq<char>, nat, nat, Seq<char>)>::empty()
            =~= rule_candidates(rules[0], text));
        assert(Seq::<(Seq<char>, nat, nat, Seq<char>)>::empty() + rule_candidates(rules[0], text)
            =~= rule_candidates(rules[0], text));
    } else {
        let df = rules.drop_first();
        lemma_all_candidates_snoc(df, text, i - 1);
        assert(rules.take(i + 1)[0] == rules[0]);
        assert(rules.take(i + 1).drop_first() =~= df.take(i));
        assert(rules.take(i)[0] == rules[0]);
        assert(rules.take(i).drop_first() =~= df.take(i - 1));
        assert(df[i - 1] == rules[i]);
        assert(rule_candidates(rules[0], text) + (all_candidates(df.take(i - 1), text)
            + rule_candidates(rules[i], text)) =~= (rule_candidates(rules[0], text)
            + all_candidates(df.take(i - 1), text)) + rule_candidates(rules[i], text));
    }
}

/// What greedy claiming guarantees: the claimed spans afterwards are exactly
/// the spans claimed before plus the accepted entries' spans, and no two
/// claimed spans overlap.
proof fn lemma_claim_spans_props(
    cands: Seq<(Seq<char>, nat, nat, Seq<char>)>,
    claimed: Seq<(nat, nat)>,
)
    requires
        spans_nonoverlap(claimed),
    ensures
        claim_spans(cands, claimed).1 == claimed + entry_spans(claim_spans(cands, claimed).0),
        spans_nonoverlap(claim_spans(cands, claimed).1),
    decreases cands.len(),
{
    if cands.len() == 0 {
        assert(entry_spans(claim_spans(cands, claimed).0) =~= Seq::<(nat, nat)>::empty());
        assert(claimed + Seq::<(nat, nat)>::empty() =~= claimed);
    } else {
        let c = cands[0];
        let sp = (c.1, c.2);
        if overlaps_claimed(claimed, sp) {
            lemma_claim_spans_props(cands.drop_first(), claimed);
        } else {
            assert(spans_nonoverlap(claimed.push(sp))) by {
                assert forall|i: int, j: int|
                    0 <= i < j < claimed.push(sp).len() implies !span_overlap(
                    claimed.push(sp)[i],
                    claimed.push(sp)[j],
                ) by {
                    if j < claimed.len() {
                        assert(claimed.push(sp)[i] == claimed[i]);
                        assert(claimed.push(sp)[j] == claimed[j]);
                    } else {
                        assert(claimed.push(sp)[i] == claimed[i]);
                        assert(claimed.push(sp)[j] == sp);
                    }
                }
            }
            lemma_claim_spans_props(cands.drop_first(), claimed.push(sp));
            let e = (c.0, c.3, c.1, c.2);
            let rest = claim_spans(cands.drop_first(), claimed.push(sp));
            assert(entry_spans(seq![e] + rest.0) =~= seq![sp] + entry_spans(rest.0));
            assert(claimed.push(sp) + entry_spans(rest.0) =~= claimed + (seq![sp] + entry_spans(
                rest.0,
            )));
        }
    }
}

/// `insert_entry_by_start` places the new entry exactly at the position found
/// by scanning from the end past every strictly greater start.
proof fn lemma_insert_entry_position(
    s: Seq<(Seq<char>, Seq<char>, nat, nat)>,
    e: (Seq<char>, Seq<char>, nat, nat),
    pos: int,
)
    requires
        0 <= pos <= s.len(),
        forall|k: int| pos <= k < s.len() ==> s[k].2 > e.2,
        pos > 0 ==> s[pos - 1].2 <= e.2,
    ensures
        insert_entry_by_start(s, e) == s.take(pos) + seq![e] + s.skip(pos),
    decreases s.len(),
{
    if pos == s.len() {
        if s.len() == 0 {
            assert(insert_entry_by_start(s, e) =~= s.take(pos) + seq![e] + s.skip(pos));
        } else {
            assert(s.push(e) =~= s.take(pos) + seq![e] + s.skip(pos));
        }
    } else {
        assert(s.last().2 > e.2);
        assert forall|k: int| pos <= k < s.drop_last().len() implies s.drop_last()[k].2 > e.2 by {
            assert(s.drop_last()[k] == s[k]);
        }
        if pos > 0 {
            assert(s.drop_last()[pos - 1] == s[pos - 1]);
        }
        lemma_insert_entry_position(s.drop_last(), e, pos);
        assert((s.drop_last().take(pos) + seq![e] + s.drop_last().skip(pos)).push(s.last()) =~= s
            .take(pos) + seq![e] + s.skip(pos));
    }
}

/// Inserting an entry that avoids a span keeps the whole list avoiding it.
proof fn lemma_insert_entry_avoid(
    s: Seq<(Seq<char>, Seq<char>, nat, nat)>,
    e: (Seq<char>, Seq<char>, nat, nat),
    sp: (nat, nat),
)
    requires
        entries_avoid(s, sp),
        !span_overlap((e.2, e.3), sp),
    ensures
        entries_avoid(insert_entry_by_start(s, e), sp),
    decreases s.len(),
{
    if s.len() == 0 {
    } else if s.last().2 <= e.2 {
    } else {
        assert(entries_avoid(s.drop_last(), sp)) by {
            assert forall|k: int| 0 <= k < s.drop_last().len() implies !span_overlap(
                (s.drop_last()[k].2, s.drop_last()[k].3),
                sp,
            ) by {
                assert(s.drop_last()[k] == s[k]);
            }
        }
        lemma_insert_entry_avoid(s.drop_last(), e, sp);
    }
}

/// Inserting an entry whose span overlaps no entry of a pairwise
/// non-overlapping list keeps the list pairwise non-overlapping.
proof fn lemma_insert_entry_nonoverlap(
    s: Seq<(Seq<char>, Seq<char>, nat, nat)>,
    e: (Seq<char>, Seq<char>, nat, nat),
)
    requires
        entries_nonoverlap(s),
        entries_avoid(s, (e.2, e.3)),
    ensures
        entries_nonoverlap(insert_entry_by_start(s, e)),
    decreases s.len(),
{
    if s.len() == 0 {
    } else if s.last().2 <= e.2 {
    } else {
        let dl = s.drop_last();
        assert forall|k: int| 0 <= k < dl.len() implies !span_overlap((dl[k].2, dl[k].3), (e.2, e.3))
            by {
            assert(dl[k] == s[k]);
        }
        assert forall|i: int, j: int| 0 <= i < j < dl.len() implies !span_overlap(
            (dl[i].2, dl[i].3),
            (dl[j].2, dl[j].3),
        ) by {
            assert(dl[i] == s[i]);
            assert(dl[j] == s[j]);
        }
        lemma_insert_entry_nonoverlap(dl, e);
        assert(entries_avoid(dl, (s.last().2, s.last().3))) by {
            assert forall|k: int| 0 <= k < dl.len() implies !span_overlap(
                (dl[k].2, dl[k].3),
                (s.last().2, s.last().3),
            ) by {
                assert(dl[k] == s[k]);
                assert(s.last() == s[s.len() - 1]);
            }
        }
        assert(!span_overlap((e.2, e.3), (s.last().2, s.last().3))) by {
            assert(s.last() == s[s.len() - 1]);
        }
        lemma_insert_entry_avoid(dl, e, (s.last().2, s.last().3));
    }
}

/// The stable sort keeps a list avoiding a span.
proof fn lemma_sort_entries_avoid(s: Seq<(Seq<char>, Seq<char>, nat, nat)>, sp: (nat, nat))
    requires
        entries_avoid(s, sp),
    ensures
        entries_avoid(sort_entries_by_start(s), sp),
    decreases s.len(),
{
    if s.len() > 0 {
        let dl = s.drop_last();
        assert forall|k: int| 0 <= k < dl.len() implies !span_overlap((dl[k].2, dl[k].3), sp) by {
            assert(dl[k] == s[k]);
        }
        lemma_sort_entries_avoid(dl, sp);
        assert(s.last() == s[s.len() - 1]);
        lemma_insert_entry_avoid(sort_entries_by_start(dl), s.last(), sp);
    }
}

/// The stable sort keeps a list pairwise non-overlapping.
proof fn lemma_sort_entries_nonoverlap(s: Seq<(Seq<char>, Seq<char>, nat, nat)>)
    requires
        entries_nonoverlap(s),
    ensures
        entries_nonoverlap(sort_entries_by_start(s)),
    decreases s.len(),
{
    if s.len() > 0 {
        let dl = s.drop_last();
        assert forall|i: int, j: int| 0 <= i < j < dl.len() implies !span_overlap(
            (dl[i].2, dl[i].3),
            (dl[j].2, dl[j].3),
        ) by {
            assert(dl[i] == s[i]);
            assert(dl[j] == s[j]);
        }
        lemma_sort_entries_nonoverlap(dl);
        assert(entries_avoid(dl, (s.last().2, s.last().3))) by {
            assert forall|k: int| 0 <= k < dl.len() implies !span_overlap(
                (dl[k].2, dl[k].3),
                (s.last().2, s.last().3),
            ) by {
                assert(dl[k] == s[k]);
                assert(s.last() == s[s.len() - 1]);
            }
        }
        lemma_sort_entries_avoid(dl, (s.last().2, s.last().3));
        lemma_insert_entry_nonoverlap(sort_entries_by_start(dl), s.last());
    }
}

/// Inserting an entry that starts at or before `b` into a list bounded by `b`
/// keeps the bound.
proof fn lemma_insert_entry_le(
    s: Seq<(Seq<char>, Seq<char>, nat, nat)>,
    e: (Seq<char>, Seq<char>, nat, nat),
    b: nat,
)
    requires
        entries_start_le(s, b),
        e.2 <= b,
    ensures
        entries_start_le(insert_entry_by_start(s, e), b),
    decreases s.len(),
{
    if s.len() == 0 {
    } else if s.last().2 <= e.2 {
    } else {
        assert forall|k: int| 0 <= k < s.drop_last().len() implies s.drop_last()[k].2 <= b by {
            assert(s.drop_last()[k] == s[k]);
        }
        lemma_insert_entry_le(s.drop_last(), e, b);
    }
}

/// Insertion keeps the list sorted by start.
proof fn lemma_insert_entry_sorted(
    s: Seq<(Seq<char>, Seq<char>, nat, nat)>,
    e: (Seq<char>, Seq<char>, nat, nat),
)
    requires
        entries_sorted_by_start(s),
    ensures
        entries_sorted_by_start(insert_entry_by_start(s, e)),
    decreases s.len(),
{
    if s.len() == 0 {
    } else if s.last().2 <= e.2 {
        assert forall|i: int, j: int| 0 <= i < j < s.push(e).len() implies s.push(e)[i].2 <= s.push(
            e,
        )[j].2 by {
            if j < s.len() {
                assert(s.push(e)[i] == s[i]);
                assert(s.push(e)[j] == s[j]);
            } else {
                assert(s.push(e)[i] == s[i]);
                assert(s.push(e)[j] == e);
                assert(s[i].2 <= s.last().2) by {
                    assert(s.last() == s[s.len() - 1]);
                }
            }
        }
    } else {
        let dl = s.drop_last();
        assert forall|i: int, j: int| 0 <= i < j < dl.len() implies dl[i].2 <= dl[j].2 by {
            assert(dl[i] == s[i]);
            assert(dl[j] == s[j]);
        }
        lemma_insert_entry_sorted(dl, e);
        assert(entries_start_le(dl, s.last().2)) by {
            assert forall|k: int| 0 <= k < dl.len() implies dl[k].2 <= s.last().2 by {
                assert(dl[k] == s[k]);
                assert(s.last() == s[s.len() - 1]);
            }
        }
        lemma_insert_entry_le(dl, e, s.last().2);
        let ins = insert_entry_by_start(dl, e);
        assert forall|i: int, j: int| 0 <= i < j < ins.push(s.last()).len() implies ins.push(
            s.last(),
        )[i].2 <= ins.push(s.last())[j].2 by {
            if j < ins.len() {
                assert(ins.push(s.last())[i] == ins[i]);
                assert(ins.push(s.last())[j] == ins[j]);
            } else {
                assert(ins.push(s.last())[i] == ins[i]);
                assert(ins.push(s.last())[j] == s.last());
            }
        }
    }
}

/// The stable sort's output is sorted by start.
proof fn lemma_sort_entries_sorted(s: Seq<(Seq<char>, Seq<char>, nat, nat)>)
    ensures
        entries_sorted_by_start(sort_entries_by_start(s)),
    decreases s.len(),
{
    if s.len() > 0 {
        lemma_sort_entries_sorted(s.drop_last());
        lemma_insert_entry_sorted(sort_entries_by_start(s.drop_last()), s.last());
    }
}

/// Insertion adds exactly the new entry to the list's members.
proof fn lemma_insert_entry_contains(
    s: Seq<(Seq<char>, Seq<char>, nat, nat)>,
    e: (Seq<char>, Seq<char>, nat, nat),
    x: (Seq<char>, Seq<char>, nat, nat),
)
    ensures
        insert_entry_by_start(s, e).contains(x) <==> (s.contains(x) || x == e),
    decreases s.len(),
{
    if s.len() == 0 {
        assert(insert_entry_by_start(s, e) == seq![e]);
        assert(seq![e][0] == e);
        if insert_entry_by_start(s, e).contains(x) {
            let k = choose|k: int|
                0 <= k < seq![e].len() && seq![e][k] == x;
            assert(x == e);
        }
    } else if s.last().2 <= e.2 {
        lemma_push_contains(s, e, x);
    } else {
        lemma_insert_entry_contains(s.drop_last(), e, x);
        lemma_push_contains(insert_entry_by_start(s.drop_last(), e), s.last(), x);
        lemma_push_contains(s.drop_last(), s.last(), x);
        assert(s.drop_last().push(s.last()) =~= s);
    }
}

/// A pushed list's members are the old members plus the pushed element.
proof fn lemma_push_contains(
    s: Seq<(Seq<char>, Seq<char>, nat, nat)>,
    e: (Seq<char>, Seq<char>, nat, nat),
    x: (Seq<char>, Seq<char>, nat, nat),
)
    ensures
        s.push(e).contains(x) <==> (s.contains(x) || x == e),
{
    if s.push(e).contains(x) {
        let k = choose|k: int| 0 <= k < s.push(e).len() && s.push(e)[k] == x;
        if k < s.len() {
            assert(s[k] == x);
        }
    }
    if s.contains(x) {
        let k = choose|k: int| 0 <= k < s.len() && s[k] == x;
        assert(s.push(e)[k] == x);
    }
    assert(s.push(e)[s.len() as int] == e);
}

/// The stable sort neither loses nor invents entries.
proof fn lemma_sort_entries_contains(
    s: Seq<(Seq<char>, Seq<char>, nat, nat)>,
    x: (Seq<char>, Seq<char>, nat, nat),
)
    ensures
        sort_entries_by_start(s).contains(x) <==> s.contains(x),
    decreases s.len(),
{
    if s.len() > 0 {
        lemma_sort_entries_contains(s.drop_last(), x);
        lemma_insert_entry_contains(sort_entries_by_start(s.drop_last()), s.last(), x);
        lemma_push_contains(s.drop_last(), s.last(), x);
        assert(s.drop_last().push(s.last()) =~= s);
    }
}

/// Priority precedence: when a higher-priority and a lower-priority rule each
/// match exactly the same non-empty span of a line, the parsed result is the
/// higher-priority rule's entry alone — and the stable sort puts the higher
/// priority first even when it was added last.
pub proof fn lemma_priority_precedence(
    hi: RuleModel,
    lo: RuleModel,
    text: Seq<char>,
    m: (nat, nat, Seq<char>),
    mlo: (nat, nat, Seq<char>),
)
    requires
        hi.priority > lo.priority,
        regex_found(hi.pattern, text) == seq![m],
        regex_found(lo.pattern, text) == seq![mlo],
        mlo.0 == m.0,
        mlo.1 == m.1,
        m.0 < m.1,
    ensures
        sort_rules_desc(seq![lo, hi]) == seq![hi, lo],
        parse_line_model(seq![hi, lo], text) == seq![(hi.rule_type, m.2, m.0, m.1)],
{
    let none = Seq::<RuleModel>::empty();
    assert(seq![lo, hi].drop_last() =~= seq![lo]);
    assert(seq![lo].drop_last() =~= none);
    assert(sort_rules_desc(none) == none);
    assert(insert_rule_desc(none, lo) == seq![lo]);
    assert(sort_rules_desc(seq![lo]) == seq![lo]);
    assert(seq![lo, hi].last() == hi);
    assert(seq![lo].last() == lo);
    assert(lo.priority < hi.priority);
    assert(insert_rule_desc(seq![lo], hi) == insert_rule_desc(none, hi).push(lo));
    assert(insert_rule_desc(none, hi) == seq![hi]);
    assert(seq![hi].push(lo) =~= seq![hi, lo]);
    assert(sort_rules_desc(seq![lo, hi]) == seq![hi, lo]);

    let chi = (hi.rule_type, m.0, m.1, m.2);
    let clo = (lo.rule_type, mlo.0, mlo.1, mlo.2);
    let rules = seq![hi, lo];
    assert(rule_candidates(hi, text) =~= seq![chi]);
    assert(rule_candidates(lo, text) =~= seq![clo]);
    assert(rules[0] == hi);
    assert(rules.drop_first() =~= seq![lo]);
    assert(seq![lo][0] == lo);
    assert(seq![lo].drop_first() =~= none);
    let no_cands = Seq::<(Seq<char>, nat, nat, Seq<char>)>::empty();
    assert(all_candidates(none, text) == no_cands);
    assert(all_candidates(seq![lo], text) == rule_candidates(lo, text) + no_cands);
    assert(rule_candidates(lo, text) + no_cands =~= seq![clo]);
    assert(all_candidates(rules, text) == rule_candidates(hi, text) + seq![clo]);
    assert(rule_candidates(hi, text) + seq![clo] =~= seq![chi, clo]);

    let sp = (m.0, m.1);
    let no_spans = Seq::<(nat, nat)>::empty();
    assert(!overlaps_claimed(no_spans, sp));
    let cands = seq![chi, clo];
    assert(cands[0] == chi);
    assert(cands.drop_first() =~= seq![clo]);
    assert(seq![clo][0] == clo);
    assert(seq![clo].drop_first() =~= no_cands);
    assert(span_overlap(no_spans.push(sp)[0], sp));
    assert(overlaps_claimed(no_spans.push(sp), sp));
    let no_entries = Seq::<(Seq<char>, Seq<char>, nat, nat)>::empty();
    assert(claim_spans(no_cands, no_spans.push(sp)) == (no_entries, no_spans.push(sp)));
    assert(claim_spans(seq![clo], no_spans.push(sp)).0 == no_entries);
    let ehi = (hi.rule_type, m.2, m.0, m.1);
    assert(claim_spans(cands, no_spans).0 == seq![ehi] + no_entries);
    assert(seq![ehi] + no_entries =~= seq![ehi]);

    assert(seq![ehi].drop_last() =~= no_entries);
    assert(sort_entries_by_start(no_entries) == no_entries);
    assert(insert_entry_by_start(no_entries, ehi) == seq![ehi]);
    assert(sort_entries_by_start(seq![ehi]) == seq![ehi]);
}

/// Stable tie order: two rules of equal priority keep their insertion order
/// through the stable sort, and when each matches one span of a line and the
/// two spans do not overlap, both rules' entries appear in the parsed result.
pub proof fn lemma_stable_tie_both_kept(
    r1: RuleModel,
    r2: RuleModel,
    text: Seq<char>,
    m1: (nat, nat, Seq<char>),
    m2: (nat, nat, Seq<char>),
)
    requires
        r1.priority == r2.priority,
        regex_found(r1.pattern, text) == seq![m1],
        regex_found(r2.pattern, text) == seq![m2],
        !span_overlap((m1.0, m1.1), (m2.0, m2.1)),
    ensures
        sort_rules_desc(seq![r1, r2]) == seq![r1, r2],
        parse_line_model(seq![r1, r2], text).contains((r1.rule_type, m1.2, m1.0, m1.1)),
        parse_line_model(seq![r1, r2], text).contains((r2.rule_type, m2.2, m2.0, m2.1)),
{
    let none = Seq::<RuleModel>::empty();
    assert(seq![r1, r2].drop_last() =~= seq![r1]);
    assert(seq![r1].drop_last() =~= none);
    assert(sort_rules_desc(none) == none);
    assert(insert_rule_desc(none, r1) == seq![r1]);
    assert(sort_rules_desc(seq![r1]) == seq![r1]);
    assert(seq![r1, r2].last() == r2);
    assert(seq![r1].last() == r1);
    assert(insert_rule_desc(seq![r1], r2) == seq![r1].push(r2));
    assert(seq![r1].push(r2) =~= seq![r1, r2]);

    let c1 = (r1.rule_type, m1.0, m1.1, m1.2);
    let c2 = (r2.rule_type, m2.0, m2.1, m2.2);
    let rules = seq![r1, r2];
    assert(rule_candidates(r1, text) =~= seq![c1]);
    assert(rule_candidates(r2, text) =~= seq![c2]);
    assert(rules[0] == r1);
    assert(rules.drop_first() =~= seq![r2]);
    assert(seq![r2][0] == r2);
    assert(seq![r2].drop_first() =~= none);
    let no_cands = Seq::<(Seq<char>, nat, nat, Seq<char>)>::empty();
    assert(all_candidates(none, text) == no_cands);
    assert(all_candidates(seq![r2], text) == rule_candidates(r2, text) + no_cands);
    assert(rule_candidates(r2, text) + no_cands =~= seq![c2]);
    assert(all_candidates(rules, text) == rule_candidates(r1, text) + seq![c2]);
    assert(rule_candidates(r1, text) + seq![c2] =~= seq![c1, c2]);

    let sp1 = (m1.0, m1.1);
    let sp2 = (m2.0, m2.1);
    let no_spans = Seq::<(nat, nat)>::empty();
    assert(!overlaps_claimed(no_spans, sp1));
    let cands = seq![c1, c2];
    assert(cands[0] == c1);
    assert(cands.drop_first() =~= seq![c2]);
    assert(seq![c2][0] == c2);
    assert(seq![c2].drop_first() =~= no_cands);
    assert(!overlaps_claimed(no_spans.push(sp1), sp2)) by {
        if overlaps_claimed(no_spans.push(sp1), sp2) {
            let k = choose|k: int|
                0 <= k < no_spans.push(sp1).len() && span_overlap(no_spans.push(sp1)[k], sp2);
            assert(no_spans.push(sp1)[k] == sp1);
        }
    }
    let e1 = (r1.rule_type, m1.2, m1.0, m1.1);
    let e2 = (r2.rule_type, m2.2, m2.0, m2.1);
    let no_entries = Seq::<(Seq<char>, Seq<char>, nat, nat)>::empty();
    let two_spans = no_spans.push(sp1).push(sp2);
    assert(claim_spans(no_cands, two_spans) == (no_entries, two_spans));
    assert(claim_spans(seq![c2], no_spans.push(sp1)).0 == seq![e2] + no_entries);
    assert(seq![e2] + no_entries =~= seq![e2]);
    assert(claim_spans(cands, no_spans).0 == seq![e1] + seq![e2]);
    assert(seq![e1] + seq![e2] =~= seq![e1, e2]);

    assert(seq![e1, e2][0] == e1);
    assert(seq![e1, e2][1] == e2);
    assert(seq![e1, e2].contains(e1));
    assert(seq![e1, e2].contains(e2));
    lemma_sort_entries_contains(seq![e1, e2], e1);
    lemma_sort_entries_contains(seq![e1, e2], e2);
}

/// Stable-sorts result entries ascending by start offset.
fn sort_entries(input: Vec<(String, String, usize, usize)>) -> (out: Vec<
    (String, String, usize, usize),
>)
    ensures
        entry_views(out@) == sort_entries_by_start(entry_views(input@)),
{
    let ghost orig = entry_views(input@);
    let mut pending = input;
    let mut out: Vec<(String, String, usize, usize)> = Vec::new();
    proof {
        assert(orig.take(0) =~= Seq::<(Seq<char>, Seq<char>, nat, nat)>::empty());
        assert(entry_views(out@) =~= sort_entries_by_start(orig.take(0)));
        assert(entry_views(pending@) =~= orig.skip(0));
    }
    while pending.len() > 0
        invariant
            pending@.len() <= orig.len(),
            entry_views(out@) == sort_entries_by_start(orig.take(orig.len() - pending@.len())),
            entry_views(pending@) == orig.skip(orig.len() - pending@.len()),
        decreases pending.len(),
    {
        let ghost n = orig.len() - pending@.len();
        let ghost pvs = pending@;
        let x = pending.remove(0);
        proof {
            assert(entry_views(pvs)[0] == orig[n]);
            assert((x.0@, x.1@, x.2 as nat, x.3 as nat) == orig[n]);
            assert forall|t: int| 0 <= t < pending@.len() implies entry_views(pending@)[t]
                == orig.skip(n + 1)[t] by {
                assert(pending@[t] == pvs[t + 1]);
                assert(entry_views(pvs)[t + 1] == orig.skip(n)[t + 1]);
            }
            assert(entry_views(pending@) =~= orig.skip(n + 1));
        }
        let mut pos: usize = out.len();
        while pos > 0 && out[pos - 1].2 > x.2
            invariant
                pos <= out@.len(),
                forall|k: int| pos <= k < out@.len() ==> entry_views(out@)[k].2 > x.2 as nat,
            decreases pos,
        {
            proof {
                assert(entry_views(out@)[pos - 1].2 == out@[pos - 1].2 as nat);
            }
            pos = pos - 1;
        }
        let ghost before = entry_views(out@);
        let ghost xv = (x.0@, x.1@, x.2 as nat, x.3 as nat);
        proof {
            if pos > 0 {
                assert(before[pos - 1].2 == out@[pos - 1].2 as nat);
            }
            lemma_insert_entry_position(before, xv, pos as int);
        }
        let ghost ovs = out@;
        out.insert(pos, x);
        proof {
            assert forall|t: int| 0 <= t < out@.len() implies entry_views(out@)[t] == (before.take(
                pos as int,
            ) + seq![xv] + before.skip(pos as int))[t] by {
                if t < pos {
                    assert(out@[t] == ovs[t]);
                } else if t == pos {
                    assert(out@[t] == x);
                } else {
                    assert(out@[t] == ovs[t - 1]);
                }
            }
            assert(entry_views(out@) =~= before.take(pos as int) + seq![xv] + before.skip(
                pos as int,
            ));
            assert(orig.take(n + 1).drop_last() =~= orig.take(n));
            assert(orig.take(n + 1).last() == orig[n]);
        }
    }
    proof {
        assert(orig.take(orig.len() - pending@.len()) =~= orig);
    }
    out
}

} // verus!
