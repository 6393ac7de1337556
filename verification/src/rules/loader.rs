//! Reading rule files into a [`RuleSet`].
//!
//! A single malformed line must not take a sensor's entire detection capability
//! offline, so every failure is recorded with its file, line, and reason, and
//! loading continues.
//!
//! A missing rule *file*, by contrast, is reported as a skip against that file
//! rather than silently ignored: an operator who mistypes a path should not
//! discover it by noticing they have no alerts.

use std::collections::BTreeMap;
use vstd::prelude::*;
use crate::tally::{at_most, at_most_but, lemma_tally_bound, room_for, tallied, Tally};
use crate::text::{append, append_number, decimal, owned, texts};
use super::error::{error_text, lemma_every_error_says_why};
use super::lines::{clipped, logical_lines, logical_of, numbered, truncate};
use super::model::{Rule, RuleModel, RuleOrigin};
use super::parser::{law_unsupported_options_are_named_once, parse_rule, rule_of};

verus! {

/// What a skipped rule is.
pub struct SkippedModel {
    /// File the rule came from.
    pub file: Seq<char>,
    /// Line the rule started on, or 0 if the whole file failed.
    pub line: int,
    /// Why it was skipped.
    pub reason: Seq<char>,
    /// The offending text, cut down.
    pub raw: Seq<char>,
}

/// A rule that did not make it into the ruleset.
#[derive(Debug, Clone, PartialEq, Eq)]
pub struct SkippedRule {
    /// File the rule came from.
    pub file: String,
    /// 1-based line the rule started on, or 0 if the whole file failed.
    pub line: usize,
    /// Why it was skipped.
    pub reason: String,
    /// The offending text, truncated for logging.
    pub raw: String,
}

impl View for SkippedRule {
    type V = SkippedModel;

    open spec fn view(&self) -> SkippedModel {
        SkippedModel {
            file: self.file@,
            line: self.line as int,
            reason: self.reason@,
            raw: self.raw@,
        }
    }
}

/// The models of skipped rules.
pub open spec fn skipped_models(skipped: Seq<SkippedRule>) -> Seq<SkippedModel> {
    skipped.map_values(|rule: SkippedRule| rule@)
}

/// What a report says.
pub struct ReportModel {
    /// Files that were read.
    pub files: Seq<Seq<char>>,
    /// Rules parsed.
    pub loaded: nat,
    /// Of those, the evaluable ones.
    pub evaluable: nat,
    /// Rules that were skipped.
    pub skipped: Seq<SkippedModel>,
    /// How many rules used each option that is not evaluated.
    pub unsupported_options: Seq<(Seq<char>, nat)>,
}

impl ReportModel {
    /// A report with one more skipped rule.
    pub open spec fn skipping(
        self,
        file: Seq<char>,
        line: int,
        reason: Seq<char>,
        raw: Seq<char>,
    ) -> ReportModel {
        ReportModel {
            skipped: self.skipped.push(SkippedModel { file, line, reason, raw }),
            ..self
        }
    }

    /// A report that counts no more evaluable rules, and no option more often,
    /// than it has rules.
    pub open spec fn consistent(self) -> bool {
        &&& self.evaluable <= self.loaded
        &&& at_most(self.unsupported_options, self.loaded)
    }
}

/// What happened during a load.
#[derive(Debug, Clone, PartialEq, Eq)]
pub struct LoadReport {
    /// Files that were read successfully.
    pub files: Vec<String>,
    /// Rules parsed successfully.
    pub loaded: usize,
    /// Of those, how many this build can actually evaluate.
    pub evaluable: usize,
    /// Rules that could not be parsed, or were rejected as duplicates.
    pub skipped: Vec<SkippedRule>,
    /// Recognised-but-unimplemented option keywords, and how many rules used
    /// each. This is the coverage gap, quantified.
    pub unsupported_options: Tally,
}

impl View for LoadReport {
    type V = ReportModel;

    open spec fn view(&self) -> ReportModel {
        ReportModel {
            files: texts(self.files@),
            loaded: self.loaded as nat,
            evaluable: self.evaluable as nat,
            skipped: skipped_models(self.skipped@),
            unsupported_options: self.unsupported_options@,
        }
    }
}

/// Nothing loaded yet.
pub open spec fn empty_report() -> ReportModel {
    ReportModel {
        files: seq![],
        loaded: 0,
        evaluable: 0,
        skipped: seq![],
        unsupported_options: seq![],
    }
}

impl Default for LoadReport {
    fn default() -> (report: Self)
        ensures
            report@ == empty_report(),
    {
        let report = LoadReport {
            files: Vec::new(),
            loaded: 0,
            evaluable: 0,
            skipped: Vec::new(),
            unsupported_options: Tally::new(),
        };
        assert(report@.files =~= seq![]);
        assert(report@.skipped =~= seq![]);
        report
    }
}

/// The one-line summary of a report.
pub open spec fn summary_of(report: ReportModel) -> Seq<char> {
    decimal(report.loaded) + " rule(s) loaded from "@ + decimal(report.files.len()) + " file(s): "@
        + decimal(report.evaluable) + " evaluable, "@ + decimal(
        (report.loaded - report.evaluable) as nat,
    ) + " awaiting engine support, "@ + decimal(report.skipped.len()) + " skipped"@
}

impl LoadReport {
    /// Rules parsed but not evaluable by this build.
    pub fn non_evaluable(&self) -> (count: usize)
        requires
            self.evaluable <= self.loaded,
        ensures
            count == self.loaded - self.evaluable,
    {
        self.loaded - self.evaluable
    }

    /// A one-line summary for logs and statistics.
    pub fn summary(&self) -> (text: String)
        requires
            self.evaluable <= self.loaded,
        ensures
            text@ == summary_of(self@),
    {
        let mut text = String::new();
        assert(text@ + decimal(self.loaded as nat) =~= decimal(self.loaded as nat));
        append_number(&mut text, self.loaded as u64);
        append(&mut text, " rule(s) loaded from ");
        append_number(&mut text, self.files.len() as u64);
        append(&mut text, " file(s): ");
        append_number(&mut text, self.evaluable as u64);
        append(&mut text, " evaluable, ");
        append_number(&mut text, self.non_evaluable() as u64);
        append(&mut text, " awaiting engine support, ");
        append_number(&mut text, self.skipped.len() as u64);
        append(&mut text, " skipped");
        text
    }

    fn skip(&mut self, file: &str, line: usize, reason: String, raw: String)
        ensures
            final(self)@ == old(self)@.skipping(file@, line as int, reason@, raw@),
    {
        let ghost before = self.skipped@;
        let skipped = SkippedRule { file: owned(file), line, reason, raw };
        self.skipped.push(skipped);
        assert(skipped_models(self.skipped@) =~= skipped_models(before).push(skipped@));
    }
}

/// Where the first rule with an identifier stands.
pub open spec fn first_with(rules: Seq<RuleModel>, sid: u32) -> Option<int>
    decreases rules.len(),
{
    if rules.len() == 0 {
        None
    } else if first_with(rules.drop_last(), sid) is Some {
        first_with(rules.drop_last(), sid)
    } else if rules.last().sid == sid {
        Some(rules.len() - 1)
    } else {
        None
    }
}

proof fn lemma_first_with(rules: Seq<RuleModel>, sid: u32)
    ensures
        first_with(rules, sid) matches Some(i) ==> 0 <= i < rules.len() && rules[i].sid == sid,
        first_with(rules, sid) is None ==> forall|i: int|
            0 <= i < rules.len() ==> (#[trigger] rules[i]).sid != sid,
    decreases rules.len(),
{
    if rules.len() > 0 {
        lemma_first_with(rules.drop_last(), sid);
        if first_with(rules, sid) is None {
            assert forall|i: int| 0 <= i < rules.len() implies (#[trigger] rules[i]).sid != sid by {
                if i < rules.len() - 1 {
                    assert(rules.drop_last()[i].sid != sid);
                }
            }
        }
    }
}

/// Counts with one more for each of some names.
pub open spec fn tallied_all(counts: Seq<(Seq<char>, nat)>, names: Seq<Seq<char>>) -> Seq<
    (Seq<char>, nat),
>
    decreases names.len(),
{
    if names.len() == 0 {
        counts
    } else {
        tallied(tallied_all(counts, names.drop_last()), names.last())
    }
}

/// Counting different names raises no count by more than one, and leaves room
/// for the next name.
proof fn lemma_counts_stay(
    counts: Seq<(Seq<char>, nat)>,
    names: Seq<Seq<char>>,
    n: int,
    bound: nat,
)
    requires
        0 <= n <= names.len(),
        names.no_duplicates(),
        at_most(counts, bound),
        bound < usize::MAX,
    ensures
        at_most_but(tallied_all(counts, names.take(n)), names.take(n), bound),
        at_most(tallied_all(counts, names.take(n)), bound + 1),
        n < names.len() ==> room_for(tallied_all(counts, names.take(n)), names[n]),
    decreases n,
{
    let some = names.take(n);
    if n > 0 {
        lemma_counts_stay(counts, names, n - 1, bound);
        assert(some.drop_last() =~= names.take(n - 1));
        assert(!names.take(n - 1).contains(names[n - 1])) by {
            if names.take(n - 1).contains(names[n - 1]) {
                let k = choose|k: int|
                    0 <= k < n - 1 && #[trigger] names.take(n - 1)[k] == names[n - 1];
                assert(names[k] == names[n - 1]);
            }
        }
        lemma_tally_bound(
            tallied_all(counts, names.take(n - 1)),
            names.take(n - 1),
            names[n - 1],
            bound,
        );
        assert(names.take(n - 1).push(names[n - 1]) =~= some);
    }
    if n < names.len() {
        assert(!some.contains(names[n])) by {
            if some.contains(names[n]) {
                let k = choose|k: int| 0 <= k < n && some[k] == names[n];
                assert(names[k] == names[n]);
            }
        }
    }
}

/// Why a rule whose identifier is taken is skipped.
pub open spec fn duplicate_text(sid: u32, first: RuleModel) -> Seq<char> {
    "duplicate sid "@ + decimal(sid as nat) + " (already defined at "@ + first.location_text()
        + ")"@
}

/// The rules and the report after one more logical line of a file.
pub open spec fn loaded_line(
    rules: Seq<RuleModel>,
    report: ReportModel,
    file: Seq<char>,
    line: (int, Seq<char>),
) -> (Seq<RuleModel>, ReportModel) {
    match rule_of(line.1) {
        Err(error) => (
            rules,
            report.skipping(file, line.0, error_text(error), clipped(line.1)),
        ),
        Ok(rule) => match first_with(rules, rule.sid) {
            Some(i) => (
                rules,
                report.skipping(file, line.0, duplicate_text(rule.sid, rules[i]), clipped(line.1)),
            ),
            None => (
                rules.push(RuleModel { origin: Some((file, line.0)), ..rule }),
                ReportModel {
                    loaded: report.loaded + 1,
                    evaluable: if rule.evaluable() {
                        report.evaluable + 1
                    } else {
                        report.evaluable
                    },
                    unsupported_options: tallied_all(
                        report.unsupported_options,
                        rule.unsupported_options,
                    ),
                    ..report
                },
            ),
        },
    }
}

/// The rules and the report after the logical lines of a file.
pub open spec fn loaded_lines(
    rules: Seq<RuleModel>,
    report: ReportModel,
    file: Seq<char>,
    lines: Seq<(int, Seq<char>)>,
) -> (Seq<RuleModel>, ReportModel)
    decreases lines.len(),
{
    if lines.len() == 0 {
        (rules, report)
    } else {
        let (before, so_far) = loaded_lines(rules, report, file, lines.drop_last());
        loaded_line(before, so_far, file, lines.last())
    }
}

/// A rule file as it was read: its path, and its text or why it has none.
pub struct RuleFile {
    /// The file's path.
    pub path: String,
    /// What was read, or the error that reading gave.
    pub text: Result<String, String>,
}

/// The rules and the report after the first so many files.
pub open spec fn loaded_files(files: Seq<RuleFile>, n: int) -> (Seq<RuleModel>, ReportModel)
    decreases n,
{
    if n <= 0 {
        (seq![], empty_report())
    } else {
        let (rules, report) = loaded_files(files, n - 1);
        let file = files[n - 1];
        match file.text {
            Ok(text) => loaded_lines(
                rules,
                ReportModel { files: report.files.push(file.path@), ..report },
                file.path@,
                logical_of(text@),
            ),
            Err(error) => (
                rules,
                report.skipping(file.path@, 0, "could not read rule file: "@ + error@, seq![]),
            ),
        }
    }
}

/// The models of rules.
pub open spec fn rule_models(rules: Seq<Rule>) -> Seq<RuleModel> {
    rules.map_values(|rule: Rule| rule@)
}

/// The models of rules that are lent.
pub open spec fn lent_models(rules: Seq<&Rule>) -> Seq<RuleModel> {
    rules.map_values(|rule: &Rule| rule@)
}

/// The loaded rules.
#[derive(Debug, Clone)]
pub struct RuleSet {
    rules: Vec<Rule>,
    by_sid: BTreeMap<u32, usize>,
}

impl View for RuleSet {
    type V = Seq<RuleModel>;

    closed spec fn view(&self) -> Seq<RuleModel> {
        rule_models(self.rules@)
    }
}

impl Default for RuleSet {
    fn default() -> (set: Self)
        ensures
            set.well_formed(),
            set@ == Seq::<RuleModel>::empty(),
    {
        Self::new()
    }
}

impl RuleSet {
    /// The index knows each rule by its identifier, and nothing else.
    pub closed spec fn well_formed(&self) -> bool {
        &&& forall|sid: u32| #[trigger]
            self.by_sid@.contains_key(sid) ==> 0 <= self.by_sid@[sid] < self@.len()
                && self@[self.by_sid@[sid] as int].sid == sid
        &&& forall|i: int|
            0 <= i < self@.len() ==> self.by_sid@.contains_key((#[trigger] self@[i]).sid)
                && self.by_sid@[self@[i].sid] == i
    }

    /// An empty ruleset.
    pub fn new() -> (set: Self)
        ensures
            set.well_formed(),
            set@ == Seq::<RuleModel>::empty(),
    {
        let set = Self { rules: Vec::new(), by_sid: BTreeMap::new() };
        assert(set@ =~= Seq::<RuleModel>::empty());
        set
    }

    /// Every loaded rule, in load order.
    pub fn rules(&self) -> (rules: &[Rule])
        ensures
            rule_models(rules@) == self@,
    {
        self.rules.as_slice()
    }

    /// Number of loaded rules.
    pub fn len(&self) -> (count: usize)
        ensures
            count == self@.len(),
    {
        self.rules.len()
    }

    /// Whether the ruleset is empty.
    pub fn is_empty(&self) -> (empty: bool)
        ensures
            empty == (self@.len() == 0),
    {
        self.rules.len() == 0
    }

    fn place(&self, sid: u32) -> (place: Option<usize>)
        requires
            self.well_formed(),
        ensures
            match place {
                Some(i) => first_with(self@, sid) == Some(i as int) && i < self.rules@.len(),
                None => first_with(self@, sid) is None,
            },
    {
        broadcast use vstd::std_specs::btree::group_btree_axioms;

        proof {
            lemma_first_with(self@, sid);
        }
        match self.by_sid.get(&sid) {
            Some(i) => {
                assert(self@[*i as int].sid == sid);
                Some(*i)
            },
            None => None,
        }
    }

    /// Look a rule up by signature id.
    pub fn get(&self, sid: u32) -> (rule: Option<&Rule>)
        requires
            self.well_formed(),
        ensures
            match rule {
                Some(rule) => first_with(self@, sid) is Some && rule@ == self@[first_with(
                    self@,
                    sid,
                )->0],
                None => first_with(self@, sid) is None,
            },
    {
        match self.place(sid) {
            Some(i) => Some(&self.rules[i]),
            None => None,
        }
    }

    /// Rules this build can evaluate.
    ///
    /// **An engine must walk these, not [`RuleSet::rules`].**
    pub fn evaluable(&self) -> (live: Vec<&Rule>)
        ensures
            lent_models(live@) == self@.filter(|rule: RuleModel| rule.evaluable()),
    {
        let ghost models = self@;
        let ghost keep = |rule: RuleModel| rule.evaluable();
        let mut live: Vec<&Rule> = Vec::new();
        let mut i: usize = 0;
        assert(lent_models(live@) =~= models.take(0).filter(keep)) by {
            reveal(Seq::filter);
        }
        while i < self.rules.len()
            invariant
                models == self@,
                keep == (|rule: RuleModel| rule.evaluable()),
                i <= models.len(),
                lent_models(live@) == models.take(i as int).filter(keep),
            decreases models.len() - i,
        {
            let rule = &self.rules[i];
            let ghost before = live@;
            proof {
                assert(models[i as int] == rule@);
                reveal(Seq::filter);
                assert(models.take(i + 1).drop_last() =~= models.take(i as int));
            }
            if rule.is_evaluable() {
                live.push(rule);
                assert(lent_models(live@) =~= lent_models(before).push(rule@));
            }
            i = i + 1;
        }
        assert(models.take(i as int) =~= models);
        live
    }

    /// Load every file, in order.
    ///
    /// Never fails: unreadable files and unparseable rules land in
    /// [`LoadReport::skipped`].
    pub fn load_files(files: &[RuleFile]) -> (loaded: (Self, LoadReport))
        ensures
            loaded.0.well_formed(),
            (loaded.0@, loaded.1@) == loaded_files(files@, files@.len() as int),
            loaded.1@.consistent(),
            loaded.1.loaded == loaded.0@.len(),
    {
        let mut set = Self::new();
        let mut report = LoadReport::default();
        let mut i: usize = 0;
        while i < files.len()
            invariant
                i <= files@.len(),
                set.well_formed(),
                (set@, report@) == loaded_files(files@, i as int),
                report@.consistent(),
                report.loaded == set@.len(),
            decreases files@.len() - i,
        {
            let file = &files[i];
            match &file.text {
                Ok(text) => {
                    let ghost before = report.files@;
                    report.files.push(owned(file.path.as_str()));
                    assert(texts(report.files@) =~= texts(before).push(file.path@));
                    set.load_text(text.as_str(), file.path.as_str(), &mut report);
                },
                Err(error) => {
                    let mut reason = owned("could not read rule file: ");
                    append(&mut reason, error.as_str());
                    let raw = String::new();
                    assert(raw@ =~= seq![]);
                    report.skip(file.path.as_str(), 0, reason, raw);
                },
            }
            i = i + 1;
        }
        (set, report)
    }

    /// Load rules from a string, attributing them to `file`.
    pub fn load_text(&mut self, text: &str, file: &str, report: &mut LoadReport)
        requires
            old(self).well_formed(),
            old(report)@.consistent(),
            old(report).loaded <= old(self)@.len() || old(report).loaded + logical_of(text@).len()
                <= usize::MAX,
        ensures
            final(self).well_formed(),
            (final(self)@, final(report)@) == loaded_lines(
                old(self)@,
                old(report)@,
                file@,
                logical_of(text@),
            ),
            final(report)@.consistent(),
            final(report).loaded - old(report).loaded == final(self)@.len() - old(self)@.len(),
    {
        let lines = logical_lines(text);
        let ghost all = logical_of(text@);
        let mut i: usize = 0;
        while i < lines.len()
            invariant
                all == logical_of(text@),
                all == numbered(lines@),
                i <= all.len(),
                self.well_formed(),
                (self@, report@) == loaded_lines(
                    old(self)@,
                    old(report)@,
                    file@,
                    all.take(i as int),
                ),
                report@.consistent(),
                report.loaded - old(report).loaded == self@.len() - old(self)@.len(),
                report.loaded - old(report).loaded <= i,
                old(report).loaded <= old(self)@.len() || old(report).loaded + all.len()
                    <= usize::MAX,
            decreases all.len() - i,
        {
            assert(all[i as int] == (lines@[i as int].0 as int, lines@[i as int].1@));
            assert(all.take(i + 1).drop_last() =~= all.take(i as int));
            self.load_line(lines[i].0, lines[i].1.as_str(), file, report);
            i = i + 1;
        }
        assert(all.take(i as int) =~= all);
    }

    fn load_line(&mut self, line: usize, raw: &str, file: &str, report: &mut LoadReport)
        requires
            old(self).well_formed(),
            old(report)@.consistent(),
            old(report).loaded <= old(self)@.len() || old(report).loaded < usize::MAX,
        ensures
            final(self).well_formed(),
            (final(self)@, final(report)@) == loaded_line(
                old(self)@,
                old(report)@,
                file@,
                (line as int, raw@),
            ),
            final(report)@.consistent(),
            final(report).loaded - old(report).loaded == final(self)@.len() - old(self)@.len(),
            final(report).loaded - old(report).loaded <= 1,
    {
        match parse_rule(raw) {
            Err(error) => {
                report.skip(file, line, error.to_text(), truncate(raw));
            },
            Ok(rule) => match self.place(rule.sid) {
                Some(place) => {
                    let first = &self.rules[place];
                    let mut reason = owned("duplicate sid ");
                    append_number(&mut reason, rule.sid as u64);
                    append(&mut reason, " (already defined at ");
                    let location = first.location();
                    append(&mut reason, location.as_str());
                    append(&mut reason, ")");
                    report.skip(file, line, reason, truncate(raw));
                },
                None => {
                    proof {
                        law_unsupported_options_are_named_once(raw@);
                    }
                    self.take(rule, RuleOrigin::new(file, line), report);
                },
            },
        }
    }

    /// Take in a rule whose identifier is new.
    fn take(&mut self, rule: Rule, origin: RuleOrigin, report: &mut LoadReport)
        requires
            old(self).well_formed(),
            first_with(old(self)@, rule.sid) is None,
            rule@.unsupported_options.no_duplicates(),
            old(report)@.consistent(),
            old(report).loaded <= old(self)@.len() || old(report).loaded < usize::MAX,
        ensures
            final(self).well_formed(),
            final(self)@ == old(self)@.push(RuleModel { origin: Some(origin@), ..rule@ }),
            final(report)@ == (ReportModel {
                loaded: old(report)@.loaded + 1,
                evaluable: if rule@.evaluable() {
                    old(report)@.evaluable + 1
                } else {
                    old(report)@.evaluable
                },
                unsupported_options: tallied_all(
                    old(report)@.unsupported_options,
                    rule@.unsupported_options,
                ),
                ..old(report)@
            }),
            final(report)@.consistent(),
    {
        broadcast use vstd::std_specs::btree::group_btree_axioms;

        let ghost before = self@;
        let ghost held = report@;
        let ghost named = rule@.unsupported_options;
        proof {
            lemma_first_with(before, rule.sid);
        }
        let sid: u32 = rule.sid;
        let live = rule.is_evaluable();
        let ghost model = RuleModel { origin: Some(origin@), ..rule@ };
        let place: usize = self.rules.len();
        let mut rule = rule;
        rule.origin = Some(origin);
        self.rules.push(rule);
        let _ = self.by_sid.insert(sid, place);
        assert(self@ =~= before.push(model));
        assert(self.rules.len() == place + 1);
        assert(self.well_formed());
        let last = &self.rules[place];
        assert(last@ == model);
        let mut i: usize = 0;
        while i < last.unsupported_options.len()
            invariant
                named == texts(last.unsupported_options@),
                i <= named.len(),
                named.no_duplicates(),
                held.consistent(),
                held.loaded < usize::MAX,
                *report == (LoadReport {
                    unsupported_options: report.unsupported_options,
                    ..*old(report)
                }),
                held == old(report)@,
                report.unsupported_options@ == tallied_all(
                    held.unsupported_options,
                    named.take(i as int),
                ),
            decreases named.len() - i,
        {
            assert(named[i as int] == last.unsupported_options@[i as int]@);
            assert(named.take(i + 1).drop_last() =~= named.take(i as int));
            proof {
                lemma_counts_stay(held.unsupported_options, named, i as int, held.loaded);
            }
            report.unsupported_options.count(last.unsupported_options[i].as_str());
            i = i + 1;
        }
        assert(named.take(i as int) =~= named);
        proof {
            lemma_counts_stay(held.unsupported_options, named, i as int, held.loaded);
        }
        report.loaded = report.loaded + 1;
        if live {
            report.evaluable = report.evaluable + 1;
        }
    }
}

// ---------------------------------------------------------------------------
// laws
// ---------------------------------------------------------------------------

/// How many of some rules are evaluable.
pub open spec fn live_count(rules: Seq<RuleModel>) -> nat
    decreases rules.len(),
{
    if rules.len() == 0 {
        0
    } else if rules.last().evaluable() {
        live_count(rules.drop_last()) + 1
    } else {
        live_count(rules.drop_last())
    }
}

/// Whether a logical line starts on a line.
pub open spec fn is_line_of(lines: Seq<(int, Seq<char>)>, line: int) -> bool {
    exists|k: int| 0 <= k < lines.len() && (#[trigger] lines[k]).0 == line
}

/// A skip is never silent: the skips that were there stay as they were, and each new one
/// names the file, a line that a rule of it starts on, and a reason.
pub proof fn law_skips_say_where_and_why(
    rules: Seq<RuleModel>,
    report: ReportModel,
    file: Seq<char>,
    lines: Seq<(int, Seq<char>)>,
)
    ensures
        ({
            let told = loaded_lines(rules, report, file, lines).1;
            &&& told.skipped.len() >= report.skipped.len()
            &&& told.skipped.take(report.skipped.len() as int) == report.skipped
            &&& forall|i: int|
                report.skipped.len() <= i < told.skipped.len() ==> {
                    &&& (#[trigger] told.skipped[i]).file == file
                    &&& told.skipped[i].reason.len() > 0
                    &&& is_line_of(lines, told.skipped[i].line)
                }
        }),
    decreases lines.len(),
{
    let told = loaded_lines(rules, report, file, lines).1;
    if lines.len() == 0 {
        assert(report.skipped.take(report.skipped.len() as int) =~= report.skipped);
    } else {
        let init = lines.drop_last();
        law_skips_say_where_and_why(rules, report, file, init);
        let so_far = loaded_lines(rules, report, file, init).1;
        let last = lines[lines.len() - 1];
        reveal_strlit("duplicate sid ");
        if let Err(error) = rule_of(last.1) {
            lemma_every_error_says_why(error);
        }
        assert(told.skipped.take(report.skipped.len() as int) =~= so_far.skipped.take(
            report.skipped.len() as int,
        ));
        assert forall|i: int| report.skipped.len() <= i < told.skipped.len() implies {
            &&& (#[trigger] told.skipped[i]).file == file
            &&& told.skipped[i].reason.len() > 0
            &&& is_line_of(lines, told.skipped[i].line)
        } by {
            if i < so_far.skipped.len() {
                assert(told.skipped[i] == so_far.skipped[i]);
                let k = choose|k: int|
                    0 <= k < init.len() && (#[trigger] init[k]).0 == so_far.skipped[i].line;
                assert(lines[k].0 == told.skipped[i].line);
            } else {
                assert(told.skipped[i].line == last.0);
            }
        }
    }
}

/// No bad rule stops a load, and none is dropped in silence: every logical line
/// is either loaded or skipped, the rules that were there stay, and the report
/// counts exactly the rules that came in and those of them that are evaluable.
pub proof fn law_every_line_is_accounted_for(
    rules: Seq<RuleModel>,
    report: ReportModel,
    file: Seq<char>,
    lines: Seq<(int, Seq<char>)>,
)
    ensures
        ({
            let (after, told) = loaded_lines(rules, report, file, lines);
            &&& told.loaded + told.skipped.len() == report.loaded + report.skipped.len()
                + lines.len()
            &&& after.len() - rules.len() == told.loaded - report.loaded
            &&& after.len() >= rules.len()
            &&& after.take(rules.len() as int) == rules
            &&& live_count(after) - live_count(rules) == told.evaluable - report.evaluable
            &&& told.files == report.files
        }),
    decreases lines.len(),
{
    let (after, told) = loaded_lines(rules, report, file, lines);
    if lines.len() == 0 {
        assert(rules.take(rules.len() as int) =~= rules);
    } else {
        law_every_line_is_accounted_for(rules, report, file, lines.drop_last());
        let (before, so_far) = loaded_lines(rules, report, file, lines.drop_last());
        if after != before {
            assert(after.drop_last() =~= before);
            assert(after.take(rules.len() as int) =~= before.take(rules.len() as int));
        }
    }
}

/// Whether no two rules share an identifier.
pub open spec fn distinct_sids(rules: Seq<RuleModel>) -> bool {
    forall|i: int, j: int|
        0 <= i < j < rules.len() ==> (#[trigger] rules[i]).sid != (#[trigger] rules[j]).sid
}

/// The first definition of an identifier wins: a load gives no identifier to a
/// second rule, and a rule that could be looked up before stays where it was.
pub proof fn law_the_first_definition_wins(
    rules: Seq<RuleModel>,
    report: ReportModel,
    file: Seq<char>,
    lines: Seq<(int, Seq<char>)>,
    sid: u32,
)
    requires
        distinct_sids(rules),
    ensures
        distinct_sids(loaded_lines(rules, report, file, lines).0),
        first_with(rules, sid) is Some ==> first_with(
            loaded_lines(rules, report, file, lines).0,
            sid,
        ) == first_with(rules, sid),
    decreases lines.len(),
{
    if lines.len() > 0 {
        law_the_first_definition_wins(rules, report, file, lines.drop_last(), sid);
        let before = loaded_lines(rules, report, file, lines.drop_last()).0;
        let after = loaded_lines(rules, report, file, lines).0;
        if after != before {
            assert(after.drop_last() =~= before);
            lemma_first_with(before, after.last().sid);
            assert forall|i: int, j: int| 0 <= i < j < after.len() implies (
            #[trigger] after[i]).sid != (#[trigger] after[j]).sid by {
                assert(after[i] == before[i]);
                if j < before.len() {
                    assert(after[j] == before[j]);
                }
            }
        }
    }
}

/// The first rule with an identifier is one with it, and none before it has it.
pub proof fn law_the_first_with_an_identifier(rules: Seq<RuleModel>, sid: u32)
    ensures
        first_with(rules, sid) matches Some(i) ==> 0 <= i < rules.len() && rules[i].sid == sid
            && forall|j: int| 0 <= j < i ==> (#[trigger] rules[j]).sid != sid,
        first_with(rules, sid) is None <==> forall|j: int|
            0 <= j < rules.len() ==> (#[trigger] rules[j]).sid != sid,
    decreases rules.len(),
{
    if rules.len() > 0 {
        let init = rules.drop_last();
        law_the_first_with_an_identifier(init, sid);
        assert forall|j: int| 0 <= j < init.len() implies #[trigger] rules[j] == init[j] by {}
        if first_with(rules, sid) is None {
            assert forall|j: int| 0 <= j < rules.len() implies (#[trigger] rules[j]).sid != sid by {
                if j < init.len() {
                    assert(init[j].sid != sid);
                }
            }
        }
    }
}

/// A line that is a rule with a new identifier adds that rule, with its file and line, and
/// counts it, as evaluable where the engine can evaluate it. Any other line adds no
/// rule and is reported with its text.
pub proof fn law_a_line_adds_its_rule_or_is_reported(
    rules: Seq<RuleModel>,
    report: ReportModel,
    file: Seq<char>,
    line: (int, Seq<char>),
)
    ensures
        ({
            let (after, told) = loaded_line(rules, report, file, line);
            let fresh = rule_of(line.1) is Ok && forall|j: int|
                0 <= j < rules.len() ==> (#[trigger] rules[j]).sid != rule_of(line.1)->Ok_0.sid;
            &&& fresh ==> {
                let rule = rule_of(line.1)->Ok_0;
                &&& after.len() == rules.len() + 1
                &&& after.take(rules.len() as int) == rules
                &&& after.last().sid == rule.sid
                &&& after.last().header == rule.header
                &&& after.last().origin == Some((file, line.0))
                &&& told.loaded == report.loaded + 1
                &&& told.evaluable == report.evaluable + if rule.evaluable() {
                    1nat
                } else {
                    0nat
                }
                &&& told.skipped == report.skipped
            }
            &&& !fresh ==> {
                &&& after == rules
                &&& told.loaded == report.loaded
                &&& told.evaluable == report.evaluable
                &&& told.skipped.len() == report.skipped.len() + 1
                &&& told.skipped.last().file == file
                &&& told.skipped.last().line == line.0
                &&& told.skipped.last().raw == clipped(line.1)
            }
            &&& told.files == report.files
        }),
{
    if let Ok(rule) = rule_of(line.1) {
        law_the_first_with_an_identifier(rules, rule.sid);
        let (after, told) = loaded_line(rules, report, file, line);
        if first_with(rules, rule.sid) is None {
            assert(after.take(rules.len() as int) =~= rules);
        }
    }
}

/// A file that cannot be read adds no rule and is reported under line zero; one that can
/// be read is counted and adds its lines.
pub proof fn law_an_unreadable_file_is_reported(files: Seq<RuleFile>, n: int)
    requires
        0 < n <= files.len(),
    ensures
        ({
            let before = loaded_files(files, n - 1);
            let after = loaded_files(files, n);
            &&& files[n - 1].text is Err ==> {
                &&& after.0 == before.0
                &&& after.1.files == before.1.files
                &&& after.1.loaded == before.1.loaded
                &&& after.1.skipped.len() == before.1.skipped.len() + 1
                &&& after.1.skipped.last().line == 0
                &&& after.1.skipped.last().file == files[n - 1].path@
            }
            &&& files[n - 1].text is Ok ==> {
                &&& after.0 == loaded_lines(
                    before.0,
                    before.1,
                    files[n - 1].path@,
                    logical_of(files[n - 1].text->Ok_0@),
                ).0
                &&& after.1.files == before.1.files.push(files[n - 1].path@)
            }
        }),
{
    if let Ok(text) = files[n - 1].text {
        let before = loaded_files(files, n - 1);
        let path = files[n - 1].path@;
        lemma_files_do_not_matter(
            before.0,
            before.1,
            ReportModel { files: before.1.files.push(path), ..before.1 },
            path,
            logical_of(text@),
        );
    }
}

proof fn lemma_files_do_not_matter(
    rules: Seq<RuleModel>,
    one: ReportModel,
    other: ReportModel,
    file: Seq<char>,
    lines: Seq<(int, Seq<char>)>,
)
    ensures
        loaded_lines(rules, one, file, lines).0 == loaded_lines(rules, other, file, lines).0,
        loaded_lines(rules, other, file, lines).1.files == other.files,
    decreases lines.len(),
{
    if lines.len() > 0 {
        lemma_files_do_not_matter(rules, one, other, file, lines.drop_last());
    }
}

/// Every unsupported option of a rule is tallied once.
pub proof fn law_unsupported_options_are_tallied(
    counts: Seq<(Seq<char>, nat)>,
    names: Seq<Seq<char>>,
    name: Seq<char>,
)
    ensures
        tallied_all(counts, seq![]) == counts,
        tallied_all(counts, names.push(name)) == tallied(tallied_all(counts, names), name),
{
    assert(names.push(name).drop_last() =~= names);
}

} // verus!
