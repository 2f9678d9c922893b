//! What opening a store did about the schema: which components migrated,
//! which were already current, which failed, and where the stored shape has
//! drifted from the declared one without a version bump.
use crate::errors::{StorageError, storage_error_text};
use crate::meta::StoredFieldEntry;
use crate::path::{joined, strings_view};
use crate::text::{decimal, decimal_spec};
use vstd::prelude::*;

verus! {

/// How the stored and declared shapes of a prefix differ.
pub struct SchemaDiff {
    pub added: Vec<StoredFieldEntry>,
    pub removed: Vec<StoredFieldEntry>,
    pub type_changed: Vec<FieldTypeChange>,
}

/// A path whose declared type is not the stored one.
pub struct FieldTypeChange {
    pub name: String,
    pub old_type: String,
    pub new_type: String,
}

/// A prefix whose shape changed without its version changing.
pub struct NaggingRecord {
    pub prefix: String,
    pub old_hash: u32,
    pub new_hash: u32,
    pub diff: Option<SchemaDiff>,
}

/// One migration step that ran.
pub struct AppliedStep {
    pub prefix: String,
    pub target_version: u32,
    pub description: Option<String>,
    pub applied_at: u64,
}

/// Every component the opening looked at.
pub struct MigrationReport {
    pub components: Vec<ComponentResult>,
}

/// One group of prefixes migrated together.
pub struct ComponentResult {
    pub prefixes: Vec<String>,
    pub outcome: ComponentOutcome,
    pub nagging: Vec<NaggingRecord>,
}

/// What became of one component.
pub enum ComponentOutcome {
    Committed { steps: Vec<AppliedStep> },
    Skipped,
    Failed { error: StorageError },
}

/// How loud a report line is.
#[derive(Debug, Clone, Copy, PartialEq, Eq, Structural)]
pub enum LogLevel {
    Debug,
    Info,
    Warn,
    Error,
}

/// One line of a report, and how loud it is.
pub struct LogLine {
    pub level: LogLevel,
    pub text: String,
}

/// A report line as plain values.
pub open spec fn line_view(l: LogLine) -> (LogLevel, Seq<char>) {
    (l.level, l.text@)
}

/// Report lines as plain values.
pub open spec fn lines_view(v: Seq<LogLine>) -> Seq<(LogLevel, Seq<char>)> {
    Seq::new(v.len(), |i: int| line_view(v[i]))
}

/// How a list of names is spelled for a person: the debug rendering std
/// gives a list of strings.
pub uninterp spec fn debug_spelling(items: Seq<Seq<char>>) -> Seq<char>;

/// std's debug rendering of a list of strings, `["a", "b"]`.
#[verifier::external_body]
fn debug_list(items: &Vec<String>) -> (r: String)
    ensures
        r@ == debug_spelling(strings_view(items@)),
{
    format!("{:?}", items)
}

/// Whether a component failed.
pub open spec fn failed(c: ComponentResult) -> bool {
    c.outcome is Failed
}

/// The lines a piece of drift is reported with.
pub open spec fn diff_lines(d: SchemaDiff) -> Seq<(LogLevel, Seq<char>)> {
    Seq::new(
        d.added@.len(),
        |i: int|
            (
                LogLevel::Warn,
                "  + field '"@ + joined(d.added@[i].name@) + "': "@ + d.added@[i].value_type@,
            ),
    ) + Seq::new(
        d.removed@.len(),
        |i: int|
            (
                LogLevel::Warn,
                "  - field '"@ + joined(d.removed@[i].name@)
                    + "' (exists in DB, missing in code)"@,
            ),
    ) + Seq::new(
        d.type_changed@.len(),
        |i: int|
            (
                LogLevel::Warn,
                "  ~ field '"@ + d.type_changed@[i].name@ + "': "@ + d.type_changed@[i].old_type@
                    + " -> "@ + d.type_changed@[i].new_type@,
            ),
    )
}

/// The closing advice on drift.
pub open spec fn suggestion() -> Seq<char> {
    "  Suggestion: increment version and write a migration if these changes are intentional."@
}

/// The lines one piece of drift is reported with.
pub open spec fn nag_lines(n: NaggingRecord) -> Seq<(LogLevel, Seq<char>)> {
    seq![(LogLevel::Warn, "⚠️  Schema drift detected in prefix '"@ + n.prefix@ + "'"@)] + match n.diff {
        Some(d) => diff_lines(d),
        None => Seq::empty(),
    } + seq![(LogLevel::Warn, suggestion())]
}

/// The lines of every piece of drift in `v`, in order.
pub open spec fn nags_lines(v: Seq<NaggingRecord>) -> Seq<(LogLevel, Seq<char>)>
    decreases v.len(),
{
    if v.len() == 0 {
        Seq::empty()
    } else {
        nags_lines(v.drop_last()) + nag_lines(v.last())
    }
}

/// The line one applied step is reported with.
pub open spec fn step_line(s: AppliedStep) -> (LogLevel, Seq<char>) {
    (
        LogLevel::Info,
        "✅ Applied: "@ + s.prefix@ + " v"@ + decimal_spec(s.target_version as nat) + " ("@
            + match s.description {
            Some(d) => d@,
            None => "no description"@,
        } + ")"@,
    )
}

/// The lines a component's outcome is reported with.
pub open spec fn outcome_lines(c: ComponentResult) -> Seq<(LogLevel, Seq<char>)> {
    match c.outcome {
        ComponentOutcome::Committed { steps } => Seq::new(steps@.len(), |i: int| step_line(steps@[i])),
        ComponentOutcome::Failed { error } => seq![
            (
                LogLevel::Error,
                "❌ Component "@ + debug_spelling(strings_view(c.prefixes@)) + " failed: "@
                    + storage_error_text(error),
            ),
            (
                LogLevel::Error,
                "   Transaction rolled back. Data for these prefixes remains unchanged."@,
            ),
        ],
        ComponentOutcome::Skipped => seq![
            (
                LogLevel::Debug,
                "⏩ Component "@ + debug_spelling(strings_view(c.prefixes@)) + " is up to date"@,
            ),
        ],
    }
}

/// The lines a whole report is logged as: for each component, its drift and
/// then its outcome.
pub open spec fn report_lines(v: Seq<ComponentResult>) -> Seq<(LogLevel, Seq<char>)>
    decreases v.len(),
{
    if v.len() == 0 {
        Seq::empty()
    } else {
        report_lines(v.drop_last()) + nags_lines(v.last().nagging@) + outcome_lines(v.last())
    }
}

/// `a` then `b` then `c`, as one string.
fn three(a: &str, b: &str, c: &str) -> (r: String)
    ensures
        r@ == a@ + b@ + c@,
{
    let mut out = crate::text::concat(a, b);
    out.append(c);
    out
}

fn push_line(out: &mut Vec<LogLine>, level: LogLevel, text: String)
    ensures
        lines_view(final(out)@) == lines_view(old(out)@).push((level, text@)),
{
    let ghost before = out@;
    out.push(LogLine { level, text });
    proof {
        assert(lines_view(out@) =~= lines_view(before).push((level, text@)));
    }
}

/// Appends the lines one piece of drift is reported with.
fn push_nag(out: &mut Vec<LogLine>, nag: &NaggingRecord)
    ensures
        lines_view(final(out)@) == lines_view(old(out)@) + nag_lines(*nag),
{
    let ghost start = lines_view(out@);
    let first = three("⚠️  Schema drift detected in prefix '", nag.prefix.as_str(), "'");
    push_line(out, LogLevel::Warn, first);
    let ghost head = lines_view(out@);
    match &nag.diff {
        Some(d) => {
            let mut i: usize = 0;
            while i < d.added.len()
                invariant
                    i <= d.added@.len(),
                    lines_view(out@) == head + diff_lines(*d).take(i as int),
                decreases d.added@.len() - i,
            {
                let f = &d.added[i];
                let mut t = three("  + field '", f.name.as_string().as_str(), "': ");
                t.append(f.value_type.as_str());
                let ghost before = lines_view(out@);
                push_line(out, LogLevel::Warn, t);
                proof {
                    assert(diff_lines(*d).take(i + 1) =~= diff_lines(*d).take(i as int).push(diff_lines(*d)[i as int]));
                }
                i = i + 1;
            }
            let na = d.added.len();
            let mut i: usize = 0;
            while i < d.removed.len()
                invariant
                    na == d.added@.len(),
                    i <= d.removed@.len(),
                    lines_view(out@) == head + diff_lines(*d).take(na + i),
                decreases d.removed@.len() - i,
            {
                let f = &d.removed[i];
                let t = three("  - field '", f.name.as_string().as_str(), "' (exists in DB, missing in code)");
                push_line(out, LogLevel::Warn, t);
                proof {
                    assert(diff_lines(*d).take(na + i + 1) =~= diff_lines(*d).take(na + i).push(diff_lines(*d)[na + i]));
                }
                i = i + 1;
            }
            let nr = d.removed.len();
            let mut i: usize = 0;
            while i < d.type_changed.len()
                invariant
                    na == d.added@.len(),
                    nr == d.removed@.len(),
                    i <= d.type_changed@.len(),
                    lines_view(out@) == head + diff_lines(*d).take(na + nr + i),
                decreases d.type_changed@.len() - i,
            {
                let c = &d.type_changed[i];
                let mut t = three("  ~ field '", c.name.as_str(), "': ");
                t.append(c.old_type.as_str());
                t.append(" -> ");
                t.append(c.new_type.as_str());
                push_line(out, LogLevel::Warn, t);
                proof {
                    assert(diff_lines(*d).take(na + nr + i + 1) =~= diff_lines(*d).take(na + nr + i).push(diff_lines(*d)[na + nr + i]));
                }
                i = i + 1;
            }
            proof {
                assert(diff_lines(*d).take(na + nr + i) =~= diff_lines(*d));
            }
        },
        None => {
            proof {
                assert(head + Seq::<(LogLevel, Seq<char>)>::empty() =~= head);
            }
        },
    }
    push_line(
        out,
        LogLevel::Warn,
        crate::text::owned(
            "  Suggestion: increment version and write a migration if these changes are intentional.",
        ),
    );
    proof {
        assert(lines_view(out@) =~= start + nag_lines(*nag));
    }
}

/// Appends the lines a component's outcome is reported with.
fn push_outcome(out: &mut Vec<LogLine>, comp: &ComponentResult)
    ensures
        lines_view(final(out)@) == lines_view(old(out)@) + outcome_lines(*comp),
{
    let ghost start = lines_view(out@);
    match &comp.outcome {
        ComponentOutcome::Committed { steps } => {
            let mut i: usize = 0;
            while i < steps.len()
                invariant
                    i <= steps@.len(),
                    comp.outcome == (ComponentOutcome::Committed { steps: *steps }),
                    lines_view(out@) == start + outcome_lines(*comp).take(i as int),
                decreases steps@.len() - i,
            {
                let s = &steps[i];
                let mut t = three("✅ Applied: ", s.prefix.as_str(), " v");
                t.append(decimal(s.target_version as u64).as_str());
                t.append(" (");
                match &s.description {
                    Some(d) => t.append(d.as_str()),
                    None => t.append("no description"),
                }
                t.append(")");
                push_line(out, LogLevel::Info, t);
                proof {
                    assert(outcome_lines(*comp).take(i + 1) =~= outcome_lines(*comp).take(i as int).push(outcome_lines(*comp)[i as int]));
                }
                i = i + 1;
            }
            proof {
                assert(outcome_lines(*comp).take(i as int) =~= outcome_lines(*comp));
            }
        },
        ComponentOutcome::Failed { error } => {
            let names = debug_list(&comp.prefixes);
            let mut t = three("❌ Component ", names.as_str(), " failed: ");
            t.append(error.describe());
            push_line(out, LogLevel::Error, t);
            push_line(
                out,
                LogLevel::Error,
                crate::text::owned("   Transaction rolled back. Data for these prefixes remains unchanged."),
            );
            proof {
                assert(lines_view(out@) =~= start + outcome_lines(*comp));
            }
        },
        ComponentOutcome::Skipped => {
            let names = debug_list(&comp.prefixes);
            let t = three("⏩ Component ", names.as_str(), " is up to date");
            push_line(out, LogLevel::Debug, t);
            proof {
                assert(lines_view(out@) =~= start + outcome_lines(*comp));
            }
        },
    }
}

impl MigrationReport {
    /// A report of nothing.
    pub fn new() -> (r: MigrationReport)
        ensures
            r.components@.len() == 0,
    {
        MigrationReport { components: Vec::new() }
    }

    /// Whether any component failed.
    pub fn has_failures(&self) -> (r: bool)
        ensures
            r == exists|i: int| 0 <= i < self.components@.len() && failed(#[trigger] self.components@[i]),
    {
        let mut i: usize = 0;
        while i < self.components.len()
            invariant
                i <= self.components@.len(),
                forall|j: int| 0 <= j < i ==> !failed(#[trigger] self.components@[j]),
            decreases self.components@.len() - i,
        {
            match self.components[i].outcome {
                ComponentOutcome::Failed { .. } => {
                    return true;
                },
                _ => {},
            }
            i = i + 1;
        }
        false
    }

    /// Whether any component's stored shape drifted from its declaration.
    pub fn has_drift(&self) -> (r: bool)
        ensures
            r == exists|i: int|
                0 <= i < self.components@.len() && (#[trigger] self.components@[i]).nagging@.len() > 0,
    {
        let mut i: usize = 0;
        while i < self.components.len()
            invariant
                i <= self.components@.len(),
                forall|j: int| 0 <= j < i ==> (#[trigger] self.components@[j]).nagging@.len() == 0,
            decreases self.components@.len() - i,
        {
            if self.components[i].nagging.len() > 0 {
                return true;
            }
            i = i + 1;
        }
        false
    }

    /// The lines the report is logged as, in order: for each component, its
    /// drift, then its outcome.
    pub fn log_lines(&self) -> (r: Vec<LogLine>)
        ensures
            lines_view(r@) == report_lines(self.components@),
    {
        let mut out: Vec<LogLine> = Vec::new();
        let mut i: usize = 0;
        proof {
            assert(lines_view(out@) =~= Seq::empty());
            assert(self.components@.take(0) =~= Seq::<ComponentResult>::empty());
        }
        while i < self.components.len()
            invariant
                i <= self.components@.len(),
                lines_view(out@) == report_lines(self.components@.take(i as int)),
            decreases self.components@.len() - i,
        {
            let comp = &self.components[i];
            let ghost before = lines_view(out@);
            let mut j: usize = 0;
            proof {
                assert(comp.nagging@.take(0) =~= Seq::<NaggingRecord>::empty());
                assert(before + nags_lines(comp.nagging@.take(0)) =~= before);
            }
            while j < comp.nagging.len()
                invariant
                    j <= comp.nagging@.len(),
                    lines_view(out@) == before + nags_lines(comp.nagging@.take(j as int)),
                decreases comp.nagging@.len() - j,
            {
                push_nag(&mut out, &comp.nagging[j]);
                proof {
                    let t = comp.nagging@.take(j + 1);
                    assert(t.drop_last() =~= comp.nagging@.take(j as int));
                    assert(t.last() == comp.nagging@[j as int]);
                }
                j = j + 1;
            }
            push_outcome(&mut out, comp);
            proof {
                assert(comp.nagging@.take(j as int) =~= comp.nagging@);
                let t = self.components@.take(i + 1);
                assert(t.drop_last() =~= self.components@.take(i as int));
                assert(t.last() == self.components@[i as int]);
            }
            i = i + 1;
        }
        proof {
            assert(self.components@.take(i as int) =~= self.components@);
        }
        out
    }
}

impl Default for MigrationReport {
    /// A report of nothing.
    fn default() -> (r: MigrationReport)
        ensures
            r.components@.len() == 0,
    {
        MigrationReport::new()
    }
}

} // verus!
