//! `petal lint`: rules about which code to write, each with a kebab-case
//! name, a finding per site and a fix made of text splices.
//!
//! Findings are reported at their position in the original text: every
//! applied splice is recorded, and a later stage's offsets are mapped back
//! through them ([`map_back`]).

pub mod reindent;
pub mod to_match;

use vstd::prelude::*;
use self::to_match::Splice;

verus! {

/// Directive comment that silences rules on the next (or its own) line.
pub const IGNORE_NEXT: &'static str = "petal-lint-ignore";

/// Directive comment that silences rules for the whole file.
pub const IGNORE_FILE: &'static str = "petal-lint-ignore-file";

pub const PREFER_LET: &'static str = "prefer-let";
pub const NO_REDUNDANT_CAST: &'static str = "no-redundant-cast";
pub const PREFER_MATCH: &'static str = "prefer-match";
pub const PREFER_COMPOUND_ASSIGN: &'static str = "prefer-compound-assign";

/// One lint rule, as `petal lint --rules` lists it.
#[derive(Debug, Clone, Copy)]
pub struct RuleInfo {
    pub name: &'static str,
    pub summary: &'static str,
}

/// The rule names, in the order the rules run.
pub open spec fn rule_names() -> Seq<Seq<char>> {
    seq![PREFER_LET@, NO_REDUNDANT_CAST@, PREFER_MATCH@, PREFER_COMPOUND_ASSIGN@]
}

/// Every rule, in the order it runs.
pub fn rules() -> (r: Vec<RuleInfo>)
    ensures
        r.len() == rule_names().len(),
        forall|i: int| 0 <= i < r.len() ==> (#[trigger] r[i]).name@ == rule_names()[i],
{
    let mut r: Vec<RuleInfo> = Vec::new();
    r.push(RuleInfo {
        name: PREFER_LET,
        summary: "a `var` no nested function shares should be a `let`",
    });
    r.push(RuleInfo {
        name: NO_REDUNDANT_CAST,
        summary: "`int(n)` / `float(x)` / `str(s)` on a value already of that type",
    });
    r.push(RuleInfo {
        name: PREFER_MATCH,
        summary: "an if/elsif chain testing one value against literals should be a `match`",
    });
    r.push(RuleInfo {
        name: PREFER_COMPOUND_ASSIGN,
        summary: "`x = x + e` should be `x += e`",
    });
    r
}

/// Whether `name` names a rule.
pub fn is_rule(name: &str) -> (r: bool)
    ensures
        r == rule_names().contains(name@),
{
    let all = rules();
    let mut i: usize = 0;
    while i < all.len()
        invariant
            i <= all.len(),
            all.len() == rule_names().len(),
            forall|k: int| 0 <= k < all.len() ==> (#[trigger] all[k]).name@ == rule_names()[k],
            forall|k: int| 0 <= k < i ==> rule_names()[k] != name@,
        decreases all.len() - i,
    {
        if crate::text::str_eq(all[i].name, name) {
            proof {
                assert(rule_names()[i as int] == name@);
            }
            return true;
        }
        i = i + 1;
    }
    false
}

/// Whether some string of `v` spells `s`.
pub open spec fn lists(v: Seq<String>, s: Seq<char>) -> bool {
    exists|i: int| 0 <= i < v.len() && (#[trigger] v[i])@ == s
}

fn list_has(v: &Vec<String>, s: &str) -> (r: bool)
    ensures
        r == lists(v@, s@),
{
    let mut i: usize = 0;
    while i < v.len()
        invariant
            i <= v.len(),
            forall|k: int| 0 <= k < i ==> (#[trigger] v@[k])@ != s@,
        decreases v.len() - i,
    {
        if crate::text::str_eq(v[i].as_str(), s) {
            return true;
        }
        i = i + 1;
    }
    false
}

/// Which rules run, from the command line.
#[derive(Debug, Clone)]
pub struct RuleFilter {
    /// When set, only these rules run.
    pub only: Option<Vec<String>>,
    pub exclude: Vec<String>,
}

impl RuleFilter {
    /// Whether `rule` runs: named by the `only` list when there is one, and
    /// not named by the exclude list.
    pub open spec fn allows(self, rule: Seq<char>) -> bool {
        &&& match self.only {
            Some(inc) => lists(inc@, rule),
            None => true,
        }
        &&& !lists(self.exclude@, rule)
    }

    pub fn enabled(&self, rule: &str) -> (r: bool)
        ensures
            r == self.allows(rule@),
    {
        let named = match &self.only {
            Some(inc) => list_has(inc, rule),
            None => true,
        };
        named && !list_has(&self.exclude, rule)
    }
}

impl Default for RuleFilter {
    fn default() -> (r: RuleFilter)
        ensures
            r.only is None,
            r.exclude@.len() == 0,
    {
        RuleFilter { only: None, exclude: Vec::new() }
    }
}

/// Context the compile gate needs to compile the source the same way
/// `petal run` would: module search dirs and the file's own path.
#[derive(Debug, Clone)]
pub struct LintOptions {
    pub module_dirs: Vec<String>,
    pub origin: Option<String>,
    pub rules: RuleFilter,
}

impl Default for LintOptions {
    fn default() -> (r: LintOptions)
        ensures
            r.module_dirs@.len() == 0,
            r.origin is None,
            r.rules.only is None,
            r.rules.exclude@.len() == 0,
    {
        LintOptions { module_dirs: Vec::new(), origin: None, rules: RuleFilter::default() }
    }
}

/// One rule firing at one place.
#[derive(Debug, Clone)]
pub struct Finding {
    pub rule: &'static str,
    /// 1-based position in the original source.
    pub line: usize,
    pub column: usize,
    pub message: String,
}

/// How many of `fs` were reported by `rule`.
pub open spec fn count_of(fs: Seq<Finding>, rule: Seq<char>) -> nat
    decreases fs.len(),
{
    if fs.len() == 0 {
        0
    } else {
        count_of(fs.drop_last(), rule) + if fs.last().rule@ == rule { 1nat } else { 0nat }
    }
}

/// The result of linting one source text.
pub struct LintOutcome {
    /// Every finding, in source order.
    pub findings: Vec<Finding>,
    /// The source with every finding fixed, then formatted. Equal to the
    /// input when there are no findings.
    pub output: String,
    /// The fixed text before formatting.
    pub pre_format: String,
}

impl LintOutcome {
    pub fn changed(&self, original: &str) -> (r: bool)
        ensures
            r == (self.output@ != original@),
    {
        !crate::text::str_eq(self.output.as_str(), original)
    }

    pub fn count(&self, rule: &str) -> (r: usize)
        ensures
            r == count_of(self.findings@, rule@),
    {
        let mut n: usize = 0;
        let mut i: usize = 0;
        while i < self.findings.len()
            invariant
                i <= self.findings.len(),
                n == count_of(self.findings@.take(i as int), rule@),
                n <= i,
            decreases self.findings.len() - i,
        {
            proof {
                assert(self.findings@.take((i + 1) as int).drop_last() == self.findings@.take(i as int));
            }
            if crate::text::str_eq(self.findings[i].rule, rule) {
                n = n + 1;
            }
            i = i + 1;
        }
        proof {
            assert(self.findings@.take(self.findings.len() as int) == self.findings@);
        }
        n
    }

    /// Did a rule that is expected to change the IR fire? Every rule but
    /// `prefer-compound-assign` does.
    pub fn has_semantic_rewrite(&self) -> (r: bool)
        ensures
            r == exists|i: int| 0 <= i < self.findings.len()
                && (#[trigger] self.findings@[i]).rule@ != PREFER_COMPOUND_ASSIGN@,
    {
        let mut i: usize = 0;
        while i < self.findings.len()
            invariant
                i <= self.findings.len(),
                forall|k: int| 0 <= k < i ==> (#[trigger] self.findings@[k]).rule@ == PREFER_COMPOUND_ASSIGN@,
            decreases self.findings.len() - i,
        {
            if !crate::text::str_eq(self.findings[i].rule, PREFER_COMPOUND_ASSIGN) {
                return true;
            }
            i = i + 1;
        }
        false
    }
}

/// `n`, at least 1.
pub open spec fn at_least_one(n: nat) -> nat {
    if n == 0 {
        1
    } else {
        n
    }
}

/// How much splice `s` grows the text: characters inserted less characters
/// removed, as machine integers compute it.
pub open spec fn growth(s: Splice) -> int {
    (s.text@.len() as isize) - ((s.end - s.start) as usize as isize)
}

/// Where offset `pos` of the text after the splices of `sp` lay before
/// them, looking at splices `k..` with `delta` the growth of those before.
/// Offsets are machine integers: a sum that leaves `usize` wraps, as the
/// casts do.
pub open spec fn map_back_from(pos: usize, sp: Seq<Splice>, k: int, delta: isize) -> usize
    decreases sp.len() - k,
{
    if k < 0 || k >= sp.len() {
        ((pos as isize) - delta) as usize
    } else {
        let s = sp[k];
        let new_start = ((s.start as isize) + delta) as usize;
        if pos < new_start {
            ((pos as isize) - delta) as usize
        } else if pos < new_start + at_least_one(s.text@.len()) {
            s.start
        } else {
            map_back_from(pos, sp, k + 1, (delta + growth(s)) as isize)
        }
    }
}

/// The walk of [`map_back_from`] stays within machine arithmetic: no sum
/// leaves `isize` or `usize`, and no splice it passes ends before it starts.
pub open spec fn map_back_safe(pos: usize, sp: Seq<Splice>, k: int, delta: isize) -> bool
    decreases sp.len() - k,
{
    if k < 0 || k >= sp.len() {
        isize::MIN <= (pos as isize) - delta <= isize::MAX
    } else {
        let s = sp[k];
        let ns = (s.start as isize) + delta;
        &&& isize::MIN <= ns <= isize::MAX
        &&& if pos < (ns as usize) {
            isize::MIN <= (pos as isize) - delta <= isize::MAX
        } else {
            &&& (ns as usize) + at_least_one(s.text@.len()) <= usize::MAX
            &&& (pos >= (ns as usize) + at_least_one(s.text@.len()) ==> {
                &&& s.start <= s.end
                &&& isize::MIN <= (s.text@.len() as isize) - ((s.end - s.start) as usize as isize) <= isize::MAX
                &&& isize::MIN <= delta + growth(s) <= isize::MAX
                &&& map_back_safe(pos, sp, k + 1, (delta + growth(s)) as isize)
            })
        }
    }
}

/// Map char offset `pos` in the text after `splices` were applied back to
/// the text before. A position inside inserted text, or at a deletion, maps
/// to the splice start.
pub fn map_back(pos: usize, splices: &[Splice]) -> (r: usize)
    requires
        map_back_safe(pos, splices@, 0, 0),
    ensures
        r == map_back_from(pos, splices@, 0, 0),
{
    let mut delta: isize = 0;
    let mut k: usize = 0;
    while k < splices.len()
        invariant
            k <= splices.len(),
            map_back_safe(pos, splices@, k as int, delta),
            map_back_from(pos, splices@, 0, 0) == map_back_from(pos, splices@, k as int, delta),
        decreases splices.len() - k,
    {
        let s = &splices[k];
        let new_start = (s.start as isize + delta) as usize;
        if pos < new_start {
            return (pos as isize - delta) as usize;
        }
        let inserted = crate::text::chars_of(s.text.as_str()).len();
        let at_least = if inserted == 0 { 1 } else { inserted };
        if pos < new_start + at_least {
            return s.start;
        }
        delta = delta + (inserted as isize - (s.end - s.start) as isize);
        k = k + 1;
    }
    (pos as isize - delta) as usize
}

/// How hard `--verify` insists on IR equality.
#[derive(Debug, Clone, Copy, PartialEq, Eq, Structural)]
pub enum VerifyMode {
    /// The formatting pass must leave the IR untouched; the semantic passes
    /// are allowed to change it.
    Ir,
    /// The whole rewrite must be IR-equal to the original.
    Strict,
}

/// The verdict of a successful verification.
#[derive(Debug, Clone)]
pub enum VerifyVerdict {
    /// Nothing to prove: the lint made no change to this file.
    Unchanged,
    /// The whole rewrite is IR-equal to the original.
    Equal,
    /// The formatting pass was proven IR-equal, and the semantic passes
    /// changed the IR as designed; `diff` is the first difference between
    /// the original and the final text.
    SemanticChange { diff: String },
}

/// A verification that could not be completed, or that failed.
#[derive(Debug, Clone)]
pub struct VerifyFailure {
    pub message: String,
    pub diff: Option<String>,
}

/// Whether `r` is what a verification decides, given whether the lint
/// changed the text, the mode, whether a semantic rule fired, and two IR
/// comparisons: `whole` between the original and the final text,
/// `formatting` between the fixed text before formatting and the final text.
/// A comparison is `Ok(None)` when the two are IR-equal, `Ok(Some(diff))`
/// with the first difference, and `Err` when it could not be made.
pub open spec fn verify_decides(
    r: Result<VerifyVerdict, VerifyFailure>,
    changed: bool,
    mode: VerifyMode,
    semantic: bool,
    whole: Result<Option<String>, String>,
    formatting: Result<Option<String>, String>,
) -> bool {
    if !changed {
        r matches Ok(VerifyVerdict::Unchanged)
    } else {
        match whole {
            Err(m) => r matches Err(f) && f.message@ == m@ && f.diff is None,
            Ok(None) => r matches Ok(VerifyVerdict::Equal),
            Ok(Some(diff)) => if mode == VerifyMode::Strict {
                r matches Err(f) && f.message@ == "the rewrite is not IR-equal to the original"@
                    && f.diff == Some(diff)
            } else if !semantic {
                r matches Err(f) && f.message@ == "lint bug: an IR-invisible rewrite changed the IR"@
                    && f.diff == Some(diff)
            } else {
                match formatting {
                    Err(m) => r matches Err(f) && f.message@ == m@ && f.diff is None,
                    Ok(Some(fmt_diff)) => r matches Err(f)
                        && f.message@ == "lint bug: formatting the rewritten source changed the IR"@
                        && f.diff == Some(fmt_diff),
                    Ok(None) => r matches Ok(VerifyVerdict::SemanticChange { diff: d }) && d == diff,
                }
            },
        }
    }
}

/// Prove (or refuse) a lint rewrite from the IR comparisons of its texts:
/// `whole` compares `source` with `outcome.output`, `formatting` compares
/// `outcome.pre_format` with `outcome.output` (see [`verify_decides`]). The
/// caller must not write the file when this returns `Err`.
pub fn verify_rewrite(
    source: &str,
    outcome: &LintOutcome,
    mode: VerifyMode,
    whole: Result<Option<String>, String>,
    formatting: Result<Option<String>, String>,
) -> (r: Result<VerifyVerdict, VerifyFailure>)
    ensures
        verify_decides(
            r,
            outcome.output@ != source@,
            mode,
            exists|i: int| 0 <= i < outcome.findings.len()
                && (#[trigger] outcome.findings@[i]).rule@ != PREFER_COMPOUND_ASSIGN@,
            whole,
            formatting,
        ),
{
    if !outcome.changed(source) {
        return Ok(VerifyVerdict::Unchanged);
    }
    let diff = match whole {
        Err(m) => return Err(VerifyFailure { message: m, diff: None }),
        Ok(None) => return Ok(VerifyVerdict::Equal),
        Ok(Some(diff)) => diff,
    };
    if mode == VerifyMode::Strict {
        return Err(VerifyFailure {
            message: crate::text::string_from("the rewrite is not IR-equal to the original"),
            diff: Some(diff),
        });
    }
    if !outcome.has_semantic_rewrite() {
        return Err(VerifyFailure {
            message: crate::text::string_from("lint bug: an IR-invisible rewrite changed the IR"),
            diff: Some(diff),
        });
    }
    match formatting {
        Err(m) => Err(VerifyFailure { message: m, diff: None }),
        Ok(Some(fmt_diff)) => Err(VerifyFailure {
            message: crate::text::string_from("lint bug: formatting the rewritten source changed the IR"),
            diff: Some(fmt_diff),
        }),
        Ok(None) => Ok(VerifyVerdict::SemanticChange { diff }),
    }
}

} // verus!
