//! How a run executes, as one named value.
//!
//! Three independent switches decide what a frame of Petal does: the
//! optimizer passes the bytecode is lowered with ([`OptFlags`]), whether
//! user-function calls are memoized and replayed, and whether a host skips a
//! frame the frame gate says would reproduce the last one. [`RunPolicy`]
//! carries all three, and the combinations anyone asks for have names:
//!
//! | Name       | Optimizer | Memo | Gate |
//! |------------|-----------|------|------|
//! | `fast`     | on        | on   | on   |
//! | `baseline` | off       | off  | off  |
//! | `explain`  | on, preserving every traced instruction | off | off |
//! | `replay`   | on        | on   | off  |
//!
//! A name may be followed by modifiers that switch one thing on or off:
//! `fast-memo`, `baseline+gate`, `replay-opt`.

use vstd::prelude::*;
use crate::text::{chars_eq_str, chars_of, push_chars, push_str, trim, trim_chars};

verus! {

/// The optimizer passes bytecode is lowered with, and what the optimizer
/// must keep for tools that read per-instruction results.
#[derive(Clone, Copy, Debug, PartialEq, Eq, Structural)]
pub struct OptFlags {
    /// Forward copies into their uses.
    pub copy_propagation: bool,
    /// Update values in place on straight-line code.
    pub in_place_straight_line: bool,
    /// Keep every instruction an observation records.
    pub preserve_observations: bool,
    /// Keep every instruction the trace records.
    pub preserve_trace: bool,
}

impl OptFlags {
    /// Every optimizer pass on, nothing preserved beyond what the program
    /// needs.
    pub fn default_on() -> (f: OptFlags)
        ensures
            f == (OptFlags {
                copy_propagation: true,
                in_place_straight_line: true,
                preserve_observations: false,
                preserve_trace: false,
            }),
    {
        OptFlags {
            copy_propagation: true,
            in_place_straight_line: true,
            preserve_observations: false,
            preserve_trace: false,
        }
    }

    /// Every optimizer pass off.
    pub fn none() -> (f: OptFlags)
        ensures
            f == (OptFlags {
                copy_propagation: false,
                in_place_straight_line: false,
                preserve_observations: false,
                preserve_trace: false,
            }),
    {
        OptFlags {
            copy_propagation: false,
            in_place_straight_line: false,
            preserve_observations: false,
            preserve_trace: false,
        }
    }

    /// These passes, keeping whatever `other` preserves.
    pub fn preserving(self, other: OptFlags) -> (f: OptFlags)
        ensures
            f == (OptFlags {
                preserve_observations: other.preserve_observations,
                preserve_trace: other.preserve_trace,
                ..self
            }),
    {
        OptFlags {
            preserve_observations: other.preserve_observations,
            preserve_trace: other.preserve_trace,
            ..self
        }
    }
}

/// Which optimizations, memoization and frame gating a run uses.
#[derive(Clone, Copy, Debug, PartialEq, Eq, Structural)]
pub struct RunPolicy {
    /// The optimizer passes bytecode is lowered with.
    pub opts: OptFlags,
    /// Memoize user-function calls.
    pub memo: bool,
    /// Let a host frame driver skip a frame the frame gate says would
    /// reproduce the last one.
    pub gate: bool,
}

pub open spec fn spec_default_on() -> OptFlags {
    OptFlags {
        copy_propagation: true,
        in_place_straight_line: true,
        preserve_observations: false,
        preserve_trace: false,
    }
}

pub open spec fn spec_none() -> OptFlags {
    OptFlags {
        copy_propagation: false,
        in_place_straight_line: false,
        preserve_observations: false,
        preserve_trace: false,
    }
}

pub open spec fn spec_fast() -> RunPolicy {
    RunPolicy { opts: spec_default_on(), memo: true, gate: true }
}

pub open spec fn spec_baseline() -> RunPolicy {
    RunPolicy { opts: spec_none(), memo: false, gate: false }
}

pub open spec fn spec_explain() -> RunPolicy {
    RunPolicy {
        opts: OptFlags { preserve_observations: true, preserve_trace: true, ..spec_default_on() },
        memo: false,
        gate: false,
    }
}

pub open spec fn spec_replay() -> RunPolicy {
    RunPolicy { gate: false, ..spec_fast() }
}

/// The named policies, in the order [`RunPolicy::name`] prefers them.
pub open spec fn named_policies() -> Seq<(Seq<char>, RunPolicy)> {
    seq![
        ("fast"@, spec_fast()),
        ("baseline"@, spec_baseline()),
        ("explain"@, spec_explain()),
        ("replay"@, spec_replay()),
    ]
}

/// The policy a bare name stands for.
pub open spec fn named_policy(name: Seq<char>) -> Option<RunPolicy> {
    if name == "fast"@ {
        Some(spec_fast())
    } else if name == "baseline"@ {
        Some(spec_baseline())
    } else if name == "explain"@ {
        Some(spec_explain())
    } else if name == "replay"@ {
        Some(spec_replay())
    } else {
        None
    }
}

/// The first index of a `+` or `-` in `s`, or its length.
pub open spec fn sign_at(s: Seq<char>, from: int) -> int
    decreases s.len() - from,
{
    if from >= s.len() || s[from] == '+' || s[from] == '-' {
        from
    } else {
        sign_at(s, from + 1)
    }
}

pub proof fn lemma_sign_at_bounds(s: Seq<char>, from: int)
    requires
        0 <= from,
    ensures
        from <= sign_at(s, from),
        from <= s.len() ==> sign_at(s, from) <= s.len(),
    decreases s.len() - from,
{
    if from < s.len() && s[from] != '+' && s[from] != '-' {
        lemma_sign_at_bounds(s, from + 1);
    }
}

/// The list of names, for usage and error text.
pub open spec fn names_text() -> Seq<char> {
    "fast"@ + ", "@ + "baseline"@ + ", "@ + "explain"@ + ", "@ + "replay"@
}

/// Apply the modifiers in `s[pos..]` to `p`; `spec` is the whole trimmed
/// specification, quoted in the error for an unknown modifier.
pub open spec fn apply_modifiers(p: RunPolicy, s: Seq<char>, pos: int, spec: Seq<char>) -> Result<
    RunPolicy,
    Seq<char>,
>
    decreases s.len() - pos,
{
    if pos < 0 || pos >= s.len() {
        Ok(p)
    } else {
        let sign = s[pos];
        let on = sign == '+';
        let end = sign_at(s, pos + 1);
        let word = s.subrange(pos + 1, end);
        proof {
            lemma_sign_at_bounds(s, pos + 1);
        }
        if end <= pos {
            Ok(p)
        } else if word == "gate"@ {
            apply_modifiers(RunPolicy { gate: on, ..p }, s, end, spec)
        } else if word == "memo"@ {
            apply_modifiers(RunPolicy { memo: on, ..p }, s, end, spec)
        } else if word == "opt"@ {
            let base = if on { spec_default_on() } else { spec_none() };
            apply_modifiers(
                RunPolicy {
                    opts: OptFlags {
                        preserve_observations: p.opts.preserve_observations,
                        preserve_trace: p.opts.preserve_trace,
                        ..base
                    },
                    ..p
                },
                s,
                end,
                spec,
            )
        } else {
            Err(
                "unknown run policy modifier '"@ + seq![sign] + word + "' in '"@ + spec
                    + "' (expected gate, memo or opt)"@,
            )
        }
    }
}

/// What [`RunPolicy::parse`] returns for `text`: the trimmed text is a
/// policy name up to the first `+`/`-`, then modifiers.
pub open spec fn parse_spec(text: Seq<char>) -> Result<RunPolicy, Seq<char>> {
    let s = trim(text);
    let split = sign_at(s, 0);
    let name = s.take(split);
    match named_policy(name) {
        None => Err("unknown run policy '"@ + name + "' (expected "@ + names_text() + ")"@),
        Some(p) => apply_modifiers(p, s, split, s),
    }
}

/// How many of memo and gate differ between two policies.
pub open spec fn mismatches(a: RunPolicy, b: RunPolicy) -> int {
    (if a.memo != b.memo { 1int } else { 0int }) + (if a.gate != b.gate { 1int } else { 0int })
}

/// Scanning the named policies from index `i`, the first one with `p`'s
/// optimizer setting and the fewest memo/gate differences from `p` (an
/// earlier candidate wins a tie); `best` is the pick so far.
pub open spec fn nearest_from(p: RunPolicy, i: int, best: Option<(Seq<char>, RunPolicy)>) -> Option<
    (Seq<char>, RunPolicy),
>
    decreases 4 - i,
{
    if i < 0 || i >= 4 {
        best
    } else {
        let e = named_policies()[i];
        if e.1.opts == p.opts && (best is None || mismatches(e.1, p) < mismatches(best.unwrap().1, p)) {
            nearest_from(p, i + 1, Some(e))
        } else {
            nearest_from(p, i + 1, best)
        }
    }
}

/// The nearest named policy to `p` (see [`nearest_from`]); `None` when no
/// named policy has `p`'s optimizer setting.
pub open spec fn nearest_named(p: RunPolicy) -> Option<(Seq<char>, RunPolicy)> {
    nearest_from(p, 0, None)
}

/// The modifier text turning `from` into `p`: memo first, then gate.
pub open spec fn modifier_text(p: RunPolicy, from: RunPolicy) -> Seq<char> {
    (if p.memo != from.memo {
        (if p.memo { "+"@ } else { "-"@ }) + "memo"@
    } else {
        Seq::empty()
    }) + (if p.gate != from.gate {
        (if p.gate { "+"@ } else { "-"@ }) + "gate"@
    } else {
        Seq::empty()
    })
}

/// What [`RunPolicy::name`] returns: the policy's own name when it is a
/// named one, else the nearest name plus modifiers, else `None`.
pub open spec fn name_spec(p: RunPolicy) -> Option<Seq<char>> {
    if p == spec_fast() {
        Some("fast"@)
    } else if p == spec_baseline() {
        Some("baseline"@)
    } else if p == spec_explain() {
        Some("explain"@)
    } else if p == spec_replay() {
        Some("replay"@)
    } else {
        match nearest_named(p) {
            None => None,
            Some(e) => Some(e.0 + modifier_text(p, e.1)),
        }
    }
}

impl RunPolicy {
    /// Everything on: what a shipped host runs, and the default.
    pub fn fast() -> (p: RunPolicy)
        ensures
            p == spec_fast(),
    {
        RunPolicy { opts: OptFlags::default_on(), memo: true, gate: true }
    }

    /// Everything off: the oracle the other policies must reproduce.
    pub fn baseline() -> (p: RunPolicy)
        ensures
            p == spec_baseline(),
    {
        RunPolicy { opts: OptFlags::none(), memo: false, gate: false }
    }

    /// The optimizer on but keeping every instruction the trace and the
    /// observations record; nothing skipped or replayed.
    pub fn explain() -> (p: RunPolicy)
        ensures
            p == spec_explain(),
    {
        RunPolicy {
            opts: OptFlags {
                preserve_observations: true,
                preserve_trace: true,
                ..OptFlags::default_on()
            },
            memo: false,
            gate: false,
        }
    }

    /// Every frame runs, and memoized scopes replay.
    pub fn replay() -> (p: RunPolicy)
        ensures
            p == spec_replay(),
    {
        RunPolicy { gate: false, ..RunPolicy::fast() }
    }

    /// This policy with the optimizer set to `opts`.
    pub fn with_opts(self, opts: OptFlags) -> (p: RunPolicy)
        ensures
            p == (RunPolicy { opts, ..self }),
    {
        RunPolicy { opts, ..self }
    }

    /// This policy with memoization on or off.
    pub fn with_memo(self, memo: bool) -> (p: RunPolicy)
        ensures
            p == (RunPolicy { memo, ..self }),
    {
        RunPolicy { memo, ..self }
    }

    /// This policy with frame gating on or off.
    pub fn with_gate(self, gate: bool) -> (p: RunPolicy)
        ensures
            p == (RunPolicy { gate, ..self }),
    {
        RunPolicy { gate, ..self }
    }

    /// The named policies, for usage and error text.
    pub fn names() -> (s: String)
        ensures
            s@ == names_text(),
    {
        let mut s = String::new();
        push_str(&mut s, "fast");
        push_str(&mut s, ", ");
        push_str(&mut s, "baseline");
        push_str(&mut s, ", ");
        push_str(&mut s, "explain");
        push_str(&mut s, ", ");
        push_str(&mut s, "replay");
        s
    }

    /// Parse a policy name with optional modifiers: `fast`, `baseline`,
    /// `explain`, `replay`, each optionally followed by any number of
    /// `+gate` / `-gate` / `+memo` / `-memo` / `+opt` / `-opt`.
    pub fn parse(spec: &str) -> (r: Result<RunPolicy, String>)
        ensures
            match r {
                Ok(p) => parse_spec(spec@) == Ok::<RunPolicy, Seq<char>>(p),
                Err(e) => parse_spec(spec@) == Err::<RunPolicy, Seq<char>>(e@),
            },
    {
        let raw = chars_of(spec);
        let s = trim_chars(raw.as_slice());
        let split = find_sign(s.as_slice(), 0);
        let name = crate::text::slice_chars(s.as_slice(), 0, split);
        proof {
            assert(name@ == s@.take(split as int));
        }
        let mut policy = if chars_eq_str(name.as_slice(), "fast") {
            RunPolicy::fast()
        } else if chars_eq_str(name.as_slice(), "baseline") {
            RunPolicy::baseline()
        } else if chars_eq_str(name.as_slice(), "explain") {
            RunPolicy::explain()
        } else if chars_eq_str(name.as_slice(), "replay") {
            RunPolicy::replay()
        } else {
            let mut msg = String::new();
            push_str(&mut msg, "unknown run policy '");
            push_chars(&mut msg, name.as_slice());
            push_str(&mut msg, "' (expected ");
            let names = RunPolicy::names();
            push_str(&mut msg, names.as_str());
            push_str(&mut msg, ")");
            return Err(msg);
        };
        let mut pos = split;
        while pos < s.len()
            invariant
                pos <= s.len(),
                s@ == trim(spec@),
                apply_modifiers(policy, s@, pos as int, s@) == parse_spec(spec@),
            decreases s.len() - pos,
        {
            let sign = s[pos];
            let on = sign == '+';
            let end = find_sign(s.as_slice(), pos + 1);
            let word = crate::text::slice_chars(s.as_slice(), pos + 1, end);
            if chars_eq_str(word.as_slice(), "gate") {
                policy.gate = on;
            } else if chars_eq_str(word.as_slice(), "memo") {
                policy.memo = on;
            } else if chars_eq_str(word.as_slice(), "opt") {
                let base = if on { OptFlags::default_on() } else { OptFlags::none() };
                policy.opts = base.preserving(policy.opts);
            } else {
                let mut msg = String::new();
                push_str(&mut msg, "unknown run policy modifier '");
                let mut sign_chars: Vec<char> = Vec::new();
                sign_chars.push(sign);
                push_chars(&mut msg, sign_chars.as_slice());
                push_chars(&mut msg, word.as_slice());
                push_str(&mut msg, "' in '");
                push_chars(&mut msg, s.as_slice());
                push_str(&mut msg, "' (expected gate, memo or opt)");
                proof {
                    assert(sign_chars@ =~= seq![sign]);
                }
                return Err(msg);
            }
            pos = end;
        }
        Ok(policy)
    }

    /// The policy's name, in the syntax [`parse`](Self::parse) accepts: a
    /// named policy when it is one, else the nearest name plus modifiers;
    /// `None` for an optimizer setting no name spells.
    pub fn name(&self) -> (r: Option<String>)
        ensures
            match r {
                Some(n) => name_spec(*self) == Some(n@),
                None => name_spec(*self) == None::<Seq<char>>,
            },
    {
        let fast = RunPolicy::fast();
        let baseline = RunPolicy::baseline();
        let explain = RunPolicy::explain();
        let replay = RunPolicy::replay();
        if *self == fast {
            return Some(crate::text::string_from("fast"));
        }
        if *self == baseline {
            return Some(crate::text::string_from("baseline"));
        }
        if *self == explain {
            return Some(crate::text::string_from("explain"));
        }
        if *self == replay {
            return Some(crate::text::string_from("replay"));
        }
        // The candidates with this optimizer setting, in name order; keep
        // the first with the fewest memo/gate differences.
        let mut best: Option<(usize, RunPolicy)> = None;
        let mut i: usize = 0;
        while i < 4
            invariant
                0 <= i <= 4,
                nearest_named(*self) == nearest_from(
                    *self,
                    i as int,
                    match best {
                        None => None,
                        Some(b) => Some(named_policies()[b.0 as int]),
                    },
                ),
                match best {
                    None => true,
                    Some(b) => b.0 < i && b.1 == named_policies()[b.0 as int].1,
                },
            decreases 4 - i,
        {
            let cand = named_at(i);
            if cand.opts == self.opts {
                let better = match best {
                    None => true,
                    Some(b) => mismatch_count(&cand, self) < mismatch_count(&b.1, self),
                };
                if better {
                    best = Some((i, cand));
                }
            }
            i = i + 1;
        }
        match best {
            None => None,
            Some(b) => {
                let mut name = name_at(b.0);
                let from = b.1;
                if self.memo != from.memo {
                    push_str(&mut name, if self.memo { "+" } else { "-" });
                    push_str(&mut name, "memo");
                }
                if self.gate != from.gate {
                    push_str(&mut name, if self.gate { "+" } else { "-" });
                    push_str(&mut name, "gate");
                }
                proof {
                    let e = named_policies()[b.0 as int];
                    assert(name@ =~= e.0 + modifier_text(*self, e.1));
                }
                Some(name)
            },
        }
    }
}

/// The `i`-th named policy.
fn named_at(i: usize) -> (p: RunPolicy)
    requires
        i < 4,
    ensures
        p == named_policies()[i as int].1,
{
    if i == 0 {
        RunPolicy::fast()
    } else if i == 1 {
        RunPolicy::baseline()
    } else if i == 2 {
        RunPolicy::explain()
    } else {
        RunPolicy::replay()
    }
}

/// The `i`-th policy name.
fn name_at(i: usize) -> (s: String)
    requires
        i < 4,
    ensures
        s@ == named_policies()[i as int].0,
{
    if i == 0 {
        crate::text::string_from("fast")
    } else if i == 1 {
        crate::text::string_from("baseline")
    } else if i == 2 {
        crate::text::string_from("explain")
    } else {
        crate::text::string_from("replay")
    }
}

/// How many of memo and gate differ between `a` and `b`.
fn mismatch_count(a: &RunPolicy, b: &RunPolicy) -> (n: u8)
    ensures
        n as int == mismatches(*a, *b),
{
    (if a.memo != b.memo { 1u8 } else { 0u8 }) + (if a.gate != b.gate { 1u8 } else { 0u8 })
}

impl Default for RunPolicy {
    /// The default policy is `fast`.
    fn default() -> (p: RunPolicy)
        ensures
            p == spec_fast(),
    {
        RunPolicy::fast()
    }
}

/// Position of the first `+` or `-` in `s` at or after `from`, or its length.
fn find_sign(s: &[char], from: usize) -> (r: usize)
    requires
        from <= s.len(),
    ensures
        r == sign_at(s@, from as int),
        from <= r <= s.len(),
{
    let mut i = from;
    while i < s.len() && s[i] != '+' && s[i] != '-'
        invariant
            from <= i <= s.len(),
            sign_at(s@, from as int) == sign_at(s@, i as int),
        decreases s.len() - i,
    {
        i = i + 1;
    }
    i
}

/// Whether a `PETAL_OPT` value switches the optimizations off.
pub open spec fn opt_off(v: Seq<char>) -> bool {
    v == "none"@ || v == "0"@ || v == "off"@
}

/// What the environment selects: `PETAL_POLICY` when it is set and parses;
/// otherwise `baseline` when `PETAL_OPT` is `none`, `0` or `off`, else
/// `fast`.
pub open spec fn from_settings_spec(policy_var: Option<Seq<char>>, opt_var: Option<Seq<char>>) -> RunPolicy {
    match policy_var {
        Some(v) if parse_spec(v) is Ok => parse_spec(v)->Ok_0,
        _ => match opt_var {
            Some(o) if opt_off(o) => spec_baseline(),
            _ => spec_fast(),
        },
    }
}

impl RunPolicy {
    /// The policy the environment selects, given the values of
    /// `PETAL_POLICY` and `PETAL_OPT` (`None` when unset), and the warning
    /// to report when `PETAL_POLICY` is set but does not parse; it is then
    /// ignored, not fatal.
    pub fn from_settings(policy_var: Option<&str>, opt_var: Option<&str>) -> (r: (RunPolicy, Option<String>))
        ensures
            r.0 == from_settings_spec(
                match policy_var { Some(v) => Some(v@), None => None },
                match opt_var { Some(v) => Some(v@), None => None },
            ),
            match policy_var {
                Some(v) => match parse_spec(v@) {
                    Ok(_) => r.1 is None,
                    Err(e) => r.1 matches Some(w) && w@ == "PETAL_POLICY: "@ + e + "; using fast"@,
                },
                None => r.1 is None,
            },
    {
        let mut warning: Option<String> = None;
        match policy_var {
            Some(v) => match RunPolicy::parse(v) {
                Ok(p) => {
                    return (p, None);
                },
                Err(e) => {
                    let mut w = crate::text::string_from("PETAL_POLICY: ");
                    push_str(&mut w, e.as_str());
                    push_str(&mut w, "; using fast");
                    warning = Some(w);
                },
            },
            None => {},
        }
        let off = match opt_var {
            Some(o) => {
                let oc = chars_of(o);
                chars_eq_str(oc.as_slice(), "none") || chars_eq_str(oc.as_slice(), "0") || chars_eq_str(oc.as_slice(), "off")
            },
            None => false,
        };
        if off {
            (RunPolicy::baseline(), warning)
        } else {
            (RunPolicy::fast(), warning)
        }
    }
}

/// One of the four policy names.
pub open spec fn is_policy_name(b: Seq<char>) -> bool {
    b == "fast"@ || b == "baseline"@ || b == "explain"@ || b == "replay"@
}

proof fn lemma_literals()
    ensures
        "fast"@ =~= seq!['f', 'a', 's', 't'],
        "baseline"@ =~= seq!['b', 'a', 's', 'e', 'l', 'i', 'n', 'e'],
        "explain"@ =~= seq!['e', 'x', 'p', 'l', 'a', 'i', 'n'],
        "replay"@ =~= seq!['r', 'e', 'p', 'l', 'a', 'y'],
        "memo"@ =~= seq!['m', 'e', 'm', 'o'],
        "gate"@ =~= seq!['g', 'a', 't', 'e'],
        "+"@ =~= seq!['+'],
        "-"@ =~= seq!['-'],
{
    reveal_strlit("fast");
    reveal_strlit("baseline");
    reveal_strlit("explain");
    reveal_strlit("replay");
    reveal_strlit("memo");
    reveal_strlit("gate");
    reveal_strlit("+");
    reveal_strlit("-");
}

/// With no sign in `s[from..to]` and a sign or the end at `to`, the next
/// sign from `from` is at `to`.
proof fn lemma_sign_at_run(s: Seq<char>, from: int, to: int)
    requires
        0 <= from <= to <= s.len(),
        forall|k: int| from <= k < to ==> s[k] != '+' && s[k] != '-',
        to == s.len() || s[to] == '+' || s[to] == '-',
    ensures
        sign_at(s, from) == to,
    decreases to - from,
{
    if from < to {
        lemma_sign_at_run(s, from + 1, to);
    }
}

/// The nearest named policy is a named policy with `p`'s optimizer setting.
proof fn lemma_nearest(p: RunPolicy, i: int, best: Option<(Seq<char>, RunPolicy)>)
    requires
        0 <= i <= 4,
        best matches Some(e) ==> e.1.opts == p.opts && named_policy(e.0) == Some(e.1) && is_policy_name(e.0),
    ensures
        nearest_from(p, i, best) matches Some(e) ==> e.1.opts == p.opts && named_policy(e.0) == Some(e.1)
            && is_policy_name(e.0),
    decreases 4 - i,
{
    lemma_literals();
    if i < 4 {
        let e = named_policies()[i];
        assert(named_policy(e.0) == Some(e.1) && is_policy_name(e.0));
        if e.1.opts == p.opts {
            lemma_nearest(p, i + 1, Some(e));
        }
        lemma_nearest(p, i + 1, best);
    }
}

/// A lowercase ASCII letter.
pub open spec fn is_lower(c: char) -> bool {
    'a' <= c && c <= 'z'
}

proof fn lemma_name_letters(base: Seq<char>)
    requires
        is_policy_name(base),
    ensures
        base.len() >= 4,
        forall|k: int| 0 <= k < base.len() ==> is_lower(#[trigger] base[k]),
{
    lemma_literals();
}

/// Text that starts and ends with a letter is its own trim.
proof fn lemma_trim_letters(s: Seq<char>)
    requires
        s.len() > 0,
        is_lower(s[0]),
        is_lower(s[s.len() - 1]),
    ensures
        crate::text::trim(s) == s,
{
    assert(crate::text::ws_end(s, 0) == 0);
    assert(crate::text::ws_trim_end(s, 0, s.len() as int) == s.len());
    assert(crate::text::trim(s) =~= s);
}

/// A sign at `pos` and `word` after it, up to a sign or the end, sets the
/// switch `word` names to whether the sign is `+`.
proof fn lemma_modifier_step(p0: RunPolicy, s: Seq<char>, pos: int, spec: Seq<char>, memo: bool)
    requires
        0 <= pos,
        pos + 5 <= s.len(),
        s[pos] == '+' || s[pos] == '-',
        s.subrange(pos + 1, pos + 5) == (if memo { "memo"@ } else { "gate"@ }),
        pos + 5 == s.len() || s[pos + 5] == '+' || s[pos + 5] == '-',
    ensures
        apply_modifiers(p0, s, pos, spec) == apply_modifiers(
            if memo { RunPolicy { memo: s[pos] == '+', ..p0 } } else { RunPolicy { gate: s[pos] == '+', ..p0 } },
            s,
            pos + 5,
            spec,
        ),
{
    lemma_literals();
    assert forall|k: int| pos + 1 <= k < pos + 5 implies s[k] != '+' && s[k] != '-' by {
        assert(s[k] == s.subrange(pos + 1, pos + 5)[k - pos - 1]);
    }
    lemma_sign_at_run(s, pos + 1, pos + 5);
}

/// A policy name followed by the modifiers that turn its policy into `p`
/// parses back to `p`, when the optimizer setting already agrees.
#[verifier::rlimit(50)]
proof fn lemma_parse_name_with_modifiers(p: RunPolicy, base: Seq<char>, from: RunPolicy)
    requires
        is_policy_name(base),
        named_policy(base) == Some(from),
        from.opts == p.opts,
    ensures
        parse_spec(base + modifier_text(p, from)) == Ok::<RunPolicy, Seq<char>>(p),
{
    lemma_literals();
    lemma_name_letters(base);
    let m1 = if p.memo != from.memo {
        (if p.memo { "+"@ } else { "-"@ }) + "memo"@
    } else {
        Seq::<char>::empty()
    };
    let m2 = if p.gate != from.gate {
        (if p.gate { "+"@ } else { "-"@ }) + "gate"@
    } else {
        Seq::<char>::empty()
    };
    let s = base + m1 + m2;
    assert(base + modifier_text(p, from) =~= s);
    let len = s.len() as int;
    let l = base.len() as int;
    let pos1 = l + m1.len();
    assert(s.subrange(0, l) =~= base);
    assert(s.subrange(l, pos1) =~= m1);
    assert(s.subrange(pos1, len) =~= m2);
    assert(is_lower(s[0])) by {
        assert(s[0] == base[0]);
    }
    assert(is_lower(s[len - 1])) by {
        if m2.len() > 0 {
            assert(s[len - 1] == m2[4]);
        } else if m1.len() > 0 {
            assert(s[len - 1] == m1[4]);
        } else {
            assert(s[len - 1] == base[l - 1]);
        }
    }
    lemma_trim_letters(s);
    assert forall|k: int| 0 <= k < l implies s[k] != '+' && s[k] != '-' by {
        assert(s[k] == base[k]);
        assert(is_lower(base[k]));
    }
    assert(l == len || s[l] == '+' || s[l] == '-') by {
        if m1.len() > 0 {
            assert(s[l] == m1[0]);
        } else if m2.len() > 0 {
            assert(s[l] == m2[0]);
        }
    }
    assert(parse_spec(s) == apply_modifiers(from, s, l, s)) by {
        lemma_sign_at_run(s, 0, l);
        assert(s.take(l) =~= base);
    }
    let p1 = if m1.len() > 0 { RunPolicy { memo: p.memo, ..from } } else { from };
    if m1.len() > 0 {
        assert(s[l] == m1[0]);
        assert(s.subrange(l + 1, l + 5) =~= "memo"@);
        assert(l + 5 == len || s[l + 5] == '+' || s[l + 5] == '-') by {
            if m2.len() > 0 {
                assert(s[l + 5] == m2[0]);
            }
        }
        lemma_modifier_step(from, s, l, s, true);
    }
    let p2 = if m2.len() > 0 { RunPolicy { gate: p.gate, ..p1 } } else { p1 };
    if m2.len() > 0 {
        assert(s[pos1] == m2[0]);
        assert(s.subrange(pos1 + 1, pos1 + 5) =~= "gate"@);
        lemma_modifier_step(p1, s, pos1, s, false);
    }
    assert(apply_modifiers(p2, s, len, s) == Ok::<RunPolicy, Seq<char>>(p2));
    assert(p2 == p);
}

/// A policy's name reads back as that policy: whenever `name` gives a
/// name, `parse` of it is the policy itself.
pub proof fn law_name_then_parse(p: RunPolicy)
    ensures
        name_spec(p) matches Some(n) ==> parse_spec(n) == Ok::<RunPolicy, Seq<char>>(p),
{
    lemma_literals();
    if p == spec_fast() || p == spec_baseline() || p == spec_explain() || p == spec_replay() {
        let base = if p == spec_fast() {
            "fast"@
        } else if p == spec_baseline() {
            "baseline"@
        } else if p == spec_explain() {
            "explain"@
        } else {
            "replay"@
        };
        assert(named_policy(base) == Some(p));
        lemma_parse_name_with_modifiers(p, base, p);
        assert(base + modifier_text(p, p) =~= base);
    } else {
        lemma_nearest(p, 0, None);
        if let Some(e) = nearest_named(p) {
            lemma_parse_name_with_modifiers(p, e.0, e.1);
        }
    }
}

} // verus!
