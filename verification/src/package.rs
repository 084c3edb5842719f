//! Packages: `petal.toml` manifests and the reachability they buy.
//!
//! A *package* is a directory with a `petal.toml` at its root:
//!
//! ```toml
//! [package]
//! name = "bloom"
//! version = "0.1.0"
//! modules = "src"
//! ```
//!
//! Once a package is known, its modules are importable under the package
//! name (`import bloom/menu`). Paths are held as their `/`-separated text.

use vstd::prelude::*;
use crate::error::{LoadError, Phase};
use crate::module::ModuleOrigin;
use crate::text::{
    chars_eq, chars_eq_str, chars_of, push_chars, push_str, slice_chars, string_of, trim,
    trim_chars,
};

verus! {

/// The manifest file name at a package root.
pub const MANIFEST_FILE: &'static str = "petal.toml";

/// What a package is, as a host or a script should see it.
#[derive(Debug, Clone)]
pub struct PackageInfo {
    /// The `[package] name`, also the first segment of every import that
    /// reaches into this package.
    pub name: String,
    /// The `[package] version`, verbatim.
    pub version: Option<String>,
    /// The directory holding `petal.toml`, or `<package:NAME>` for an
    /// in-memory package.
    pub root: String,
    /// The directory the modules live in.
    pub module_dir: String,
    /// Module names relative to `module_dir`, `/`-joined and sorted.
    pub modules: Vec<String>,
    /// True when the sources were handed over in memory.
    pub in_memory: bool,
}

impl PackageInfo {
    /// `bloom 0.1.0` / `bloom` — the one-line identity used in listings.
    pub fn label(&self) -> (s: String)
        ensures
            s@ == match self.version {
                Some(v) => self.name@ + " "@ + v@,
                None => self.name@,
            },
    {
        match &self.version {
            Some(v) => {
                let mut s = self.name.clone();
                push_str(&mut s, " ");
                push_str(&mut s, v.as_str());
                s
            },
            None => self.name.clone(),
        }
    }
}

/// A registered package: its manifest facts plus, for an in-memory
/// package, the sources themselves, sorted by module name.
#[derive(Debug)]
pub struct Package {
    pub info: PackageInfo,
    sources: Option<Vec<(String, String)>>,
}

/// The facts a manifest records.
#[derive(Debug)]
pub struct Manifest {
    pub name: String,
    pub version: Option<String>,
    pub modules: Option<String>,
}

/// The state of the manifest scan after some lines.
pub struct ScanState {
    pub section: Seq<char>,
    pub name: Option<Seq<char>>,
    pub version: Option<Seq<char>>,
    pub modules: Option<Seq<char>>,
    pub saw_package: bool,
}

/// `line` cut at its first `#` outside quotes, scanning from `i` with the
/// given open quote.
pub open spec fn comment_at(line: Seq<char>, i: int, quote: Option<char>) -> int
    decreases line.len() - i,
{
    if i < 0 || i >= line.len() {
        line.len() as int
    } else {
        let c = line[i];
        match quote {
            Some(q) => if c == q {
                comment_at(line, i + 1, None)
            } else {
                comment_at(line, i + 1, quote)
            },
            None => if c == '"' || c == '\'' {
                comment_at(line, i + 1, Some(c))
            } else if c == '#' {
                i
            } else {
                comment_at(line, i + 1, None)
            },
        }
    }
}

/// `line` without a trailing `#` comment, respecting quotes.
pub open spec fn strip_comment_spec(line: Seq<char>) -> Seq<char> {
    line.take(comment_at(line, 0, None))
}

proof fn lemma_comment_at_bounds(line: Seq<char>, i: int, quote: Option<char>)
    requires
        0 <= i,
    ensures
        i <= line.len() ==> i <= comment_at(line, i, quote) <= line.len(),
        i > line.len() ==> comment_at(line, i, quote) == line.len(),
    decreases line.len() - i,
{
    if i < line.len() {
        let c = line[i];
        match quote {
            Some(q) => if c == q {
                lemma_comment_at_bounds(line, i + 1, None);
            } else {
                lemma_comment_at_bounds(line, i + 1, quote);
            },
            None => if c == '"' || c == '\'' {
                lemma_comment_at_bounds(line, i + 1, Some(c));
            } else if c != '#' {
                lemma_comment_at_bounds(line, i + 1, None);
            },
        }
    }
}

/// Drop a trailing `#` comment, respecting quotes.
pub fn strip_comment(line: &[char]) -> (r: Vec<char>)
    ensures
        r@ == strip_comment_spec(line@),
{
    let mut quote: Option<char> = None;
    let mut i: usize = 0;
    while i < line.len()
        invariant
            i <= line.len(),
            comment_at(line@, 0, None) == comment_at(line@, i as int, quote),
        decreases line.len() - i,
    {
        let c = line[i];
        match quote {
            Some(q) => {
                if c == q {
                    quote = None;
                }
            },
            None => {
                if c == '"' || c == '\'' {
                    quote = Some(c);
                } else if c == '#' {
                    return slice_chars(line, 0, i);
                }
            },
        }
        i = i + 1;
    }
    slice_chars(line, 0, line.len())
}

/// The text between a matching pair of quotes (`"` tried first, then `'`)
/// that hold no other quote of the same kind.
pub open spec fn string_value_spec(text: Seq<char>) -> Option<Seq<char>> {
    if text.len() >= 2 && text[0] == '"' && text.last() == '"' && !text.subrange(
        1,
        text.len() - 1,
    ).contains('"') {
        Some(text.subrange(1, text.len() - 1))
    } else if text.len() >= 2 && text[0] == '\'' && text.last() == '\'' && !text.subrange(
        1,
        text.len() - 1,
    ).contains('\'') {
        Some(text.subrange(1, text.len() - 1))
    } else {
        None
    }
}

fn contains_char(s: &[char], c: char) -> (r: bool)
    ensures
        r == s@.contains(c),
{
    let mut i: usize = 0;
    while i < s.len()
        invariant
            i <= s.len(),
            forall|j: int| 0 <= j < i ==> s@[j] != c,
        decreases s.len() - i,
    {
        if s[i] == c {
            return true;
        }
        i = i + 1;
    }
    false
}

/// A bare quoted TOML string (no escapes).
pub fn parse_string_value(text: &[char]) -> (r: Option<Vec<char>>)
    ensures
        match r {
            Some(v) => string_value_spec(text@) == Some(v@),
            None => string_value_spec(text@) is None,
        },
{
    let n = text.len();
    if n >= 2 && text[0] == '"' && text[n - 1] == '"' {
        let inner = slice_chars(text, 1, n - 1);
        if !contains_char(inner.as_slice(), '"') {
            return Some(inner);
        }
    }
    if n >= 2 && text[0] == '\'' && text[n - 1] == '\'' {
        let inner = slice_chars(text, 1, n - 1);
        if !contains_char(inner.as_slice(), '\'') {
            return Some(inner);
        }
    }
    None
}

/// Whether `c` is an ASCII letter.
pub open spec fn ascii_alpha(c: char) -> bool {
    ('a' <= c && c <= 'z') || ('A' <= c && c <= 'Z')
}

/// Whether `c` is an ASCII letter or digit.
pub open spec fn ascii_alnum(c: char) -> bool {
    ascii_alpha(c) || ('0' <= c && c <= '9')
}

/// A package name is spellable as an identifier: nonempty, a letter or `_`
/// first, then letters, digits and `_`.
pub open spec fn valid_package_name(name: Seq<char>) -> bool {
    &&& name.len() > 0
    &&& (ascii_alpha(name[0]) || name[0] == '_')
    &&& forall|i: int| 0 <= i < name.len() ==> ascii_alnum(#[trigger] name[i]) || name[i] == '_'
}

/// Whether `name` is a usable package name.
pub fn is_package_name(name: &[char]) -> (r: bool)
    ensures
        r == valid_package_name(name@),
{
    if name.len() == 0 {
        return false;
    }
    let c0 = name[0];
    if !(('a' <= c0 && c0 <= 'z') || ('A' <= c0 && c0 <= 'Z') || c0 == '_') {
        return false;
    }
    let mut i: usize = 0;
    while i < name.len()
        invariant
            i <= name.len(),
            forall|j: int| 0 <= j < i ==> ascii_alnum(#[trigger] name@[j]) || name@[j] == '_',
        decreases name.len() - i,
    {
        let c = name[i];
        if !(('a' <= c && c <= 'z') || ('A' <= c && c <= 'Z') || ('0' <= c && c <= '9') || c
            == '_') {
            return false;
        }
        i = i + 1;
    }
    true
}

/// The error text for a package name that is not an identifier.
pub open spec fn bad_name_text(name: Seq<char>) -> Seq<char> {
    "package name '"@ + name
        + "' is not an identifier — a package name is the first segment of an import path (letters, digits and '_', not starting with a digit)"@
}

/// The message of an error about the manifest at `path`.
pub open spec fn manifest_message(path: Seq<char>, msg: Seq<char>) -> Seq<char> {
    path + ": "@ + msg
}

fn manifest_error(path: &str, msg: &[char]) -> (e: LoadError)
    ensures
        e.phase == Phase::Module,
        e.message@ == manifest_message(path@, msg@),
{
    let mut s = String::new();
    push_str(&mut s, path);
    push_str(&mut s, ": ");
    push_chars(&mut s, msg);
    LoadError::message(Phase::Module, s)
}

/// Check that `name` can be a package name; the error names the manifest.
pub fn check_package_name(name: &[char], path: &str) -> (r: Result<(), LoadError>)
    ensures
        match r {
            Ok(()) => valid_package_name(name@),
            Err(e) => !valid_package_name(name@) && e.phase == Phase::Module && e.message@
                == manifest_message(path@, bad_name_text(name@)),
        },
{
    if is_package_name(name) {
        Ok(())
    } else {
        let mut msg = String::new();
        push_str(&mut msg, "package name '");
        push_chars(&mut msg, name);
        push_str(
            &mut msg,
            "' is not an identifier — a package name is the first segment of an import path (letters, digits and '_', not starting with a digit)",
        );
        let m = chars_of(msg.as_str());
        Err(manifest_error(path, m.as_slice()))
    }
}

/// The first index at or after `i` holding `c`, or the length of `s`.
pub open spec fn find_from(s: Seq<char>, c: char, i: int) -> int
    decreases s.len() - i,
{
    if i < 0 || i >= s.len() {
        s.len() as int
    } else if s[i] == c {
        i
    } else {
        find_from(s, c, i + 1)
    }
}

pub proof fn lemma_find_from_bounds(s: Seq<char>, c: char, i: int)
    requires
        0 <= i <= s.len(),
    ensures
        i <= find_from(s, c, i) <= s.len(),
        find_from(s, c, i) < s.len() ==> s[find_from(s, c, i)] == c,
    decreases s.len() - i,
{
    if i < s.len() && s[i] != c {
        lemma_find_from_bounds(s, c, i + 1);
    }
}

/// The first index at or after `from` holding `c`, or the length.
pub(crate) fn find_char_pub(s: &[char], c: char, from: usize) -> (r: usize)
    requires
        from <= s.len(),
    ensures
        r == find_from(s@, c, from as int),
        from <= r <= s.len(),
{
    find_char(s, c, from)
}

fn find_char(s: &[char], c: char, from: usize) -> (r: usize)
    requires
        from <= s.len(),
    ensures
        r == find_from(s@, c, from as int),
        from <= r <= s.len(),
{
    proof {
        lemma_find_from_bounds(s@, c, from as int);
    }
    let mut i = from;
    while i < s.len() && s[i] != c
        invariant
            from <= i <= s.len(),
            find_from(s@, c, from as int) == find_from(s@, c, i as int),
        decreases s.len() - i,
    {
        i = i + 1;
    }
    i
}

/// The text of the line that starts at `pos`: up to the next `\n`, without
/// the `\r` of a `\r\n` ending (how `str::lines` splits).
pub open spec fn line_text(s: Seq<char>, pos: int) -> Seq<char> {
    let e = find_from(s, '\n', pos);
    if e < s.len() && e > pos && s[e - 1] == '\r' {
        s.subrange(pos, e - 1)
    } else {
        s.subrange(pos, e)
    }
}

/// `line N: ` before a message about line `n`.
pub open spec fn line_prefix(n: nat) -> Seq<char> {
    "line "@ + crate::text::decimal(n) + ": "@
}

/// Scan the manifest lines from `pos` (line number `n`) on, from state
/// `st`; `Err` carries the message for the first bad line.
pub open spec fn scan_spec(s: Seq<char>, pos: int, n: nat, st: ScanState) -> Result<
    ScanState,
    Seq<char>,
>
    decreases s.len() - pos,
{
    if pos < 0 || pos >= s.len() {
        Ok(st)
    } else {
        let e = find_from(s, '\n', pos);
        let next = if e < s.len() { e + 1 } else { s.len() as int };
        let line = trim(strip_comment_spec(line_text(s, pos)));
        proof {
            lemma_find_from_bounds(s, '\n', pos);
        }
        if next <= pos {
            Ok(st)
        } else if line.len() == 0 {
            scan_spec(s, next, n + 1, st)
        } else if line[0] == '[' {
            if line.len() < 2 || line.last() != ']' {
                Err(line_prefix(n) + "unterminated section header '"@ + line + "'"@)
            } else {
                let section = trim(line.subrange(1, line.len() - 1));
                scan_spec(
                    s,
                    next,
                    n + 1,
                    ScanState {
                        section,
                        saw_package: st.saw_package || section == "package"@,
                        ..st
                    },
                )
            }
        } else {
            let eq = find_from(line, '=', 0);
            if eq >= line.len() {
                Err(line_prefix(n) + "expected 'key = \"value\"', found '"@ + line + "'"@)
            } else {
                let key = trim(line.take(eq));
                let raw = trim(line.subrange(eq + 1, line.len() as int));
                match string_value_spec(raw) {
                    None => Err(
                        line_prefix(n) + "the value of '"@ + key + "' must be a quoted string, found '"@
                            + raw + "'"@,
                    ),
                    Some(v) => if st.section != "package"@ {
                        scan_spec(s, next, n + 1, st)
                    } else if key == "name"@ {
                        scan_spec(s, next, n + 1, ScanState { name: Some(v), ..st })
                    } else if key == "version"@ {
                        scan_spec(s, next, n + 1, ScanState { version: Some(v), ..st })
                    } else if key == "modules"@ {
                        scan_spec(s, next, n + 1, ScanState { modules: Some(v), ..st })
                    } else {
                        scan_spec(s, next, n + 1, st)
                    },
                }
            }
        }
    }
}

/// The text with a leading byte-order mark removed.
pub open spec fn without_bom(s: Seq<char>) -> Seq<char> {
    if s.len() > 0 && s[0] == '\u{feff}' { s.drop_first() } else { s }
}

/// The scan's starting state.
pub open spec fn initial_scan() -> ScanState {
    ScanState { section: Seq::empty(), name: None, version: None, modules: None, saw_package: false }
}

/// What a manifest says, or the error message (before the path prefix):
/// every line must be a section header, a `key = "string"` pair, a comment
/// or blank; there must be a `[package]` section naming the package, and
/// the name must be an identifier.
pub open spec fn manifest_spec(text: Seq<char>) -> Result<
    (Seq<char>, Option<Seq<char>>, Option<Seq<char>>),
    Seq<char>,
> {
    match scan_spec(without_bom(text), 0, 1, initial_scan()) {
        Err(m) => Err(m),
        Ok(st) => if !st.saw_package {
            Err("missing the [package] section"@)
        } else {
            match st.name {
                None => Err("[package] has no 'name'"@),
                Some(name) => if !valid_package_name(name) {
                    Err(bad_name_text(name))
                } else {
                    Ok((name, st.version, st.modules))
                },
            }
        },
    }
}

fn line_prefix_chars(n: u64) -> (r: Vec<char>)
    ensures
        r@ == line_prefix(n as nat),
{
    let mut r: Vec<char> = chars_of("line ");
    let d = crate::text::decimal_chars(n);
    let mut i: usize = 0;
    let ghost start = r@;
    while i < d.len()
        invariant
            i <= d.len(),
            r@ == start + d@.take(i as int),
        decreases d.len() - i,
    {
        r.push(d[i]);
        proof {
            assert(d@.take((i + 1) as int) =~= d@.take(i as int).push(d@[i as int]));
        }
        i = i + 1;
    }
    let tail = chars_of(": ");
    let mut j: usize = 0;
    let ghost mid = r@;
    while j < tail.len()
        invariant
            j <= tail.len(),
            r@ == mid + tail@.take(j as int),
        decreases tail.len() - j,
    {
        r.push(tail[j]);
        proof {
            assert(tail@.take((j + 1) as int) =~= tail@.take(j as int).push(tail@[j as int]));
        }
        j = j + 1;
    }
    proof {
        assert(d@.take(d.len() as int) =~= d@);
        assert(tail@.take(tail.len() as int) =~= tail@);
    }
    r
}

/// `a + b` as a new vector.
fn concat(a: &[char], b: &[char]) -> (r: Vec<char>)
    ensures
        r@ == a@ + b@,
{
    let mut r = slice_chars(a, 0, a.len());
    let mut i: usize = 0;
    proof {
        assert(a@.subrange(0, a.len() as int) =~= a@);
    }
    while i < b.len()
        invariant
            i <= b.len(),
            r@ == a@ + b@.take(i as int),
        decreases b.len() - i,
    {
        r.push(b[i]);
        proof {
            assert(b@.take((i + 1) as int) =~= b@.take(i as int).push(b@[i as int]));
        }
        i = i + 1;
    }
    proof {
        assert(b@.take(b.len() as int) =~= b@);
    }
    r
}

fn concat_str(a: &[char], b: &str) -> (r: Vec<char>)
    ensures
        r@ == a@ + b@,
{
    let bv = chars_of(b);
    concat(a, bv.as_slice())
}

/// Parse the sliver of TOML a manifest needs: `[section]` headers, `key =
/// "string"` pairs, `#` comments, blank lines. Anything else is an error
/// naming the line; every error names the manifest at `path`.
pub fn parse_manifest(text: &str, path: &str) -> (r: Result<Manifest, LoadError>)
    requires
        text@.len() < usize::MAX,
    ensures
        match r {
            Ok(m) => manifest_spec(text@) == Ok::<_, Seq<char>>(
                (
                    m.name@,
                    match m.version {
                        Some(v) => Some(v@),
                        None => None,
                    },
                    match m.modules {
                        Some(v) => Some(v@),
                        None => None,
                    },
                ),
            ),
            Err(e) => e.phase == Phase::Module && manifest_spec(text@) is Err && e.message@
                == manifest_message(path@, manifest_spec(text@)->Err_0),
        },
{
    let raw = chars_of(text);
    let s: Vec<char> = if raw.len() > 0 && raw[0] == '\u{feff}' {
        slice_chars(raw.as_slice(), 1, raw.len())
    } else {
        raw
    };
    proof {
        assert(s@ == without_bom(text@)) by {
            if text@.len() > 0 && text@[0] == '\u{feff}' {
                assert(text@.subrange(1, text@.len() as int) =~= text@.drop_first());
            }
        }
    }
    let mut section: Vec<char> = Vec::new();
    let mut name: Option<Vec<char>> = None;
    let mut version: Option<Vec<char>> = None;
    let mut modules: Option<Vec<char>> = None;
    let mut saw_package = false;
    let mut pos: usize = 0;
    let mut n: u64 = 1;
    while pos < s.len()
        invariant
            pos <= s.len(),
            s@ == without_bom(text@),
            s@.len() < usize::MAX,
            n >= 1,
            n <= pos + 1,
            scan_spec(s@, 0, 1, initial_scan()) == scan_spec(
                s@,
                pos as int,
                n as nat,
                ScanState {
                    section: section@,
                    name: match name {
                        Some(v) => Some(v@),
                        None => None,
                    },
                    version: match version {
                        Some(v) => Some(v@),
                        None => None,
                    },
                    modules: match modules {
                        Some(v) => Some(v@),
                        None => None,
                    },
                    saw_package,
                },
            ),
        decreases s.len() - pos,
    {
        let e = find_char(s.as_slice(), '\n', pos);
        let line_end = if e < s.len() && e > pos && s[e - 1] == '\r' { e - 1 } else { e };
        let raw_line = slice_chars(s.as_slice(), pos, line_end);
        let stripped = strip_comment(raw_line.as_slice());
        let line = trim_chars(stripped.as_slice());
        let next = if e < s.len() { e + 1 } else { s.len() };
        if line.len() == 0 {
            pos = next;
            n = n + 1;
            continue;
        }
        if line[0] == '[' {
            if line.len() < 2 || line[line.len() - 1] != ']' {
                let p = line_prefix_chars(n);
                let m1 = concat_str(p.as_slice(), "unterminated section header '");
                let m2 = concat(m1.as_slice(), line.as_slice());
                let m3 = concat_str(m2.as_slice(), "'");
                return Err(manifest_error(path, m3.as_slice()));
            }
            let inner = slice_chars(line.as_slice(), 1, line.len() - 1);
            section = trim_chars(inner.as_slice());
            if chars_eq_str(section.as_slice(), "package") {
                saw_package = true;
            }
            pos = next;
            n = n + 1;
            continue;
        }
        let eq = find_char(line.as_slice(), '=', 0);
        if eq >= line.len() {
            let p = line_prefix_chars(n);
            let m1 = concat_str(p.as_slice(), "expected 'key = \"value\"', found '");
            let m2 = concat(m1.as_slice(), line.as_slice());
            let m3 = concat_str(m2.as_slice(), "'");
            return Err(manifest_error(path, m3.as_slice()));
        }
        let key_raw = slice_chars(line.as_slice(), 0, eq);
        let key = trim_chars(key_raw.as_slice());
        let val_raw = slice_chars(line.as_slice(), eq + 1, line.len());
        let val_text = trim_chars(val_raw.as_slice());
        proof {
            assert(key_raw@ == line@.take(eq as int));
        }
        match parse_string_value(val_text.as_slice()) {
            None => {
                let p = line_prefix_chars(n);
                let m1 = concat_str(p.as_slice(), "the value of '");
                let m2 = concat(m1.as_slice(), key.as_slice());
                let m3 = concat_str(m2.as_slice(), "' must be a quoted string, found '");
                let m4 = concat(m3.as_slice(), val_text.as_slice());
                let m5 = concat_str(m4.as_slice(), "'");
                return Err(manifest_error(path, m5.as_slice()));
            },
            Some(v) => {
                if chars_eq_str(section.as_slice(), "package") {
                    if chars_eq_str(key.as_slice(), "name") {
                        name = Some(v);
                    } else if chars_eq_str(key.as_slice(), "version") {
                        version = Some(v);
                    } else if chars_eq_str(key.as_slice(), "modules") {
                        modules = Some(v);
                    }
                }
            },
        }
        pos = next;
        n = n + 1;
    }
    if !saw_package {
        let m = chars_of("missing the [package] section");
        return Err(manifest_error(path, m.as_slice()));
    }
    match name {
        None => {
            let m = chars_of("[package] has no 'name'");
            Err(manifest_error(path, m.as_slice()))
        },
        Some(nm) => {
            match check_package_name(nm.as_slice(), path) {
                Err(e) => Err(e),
                Ok(()) => Ok(
                    Manifest {
                        name: string_of(nm.as_slice()),
                        version: match version {
                            Some(v) => Some(string_of(v.as_slice())),
                            None => None,
                        },
                        modules: match modules {
                            Some(v) => Some(string_of(v.as_slice())),
                            None => None,
                        },
                    },
                ),
            }
        },
    }
}

// ── module names and paths ──────────────────────────────────────────

/// The `/`-separated segments of `s` from index `i` on (an empty string
/// has one empty segment, as `str::split` gives).
pub open spec fn segments_from(s: Seq<char>, i: int) -> Seq<Seq<char>>
    decreases s.len() - i,
{
    if i < 0 || i > s.len() {
        Seq::empty()
    } else {
        let e = find_from(s, '/', i);
        if e >= s.len() || e < i {
            seq![s.subrange(i, s.len() as int)]
        } else {
            seq![s.subrange(i, e)] + segments_from(s, e + 1)
        }
    }
}

/// Why a package-relative module name is unusable, checking the segments
/// from index `k` on: an empty segment, `.` or `..`, or a `\` or `:`.
pub open spec fn segment_error(module: Seq<char>, segs: Seq<Seq<char>>, k: int) -> Option<Seq<char>>
    decreases segs.len() - k,
{
    if k < 0 || k >= segs.len() {
        None
    } else {
        let seg = segs[k];
        if seg.len() == 0 {
            Some("module name '"@ + module + "' has an empty segment"@)
        } else if seg == "."@ || seg == ".."@ {
            Some("module name '"@ + module + "' may not contain '.' or '..'"@)
        } else if seg.contains('\\') || seg.contains(':') {
            Some("module name '"@ + module + "' may not contain '\\' or ':'"@)
        } else {
            segment_error(module, segs, k + 1)
        }
    }
}

/// Why a package-relative module name is unusable, or `None`.
pub open spec fn module_name_error(module: Seq<char>) -> Option<Seq<char>> {
    if module.len() == 0 {
        Some("a module name may not be empty"@)
    } else {
        segment_error(module, segments_from(module, 0), 0)
    }
}

proof fn lemma_segments_step(s: Seq<char>, i: int)
    requires
        0 <= i <= s.len(),
    ensures
        segments_from(s, i).len() >= 1,
        segments_from(s, i)[0] == s.subrange(i, find_from(s, '/', i)),
        find_from(s, '/', i) < s.len() ==> segments_from(s, i).drop_first() == segments_from(
            s,
            find_from(s, '/', i) + 1,
        ),
        find_from(s, '/', i) >= s.len() ==> segments_from(s, i).len() == 1,
{
    lemma_find_from_bounds(s, '/', i);
    let e = find_from(s, '/', i);
    if e < s.len() {
        assert((seq![s.subrange(i, e)] + segments_from(s, e + 1)).drop_first() =~= segments_from(
            s,
            e + 1,
        ));
    }
}

/// Why a package-relative module name is unusable, or `None`. Mirrors the
/// module path rules: no empty segment, no `.`/`..`, no other separators.
pub fn relative_module_error(module: &[char]) -> (r: Option<String>)
    ensures
        match r {
            Some(m) => module_name_error(module@) == Some(m@),
            None => module_name_error(module@) is None,
        },
{
    if module.len() == 0 {
        return Some(crate::text::string_from("a module name may not be empty"));
    }
    let mut i: usize = 0;
    let ghost segs = segments_from(module@, 0);
    let ghost k: int = 0;
    loop
        invariant
            i <= module.len(),
            module@.len() > 0,
            0 <= k,
            k < segs.len(),
            segs == segments_from(module@, 0),
            segs.subrange(k, segs.len() as int) == segments_from(module@, i as int),
            segment_error(module@, segs, 0) == segment_error(module@, segs, k),
        decreases module.len() - i,
    {
        proof {
            lemma_segments_step(module@, i as int);
        }
        let e = find_char(module, '/', i);
        let seg = slice_chars(module, i, e);
        proof {
            assert(segs[k] == segments_from(module@, i as int)[0]);
        }
        if seg.len() == 0 {
            let mut m = crate::text::string_from("module name '");
            push_chars(&mut m, module);
            push_str(&mut m, "' has an empty segment");
            return Some(m);
        }
        if chars_eq_str(seg.as_slice(), ".") || chars_eq_str(seg.as_slice(), "..") {
            let mut m = crate::text::string_from("module name '");
            push_chars(&mut m, module);
            push_str(&mut m, "' may not contain '.' or '..'");
            return Some(m);
        }
        if contains_char(seg.as_slice(), '\\') || contains_char(seg.as_slice(), ':') {
            let mut m = crate::text::string_from("module name '");
            push_chars(&mut m, module);
            push_str(&mut m, "' may not contain '\\' or ':'");
            return Some(m);
        }
        if e >= module.len() {
            proof {
                assert(segments_from(module@, i as int).len() == 1);
                assert(segs.len() == k + 1);
                assert(!(seg@.len() == 0));
                assert(segment_error(module@, segs, k + 1) is None);
                assert(segment_error(module@, segs, k) is None);
            }
            return None;
        }
        proof {
            assert(segs.subrange(k + 1, segs.len() as int) =~= segs.subrange(
                k,
                segs.len() as int,
            ).drop_first());
            k = k + 1;
        }
        i = e + 1;
    }
}

/// `<dir>/a/b.ptl` for the module `a/b`.
pub open spec fn module_file_text(dir: Seq<char>, module: Seq<char>) -> Seq<char> {
    dir + "/"@ + module + ".ptl"@
}

/// The file a module of a package lives in: `<dir>/a/b.ptl` for `a/b`.
pub fn module_file_path(dir: &str, module: &[char]) -> (p: String)
    ensures
        p@ == module_file_text(dir@, module@),
{
    let mut p = crate::text::string_from(dir);
    push_str(&mut p, "/");
    push_chars(&mut p, module);
    push_str(&mut p, ".ptl");
    p
}

/// Lexicographic order on character sequences (the order of `String`).
pub open spec fn seq_lt(a: Seq<char>, b: Seq<char>) -> bool
    decreases a.len(),
{
    if a.len() == 0 {
        b.len() > 0
    } else if b.len() == 0 {
        false
    } else if a[0] != b[0] {
        a[0] < b[0]
    } else {
        seq_lt(a.drop_first(), b.drop_first())
    }
}

pub(crate) fn chars_lt(a: &[char], b: &[char]) -> (r: bool)
    ensures
        r == seq_lt(a@, b@),
{
    let mut i: usize = 0;
    proof {
        assert(a@.skip(0) =~= a@);
        assert(b@.skip(0) =~= b@);
    }
    while i < a.len() && i < b.len() && a[i] == b[i]
        invariant
            i <= a.len(),
            i <= b.len(),
            seq_lt(a@, b@) == seq_lt(a@.skip(i as int), b@.skip(i as int)),
        decreases a.len() - i,
    {
        proof {
            assert(a@.skip(i as int).drop_first() =~= a@.skip((i + 1) as int));
            assert(b@.skip(i as int).drop_first() =~= b@.skip((i + 1) as int));
        }
        i = i + 1;
    }
    if i == a.len() {
        i < b.len()
    } else if i == b.len() {
        false
    } else {
        a[i] < b[i]
    }
}

/// Keys strictly increasing.
pub open spec fn sorted_keys(entries: Seq<(Seq<char>, Seq<char>)>) -> bool {
    forall|i: int, j: int| 0 <= i < j < entries.len() ==> seq_lt(entries[i].0, entries[j].0)
}

/// The map a list of entries with distinct keys stands for.
pub open spec fn entries_map(entries: Seq<(Seq<char>, Seq<char>)>) -> Map<Seq<char>, Seq<char>>
    decreases entries.len(),
{
    if entries.len() == 0 {
        Map::empty()
    } else {
        entries_map(entries.drop_last()).insert(entries.last().0, entries.last().1)
    }
}

/// The view of `(String, String)` entries.
pub open spec fn entries_view(v: Seq<(String, String)>) -> Seq<(Seq<char>, Seq<char>)> {
    v.map_values(|e: (String, String)| (e.0@, e.1@))
}

pub(crate) proof fn lemma_seq_lt_irreflexive(a: Seq<char>)
    ensures
        !seq_lt(a, a),
    decreases a.len(),
{
    if a.len() > 0 {
        lemma_seq_lt_irreflexive(a.drop_first());
    }
}

/// Keys order lexicographically, as `str` does: `a` is below `b` exactly
/// when, after their longest common prefix, `a` has ended while `b` goes
/// on, or `a`'s next character is below `b`'s. So the empty key is below
/// every other, and a key is below each of its extensions.
pub proof fn law_seq_lt_is_lexicographic(a: Seq<char>, b: Seq<char>)
    ensures
        seq_lt(a, b) <==> exists|i: int|
            0 <= i <= a.len() && i <= b.len() && #[trigger] a.take(i) == b.take(i) && ((i == a.len() && i < b.len())
                || (i < a.len() && i < b.len() && a[i] < b[i])),
        b.len() > 0 ==> seq_lt(a, a + b),
        !seq_lt(a + b, a),
    decreases a.len(),
{
    if a.len() == 0 {
        if b.len() > 0 {
            assert(a.take(0) =~= b.take(0));
        }
        assert(a + b =~= b);
    } else if b.len() == 0 {
        assert forall|i: int| 0 <= i <= a.len() && i <= b.len() && a.take(i) == b.take(i) implies !((i == a.len() && i < b.len()) || (i < a.len() && i < b.len() && a[i] < b[i])) by {
        }
        assert(a + b =~= a);
        lemma_seq_lt_irreflexive(a);
    } else {
        let a1 = a.drop_first();
        let b1 = b.drop_first();
        law_seq_lt_is_lexicographic(a1, b1);
        law_seq_lt_is_lexicographic(a1, b);
        assert((a + b).drop_first() =~= a1 + b);
        assert((a + b)[0] == a[0]);
        if a[0] != b[0] {
            assert(a.take(0) =~= b.take(0));
            assert forall|i: int| 0 <= i <= a.len() && i <= b.len() && #[trigger] a.take(i) == b.take(i) implies i == 0 by {
                if i > 0 {
                    assert(a.take(i)[0] == b.take(i)[0]);
                }
            }
        } else {
            if seq_lt(a, b) {
                let j = choose|j: int|
                    0 <= j <= a1.len() && j <= b1.len() && #[trigger] a1.take(j) == b1.take(j) && ((j == a1.len() && j
                        < b1.len()) || (j < a1.len() && j < b1.len() && a1[j] < b1[j]));
                assert(a.take(j + 1) =~= seq![a[0]] + a1.take(j));
                assert(b.take(j + 1) =~= seq![b[0]] + b1.take(j));
                assert(a.take(j + 1) == b.take(j + 1));
            }
            if exists|i: int|
                0 <= i <= a.len() && i <= b.len() && #[trigger] a.take(i) == b.take(i) && ((i == a.len() && i < b.len())
                    || (i < a.len() && i < b.len() && a[i] < b[i])) {
                let i = choose|i: int|
                    0 <= i <= a.len() && i <= b.len() && #[trigger] a.take(i) == b.take(i) && ((i == a.len() && i < b.len())
                        || (i < a.len() && i < b.len() && a[i] < b[i]));
                assert(i > 0);
                assert(a1.take(i - 1) =~= a.take(i).drop_first());
                assert(b1.take(i - 1) =~= b.take(i).drop_first());
                assert(a1.take(i - 1) == b1.take(i - 1));
            }
        }
        // `a` below `a + b`, and `a + b` never below `a`.
        assert((a + b)[0] == a[0]);
    }
}

pub(crate) proof fn lemma_seq_lt_trans(a: Seq<char>, b: Seq<char>, c: Seq<char>)
    requires
        seq_lt(a, b),
        seq_lt(b, c),
    ensures
        seq_lt(a, c),
    decreases a.len(),
{
    if a.len() > 0 && b.len() > 0 && c.len() > 0 && a[0] == b[0] && b[0] == c[0] {
        lemma_seq_lt_trans(a.drop_first(), b.drop_first(), c.drop_first());
    }
}

pub(crate) proof fn lemma_seq_lt_total(a: Seq<char>, b: Seq<char>)
    requires
        a != b,
    ensures
        seq_lt(a, b) || seq_lt(b, a),
    decreases a.len(),
{
    if a.len() > 0 && b.len() > 0 && a[0] == b[0] {
        assert(a.drop_first() != b.drop_first()) by {
            if a.drop_first() == b.drop_first() {
                assert(a =~= seq![a[0]] + a.drop_first());
                assert(b =~= seq![b[0]] + b.drop_first());
            }
        }
        lemma_seq_lt_total(a.drop_first(), b.drop_first());
    } else if a.len() == 0 && b.len() == 0 {
        assert(a =~= b);
    }
}

/// The lookup of `key` in sorted distinct entries.
pub(crate) proof fn lemma_entries_map_get(entries: Seq<(Seq<char>, Seq<char>)>, i: int)
    requires
        sorted_keys(entries),
        0 <= i < entries.len(),
    ensures
        entries_map(entries).contains_key(entries[i].0),
        entries_map(entries)[entries[i].0] == entries[i].1,
    decreases entries.len(),
{
    if i < entries.len() - 1 {
        lemma_entries_map_get(entries.drop_last(), i);
        lemma_seq_lt_irreflexive(entries[i].0);
        assert(entries.last().0 != entries[i].0);
    }
}

proof fn lemma_entries_map_dom(entries: Seq<(Seq<char>, Seq<char>)>, key: Seq<char>)
    ensures
        entries_map(entries).contains_key(key) <==> exists|i: int|
            0 <= i < entries.len() && entries[i].0 == key,
    decreases entries.len(),
{
    if entries.len() > 0 {
        lemma_entries_map_dom(entries.drop_last(), key);
        if entries_map(entries.drop_last()).contains_key(key) {
            let i = choose|i: int| 0 <= i < entries.len() - 1 && entries.drop_last()[i].0 == key;
            assert(entries[i].0 == key);
        }
        if exists|i: int| 0 <= i < entries.len() && entries[i].0 == key {
            let i = choose|i: int| 0 <= i < entries.len() && entries[i].0 == key;
            if i < entries.len() - 1 {
                assert(entries.drop_last()[i].0 == key);
            }
        }
    }
}

/// Where `key` belongs in the sorted entries `v`: the index of the first
/// key not below it, and whether that key is `key` itself.
pub(crate) fn find_slot(v: &Vec<(String, String)>, key: &[char]) -> (r: (usize, bool))
    requires
        sorted_keys(entries_view(v@)),
    ensures
        r.0 <= v@.len(),
        forall|j: int| 0 <= j < r.0 ==> seq_lt(#[trigger] entries_view(v@)[j].0, key@),
        r.1 ==> r.0 < v@.len() && entries_view(v@)[r.0 as int].0 == key@,
        !r.1 ==> r.0 < v@.len() ==> seq_lt(key@, entries_view(v@)[r.0 as int].0),
{
    let mut i: usize = 0;
    while i < v.len()
        invariant
            i <= v.len(),
            sorted_keys(entries_view(v@)),
            forall|j: int| 0 <= j < i ==> seq_lt(#[trigger] entries_view(v@)[j].0, key@),
        decreases v.len() - i,
    {
        let ec = chars_of(v[i].0.as_str());
        if chars_eq(ec.as_slice(), key) {
            return (i, true);
        }
        if chars_lt(key, ec.as_slice()) {
            return (i, false);
        }
        proof {
            lemma_seq_lt_total(key@, entries_view(v@)[i as int].0);
        }
        i = i + 1;
    }
    (i, false)
}

/// Set `key` to `val` in the sorted entries `v`, replacing an equal key's
/// value and otherwise inserting it in order.
pub(crate) fn sorted_insert(v: &mut Vec<(String, String)>, key: String, val: String)
    requires
        sorted_keys(entries_view(old(v)@)),
    ensures
        sorted_keys(entries_view(final(v)@)),
        entries_map(entries_view(final(v)@)) == entries_map(entries_view(old(v)@)).insert(
            key@,
            val@,
        ),
{
    let kc = chars_of(key.as_str());
    let (i, found) = find_slot(v, kc.as_slice());
    let ghost before = entries_view(v@);
    if found {
        v.set(i, (key, val));
        proof {
            let after = entries_view(v@);
            assert(after =~= before.update(i as int, (key@, val@)));
            assert(sorted_keys(after));
            lemma_map_update(before, i as int, val@);
        }
        return;
    }
    proof {
        assert forall|m: int| i <= m < before.len() implies seq_lt(key@, #[trigger] before[m].0) by {
            if m > i {
                lemma_seq_lt_trans(key@, before[i as int].0, before[m].0);
            }
        }
    }
    v.insert(i, (key, val));
    proof {
        let after = entries_view(v@);
        assert(after =~= before.insert(i as int, (key@, val@)));
        assert forall|a: int, b: int| 0 <= a < b < after.len() implies seq_lt(
            after[a].0,
            after[b].0,
        ) by {
            if b == i {
            } else if a == i {
                assert(seq_lt(key@, before[b - 1].0));
            } else if a < i && b > i {
                assert(seq_lt(key@, before[b - 1].0));
                lemma_seq_lt_trans(before[a].0, key@, before[b - 1].0);
            }
        }
        lemma_map_insert_new(before, i as int, key@, val@);
    }
}

proof fn lemma_map_update(entries: Seq<(Seq<char>, Seq<char>)>, i: int, val: Seq<char>)
    requires
        sorted_keys(entries),
        0 <= i < entries.len(),
    ensures
        entries_map(entries.update(i, (entries[i].0, val))) == entries_map(entries).insert(
            entries[i].0,
            val,
        ),
{
    let after = entries.update(i, (entries[i].0, val));
    assert(sorted_keys(after));
    assert forall|k: Seq<char>| #[trigger]
        entries_map(after).contains_key(k) == entries_map(entries).insert(entries[i].0, val).contains_key(k)
        by {
        lemma_entries_map_dom(after, k);
        lemma_entries_map_dom(entries, k);
        if k == entries[i].0 {
            assert(after[i].0 == k);
        }
        if exists|j: int| 0 <= j < entries.len() && entries[j].0 == k {
            let j = choose|j: int| 0 <= j < entries.len() && entries[j].0 == k;
            assert(after[j].0 == k);
        }
    }
    assert forall|k: Seq<char>| #[trigger]
        entries_map(after).contains_key(k) implies entries_map(after)[k] == entries_map(
        entries,
    ).insert(entries[i].0, val)[k] by {
        lemma_entries_map_dom(after, k);
        let j = choose|j: int| 0 <= j < after.len() && after[j].0 == k;
        lemma_entries_map_get(after, j);
        if j != i {
            lemma_entries_map_get(entries, j);
            lemma_seq_lt_irreflexive(k);
            if j < i {
                assert(seq_lt(entries[j].0, entries[i].0));
            } else {
                assert(seq_lt(entries[i].0, entries[j].0));
            }
            assert(k != entries[i].0);
        }
    }
    assert(entries_map(after) =~= entries_map(entries).insert(entries[i].0, val));
}

proof fn lemma_map_insert_new(
    entries: Seq<(Seq<char>, Seq<char>)>,
    i: int,
    key: Seq<char>,
    val: Seq<char>,
)
    requires
        sorted_keys(entries),
        sorted_keys(entries.insert(i, (key, val))),
        0 <= i <= entries.len(),
    ensures
        entries_map(entries.insert(i, (key, val))) == entries_map(entries).insert(key, val),
{
    let after = entries.insert(i, (key, val));
    assert forall|k: Seq<char>| #[trigger]
        entries_map(after).contains_key(k) == entries_map(entries).insert(key, val).contains_key(k)
        by {
        lemma_entries_map_dom(after, k);
        lemma_entries_map_dom(entries, k);
        if k == key {
            assert(after[i].0 == k);
        }
        if exists|j: int| 0 <= j < entries.len() && entries[j].0 == k {
            let j = choose|j: int| 0 <= j < entries.len() && entries[j].0 == k;
            if j < i {
                assert(after[j].0 == k);
            } else {
                assert(after[j + 1].0 == k);
            }
        }
        if exists|j: int| 0 <= j < after.len() && after[j].0 == k {
            let j = choose|j: int| 0 <= j < after.len() && after[j].0 == k;
            if j < i {
                assert(entries[j].0 == k);
            } else if j > i {
                assert(entries[j - 1].0 == k);
            }
        }
    }
    assert forall|k: Seq<char>| #[trigger]
        entries_map(after).contains_key(k) implies entries_map(after)[k] == entries_map(
        entries,
    ).insert(key, val)[k] by {
        lemma_entries_map_dom(after, k);
        let j = choose|j: int| 0 <= j < after.len() && after[j].0 == k;
        lemma_entries_map_get(after, j);
        lemma_seq_lt_irreflexive(key);
        if j < i {
            lemma_entries_map_get(entries, j);
            assert(seq_lt(after[j].0, after[i].0));
            assert(k != key);
        } else if j > i {
            lemma_entries_map_get(entries, j - 1);
            assert(seq_lt(after[i].0, after[j].0));
            assert(k != key);
        }
    }
    assert(entries_map(after) =~= entries_map(entries).insert(key, val));
}


/// `module` without a trailing `.ptl`.
pub open spec fn strip_ptl(module: Seq<char>) -> Seq<char> {
    if module.len() >= 4 && module.subrange(module.len() - 4, module.len() as int) == ".ptl"@ {
        module.subrange(0, module.len() - 4)
    } else {
        module
    }
}

/// The sources of an in-memory package, keyed by module name, or the
/// problem with the first module name that is unusable.
pub open spec fn sources_spec(modules: Seq<(Seq<char>, Seq<char>)>) -> Result<
    Map<Seq<char>, Seq<char>>,
    Seq<char>,
>
    decreases modules.len(),
{
    if modules.len() == 0 {
        Ok(Map::empty())
    } else {
        match sources_spec(modules.drop_last()) {
            Err(e) => Err(e),
            Ok(m) => {
                let key = strip_ptl(modules.last().0);
                match module_name_error(key) {
                    Some(problem) => Err(problem),
                    None => Ok(m.insert(key, modules.last().1)),
                }
            },
        }
    }
}

/// The views of `(module, source)` pairs handed to [`Package::in_memory`].
pub open spec fn pairs_view(modules: Seq<(&str, &str)>) -> Seq<(Seq<char>, Seq<char>)> {
    modules.map_values(|e: (&str, &str)| (e.0@, e.1@))
}

/// The synthetic root of an in-memory package.
pub open spec fn package_root(name: Seq<char>) -> Seq<char> {
    "<package:"@ + name + ">"@
}

/// The message for an unusable module name in an in-memory package.
pub open spec fn package_problem(name: Seq<char>, problem: Seq<char>) -> Seq<char> {
    "package '"@ + name + "': "@ + problem
}

/// The keys of sorted entries, in order.
pub open spec fn entry_keys(entries: Seq<(Seq<char>, Seq<char>)>) -> Seq<Seq<char>> {
    entries.map_values(|e: (Seq<char>, Seq<char>)| e.0)
}

/// The views of a list of strings.
pub open spec fn strings_view(v: Seq<String>) -> Seq<Seq<char>> {
    v.map_values(|s: String| s@)
}

impl Package {
    /// The package's manifest facts.
    pub closed spec fn info_spec(&self) -> PackageInfo {
        self.info
    }

    /// The sources of an in-memory package by module name; `None` for a
    /// package read from disk.
    pub closed spec fn memory_sources(&self) -> Option<Map<Seq<char>, Seq<char>>> {
        match self.sources {
            Some(v) => Some(entries_map(entries_view(v@))),
            None => None,
        }
    }

    /// The package's internal consistency: in-memory sources are sorted by
    /// module name and `info.modules` lists exactly their names.
    pub closed spec fn wf(&self) -> bool {
        match self.sources {
            Some(v) => {
                &&& sorted_keys(entries_view(v@))
                &&& strings_view(self.info.modules@) == entry_keys(entries_view(v@))
                &&& forall|k: Seq<char>| #[trigger]
                    entries_map(entries_view(v@)).contains_key(k) ==> module_name_error(k) is None
            },
            None => true,
        }
    }

    /// A package whose sources are handed over directly, as `(module name,
    /// source)` pairs; a `.ptl` suffix on a module name is stripped.
    pub fn in_memory(name: &str, modules: &[(&str, &str)]) -> (r: Result<Package, LoadError>)
        ensures
            r is Ok <==> valid_package_name(name@) && sources_spec(pairs_view(modules@)) is Ok,
            match r {
                Ok(p) => {
                    &&& p.wf()
                    &&& p.info_spec().name@ == name@
                    &&& p.info_spec().version is None
                    &&& p.info_spec().root@ == package_root(name@)
                    &&& p.info_spec().module_dir@ == package_root(name@)
                    &&& p.info_spec().in_memory
                    &&& p.memory_sources() == Some(sources_spec(pairs_view(modules@))->Ok_0)
                },
                Err(e) => {
                    &&& e.phase == Phase::Module
                    &&& !valid_package_name(name@) ==> e.message@ == manifest_message(
                        package_root(name@),
                        bad_name_text(name@),
                    )
                    &&& valid_package_name(name@) ==> e.message@ == package_problem(
                        name@,
                        sources_spec(pairs_view(modules@))->Err_0,
                    )
                },
            },
    {
        let mut root = crate::text::string_from("<package:");
        push_str(&mut root, name);
        push_str(&mut root, ">");
        let name_chars = chars_of(name);
        match check_package_name(name_chars.as_slice(), root.as_str()) {
            Ok(()) => {},
            Err(e) => {
                return Err(e);
            },
        }
        let mut sources: Vec<(String, String)> = Vec::new();
        let mut i: usize = 0;
        while i < modules.len()
            invariant
                i <= modules.len(),
                valid_package_name(name@),
                sorted_keys(entries_view(sources@)),
                sources_spec(pairs_view(modules@).take(i as int)) == Ok::<
                    Map<Seq<char>, Seq<char>>,
                    Seq<char>,
                >(entries_map(entries_view(sources@))),
            decreases modules.len() - i,
        {
            let (module, source) = modules[i];
            let mc = chars_of(module);
            let n = mc.len();
            let stripped = if n >= 4 && mc[n - 4] == '.' && mc[n - 3] == 'p' && mc[n - 2] == 't'
                && mc[n - 1] == 'l' {
                slice_chars(mc.as_slice(), 0, n - 4)
            } else {
                mc
            };
            proof {
                let pv = pairs_view(modules@);
                assert(pv.take(i + 1).drop_last() =~= pv.take(i as int));
                assert(pv.take(i + 1).last() == pv[i as int]);
                reveal_strlit(".ptl");
                if n >= 4 {
                    let tail = module@.subrange(n - 4, n as int);
                    if mc@[n - 4] == '.' && mc@[n - 3] == 'p' && mc@[n - 2] == 't' && mc@[n - 1]
                        == 'l' {
                        assert(tail =~= ".ptl"@);
                    } else {
                        assert(tail != ".ptl"@) by {
                            if tail == ".ptl"@ {
                                assert(tail[0] == '.' && tail[1] == 'p' && tail[2] == 't' && tail[3] == 'l');
                            }
                        }
                    }
                }
                assert(stripped@ == strip_ptl(module@));
            }
            match relative_module_error(stripped.as_slice()) {
                Some(problem) => {
                    let mut msg = crate::text::string_from("package '");
                    push_str(&mut msg, name);
                    push_str(&mut msg, "': ");
                    push_str(&mut msg, problem.as_str());
                    proof {
                        lemma_sources_err_sticks(pairs_view(modules@), (i + 1) as int);
                    }
                    return Err(LoadError::message(Phase::Module, msg));
                },
                None => {},
            }
            sorted_insert(&mut sources, string_of(stripped.as_slice()), crate::text::string_from(source));
            i = i + 1;
        }
        proof {
            assert(pairs_view(modules@).take(modules.len() as int) =~= pairs_view(modules@));
            lemma_sources_keys_usable(pairs_view(modules@));
            assert forall|key: Seq<char>| #[trigger]
                entries_map(entries_view(sources@)).contains_key(key) implies module_name_error(
                key,
            ) is None by {
                assert(sources_spec(pairs_view(modules@))->Ok_0.contains_key(key));
            }
        }
        let mut names: Vec<String> = Vec::new();
        let mut k: usize = 0;
        while k < sources.len()
            invariant
                k <= sources.len(),
                names@.len() == k,
                sorted_keys(entries_view(sources@)),
                sources_spec(pairs_view(modules@)) == Ok::<
                    Map<Seq<char>, Seq<char>>,
                    Seq<char>,
                >(entries_map(entries_view(sources@))),
                forall|key: Seq<char>| #[trigger]
                    entries_map(entries_view(sources@)).contains_key(key) ==> module_name_error(key) is None,
                valid_package_name(name@),
                strings_view(names@) == entry_keys(entries_view(sources@)).take(k as int),
            decreases sources.len() - k,
        {
            let key = sources[k].0.clone();
            proof {
                assert(key@ == sources@[k as int].0@);
                assert(entries_view(sources@)[k as int] == (
                    sources@[k as int].0@,
                    sources@[k as int].1@,
                ));
                assert(entry_keys(entries_view(sources@))[k as int] == key@);
            }
            let ghost before = names@;
            names.push(key);
            proof {
                assert(names@ == before.push(key));
                assert forall|j: int| 0 <= j < k implies #[trigger] strings_view(names@)[j]
                    == strings_view(before)[j] by {
                    assert(names@[j] == before[j]);
                }
                assert(strings_view(names@)[k as int] == key@);
                assert(strings_view(names@) =~= entry_keys(entries_view(sources@)).take(
                    (k + 1) as int,
                ));
            }
            k = k + 1;
        }
        proof {
            assert(entry_keys(entries_view(sources@)).take(sources.len() as int) =~= entry_keys(
                entries_view(sources@),
            ));
        }
        let dir = root.clone();
        Ok(
            Package {
                info: PackageInfo {
                    name: crate::text::string_from(name),
                    version: None,
                    root,
                    module_dir: dir,
                    modules: names,
                    in_memory: true,
                },
                sources: Some(sources),
            },
        )
    }
}

/// Once a prefix of the modules has an unusable name, every longer prefix
/// reports the same problem.
proof fn lemma_sources_err_sticks(modules: Seq<(Seq<char>, Seq<char>)>, i: int)
    requires
        0 <= i <= modules.len(),
        sources_spec(modules.take(i)) is Err,
    ensures
        sources_spec(modules) == sources_spec(modules.take(i)),
    decreases modules.len() - i,
{
    if i < modules.len() {
        assert(modules.take(i + 1).drop_last() =~= modules.take(i));
        lemma_sources_err_sticks(modules, i + 1);
    } else {
        assert(modules.take(i) =~= modules);
    }
}


/// A module found in a package: its full name (`bloom/menu`), the file it
/// lives at (for an in-memory package, a synthetic path under the package
/// root), and its source when the package holds it in memory. A `None`
/// source means the package was read from disk: the host reads the file.
#[derive(Debug)]
pub struct Resolved {
    pub name: String,
    pub origin: ModuleOrigin,
    pub source: Option<String>,
}

/// What a resolution finds, as plain text.
pub struct ResolvedSpec {
    pub name: Seq<char>,
    pub path: Seq<char>,
    pub source: Option<Seq<char>>,
}

/// The text a found module is described by.
pub open spec fn resolved_view(r: Option<Resolved>) -> Option<ResolvedSpec> {
    match r {
        Some(m) => match m.origin {
            ModuleOrigin::File(p) => Some(
                ResolvedSpec {
                    name: m.name@,
                    path: p@,
                    source: match m.source {
                        Some(t) => Some(t@),
                        None => None,
                    },
                },
            ),
            ModuleOrigin::Memory => Some(
                ResolvedSpec {
                    name: m.name@,
                    path: Seq::empty(),
                    source: match m.source {
                        Some(t) => Some(t@),
                        None => None,
                    },
                },
            ),
        },
        None => None,
    }
}

/// The path of a file origin.
pub open spec fn origin_path(o: Option<&ModuleOrigin>) -> Option<Seq<char>> {
    match o {
        Some(ModuleOrigin::File(p)) => Some(p@),
        _ => None,
    }
}

/// The last index below `i` holding `c`, or `-1`.
pub open spec fn rfind_before(s: Seq<char>, c: char, i: int) -> int
    decreases i,
{
    if i <= 0 {
        -1
    } else if s[i - 1] == c {
        i - 1
    } else {
        rfind_before(s, c, i - 1)
    }
}

/// The directory part of a `/`-separated path (empty when it has none).
pub open spec fn parent_text(path: Seq<char>) -> Seq<char> {
    let j = rfind_before(path, '/', path.len() as int);
    if j < 0 {
        Seq::empty()
    } else {
        path.subrange(0, j)
    }
}

/// The module a flat `import name` means from a file at `path`, for a
/// package whose modules live under `dir`: the importer's directory
/// relative to `dir`, then the name. `None` when the file is not under
/// `dir`.
pub open spec fn sibling_spec(dir: Seq<char>, path: Seq<char>, name: Seq<char>) -> Option<
    Seq<char>,
> {
    let parent = parent_text(path);
    if parent == dir {
        Some(name)
    } else if parent.len() > dir.len() + 1 && parent.subrange(0, dir.len() + 1int) == dir + "/"@ {
        Some(parent.subrange(dir.len() + 1int, parent.len() as int) + "/"@ + name)
    } else {
        None
    }
}

proof fn lemma_rfind_bounds(s: Seq<char>, c: char, i: int)
    requires
        i <= s.len(),
    ensures
        -1 <= rfind_before(s, c, i) < i || (i <= 0 && rfind_before(s, c, i) == -1),
        rfind_before(s, c, i) >= 0 ==> s[rfind_before(s, c, i)] == c,
    decreases i,
{
    if i > 0 && s[i - 1] != c {
        lemma_rfind_bounds(s, c, i - 1);
    }
}

fn rfind_char(s: &[char], c: char) -> (r: Option<usize>)
    ensures
        match r {
            Some(j) => rfind_before(s@, c, s@.len() as int) == j as int,
            None => rfind_before(s@, c, s@.len() as int) == -1,
        },
{
    let mut i = s.len();
    while i > 0
        invariant
            i <= s.len(),
            rfind_before(s@, c, s@.len() as int) == rfind_before(s@, c, i as int),
        decreases i,
    {
        if s[i - 1] == c {
            return Some(i - 1);
        }
        i = i - 1;
    }
    None
}

impl Package {
    /// What loading `module` (package-relative) from this package finds.
    pub closed spec fn load_spec(&self, module: Seq<char>) -> Option<ResolvedSpec> {
        if module_name_error(module) is Some {
            None
        } else {
            let name = self.info.name@ + "/"@ + module;
            let path = module_file_text(self.info.module_dir@, module);
            match self.sources {
                Some(v) => if entries_map(entries_view(v@)).contains_key(module) {
                    Some(
                        ResolvedSpec {
                            name,
                            path,
                            source: Some(entries_map(entries_view(v@))[module]),
                        },
                    )
                } else {
                    None
                },
                None => if strings_view(self.info.modules@).contains(module) {
                    Some(ResolvedSpec { name, path, source: None })
                } else {
                    None
                },
            }
        }
    }

    /// Load one module of this package by its package-relative name, or
    /// `None` when the package has no such module.
    pub fn load(&self, module: &str) -> (r: Option<Resolved>)
        requires
            self.wf(),
        ensures
            resolved_view(r) == self.load_spec(module@),
    {
        let mc = chars_of(module);
        self.load_chars(mc.as_slice())
    }

    fn load_chars(&self, module: &[char]) -> (r: Option<Resolved>)
        requires
            self.wf(),
        ensures
            resolved_view(r) == self.load_spec(module@),
    {
        if relative_module_error(module).is_some() {
            return None;
        }
        let mut full = self.info.name.clone();
        push_str(&mut full, "/");
        push_chars(&mut full, module);
        let path = module_file_path(self.info.module_dir.as_str(), module);
        match &self.sources {
            Some(v) => {
                let (i, found) = find_slot(v, module);
                if found {
                    proof {
                        lemma_entries_map_get(entries_view(v@), i as int);
                    }
                    let src = v[i].1.clone();
                    Some(Resolved { name: full, origin: ModuleOrigin::File(path), source: Some(src) })
                } else {
                    proof {
                        lemma_absent_key(entries_view(v@), module@, i as int);
                    }
                    None
                }
            },
            None => {
                let mut k: usize = 0;
                while k < self.info.modules.len()
                    invariant
                        k <= self.info.modules@.len(),
                        self.sources is None,
                        module_name_error(module@) is None,
                        full@ == self.info.name@ + "/"@ + module@,
                        path@ == module_file_text(self.info.module_dir@, module@),
                        forall|j: int| 0 <= j < k ==> self.info.modules@[j]@ != module@,
                    decreases self.info.modules@.len() - k,
                {
                    let mc = chars_of(self.info.modules[k].as_str());
                    if chars_eq(mc.as_slice(), module) {
                        proof {
                            assert(strings_view(self.info.modules@)[k as int] == module@);
                            assert(strings_view(self.info.modules@).contains(module@));
                        }
                        return Some(Resolved { name: full, origin: ModuleOrigin::File(path), source: None });
                    }
                    k = k + 1;
                }
                proof {
                    assert(!strings_view(self.info.modules@).contains(module@)) by {
                        if strings_view(self.info.modules@).contains(module@) {
                            let j = choose|j: int| 0 <= j < strings_view(self.info.modules@).len()
                                && strings_view(self.info.modules@)[j] == module@;
                            assert(self.info.modules@[j]@ == module@);
                        }
                    }
                }
                None
            },
        }
    }

    /// The module name an importing file at `path` would mean by a flat
    /// `import name`, when that file is inside this package.
    pub fn sibling_of(&self, path: &str, name: &[char]) -> (r: Option<Vec<char>>)
        ensures
            match r {
                Some(m) => sibling_spec(self.info_spec().module_dir@, path@, name@) == Some(m@),
                None => sibling_spec(self.info_spec().module_dir@, path@, name@) is None,
            },
    {
        let pc = chars_of(path);
        let dir = chars_of(self.info.module_dir.as_str());
        let parent = match rfind_char(pc.as_slice(), '/') {
            Some(j) => {
                proof {
                    lemma_rfind_bounds(pc@, '/', pc@.len() as int);
                }
                slice_chars(pc.as_slice(), 0, j)
            },
            None => Vec::new(),
        };
        proof {
            assert(parent@ =~= parent_text(path@));
        }
        if chars_eq(parent.as_slice(), dir.as_slice()) {
            return Some(slice_chars(name, 0, name.len()));
        }
        let d = dir.len();
        if parent.len() > d && parent.len() - d > 1 && parent[d] == '/' {
            let head = slice_chars(parent.as_slice(), 0, d);
            if chars_eq(head.as_slice(), dir.as_slice()) {
                let rest = slice_chars(parent.as_slice(), d + 1, parent.len());
                let mut m = rest;
                m.push('/');
                let mut k: usize = 0;
                let ghost base = m@;
                while k < name.len()
                    invariant
                        k <= name.len(),
                        m@ == base + name@.take(k as int),
                    decreases name.len() - k,
                {
                    m.push(name[k]);
                    proof {
                        assert(name@.take((k + 1) as int) =~= name@.take(k as int).push(name@[k as int]));
                    }
                    k = k + 1;
                }
                proof {
                    reveal_strlit("/");
                    assert(name@.take(name.len() as int) =~= name@);
                    assert(parent@.subrange(0, d + 1) =~= dir@ + "/"@);
                    assert(m@ =~= parent@.subrange(d + 1, parent@.len() as int) + "/"@ + name@);
                }
                return Some(m);
            }
            proof {
                reveal_strlit("/");
                assert(parent@.subrange(0, d + 1) != dir@ + "/"@) by {
                    if parent@.subrange(0, d + 1) == dir@ + "/"@ {
                        assert(head@ =~= dir@);
                    }
                }
            }
        } else {
            proof {
                reveal_strlit("/");
                if parent@.len() > d + 1 {
                    assert(parent@.subrange(0, d + 1) != dir@ + "/"@) by {
                        if parent@.subrange(0, d + 1) == dir@ + "/"@ {
                            assert(parent@.subrange(0, d + 1)[d as int] == '/');
                        }
                    }
                }
            }
        }
        None
    }
}

/// A key that [`find_slot`] did not find is absent from sorted entries.
pub(crate) proof fn lemma_absent_key(entries: Seq<(Seq<char>, Seq<char>)>, key: Seq<char>, i: int)
    requires
        sorted_keys(entries),
        0 <= i <= entries.len(),
        forall|j: int| 0 <= j < i ==> seq_lt(#[trigger] entries[j].0, key),
        i < entries.len() ==> seq_lt(key, entries[i].0),
    ensures
        !entries_map(entries).contains_key(key),
{
    lemma_entries_map_dom(entries, key);
    if exists|j: int| 0 <= j < entries.len() && entries[j].0 == key {
        let j = choose|j: int| 0 <= j < entries.len() && entries[j].0 == key;
        lemma_seq_lt_irreflexive(key);
        if j > i {
            lemma_seq_lt_trans(key, entries[i].0, entries[j].0);
        }
    }
}


/// The index of the first package named `name` at or after `k`, or the
/// number of packages.
pub open spec fn first_named(pkgs: Seq<Package>, name: Seq<char>, k: int) -> int
    decreases pkgs.len() - k,
{
    if k < 0 || k >= pkgs.len() {
        pkgs.len() as int
    } else if pkgs[k].info_spec().name@ == name {
        k
    } else {
        first_named(pkgs, name, k + 1)
    }
}

/// The first package, from `k` on, in which a flat `import name` from the
/// file at `importer` finds a sibling module, and what it finds.
pub open spec fn sibling_search(
    pkgs: Seq<Package>,
    importer: Option<Seq<char>>,
    name: Seq<char>,
    k: int,
) -> Option<ResolvedSpec>
    decreases pkgs.len() - k,
{
    if k < 0 || k >= pkgs.len() {
        None
    } else {
        match importer {
            Some(path) => {
                let found = match sibling_spec(pkgs[k].info_spec().module_dir@, path, name) {
                    Some(m) => pkgs[k].load_spec(m),
                    None => None,
                };
                match found {
                    Some(r) => Some(r),
                    None => sibling_search(pkgs, importer, name, k + 1),
                }
            },
            None => None,
        }
    }
}

/// What `name` resolves to among the packages: `pkg/module` reaches into the
/// package named `pkg`; a flat name from a module of a package finds its
/// sibling first; otherwise a flat name is a package's facade module.
pub open spec fn resolve_spec(pkgs: Seq<Package>, name: Seq<char>, importer: Option<Seq<char>>) -> Option<
    ResolvedSpec,
> {
    let slash = find_from(name, '/', 0);
    if slash < name.len() {
        let i = first_named(pkgs, name.subrange(0, slash), 0);
        if i < pkgs.len() {
            pkgs[i].load_spec(name.subrange(slash + 1, name.len() as int))
        } else {
            None
        }
    } else {
        match sibling_search(pkgs, importer, name, 0) {
            Some(r) => Some(r),
            None => {
                let i = first_named(pkgs, name, 0);
                if i < pkgs.len() {
                    pkgs[i].load_spec(name)
                } else {
                    None
                }
            },
        }
    }
}

/// Every package of the list is consistent.
pub open spec fn all_wf(pkgs: Seq<Package>) -> bool {
    forall|i: int| 0 <= i < pkgs.len() ==> #[trigger] pkgs[i].wf()
}

fn find_package(packages: &[Package], name: &[char]) -> (r: usize)
    ensures
        r == first_named(packages@, name@, 0),
        r <= packages@.len(),
{
    let mut k: usize = 0;
    while k < packages.len()
        invariant
            k <= packages@.len(),
            first_named(packages@, name@, 0) == first_named(packages@, name@, k as int),
        decreases packages@.len() - k,
    {
        let pc = chars_of(packages[k].info.name.as_str());
        if chars_eq(pc.as_slice(), name) {
            return k;
        }
        k = k + 1;
    }
    k
}

/// Resolve `name` against the registered packages, or `None`: a leading
/// segment naming a package (`bloom/menu`); a flat name from a module of a
/// package, its own package first; a package's facade module (`bloom`).
pub fn resolve_in_packages(packages: &[Package], name: &str, importer: Option<&ModuleOrigin>) -> (r:
    Option<Resolved>)
    requires
        all_wf(packages@),
    ensures
        resolved_view(r) == resolve_spec(packages@, name@, origin_path(importer)),
{
    let nc = chars_of(name);
    let slash = find_char(nc.as_slice(), '/', 0);
    if slash < nc.len() {
        let head = slice_chars(nc.as_slice(), 0, slash);
        let rest = slice_chars(nc.as_slice(), slash + 1, nc.len());
        let i = find_package(packages, head.as_slice());
        if i < packages.len() {
            return packages[i].load_chars(rest.as_slice());
        }
        return None;
    }
    match importer {
        Some(ModuleOrigin::File(p)) => {
            let mut k: usize = 0;
            while k < packages.len()
                invariant
                    k <= packages@.len(),
                    all_wf(packages@),
                    importer == Some(&ModuleOrigin::File(*p)),
                    sibling_search(packages@, origin_path(importer), name@, 0) == sibling_search(
                        packages@,
                        origin_path(importer),
                        name@,
                        k as int,
                    ),
                    nc@ == name@,
                find_from(name@, '/', 0) >= name@.len(),
                origin_path(importer) == Some(p@),
                decreases packages@.len() - k,
            {
                assert(packages@[k as int].wf());
                match packages[k].sibling_of(p.as_str(), nc.as_slice()) {
                    Some(m) => {
                        match packages[k].load_chars(m.as_slice()) {
                            Some(found) => {
                                return Some(found);
                            },
                            None => {},
                        }
                    },
                    None => {},
                }
                k = k + 1;
            }
        },
        _ => {},
    }
    let i = find_package(packages, nc.as_slice());
    if i < packages.len() {
        assert(packages@[i as int].wf());
        packages[i].load_chars(nc.as_slice())
    } else {
        None
    }
}


/// Every module name that made it into an in-memory package's sources is
/// usable.
proof fn lemma_sources_keys_usable(modules: Seq<(Seq<char>, Seq<char>)>)
    requires
        sources_spec(modules) is Ok,
    ensures
        forall|k: Seq<char>| #[trigger]
            sources_spec(modules)->Ok_0.contains_key(k) ==> module_name_error(k) is None,
    decreases modules.len(),
{
    if modules.len() > 0 {
        lemma_sources_keys_usable(modules.drop_last());
    }
}

/// A module handed to an in-memory package is importable as
/// `package/module`, and resolving it gives back the source it was handed.
pub proof fn law_in_memory_module_resolves(p: Package, module: Seq<char>)
    requires
        p.wf(),
        valid_package_name(p.info_spec().name@),
        p.memory_sources() is Some,
        p.memory_sources()->Some_0.contains_key(module),
    ensures
        resolve_spec(seq![p], p.info_spec().name@ + "/"@ + module, None) == Some(
            ResolvedSpec {
                name: p.info_spec().name@ + "/"@ + module,
                path: module_file_text(p.info_spec().module_dir@, module),
                source: Some(p.memory_sources()->Some_0[module]),
            },
        ),
{
    let name = p.info_spec().name@;
    let full = name + "/"@ + module;
    reveal_strlit("/");
    assert forall|j: int| 0 <= j < name.len() implies full[j] != '/' by {
        assert(full[j] == name[j]);
        assert(ascii_alnum(name[j]) || name[j] == '_');
    }
    assert(full[name.len() as int] == '/');
    lemma_find_first(full, '/', 0, name.len() as int);
    assert(full.subrange(0, name.len() as int) =~= name);
    assert(full.subrange(name.len() + 1int, full.len() as int) =~= module);
    assert(first_named(seq![p], name, 0) == 0);
}

/// `find_from` stops at the first occurrence.
proof fn lemma_find_first(s: Seq<char>, c: char, i: int, j: int)
    requires
        0 <= i <= j < s.len(),
        s[j] == c,
        forall|k: int| i <= k < j ==> s[k] != c,
    ensures
        find_from(s, c, i) == j,
    decreases j - i,
{
    if i < j {
        lemma_find_first(s, c, i + 1, j);
    }
}

// ── reading a package from disk ─────────────────────────────────

/// Where a package's modules live, as its manifest says; the caller checks
/// the directories on disk.
#[derive(Debug, Clone)]
pub enum ModuleDirPlan {
    /// `modules = "<rel>"`: the directory `dir`, which must exist.
    Named { rel: String, dir: String },
    /// No `modules` key: `<root>/src` when that is a directory, else the
    /// root itself.
    Default { preferred: String, fallback: String },
}

/// `rel` has a `..` segment.
pub open spec fn has_parent_segment(rel: Seq<char>) -> bool {
    exists|i: int| 0 <= i && i + 2 <= rel.len() && #[trigger] rel[i] == '.' && rel[i + 1] == '.'
        && (i == 0 || rel[i - 1] == '/') && (i + 2 == rel.len() || rel[i + 2] == '/')
}

/// A `modules` value that is not a relative directory under the root:
/// empty, absolute, or climbing out with `..`.
pub open spec fn bad_module_dir(rel: Seq<char>) -> bool {
    rel.len() == 0 || rel[0] == '/' || has_parent_segment(rel)
}

/// `acc` with each `/`-separated segment of `rel` pushed on, empty and `.`
/// segments skipped.
pub open spec fn push_segments(acc: Seq<char>, rel: Seq<char>) -> Seq<char>
    decreases rel.len(),
{
    let i = find_from(rel, '/', 0);
    let seg = rel.take(i);
    let next = if seg.len() == 0 || seg == "."@ { acc } else { crate::module::join_text(acc, seg) };
    if i >= rel.len() {
        next
    } else {
        proof {
            lemma_find_from_bounds(rel, '/', 0);
        }
        push_segments(next, rel.skip(i + 1))
    }
}

/// The complaint about a `modules` value that is not a relative directory.
pub open spec fn bad_module_dir_text(rel: Seq<char>) -> Seq<char> {
    "modules = \""@ + rel + "\" must be a relative directory under the package root (no leading '/', no '..')"@
}

/// What [`plan_module_dir`] decides for a manifest's `modules` value.
pub open spec fn module_dir_plan_spec(root: Seq<char>, manifest_path: Seq<char>, modules: Option<String>, r: Result<ModuleDirPlan, LoadError>) -> bool {
    match modules {
        None => r matches Ok(ModuleDirPlan::Default { preferred, fallback })
            && preferred@ == crate::module::join_text(root, "src"@) && fallback@ == root,
        Some(rel) => if bad_module_dir(rel@) {
            r matches Err(e) && e.phase == Phase::Module
                && e.message@ == manifest_message(manifest_path, bad_module_dir_text(rel@))
        } else {
            r matches Ok(ModuleDirPlan::Named { rel: r2, dir }) && r2@ == rel@ && dir@ == push_segments(root, rel@)
        },
    }
}

fn has_parent_segment_exec(rel: &[char]) -> (r: bool)
    ensures
        r == has_parent_segment(rel@),
{
    let n = rel.len();
    let mut i: usize = 0;
    while i < n && n - i >= 2
        invariant
            n == rel@.len(),
            i <= n,
            forall|j: int| 0 <= j < i && j + 2 <= n ==> !(#[trigger] rel@[j] == '.' && rel@[j + 1] == '.'
                && (j == 0 || rel@[j - 1] == '/') && (j + 2 == n || rel@[j + 2] == '/')),
        decreases n - i,
    {
        if rel[i] == '.' && rel[i + 1] == '.' && (i == 0 || rel[i - 1] == '/') && (i + 2 == n || rel[i + 2] == '/') {
            return true;
        }
        i = i + 1;
    }
    false
}

/// Decide where a package's modules live from its manifest's `modules`
/// value.
pub fn plan_module_dir(root: &str, manifest_path: &str, modules: &Option<String>) -> (r: Result<ModuleDirPlan, LoadError>)
    ensures
        module_dir_plan_spec(root@, manifest_path@, *modules, r),
{
    match modules {
        None => {
            let rc = chars_of(root);
            let src = chars_of("src");
            let joined = crate::module::join_chars(rc.as_slice(), src.as_slice());
            Ok(ModuleDirPlan::Default { preferred: string_of(joined.as_slice()), fallback: crate::text::string_from(root) })
        },
        Some(rel) => {
            let rc = chars_of(rel.as_str());
            if rc.len() == 0 || rc[0] == '/' || has_parent_segment_exec(rc.as_slice()) {
                let mut msg = chars_of("modules = \"");
                let mut k: usize = 0;
                let ghost head = msg@;
                while k < rc.len()
                    invariant
                        k <= rc@.len(),
                        msg@ == head + rc@.take(k as int),
                    decreases rc@.len() - k,
                {
                    msg.push(rc[k]);
                    proof {
                        assert(msg@ =~= head + rc@.take((k + 1) as int));
                    }
                    k = k + 1;
                }
                proof {
                    assert(rc@.take(rc@.len() as int) =~= rc@);
                }
                let tail = chars_of("\" must be a relative directory under the package root (no leading '/', no '..')");
                let full = concat(msg.as_slice(), tail.as_slice());
                proof {
                    assert(full@ =~= bad_module_dir_text(rel@));
                }
                return Err(manifest_error(manifest_path, full.as_slice()));
            }
            let dir = push_segments_exec(chars_of(root), rc.as_slice());
            Ok(ModuleDirPlan::Named { rel: crate::text::string_from(rel.as_str()), dir: string_of(dir.as_slice()) })
        },
    }
}

fn push_segments_exec(acc: Vec<char>, rel: &[char]) -> (r: Vec<char>)
    ensures
        r@ == push_segments(acc@, rel@),
    decreases rel@.len(),
{
    let i = find_char(rel, '/', 0);
    proof {
        lemma_find_from_bounds(rel@, '/', 0);
    }
    let seg = slice_chars(rel, 0, i);
    proof {
        assert(seg@ == rel@.take(i as int));
    }
    let skip = seg.len() == 0 || (seg.len() == 1 && seg[0] == '.');
    proof {
        reveal_strlit(".");
        if seg@.len() == 1 && seg@[0] == '.' {
            assert(seg@ =~= "."@);
        }
        if seg@ == "."@ {
            assert(seg@.len() == 1);
        }
    }
    let next = if skip { acc } else { crate::module::join_chars(acc.as_slice(), seg.as_slice()) };
    if i >= rel.len() {
        next
    } else {
        let rest = slice_chars(rel, i + 1, rel.len());
        proof {
            assert(rest@ =~= rel@.skip(i + 1));
        }
        push_segments_exec(next, rest.as_slice())
    }
}

/// The complaint about a `modules` directory that is not there.
pub open spec fn missing_module_dir_text(rel: Seq<char>, dir: Seq<char>) -> Seq<char> {
    "modules = \""@ + rel + "\" names '"@ + dir + "', which is not a directory"@
}

/// The error for a `modules` value naming `dir`, which is not a directory.
pub fn missing_module_dir(manifest_path: &str, rel: &str, dir: &str) -> (e: LoadError)
    ensures
        e.phase == Phase::Module,
        e.message@ == manifest_message(manifest_path@, missing_module_dir_text(rel@, dir@)),
{
    let mut m = crate::text::string_from("modules = \"");
    push_str(&mut m, rel);
    push_str(&mut m, "\" names '");
    push_str(&mut m, dir);
    push_str(&mut m, "', which is not a directory");
    let mc = chars_of(m.as_str());
    manifest_error(manifest_path, mc.as_slice())
}

/// The error for a manifest that could not be read, with the reason.
pub fn unreadable_manifest(manifest_path: &str, reason: &str) -> (e: LoadError)
    ensures
        e.phase == Phase::Module,
        e.message@ == manifest_message(manifest_path@, "cannot read package manifest: "@ + reason@),
{
    let mut m = crate::text::string_from("cannot read package manifest: ");
    push_str(&mut m, reason);
    let mc = chars_of(m.as_str());
    manifest_error(manifest_path, mc.as_slice())
}

impl Package {
    /// A package read from disk: its manifest's facts, the root holding
    /// `petal.toml`, the directory its modules live in, and the module names
    /// a scan of that directory found (`/`-joined, without `.ptl`), which
    /// the package keeps sorted. A directory scan finds each name once.
    pub fn on_disk(manifest: Manifest, root: String, module_dir: String, modules: Vec<String>) -> (p: Package)
        ensures
            p.wf(),
            p.info_spec().name@ == manifest.name@,
            p.info_spec().version == manifest.version,
            p.info_spec().root@ == root@,
            p.info_spec().module_dir@ == module_dir@,
            !p.info_spec().in_memory,
            p.memory_sources() is None,
            crate::program_analysis::names_sorted(p.info_spec().modules@),
            forall|s: Seq<char>| #[trigger] crate::program_analysis::has_name(p.info_spec().modules@, s)
                <==> crate::program_analysis::has_name(modules@, s),
    {
        let mut sorted: Vec<String> = Vec::new();
        let mut i: usize = 0;
        while i < modules.len()
            invariant
                i <= modules@.len(),
                crate::program_analysis::names_sorted(sorted@),
                forall|s: Seq<char>| #[trigger] crate::program_analysis::has_name(sorted@, s)
                    <==> crate::program_analysis::has_name(modules@.take(i as int), s),
            decreases modules@.len() - i,
        {
            crate::program_analysis::insert_name(&mut sorted, modules[i].as_str());
            proof {
                assert forall|s: Seq<char>| #[trigger] crate::program_analysis::has_name(modules@.take((i + 1) as int), s)
                    <==> crate::program_analysis::has_name(modules@.take(i as int), s) || s == modules@[i as int]@ by {
                    let t = modules@.take((i + 1) as int);
                    if crate::program_analysis::has_name(t, s) {
                        let j = choose|j: int| 0 <= j < t.len() && (#[trigger] t[j])@ == s;
                        if j < i {
                            assert(modules@.take(i as int)[j] == t[j]);
                        }
                    }
                    if crate::program_analysis::has_name(modules@.take(i as int), s) {
                        let j = choose|j: int| 0 <= j < i && (#[trigger] modules@.take(i as int)[j])@ == s;
                        assert(t[j] == modules@.take(i as int)[j]);
                    }
                    if s == modules@[i as int]@ {
                        assert(t[i as int]@ == s);
                    }
                }
            }
            i = i + 1;
        }
        proof {
            assert(modules@.take(modules@.len() as int) == modules@);
        }
        Package {
            info: PackageInfo {
                name: manifest.name,
                version: manifest.version,
                root,
                module_dir,
                modules: sorted,
                in_memory: false,
            },
            sources: None,
        }
    }
}

/// How deep a module scan descends below the module directory.
pub const MAX_SCAN_DEPTH: usize = 8;

/// What a module scan makes of one directory entry.
#[derive(Debug, Clone)]
pub enum ScanEntry {
    /// Not a module, nor a directory that may hold modules.
    Skip,
    /// A directory to scan, with the module-name prefix of what it holds.
    Descend(String),
    /// A module, by name.
    Module(String),
}

/// `name` under the module-name prefix `prefix`.
pub open spec fn qualify(prefix: Seq<char>, name: Seq<char>) -> Seq<char> {
    if prefix.len() == 0 { name } else { prefix + "/"@ + name }
}

/// Whether `name` ends in `.ptl`.
pub open spec fn is_ptl(name: Seq<char>) -> bool {
    name.len() >= 4 && name.subrange(name.len() - 4, name.len() as int) == ".ptl"@
}

/// What a scan makes of the entry `name` of a directory whose modules carry
/// the prefix `prefix`: hidden entries are skipped, directories scanned,
/// and `.ptl` files are modules, named without the suffix.
pub open spec fn scan_entry_spec(prefix: Seq<char>, name: Seq<char>, is_dir: bool, r: ScanEntry) -> bool {
    if name.len() > 0 && name[0] == '.' {
        r is Skip
    } else if is_dir {
        r matches ScanEntry::Descend(p) && p@ == qualify(prefix, name)
    } else if is_ptl(name) {
        r matches ScanEntry::Module(m) && m@ == qualify(prefix, name.subrange(0, name.len() - 4))
    } else {
        r is Skip
    }
}

fn qualify_exec(prefix: &str, name: &[char]) -> (r: String)
    ensures
        r@ == qualify(prefix@, name@),
{
    let pc = chars_of(prefix);
    if pc.len() == 0 {
        string_of(name)
    } else {
        let mut s = crate::text::string_from(prefix);
        push_str(&mut s, "/");
        push_chars(&mut s, name);
        s
    }
}

/// Classify the directory entry `name` during a module scan.
pub fn scan_entry(prefix: &str, name: &str, is_dir: bool) -> (r: ScanEntry)
    ensures
        scan_entry_spec(prefix@, name@, is_dir, r),
{
    let nc = chars_of(name);
    let n = nc.len();
    if n > 0 && nc[0] == '.' {
        return ScanEntry::Skip;
    }
    if is_dir {
        return ScanEntry::Descend(qualify_exec(prefix, nc.as_slice()));
    }
    let ptl = n >= 4 && nc[n - 4] == '.' && nc[n - 3] == 'p' && nc[n - 2] == 't' && nc[n - 1] == 'l';
    proof {
        reveal_strlit(".ptl");
        if n >= 4 {
            if ptl {
                assert(nc@.subrange(n - 4, n as int) =~= ".ptl"@);
            } else {
                assert(nc@.subrange(n - 4, n as int) != ".ptl"@) by {
                    if nc@.subrange(n - 4, n as int) == ".ptl"@ {
                        assert(nc@.subrange(n - 4, n as int)[0] == '.');
                        assert(nc@.subrange(n - 4, n as int)[1] == 'p');
                        assert(nc@.subrange(n - 4, n as int)[2] == 't');
                        assert(nc@.subrange(n - 4, n as int)[3] == 'l');
                    }
                }
            }
        }
    }
    if ptl {
        let stem = slice_chars(nc.as_slice(), 0, n - 4);
        ScanEntry::Module(qualify_exec(prefix, stem.as_slice()))
    } else {
        ScanEntry::Skip
    }
}

} // verus!
