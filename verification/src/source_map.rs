//! SourceMap - maps terms to source locations for error reporting and live
//! editing, and the compact wire form of a span.

use std::collections::HashMap;
use vstd::prelude::*;
use crate::program::TermId;

verus! {

/// Identifies one source file within a program's file table. File 0 is
/// always the entry file; imported modules get 1..N in load order.
#[derive(Debug, Clone, Copy, PartialEq, Eq, Hash, Default, Structural)]
pub struct FileId(pub u16);

/// The entry file's index.
pub const ENTRY_FILE_INDEX: u16 = 0;

/// A position in a file: 1-based line and column, character offset.
#[derive(Debug, Clone, Copy, PartialEq, Eq, Hash, Default, Structural)]
pub struct SourcePosition {
    pub line: u32,
    pub column: u32,
    pub offset: u32,
}

/// A span of source text in one file.
#[derive(Debug, Clone, Copy, PartialEq, Eq, Hash, Default, Structural)]
pub struct SourceSpan {
    pub start: SourcePosition,
    pub end: SourcePosition,
    /// Which file (in the program's file table) line/column refer to.
    pub file: FileId,
}

/// A placeholder span for when no source position is available.
pub fn zero_span() -> (s: SourceSpan)
    ensures
        s == (SourceSpan {
            start: SourcePosition { line: 0, column: 0, offset: 0 },
            end: SourcePosition { line: 0, column: 0, offset: 0 },
            file: FileId(0),
        }),
{
    SourceSpan {
        start: SourcePosition { line: 0, column: 0, offset: 0 },
        end: SourcePosition { line: 0, column: 0, offset: 0 },
        file: FileId(ENTRY_FILE_INDEX),
    }
}

/// The compact wire form of a span: `[startLine, startCol, startOffset,
/// endLine, endCol, endOffset]`, with the file index appended only when it is
/// not the entry file.
pub open spec fn wire_spec(s: SourceSpan) -> Seq<u64> {
    let six = seq![
        s.start.line as u64,
        s.start.column as u64,
        s.start.offset as u64,
        s.end.line as u64,
        s.end.column as u64,
        s.end.offset as u64,
    ];
    if s.file.0 == 0 {
        six
    } else {
        six.push(s.file.0 as u64)
    }
}

impl SourceSpan {
    /// The compact wire form of the span.
    pub fn to_wire(&self) -> (w: Vec<u64>)
        ensures
            w@ == wire_spec(*self),
    {
        let mut w: Vec<u64> = Vec::new();
        w.push(self.start.line as u64);
        w.push(self.start.column as u64);
        w.push(self.start.offset as u64);
        w.push(self.end.line as u64);
        w.push(self.end.column as u64);
        w.push(self.end.offset as u64);
        if self.file.0 != 0 {
            w.push(self.file.0 as u64);
        }
        proof {
            assert(w@ =~= wire_spec(*self));
        }
        w
    }

    /// A span read back from its wire form. The six positions must be
    /// present and fit in `u32`, an optional seventh element is the file
    /// (fitting in `u16`), and nothing may follow it.
    pub fn from_wire(w: &[u64]) -> (r: Result<SourceSpan, String>)
        ensures
            match r {
                Ok(s) => wire_ok(w@) && wire_spec(s) == canonical(w@),
                Err(e) => !wire_ok(w@) && e@ == wire_error(w@),
            },
    {
        let names: [&str; 6] = [
            "start line",
            "start column",
            "start offset",
            "end line",
            "end column",
            "end offset",
        ];
        let mut k: usize = 0;
        while k < 6
            invariant
                k <= 6,
                k <= w@.len(),
                forall|j: int| 0 <= j < k ==> #[trigger] w@[j] <= u32::MAX,
                names@ == seq!["start line", "start column", "start offset", "end line", "end column", "end offset"],
            decreases 6 - k,
        {
            if k >= w.len() {
                let mut e = crate::text::string_from("span array missing ");
                crate::text::push_str(&mut e, names[k]);
                proof {
                    assert(first_bad(w@, 0) == first_bad(w@, k as int)) by {
                        lemma_first_bad_skip(w@, 0, k as int);
                    }
                }
                return Err(e);
            }
            if w[k] > 0xFFFF_FFFFu64 {
                proof {
                    lemma_first_bad_skip(w@, 0, k as int);
                }
                return Err(crate::text::string_from("invalid value: integer does not fit in u32"));
            }
            k = k + 1;
        }
        proof {
            lemma_first_bad_skip(w@, 0, 6);
        }
        let mut file: u16 = 0;
        if w.len() > 6 {
            if w[6] > 0xFFFFu64 {
                return Err(crate::text::string_from("invalid value: integer does not fit in u16"));
            }
            file = w[6] as u16;
        }
        if w.len() > 7 {
            return Err(crate::text::string_from("span array has more than 7 elements"));
        }
        let s = SourceSpan {
            start: SourcePosition { line: w[0] as u32, column: w[1] as u32, offset: w[2] as u32 },
            end: SourcePosition { line: w[3] as u32, column: w[4] as u32, offset: w[5] as u32 },
            file: FileId(file),
        };
        proof {
            assert(wire_spec(s) =~= canonical(w@));
        }
        Ok(s)
    }
}

/// The first of the six positions that is missing or too large, from `k`.
pub open spec fn first_bad(w: Seq<u64>, k: int) -> int
    decreases 6 - k,
{
    if k >= 6 || k < 0 {
        6
    } else if k >= w.len() || w[k] > u32::MAX {
        k
    } else {
        first_bad(w, k + 1)
    }
}

proof fn lemma_first_bad_skip(w: Seq<u64>, k: int, m: int)
    requires
        0 <= k <= m <= 6,
        m <= w.len(),
        forall|j: int| k <= j < m ==> #[trigger] w[j] <= u32::MAX,
    ensures
        first_bad(w, k) == first_bad(w, m),
    decreases m - k,
{
    if k < m {
        lemma_first_bad_skip(w, k + 1, m);
    }
}

/// Whether a wire array reads as a span.
pub open spec fn wire_ok(w: Seq<u64>) -> bool {
    &&& first_bad(w, 0) == 6
    &&& w.len() <= 7
    &&& w.len() == 7 ==> w[6] <= u16::MAX
}

/// The wire form a readable array stands for: a zero file index dropped.
pub open spec fn canonical(w: Seq<u64>) -> Seq<u64> {
    if w.len() == 7 && w[6] == 0 {
        w.take(6)
    } else {
        w
    }
}

/// Why a wire array does not read as a span.
pub open spec fn wire_error(w: Seq<u64>) -> Seq<char> {
    let k = first_bad(w, 0);
    if k < 6 {
        if k >= w.len() {
            "span array missing "@ + position_name(k)
        } else {
            "invalid value: integer does not fit in u32"@
        }
    } else if w.len() > 6 && w[6] > u16::MAX {
        "invalid value: integer does not fit in u16"@
    } else {
        "span array has more than 7 elements"@
    }
}

/// The name of the `k`-th position of the wire form.
pub open spec fn position_name(k: int) -> Seq<char> {
    if k == 0 {
        "start line"@
    } else if k == 1 {
        "start column"@
    } else if k == 2 {
        "start offset"@
    } else if k == 3 {
        "end line"@
    } else if k == 4 {
        "end column"@
    } else {
        "end offset"@
    }
}

/// A span written to its wire form reads back as itself.
pub proof fn law_wire_round_trip(s: SourceSpan)
    ensures
        wire_ok(wire_spec(s)),
        canonical(wire_spec(s)) == wire_spec(s),
{
    let w = wire_spec(s);
    lemma_first_bad_skip(w, 0, 6);
}

/// One source file of a compiled program: the entry file or an imported
/// module, with its display name, its text, and the path it was read from.
#[derive(Debug, Clone)]
pub struct SourceFile {
    pub name: String,
    pub source: String,
    pub origin: Option<String>,
}

/// Term spans and the file table.
#[derive(Debug)]
pub struct SourceMap {
    term_spans: HashMap<u32, SourceSpan>,
    /// File table: entry file first, then imported modules in load order.
    pub files: Vec<SourceFile>,
}

impl SourceMap {
    /// The file table.
    pub closed spec fn files_spec(&self) -> Seq<SourceFile> {
        self.files@
    }

    /// The span recorded for each term, by term index.
    pub closed spec fn spans(&self) -> Map<u32, SourceSpan> {
        self.term_spans@
    }

    /// An empty map.
    pub fn new() -> (m: SourceMap)
        ensures
            m.spans() == Map::<u32, SourceSpan>::empty(),
            m.files_spec().len() == 0,
    {
        SourceMap { term_spans: HashMap::new(), files: Vec::new() }
    }

    /// True when the map carries no term spans and no file table.
    pub fn is_empty(&self) -> (r: bool)
        ensures
            r == (self.spans().len() == 0 && self.files_spec().len() == 0),
    {
        self.term_spans.len() == 0 && self.files.len() == 0
    }

    /// Record the span of a term.
    pub fn add(&mut self, term_id: TermId, span: SourceSpan)
        ensures
            final(self).spans() == old(self).spans().insert(term_id.0, span),
            final(self).files_spec() == old(self).files_spec(),
    {
        self.term_spans.insert(term_id.0, span);
    }

    /// The span recorded for a term.
    pub fn get(&self, term_id: TermId) -> (r: Option<&SourceSpan>)
        ensures
            match r {
                Some(s) => self.spans().contains_key(term_id.0) && *s == self.spans()[term_id.0],
                None => !self.spans().contains_key(term_id.0),
            },
    {
        self.term_spans.get(&term_id.0)
    }

    /// The file table entry for a file id, if the table has one.
    pub fn file(&self, id: FileId) -> (r: Option<&SourceFile>)
        ensures
            match r {
                Some(f) => (id.0 as int) < self.files_spec().len() && *f == self.files_spec()[id.0 as int],
                None => id.0 as int >= self.files_spec().len(),
            },
    {
        if (id.0 as usize) < self.files.len() {
            Some(&self.files[id.0 as usize])
        } else {
            None
        }
    }

    /// Diagnostic prefix for a span: `None` for entry-file spans, the
    /// file's display name for module spans.
    pub fn file_name_for_span(&self, span: &SourceSpan) -> (r: Option<&str>)
        ensures
            match r {
                Some(n) => span.file.0 != 0 && (span.file.0 as int) < self.files_spec().len() && n@
                    == self.files_spec()[span.file.0 as int].name@,
                None => span.file.0 == 0 || span.file.0 as int >= self.files_spec().len(),
            },
    {
        if span.file.0 == ENTRY_FILE_INDEX {
            return None;
        }
        match self.file(span.file) {
            Some(f) => Some(f.name.as_str()),
            None => None,
        }
    }

    /// The source text a span's positions index into, when the file table
    /// has the file.
    pub fn source_for_span(&self, span: &SourceSpan) -> (r: Option<&str>)
        ensures
            match r {
                Some(t) => (span.file.0 as int) < self.files_spec().len() && t@ == self.files_spec()[span.file.0 as int].source@,
                None => span.file.0 as int >= self.files_spec().len(),
            },
    {
        match self.file(span.file) {
            Some(f) => Some(f.source.as_str()),
            None => None,
        }
    }
}

impl Default for SourceMap {
    /// An empty map.
    fn default() -> (m: SourceMap)
        ensures
            m.spans() == Map::<u32, SourceSpan>::empty(),
            m.files_spec().len() == 0,
    {
        SourceMap::new()
    }
}

} // verus!
