//! The hosts file as three segments: the preamble lines, the managed block of
//! entries between the two sentinel tag lines, and the trailer lines. Loading
//! splits lines with a three-state machine; writing compares the managed block
//! against the desired entries position by position and re-renders the whole
//! file only when they differ.

use vstd::prelude::*;

use crate::entry::entries_view;
use crate::entry::lemma_entries_view_push;
use crate::entry::lemma_lines_view_push;
use crate::entry::lines_view;
use crate::entry::render_entry;
use crate::entry::spec_parse_entry;
use crate::entry::Entry;
use crate::entry::EntryV;
use crate::text::push_char;

verus! {

/// Outcome of a write: whether the sink received a new rendering.
#[derive(Debug, Clone, Copy, PartialEq, Eq, Structural)]
pub enum Status {
    Changed,
    NotChanged,
}

impl Status {
    /// The human status line for this outcome.
    pub fn message(&self) -> (r: String)
        ensures
            *self is Changed ==> r@ == "Updated"@,
            *self is NotChanged ==> r@ == "Already up to date; nothing to do."@,
    {
        match *self {
            Status::Changed => "Updated".to_owned(),
            Status::NotChanged => "Already up to date; nothing to do.".to_owned(),
        }
    }
}

/// The begin tag was seen but no end tag followed before end of input.
#[derive(Debug, Clone, PartialEq, Eq, Structural)]
pub struct MissingEndTagError;

impl MissingEndTagError {
    /// The diagnostic text for this failure.
    pub fn message(&self) -> (r: String)
        ensures
            r@ == "BEGIN tag found but END tag is missing"@,
    {
        "BEGIN tag found but END tag is missing".to_owned()
    }
}

/// The error that ended a load or a write, as a closed sum so that callers can
/// tell the diagnostics apart.
#[derive(Debug)]
pub enum ErrorKind {
    /// An input/output failure, with the underlying system message.
    Io(String),
    /// A managed-block line with no valid IP literal or no hostname field.
    Parse,
    /// The begin tag was seen but no end tag followed.
    MissingEndTag(MissingEndTagError),
}

impl ErrorKind {
    /// The diagnostic text for this error.
    pub fn message(&self) -> (r: String)
        ensures
            *self matches ErrorKind::Io(m) ==> r@ == "IO error: "@ + m@,
            *self is Parse ==> r@ == "Parse error: invalid managed line"@,
            *self is MissingEndTag ==> r@ == "Parse error: BEGIN tag found but END tag is missing"@,
    {
        match self {
            ErrorKind::Io(m) => {
                let mut out = "IO error: ".to_owned();
                out.append(m.as_str());
                out
            },
            ErrorKind::Parse => "Parse error: invalid managed line".to_owned(),
            ErrorKind::MissingEndTag(_) => {
                "Parse error: BEGIN tag found but END tag is missing".to_owned()
            },
        }
    }
}

/// The sentinel line that opens the managed block.
pub open spec fn begin_tag() -> Seq<char> {
    "# BEGIN ho — DO NOT REMOVE THIS LINE"@
}

/// The sentinel line that closes the managed block.
pub open spec fn end_tag() -> Seq<char> {
    "# END ho — DO NOT REMOVE THIS LINE"@
}

/// The two sentinel lines are distinct, so no line can both open and close
/// the managed block.
pub proof fn lemma_tags_differ()
    ensures
        begin_tag() != end_tag(),
{
    reveal_strlit("# BEGIN ho — DO NOT REMOVE THIS LINE");
    reveal_strlit("# END ho — DO NOT REMOVE THIS LINE");
    assert(begin_tag().len() != end_tag().len());
}

fn begin_tag_text() -> (r: String)
    ensures
        r@ == begin_tag(),
{
    "# BEGIN ho — DO NOT REMOVE THIS LINE".to_owned()
}

fn end_tag_text() -> (r: String)
    ensures
        r@ == end_tag(),
{
    "# END ho — DO NOT REMOVE THIS LINE".to_owned()
}

/// Which segment the lines currently read belong to.
#[derive(Clone, Copy)]
pub enum LineKind {
    Before,
    Managed,
    After,
}

/// The mathematical value of a `HostsFile`.
#[verifier::ext_equal]
pub struct FileV {
    pub before: Seq<Seq<char>>,
    pub managed: Seq<EntryV>,
    pub after: Seq<Seq<char>>,
}

/// How a run of the line state machine ends.
pub enum ParseOutcome {
    Parsed(FileV),
    BadLine,
    NoEndTag,
}

pub open spec fn empty_filev() -> FileV {
    FileV { before: Seq::empty(), managed: Seq::empty(), after: Seq::empty() }
}

/// The line state machine, from line `i` onward in state `st` with segments
/// `acc`. A tag line switches the state and is discarded, whatever the current
/// state; any other line goes to the segment of the current state, lines of
/// the managed block being parsed as entries. Ending while still in the
/// managed state means the end tag was missing.
pub open spec fn run_parse(lines: Seq<Seq<char>>, i: int, st: LineKind, acc: FileV) -> ParseOutcome
    decreases lines.len() - i,
{
    if i < 0 || i >= lines.len() {
        if st is Managed {
            ParseOutcome::NoEndTag
        } else {
            ParseOutcome::Parsed(acc)
        }
    } else {
        let l = lines[i];
        if l == begin_tag() {
            run_parse(lines, i + 1, LineKind::Managed, acc)
        } else if l == end_tag() {
            run_parse(lines, i + 1, LineKind::After, acc)
        } else {
            match st {
                LineKind::Before => run_parse(
                    lines,
                    i + 1,
                    st,
                    FileV { before: acc.before.push(l), managed: acc.managed, after: acc.after },
                ),
                LineKind::Managed => match spec_parse_entry(l) {
                    None => ParseOutcome::BadLine,
                    Some(e) => run_parse(
                        lines,
                        i + 1,
                        st,
                        FileV { before: acc.before, managed: acc.managed.push(e), after: acc.after },
                    ),
                },
                LineKind::After => run_parse(
                    lines,
                    i + 1,
                    st,
                    FileV { before: acc.before, managed: acc.managed, after: acc.after.push(l) },
                ),
            }
        }
    }
}

/// What a whole list of lines parses to.
pub open spec fn spec_parse_lines(lines: Seq<Seq<char>>) -> ParseOutcome {
    run_parse(lines, 0, LineKind::Before, empty_filev())
}

/// The desired entry at index `i` differs from the managed block: the block
/// has no entry there, or one with a different canonical text.
pub open spec fn entry_differs(m: Seq<EntryV>, ds: Seq<EntryV>, i: int) -> bool {
    i >= m.len() || render_entry(ds[i]) != render_entry(m[i])
}

/// The desired entries differ from the managed block at some index of the
/// desired list. Managed entries beyond the desired length are not compared.
pub open spec fn spec_changed(m: Seq<EntryV>, ds: Seq<EntryV>) -> bool {
    exists|i: int| 0 <= i < ds.len() && #[trigger] entry_differs(m, ds, i)
}

/// Lines joined by single newlines, with no trailing newline.
pub open spec fn join_nl(lines: Seq<Seq<char>>) -> Seq<char>
    decreases lines.len(),
{
    if lines.len() == 0 {
        Seq::empty()
    } else if lines.len() == 1 {
        lines[0]
    } else {
        join_nl(lines.drop_last()) + seq!['\n'] + lines.last()
    }
}

/// The managed block's lines: each entry's canonical text, newline-terminated.
pub open spec fn render_managed(es: Seq<EntryV>) -> Seq<char>
    decreases es.len(),
{
    if es.len() == 0 {
        Seq::empty()
    } else {
        render_managed(es.drop_last()) + render_entry(es.last()) + seq!['\n']
    }
}

/// The whole file: preamble, begin tag, managed block, end tag, trailer.
pub open spec fn render_file(f: FileV) -> Seq<char> {
    join_nl(f.before) + seq!['\n'] + begin_tag() + seq!['\n'] + render_managed(f.managed)
        + end_tag() + seq!['\n'] + join_nl(f.after)
}

/// A hosts file, split into its three segments.
#[derive(Debug)]
pub struct HostsFile {
    before_lines: Vec<String>,
    managed_lines: Vec<Entry>,
    after_lines: Vec<String>,
}

impl View for HostsFile {
    type V = FileV;

    closed spec fn view(&self) -> FileV {
        FileV {
            before: lines_view(self.before_lines@),
            managed: entries_view(self.managed_lines@),
            after: lines_view(self.after_lines@),
        }
    }
}

fn push_lines_joined(out: &mut String, lines: &Vec<String>)
    ensures
        final (out)@ == old(out)@ + join_nl(lines_view(lines@)),
{
    let ghost base = out@;
    let ghost ls = lines_view(lines@);
    let mut i: usize = 0;
    while i < lines.len()
        invariant
            i <= lines@.len(),
            ls == lines_view(lines@),
            ls.len() == lines@.len(),
            out@ == base + join_nl(ls.subrange(0, i as int)),
        decreases lines@.len() - i,
    {
        if i > 0 {
            push_char(out, '\n');
        }
        let l = &lines[i];
        out.append(l.as_str());
        proof {
            let sub1 = ls.subrange(0, i as int + 1);
            let sub0 = ls.subrange(0, i as int);
            assert(ls[i as int] == lines@[i as int]@);
            if i == 0 {
                assert(sub0 =~= Seq::<Seq<char>>::empty());
                assert(sub1 =~= seq![ls[0]]);
                assert(out@ =~= base + join_nl(sub1));
            } else {
                assert(sub1.drop_last() =~= sub0);
                assert(sub1.last() == ls[i as int]);
                assert(out@ =~= base + join_nl(sub1));
            }
        }
        i = i + 1;
    }
    proof {
        assert(ls.subrange(0, ls.len() as int) =~= ls);
        if ls.len() == 0 {
            assert(out@ =~= base + join_nl(ls));
        }
    }
}

impl HostsFile {
    /// The preamble lines, verbatim.
    pub fn before_lines(&self) -> (r: &Vec<String>)
        ensures
            lines_view(r@) == self@.before,
    {
        &self.before_lines
    }

    /// The managed block as read or last written.
    pub fn managed_lines(&self) -> (r: &Vec<Entry>)
        ensures
            entries_view(r@) == self@.managed,
    {
        &self.managed_lines
    }

    /// The trailer lines, verbatim.
    pub fn after_lines(&self) -> (r: &Vec<String>)
        ensures
            lines_view(r@) == self@.after,
    {
        &self.after_lines
    }

    /// Splits the given lines into the three segments of a hosts file.
    /// Returns the parse failure of the first bad managed line, or the
    /// missing-end-tag failure if the input ends inside the managed block.
    pub fn parse_lines(lines: &Vec<String>) -> (r: Result<HostsFile, ErrorKind>)
        ensures
            match r {
                Ok(f) => spec_parse_lines(lines_view(lines@)) == ParseOutcome::Parsed(f@),
                Err(k) => match k {
                    ErrorKind::Parse => spec_parse_lines(lines_view(lines@)) is BadLine,
                    ErrorKind::MissingEndTag(e) => spec_parse_lines(lines_view(lines@)) is NoEndTag,
                    _ => false,
                },
            },
    {
        let tagb = begin_tag_text();
        let tage = end_tag_text();
        let mut before_lines: Vec<String> = Vec::new();
        let mut managed_lines: Vec<Entry> = Vec::new();
        let mut after_lines: Vec<String> = Vec::new();
        let mut kind = LineKind::Before;
        let ghost lv = lines_view(lines@);
        proof {
            assert((FileV {
                before: lines_view(before_lines@),
                managed: entries_view(managed_lines@),
                after: lines_view(after_lines@),
            }) =~= empty_filev());
        }
        let mut i: usize = 0;
        while i < lines.len()
            invariant
                i <= lines@.len(),
                lv == lines_view(lines@),
                lv.len() == lines@.len(),
                tagb@ == begin_tag(),
                tage@ == end_tag(),
                spec_parse_lines(lv) == run_parse(
                    lv,
                    i as int,
                    kind,
                    (FileV {
                        before: lines_view(before_lines@),
                        managed: entries_view(managed_lines@),
                        after: lines_view(after_lines@),
                    }),
                ),
            decreases lines@.len() - i,
        {
            let ghost acc = FileV {
                before: lines_view(before_lines@),
                managed: entries_view(managed_lines@),
                after: lines_view(after_lines@),
            };
            let line = &lines[i];
            proof {
                assert(lv[i as int] == lines@[i as int]@);
            }
            if *line == tagb {
                kind = LineKind::Managed;
            } else if *line == tage {
                kind = LineKind::After;
            } else {
                match kind {
                    LineKind::Before => {
                        let cl = line.clone();
                        proof {
                            lemma_lines_view_push(before_lines@, cl);
                        }
                        before_lines.push(cl);
                    },
                    LineKind::Managed => {
                        match Entry::from_str(line.as_str()) {
                            Ok(e) => {
                                proof {
                                    lemma_entries_view_push(managed_lines@, e);
                                }
                                managed_lines.push(e);
                            },
                            Err(k) => {
                                return Err(k);
                            },
                        }
                    },
                    LineKind::After => {
                        let cl = line.clone();
                        proof {
                            lemma_lines_view_push(after_lines@, cl);
                        }
                        after_lines.push(cl);
                    },
                }
            }
            i = i + 1;
        }
        match kind {
            LineKind::Managed => Err(ErrorKind::MissingEndTag(MissingEndTagError)),
            _ => Ok(HostsFile { before_lines, managed_lines, after_lines }),
        }
    }

    fn has_changed(&self, entries: &Vec<Entry>) -> (r: bool)
        ensures
            r == spec_changed(self@.managed, entries_view(entries@)),
    {
        let ghost ds = entries_view(entries@);
        let ghost m = self@.managed;
        let mut idx: usize = 0;
        while idx < entries.len()
            invariant
                idx <= entries@.len(),
                ds == entries_view(entries@),
                ds.len() == entries@.len(),
                m == self@.managed,
                m.len() == self.managed_lines@.len(),
                forall|i: int| 0 <= i < idx ==> !#[trigger] entry_differs(m, ds, i),
            decreases entries@.len() - idx,
        {
            if idx >= self.managed_lines.len() {
                assert(entry_differs(m, ds, idx as int));
                return true;
            }
            let current = &self.managed_lines[idx];
            if !entries[idx].eq_entry(current) {
                assert(ds[idx as int] == entries@[idx as int]@);
                assert(m[idx as int] == self.managed_lines@[idx as int]@);
                assert(entry_differs(m, ds, idx as int));
                return true;
            }
            proof {
                assert(ds[idx as int] == entries@[idx as int]@);
                assert(m[idx as int] == self.managed_lines@[idx as int]@);
                assert(!entry_differs(m, ds, idx as int));
            }
            idx = idx + 1;
        }
        false
    }

    fn update(&mut self, entries: &Vec<Entry>)
        ensures
            final (self)@.before == old(self)@.before,
            final (self)@.managed == entries_view(entries@),
            final (self)@.after == old(self)@.after,
    {
        let mut fresh: Vec<Entry> = Vec::new();
        let mut i: usize = 0;
        proof {
            assert(entries_view(fresh@) =~= entries_view(entries@).subrange(0, 0));
        }
        while i < entries.len()
            invariant
                i <= entries@.len(),
                entries_view(fresh@) == entries_view(entries@).subrange(0, i as int),
            decreases entries@.len() - i,
        {
            let e = &entries[i];
            let ne = Entry { ip: e.ip, hostnames: clone_strings(&e.hostnames) };
            proof {
                assert(ne@ == entries@[i as int]@);
                lemma_entries_view_push(fresh@, ne);
                assert(entries_view(entries@)[i as int] == entries@[i as int]@);
                assert(entries_view(entries@).subrange(0, i as int + 1) =~= entries_view(
                    entries@,
                ).subrange(0, i as int).push(entries_view(entries@)[i as int]));
            }
            fresh.push(ne);
            i = i + 1;
        }
        proof {
            assert(entries_view(entries@).subrange(0, entries@.len() as int) =~= entries_view(
                entries@,
            ));
        }
        self.managed_lines = fresh;
    }

    /// Appends the rendering of the whole file: the preamble joined by
    /// newlines, a newline, the begin tag line, each managed entry's canonical
    /// text on its own line, the end tag line, and the trailer joined by
    /// newlines.
    pub fn render(&self, out: &mut String)
        ensures
            final (out)@ == old(out)@ + render_file(self@),
    {
        let ghost base = out@;
        push_lines_joined(out, &self.before_lines);
        push_char(out, '\n');
        out.append("# BEGIN ho — DO NOT REMOVE THIS LINE");
        push_char(out, '\n');
        let ghost head = base + join_nl(self@.before) + seq!['\n'] + begin_tag() + seq!['\n'];
        proof {
            assert(out@ =~= head);
        }
        let ghost ms = self@.managed;
        let mut j: usize = 0;
        while j < self.managed_lines.len()
            invariant
                j <= self.managed_lines@.len(),
                ms == self@.managed,
                ms.len() == self.managed_lines@.len(),
                out@ == head + render_managed(ms.subrange(0, j as int)),
            decreases self.managed_lines@.len() - j,
        {
            let t = self.managed_lines[j].render();
            out.append(t.as_str());
            push_char(out, '\n');
            proof {
                let sub1 = ms.subrange(0, j as int + 1);
                let sub0 = ms.subrange(0, j as int);
                assert(sub1.drop_last() =~= sub0);
                assert(sub1.last() == ms[j as int]);
                assert(ms[j as int] == self.managed_lines@[j as int]@);
                assert(out@ =~= head + render_managed(sub1));
            }
            j = j + 1;
        }
        proof {
            assert(ms.subrange(0, ms.len() as int) =~= ms);
            if ms.len() == 0 {
                assert(render_managed(ms.subrange(0, 0)) =~= render_managed(ms));
            }
        }
        out.append("# END ho — DO NOT REMOVE THIS LINE");
        push_char(out, '\n');
        push_lines_joined(out, &self.after_lines);
        proof {
            assert(out@ =~= old(out)@ + render_file(self@));
        }
    }

    /// Compares the desired entries against the managed block, index by index.
    /// When nothing differs, reports `NotChanged` and leaves the sink and the
    /// file untouched; otherwise replaces the managed block wholesale with the
    /// desired entries, appends the full rendering to the sink, and reports
    /// `Changed`.
    pub fn write(&mut self, entries: &Vec<Entry>, writer: &mut String) -> (r: Result<
        Status,
        ErrorKind,
    >)
        ensures
            ({
                let ds = entries_view(entries@);
                if spec_changed(old(self)@.managed, ds) {
                    &&& r == Ok::<Status, ErrorKind>(Status::Changed)
                    &&& final (self)@ == (FileV {
                        before: old(self)@.before,
                        managed: ds,
                        after: old(self)@.after,
                    })
                    &&& final (writer)@ == old(writer)@ + render_file(final (self)@)
                } else {
                    &&& r == Ok::<Status, ErrorKind>(Status::NotChanged)
                    &&& *final (self) == *old(self)
                    &&& final (writer)@ == old(writer)@
                }
            }),
    {
        if !self.has_changed(entries) {
            return Ok(Status::NotChanged);
        }
        self.update(entries);
        self.render(writer);
        proof {
            assert(self@ =~= (FileV {
                before: old(self)@.before,
                managed: entries_view(entries@),
                after: old(self)@.after,
            }));
        }
        Ok(Status::Changed)
    }
}

fn clone_strings(v: &Vec<String>) -> (r: Vec<String>)
    ensures
        r@ == v@,
{
    let mut r: Vec<String> = Vec::new();
    let mut i: usize = 0;
    while i < v.len()
        invariant
            i <= v@.len(),
            r@.len() == i,
            forall|k: int| 0 <= k < i ==> r@[k] == v@[k],
        decreases v@.len() - i,
    {
        r.push(v[i].clone());
        i = i + 1;
    }
    proof {
        assert(r@ =~= v@);
    }
    r
}

/// The path of the static hosts file that a platform keeps, by platform name.
pub fn os_file(platform: &str) -> (r: Option<String>)
    ensures
        platform@ == "linux"@ ==> (r matches Some(p) && p@ == "/etc/hosts"@),
        platform@ == "windows"@ ==> (r matches Some(p) && p@
            == "C:\\Windows\\System32\\drivers\\etc"@),
        platform@ == "macos"@ ==> (r matches Some(p) && p@ == "/private/etc/hosts"@),
        platform@ != "linux"@ && platform@ != "windows"@ && platform@ != "macos"@ ==> r is None,
{
    proof {
        reveal_strlit("linux");
        reveal_strlit("windows");
        reveal_strlit("macos");
        assert("linux"@.len() == 5);
        assert("windows"@.len() == 7);
        assert("macos"@.len() == 5);
        assert("linux"@ != "windows"@);
        assert("linux"@[0] != "macos"@[0]);
        assert("linux"@ != "macos"@);
    }
    let p = platform.to_owned();
    if p == "linux".to_owned() {
        Some("/etc/hosts".to_owned())
    } else if p == "windows".to_owned() {
        Some("C:\\Windows\\System32\\drivers\\etc".to_owned())
    } else if p == "macos".to_owned() {
        Some("/private/etc/hosts".to_owned())
    } else {
        None
    }
}

} // verus!
