//! One managed entry: an IP address mapped to an ordered list of hostname
//! aliases. An entry is parsed from one line of the managed block and rendered
//! in a canonical text form; two entries are equal exactly when their
//! canonical renderings are equal.

use vstd::prelude::*;

use crate::hosts::ErrorKind;
use crate::ip::render_ip;
use crate::ip::spec_parse_ip;
use crate::ip::IpAddr;
use crate::text::chars_of;
use crate::text::find_char;
use crate::text::find_from;
use crate::text::find_ws;
use crate::text::find_ws_from;
use crate::text::lemma_find_from;
use crate::text::lemma_find_ws_from;
use crate::text::lemma_rtrim_len;
use crate::text::lemma_skip_ws_from;
use crate::text::push_char;
use crate::text::rtrim;
use crate::text::rtrim_len;
use crate::text::skip_ws;
use crate::text::skip_ws_from;
use crate::text::string_of_chars;
use crate::text::subvec;

verus! {

/// One managed mapping of an IP address to hostname aliases.
#[derive(Debug, Clone)]
pub struct Entry {
    pub ip: IpAddr,
    pub hostnames: Vec<String>,
}

/// The mathematical value of an `Entry`.
#[verifier::ext_equal]
pub struct EntryV {
    pub ip: IpAddr,
    pub hostnames: Seq<Seq<char>>,
}

impl View for Entry {
    type V = EntryV;

    open spec fn view(&self) -> EntryV {
        EntryV { ip: self.ip, hostnames: lines_view(self.hostnames@) }
    }
}

/// The views of a list of strings.
pub open spec fn lines_view(s: Seq<String>) -> Seq<Seq<char>> {
    Seq::new(s.len(), |i: int| s[i]@)
}

pub proof fn lemma_lines_view_push(a: Seq<String>, x: String)
    ensures
        lines_view(a.push(x)) == lines_view(a).push(x@),
{
    assert forall|k: int| 0 <= k < a.len() + 1 implies lines_view(a.push(x))[k] == lines_view(
        a,
    ).push(x@)[k] by {
        if k < a.len() {
            assert(lines_view(a)[k] == a[k]@);
        }
    }
    assert(lines_view(a.push(x)) =~= lines_view(a).push(x@));
}

/// The mathematical values of a list of entries.
pub open spec fn entries_view(es: Seq<Entry>) -> Seq<EntryV> {
    Seq::new(es.len(), |i: int| es[i]@)
}

pub proof fn lemma_entries_view_push(a: Seq<Entry>, x: Entry)
    ensures
        entries_view(a.push(x)) == entries_view(a).push(x@),
{
    assert forall|k: int| 0 <= k < a.len() + 1 implies entries_view(a.push(x))[k] == entries_view(
        a,
    ).push(x@)[k] by {
        if k < a.len() {
            assert(entries_view(a)[k] == a[k]@);
        }
    }
    assert(entries_view(a.push(x)) =~= entries_view(a).push(x@));
}

/// The pieces of `s[lo..]` split on single space characters. Runs of spaces
/// yield empty pieces; splitting never fails.
pub open spec fn split_sp_from(s: Seq<char>, lo: int) -> Seq<Seq<char>>
    decreases s.len() - lo,
        via split_sp_from_dec
{
    let j = find_from(s, ' ', lo);
    if j == s.len() {
        seq![s.subrange(lo, j)]
    } else {
        seq![s.subrange(lo, j)] + split_sp_from(s, j + 1)
    }
}

#[via_fn]
proof fn split_sp_from_dec(s: Seq<char>, lo: int) {
    if 0 <= lo <= s.len() {
        lemma_find_from(s, ' ', lo);
    }
}

/// What one managed line means, if anything: the first whitespace run ends the
/// IP token, which must be an IP literal; the remainder, trimmed of trailing
/// whitespace, must be non-empty and is split on single spaces into the
/// hostnames.
pub open spec fn spec_parse_entry(line: Seq<char>) -> Option<EntryV> {
    let i0 = find_ws_from(line, 0);
    match spec_parse_ip(line.subrange(0, i0)) {
        None => None,
        Some(ip) => {
            let j = skip_ws_from(line, i0);
            if j == line.len() {
                None
            } else {
                let k = rtrim_len(line);
                Some(EntryV { ip, hostnames: split_sp_from(line.subrange(j, k), 0) })
            }
        },
    }
}

/// Spaces for column padding.
pub open spec fn spaces(n: int) -> Seq<char> {
    Seq::new(n as nat, |i: int| ' ')
}

/// The IP field, left-justified and padded to 15 columns.
pub open spec fn pad_ip(s: Seq<char>) -> Seq<char> {
    if s.len() < 15 {
        s + spaces(15 - s.len())
    } else {
        s
    }
}

/// Hostnames joined by single spaces.
pub open spec fn join_space(hs: Seq<Seq<char>>) -> Seq<char>
    decreases hs.len(),
{
    if hs.len() == 0 {
        Seq::empty()
    } else if hs.len() == 1 {
        hs[0]
    } else {
        join_space(hs.drop_last()) + seq![' '] + hs.last()
    }
}

/// The canonical text of an entry: the rendered IP padded to 15 columns, one
/// space, then the hostnames joined by single spaces.
pub open spec fn render_entry(e: EntryV) -> Seq<char> {
    pad_ip(render_ip(e.ip)) + seq![' '] + join_space(e.hostnames)
}

fn split_spaces_from(v: &Vec<char>, lo: usize) -> (r: Vec<String>)
    requires
        lo <= v@.len(),
    ensures
        lines_view(r@) == split_sp_from(v@, lo as int),
    decreases v@.len() - lo,
{
    proof {
        lemma_find_from(v@, ' ', lo as int);
    }
    let j = find_char(v, ' ', lo);
    let piece = string_of_chars(v, lo, j);
    if j == v.len() {
        let mut out: Vec<String> = Vec::new();
        out.push(piece);
        proof {
            assert(lines_view(out@)[0] == out@[0]@);
            assert(lines_view(out@) =~= split_sp_from(v@, lo as int));
        }
        out
    } else {
        let rest = split_spaces_from(v, j + 1);
        let ghost rest0 = rest@;
        let mut rest = rest;
        rest.insert(0, piece);
        proof {
            assert forall|k: int| 0 <= k < rest@.len() implies lines_view(rest@)[k]
                == split_sp_from(v@, lo as int)[k] by {
                assert(lines_view(rest@)[k] == rest@[k]@);
                if k > 0 {
                    assert(rest@[k] == rest0[k - 1]);
                    assert(lines_view(rest0)[k - 1] == rest0[k - 1]@);
                }
            }
            assert(lines_view(rest@) =~= split_sp_from(v@, lo as int));
        }
        rest
    }
}

impl Entry {
    /// Constructs an entry directly from its parts.
    pub fn new(ip: IpAddr, hostnames: Vec<String>) -> (r: Entry)
        ensures
            r@ == (EntryV { ip, hostnames: lines_view(hostnames@) }),
    {
        Entry { ip, hostnames }
    }

    /// Parses one managed line into an entry.
    pub fn from_str(s: &str) -> (r: Result<Entry, ErrorKind>)
        ensures
            match r {
                Ok(e) => spec_parse_entry(s@) == Some(e@),
                Err(k) => spec_parse_entry(s@) is None && k == ErrorKind::Parse,
            },
    {
        let v = chars_of(s);
        proof {
            lemma_find_ws_from(v@, 0);
        }
        let i0 = find_ws(&v, 0);
        let tok = subvec(&v, 0, i0);
        match IpAddr::parse_chars(&tok) {
            None => Err(ErrorKind::Parse),
            Some(ip) => {
                proof {
                    lemma_skip_ws_from(v@, i0 as int);
                }
                let j = skip_ws(&v, i0);
                if j == v.len() {
                    Err(ErrorKind::Parse)
                } else {
                    proof {
                        lemma_rtrim_len(v@);
                    }
                    let k = rtrim(&v);
                    let part = subvec(&v, j, k);
                    let hostnames = split_spaces_from(&part, 0);
                    proof {
                        assert(part@.subrange(0, part@.len() as int) =~= part@);
                    }
                    Ok(Entry { ip, hostnames })
                }
            },
        }
    }

    /// The canonical text of the entry.
    pub fn render(&self) -> (r: String)
        ensures
            r@ == render_entry(self@),
    {
        let mut out = self.ip.render();
        let n = out.as_str().unicode_len();
        let ghost ip_text = render_ip(self.ip);
        if n < 15 {
            let pad = 15 - n;
            let mut i: usize = 0;
            proof {
                assert(out@ =~= ip_text + spaces(0));
            }
            while i < pad
                invariant
                    i <= pad,
                    n == ip_text.len(),
                    pad == 15 - n,
                    out@ == ip_text + spaces(i as int),
                decreases pad - i,
            {
                push_char(&mut out, ' ');
                proof {
                    assert(ip_text + spaces(i as int + 1) =~= (ip_text + spaces(i as int)).push(
                        ' ',
                    ));
                }
                i = i + 1;
            }
        }
        proof {
            assert(out@ =~= pad_ip(ip_text));
        }
        push_char(&mut out, ' ');
        let ghost head = pad_ip(ip_text) + seq![' '];
        proof {
            assert(out@ =~= head);
        }
        let ghost hs = lines_view(self.hostnames@);
        let mut m: usize = 0;
        while m < self.hostnames.len()
            invariant
                m <= self.hostnames.len(),
                hs == lines_view(self.hostnames@),
                hs.len() == self.hostnames.len(),
                head == pad_ip(render_ip(self.ip)) + seq![' '],
                out@ == head + join_space(hs.subrange(0, m as int)),
            decreases self.hostnames.len() - m,
        {
            if m > 0 {
                push_char(&mut out, ' ');
            }
            let h = &self.hostnames[m];
            out.append(h.as_str());
            proof {
                let sub1 = hs.subrange(0, m as int + 1);
                let sub0 = hs.subrange(0, m as int);
                assert(hs[m as int] == self.hostnames@[m as int]@);
                if m == 0 {
                    assert(sub0 =~= Seq::<Seq<char>>::empty());
                    assert(sub1 =~= seq![hs[0]]);
                    assert(out@ =~= head + join_space(sub1));
                } else {
                    assert(sub1.drop_last() =~= sub0);
                    assert(sub1.last() == hs[m as int]);
                    assert(out@ =~= head + join_space(sub1));
                }
            }
            m = m + 1;
        }
        proof {
            assert(hs.subrange(0, hs.len() as int) =~= hs);
            if hs.len() == 0 {
                assert(out@ =~= head + join_space(hs));
            }
            assert(out@ =~= render_entry(self@));
        }
        out
    }

    /// Whether the two entries have the same canonical text. Entry equality is
    /// textual, over the rendered form, not field-by-field.
    pub fn eq_entry(&self, other: &Entry) -> (r: bool)
        ensures
            r == (render_entry(self@) == render_entry(other@)),
    {
        let a = self.render();
        let b = other.render();
        a == b
    }
}

} // verus!
