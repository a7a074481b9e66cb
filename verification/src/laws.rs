//! Laws that relate the parser, the renderer and the change detection, stated
//! over the same spec functions that the executable functions' contracts use.

use vstd::prelude::*;

use crate::entry::join_space;
use crate::entry::pad_ip;
use crate::entry::render_entry;
use crate::entry::spec_parse_entry;
use crate::entry::split_sp_from;
use crate::entry::EntryV;
use crate::hosts::begin_tag;
use crate::hosts::empty_filev;
use crate::hosts::end_tag;
use crate::hosts::entry_differs;
use crate::hosts::join_nl;
use crate::hosts::lemma_tags_differ;
use crate::hosts::render_file;
use crate::hosts::render_managed;
use crate::hosts::run_parse;
use crate::hosts::spec_changed;
use crate::hosts::spec_parse_lines;
use crate::hosts::FileV;
use crate::hosts::LineKind;
use crate::hosts::ParseOutcome;
use crate::ip::all_dec;
use crate::ip::all_hex;
use crate::ip::dec_u8_chars;
use crate::ip::find_dcolon_from;
use crate::ip::hex_u16_chars;
use crate::ip::is_v4_mapped;
use crate::ip::join_hex_colon;
use crate::ip::lemma_find_dcolon_from;
use crate::ip::lemma_zero_run_bounds;
use crate::ip::render_ip;
use crate::ip::render_v4;
use crate::ip::render_v6;
use crate::ip::seq_dec_val;
use crate::ip::seq_hex_val;
use crate::ip::spec_groups_from;
use crate::ip::spec_groups_v4_from;
use crate::ip::spec_hex_group;
use crate::ip::spec_octet;
use crate::ip::spec_parse_ip;
use crate::ip::spec_parse_ipv4;
use crate::ip::spec_parse_ipv6;
use crate::ip::spec_zero_run;
use crate::ip::zero_groups;
use crate::ip::zero_run;
use crate::ip::IpAddr;
use crate::text::dec_char;
use crate::text::dec_val;
use crate::text::find_from;
use crate::text::find_ws_from;
use crate::text::hex_char;
use crate::text::hex_val;
use crate::text::is_dec_digit;
use crate::text::is_hex_digit;
use crate::text::is_ws;
use crate::text::lemma_find_from;
use crate::text::lemma_find_ws_from;
use crate::text::lemma_skip_ws_from;
use crate::text::rtrim_len;
use crate::text::skip_ws_from;

verus! {

/// Writing the same desired entries twice reports a change at most once: a
/// managed block that was just replaced by the desired entries never differs
/// from them, so the second write reports `NotChanged` and leaves the sink
/// untouched.
pub proof fn lemma_write_idempotent(ds: Seq<EntryV>)
    ensures
        !spec_changed(ds, ds),
{
    assert(forall|i: int| 0 <= i < ds.len() ==> !#[trigger] entry_differs(ds, ds, i));
}

proof fn run_parse_no_end(lines: Seq<Seq<char>>, i: int, st: LineKind, acc: FileV)
    requires
        0 <= i <= lines.len(),
        forall|j: int| i <= j < lines.len() ==> lines[j] != end_tag(),
        st is Managed || exists|k: int| i <= k < lines.len() && lines[k] == begin_tag(),
    ensures
        !(run_parse(lines, i, st, acc) is Parsed),
    decreases lines.len() - i,
{
    if i < lines.len() {
        let l = lines[i];
        if l == begin_tag() {
            run_parse_no_end(lines, i + 1, LineKind::Managed, acc);
        } else {
            assert(l != end_tag());
            let k0 = if st is Managed {
                i
            } else {
                choose|k: int| i <= k < lines.len() && lines[k] == begin_tag()
            };
            match st {
                LineKind::Managed => match spec_parse_entry(l) {
                    None => {},
                    Some(e) => {
                        run_parse_no_end(
                            lines,
                            i + 1,
                            st,
                            FileV {
                                before: acc.before,
                                managed: acc.managed.push(e),
                                after: acc.after,
                            },
                        );
                    },
                },
                LineKind::Before => {
                    assert(k0 != i);
                    run_parse_no_end(
                        lines,
                        i + 1,
                        st,
                        FileV { before: acc.before.push(l), managed: acc.managed, after: acc.after },
                    );
                },
                LineKind::After => {
                    assert(k0 != i);
                    run_parse_no_end(
                        lines,
                        i + 1,
                        st,
                        FileV { before: acc.before, managed: acc.managed, after: acc.after.push(l) },
                    );
                },
            }
        }
    }
}

/// A list of lines that holds the begin tag somewhere but the end tag nowhere
/// never parses: the load fails, with the missing-end-tag failure if every
/// line after the begin tag parses as an entry, else with the parse failure.
pub proof fn lemma_missing_end_tag(lines: Seq<Seq<char>>)
    requires
        exists|k: int| 0 <= k < lines.len() && lines[k] == begin_tag(),
        forall|j: int| 0 <= j < lines.len() ==> lines[j] != end_tag(),
    ensures
        !(spec_parse_lines(lines) is Parsed),
{
    run_parse_no_end(
        lines,
        0,
        LineKind::Before,
        FileV { before: Seq::empty(), managed: Seq::empty(), after: Seq::empty() },
    );
}

proof fn lemma_join_nl_concat(a: Seq<Seq<char>>, b: Seq<Seq<char>>)
    requires
        a.len() > 0,
        b.len() > 0,
    ensures
        join_nl(a + b) == join_nl(a) + seq!['\n'] + join_nl(b),
    decreases b.len(),
{
    if b.len() == 1 {
        assert((a + b).drop_last() =~= a);
        assert((a + b).last() == b[0]);
        assert(join_nl(a + b) =~= join_nl(a) + seq!['\n'] + join_nl(b));
    } else {
        assert((a + b).drop_last() =~= a + b.drop_last());
        assert((a + b).last() == b.last());
        lemma_join_nl_concat(a, b.drop_last());
        assert(join_nl(a + b) =~= join_nl(a) + seq!['\n'] + join_nl(b));
    }
}

proof fn lemma_render_managed_join(entries: Seq<EntryV>, mlines: Seq<Seq<char>>)
    requires
        entries.len() == mlines.len(),
        entries.len() > 0,
        forall|i: int| 0 <= i < entries.len() ==> render_entry(entries[i]) == mlines[i],
    ensures
        render_managed(entries) == join_nl(mlines) + seq!['\n'],
    decreases entries.len(),
{
    if entries.len() == 1 {
        assert(render_managed(entries.drop_last()) =~= Seq::<char>::empty());
        assert(render_entry(entries[0]) == mlines[0]);
        assert(render_managed(entries) =~= join_nl(mlines) + seq!['\n']);
    } else {
        assert(forall|i: int|
            0 <= i < entries.len() - 1 ==> render_entry(#[trigger] entries.drop_last()[i])
                == mlines.drop_last()[i]);
        lemma_render_managed_join(entries.drop_last(), mlines.drop_last());
        assert(render_entry(entries.last()) == mlines.last());
        assert(render_managed(entries) =~= join_nl(mlines) + seq!['\n']);
    }
}

proof fn run_parse_in_after(lines: Seq<Seq<char>>, i: int, acc: FileV)
    requires
        0 <= i <= lines.len(),
        forall|j: int| i <= j < lines.len() ==> lines[j] != begin_tag() && lines[j] != end_tag(),
    ensures
        run_parse(lines, i, LineKind::After, acc) == ParseOutcome::Parsed(
            FileV {
                before: acc.before,
                managed: acc.managed,
                after: acc.after + lines.subrange(i, lines.len() as int),
            },
        ),
    decreases lines.len() - i,
{
    if i == lines.len() {
        assert(acc.after + lines.subrange(i, i) =~= acc.after);
        assert((FileV {
            before: acc.before,
            managed: acc.managed,
            after: acc.after + lines.subrange(i, i),
        }) =~= acc);
    } else {
        run_parse_in_after(
            lines,
            i + 1,
            FileV { before: acc.before, managed: acc.managed, after: acc.after.push(lines[i]) },
        );
        assert(acc.after.push(lines[i]) + lines.subrange(i + 1, lines.len() as int) =~= acc.after
            + lines.subrange(i, lines.len() as int));
    }
}

#[verifier::rlimit(60)]
proof fn run_parse_in_managed(lines: Seq<Seq<char>>, i: int, t: int, es: Seq<EntryV>, acc: FileV)
    requires
        0 <= i <= t < lines.len(),
        lines[t] == end_tag(),
        es.len() == t - i,
        forall|j: int|
            i <= j < t ==> lines[j] != begin_tag() && lines[j] != end_tag() && spec_parse_entry(
                #[trigger] lines[j],
            ) == Some(es[j - i]),
        forall|j: int| t < j < lines.len() ==> lines[j] != begin_tag() && lines[j] != end_tag(),
    ensures
        run_parse(lines, i, LineKind::Managed, acc) == ParseOutcome::Parsed(
            FileV {
                before: acc.before,
                managed: acc.managed + es,
                after: acc.after + lines.subrange(t + 1, lines.len() as int),
            },
        ),
    decreases t - i,
{
    lemma_tags_differ();
    if i == t {
        run_parse_in_after(lines, t + 1, acc);
        assert(acc.managed + es =~= acc.managed);
    } else {
        assert(spec_parse_entry(lines[i]) == Some(es[0]));
        run_parse_in_managed(
            lines,
            i + 1,
            t,
            es.subrange(1, es.len() as int),
            FileV { before: acc.before, managed: acc.managed.push(es[0]), after: acc.after },
        );
        assert(acc.managed.push(es[0]) + es.subrange(1, es.len() as int) =~= acc.managed + es);
    }
}

proof fn run_parse_in_before(
    lines: Seq<Seq<char>>,
    i: int,
    p: int,
    t: int,
    es: Seq<EntryV>,
    acc: FileV,
)
    requires
        0 <= i <= p < t < lines.len(),
        lines[p] == begin_tag(),
        lines[t] == end_tag(),
        forall|j: int| i <= j < p ==> lines[j] != begin_tag() && lines[j] != end_tag(),
        es.len() == t - p - 1,
        forall|j: int|
            p < j < t ==> lines[j] != begin_tag() && lines[j] != end_tag() && spec_parse_entry(
                #[trigger] lines[j],
            ) == Some(es[j - p - 1]),
        forall|j: int| t < j < lines.len() ==> lines[j] != begin_tag() && lines[j] != end_tag(),
    ensures
        run_parse(lines, i, LineKind::Before, acc) == ParseOutcome::Parsed(
            FileV {
                before: acc.before + lines.subrange(i, p),
                managed: acc.managed + es,
                after: acc.after + lines.subrange(t + 1, lines.len() as int),
            },
        ),
    decreases p - i,
{
    if i == p {
        run_parse_in_managed(lines, p + 1, t, es, acc);
        assert(acc.before + lines.subrange(p, p) =~= acc.before);
    } else {
        run_parse_in_before(
            lines,
            i + 1,
            p,
            t,
            es,
            FileV { before: acc.before.push(lines[i]), managed: acc.managed, after: acc.after },
        );
        assert(acc.before.push(lines[i]) + lines.subrange(i + 1, p) =~= acc.before + lines.subrange(
            i,
            p,
        ));
    }
}

/// Round trip: a file laid out as a non-empty preamble, the begin tag, a
/// canonically rendered managed block, the end tag, and a non-empty trailer
/// parses back to exactly those segments, and rendering the parsed file
/// reproduces the file text character for character. The preamble and trailer
/// must be non-empty and hold no tag line: a file that opens with the begin
/// tag or closes with the end tag gains a blank line when re-rendered.
#[verifier::rlimit(80)]
pub proof fn lemma_parse_render_round_trip(
    before: Seq<Seq<char>>,
    mlines: Seq<Seq<char>>,
    entries: Seq<EntryV>,
    after: Seq<Seq<char>>,
)
    requires
        before.len() > 0,
        after.len() > 0,
        forall|i: int| 0 <= i < before.len() ==> before[i] != begin_tag() && before[i] != end_tag(),
        forall|i: int| 0 <= i < after.len() ==> after[i] != begin_tag() && after[i] != end_tag(),
        mlines.len() == entries.len(),
        forall|i: int|
            0 <= i < mlines.len() ==> mlines[i] != begin_tag() && mlines[i] != end_tag()
                && spec_parse_entry(#[trigger] mlines[i]) == Some(entries[i]) && render_entry(
                entries[i],
            ) == mlines[i],
    ensures
        ({
            let lines = before + seq![begin_tag()] + mlines + seq![end_tag()] + after;
            let f = FileV { before, managed: entries, after };
            &&& spec_parse_lines(lines) == ParseOutcome::Parsed(f)
            &&& render_file(f) == join_nl(lines)
        }),
{
    let lines = before + seq![begin_tag()] + mlines + seq![end_tag()] + after;
    let f = FileV { before, managed: entries, after };
    let p = before.len() as int;
    let t = p + 1 + mlines.len() as int;
    assert(lines.len() == before.len() + mlines.len() + after.len() + 2);
    assert(lines[p] == begin_tag());
    assert(lines[t] == end_tag());
    assert(forall|j: int| 0 <= j < p ==> lines[j] == before[j]);
    assert(forall|j: int| p < j < t ==> lines[j] == mlines[j - p - 1]);
    assert(forall|j: int| t < j < lines.len() ==> lines[j] == after[j - t - 1]);
    run_parse_in_before(lines, 0, p, t, entries, empty_filev());
    assert(empty_filev().before + lines.subrange(0, p) =~= before);
    assert(empty_filev().managed + entries =~= entries);
    assert(empty_filev().after + lines.subrange(t + 1, lines.len() as int) =~= after);
    assert((FileV {
        before: empty_filev().before + lines.subrange(0, p),
        managed: empty_filev().managed + entries,
        after: empty_filev().after + lines.subrange(t + 1, lines.len() as int),
    }) =~= f);
    let r3 = seq![end_tag()] + after;
    let r2 = mlines + r3;
    let r1 = seq![begin_tag()] + r2;
    assert(lines =~= before + r1);
    lemma_join_nl_concat(before, r1);
    lemma_join_nl_concat(seq![begin_tag()], r2);
    assert(join_nl(seq![begin_tag()]) == begin_tag());
    lemma_join_nl_concat(seq![end_tag()], after);
    assert(join_nl(seq![end_tag()]) == end_tag());
    if entries.len() == 0 {
        assert(r2 =~= r3);
        assert(render_managed(entries) =~= Seq::<char>::empty());
        assert(render_file(f) =~= join_nl(lines));
    } else {
        assert(r2 =~= mlines + r3);
        lemma_join_nl_concat(mlines, r3);
        lemma_render_managed_join(entries, mlines);
        assert(render_file(f) =~= join_nl(lines));
    }
}

proof fn lemma_join_space_front(hs: Seq<Seq<char>>)
    requires
        hs.len() > 1,
    ensures
        join_space(hs) == hs[0] + seq![' '] + join_space(hs.subrange(1, hs.len() as int)),
    decreases hs.len(),
{
    let tail = hs.subrange(1, hs.len() as int);
    if hs.len() == 2 {
        assert(hs.drop_last() =~= seq![hs[0]]);
        assert(tail =~= seq![hs[1]]);
        assert(join_space(seq![hs[0]]) == hs[0]);
        assert(join_space(seq![hs[1]]) == hs[1]);
        assert(join_space(hs) =~= hs[0] + seq![' '] + join_space(tail));
    } else {
        lemma_join_space_front(hs.drop_last());
        assert(hs.drop_last()[0] == hs[0]);
        assert(hs.drop_last().subrange(1, hs.len() - 1) =~= tail.drop_last());
        assert(tail.last() == hs.last());
        assert(join_space(hs) =~= hs[0] + seq![' '] + join_space(tail));
    }
}

proof fn lemma_join_space_last(hs: Seq<Seq<char>>)
    requires
        hs.len() > 0,
        hs.last().len() > 0,
    ensures
        join_space(hs).len() > 0,
        join_space(hs).last() == hs.last().last(),
{
}

proof fn lemma_split_join_at(s: Seq<char>, lo: int, hs: Seq<Seq<char>>)
    requires
        0 <= lo <= s.len(),
        hs.len() > 0,
        forall|i: int, j: int|
            0 <= i < hs.len() && 0 <= j < hs[i].len() ==> #[trigger] hs[i][j] != ' ',
        s.subrange(lo, s.len() as int) == join_space(hs),
    ensures
        split_sp_from(s, lo) == hs,
    decreases hs.len(),
{
    lemma_find_from(s, ' ', lo);
    let f = find_from(s, ' ', lo);
    assert forall|k: int| lo <= k < s.len() implies s[k] == join_space(hs)[k - lo] by {
        assert(s.subrange(lo, s.len() as int)[k - lo] == s[k]);
    }
    if hs.len() == 1 {
        assert(join_space(hs) == hs[0]);
        assert(f == s.len()) by {
            if f < s.len() {
                assert(s[f] == hs[0][f - lo]);
            }
        }
        assert(s.subrange(lo, f) =~= hs[0]);
        assert(split_sp_from(s, lo) =~= hs);
    } else {
        lemma_join_space_front(hs);
        let tail = hs.subrange(1, hs.len() as int);
        let h0 = hs[0];
        let m = lo + h0.len() as int;
        assert(join_space(hs)[h0.len() as int] == ' ');
        assert(forall|k: int| lo <= k < m ==> s[k] == h0[k - lo]);
        assert(s[m] == ' ');
        assert(f == m) by {
            if f < m {
                assert(s[f] == h0[f - lo]);
                assert(h0[f - lo] != ' ');
            }
            if f > m {
                assert(s[m] != ' ');
            }
        }
        assert(s.subrange(lo, f) =~= h0);
        assert forall|i: int, j: int|
            0 <= i < tail.len() && 0 <= j < tail[i].len() implies #[trigger] tail[i][j] != ' ' by {
            assert(tail[i] == hs[i + 1]);
        }
        assert(join_space(hs).len() == h0.len() + 1 + join_space(tail).len());
        assert(s.len() - lo == join_space(hs).len());
        assert(s.subrange(f + 1, s.len() as int).len() == join_space(tail).len());
        assert(s.subrange(f + 1, s.len() as int) =~= join_space(tail)) by {
            assert forall|k: int| 0 <= k < s.len() - f - 1 implies s.subrange(
                f + 1,
                s.len() as int,
            )[k] == join_space(tail)[k] by {
                assert(s.subrange(f + 1, s.len() as int)[k] == s[f + 1 + k]);
                assert(s[f + 1 + k] == join_space(hs)[f + 1 + k - lo]);
                assert(join_space(hs)[h0.len() + 1 + k] == join_space(tail)[k]);
            }
        }
        lemma_split_join_at(s, f + 1, tail);
        assert(split_sp_from(s, lo) =~= hs);
    }
}

proof fn lemma_dec_char_val(d: int)
    requires
        0 <= d < 10,
    ensures
        is_dec_digit(dec_char(d)),
        dec_val(dec_char(d)) == d,
        d >= 1 ==> dec_char(d) != '0',
{
}

proof fn lemma_dec_chars_octet(n: int)
    requires
        0 <= n <= 255,
    ensures
        spec_octet(dec_u8_chars(n)) == Some(n as u8),
        1 <= dec_u8_chars(n).len() <= 3,
        all_dec(dec_u8_chars(n)),
{
    let s = dec_u8_chars(n);
    assert(seq_dec_val(Seq::<char>::empty()) == 0);
    if n < 10 {
        lemma_dec_char_val(n);
        assert(s.drop_last() =~= Seq::<char>::empty());
        assert(seq_dec_val(s) == n);
        assert(all_dec(s));
    } else if n < 100 {
        lemma_dec_char_val(n / 10);
        lemma_dec_char_val(n % 10);
        let s1 = seq![dec_char(n / 10)];
        assert(s1.drop_last() =~= Seq::<char>::empty());
        assert(seq_dec_val(s1) == n / 10);
        assert(s.drop_last() =~= s1);
        assert(seq_dec_val(s) == (n / 10) * 10 + n % 10);
        assert((n / 10) * 10 + n % 10 == n);
        assert(all_dec(s));
        assert(s[0] == dec_char(n / 10) && n / 10 >= 1);
    } else {
        lemma_dec_char_val(n / 100);
        lemma_dec_char_val((n / 10) % 10);
        lemma_dec_char_val(n % 10);
        let s1 = seq![dec_char(n / 100)];
        let s2 = seq![dec_char(n / 100), dec_char((n / 10) % 10)];
        assert(s1.drop_last() =~= Seq::<char>::empty());
        assert(seq_dec_val(s1) == n / 100);
        assert(s2.drop_last() =~= s1);
        assert(seq_dec_val(s2) == (n / 100) * 10 + (n / 10) % 10);
        assert(s.drop_last() =~= s2);
        assert(seq_dec_val(s) == ((n / 100) * 10 + (n / 10) % 10) * 10 + n % 10);
        assert(((n / 100) * 10 + (n / 10) % 10) * 10 + n % 10 == n);
        assert(all_dec(s));
        assert(s[0] == dec_char(n / 100) && n / 100 >= 1);
    }
}

/// The canonical text of an IPv4 address parses back to the same four
/// octets: dotted decimal without leading zeros is within the accepted
/// grammar, and each octet keeps its value.
#[verifier::rlimit(60)]
pub proof fn lemma_render_v4_parses_back(a: u8, b: u8, c: u8, d: u8)
    ensures
        spec_parse_ipv4(render_v4(a as int, b as int, c as int, d as int)) == Some((a, b, c, d)),
{
    let pa = dec_u8_chars(a as int);
    let pb = dec_u8_chars(b as int);
    let pc = dec_u8_chars(c as int);
    let pd = dec_u8_chars(d as int);
    lemma_dec_chars_octet(a as int);
    lemma_dec_chars_octet(b as int);
    lemma_dec_chars_octet(c as int);
    lemma_dec_chars_octet(d as int);
    let s = render_v4(a as int, b as int, c as int, d as int);
    let d1 = pa.len() as int;
    let d2 = d1 + 1 + pb.len() as int;
    let d3 = d2 + 1 + pc.len() as int;
    let n = s.len() as int;
    assert(n == d3 + 1 + pd.len());
    assert(forall|j: int| 0 <= j < d1 ==> s[j] == pa[j]);
    assert(s[d1] == '.');
    assert(forall|j: int| d1 < j < d2 ==> s[j] == pb[j - d1 - 1]);
    assert(s[d2] == '.');
    assert(forall|j: int| d2 < j < d3 ==> s[j] == pc[j - d2 - 1]);
    assert(s[d3] == '.');
    assert(forall|j: int| d3 < j < n ==> s[j] == pd[j - d3 - 1]);
    assert(forall|ch: char| is_dec_digit(ch) ==> ch != '.');
    lemma_find_from(s, '.', 0);
    assert(find_from(s, '.', 0) == d1) by {
        if find_from(s, '.', 0) < d1 {
            assert(s[find_from(s, '.', 0)] == pa[find_from(s, '.', 0)]);
        }
    }
    lemma_find_from(s, '.', d1 + 1);
    assert(find_from(s, '.', d1 + 1) == d2) by {
        if find_from(s, '.', d1 + 1) < d2 {
            assert(s[find_from(s, '.', d1 + 1)] == pb[find_from(s, '.', d1 + 1) - d1 - 1]);
        }
    }
    lemma_find_from(s, '.', d2 + 1);
    assert(find_from(s, '.', d2 + 1) == d3) by {
        if find_from(s, '.', d2 + 1) < d3 {
            assert(s[find_from(s, '.', d2 + 1)] == pc[find_from(s, '.', d2 + 1) - d2 - 1]);
        }
    }
    lemma_find_from(s, '.', d3 + 1);
    assert(find_from(s, '.', d3 + 1) == n) by {
        if find_from(s, '.', d3 + 1) < n {
            assert(s[find_from(s, '.', d3 + 1)] == pd[find_from(s, '.', d3 + 1) - d3 - 1]);
        }
    }
    assert(s.subrange(0, d1) =~= pa);
    assert(s.subrange(d1 + 1, d2) =~= pb);
    assert(s.subrange(d2 + 1, d3) =~= pc);
    assert(s.subrange(d3 + 1, n) =~= pd);
}

/// Every character of a parseable IPv4 literal is a decimal digit or a dot.
proof fn lemma_ipv4_chars(s: Seq<char>)
    requires
        spec_parse_ipv4(s) is Some,
    ensures
        forall|j: int| 0 <= j < s.len() ==> is_dec_digit(#[trigger] s[j]) || s[j] == '.',
{
    let d1 = find_from(s, '.', 0);
    let d2 = find_from(s, '.', d1 + 1);
    let d3 = find_from(s, '.', d2 + 1);
    lemma_find_from(s, '.', 0);
    lemma_find_from(s, '.', d1 + 1);
    lemma_find_from(s, '.', d2 + 1);
    lemma_find_from(s, '.', d3 + 1);
    assert forall|j: int| 0 <= j < s.len() implies is_dec_digit(#[trigger] s[j]) || s[j]
        == '.' by {
        if j < d1 {
            assert(s.subrange(0, d1)[j] == s[j]);
        } else if j == d1 || j == d2 || j == d3 {
        } else if j < d2 {
            assert(s.subrange(d1 + 1, d2)[j - d1 - 1] == s[j]);
        } else if j < d3 {
            assert(s.subrange(d2 + 1, d3)[j - d2 - 1] == s[j]);
        } else {
            assert(s.subrange(d3 + 1, s.len() as int)[j - d3 - 1] == s[j]);
        }
    }
}

proof fn lemma_render_v4_chars(a: int, b: int, c: int, d: int)
    requires
        0 <= a <= 255,
        0 <= b <= 255,
        0 <= c <= 255,
        0 <= d <= 255,
    ensures
        forall|j: int|
            0 <= j < render_v4(a, b, c, d).len() ==> is_dec_digit(
                #[trigger] render_v4(a, b, c, d)[j],
            ) || render_v4(a, b, c, d)[j] == '.',
{
    lemma_dec_chars_octet(a);
    lemma_dec_chars_octet(b);
    lemma_dec_chars_octet(c);
    lemma_dec_chars_octet(d);
    let s = render_v4(a, b, c, d);
    let pa = dec_u8_chars(a);
    let pb = dec_u8_chars(b);
    let pc = dec_u8_chars(c);
    let pd = dec_u8_chars(d);
    let d1 = pa.len() as int;
    let d2 = d1 + 1 + pb.len() as int;
    let d3 = d2 + 1 + pc.len() as int;
    assert forall|j: int| 0 <= j < s.len() implies is_dec_digit(#[trigger] s[j]) || s[j]
        == '.' by {
        if j < d1 {
            assert(s[j] == pa[j]);
        } else if j == d1 || j == d2 || j == d3 {
        } else if j < d2 {
            assert(s[j] == pb[j - d1 - 1]);
        } else if j < d3 {
            assert(s[j] == pc[j - d2 - 1]);
        } else {
            assert(s[j] == pd[j - d3 - 1]);
        }
    }
}

proof fn lemma_hex_char_val(d: int)
    requires
        0 <= d < 16,
    ensures
        is_hex_digit(hex_char(d)),
        hex_val(hex_char(d)) == d,
{
}

proof fn lemma_hex_chars_group(n: int)
    requires
        0 <= n <= 0xffff,
    ensures
        spec_hex_group(hex_u16_chars(n)) == Some(n as u16),
        1 <= hex_u16_chars(n).len() <= 4,
        all_hex(hex_u16_chars(n)),
{
    let s = hex_u16_chars(n);
    assert(seq_hex_val(Seq::<char>::empty()) == 0);
    if n < 0x10 {
        lemma_hex_char_val(n);
        assert(s.drop_last() =~= Seq::<char>::empty());
        assert(seq_hex_val(s) == n);
        assert(all_hex(s));
    } else if n < 0x100 {
        lemma_hex_char_val(n / 0x10);
        lemma_hex_char_val(n % 0x10);
        let s1 = seq![hex_char(n / 0x10)];
        assert(s1.drop_last() =~= Seq::<char>::empty());
        assert(seq_hex_val(s1) == n / 0x10);
        assert(s.drop_last() =~= s1);
        assert(seq_hex_val(s) == (n / 0x10) * 0x10 + n % 0x10);
        assert((n / 0x10) * 0x10 + n % 0x10 == n);
        assert(all_hex(s));
    } else if n < 0x1000 {
        lemma_hex_char_val(n / 0x100);
        lemma_hex_char_val((n / 0x10) % 0x10);
        lemma_hex_char_val(n % 0x10);
        let s1 = seq![hex_char(n / 0x100)];
        let s2 = seq![hex_char(n / 0x100), hex_char((n / 0x10) % 0x10)];
        assert(s1.drop_last() =~= Seq::<char>::empty());
        assert(seq_hex_val(s1) == n / 0x100);
        assert(s2.drop_last() =~= s1);
        assert(seq_hex_val(s2) == (n / 0x100) * 0x10 + (n / 0x10) % 0x10);
        assert(s.drop_last() =~= s2);
        assert(seq_hex_val(s) == ((n / 0x100) * 0x10 + (n / 0x10) % 0x10) * 0x10 + n % 0x10);
        assert(((n / 0x100) * 0x10 + (n / 0x10) % 0x10) * 0x10 + n % 0x10 == n);
        assert(all_hex(s));
    } else {
        lemma_hex_char_val(n / 0x1000);
        lemma_hex_char_val((n / 0x100) % 0x10);
        lemma_hex_char_val((n / 0x10) % 0x10);
        lemma_hex_char_val(n % 0x10);
        let s1 = seq![hex_char(n / 0x1000)];
        let s2 = seq![hex_char(n / 0x1000), hex_char((n / 0x100) % 0x10)];
        let s3 = seq![
            hex_char(n / 0x1000),
            hex_char((n / 0x100) % 0x10),
            hex_char((n / 0x10) % 0x10),
        ];
        assert(s1.drop_last() =~= Seq::<char>::empty());
        assert(seq_hex_val(s1) == n / 0x1000);
        assert(s2.drop_last() =~= s1);
        assert(seq_hex_val(s2) == (n / 0x1000) * 0x10 + (n / 0x100) % 0x10);
        assert(s3.drop_last() =~= s2);
        assert(seq_hex_val(s3) == ((n / 0x1000) * 0x10 + (n / 0x100) % 0x10) * 0x10 + (n / 0x10)
            % 0x10);
        assert(s.drop_last() =~= s3);
        assert(seq_hex_val(s) == (((n / 0x1000) * 0x10 + (n / 0x100) % 0x10) * 0x10 + (n / 0x10)
            % 0x10) * 0x10 + n % 0x10);
        assert((((n / 0x1000) * 0x10 + (n / 0x100) % 0x10) * 0x10 + (n / 0x10) % 0x10) * 0x10 + n
            % 0x10 == n);
        assert(all_hex(s));
    }
}

proof fn lemma_join_hex_front(gs: Seq<u16>)
    requires
        gs.len() > 1,
    ensures
        join_hex_colon(gs) == hex_u16_chars(gs[0] as int) + seq![':'] + join_hex_colon(
            gs.subrange(1, gs.len() as int),
        ),
    decreases gs.len(),
{
    let tail = gs.subrange(1, gs.len() as int);
    if gs.len() == 2 {
        assert(gs.drop_last() =~= seq![gs[0]]);
        assert(tail =~= seq![gs[1]]);
        assert(join_hex_colon(seq![gs[0]]) == hex_u16_chars(gs[0] as int));
        assert(join_hex_colon(seq![gs[1]]) == hex_u16_chars(gs[1] as int));
        assert(join_hex_colon(gs) =~= hex_u16_chars(gs[0] as int) + seq![':'] + join_hex_colon(
            tail,
        ));
    } else {
        lemma_join_hex_front(gs.drop_last());
        assert(gs.drop_last()[0] == gs[0]);
        assert(gs.drop_last().subrange(1, gs.len() - 1) =~= tail.drop_last());
        assert(tail.last() == gs.last());
        assert(join_hex_colon(gs) =~= hex_u16_chars(gs[0] as int) + seq![':'] + join_hex_colon(
            tail,
        ));
    }
}

proof fn lemma_join_hex_chars(gs: Seq<u16>)
    requires
        gs.len() > 0,
    ensures
        join_hex_colon(gs).len() > 0,
        forall|j: int|
            0 <= j < join_hex_colon(gs).len() ==> is_hex_digit(#[trigger] join_hex_colon(gs)[j])
                || join_hex_colon(gs)[j] == ':',
        is_hex_digit(join_hex_colon(gs)[0]),
        is_hex_digit(join_hex_colon(gs).last()),
        forall|j: int|
            0 <= j < join_hex_colon(gs).len() - 1 ==> !(#[trigger] join_hex_colon(gs)[j] == ':'
                && join_hex_colon(gs)[j + 1] == ':'),
    decreases gs.len(),
{
    lemma_hex_chars_group(gs[0] as int);
    let s = join_hex_colon(gs);
    if gs.len() == 1 {
        assert(s == hex_u16_chars(gs[0] as int));
        assert(forall|ch: char| is_hex_digit(ch) ==> ch != ':');
    } else {
        lemma_join_hex_front(gs);
        let tail = gs.subrange(1, gs.len() as int);
        lemma_join_hex_chars(tail);
        let h0 = hex_u16_chars(gs[0] as int);
        let m = h0.len() as int;
        let t = join_hex_colon(tail);
        assert(s.len() == m + 1 + t.len());
        assert(forall|j: int| 0 <= j < m ==> s[j] == h0[j]);
        assert(s[m] == ':');
        assert(forall|j: int| m < j < s.len() ==> s[j] == t[j - m - 1]);
        assert(forall|ch: char| is_hex_digit(ch) ==> ch != ':');
        assert forall|j: int| 0 <= j < s.len() implies is_hex_digit(#[trigger] s[j]) || s[j]
            == ':' by {
            if j < m {
                assert(s[j] == h0[j]);
            } else if j > m {
                assert(s[j] == t[j - m - 1]);
            }
        }
        assert(s.last() == t.last());
        assert forall|j: int| 0 <= j < s.len() - 1 implies !(#[trigger] s[j] == ':' && s[j + 1]
            == ':') by {
            if j < m {
                assert(s[j] == h0[j]);
            } else if j == m {
                assert(s[j + 1] == t[0]);
            } else {
                assert(s[j] == t[j - m - 1]);
                assert(s[j + 1] == t[j - m]);
            }
        }
    }
}

/// A colon-separated list of canonically rendered groups parses back to
/// exactly those group values, whether or not an embedded IPv4 tail would
/// have been allowed.
proof fn lemma_groups_parse_at(s: Seq<char>, lo: int, gs: Seq<u16>)
    requires
        0 <= lo <= s.len(),
        gs.len() > 0,
        s.subrange(lo, s.len() as int) == join_hex_colon(gs),
    ensures
        spec_groups_from(s, lo) == Some(gs),
        spec_groups_v4_from(s, lo) == Some(gs),
    decreases gs.len(),
{
    lemma_find_from(s, ':', lo);
    let f = find_from(s, ':', lo);
    lemma_hex_chars_group(gs[0] as int);
    let h0 = hex_u16_chars(gs[0] as int);
    assert(forall|ch: char| is_hex_digit(ch) ==> ch != ':');
    assert forall|k: int| lo <= k < s.len() implies s[k] == join_hex_colon(gs)[k - lo] by {
        assert(s.subrange(lo, s.len() as int)[k - lo] == s[k]);
    }
    if gs.len() == 1 {
        assert(join_hex_colon(gs) == h0);
        assert(f == s.len()) by {
            if f < s.len() {
                assert(s[f] == h0[f - lo]);
            }
        }
        assert(s.subrange(lo, f) =~= h0);
        assert(seq![gs[0]] =~= gs);
    } else {
        lemma_join_hex_front(gs);
        let tail = gs.subrange(1, gs.len() as int);
        lemma_join_hex_chars(tail);
        let t = join_hex_colon(tail);
        let m = lo + h0.len() as int;
        assert(join_hex_colon(gs).len() == h0.len() + 1 + t.len());
        assert(s[m] == ':');
        assert(f == m) by {
            if f < m {
                assert(s[f] == h0[f - lo]);
            }
            if f > m {
                assert(s[m] != ':');
            }
        }
        assert(s.subrange(lo, f) =~= h0);
        assert(f < s.len());
        assert(s.subrange(f + 1, s.len() as int) =~= t) by {
            assert forall|k: int| 0 <= k < s.len() - f - 1 implies s.subrange(
                f + 1,
                s.len() as int,
            )[k] == t[k] by {
                assert(s.subrange(f + 1, s.len() as int)[k] == s[f + 1 + k]);
                assert(s[f + 1 + k] == join_hex_colon(gs)[f + 1 + k - lo]);
                assert(join_hex_colon(gs)[h0.len() + 1 + k] == t[k]);
            }
        }
        lemma_groups_parse_at(s, f + 1, tail);
        assert(seq![gs[0]] + tail =~= gs);
    }
}

proof fn lemma_zero_run_zeros(gs: Seq<u16>, i: int, cs: int, cl: int, ls: int, ll: int)
    requires
        0 <= i <= gs.len(),
        0 <= cs,
        0 <= cl <= i,
        0 <= ls,
        0 <= ll <= i,
        cl == 0 || cs + cl == i,
        ll == 0 || ls + ll <= i,
        forall|k: int| cs <= k < cs + cl ==> gs[k] == 0,
        forall|k: int| ls <= k < ls + ll ==> gs[k] == 0,
    ensures
        ({
            let r = zero_run(gs, i, cs, cl, ls, ll);
            forall|k: int| r.0 <= k < r.0 + r.1 ==> gs[k] == 0
        }),
    decreases gs.len() - i,
{
    if i < gs.len() {
        if gs[i] == 0 {
            let ncs = if cl == 0 {
                i
            } else {
                cs
            };
            let ncl = cl + 1;
            if ncl > ll {
                lemma_zero_run_zeros(gs, i + 1, ncs, ncl, ncs, ncl);
            } else {
                lemma_zero_run_zeros(gs, i + 1, ncs, ncl, ls, ll);
            }
        } else {
            lemma_zero_run_zeros(gs, i + 1, 0, 0, ls, ll);
        }
    }
}

/// The canonical text of an IPv6 address parses back to the same eight
/// groups: the compressed `::` stands for exactly the zero groups that the
/// renderer dropped, and each written group keeps its value.
#[verifier::rlimit(100)]
pub proof fn lemma_render_v6_parses_back(gs: Seq<u16>)
    requires
        gs.len() == 8,
    ensures
        spec_parse_ipv6(render_v6(gs)) == Some(gs),
{
    let s = render_v6(gs);
    lemma_find_dcolon_from(s, 0);
    let p = find_dcolon_from(s, 0);
    if is_v4_mapped(gs) {
        let a = gs[6] as int / 256;
        let b = gs[6] as int % 256;
        let c = gs[7] as int / 256;
        let d = gs[7] as int % 256;
        let v4 = render_v4(a, b, c, d);
        let pre = seq![':', ':', 'f', 'f', 'f', 'f', ':'];
        assert(s == pre + v4);
        lemma_render_v4_chars(a, b, c, d);
        lemma_render_v4_parses_back(a as u8, b as u8, c as u8, d as u8);
        lemma_dec_chars_octet(a);
        lemma_dec_chars_octet(b);
        lemma_dec_chars_octet(c);
        lemma_dec_chars_octet(d);
        assert(v4.len() >= 7);
        assert(s[0] == ':' && s[1] == ':');
        assert(p == 0);
        let right = s.subrange(2, s.len() as int);
        assert(right =~= seq!['f', 'f', 'f', 'f', ':'] + v4);
        lemma_find_from(right, ':', 0);
        assert(right[0] == 'f' && right[1] == 'f' && right[2] == 'f' && right[3] == 'f' && right[4]
            == ':');
        assert(find_from(right, ':', 0) == 4) by {
            if find_from(right, ':', 0) < 4 {
                assert(right[find_from(right, ':', 0)] == 'f');
            }
        }
        assert(right.subrange(0, 4) =~= hex_u16_chars(0xffff));
        lemma_hex_chars_group(0xffff);
        lemma_find_from(right, ':', 5);
        assert(forall|k: int| 5 <= k < right.len() ==> right[k] == v4[k - 5]);
        assert(find_from(right, ':', 5) == right.len()) by {
            let f2 = find_from(right, ':', 5);
            if f2 < right.len() {
                assert(right[f2] == v4[f2 - 5]);
                assert(is_dec_digit(v4[f2 - 5]) || v4[f2 - 5] == '.');
            }
        }
        let last = right.subrange(5, right.len() as int);
        assert(last =~= v4);
        assert(spec_hex_group(last) is None);
        assert(spec_parse_ipv4(last) == Some((a as u8, b as u8, c as u8, d as u8)));
        assert(spec_groups_v4_from(right, 5) == Some(
            seq![(a * 256 + b) as u16, (c * 256 + d) as u16],
        ));
        assert((a * 256 + b) as u16 == gs[6]);
        assert((c * 256 + d) as u16 == gs[7]);
        assert(spec_groups_v4_from(right, 0) == Some(seq![0xffffu16] + seq![gs[6], gs[7]]));
        let rg = seq![0xffffu16] + seq![gs[6], gs[7]];
        assert(rg.len() == 3);
        assert(s.subrange(0, 0).len() == 0);
        assert(Seq::<u16>::empty() + zero_groups(5) + rg =~= gs);
    } else {
        let r = spec_zero_run(gs);
        lemma_zero_run_bounds(gs, 0, 0, 0, 0, 0);
        lemma_zero_run_zeros(gs, 0, 0, 0, 0, 0);
        let ls = r.0;
        let ll = r.1;
        if ll > 1 {
            let aa = gs.subrange(0, ls);
            let bb = gs.subrange(ls + ll, 8);
            let ja = join_hex_colon(aa);
            let jb = join_hex_colon(bb);
            assert(s == ja + seq![':', ':'] + jb);
            if aa.len() == 0 {
                assert(ja =~= Seq::<char>::empty());
            } else {
                lemma_join_hex_chars(aa);
            }
            if bb.len() > 0 {
                lemma_join_hex_chars(bb);
            } else {
                assert(jb =~= Seq::<char>::empty());
            }
            let m = ja.len() as int;
            assert(s.len() == m + 2 + jb.len());
            assert(forall|j: int| 0 <= j < m ==> s[j] == ja[j]);
            assert(s[m] == ':' && s[m + 1] == ':');
            assert(forall|j: int| m + 2 <= j < s.len() ==> s[j] == jb[j - m - 2]);
            assert(forall|ch: char| is_hex_digit(ch) ==> ch != ':');
            assert(p == m) by {
                if p < m {
                    if p < m - 1 {
                        assert(s[p] == ja[p] && s[p + 1] == ja[p + 1]);
                        assert(!(ja[p] == ':' && ja[p + 1] == ':'));
                    } else {
                        assert(s[p] == ja[m - 1]);
                        assert(ja[m - 1] == ja.last());
                        assert(is_hex_digit(ja.last()));
                    }
                }
                if p > m {
                    assert(!(s[m] == ':' && s[m + 1] == ':'));
                }
            }
            let left = s.subrange(0, p);
            let right = s.subrange(p + 2, s.len() as int);
            assert(left =~= ja);
            assert(right =~= jb);
            if aa.len() > 0 {
                assert(left.subrange(0, left.len() as int) =~= ja);
                lemma_groups_parse_at(left, 0, aa);
            }
            if bb.len() > 0 {
                assert(right.subrange(0, right.len() as int) =~= jb);
                lemma_groups_parse_at(right, 0, bb);
            }
            assert(aa.len() == ls && bb.len() == 8 - ls - ll);
            assert(aa.len() + bb.len() <= 7);
            assert(aa + zero_groups(ll) + bb =~= gs) by {
                assert(forall|k: int| ls <= k < ls + ll ==> gs[k] == 0);
            }
        } else {
            lemma_join_hex_chars(gs);
            assert(s == join_hex_colon(gs));
            assert(p == s.len()) by {
                if p < s.len() {
                    assert(!(s[p] == ':' && s[p + 1] == ':'));
                }
            }
            assert(s.len() > 0);
            assert(s.subrange(0, s.len() as int) =~= s);
            lemma_groups_parse_at(s, 0, gs);
        }
    }
}

/// A position in the rendered IPv6 text that holds a colon, so the text can
/// never be within the IPv4 grammar.
proof fn lemma_render_v6_has_colon(gs: Seq<u16>)
    requires
        gs.len() == 8,
    ensures
        exists|j: int| 0 <= j < render_v6(gs).len() && render_v6(gs)[j] == ':',
{
    let s = render_v6(gs);
    if is_v4_mapped(gs) {
        assert(s[0] == ':');
    } else {
        let r = spec_zero_run(gs);
        lemma_zero_run_bounds(gs, 0, 0, 0, 0, 0);
        if r.1 > 1 {
            let ja = join_hex_colon(gs.subrange(0, r.0));
            if gs.subrange(0, r.0).len() == 0 {
                assert(ja =~= Seq::<char>::empty());
            } else {
                lemma_join_hex_chars(gs.subrange(0, r.0));
            }
            assert(s[ja.len() as int] == ':');
        } else {
            lemma_join_hex_front(gs);
            let h0 = hex_u16_chars(gs[0] as int);
            assert(s[h0.len() as int] == ':');
        }
    }
}

/// The canonical text of any address parses back to the same address.
pub proof fn lemma_render_ip_parses_back(ip: IpAddr)
    ensures
        spec_parse_ip(render_ip(ip)) == Some(ip),
{
    match ip {
        IpAddr::V4(a, b, c, d) => {
            lemma_render_v4_parses_back(a, b, c, d);
        },
        IpAddr::V6(g0, g1, g2, g3, g4, g5, g6, g7) => {
            let gs = ip.v6_groups();
            let s = render_ip(ip);
            lemma_render_v6_parses_back(gs);
            lemma_render_v6_has_colon(gs);
            if spec_parse_ipv4(s) is Some {
                lemma_ipv4_chars(s);
                let j = choose|j: int| 0 <= j < s.len() && s[j] == ':';
                assert(is_dec_digit(s[j]) || s[j] == '.');
                assert(false);
            }
            assert(IpAddr::V6(gs[0], gs[1], gs[2], gs[3], gs[4], gs[5], gs[6], gs[7]) == ip);
        },
    }
}

/// No character of a canonical address rendering is whitespace: the text is
/// made of digits, lowercase hexadecimal letters, dots and colons.
proof fn lemma_render_ip_no_ws(ip: IpAddr)
    ensures
        forall|j: int| 0 <= j < render_ip(ip).len() ==> !is_ws(#[trigger] render_ip(ip)[j]),
{
    let s = render_ip(ip);
    assert(forall|ch: char| is_dec_digit(ch) ==> !is_ws(ch));
    assert(forall|ch: char| is_hex_digit(ch) ==> !is_ws(ch));
    assert(!is_ws('.') && !is_ws(':') && !is_ws('f'));
    match ip {
        IpAddr::V4(a, b, c, d) => {
            lemma_render_v4_chars(a as int, b as int, c as int, d as int);
        },
        IpAddr::V6(g0, g1, g2, g3, g4, g5, g6, g7) => {
            let gs = ip.v6_groups();
            if is_v4_mapped(gs) {
                let a = gs[6] as int / 256;
                let b = gs[6] as int % 256;
                let c = gs[7] as int / 256;
                let d = gs[7] as int % 256;
                let v4 = render_v4(a, b, c, d);
                lemma_render_v4_chars(a, b, c, d);
                assert forall|j: int| 0 <= j < s.len() implies !is_ws(#[trigger] s[j]) by {
                    if j >= 7 {
                        assert(s[j] == v4[j - 7]);
                    }
                }
            } else {
                let r = spec_zero_run(gs);
                lemma_zero_run_bounds(gs, 0, 0, 0, 0, 0);
                if r.1 > 1 {
                    let aa = gs.subrange(0, r.0);
                    let bb = gs.subrange(r.0 + r.1, 8);
                    let ja = join_hex_colon(aa);
                    let jb = join_hex_colon(bb);
                    if aa.len() == 0 {
                        assert(ja =~= Seq::<char>::empty());
                    } else {
                        lemma_join_hex_chars(aa);
                    }
                    if bb.len() == 0 {
                        assert(jb =~= Seq::<char>::empty());
                    } else {
                        lemma_join_hex_chars(bb);
                    }
                    let m = ja.len() as int;
                    assert forall|j: int| 0 <= j < s.len() implies !is_ws(#[trigger] s[j]) by {
                        if j < m {
                            assert(s[j] == ja[j]);
                            assert(is_hex_digit(ja[j]) || ja[j] == ':');
                        } else if j >= m + 2 {
                            assert(s[j] == jb[j - m - 2]);
                            assert(is_hex_digit(jb[j - m - 2]) || jb[j - m - 2] == ':');
                        }
                    }
                } else {
                    lemma_join_hex_chars(gs);
                    assert(forall|j: int|
                        0 <= j < s.len() ==> is_hex_digit(#[trigger] s[j]) || s[j] == ':');
                }
            }
        },
    }
}

/// Full round trip for one entry with well-formed hostnames: parsing the
/// entry's canonical rendering gives back the entry itself.
pub proof fn lemma_entry_round_trip(e: EntryV)
    requires
        e.hostnames.len() > 0,
        forall|i: int| 0 <= i < e.hostnames.len() ==> (#[trigger] e.hostnames[i]).len() > 0,
        forall|i: int, j: int|
            0 <= i < e.hostnames.len() && 0 <= j < e.hostnames[i].len() ==> !is_ws(
                #[trigger] e.hostnames[i][j],
            ),
    ensures
        spec_parse_entry(render_entry(e)) == Some(e),
{
    let ip_text = render_ip(e.ip);
    lemma_render_ip_parses_back(e.ip);
    lemma_render_ip_no_ws(e.ip);
    assert(spec_parse_ip(ip_text) == Some(e.ip));
    let ws = if ip_text.len() < 15 {
        crate::entry::spaces(15 - ip_text.len()) + seq![' ']
    } else {
        seq![' ']
    };
    assert(forall|j: int| 0 <= j < ws.len() ==> is_ws(#[trigger] ws[j]));
    lemma_line_round_trip(ip_text, ws, e.hostnames);
    assert(render_entry(e) =~= ip_text + ws + join_space(e.hostnames));
    let parsed = spec_parse_entry(render_entry(e))->Some_0;
    assert(parsed.ip == e.ip && parsed.hostnames == e.hostnames);
    assert(parsed =~= e);
}

/// The first character of a canonical address rendering: a digit for IPv4, a
/// hexadecimal digit or a colon for IPv6.
proof fn lemma_render_ip_first_char(ip: IpAddr)
    ensures
        render_ip(ip).len() > 0,
        is_hex_digit(render_ip(ip)[0]) || render_ip(ip)[0] == ':',
{
    let s = render_ip(ip);
    match ip {
        IpAddr::V4(a, b, c, d) => {
            lemma_dec_chars_octet(a as int);
            let pa = dec_u8_chars(a as int);
            assert(s[0] == pa[0]);
        },
        IpAddr::V6(g0, g1, g2, g3, g4, g5, g6, g7) => {
            let gs = ip.v6_groups();
            if is_v4_mapped(gs) {
                assert(s[0] == ':');
            } else {
                let r = spec_zero_run(gs);
                lemma_zero_run_bounds(gs, 0, 0, 0, 0, 0);
                if r.1 > 1 {
                    let aa = gs.subrange(0, r.0);
                    if aa.len() == 0 {
                        assert(join_hex_colon(aa) =~= Seq::<char>::empty());
                        assert(s[0] == ':');
                    } else {
                        lemma_join_hex_chars(aa);
                        assert(s[0] == join_hex_colon(aa)[0]);
                    }
                } else {
                    lemma_join_hex_chars(gs);
                    assert(s[0] == join_hex_colon(gs)[0]);
                }
            }
        },
    }
}

/// A canonical entry line is never mistaken for a tag line: the tags open
/// with a hash mark, an entry line with its IP field.
proof fn lemma_render_entry_not_tag(e: EntryV)
    ensures
        render_entry(e) != begin_tag(),
        render_entry(e) != end_tag(),
{
    reveal_strlit("# BEGIN ho — DO NOT REMOVE THIS LINE");
    reveal_strlit("# END ho — DO NOT REMOVE THIS LINE");
    lemma_render_ip_first_char(e.ip);
    let line = render_entry(e);
    assert(line[0] == render_ip(e.ip)[0]);
    assert(line[0] != '#');
    assert(begin_tag()[0] == '#');
    assert(end_tag()[0] == '#');
}

/// Round trip for a whole file built from canonical entries: a non-empty
/// preamble, the tagged rendering of well-formed entries, and a non-empty
/// trailer parse back to exactly those segments, and rendering the parsed
/// file reproduces the file text character for character.
pub proof fn lemma_file_round_trip(before: Seq<Seq<char>>, entries: Seq<EntryV>, after: Seq<
    Seq<char>,
>)
    requires
        before.len() > 0,
        after.len() > 0,
        forall|i: int| 0 <= i < before.len() ==> before[i] != begin_tag() && before[i] != end_tag(),
        forall|i: int| 0 <= i < after.len() ==> after[i] != begin_tag() && after[i] != end_tag(),
        forall|i: int| 0 <= i < entries.len() ==> (#[trigger] entries[i]).hostnames.len() > 0,
        forall|i: int, k: int|
            0 <= i < entries.len() && 0 <= k < entries[i].hostnames.len() ==> (
            #[trigger] entries[i].hostnames[k]).len() > 0,
        forall|i: int, k: int, j: int|
            0 <= i < entries.len() && 0 <= k < entries[i].hostnames.len() && 0 <= j
                < entries[i].hostnames[k].len() ==> !is_ws(#[trigger] entries[i].hostnames[k][j]),
    ensures
        ({
            let mlines = Seq::new(entries.len(), |i: int| render_entry(entries[i]));
            let lines = before + seq![begin_tag()] + mlines + seq![end_tag()] + after;
            let f = FileV { before, managed: entries, after };
            &&& spec_parse_lines(lines) == ParseOutcome::Parsed(f)
            &&& render_file(f) == join_nl(lines)
        }),
{
    let mlines = Seq::new(entries.len(), |i: int| render_entry(entries[i]));
    assert forall|i: int| 0 <= i < mlines.len() implies mlines[i] != begin_tag() && mlines[i]
        != end_tag() && spec_parse_entry(#[trigger] mlines[i]) == Some(entries[i]) && render_entry(
        entries[i],
    ) == mlines[i] by {
        lemma_entry_round_trip(entries[i]);
        lemma_render_entry_not_tag(entries[i]);
    }
    lemma_parse_render_round_trip(before, mlines, entries, after);
}

/// Round trip for one well-formed managed line `<ip><ws><h1> <h2> ...`: an IP
/// literal, a whitespace run, then non-empty whitespace-free hostnames joined
/// by single spaces. Parsing recovers the address the IP literal denotes and
/// exactly those hostnames, and rendering the parsed entry keeps the hostnames
/// as they were, with the IP field replaced by the canonical rendering of the
/// same address, padded to its column.
#[verifier::rlimit(60)]
pub proof fn lemma_line_round_trip(ip_text: Seq<char>, ws: Seq<char>, hostnames: Seq<Seq<char>>)
    requires
        spec_parse_ip(ip_text) is Some,
        forall|j: int| 0 <= j < ip_text.len() ==> !is_ws(#[trigger] ip_text[j]),
        ws.len() > 0,
        forall|j: int| 0 <= j < ws.len() ==> is_ws(#[trigger] ws[j]),
        hostnames.len() > 0,
        forall|i: int| 0 <= i < hostnames.len() ==> (#[trigger] hostnames[i]).len() > 0,
        forall|i: int, j: int|
            0 <= i < hostnames.len() && 0 <= j < hostnames[i].len() ==> !is_ws(
                #[trigger] hostnames[i][j],
            ),
    ensures
        ({
            let line = ip_text + ws + join_space(hostnames);
            &&& spec_parse_entry(line) matches Some(e) && e.ip == spec_parse_ip(ip_text)->Some_0
                && e.hostnames == hostnames && render_entry(e) == pad_ip(render_ip(e.ip))
                + seq![' '] + join_space(hostnames)
        }),
{
    let line = ip_text + ws + join_space(hostnames);
    let join = join_space(hostnames);
    let n0 = ip_text.len() as int;
    let n1 = n0 + ws.len() as int;
    lemma_join_space_last(hostnames);
    if hostnames.len() > 1 {
        lemma_join_space_front(hostnames);
    }
    assert(join[0] == hostnames[0][0]);
    assert(!is_ws(join[0]));
    assert(line.len() == n1 + join.len());
    assert(forall|j: int| 0 <= j < n0 ==> line[j] == ip_text[j]);
    assert(forall|j: int| n0 <= j < n1 ==> line[j] == ws[j - n0]);
    assert(forall|j: int| n1 <= j < line.len() ==> line[j] == join[j - n1]);
    lemma_find_ws_from(line, 0);
    assert(find_ws_from(line, 0) == n0) by {
        assert(is_ws(line[n0]));
        if find_ws_from(line, 0) < n0 {
            assert(!is_ws(line[find_ws_from(line, 0)]));
        }
    }
    assert(line.subrange(0, n0) =~= ip_text);
    lemma_skip_ws_from(line, n0);
    assert(skip_ws_from(line, n0) == n1) by {
        assert(!is_ws(line[n1]));
        if skip_ws_from(line, n0) < n1 {
            assert(is_ws(line[skip_ws_from(line, n0)]));
        }
    }
    assert(line.last() == hostnames.last().last());
    assert(!is_ws(line.last()));
    assert(rtrim_len(line) == line.len());
    assert(line.subrange(n1, line.len() as int) =~= join);
    assert forall|i: int, j: int|
        0 <= i < hostnames.len() && 0 <= j < hostnames[i].len() implies #[trigger] hostnames[i][j]
        != ' ' by {
        assert(!is_ws(hostnames[i][j]));
    }
    assert(join.subrange(0, join.len() as int) =~= join);
    lemma_split_join_at(join, 0, hostnames);
    assert(split_sp_from(line.subrange(n1, line.len() as int), 0) == hostnames);
}

} // verus!
