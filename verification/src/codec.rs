//! The durable form of the inventory snapshot: a human-editable
//! key-value document, one table per host holding its probe time, and
//! one table per data folder holding its path and optional container
//! binding. Rendering and parsing are exact inverses: a parse of a
//! rendered snapshot returns the store unchanged.

use vstd::prelude::*;

use crate::store::{DataFolder, EntryView, FolderView, ServerEntry, ServersCache};
use crate::text::{
    chars_start_with, digit_run, digits_value, int_digits, is_digit_char, lemma_digit_run_at,
    lemma_digits_value_bound, lemma_lex_lt_trans, lemma_pow10_mono, lex_lt, pow10, push_i64,
    push_str_chars, starts_with, str_lt, str_to_chars,
};

verus! {

/// How one character is written inside a quoted string: backslash,
/// quote and newline are escaped, all else stands as itself.
pub open spec fn esc_char(c: char) -> Seq<char> {
    if c == '\\' {
        seq!['\\', '\\']
    } else if c == '"' {
        seq!['\\', '"']
    } else if c == '\n' {
        seq!['\\', 'n']
    } else {
        seq![c]
    }
}

/// The escaped body of a quoted string.
pub open spec fn esc(s: Seq<char>) -> Seq<char>
    decreases s.len(),
{
    if s.len() == 0 {
        Seq::empty()
    } else {
        esc_char(s[0]) + esc(s.skip(1))
    }
}

proof fn lemma_esc_snoc(s: Seq<char>, c: char)
    ensures
        esc(s.push(c)) == esc(s) + esc_char(c),
    decreases s.len(),
{
    if s.len() == 0 {
        let p = s.push(c);
        assert(p.len() == 1);
        assert(p[0] == c);
        assert(p.skip(1) =~= Seq::<char>::empty());
        assert(esc(p.skip(1)) =~= Seq::<char>::empty());
        assert(esc(s) =~= Seq::<char>::empty());
        assert(esc(p) =~= esc(s) + esc_char(c));
    } else {
        assert(s.push(c).skip(1) =~= s.skip(1).push(c));
        lemma_esc_snoc(s.skip(1), c);
        assert(esc(s.push(c)) =~= esc(s) + esc_char(c));
    }
}

/// Appends the escaped body of `s` to `out`.
fn push_esc(out: &mut Vec<char>, s: &str)
    ensures
        final(out)@ == old(out)@ + esc(s@),
{
    let n: usize = s.unicode_len();
    let mut i: usize = 0;
    proof {
        assert(s@.take(0) =~= Seq::<char>::empty());
        assert(out@ =~= old(out)@ + esc(s@.take(0)));
    }
    while i < n
        invariant
            i <= n,
            n == s@.len(),
            out@ == old(out)@ + esc(s@.take(i as int)),
        decreases n - i,
    {
        proof {
            assert(s@.take(i + 1) =~= s@.take(i as int).push(s@[i as int]));
            lemma_esc_snoc(s@.take(i as int), s@[i as int]);
        }
        let c = s.get_char(i);
        if c == '\\' {
            out.push('\\');
            out.push('\\');
        } else if c == '"' {
            out.push('\\');
            out.push('"');
        } else if c == '\n' {
            out.push('\\');
            out.push('n');
        } else {
            out.push(c);
        }
        proof {
            assert(out@ =~= old(out)@ + esc(s@.take(i + 1)));
        }
        i = i + 1;
    }
    proof {
        assert(s@.take(i as int) =~= s@);
    }
}

/// The rendering of one data folder's table under its host.
pub open spec fn render_folder(host: Seq<char>, f: FolderView) -> Seq<char> {
    "[[servers.\""@ + esc(host) + seq!['"'] + ".data_folders]]\n"@ + "path = \""@ + esc(f.path)
        + seq!['"'] + "\n"@ + (match f.container {
        Option::Some(c) => "container = \""@ + esc(c) + seq!['"'] + "\n"@,
        Option::None => Seq::<char>::empty(),
    })
}

/// The rendering of one host's folder tables, in order.
pub open spec fn render_folders(host: Seq<char>, fs: Seq<FolderView>) -> Seq<char>
    decreases fs.len(),
{
    if fs.len() == 0 {
        Seq::empty()
    } else {
        render_folder(host, fs[0]) + render_folders(host, fs.skip(1))
    }
}

/// The rendering of one host's table: its name, probe time and folders.
pub open spec fn render_entry(host: Seq<char>, e: EntryView) -> Seq<char> {
    "[servers.\""@ + esc(host) + seq!['"'] + "]\n"@ + "last_updated = "@ + int_digits(
        e.last_updated,
    ) + "\n"@ + render_folders(host, e.data_folders)
}

/// The rendering of a whole snapshot, hosts in store order.
pub open spec fn render_doc(entries: Seq<(String, ServerEntry)>) -> Seq<char>
    decreases entries.len(),
{
    if entries.len() == 0 {
        Seq::empty()
    } else {
        render_entry(entries[0].0@, entries[0].1@) + render_doc(entries.skip(1))
    }
}

proof fn lemma_render_folders_snoc(host: Seq<char>, fs: Seq<FolderView>, f: FolderView)
    ensures
        render_folders(host, fs.push(f)) == render_folders(host, fs) + render_folder(host, f),
    decreases fs.len(),
{
    if fs.len() == 0 {
        let p = fs.push(f);
        assert(p.len() == 1);
        assert(p[0] == f);
        assert(p.skip(1) =~= Seq::<FolderView>::empty());
        assert(render_folders(host, p.skip(1)) =~= Seq::<char>::empty());
        assert(render_folders(host, fs) =~= Seq::<char>::empty());
        assert(render_folders(host, p) =~= render_folders(host, fs) + render_folder(host, f));
    } else {
        assert(fs.push(f).skip(1) =~= fs.skip(1).push(f));
        lemma_render_folders_snoc(host, fs.skip(1), f);
        assert(render_folders(host, fs.push(f)) =~= render_folders(host, fs) + render_folder(
            host,
            f,
        ));
    }
}

proof fn lemma_render_doc_snoc(es: Seq<(String, ServerEntry)>, e: (String, ServerEntry))
    ensures
        render_doc(es.push(e)) == render_doc(es) + render_entry(e.0@, e.1@),
    decreases es.len(),
{
    if es.len() == 0 {
        let p = es.push(e);
        assert(p.len() == 1);
        assert(p[0] == e);
        assert(p.skip(1) =~= Seq::<(String, ServerEntry)>::empty());
        assert(render_doc(p.skip(1)) =~= Seq::<char>::empty());
        assert(render_doc(es) =~= Seq::<char>::empty());
        assert(render_doc(p) =~= render_doc(es) + render_entry(e.0@, e.1@));
    } else {
        assert(es.push(e).skip(1) =~= es.skip(1).push(e));
        lemma_render_doc_snoc(es.skip(1), e);
        assert(render_doc(es.push(e)) =~= render_doc(es) + render_entry(e.0@, e.1@));
    }
}

fn render_folder_into(out: &mut Vec<char>, host: &str, f: &DataFolder)
    ensures
        final(out)@ == old(out)@ + render_folder(host@, f@),
{
    push_str_chars(out, "[[servers.\"");
    push_esc(out, host);
    out.push('"');
    push_str_chars(out, ".data_folders]]\n");
    push_str_chars(out, "path = \"");
    push_esc(out, f.path.as_str());
    out.push('"');
    push_str_chars(out, "\n");
    match &f.container {
        Option::Some(c) => {
            push_str_chars(out, "container = \"");
            push_esc(out, c.as_str());
            out.push('"');
            push_str_chars(out, "\n");
            proof {
                assert(out@ =~= old(out)@ + render_folder(host@, f@));
            }
        },
        Option::None => {
            proof {
                assert(out@ =~= old(out)@ + render_folder(host@, f@));
            }
        },
    }
}

fn render_entry_into(out: &mut Vec<char>, host: &str, e: &ServerEntry)
    ensures
        final(out)@ == old(out)@ + render_entry(host@, e@),
{
    push_str_chars(out, "[servers.\"");
    push_esc(out, host);
    out.push('"');
    push_str_chars(out, "]\n");
    push_str_chars(out, "last_updated = ");
    push_i64(out, e.last_updated);
    push_str_chars(out, "\n");
    let ghost fvs = e@.data_folders;
    let ghost head = old(out)@ + "[servers.\""@ + esc(host@) + seq!['"'] + "]\n"@
        + "last_updated = "@ + int_digits(e.last_updated as int) + "\n"@;
    proof {
        assert(out@ =~= head);
        assert(fvs.take(0) =~= Seq::<FolderView>::empty());
        assert(render_folders(host@, fvs.take(0)) =~= Seq::<char>::empty());
        assert(out@ =~= head + render_folders(host@, fvs.take(0)));
    }
    let mut j: usize = 0;
    while j < e.data_folders.len()
        invariant
            j <= e.data_folders@.len(),
            fvs == crate::store::folders_view(e.data_folders@),
            fvs.len() == e.data_folders@.len(),
            out@ == head + render_folders(host@, fvs.take(j as int)),
        decreases e.data_folders@.len() - j,
    {
        proof {
            assert(fvs.take(j + 1) =~= fvs.take(j as int).push(fvs[j as int]));
            lemma_render_folders_snoc(host@, fvs.take(j as int), fvs[j as int]);
            assert(fvs[j as int] == e.data_folders@[j as int]@);
        }
        render_folder_into(out, host, &e.data_folders[j]);
        proof {
            assert(out@ =~= head + render_folders(host@, fvs.take(j + 1)));
        }
        j = j + 1;
    }
    proof {
        assert(fvs.take(j as int) =~= fvs);
        assert(out@ =~= old(out)@ + render_entry(host@, e@));
    }
}

/// Renders a snapshot into its durable document form.
pub fn render_servers_cache(cache: &ServersCache) -> (r: String)
    ensures
        r@ == render_doc(cache.servers@),
{
    let mut out: Vec<char> = Vec::new();
    let mut i: usize = 0;
    proof {
        assert(cache.servers@.take(0) =~= Seq::<(String, ServerEntry)>::empty());
        assert(render_doc(cache.servers@.take(0)) =~= Seq::<char>::empty());
        assert(out@ =~= render_doc(cache.servers@.take(0)));
    }
    while i < cache.servers.len()
        invariant
            i <= cache.servers@.len(),
            out@ == render_doc(cache.servers@.take(i as int)),
        decreases cache.servers@.len() - i,
    {
        proof {
            assert(cache.servers@.take(i + 1) =~= cache.servers@.take(i as int).push(
                cache.servers@[i as int],
            ));
            lemma_render_doc_snoc(cache.servers@.take(i as int), cache.servers@[i as int]);
        }
        render_entry_into(&mut out, cache.servers[i].0.as_str(), &cache.servers[i].1);
        proof {
            assert(out@ =~= render_doc(cache.servers@.take(i + 1)));
        }
        i = i + 1;
    }
    proof {
        assert(cache.servers@.take(i as int) =~= cache.servers@);
    }
    crate::text::chars_to_string(&out)
}

/// The rest of `t` after the expected prefix `p`, when `t` starts with it.
pub open spec fn expect(t: Seq<char>, p: Seq<char>) -> Option<Seq<char>> {
    if starts_with(t, p) {
        Option::Some(t.skip(p.len() as int))
    } else {
        Option::None
    }
}

/// What one escape stands for inside a quoted string.
pub open spec fn unesc_char(c: char) -> Option<char> {
    if c == '\\' {
        Option::Some('\\')
    } else if c == '"' {
        Option::Some('"')
    } else if c == 'n' {
        Option::Some('\n')
    } else {
        Option::None
    }
}

/// Reads a quoted string's body up to and through its closing quote:
/// the unescaped text and the rest of the input.
pub open spec fn parse_qstr(t: Seq<char>) -> Option<(Seq<char>, Seq<char>)>
    decreases t.len(),
{
    if t.len() == 0 {
        Option::None
    } else if t[0] == '"' {
        Option::Some((Seq::empty(), t.skip(1)))
    } else if t[0] == '\\' {
        if t.len() >= 2 {
            match unesc_char(t[1]) {
                Option::Some(c) => match parse_qstr(t.skip(2)) {
                    Option::Some(sr) => Option::Some((seq![c] + sr.0, sr.1)),
                    Option::None => Option::None,
                },
                Option::None => Option::None,
            }
        } else {
            Option::None
        }
    } else {
        match parse_qstr(t.skip(1)) {
            Option::Some(sr) => Option::Some((seq![t[0]] + sr.0, sr.1)),
            Option::None => Option::None,
        }
    }
}

/// Reads a run of decimal digits: its value and the rest. A run longer
/// than twenty digits is outside the format.
pub open spec fn parse_uint(t: Seq<char>) -> Option<(nat, Seq<char>)> {
    let k = digit_run(t);
    if k == 0 || k > 20 {
        Option::None
    } else {
        Option::Some((digits_value(t.take(k as int)), t.skip(k as int)))
    }
}

/// Reads an optionally negated run of decimal digits.
pub open spec fn parse_int(t: Seq<char>) -> Option<(int, Seq<char>)> {
    if t.len() > 0 && t[0] == '-' {
        match parse_uint(t.skip(1)) {
            Option::Some(nr) => Option::Some((-(nr.0 as int), nr.1)),
            Option::None => Option::None,
        }
    } else {
        match parse_uint(t) {
            Option::Some(nr) => Option::Some((nr.0 as int, nr.1)),
            Option::None => Option::None,
        }
    }
}

/// Whether a parsed timestamp fits the stored sixty-four bit form.
pub open spec fn in_i64(v: int) -> bool {
    -9223372036854775808 <= v <= 9223372036854775807
}

/// Reads one data folder table belonging to `host`.
pub open spec fn parse_folder(t: Seq<char>, host: Seq<char>) -> Option<(FolderView, Seq<char>)> {
    match expect(t, "[[servers.\""@) {
        Option::None => Option::None,
        Option::Some(t1) => match parse_qstr(t1) {
            Option::None => Option::None,
            Option::Some(h2) => if h2.0 != host {
                Option::None
            } else {
                match expect(h2.1, ".data_folders]]\n"@) {
                    Option::None => Option::None,
                    Option::Some(t3) => match expect(t3, "path = \""@) {
                        Option::None => Option::None,
                        Option::Some(t4) => match parse_qstr(t4) {
                            Option::None => Option::None,
                            Option::Some(p) => match expect(p.1, "\n"@) {
                                Option::None => Option::None,
                                Option::Some(t6) => match expect(t6, "container = \""@) {
                                    Option::Some(t7) => match parse_qstr(t7) {
                                        Option::None => Option::None,
                                        Option::Some(c) => match expect(c.1, "\n"@) {
                                            Option::None => Option::None,
                                            Option::Some(t9) => Option::Some(
                                                (
                                                    FolderView {
                                                        path: p.0,
                                                        container: Option::Some(c.0),
                                                    },
                                                    t9,
                                                ),
                                            ),
                                        },
                                    },
                                    Option::None => Option::Some(
                                        (FolderView { path: p.0, container: Option::None }, t6),
                                    ),
                                },
                            },
                        },
                    },
                }
            },
        },
    }
}

/// Reads the folder tables belonging to `host`, until the input no
/// longer opens a folder table.
pub open spec fn parse_folders(t: Seq<char>, host: Seq<char>) -> Option<
    (Seq<FolderView>, Seq<char>),
>
    decreases t.len(),
{
    if !starts_with(t, "[[servers.\""@) {
        Option::Some((Seq::empty(), t))
    } else {
        match parse_folder(t, host) {
            Option::None => Option::None,
            Option::Some(fr) => if fr.1.len() < t.len() {
                match parse_folders(fr.1, host) {
                    Option::None => Option::None,
                    Option::Some(fsr) => Option::Some((seq![fr.0] + fsr.0, fsr.1)),
                }
            } else {
                Option::None
            },
        }
    }
}

/// Reads one host's table with its folder tables.
pub open spec fn parse_entry(t: Seq<char>) -> Option<((Seq<char>, EntryView), Seq<char>)> {
    match expect(t, "[servers.\""@) {
        Option::None => Option::None,
        Option::Some(t1) => match parse_qstr(t1) {
            Option::None => Option::None,
            Option::Some(h) => match expect(h.1, "]\n"@) {
                Option::None => Option::None,
                Option::Some(t3) => match expect(t3, "last_updated = "@) {
                    Option::None => Option::None,
                    Option::Some(t4) => match parse_int(t4) {
                        Option::None => Option::None,
                        Option::Some(vr) => if !in_i64(vr.0) {
                            Option::None
                        } else {
                            match expect(vr.1, "\n"@) {
                                Option::None => Option::None,
                                Option::Some(t6) => match parse_folders(t6, h.0) {
                                    Option::None => Option::None,
                                    Option::Some(fsr) => Option::Some(
                                        (
                                            (
                                                h.0,
                                                EntryView {
                                                    last_updated: vr.0,
                                                    data_folders: fsr.0,
                                                },
                                            ),
                                            fsr.1,
                                        ),
                                    ),
                                },
                            }
                        },
                    },
                },
            },
        },
    }
}

/// Reads a whole snapshot document: all host tables, to the end.
pub open spec fn parse_entries(t: Seq<char>) -> Option<Seq<(Seq<char>, EntryView)>>
    decreases t.len(),
{
    if t.len() == 0 {
        Option::Some(Seq::empty())
    } else {
        match parse_entry(t) {
            Option::None => Option::None,
            Option::Some(er) => if er.1.len() < t.len() {
                match parse_entries(er.1) {
                    Option::None => Option::None,
                    Option::Some(rest) => Option::Some(seq![er.0] + rest),
                }
            } else {
                Option::None
            },
        }
    }
}

/// The stored pairs of a snapshot, seen as host names and entry views.
pub open spec fn entries_view(s: Seq<(String, ServerEntry)>) -> Seq<(Seq<char>, EntryView)> {
    s.map_values(|p: (String, ServerEntry)| (p.0@, p.1@))
}

/// Strictly increasing host names, as the store keeps them.
pub open spec fn sorted_keys(es: Seq<(Seq<char>, EntryView)>) -> bool {
    forall|i: int, j: int| 0 <= i < j < es.len() ==> lex_lt(#[trigger] es[i].0, #[trigger] es[j].0)
}

fn expect_at(v: &Vec<char>, i: usize, p: &Vec<char>) -> (r: Option<usize>)
    requires
        i <= v@.len(),
    ensures
        match r {
            Option::Some(j) => i <= j <= v@.len() && expect(v@.skip(i as int), p@) == Option::Some(
                v@.skip(j as int),
            ),
            Option::None => expect(v@.skip(i as int), p@) is None,
        },
{
    if chars_start_with(v, i, p) {
        let n = v.len();
        assert(i + p@.len() <= n);
        let j = i + p.len();
        proof {
            assert(v@.skip(i as int).skip(p@.len() as int) =~= v@.skip(j as int));
        }
        Some(j)
    } else {
        None
    }
}

fn is_digit_c(c: char) -> (r: bool)
    ensures
        r == is_digit_char(c),
{
    ('0' as u32) <= (c as u32) && (c as u32) <= ('9' as u32)
}

fn parse_qstr_at(v: &Vec<char>, i: usize) -> (r: Option<(Vec<char>, usize)>)
    requires
        i <= v@.len(),
    ensures
        match r {
            Option::Some(sj) => i < sj.1 <= v@.len() && parse_qstr(v@.skip(i as int))
                == Option::Some((sj.0@, v@.skip(sj.1 as int))),
            Option::None => parse_qstr(v@.skip(i as int)) is None,
        },
    decreases v@.len() - i,
{
    let ghost t = v@.skip(i as int);
    if i == v.len() {
        return None;
    }
    let c = v[i];
    assert(t[0] == c);
    if c == '"' {
        let s: Vec<char> = Vec::new();
        proof {
            assert(s@ =~= Seq::<char>::empty());
            assert(t.skip(1) =~= v@.skip(i + 1));
        }
        return Some((s, i + 1));
    }
    if c == '\\' {
        if i + 1 == v.len() {
            assert(t.len() < 2);
            return None;
        }
        let e = v[i + 1];
        assert(t[1] == e);
        let u: char = if e == '\\' {
            '\\'
        } else if e == '"' {
            '"'
        } else if e == 'n' {
            '\n'
        } else {
            return None;
        };
        assert(unesc_char(t[1]) == Option::Some(u));
        match parse_qstr_at(v, i + 2) {
            Option::None => {
                proof {
                    assert(t.skip(2) =~= v@.skip(i + 2));
                }
                None
            },
            Option::Some((s, j)) => {
                let mut s = s;
                let ghost inner = s@;
                s.insert(0, u);
                proof {
                    assert(t.skip(2) =~= v@.skip(i + 2));
                    assert(s@ =~= seq![u] + inner);
                }
                Some((s, j))
            },
        }
    } else {
        match parse_qstr_at(v, i + 1) {
            Option::None => {
                proof {
                    assert(t.skip(1) =~= v@.skip(i + 1));
                }
                None
            },
            Option::Some((s, j)) => {
                let mut s = s;
                let ghost inner = s@;
                s.insert(0, c);
                proof {
                    assert(t.skip(1) =~= v@.skip(i + 1));
                    assert(s@ =~= seq![c] + inner);
                }
                Some((s, j))
            },
        }
    }
}

proof fn lemma_pow10_20_value()
    ensures
        pow10(20) == 100000000000000000000,
        pow10(19) == 10000000000000000000,
{
    assert(pow10(0) == 1);
    assert(pow10(1) == 10);
    assert(pow10(2) == 100);
    assert(pow10(3) == 1000);
    assert(pow10(4) == 10000);
    assert(pow10(5) == 100000);
    assert(pow10(6) == 1000000);
    assert(pow10(7) == 10000000);
    assert(pow10(8) == 100000000);
    assert(pow10(9) == 1000000000);
    assert(pow10(10) == 10000000000);
    assert(pow10(11) == 100000000000);
    assert(pow10(12) == 1000000000000);
    assert(pow10(13) == 10000000000000);
    assert(pow10(14) == 100000000000000);
    assert(pow10(15) == 1000000000000000);
    assert(pow10(16) == 10000000000000000);
    assert(pow10(17) == 100000000000000000);
    assert(pow10(18) == 1000000000000000000);
    assert(pow10(19) == 10000000000000000000);
    assert(pow10(20) == 100000000000000000000);
}

fn parse_uint_at(v: &Vec<char>, i: usize) -> (r: Option<(u128, usize)>)
    requires
        i <= v@.len(),
    ensures
        match r {
            Option::Some(xj) => i < xj.1 <= v@.len() && parse_uint(v@.skip(i as int))
                == Option::Some((xj.0 as nat, v@.skip(xj.1 as int))),
            Option::None => parse_uint(v@.skip(i as int)) is None,
        },
{
    let ghost t = v@.skip(i as int);
    let n = v.len();
    let mut j: usize = i;
    while j < n && is_digit_c(v[j])
        invariant
            i <= j <= n,
            n == v@.len(),
            forall|q: int| i <= q < j ==> is_digit_char(v@[q]),
        decreases n - j,
    {
        j = j + 1;
    }
    proof {
        assert(forall|q: int| 0 <= q < j - i ==> #[trigger] t[q] == v@[i + q]);
        lemma_digit_run_at(t, j - i);
    }
    let k = j - i;
    if k == 0 || k > 20 {
        return None;
    }
    let ghost ds = t.take(k as int);
    proof {
        assert(forall|q: int| 0 <= q < ds.len() ==> #[trigger] ds[q] == v@[i + q]);
        assert(forall|q: int| 0 <= q < ds.len() ==> is_digit_char(#[trigger] ds[q]));
        lemma_pow10_20_value();
    }
    let mut acc: u128 = 0;
    let mut m: usize = i;
    proof {
        assert(v@.subrange(i as int, i as int) =~= Seq::<char>::empty());
    }
    while m < j
        invariant
            i <= m <= j <= n,
            n == v@.len(),
            j - i == k,
            k <= 20,
            ds == v@.skip(i as int).take(k as int),
            forall|q: int| i <= q < j ==> is_digit_char(v@[q]),
            acc as nat == digits_value(v@.subrange(i as int, m as int)),
            pow10(20) == 100000000000000000000,
        decreases j - m,
    {
        let ghost pre = v@.subrange(i as int, m as int);
        proof {
            assert(forall|q: int| 0 <= q < pre.len() ==> #[trigger] pre[q] == v@[i + q]);
            lemma_digits_value_bound(pre);
            lemma_pow10_mono((m - i) as nat, 19);
            assert(pow10(19) <= pow10(20));
            assert(acc < pow10(19)) by {
                assert(pow10(19) == pow10(((20 as nat) - 1) as nat));
                assert(pow10(20) == 10 * pow10(19));
            }
        }
        let c = v[m];
        let d: u128 = (((c as u32) - ('0' as u32)) as u128);
        assert(d as nat == crate::text::digit_val(c));
        assert(d <= 9);
        acc = acc * 10 + d;
        proof {
            assert(v@.subrange(i as int, m + 1).drop_last() =~= pre);
            assert(v@.subrange(i as int, m + 1).last() == c);
        }
        m = m + 1;
    }
    proof {
        assert(v@.subrange(i as int, j as int) =~= ds);
        assert(t.skip(k as int) =~= v@.skip(j as int));
    }
    Some((acc, j))
}

fn parse_int_at(v: &Vec<char>, i: usize) -> (r: Option<(i64, usize)>)
    requires
        i <= v@.len(),
    ensures
        match r {
            Option::Some(xj) => i < xj.1 <= v@.len() && parse_int(v@.skip(i as int))
                == Option::Some((xj.0 as int, v@.skip(xj.1 as int))),
            Option::None => match parse_int(v@.skip(i as int)) {
                Option::None => true,
                Option::Some(vr) => !in_i64(vr.0),
            },
        },
{
    let ghost t = v@.skip(i as int);
    if i < v.len() && v[i] == '-' {
        assert(t[0] == '-');
        match parse_uint_at(v, i + 1) {
            Option::None => {
                proof {
                    assert(t.skip(1) =~= v@.skip(i + 1));
                }
                None
            },
            Option::Some((x, j)) => {
                proof {
                    assert(t.skip(1) =~= v@.skip(i + 1));
                }
                if x > 9223372036854775808u128 {
                    None
                } else if x == 9223372036854775808u128 {
                    Some((i64::MIN, j))
                } else {
                    Some((-(x as i64), j))
                }
            },
        }
    } else {
        proof {
            if t.len() > 0 {
                assert(t[0] != '-');
            }
        }
        match parse_uint_at(v, i) {
            Option::None => None,
            Option::Some((x, j)) => {
                if x > 9223372036854775807u128 {
                    None
                } else {
                    Some((x as i64, j))
                }
            },
        }
    }
}

fn parse_folder_at(v: &Vec<char>, i: usize, host: &Vec<char>) -> (r: Option<(DataFolder, usize)>)
    requires
        i <= v@.len(),
    ensures
        match r {
            Option::Some(fj) => i < fj.1 <= v@.len() && parse_folder(v@.skip(i as int), host@)
                == Option::Some((fj.0@, v@.skip(fj.1 as int))),
            Option::None => parse_folder(v@.skip(i as int), host@) is None,
        },
{
    let lit_open = str_to_chars("[[servers.\"");
    let t1 = match expect_at(v, i, &lit_open) {
        Option::None => {
            return None;
        },
        Option::Some(x) => x,
    };
    let (h2, t2) = match parse_qstr_at(v, t1) {
        Option::None => {
            return None;
        },
        Option::Some(x) => x,
    };
    if !crate::text::chars_eq(&h2, host) {
        return None;
    }
    let lit_tbl = str_to_chars(".data_folders]]\n");
    let t3 = match expect_at(v, t2, &lit_tbl) {
        Option::None => {
            return None;
        },
        Option::Some(x) => x,
    };
    let lit_path = str_to_chars("path = \"");
    let t4 = match expect_at(v, t3, &lit_path) {
        Option::None => {
            return None;
        },
        Option::Some(x) => x,
    };
    let (p, t5) = match parse_qstr_at(v, t4) {
        Option::None => {
            return None;
        },
        Option::Some(x) => x,
    };
    let lit_nl = str_to_chars("\n");
    let t6 = match expect_at(v, t5, &lit_nl) {
        Option::None => {
            return None;
        },
        Option::Some(x) => x,
    };
    let lit_cont = str_to_chars("container = \"");
    match expect_at(v, t6, &lit_cont) {
        Option::Some(t7) => {
            let (cc, t8) = match parse_qstr_at(v, t7) {
                Option::None => {
                    return None;
                },
                Option::Some(x) => x,
            };
            let t9 = match expect_at(v, t8, &lit_nl) {
                Option::None => {
                    return None;
                },
                Option::Some(x) => x,
            };
            let f = DataFolder {
                path: crate::text::chars_to_string(&p),
                container: Some(crate::text::chars_to_string(&cc)),
            };
            assert(f@ == (FolderView { path: p@, container: Option::Some(cc@) }));
            Some((f, t9))
        },
        Option::None => {
            let f = DataFolder { path: crate::text::chars_to_string(&p), container: None };
            assert(f@ == (FolderView { path: p@, container: Option::<Seq<char>>::None }));
            Some((f, t6))
        },
    }
}

fn parse_folders_at(v: &Vec<char>, i: usize, host: &Vec<char>) -> (r: Option<
    (Vec<DataFolder>, usize),
>)
    requires
        i <= v@.len(),
    ensures
        match r {
            Option::Some(fj) => i <= fj.1 <= v@.len() && parse_folders(v@.skip(i as int), host@)
                == Option::Some((crate::store::folders_view(fj.0@), v@.skip(fj.1 as int))),
            Option::None => parse_folders(v@.skip(i as int), host@) is None,
        },
    decreases v@.len() - i,
{
    let lit_open = str_to_chars("[[servers.\"");
    if !chars_start_with(v, i, &lit_open) {
        let fs: Vec<DataFolder> = Vec::new();
        proof {
            assert(crate::store::folders_view(fs@) =~= Seq::<FolderView>::empty());
        }
        return Some((fs, i));
    }
    match parse_folder_at(v, i, host) {
        Option::None => None,
        Option::Some((f, j)) => {
            match parse_folders_at(v, j, host) {
                Option::None => None,
                Option::Some((fs, j2)) => {
                    let mut fs = fs;
                    let ghost tail = fs@;
                    fs.insert(0, f);
                    proof {
                        assert(fs@ =~= seq![f] + tail);
                        assert(crate::store::folders_view(fs@) =~= seq![f@]
                            + crate::store::folders_view(tail));
                    }
                    Some((fs, j2))
                },
            }
        },
    }
}

fn parse_entry_at(v: &Vec<char>, i: usize) -> (r: Option<((String, ServerEntry), usize)>)
    requires
        i <= v@.len(),
    ensures
        match r {
            Option::Some(ej) => i < ej.1 <= v@.len() && parse_entry(v@.skip(i as int))
                == Option::Some((((ej.0).0@, (ej.0).1@), v@.skip(ej.1 as int))),
            Option::None => parse_entry(v@.skip(i as int)) is None,
        },
{
    let lit_open = str_to_chars("[servers.\"");
    let t1 = match expect_at(v, i, &lit_open) {
        Option::None => {
            return None;
        },
        Option::Some(x) => x,
    };
    let (h, t2) = match parse_qstr_at(v, t1) {
        Option::None => {
            return None;
        },
        Option::Some(x) => x,
    };
    let lit_close = str_to_chars("]\n");
    let t3 = match expect_at(v, t2, &lit_close) {
        Option::None => {
            return None;
        },
        Option::Some(x) => x,
    };
    let lit_upd = str_to_chars("last_updated = ");
    let t4 = match expect_at(v, t3, &lit_upd) {
        Option::None => {
            return None;
        },
        Option::Some(x) => x,
    };
    let (ts, t5) = match parse_int_at(v, t4) {
        Option::None => {
            return None;
        },
        Option::Some(x) => x,
    };
    let lit_nl = str_to_chars("\n");
    let t6 = match expect_at(v, t5, &lit_nl) {
        Option::None => {
            return None;
        },
        Option::Some(x) => x,
    };
    let (fs, t7) = match parse_folders_at(v, t6, &h) {
        Option::None => {
            return None;
        },
        Option::Some(x) => x,
    };
    let entry = ServerEntry { last_updated: ts, data_folders: fs };
    let host = crate::text::chars_to_string(&h);
    proof {
        assert(entry@ == (EntryView {
            last_updated: ts as int,
            data_folders: crate::store::folders_view(entry.data_folders@),
        }));
    }
    Some(((host, entry), t7))
}

fn parse_entries_at(v: &Vec<char>, i: usize) -> (r: Option<Vec<(String, ServerEntry)>>)
    requires
        i <= v@.len(),
    ensures
        match r {
            Option::Some(es) => parse_entries(v@.skip(i as int)) == Option::Some(
                entries_view(es@),
            ),
            Option::None => parse_entries(v@.skip(i as int)) is None,
        },
    decreases v@.len() - i,
{
    if i == v.len() {
        let es: Vec<(String, ServerEntry)> = Vec::new();
        proof {
            assert(v@.skip(i as int).len() == 0);
            assert(entries_view(es@) =~= Seq::<(Seq<char>, EntryView)>::empty());
        }
        return Some(es);
    }
    assert(v@.skip(i as int).len() > 0);
    match parse_entry_at(v, i) {
        Option::None => None,
        Option::Some((he, j)) => {
            match parse_entries_at(v, j) {
                Option::None => None,
                Option::Some(rest) => {
                    let mut rest = rest;
                    let ghost tail = rest@;
                    rest.insert(0, he);
                    proof {
                        assert(rest@ =~= seq![he] + tail);
                        assert(entries_view(rest@) =~= seq![(he.0@, he.1@)] + entries_view(tail));
                    }
                    Some(rest)
                },
            }
        },
    }
}

proof fn lemma_sorted_pair(s: Seq<(String, ServerEntry)>, i: int, j: int)
    requires
        forall|m: int| 0 < m < s.len() ==> lex_lt(#[trigger] s[m - 1].0@, s[m].0@),
        0 <= i < j < s.len(),
    ensures
        lex_lt(s[i].0@, s[j].0@),
    decreases j - i,
{
    if j == i + 1 {
        assert(lex_lt(s[j - 1].0@, s[j].0@));
    } else {
        lemma_sorted_pair(s, i, j - 1);
        assert(lex_lt(s[j - 1].0@, s[j].0@));
        lemma_lex_lt_trans(s[i].0@, s[j - 1].0@, s[j].0@);
    }
}

/// Parses a snapshot document back into a store. The result is
/// well-formed; a document that does not parse, or whose hosts are not
/// in strict key order, yields nothing (callers absorb that as an
/// empty store).
pub fn parse_servers_cache(text: &str) -> (r: Option<ServersCache>)
    ensures
        match r {
            Option::Some(c) => c.wf() && parse_entries(text@) == Option::Some(
                entries_view(c.servers@),
            ),
            Option::None => match parse_entries(text@) {
                Option::None => true,
                Option::Some(es) => !sorted_keys(es),
            },
        },
{
    let v = str_to_chars(text);
    proof {
        assert(v@.skip(0) =~= text@);
    }
    match parse_entries_at(&v, 0) {
        Option::None => None,
        Option::Some(servers) => {
            let ghost es = entries_view(servers@);
            let mut m: usize = 1;
            while m < servers.len()
                invariant
                    1 <= m,
                    m <= servers@.len() || servers@.len() < 1,
                    es == entries_view(servers@),
                    parse_entries(text@) == Option::Some(es),
                    forall|q: int| 0 < q < m ==> lex_lt(#[trigger] servers@[q - 1].0@, servers@[q].0@),
                decreases servers@.len() - m,
            {
                if !str_lt(servers[m - 1].0.as_str(), servers[m].0.as_str()) {
                    proof {
                        assert(es[m - 1].0 == servers@[m - 1].0@);
                        assert(es[m as int].0 == servers@[m as int].0@);
                        assert(!lex_lt(es[m - 1].0, es[m as int].0));
                        assert(!sorted_keys(es));
                    }
                    return None;
                }
                m = m + 1;
            }
            proof {
                assert forall|p: int, q: int|
                    0 <= p < q < servers@.len() implies lex_lt(
                    #[trigger] servers@[p].0@,
                    #[trigger] servers@[q].0@,
                ) by {
                    lemma_sorted_pair(servers@, p, q);
                }
            }
            Some(ServersCache { servers })
        },
    }
}

proof fn lemma_expect_prefix(p: Seq<char>, rest: Seq<char>)
    ensures
        expect(p + rest, p) == Option::Some(rest),
{
    assert((p + rest).take(p.len() as int) =~= p);
    assert((p + rest).skip(p.len() as int) =~= rest);
}

proof fn lemma_parse_qstr_esc(s: Seq<char>, rest: Seq<char>)
    ensures
        parse_qstr(esc(s) + seq!['"'] + rest) == Option::Some((s, rest)),
    decreases s.len(),
{
    let t = esc(s) + seq!['"'] + rest;
    if s.len() == 0 {
        assert(esc(s) =~= Seq::<char>::empty());
        assert(t =~= seq!['"'] + rest);
        assert(t[0] == '"');
        assert(t.skip(1) =~= rest);
        assert(s =~= Seq::<char>::empty());
    } else {
        let c = s[0];
        lemma_parse_qstr_esc(s.skip(1), rest);
        let inner = esc(s.skip(1)) + seq!['"'] + rest;
        assert(seq![c] + s.skip(1) =~= s);
        if c == '\\' {
            assert(esc_char(c) =~= seq!['\\', '\\']);
            assert(t =~= seq!['\\', '\\'] + inner);
            assert(t[0] == '\\');
            assert(t[1] == '\\');
            assert(unesc_char(t[1]) == Option::Some('\\'));
            assert(t.skip(2) =~= inner);
        } else if c == '"' {
            assert(esc_char(c) =~= seq!['\\', '"']);
            assert(t =~= seq!['\\', '"'] + inner);
            assert(t[0] == '\\');
            assert(t[1] == '"');
            assert(unesc_char(t[1]) == Option::Some('"'));
            assert(t.skip(2) =~= inner);
        } else if c == '\n' {
            assert(esc_char(c) =~= seq!['\\', 'n']);
            assert(t =~= seq!['\\', 'n'] + inner);
            assert(t[0] == '\\');
            assert(t[1] == 'n');
            assert(unesc_char(t[1]) == Option::Some('\n'));
            assert(t.skip(2) =~= inner);
        } else {
            assert(esc_char(c) =~= seq![c]);
            assert(t =~= seq![c] + inner);
            assert(t[0] == c);
            assert(t.skip(1) =~= inner);
        }
    }
}

proof fn lemma_parse_uint_digits(n: nat, rest: Seq<char>)
    requires
        crate::text::dec_digits(n).len() <= 20,
        rest.len() > 0 ==> !is_digit_char(rest[0]),
    ensures
        parse_uint(crate::text::dec_digits(n) + rest) == Option::Some((n, rest)),
{
    let ds = crate::text::dec_digits(n);
    crate::text::lemma_dec_digits_props(n);
    let t = ds + rest;
    assert(forall|j: int| 0 <= j < ds.len() ==> #[trigger] t[j] == ds[j]);
    assert(ds.len() < t.len() ==> t[ds.len() as int] == rest[0]);
    lemma_digit_run_at(t, ds.len() as int);
    assert(t.take(ds.len() as int) =~= ds);
    assert(t.skip(ds.len() as int) =~= rest);
}

proof fn lemma_parse_int_rt(v: int, rest: Seq<char>)
    requires
        in_i64(v),
        rest.len() > 0 ==> !is_digit_char(rest[0]),
    ensures
        parse_int(int_digits(v) + rest) == Option::Some((v, rest)),
{
    lemma_pow10_20_value();
    if v < 0 {
        let m = (-v) as nat;
        crate::text::lemma_dec_digits_len(m, 19);
        lemma_pow10_mono(19, 20);
        let t = int_digits(v) + rest;
        assert(t =~= seq!['-'] + (crate::text::dec_digits(m) + rest));
        assert(t[0] == '-');
        assert(t.skip(1) =~= crate::text::dec_digits(m) + rest);
        lemma_parse_uint_digits(m, rest);
    } else {
        let m = v as nat;
        crate::text::lemma_dec_digits_len(m, 19);
        let t = int_digits(v) + rest;
        assert(t =~= crate::text::dec_digits(m) + rest);
        crate::text::lemma_dec_digits_props(m);
        assert(t[0] == crate::text::dec_digits(m)[0]);
        assert(is_digit_char(t[0]));
        assert(!is_digit_char('-'));
        assert(t[0] != '-');
        lemma_parse_uint_digits(m, rest);
    }
}

#[verifier::rlimit(60)]
proof fn lemma_parse_folder_rt(host: Seq<char>, f: FolderView, rest: Seq<char>)
    requires
        rest.len() == 0 || rest[0] == '[',
    ensures
        parse_folder(render_folder(host, f) + rest, host) == Option::Some((f, rest)),
{
    let t = render_folder(host, f) + rest;
    reveal_strlit("[[servers.\"");
    reveal_strlit(".data_folders]]\n");
    reveal_strlit("path = \"");
    reveal_strlit("\n");
    reveal_strlit("container = \"");
    match f.container {
        Option::None => {
            let s5 = "\n"@ + rest;
            let s4 = esc(f.path) + seq!['"'] + s5;
            let s3 = "path = \""@ + s4;
            let s2 = ".data_folders]]\n"@ + s3;
            let s1 = esc(host) + seq!['"'] + s2;
            assert(t =~= "[[servers.\""@ + s1);
            lemma_expect_prefix("[[servers.\""@, s1);
            lemma_parse_qstr_esc(host, s2);
            lemma_expect_prefix(".data_folders]]\n"@, s3);
            lemma_expect_prefix("path = \""@, s4);
            lemma_parse_qstr_esc(f.path, s5);
            assert(s5 =~= "\n"@ + rest);
            lemma_expect_prefix("\n"@, rest);
            assert(!starts_with(rest, "container = \""@)) by {
                assert("container = \""@.len() == 13);
                assert("container = \""@[0] == 'c');
                if rest.len() >= 13 && starts_with(rest, "container = \""@) {
                    assert(rest.take(13)[0] == rest[0]);
                    assert(rest[0] == 'c');
                }
            }
            assert((FolderView { path: f.path, container: Option::<Seq<char>>::None }) == f);
        },
        Option::Some(c) => {
            let s8 = "\n"@ + rest;
            let s7 = esc(c) + seq!['"'] + s8;
            let s6 = "container = \""@ + s7;
            let s5 = "\n"@ + s6;
            let s4 = esc(f.path) + seq!['"'] + s5;
            let s3 = "path = \""@ + s4;
            let s2 = ".data_folders]]\n"@ + s3;
            let s1 = esc(host) + seq!['"'] + s2;
            assert(t =~= "[[servers.\""@ + s1);
            lemma_expect_prefix("[[servers.\""@, s1);
            lemma_parse_qstr_esc(host, s2);
            lemma_expect_prefix(".data_folders]]\n"@, s3);
            lemma_expect_prefix("path = \""@, s4);
            lemma_parse_qstr_esc(f.path, s5);
            lemma_expect_prefix("\n"@, s6);
            lemma_expect_prefix("container = \""@, s7);
            lemma_parse_qstr_esc(c, s8);
            lemma_expect_prefix("\n"@, rest);
            assert((FolderView { path: f.path, container: Option::Some(c) }) == f);
        },
    }
}

proof fn lemma_parse_folders_rt(host: Seq<char>, fs: Seq<FolderView>, rest: Seq<char>)
    requires
        rest.len() == 0 || (rest[0] == '[' && (rest.len() < 2 || rest[1] != '[')),
    ensures
        parse_folders(render_folders(host, fs) + rest, host) == Option::Some((fs, rest)),
    decreases fs.len(),
{
    reveal_strlit("[[servers.\"");
    assert("[[servers.\""@.len() == 11);
    assert("[[servers.\""@[0] == '[');
    assert("[[servers.\""@[1] == '[');
    if fs.len() == 0 {
        assert(render_folders(host, fs) =~= Seq::<char>::empty());
        let t = render_folders(host, fs) + rest;
        assert(t =~= rest);
        assert(!starts_with(rest, "[[servers.\""@)) by {
            if rest.len() >= 11 && starts_with(rest, "[[servers.\""@) {
                assert(rest.take(11)[1] == rest[1]);
                assert(rest[1] == '[');
            }
        }
        assert(fs =~= Seq::<FolderView>::empty());
    } else {
        let t = render_folders(host, fs) + rest;
        let inner_rest = render_folders(host, fs.skip(1)) + rest;
        assert(render_folders(host, fs) == render_folder(host, fs[0]) + render_folders(
            host,
            fs.skip(1),
        ));
        assert(t =~= render_folder(host, fs[0]) + inner_rest);
        assert(render_folder(host, fs[0])[0] == '[') by {
            assert(render_folder(host, fs[0])[0] == "[[servers.\""@[0]);
        }
        if fs.skip(1).len() > 0 {
            assert(render_folders(host, fs.skip(1)) == render_folder(host, fs.skip(1)[0])
                + render_folders(host, fs.skip(1).skip(1)));
            assert(inner_rest[0] == render_folder(host, fs.skip(1)[0])[0]);
            assert(render_folder(host, fs.skip(1)[0])[0] == "[[servers.\""@[0]);
            assert(inner_rest[0] == '[');
        } else {
            assert(render_folders(host, fs.skip(1)) =~= Seq::<char>::empty());
            assert(inner_rest =~= rest);
        }
        lemma_parse_folder_rt(host, fs[0], inner_rest);
        assert(starts_with(t, "[[servers.\""@)) by {
            assert(forall|j: int| 0 <= j < 11 ==> t[j] == "[[servers.\""@[j]);
            assert(t.take(11) =~= "[[servers.\""@);
        }
        assert(parse_folder(t, host) == Option::Some((fs[0], inner_rest)));
        assert(inner_rest.len() < t.len());
        lemma_parse_folders_rt(host, fs.skip(1), rest);
        assert(seq![fs[0]] + fs.skip(1) =~= fs);
    }
}

proof fn lemma_parse_entry_rt(host: Seq<char>, e: EntryView, rest: Seq<char>)
    requires
        in_i64(e.last_updated),
        rest.len() == 0 || (rest[0] == '[' && (rest.len() < 2 || rest[1] != '[')),
    ensures
        parse_entry(render_entry(host, e) + rest) == Option::Some(((host, e), rest)),
{
    let t = render_entry(host, e) + rest;
    reveal_strlit("[servers.\"");
    reveal_strlit("]\n");
    reveal_strlit("last_updated = ");
    reveal_strlit("\n");
    let s5 = render_folders(host, e.data_folders) + rest;
    let s4 = "\n"@ + s5;
    let s3 = int_digits(e.last_updated) + s4;
    let s2 = "last_updated = "@ + s3;
    let s1b = "]\n"@ + s2;
    let s1 = esc(host) + seq!['"'] + s1b;
    assert(t =~= "[servers.\""@ + s1);
    lemma_expect_prefix("[servers.\""@, s1);
    lemma_parse_qstr_esc(host, s1b);
    lemma_expect_prefix("]\n"@, s2);
    lemma_expect_prefix("last_updated = "@, s3);
    assert(s4[0] == '\n');
    assert(!is_digit_char('\n'));
    lemma_parse_int_rt(e.last_updated, s4);
    lemma_expect_prefix("\n"@, s5);
    lemma_parse_folders_rt(host, e.data_folders, rest);
    assert((EntryView { last_updated: e.last_updated, data_folders: e.data_folders }) == e);
}

proof fn lemma_parse_doc_rt(entries: Seq<(String, ServerEntry)>)
    ensures
        parse_entries(render_doc(entries)) == Option::Some(entries_view(entries)),
    decreases entries.len(),
{
    reveal_strlit("[servers.\"");
    assert("[servers.\""@.len() == 10);
    assert("[servers.\""@[0] == '[');
    assert("[servers.\""@[1] == 's');
    if entries.len() == 0 {
        assert(render_doc(entries) =~= Seq::<char>::empty());
        assert(entries_view(entries) =~= Seq::<(Seq<char>, EntryView)>::empty());
    } else {
        let host = entries[0].0@;
        let ev = entries[0].1@;
        let rest_doc = render_doc(entries.skip(1));
        let t = render_doc(entries);
        assert(t == render_entry(host, ev) + rest_doc);
        assert(render_entry(host, ev)[0] == '[') by {
            assert(render_entry(host, ev)[0] == "[servers.\""@[0]);
        }
        if entries.skip(1).len() > 0 {
            assert(rest_doc == render_entry(entries.skip(1)[0].0@, entries.skip(1)[0].1@)
                + render_doc(entries.skip(1).skip(1)));
            assert(rest_doc[0] == "[servers.\""@[0]);
            assert(rest_doc[1] == "[servers.\""@[1]);
            assert(rest_doc[0] == '[' && rest_doc[1] == 's');
        } else {
            assert(render_doc(entries.skip(1)) =~= Seq::<char>::empty());
        }
        assert(in_i64(ev.last_updated));
        lemma_parse_entry_rt(host, ev, rest_doc);
        assert(t.len() > 0);
        assert(parse_entry(t) == Option::Some(((host, ev), rest_doc)));
        assert(rest_doc.len() < t.len());
        lemma_parse_doc_rt(entries.skip(1));
        assert(entries_view(entries) =~= seq![(host, ev)] + entries_view(entries.skip(1)));
    }
}

/// A saved snapshot loads back unchanged: parsing the rendered document
/// of any store yields exactly the store's entries, and for a
/// well-formed store the parsed entries are in strict key order, so a
/// load accepts them.
pub proof fn lemma_snapshot_round_trip(cache: ServersCache)
    ensures
        parse_entries(render_doc(cache.servers@)) == Option::Some(entries_view(cache.servers@)),
        cache.wf() ==> sorted_keys(entries_view(cache.servers@)),
{
    lemma_parse_doc_rt(cache.servers@);
    if cache.wf() {
        let es = entries_view(cache.servers@);
        assert forall|i: int, j: int| 0 <= i < j < es.len() implies lex_lt(
            #[trigger] es[i].0,
            #[trigger] es[j].0,
        ) by {
            assert(es[i].0 == cache.servers@[i].0@);
            assert(es[j].0 == cache.servers@[j].0@);
        }
    }
}

} // verus!
