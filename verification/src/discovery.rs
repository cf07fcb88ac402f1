//! The discovery agent's verifiable core: reading candidate hosts out of
//! an SSH client configuration, planning which hosts a refresh probes,
//! turning probe output into data folders, and assembling the probe
//! results into a fresh inventory. The remote probes themselves are
//! blocking transport calls and live with the caller.

use vstd::prelude::*;

use crate::store::{
    folders_view, lookup, probes_map, DataFolder, EntryView, FolderView, ServersCache,
};
use crate::text::{
    chars_start_with, chars_to_string, copy_range, is_space, lines_of, scan_spaces, scan_token,
    skip_spaces, split_lines, starts_with, str_eq, str_to_chars, token_len,
};

verus! {

/// The `Host ` keyword that opens a host declaration line.
pub open spec fn host_kw() -> Seq<char> {
    seq!['H', 'o', 's', 't', ' ']
}

fn host_kw_chars() -> (r: Vec<char>)
    ensures
        r@ == host_kw(),
{
    let mut r: Vec<char> = Vec::new();
    r.push('H');
    r.push('o');
    r.push('s');
    r.push('t');
    r.push(' ');
    proof {
        assert(r@ =~= host_kw());
    }
    r
}

/// The candidate host contributed by one configuration line: its second
/// whitespace-delimited token, when the line (leading whitespace aside)
/// begins with the `Host ` keyword.
pub open spec fn host_of_line(l: Seq<char>) -> Option<Seq<char>> {
    let t = skip_spaces(l);
    if starts_with(t, host_kw()) {
        let r1 = t.skip(token_len(t) as int);
        let s2 = skip_spaces(r1);
        if s2.len() == 0 {
            Option::None
        } else {
            Option::Some(s2.take(token_len(s2) as int))
        }
    } else {
        Option::None
    }
}

/// The candidate hosts of a sequence of lines, in file order, repeats kept.
pub open spec fn hosts_of_lines(ls: Seq<Seq<char>>) -> Seq<Seq<char>>
    decreases ls.len(),
{
    if ls.len() == 0 {
        Seq::empty()
    } else {
        let rest = hosts_of_lines(ls.skip(1));
        match host_of_line(ls[0]) {
            Option::Some(h) => seq![h] + rest,
            Option::None => rest,
        }
    }
}

/// The candidate hosts declared in an SSH client configuration text.
pub open spec fn ssh_hosts(text: Seq<char>) -> Seq<Seq<char>> {
    hosts_of_lines(lines_of(text))
}

proof fn lemma_hosts_of_lines_snoc(ls: Seq<Seq<char>>, l: Seq<char>)
    ensures
        hosts_of_lines(ls.push(l)) == hosts_of_lines(ls) + (match host_of_line(l) {
            Option::Some(h) => seq![h],
            Option::None => Seq::<Seq<char>>::empty(),
        }),
    decreases ls.len(),
{
    if ls.len() == 0 {
        let p = ls.push(l);
        assert(p.len() == 1);
        assert(p[0] == l);
        assert(p.skip(1) =~= Seq::<Seq<char>>::empty());
        assert(hosts_of_lines(p.skip(1)) =~= Seq::<Seq<char>>::empty());
        assert(hosts_of_lines(ls) =~= Seq::<Seq<char>>::empty());
        match host_of_line(l) {
            Option::Some(h) => {
                assert(hosts_of_lines(p) =~= seq![h] + hosts_of_lines(p.skip(1)));
                assert(hosts_of_lines(p) =~= hosts_of_lines(ls) + seq![h]);
            },
            Option::None => {
                assert(hosts_of_lines(p) =~= hosts_of_lines(ls));
            },
        }
    } else {
        assert(ls.push(l).skip(1) =~= ls.skip(1).push(l));
        lemma_hosts_of_lines_snoc(ls.skip(1), l);
        match host_of_line(ls[0]) {
            Option::Some(h0) => {
                assert(hosts_of_lines(ls.push(l)) =~= hosts_of_lines(ls) + (match host_of_line(
                    l,
                ) {
                    Option::Some(h) => seq![h],
                    Option::None => Seq::<Seq<char>>::empty(),
                }));
            },
            Option::None => {
            },
        }
    }
}

fn host_of_line_exec(line: &String) -> (r: Option<String>)
    ensures
        match r {
            Option::Some(h) => host_of_line(line@) == Option::Some(h@),
            Option::None => host_of_line(line@) is None,
        },
{
    let v = str_to_chars(line.as_str());
    let a = scan_spaces(&v, 0);
    proof {
        assert(v@.skip(0) =~= v@);
    }
    let kw = host_kw_chars();
    if !chars_start_with(&v, a, &kw) {
        return None;
    }
    let ghost t = v@.skip(a as int);
    let b = scan_token(&v, a);
    proof {
        assert(t.skip(token_len(t) as int) =~= v@.skip(b as int));
    }
    let c0 = scan_spaces(&v, b);
    if c0 == v.len() {
        proof {
            assert(v@.skip(c0 as int).len() == 0);
        }
        return None;
    }
    let d = scan_token(&v, c0);
    proof {
        assert(d > c0) by {
            assert(!is_space(v@[c0 as int]));
            assert(token_len(v@.skip(c0 as int)) > 0);
        }
    }
    let tok = copy_range(&v, c0, d);
    proof {
        assert(tok@ =~= v@.skip(c0 as int).take(token_len(v@.skip(c0 as int)) as int));
    }
    Some(chars_to_string(&tok))
}

/// Reads the candidate hosts out of an SSH client configuration text:
/// each line whose first token is `Host` contributes its second token,
/// in file order, without removing repeats.
pub fn parse_ssh_hosts(contents: &str) -> (r: Vec<String>)
    ensures
        r.deep_view() == ssh_hosts(contents@),
{
    let lines = split_lines(contents);
    let mut out: Vec<String> = Vec::new();
    let mut i: usize = 0;
    while i < lines.len()
        invariant
            i <= lines@.len(),
            lines.deep_view() == lines_of(contents@),
            out.deep_view() == hosts_of_lines(lines.deep_view().take(i as int)),
        decreases lines@.len() - i,
    {
        proof {
            assert(lines.deep_view().take(i + 1) =~= lines.deep_view().take(i as int).push(
                lines.deep_view()[i as int],
            ));
            lemma_hosts_of_lines_snoc(lines.deep_view().take(i as int), lines.deep_view()[i as int]);
        }
        match host_of_line_exec(&lines[i]) {
            Option::Some(h) => {
                out.push(h);
                proof {
                    assert(out.deep_view() =~= hosts_of_lines(lines.deep_view().take(i + 1)));
                }
            },
            Option::None => {
                proof {
                    assert(out.deep_view() =~= hosts_of_lines(lines.deep_view().take(i + 1)));
                }
            },
        }
        i = i + 1;
    }
    proof {
        assert(lines.deep_view().take(i as int) =~= lines.deep_view());
    }
    out
}

/// Membership of a host name in a sequence of host names.
pub open spec fn contains_str(hs: Seq<Seq<char>>, h: Seq<char>) -> bool {
    exists|i: int| 0 <= i < hs.len() && hs[i] == h
}

fn contains_host(hs: &Vec<String>, h: &String) -> (r: bool)
    ensures
        r == contains_str(hs.deep_view(), h@),
{
    let mut i: usize = 0;
    while i < hs.len()
        invariant
            i <= hs@.len(),
            forall|j: int| 0 <= j < i ==> hs.deep_view()[j] != h@,
        decreases hs@.len() - i,
    {
        if str_eq(hs[i].as_str(), h.as_str()) {
            assert(hs.deep_view()[i as int] == h@);
            return true;
        }
        i = i + 1;
    }
    false
}

/// The hosts a refresh pass probes: the candidates in order, repeats
/// kept, with ignored hosts and empty names removed.
pub open spec fn plan_spec(hosts: Seq<Seq<char>>, ignore: Seq<Seq<char>>) -> Seq<Seq<char>>
    decreases hosts.len(),
{
    if hosts.len() == 0 {
        Seq::empty()
    } else {
        let rest = plan_spec(hosts.skip(1), ignore);
        if !contains_str(ignore, hosts[0]) && hosts[0].len() > 0 {
            seq![hosts[0]] + rest
        } else {
            rest
        }
    }
}

proof fn lemma_plan_spec_snoc(hosts: Seq<Seq<char>>, ignore: Seq<Seq<char>>, h: Seq<char>)
    ensures
        plan_spec(hosts.push(h), ignore) == plan_spec(hosts, ignore) + (if !contains_str(
            ignore,
            h,
        ) && h.len() > 0 {
            seq![h]
        } else {
            Seq::<Seq<char>>::empty()
        }),
    decreases hosts.len(),
{
    if hosts.len() == 0 {
        let p = hosts.push(h);
        assert(p.len() == 1);
        assert(p[0] == h);
        assert(p.skip(1) =~= Seq::<Seq<char>>::empty());
        assert(plan_spec(p.skip(1), ignore) =~= Seq::<Seq<char>>::empty());
        assert(plan_spec(hosts, ignore) =~= Seq::<Seq<char>>::empty());
        if !contains_str(ignore, h) && h.len() > 0 {
            assert(plan_spec(p, ignore) =~= seq![h] + plan_spec(p.skip(1), ignore));
            assert(plan_spec(p, ignore) =~= plan_spec(hosts, ignore) + seq![h]);
        } else {
            assert(plan_spec(p, ignore) =~= plan_spec(hosts, ignore));
        }
    } else {
        assert(hosts.push(h).skip(1) =~= hosts.skip(1).push(h));
        lemma_plan_spec_snoc(hosts.skip(1), ignore, h);
        assert(plan_spec(hosts.push(h), ignore) =~= plan_spec(hosts, ignore) + (if !contains_str(
            ignore,
            h,
        ) && h.len() > 0 {
            seq![h]
        } else {
            Seq::<Seq<char>>::empty()
        }));
    }
}

/// Filters the candidate hosts for one refresh pass: a host present in
/// `ignore_hosts` (exact match) or empty is left out, order and repeats
/// are kept.
pub fn refresh_plan(hosts: &Vec<String>, ignore_hosts: &Vec<String>) -> (r: Vec<String>)
    ensures
        r.deep_view() == plan_spec(hosts.deep_view(), ignore_hosts.deep_view()),
{
    let mut out: Vec<String> = Vec::new();
    let mut i: usize = 0;
    while i < hosts.len()
        invariant
            i <= hosts@.len(),
            out.deep_view() == plan_spec(hosts.deep_view().take(i as int), ignore_hosts.deep_view()),
        decreases hosts@.len() - i,
    {
        proof {
            assert(hosts.deep_view().take(i + 1) =~= hosts.deep_view().take(i as int).push(
                hosts.deep_view()[i as int],
            ));
            lemma_plan_spec_snoc(
                hosts.deep_view().take(i as int),
                ignore_hosts.deep_view(),
                hosts.deep_view()[i as int],
            );
        }
        let h = &hosts[i];
        if !contains_host(ignore_hosts, h) && h.as_str().unicode_len() > 0 {
            let copy = crate::text::chars_to_string(&crate::text::str_to_chars(h.as_str()));
            out.push(copy);
            proof {
                assert(out.deep_view() =~= plan_spec(
                    hosts.deep_view().take(i + 1),
                    ignore_hosts.deep_view(),
                ));
            }
        } else {
            proof {
                assert(out.deep_view() =~= plan_spec(
                    hosts.deep_view().take(i + 1),
                    ignore_hosts.deep_view(),
                ));
            }
        }
        i = i + 1;
    }
    proof {
        assert(hosts.deep_view().take(i as int) =~= hosts.deep_view());
    }
    out
}

/// A planned refresh never probes an ignored host, so the inventory
/// assembled from its probe results never holds one: any host in
/// `ignore` is absent from the map of any probe sequence whose hosts
/// all come from `plan_spec(hosts, ignore)`.
pub proof fn lemma_refresh_excludes_ignored(
    probes: Seq<(String, i64, Vec<DataFolder>)>,
    hosts: Seq<Seq<char>>,
    ignore: Seq<Seq<char>>,
    g: Seq<char>,
)
    requires
        contains_str(ignore, g),
        forall|i: int|
            0 <= i < probes.len() ==> contains_str(plan_spec(hosts, ignore), #[trigger] probes[i].0@),
    ensures
        !probes_map(probes).dom().contains(g),
    decreases probes.len(),
{
    lemma_plan_excludes_ignored(hosts, ignore, g);
    if probes.len() > 0 {
        lemma_refresh_excludes_ignored(probes.drop_last(), hosts, ignore, g);
        assert(probes.last().0@ != g);
    }
}

/// No ignored host survives the planning filter.
pub proof fn lemma_plan_excludes_ignored(
    hosts: Seq<Seq<char>>,
    ignore: Seq<Seq<char>>,
    g: Seq<char>,
)
    requires
        contains_str(ignore, g),
    ensures
        !contains_str(plan_spec(hosts, ignore), g),
    decreases hosts.len(),
{
    if hosts.len() > 0 {
        lemma_plan_excludes_ignored(hosts.skip(1), ignore, g);
        let rest = plan_spec(hosts.skip(1), ignore);
        if !contains_str(ignore, hosts[0]) && hosts[0].len() > 0 {
            let whole = seq![hosts[0]] + rest;
            assert forall|i: int| 0 <= i < whole.len() implies whole[i] != g by {
                if i == 0 {
                    assert(hosts[0] != g);
                } else {
                    assert(whole[i] == rest[i - 1]);
                }
            }
        }
    }
}

/// The data folders named by one probe's output: one folder per line
/// that holds any non-whitespace character, its path the line verbatim,
/// its container binding absent.
pub open spec fn folders_spec(ls: Seq<Seq<char>>) -> Seq<FolderView>
    decreases ls.len(),
{
    if ls.len() == 0 {
        Seq::empty()
    } else {
        let rest = folders_spec(ls.skip(1));
        if skip_spaces(ls[0]).len() > 0 {
            seq![FolderView { path: ls[0], container: Option::None }] + rest
        } else {
            rest
        }
    }
}

proof fn lemma_folders_spec_snoc(ls: Seq<Seq<char>>, l: Seq<char>)
    ensures
        folders_spec(ls.push(l)) == folders_spec(ls) + (if skip_spaces(l).len() > 0 {
            seq![FolderView { path: l, container: Option::None }]
        } else {
            Seq::<FolderView>::empty()
        }),
    decreases ls.len(),
{
    if ls.len() == 0 {
        let p = ls.push(l);
        assert(p.len() == 1);
        assert(p[0] == l);
        assert(p.skip(1) =~= Seq::<Seq<char>>::empty());
        assert(folders_spec(p.skip(1)) =~= Seq::<FolderView>::empty());
        assert(folders_spec(ls) =~= Seq::<FolderView>::empty());
        if skip_spaces(l).len() > 0 {
            assert(folders_spec(p) =~= seq![FolderView { path: l, container: Option::None }]
                + folders_spec(p.skip(1)));
            assert(folders_spec(p) =~= folders_spec(ls) + seq![
                FolderView { path: l, container: Option::None },
            ]);
        } else {
            assert(folders_spec(p) =~= folders_spec(ls));
        }
    } else {
        assert(ls.push(l).skip(1) =~= ls.skip(1).push(l));
        lemma_folders_spec_snoc(ls.skip(1), l);
        assert(folders_spec(ls.push(l)) =~= folders_spec(ls) + (if skip_spaces(l).len() > 0 {
            seq![FolderView { path: l, container: Option::None }]
        } else {
            Seq::<FolderView>::empty()
        }));
    }
}

/// Turns one host probe's output into its data folders: one folder per
/// line that is not blank, the line taken verbatim as the path. A failed
/// probe contributes no output, hence no folders.
pub fn parse_folder_listing(output: &str) -> (r: Vec<DataFolder>)
    ensures
        folders_view(r@) == folders_spec(lines_of(output@)),
{
    let lines = split_lines(output);
    let mut out: Vec<DataFolder> = Vec::new();
    let mut i: usize = 0;
    while i < lines.len()
        invariant
            i <= lines@.len(),
            lines.deep_view() == lines_of(output@),
            folders_view(out@) == folders_spec(lines.deep_view().take(i as int)),
        decreases lines@.len() - i,
    {
        proof {
            assert(lines.deep_view().take(i + 1) =~= lines.deep_view().take(i as int).push(
                lines.deep_view()[i as int],
            ));
            lemma_folders_spec_snoc(lines.deep_view().take(i as int), lines.deep_view()[i as int]);
        }
        let v = str_to_chars(lines[i].as_str());
        let a = scan_spaces(&v, 0);
        proof {
            assert(v@.skip(0) =~= v@);
        }
        if a < v.len() {
            let path = chars_to_string(&v);
            out.push(DataFolder { path, container: None });
            proof {
                assert(skip_spaces(lines.deep_view()[i as int]).len() > 0);
                assert(folders_view(out@) =~= folders_spec(lines.deep_view().take(i + 1)));
            }
        } else {
            proof {
                assert(skip_spaces(lines.deep_view()[i as int]).len() == 0);
                assert(folders_view(out@) =~= folders_spec(lines.deep_view().take(i + 1)));
            }
        }
        i = i + 1;
    }
    proof {
        assert(lines.deep_view().take(i as int) =~= lines.deep_view());
    }
    out
}

} // verus!
