//! The target selector: renders an inventory as one candidate line per
//! (host, data folder) pair, the host visually de-emphasized, and turns
//! a selected line back into a structured (host, application) identity.
//! The interactive picker itself is an external collaborator; this module
//! only prepares candidate strings and parses the result string.

use vstd::prelude::*;

use crate::remote_app::RemoteApp;
use crate::store::{FolderView, ServerEntry, ServersCache};
use crate::text::{
    chars_to_string, copy_range, find_char, find_char_in, is_digit_char, lemma_find_char_spec,
    lemma_find_char_witness, push_str_chars, str_to_chars,
};

verus! {

/// The SGR code a dimmed span opens with.
pub open spec fn dim_prefix() -> Seq<char> {
    seq!['\u{1b}', '[', '2', 'm']
}

/// The SGR reset code that closes a styled span.
pub open spec fn sgr_reset() -> Seq<char> {
    seq!['\u{1b}', '[', '0', 'm']
}

/// Relies on ansi_term's `Style::paint` and the `Display` of the painted
/// string: a style with only the dimmed property set writes the SGR dim
/// code, the text unchanged, and the SGR reset code.
#[verifier::external_body]
fn dim(s: &str) -> (r: String)
    ensures
        r@ == dim_prefix() + s@ + sgr_reset(),
{
    ansi_term::Style::new().dimmed().paint(s).to_string()
}

/// One candidate line: `<folder-path>:<host>`, the host dimmed.
pub open spec fn candidate_line(path: Seq<char>, host: Seq<char>) -> Seq<char> {
    path + seq![':'] + dim_prefix() + host + sgr_reset()
}

/// The candidate lines of one host's entry, one per data folder, in order.
pub open spec fn entry_lines(host: Seq<char>, folders: Seq<FolderView>) -> Seq<Seq<char>>
    decreases folders.len(),
{
    if folders.len() == 0 {
        Seq::empty()
    } else {
        seq![candidate_line(folders[0].path, host)] + entry_lines(host, folders.skip(1))
    }
}

/// The candidate lines of a whole inventory, hosts in store order.
pub open spec fn candidate_lines(entries: Seq<(String, ServerEntry)>) -> Seq<Seq<char>>
    decreases entries.len(),
{
    if entries.len() == 0 {
        Seq::empty()
    } else {
        entry_lines(entries[0].0@, entries[0].1@.data_folders) + candidate_lines(entries.skip(1))
    }
}

proof fn lemma_entry_lines_snoc(host: Seq<char>, fs: Seq<FolderView>, f: FolderView)
    ensures
        entry_lines(host, fs.push(f)) == entry_lines(host, fs) + seq![candidate_line(f.path, host)],
    decreases fs.len(),
{
    if fs.len() == 0 {
        let p = fs.push(f);
        assert(p.len() == 1);
        assert(p[0] == f);
        assert(p.skip(1) =~= Seq::<FolderView>::empty());
        assert(entry_lines(host, p.skip(1)) =~= Seq::<Seq<char>>::empty());
        assert(entry_lines(host, p) =~= entry_lines(host, fs) + seq![candidate_line(f.path, host)]);
    } else {
        assert(fs.push(f).skip(1) =~= fs.skip(1).push(f));
        lemma_entry_lines_snoc(host, fs.skip(1), f);
        assert(entry_lines(host, fs.push(f)) =~= entry_lines(host, fs) + seq![
            candidate_line(f.path, host),
        ]);
    }
}

proof fn lemma_candidate_lines_snoc(es: Seq<(String, ServerEntry)>, e: (String, ServerEntry))
    ensures
        candidate_lines(es.push(e)) == candidate_lines(es) + entry_lines(
            e.0@,
            e.1@.data_folders,
        ),
    decreases es.len(),
{
    if es.len() == 0 {
        let p = es.push(e);
        assert(p.len() == 1);
        assert(p[0] == e);
        assert(p.skip(1) =~= Seq::<(String, ServerEntry)>::empty());
        assert(candidate_lines(p.skip(1)) =~= Seq::<Seq<char>>::empty());
        assert(candidate_lines(p) =~= candidate_lines(es) + entry_lines(e.0@, e.1@.data_folders));
    } else {
        assert(es.push(e).skip(1) =~= es.skip(1).push(e));
        lemma_candidate_lines_snoc(es.skip(1), e);
        assert(candidate_lines(es.push(e)) =~= candidate_lines(es) + entry_lines(
            e.0@,
            e.1@.data_folders,
        ));
    }
}

/// Renders the inventory as a flat candidate list, one line per
/// (host, data folder) pair, in store order; an empty inventory yields
/// an empty list.
pub fn build_fzf_lines(cache: &ServersCache) -> (r: Vec<String>)
    ensures
        r.deep_view() == candidate_lines(cache.servers@),
        r@.len() == total_folders(cache.servers@),
{
    proof {
        lemma_candidate_count(cache.servers@);
    }
    let mut out: Vec<String> = Vec::new();
    let mut i: usize = 0;
    while i < cache.servers.len()
        invariant
            i <= cache.servers@.len(),
            out.deep_view() == candidate_lines(cache.servers@.take(i as int)),
        decreases cache.servers@.len() - i,
    {
        proof {
            assert(cache.servers@.take(i + 1) =~= cache.servers@.take(i as int).push(
                cache.servers@[i as int],
            ));
            lemma_candidate_lines_snoc(cache.servers@.take(i as int), cache.servers@[i as int]);
        }
        let host = &cache.servers[i].0;
        let folders = &cache.servers[i].1.data_folders;
        let styled_host = dim(host.as_str());
        let ghost fvs = cache.servers@[i as int].1@.data_folders;
        let mut j: usize = 0;
        proof {
            assert(fvs.take(0) =~= Seq::<FolderView>::empty());
            assert(entry_lines(host@, fvs.take(0)) =~= Seq::<Seq<char>>::empty());
            assert(out.deep_view() =~= candidate_lines(cache.servers@.take(i as int)) + entry_lines(
                host@,
                fvs.take(0),
            ));
        }
        while j < folders.len()
            invariant
                j <= folders@.len(),
                fvs == crate::store::folders_view(folders@),
                fvs.len() == folders@.len(),
                host@ == cache.servers@[i as int].0@,
                styled_host@ == dim_prefix() + host@ + sgr_reset(),
                i < cache.servers@.len(),
                out.deep_view() == candidate_lines(cache.servers@.take(i as int)) + entry_lines(
                    host@,
                    fvs.take(j as int),
                ),
            decreases folders@.len() - j,
        {
            proof {
                assert(fvs.take(j + 1) =~= fvs.take(j as int).push(fvs[j as int]));
                lemma_entry_lines_snoc(host@, fvs.take(j as int), fvs[j as int]);
            }
            let mut line: Vec<char> = Vec::new();
            push_str_chars(&mut line, folders[j].path.as_str());
            line.push(':');
            push_str_chars(&mut line, styled_host.as_str());
            proof {
                assert(fvs[j as int].path == folders@[j as int].path@);
                assert(line@ =~= candidate_line(fvs[j as int].path, host@));
            }
            let rendered = chars_to_string(&line);
            let ghost old_deep = out.deep_view();
            out.push(rendered);
            proof {
                assert(out.deep_view() =~= old_deep.push(line@)) by {
                    assert(out.deep_view().len() == old_deep.len() + 1);
                    assert(forall|k: int|
                        0 <= k < old_deep.len() ==> out.deep_view()[k] == old_deep[k]);
                    assert(out.deep_view()[old_deep.len() as int] == line@);
                }
                assert(out.deep_view() =~= candidate_lines(cache.servers@.take(i as int))
                    + entry_lines(host@, fvs.take(j + 1)));
            }
            j = j + 1;
        }
        proof {
            assert(fvs.take(j as int) =~= fvs);
            assert(out.deep_view() =~= candidate_lines(cache.servers@.take(i + 1)));
        }
        i = i + 1;
    }
    proof {
        assert(cache.servers@.take(i as int) =~= cache.servers@);
    }
    out
}

/// The total count of data folders across all hosts of an inventory.
pub open spec fn total_folders(entries: Seq<(String, ServerEntry)>) -> nat
    decreases entries.len(),
{
    if entries.len() == 0 {
        0
    } else {
        entries[0].1@.data_folders.len() + total_folders(entries.skip(1))
    }
}

proof fn lemma_entry_lines_len(host: Seq<char>, fs: Seq<FolderView>)
    ensures
        entry_lines(host, fs).len() == fs.len(),
    decreases fs.len(),
{
    if fs.len() > 0 {
        lemma_entry_lines_len(host, fs.skip(1));
    }
}

/// The candidate list has exactly one line per data folder: its length
/// is the total count of data folders across all hosts.
pub proof fn lemma_candidate_count(entries: Seq<(String, ServerEntry)>)
    ensures
        candidate_lines(entries).len() == total_folders(entries),
    decreases entries.len(),
{
    if entries.len() > 0 {
        lemma_entry_lines_len(entries[0].0@, entries[0].1@.data_folders);
        lemma_candidate_count(entries.skip(1));
    }
}

/// A character that may stand inside an SGR code's parameter list.
pub open spec fn is_sgr_body(c: char) -> bool {
    is_digit_char(c) || c == ';'
}

fn is_sgr_body_c(c: char) -> (r: bool)
    ensures
        r == is_sgr_body(c),
{
    ('0' as u32) <= (c as u32) && (c as u32) <= ('9' as u32) || c == ';'
}

/// Length of the leading run of SGR parameter characters.
pub open spec fn sgr_run_len(s: Seq<char>) -> nat
    decreases s.len(),
{
    if s.len() > 0 && is_sgr_body(s[0]) {
        1 + sgr_run_len(s.skip(1))
    } else {
        0
    }
}

proof fn lemma_sgr_run_len_at(s: Seq<char>, t: int)
    requires
        0 <= t <= s.len(),
        forall|j: int| 0 <= j < t ==> is_sgr_body(s[j]),
        t < s.len() ==> !is_sgr_body(s[t]),
    ensures
        sgr_run_len(s) == t,
    decreases t,
{
    if t > 0 {
        lemma_sgr_run_len_at(s.skip(1), t - 1);
    }
}

/// `s` with every SGR styling sequence (escape, `[`, digits or
/// semicolons, `m`) removed, scanning left to right.
pub open spec fn strip_sgr(s: Seq<char>) -> Seq<char>
    decreases s.len(),
{
    if s.len() == 0 {
        Seq::empty()
    } else if s[0] == '\u{1b}' && s.len() >= 2 && s[1] == '[' && 2 + sgr_run_len(s.skip(2))
        < s.len() && s[2 + sgr_run_len(s.skip(2)) as int] == 'm' {
        strip_sgr(s.skip(3 + sgr_run_len(s.skip(2)) as int))
    } else {
        seq![s[0]] + strip_sgr(s.skip(1))
    }
}

fn strip_sgr_from(v: &Vec<char>, i: usize) -> (r: Vec<char>)
    requires
        i <= v@.len(),
    ensures
        r@ == strip_sgr(v@.skip(i as int)),
    decreases v@.len() - i,
{
    let ghost s = v@.skip(i as int);
    if i == v.len() {
        let r: Vec<char> = Vec::new();
        proof {
            assert(r@ =~= strip_sgr(s));
        }
        return r;
    }
    if v[i] == '\u{1b}' && i + 1 < v.len() && v[i + 1] == '[' {
        let mut j: usize = i + 2;
        while j < v.len() && is_sgr_body_c(v[j])
            invariant
                i + 2 <= j <= v@.len(),
                forall|q: int| i + 2 <= q < j ==> is_sgr_body(v@[q]),
            decreases v@.len() - j,
        {
            j = j + 1;
        }
        proof {
            assert(forall|q: int|
                0 <= q < j - i - 2 ==> #[trigger] s.skip(2)[q] == v@[i + 2 + q]
                    && is_sgr_body(s.skip(2)[q]));
            lemma_sgr_run_len_at(s.skip(2), j - i - 2);
        }
        if j < v.len() && v[j] == 'm' {
            let r = strip_sgr_from(v, j + 1);
            proof {
                assert(s[2 + sgr_run_len(s.skip(2)) as int] == 'm');
                assert(v@.skip(j + 1) =~= s.skip(3 + sgr_run_len(s.skip(2)) as int));
            }
            return r;
        }
    }
    let mut r = strip_sgr_from(v, i + 1);
    proof {
        assert(v@.skip(i + 1) =~= s.skip(1));
    }
    r.insert(0, v[i]);
    proof {
        assert(r@ =~= strip_sgr(s));
    }
    r
}

/// Removes embedded terminal styling sequences from a selected line.
pub fn strip_ansi(s: &str) -> (r: String)
    ensures
        r@ == strip_sgr(s@),
{
    let v = str_to_chars(s);
    let cleaned = strip_sgr_from(&v, 0);
    proof {
        assert(v@.skip(0) =~= s@);
    }
    chars_to_string(&cleaned)
}

/// What a selected candidate line resolves to: styling stripped, the
/// text before the first `:` is the application name, the text after it
/// the host; a line without the separator resolves to nothing.
pub open spec fn selection_spec(s: Seq<char>) -> Option<(Seq<char>, Seq<char>)> {
    let clean = strip_sgr(s);
    match find_char(clean, ':') {
        Option::None => Option::None,
        Option::Some(i) => Option::Some((clean.take(i), clean.skip(i + 1))),
    }
}

/// Resolves one selected line back into a remote application identity;
/// `None` stands for an unparsable line and is treated as a cancelled
/// selection by callers.
pub fn parse_selection(selected: &str) -> (r: Option<RemoteApp>)
    ensures
        match r {
            Option::Some(app) => selection_spec(selected@) == Option::Some(
                (app.app_name@, app.host@),
            ),
            Option::None => selection_spec(selected@) is None,
        },
{
    let clean = strip_ansi(selected);
    let cv = str_to_chars(clean.as_str());
    match find_char_in(&cv, ':') {
        Option::None => None,
        Option::Some(i) => {
            let n = cv.len();
            proof {
                lemma_find_char_spec(cv@, ':');
            }
            assert(i < n);
            let app_chars = copy_range(&cv, 0, i);
            let host_chars = copy_range(&cv, i + 1, n);
            proof {
                assert(app_chars@ =~= strip_sgr(selected@).take(i as int));
                assert(host_chars@ =~= strip_sgr(selected@).skip(i + 1));
            }
            Some(RemoteApp {
                host: chars_to_string(&host_chars),
                app_name: chars_to_string(&app_chars),
            })
        },
    }
}

proof fn lemma_strip_no_esc_concat(a: Seq<char>, b: Seq<char>)
    requires
        forall|j: int| 0 <= j < a.len() ==> a[j] != '\u{1b}',
    ensures
        strip_sgr(a + b) == a + strip_sgr(b),
    decreases a.len(),
{
    if a.len() == 0 {
        assert(a + b =~= b);
        assert(a + strip_sgr(b) =~= strip_sgr(b));
    } else {
        let s = a + b;
        assert(s[0] == a[0]);
        assert(s[0] != '\u{1b}');
        assert(s.skip(1) =~= a.skip(1) + b);
        lemma_strip_no_esc_concat(a.skip(1), b);
        assert(strip_sgr(s) =~= seq![a[0]] + (a.skip(1) + strip_sgr(b)));
        assert(seq![a[0]] + (a.skip(1) + strip_sgr(b)) =~= a + strip_sgr(b));
    }
}

proof fn lemma_strip_sgr_code(code: char, x: Seq<char>)
    requires
        is_sgr_body(code),
    ensures
        strip_sgr(seq!['\u{1b}', '[', code, 'm'] + x) == strip_sgr(x),
{
    let s = seq!['\u{1b}', '[', code, 'm'] + x;
    assert(s.len() == 4 + x.len());
    assert(s[0] == '\u{1b}');
    assert(s[1] == '[');
    assert(s[2] == code);
    assert(s[3] == 'm');
    let t = s.skip(2);
    assert(t[0] == code);
    assert(t[1] == 'm');
    assert(!is_sgr_body('m')) by {
        assert(!is_digit_char('m'));
    }
    assert(forall|j: int| 0 <= j < 1 ==> is_sgr_body(t[j]));
    lemma_sgr_run_len_at(t, 1);
    assert(sgr_run_len(s.skip(2)) == 1);
    assert(s[3int] == 'm');
    assert(2 + 1 < s.len());
    assert(s.skip(4) =~= x);
}

/// Resolving is the left inverse of rendering: a candidate line built
/// from a folder path and a host resolves, after styling is stripped,
/// to exactly that (application, host) pair, provided the path holds
/// neither a `:` nor an escape character and the host holds no escape
/// character.
pub proof fn lemma_selection_round_trip(path: Seq<char>, host: Seq<char>)
    requires
        forall|j: int| 0 <= j < path.len() ==> path[j] != ':' && path[j] != '\u{1b}',
        forall|j: int| 0 <= j < host.len() ==> host[j] != '\u{1b}',
    ensures
        selection_spec(candidate_line(path, host)) == Option::Some((path, host)),
{
    let line = candidate_line(path, host);
    let tail = dim_prefix() + host + sgr_reset();
    assert(line =~= (path + seq![':']) + tail);
    assert(forall|j: int| 0 <= j < (path + seq![':']).len() ==> (path + seq![':'])[j] != '\u{1b}');
    lemma_strip_no_esc_concat(path + seq![':'], tail);
    assert(tail =~= seq!['\u{1b}', '[', '2', 'm'] + (host + sgr_reset()));
    lemma_strip_sgr_code('2', host + sgr_reset());
    assert(is_sgr_body('2'));
    lemma_strip_no_esc_concat(host, sgr_reset());
    assert(sgr_reset() =~= seq!['\u{1b}', '[', '0', 'm'] + Seq::<char>::empty());
    lemma_strip_sgr_code('0', Seq::<char>::empty());
    assert(is_sgr_body('0'));
    assert(strip_sgr(Seq::<char>::empty()) =~= Seq::<char>::empty());
    assert(strip_sgr(sgr_reset()) =~= Seq::<char>::empty());
    assert(strip_sgr(host + sgr_reset()) =~= host);
    assert(strip_sgr(tail) =~= host);
    let clean = strip_sgr(line);
    assert(clean =~= path + seq![':'] + host);
    assert(clean[path.len() as int] == ':');
    assert(forall|j: int| 0 <= j < path.len() ==> clean[j] == path[j] && clean[j] != ':');
    lemma_find_char_witness(clean, ':', path.len() as int);
    assert(clean.take(path.len() as int) =~= path);
    assert(clean.skip(path.len() as int + 1) =~= host);
}

} // verus!
